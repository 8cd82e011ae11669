use pms_master::commands::handshake::{handshake_outcome, HandshakeOutcome};
use pms_master::config::{Config, General, TlsConfig};
use pms_master::constants::{DEFAULT_MAIN_PATH, DEFAULT_OBJECT_PATH, DEFAULT_PROCESSES};
use pms_master::handler::host_pass_digest;
use pms_master::handler::judge::{
    estimated_time, novel_settings, report_step, scheduling_issue, JudgeStep, ReportKind,
};
use pms_master::handler::registry::AddressBook;
use pms_master::judge::{JudgementType, PrioirityWeight, RequestJudge};
use pms_master::logger::{LogLevel, StdoutLogger};
use pms_master::scheduler::SchedulerIssue;

fn config(pass: &str) -> Config {
    Config {
        general: General { host: "127.0.0.1:3030".to_string(), host_pass: pass.to_string() },
        tls: TlsConfig { key_pem: "key.pem".to_string(), cert_pem: "cert.pem".to_string() },
    }
}

fn request(main_path: Option<String>, object_path: Option<String>, procs: Option<usize>) -> RequestJudge<&'static str> {
    RequestJudge {
        uuid: 77,
        judge_priority: PrioirityWeight::Second,
        test_size: 3,
        stdin: vec!["1.in", "2.in", "3.in"],
        stdout: vec!["1.out", "2.out", "3.out"],
        main: vec![1, 2, 3],
        checker: vec![4, 5],
        judgement_type: JudgementType::Novel,
        main_path,
        object_path,
        manager: None,
        graders: None,
        manager_lang_uuid: Some(9),
        procs,
        main_lang_uuid: 1,
        checker_lang_uuid: 2,
        time_limit: 1000,
        mem_limit: 1048576,
    }
}

#[test]
fn password_digest_is_blake3_of_the_password() {
    let d = host_pass_digest(&config(""));
    let expected: Vec<u8> = (0..32)
        .map(|i| u8::from_str_radix(&"af1349b9f5f9a1a6a0404dea36dcc9499bcb25c9adc112b7cc9a93cae41f3262"[2 * i..2 * i + 2], 16).unwrap())
        .collect();
    assert_eq!(d, expected);
    let d2 = host_pass_digest(&config("asdf"));
    assert_eq!(d2.len(), 32);
    assert_ne!(d2, b"asdf".to_vec());
    assert_ne!(d2, d);
}

#[test]
fn handshake_accepts_only_the_digest() {
    let host = host_pass_digest(&config("asdf"));
    assert_eq!(handshake_outcome(3, &host, &host_pass_digest(&config("asdf"))), HandshakeOutcome::Accepted(3));
    assert_eq!(handshake_outcome(3, &host, &host_pass_digest(&config("asdg"))), HandshakeOutcome::Rejected(3));
    assert_eq!(handshake_outcome(4, &host, b"asdf"), HandshakeOutcome::Rejected(4));
    assert_eq!(handshake_outcome(4, &host, &host[..31]), HandshakeOutcome::Rejected(4));
}

#[test]
fn estimated_time_is_tests_times_limit() {
    let r = request(None, None, None);
    assert_eq!(estimated_time(&r), 3000);
    match scheduling_issue::<&str, u8>(&r) {
        SchedulerIssue::NewTask(id, t, w) => {
            assert_eq!(id, 77);
            assert_eq!(t, 3000);
            assert_eq!(w, 2);
        }
        _ => panic!("expected a new task"),
    }
}

#[test]
fn novel_settings_fill_defaults() {
    let s = novel_settings(&request(None, None, None));
    assert_eq!(s.manager_lang, 9);
    assert_eq!(s.main_path, DEFAULT_MAIN_PATH);
    assert_eq!(s.object_path, DEFAULT_OBJECT_PATH);
    assert_eq!(s.procs, DEFAULT_PROCESSES);
    assert_eq!(s.main_path, "graders/main.pms");
    assert_eq!(s.object_path, "graders/object.pms");
    assert_eq!(s.procs, 2);
    let s = novel_settings(&request(Some("prize.cpp".to_string()), Some("prize".to_string()), Some(4)));
    assert_eq!(s.main_path, "prize.cpp");
    assert_eq!(s.object_path, "prize");
    assert_eq!(s.procs, 4);
}

#[test]
fn reports_move_the_judge_on_or_stop_it() {
    assert_eq!(report_step(ReportKind::DoCompile), JudgeStep::Wait);
    assert_eq!(report_step(ReportKind::CompleteCompile), JudgeStep::NextTestcase);
    assert_eq!(report_step(ReportKind::CompileError), JudgeStep::Halt);
    assert_eq!(report_step(ReportKind::Complete), JudgeStep::NextTestcase);
    assert_eq!(report_step(ReportKind::Accepted), JudgeStep::NextTestcase);
    assert_eq!(report_step(ReportKind::WrongAnswer), JudgeStep::NextTestcase);
    assert_eq!(report_step(ReportKind::RuntimeError), JudgeStep::NextTestcase);
    assert_eq!(report_step(ReportKind::DiedOnSignal), JudgeStep::NextTestcase);
    assert_eq!(report_step(ReportKind::TimeLimitExceed), JudgeStep::NextTestcase);
    assert_eq!(report_step(ReportKind::MemLimitExceed), JudgeStep::NextTestcase);
    assert_eq!(report_step(ReportKind::GeneralError), JudgeStep::Halt);
    assert_eq!(report_step(ReportKind::Unknown), JudgeStep::Halt);
}

#[test]
fn logger_prints_info_and_above() {
    let l = StdoutLogger;
    assert!(l.enabled(LogLevel::Error));
    assert!(l.enabled(LogLevel::Warn));
    assert!(l.enabled(LogLevel::Info));
    assert!(!l.enabled(LogLevel::Debug));
    assert!(!l.enabled(LogLevel::Trace));
}

#[test]
fn address_book_records_and_forgets() {
    let mut b: AddressBook<&str> = AddressBook::new();
    assert!(!b.contains(1));
    b.insert(1, "one");
    b.insert(2, "two");
    assert_eq!(*b.get(1), "one");
    b.insert(1, "uno");
    assert_eq!(*b.get(1), "uno");
    assert_eq!(b.remove(2), "two");
    assert!(!b.contains(2));
    assert!(b.contains(1));
}
