//! The decisions of the service that runs one judge.
use vstd::prelude::*;

use crate::constants::{DEFAULT_MAIN_PATH, DEFAULT_OBJECT_PATH, DEFAULT_PROCESSES};
use crate::judge::RequestJudge;
use crate::scheduler::SchedulerIssue;

verus! {

/// The time a judge is expected to take: its time limit for each test.
pub fn estimated_time<P>(req: &RequestJudge<P>) -> (t: u64)
    requires
        req.test_size * req.time_limit <= u64::MAX,
    ensures
        t == req.test_size * req.time_limit,
{
    (req.test_size as u64) * req.time_limit
}

/// The request that puts a judge on the scheduler: its id, its estimated
/// time and its priority weight.
pub fn scheduling_issue<P, K>(req: &RequestJudge<P>) -> (issue: SchedulerIssue<K>)
    requires
        req.test_size * req.time_limit <= u64::MAX,
    ensures
        issue == SchedulerIssue::<K>::NewTask(
            req.uuid,
            (req.test_size * req.time_limit) as u64,
            match req.judge_priority {
                crate::judge::PrioirityWeight::First => 1u64,
                crate::judge::PrioirityWeight::Second => 2u64,
            },
        ),
{
    SchedulerIssue::NewTask(req.uuid, estimated_time(req), req.judge_priority.weight())
}

/// The settings a grader-based judge is sent with, defaults filled in.
pub struct NovelSettings {
    pub manager_lang: u128,
    pub main_path: String,
    pub object_path: String,
    pub procs: usize,
}

/// The settings a grader-based judge is sent with: the manager's language,
/// and the paths and process count of the request, or the defaults where it
/// names none. A grader-based request without a manager language is refused
/// before this point.
pub fn novel_settings<P>(req: &RequestJudge<P>) -> (s: NovelSettings)
    requires
        req.manager_lang_uuid is Some,
    ensures
        s.manager_lang == req.manager_lang_uuid->Some_0,
        s.main_path@ == match req.main_path {
            Some(p) => p@,
            None => DEFAULT_MAIN_PATH@,
        },
        s.object_path@ == match req.object_path {
            Some(p) => p@,
            None => DEFAULT_OBJECT_PATH@,
        },
        s.procs == match req.procs {
            Some(n) => n,
            None => DEFAULT_PROCESSES,
        },
{
    let main_path = match &req.main_path {
        Some(p) => p.clone(),
        None => DEFAULT_MAIN_PATH.to_owned(),
    };
    let object_path = match &req.object_path {
        Some(p) => p.clone(),
        None => DEFAULT_OBJECT_PATH.to_owned(),
    };
    let procs = match req.procs {
        Some(n) => n,
        None => DEFAULT_PROCESSES,
    };
    let manager_lang = match req.manager_lang_uuid {
        Some(l) => l,
        None => 0,
    };
    NovelSettings { manager_lang, main_path, object_path, procs }
}

/// The kinds of report a node sends about a judge.
#[derive(Clone, Copy, Debug, PartialEq, Eq, Structural)]
pub enum ReportKind {
    DoCompile,
    CompleteCompile,
    CompileError,
    Complete,
    Accepted,
    WrongAnswer,
    RuntimeError,
    DiedOnSignal,
    TimeLimitExceed,
    MemLimitExceed,
    GeneralError,
    /// Any other report.
    Unknown,
}

/// What the judge service does next.
#[derive(Clone, Copy, Debug, PartialEq, Eq, Structural)]
pub enum JudgeStep {
    /// Nothing: the node carries on.
    Wait,
    /// Send the next test case.
    NextTestcase,
    /// Stop the judge.
    Halt,
}

/// The step a report calls for: a finished compilation or test moves on to
/// the next test case, a failure stops the judge, and the start of a
/// compilation needs nothing.
pub open spec fn step_for(kind: ReportKind) -> JudgeStep {
    match kind {
        ReportKind::DoCompile => JudgeStep::Wait,
        ReportKind::CompileError | ReportKind::GeneralError | ReportKind::Unknown => JudgeStep::Halt,
        _ => JudgeStep::NextTestcase,
    }
}

/// The step the judge service takes on a report of kind `kind`.
pub fn report_step(kind: ReportKind) -> (s: JudgeStep)
    ensures
        s == step_for(kind),
{
    match kind {
        ReportKind::DoCompile => JudgeStep::Wait,
        ReportKind::CompleteCompile => JudgeStep::NextTestcase,
        ReportKind::CompileError => JudgeStep::Halt,
        ReportKind::Complete => JudgeStep::NextTestcase,
        ReportKind::Accepted => JudgeStep::NextTestcase,
        ReportKind::WrongAnswer => JudgeStep::NextTestcase,
        ReportKind::RuntimeError => JudgeStep::NextTestcase,
        ReportKind::DiedOnSignal => JudgeStep::NextTestcase,
        ReportKind::TimeLimitExceed => JudgeStep::NextTestcase,
        ReportKind::MemLimitExceed => JudgeStep::NextTestcase,
        ReportKind::GeneralError => JudgeStep::Halt,
        ReportKind::Unknown => JudgeStep::Halt,
    }
}

} // verus!
