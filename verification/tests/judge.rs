use pms_master::judge::{PrioirityWeight, TestcaseManager};
use pms_master::handler::testcase::{pop_testcase, TestcaseStep};

#[test]
fn priority_weights() {
    assert_eq!(PrioirityWeight::First.weight(), 1);
    assert_eq!(PrioirityWeight::Second.weight(), 2);
}

#[test]
fn tests_come_in_order_then_nil() {
    let stdin = ["a.in", "b.in", "c.in"];
    let stdout = ["a.out", "b.out", "c.out"];
    let mut m = TestcaseManager::from_ids(&stdin, &stdout, &[5, 6, 7]);
    assert_eq!(m.cur, 0);
    assert_eq!(m.next(), 5);
    assert_eq!(m.get(5), (&"a.in", &"a.out"));
    assert_eq!(m.next(), 6);
    assert_eq!(m.get(6), (&"b.in", &"b.out"));
    assert_eq!(m.next(), 7);
    assert_eq!(m.get(7), (&"c.in", &"c.out"));
    assert_eq!(m.next(), 0);
    assert_eq!(m.cur, 7);
    assert_eq!(m.next(), 0);
}

#[test]
fn no_tests_gives_nil_at_once() {
    let empty: [&str; 0] = [];
    let mut m = TestcaseManager::from_ids(&empty, &empty, &[]);
    assert_eq!(m.next(), 0);
    assert_eq!(m.cur, 0);
}

#[test]
fn fresh_ids_are_version_four_and_distinct() {
    let stdin = ["a.in", "b.in", "c.in", "d.in"];
    let stdout = ["a.out", "b.out", "c.out", "d.out"];
    let mut m = TestcaseManager::from(&stdin, &stdout);
    let mut seen = Vec::new();
    for k in 0..4 {
        let id = m.next();
        assert_ne!(id, 0);
        assert_eq!((id >> 76) & 0xf, 4);
        assert_eq!((id >> 62) & 0x3, 2);
        assert!(!seen.contains(&id));
        assert_eq!(m.get(id), (&stdin[k], &stdout[k]));
        seen.push(id);
    }
    assert_eq!(m.next(), 0);
}

#[test]
fn testcase_service_steps_then_ends() {
    let stdin = [String::from("x.in")];
    let stdout = [String::from("x.out")];
    let mut m = TestcaseManager::from_ids(&stdin, &stdout, &[42]);
    assert_eq!(pop_testcase(&mut m), TestcaseStep::Send(42));
    assert_eq!(m.get(42), (&String::from("x.in"), &String::from("x.out")));
    assert_eq!(pop_testcase(&mut m), TestcaseStep::End);
    assert_eq!(pop_testcase(&mut m), TestcaseStep::End);
}


#[test]
fn repeated_ids_are_never_given_twice() {
    let stdin = ["a.in", "b.in", "c.in"];
    let stdout = ["a.out", "b.out", "c.out"];
    // the third test reuses the first id: the later files win, and the walk
    // ends once it reaches that id's last place
    let mut m = TestcaseManager::from_ids(&stdin, &stdout, &[5, 6, 5]);
    assert_eq!(m.current(), 0);
    assert_eq!(m.next(), 5);
    assert_eq!(m.current(), 5);
    assert_eq!(m.get(5), (&"c.in", &"c.out"));
    assert_eq!(m.next(), 0);
    assert_eq!(m.next(), 0);
    assert_eq!(m.current(), 5);
}
