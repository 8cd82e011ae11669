//! The decisions of the service that sends a judge's test cases.
use vstd::prelude::*;

use crate::judge::{step, TestcaseManager};

verus! {

/// What the test case service does when asked for the next test.
#[derive(Clone, Copy, Debug, PartialEq, Eq, Structural)]
pub enum TestcaseStep {
    /// The tests are over: tell the node, unlock it and end the judge.
    End,
    /// Send the test with this id.
    Send(u128),
}

/// Moves `testman` to its next test and says what to send.
pub fn pop_testcase<P>(testman: &mut TestcaseManager<P>) -> (s: TestcaseStep)
    requires
        old(testman).wf(),
    ensures
        final(testman).wf(),
        final(testman).links() == old(testman).links(),
        final(testman).tests() == old(testman).tests(),
        final(testman).position() == step(old(testman).links(), old(testman).position()).0,
        s == if step(old(testman).links(), old(testman).position()).1 == 0 {
            TestcaseStep::End
        } else {
            TestcaseStep::Send(step(old(testman).links(), old(testman).position()).1)
        },
        s matches TestcaseStep::Send(u) ==> final(testman).tests().contains_key(u),
{
    let test_uuid = testman.next();
    if test_uuid == 0 {
        TestcaseStep::End
    } else {
        TestcaseStep::Send(test_uuid)
    }
}

} // verus!
