//! The master's answer to a node's handshake.
use vstd::prelude::*;

verus! {

/// How a handshake ends.
#[derive(Clone, Copy, Debug, PartialEq, Eq, Structural)]
pub enum HandshakeOutcome {
    /// The password matches: the node may receive judges once the scheduler
    /// holds its shared key, and it is told its id.
    Accepted(u128),
    /// The password does not match: the node is told so and taken down.
    Rejected(u128),
}

/// Whether two byte strings are equal.
fn bytes_equal(a: &[u8], b: &[u8]) -> (r: bool)
    ensures
        r == (a@ == b@),
{
    if a.len() != b.len() {
        return false;
    }
    let n = a.len();
    for i in 0..n
        invariant
            n == a@.len(),
            n == b@.len(),
            forall|k: int| 0 <= k < i ==> a@[k] == b@[k],
    {
        if a[i] != b[i] {
            return false;
        }
    }
    proof {
        assert(a@ =~= b@);
    }
    true
}

/// The outcome of node `node_id`'s handshake presenting password digest
/// `pass`, against the master's digest `host_pass`.
pub fn handshake_outcome(node_id: u128, host_pass: &[u8], pass: &[u8]) -> (o: HandshakeOutcome)
    ensures
        o == if pass@ == host_pass@ {
            HandshakeOutcome::Accepted(node_id)
        } else {
            HandshakeOutcome::Rejected(node_id)
        },
{
    if bytes_equal(pass, host_pass) {
        HandshakeOutcome::Accepted(node_id)
    } else {
        HandshakeOutcome::Rejected(node_id)
    }
}

} // verus!
