//! What the master does with the messages it handles.
pub mod judge;
pub mod registry;
pub mod testcase;

use vstd::prelude::*;
use vstd::string::StringSliceAdditionalSpecFns;

use crate::config::Config;

verus! {

/// The 32-byte digest BLAKE3 gives of `data`.
pub uninterp spec fn blake3_digest(data: Seq<u8>) -> Seq<u8>;

/// Calls `blake3::hash` on `data` and gives the bytes of the digest. The
/// digest is a function of `data` alone, named `blake3_digest(data)`; it is
/// 32 bytes long, as the type `blake3::Hash` holds `[u8; 32]`.
#[verifier::external_body]
fn blake3_hash(data: &[u8]) -> (d: Vec<u8>)
    ensures
        d@ == blake3_digest(data@),
        d@.len() == 32,
{
    blake3::hash(data).as_bytes().to_vec()
}

/// The digest of the configured password, which a node's handshake must
/// carry: BLAKE3 over the password's UTF-8 bytes.
pub fn host_pass_digest(cfg: &Config) -> (d: Vec<u8>)
    ensures
        d@ == blake3_digest(vstd::utf8::encode_utf8(cfg.general.host_pass@)),
        d@.len() == 32,
{
    let pass = cfg.general.host_pass.as_str();
    let bytes = pass.as_bytes();
    proof {
        assert(bytes@ == pass.spec_bytes());
    }
    blake3_hash(bytes)
}

} // verus!
