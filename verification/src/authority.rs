//! Records of the authority nodes that take part in weight encryption.
use vstd::prelude::*;

verus! {

/// An authority node: its id and its RSA public key `(n, e)`.
pub struct AuthorityNode {
    pub id: u32,
    pub encryption_key: (Vec<u8>, Vec<u8>),
}

/// The decryption runs reported by an authority node.
pub struct EncryptedData {
    runs: Vec<()>,
}

} // verus!
