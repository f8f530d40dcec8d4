//! The identity of a caller: an opaque, fixed-format value supplied by the
//! hosting environment, held here as its raw bytes.

use vstd::prelude::*;

verus! {

/// Longest identity an owner may have, in bytes.
pub const MAX_PRINCIPAL_LEN: usize = 29;

/// A caller's identity. The library never looks inside the bytes; it only
/// stores them and compares them for equality.
#[derive(Debug, PartialEq, Eq)]
pub struct Principal {
    bytes: Vec<u8>,
}

impl Clone for Principal {
    fn clone(&self) -> (r: Self)
        ensures
            r@ == self@,
    {
        let mut bytes: Vec<u8> = Vec::new();
        let n = self.bytes.len();
        for i in 0..n
            invariant
                n == self.bytes.len(),
                bytes@.len() == i,
                forall|j: int| 0 <= j < i ==> bytes@[j] == self.bytes@[j],
        {
            bytes.push(self.bytes[i]);
        }
        proof {
            assert(bytes@ =~= self.bytes@);
        }
        Principal { bytes }
    }
}

impl View for Principal {
    type V = Seq<u8>;

    closed spec fn view(&self) -> Seq<u8> {
        self.bytes@
    }
}

impl Principal {
    /// The bytes fit the fixed identity format.
    pub open spec fn wf(&self) -> bool {
        self@.len() <= MAX_PRINCIPAL_LEN
    }

    /// Wraps raw identity bytes; rejects a value longer than the format
    /// allows.
    pub fn from_bytes(bytes: Vec<u8>) -> (r: Option<Principal>)
        ensures
            match r {
                Some(p) => p@ == bytes@ && p.wf(),
                None => bytes@.len() > MAX_PRINCIPAL_LEN,
            },
    {
        if bytes.len() <= MAX_PRINCIPAL_LEN {
            Some(Principal { bytes })
        } else {
            None
        }
    }

    /// The raw identity bytes.
    pub fn as_bytes(&self) -> (r: &Vec<u8>)
        ensures
            r@ == self@,
    {
        &self.bytes
    }

    /// Byte-for-byte equality of two identities.
    pub fn equals(&self, other: &Principal) -> (r: bool)
        ensures
            r == (self@ == other@),
    {
        if self.bytes.len() != other.bytes.len() {
            return false;
        }
        let n = self.bytes.len();
        for i in 0..n
            invariant
                n == self.bytes.len() && n == other.bytes.len(),
                forall|j: int| 0 <= j < i ==> self.bytes@[j] == other.bytes@[j],
        {
            if self.bytes[i] != other.bytes[i] {
                return false;
            }
        }
        proof {
            assert(self@ =~= other@);
        }
        true
    }
}

} // verus!
