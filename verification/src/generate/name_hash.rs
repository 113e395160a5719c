//! The hash of a name, with the name it was computed from.

use vstd::prelude::*;

verus! {

/// A hash of a name, together with the name it was computed from.  Only
/// [`ustr_hash`] makes one, so the name it records is the name that was
/// hashed.
pub struct NameHash {
    hash: u64,
    name: Ghost<Seq<char>>,
}

impl NameHash {
    /// The hash.
    pub closed spec fn hash_value(&self) -> u64 {
        self.hash
    }

    /// The name the hash was computed from.
    pub closed spec fn name(&self) -> Seq<char> {
        self.name@
    }

    /// The hash.
    pub fn get(&self) -> (res: u64)
        ensures
            res == self.hash_value(),
    {
        self.hash
    }
}

/// ustr's hash of an interned string, `ustr::ustr(s).precomputed_hash()`,
/// recorded with the string it was computed from.  Nothing is claimed of
/// the hash's value, which comes from a hasher whose output may differ
/// from one machine to another.
#[verifier::external_body]
pub(crate) fn ustr_hash(s: &str) -> (res: NameHash)
    ensures
        res.name() == s@,
{
    NameHash { hash: ustr::ustr(s).precomputed_hash(), name: Ghost(s@) }
}

} // verus!
