//! 256-bit hashes, used to identify blocks.

use vstd::prelude::*;

verus! {

/// A 256-bit hash, held as 32 bytes.
#[derive(Clone, Copy, Debug, Hash, Eq)]
pub struct Hash256(pub [u8; 32]);

impl PartialEq for Hash256 {
    fn eq(&self, other: &Hash256) -> (r: bool) {
        let mut i: usize = 0;
        while i < 32
            invariant
                i <= 32,
                forall|j: int| 0 <= j < i ==> self.0[j] == other.0[j],
            decreases 32 - i,
        {
            if self.0[i] != other.0[i] {
                return false;
            }
            i += 1;
        }
        assert(self.0 =~= other.0);
        true
    }
}

impl vstd::std_specs::cmp::PartialEqSpecImpl for Hash256 {
    open spec fn obeys_eq_spec() -> bool {
        true
    }

    open spec fn eq_spec(&self, other: &Hash256) -> bool {
        *self == *other
    }
}

} // verus!
