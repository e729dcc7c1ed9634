//! Hashes and addresses.

use vstd::prelude::*;

verus! {

/// A value that can be compared for equality and used as a lookup key.
pub trait Key: Copy {
    /// Whether the two keys are the same value.
    fn same(&self, other: &Self) -> (r: bool)
        ensures
            r == (*self == *other),
    ;
}

/// Whether two byte arrays agree on every byte.
fn same_bytes(a: &[u8; 32], b: &[u8; 32]) -> (r: bool)
    ensures
        r == (*a == *b),
{
    let mut i: usize = 0;
    while i < 32
        invariant
            i <= 32,
            forall|j: int| 0 <= j < i ==> a@[j] == b@[j],
        decreases 32 - i,
    {
        if a[i] != b[i] {
            assert(a@[i as int] != b@[i as int]);
            return false;
        }
        i += 1;
    }
    assert(*a =~= *b);
    true
}

/// A 32-byte hash: of a block, a transaction, a state root or a proof root.
#[derive(Clone, Copy, Debug)]
pub struct ShellHash {
    /// The bytes of the hash, first byte first.
    pub bytes: [u8; 32],
}

impl PartialEq for ShellHash {
    fn eq(&self, other: &Self) -> (r: bool) {
        same_bytes(&self.bytes, &other.bytes)
    }
}

impl vstd::std_specs::cmp::PartialEqSpecImpl for ShellHash {
    open spec fn obeys_eq_spec() -> bool {
        true
    }

    open spec fn eq_spec(&self, other: &Self) -> bool {
        *self == *other
    }
}

impl Eq for ShellHash {
}

impl Key for ShellHash {
    fn same(&self, other: &Self) -> (r: bool) {
        same_bytes(&self.bytes, &other.bytes)
    }
}

/// The hash of all zero bytes, which stands for no block.
pub open spec fn zero_hash() -> ShellHash {
    ShellHash { bytes: vstd::array::spec_array_fill_for_copy_type::<u8, 32>(0) }
}

impl ShellHash {
    /// The hash of all zero bytes, which stands for no block.
    pub fn zero() -> (r: Self)
        ensures
            r == zero_hash(),
            forall|i: int| 0 <= i < 32 ==> r.bytes@[i] == 0,
    {
        let r = ShellHash { bytes: [0u8; 32] };
        assert(r.bytes =~= zero_hash().bytes);
        r
    }
}

/// A 32-byte account address.
#[derive(Clone, Copy, Debug)]
pub struct Address {
    /// The bytes of the address, first byte first.
    pub bytes: [u8; 32],
}

impl PartialEq for Address {
    fn eq(&self, other: &Self) -> (r: bool) {
        same_bytes(&self.bytes, &other.bytes)
    }
}

impl vstd::std_specs::cmp::PartialEqSpecImpl for Address {
    open spec fn obeys_eq_spec() -> bool {
        true
    }

    open spec fn eq_spec(&self, other: &Self) -> bool {
        *self == *other
    }
}

impl Eq for Address {
}

impl Key for Address {
    fn same(&self, other: &Self) -> (r: bool) {
        same_bytes(&self.bytes, &other.bytes)
    }
}

impl Key for u64 {
    fn same(&self, other: &Self) -> (r: bool) {
        *self == *other
    }
}

impl Key for u32 {
    fn same(&self, other: &Self) -> (r: bool) {
        *self == *other
    }
}

impl From<[u8; 32]> for ShellHash {
    fn from(bytes: [u8; 32]) -> (r: Self) {
        ShellHash { bytes }
    }
}

impl vstd::std_specs::convert::FromSpecImpl<[u8; 32]> for ShellHash {
    open spec fn obeys_from_spec() -> bool {
        true
    }

    open spec fn from_spec(bytes: [u8; 32]) -> Self {
        ShellHash { bytes }
    }
}

impl From<[u8; 32]> for Address {
    fn from(bytes: [u8; 32]) -> (r: Self) {
        Address { bytes }
    }
}

impl vstd::std_specs::convert::FromSpecImpl<[u8; 32]> for Address {
    open spec fn obeys_from_spec() -> bool {
        true
    }

    open spec fn from_spec(bytes: [u8; 32]) -> Self {
        Address { bytes }
    }
}

} // verus!
