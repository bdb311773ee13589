//! Variable-length integers: values below 2^62 and their wire form.
use vstd::prelude::*;

verus! {

/// Largest value a variable-length integer can hold: 2^62 - 1.
pub const VARINT_MAX: u64 = 0x3fff_ffff_ffff_ffff;

/// An integer below 2^62.
#[derive(Clone, Copy, Debug, PartialEq, Eq, PartialOrd, Ord, Hash, Structural)]
pub struct VarInt(u64);

impl VarInt {
    /// The number this value stands for.
    pub closed spec fn value(self) -> u64 {
        self.0
    }

    #[verifier::type_invariant]
    pub open spec fn in_range(self) -> bool {
        self.value() <= VARINT_MAX
    }

    /// The value that stands for `x`, which is below 2^62.
    pub closed spec fn of(x: u64) -> VarInt {
        VarInt(x)
    }

    /// The value that stands for a number stands for that number.
    pub proof fn lemma_value_of(x: u64)
        ensures
            Self::of(x).value() == x,
    {
    }

    /// The largest representable value.
    pub fn max_value() -> (r: VarInt)
        ensures
            r.value() == VARINT_MAX,
    {
        VarInt(VARINT_MAX)
    }

    pub fn from_u32(x: u32) -> (r: VarInt)
        ensures
            r.value() == x,
            r == Self::of(x as u64),
    {
        VarInt(x as u64)
    }

    /// Succeeds exactly when `x` is below 2^62.
    pub fn from_u64(x: u64) -> (r: Option<VarInt>)
        ensures
            x <= VARINT_MAX ==> r.is_some() && r.unwrap().value() == x,
            x > VARINT_MAX ==> r.is_none(),
    {
        if x <= VARINT_MAX {
            Some(VarInt(x))
        } else {
            None
        }
    }

    pub fn into_inner(self) -> (r: u64)
        ensures
            r == self.value(),
            r <= VARINT_MAX,
    {
        proof {
            use_type_invariant(&self);
        }
        self.0
    }
}

impl From<u32> for VarInt {
    fn from(x: u32) -> (r: VarInt) {
        VarInt::from_u32(x)
    }
}

impl vstd::std_specs::convert::FromSpecImpl<u32> for VarInt {
    open spec fn obeys_from_spec() -> bool {
        true
    }

    open spec fn from_spec(x: u32) -> VarInt {
        VarInt::of(x as u64)
    }
}

} // verus!
