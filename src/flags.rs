use vstd::prelude::*;

verus! {

/// One named flag of a flags type: a name and the bits it stands for.
///
/// A flag with an empty name is never rendered nor parsed.
pub struct Flag {
    pub name: String,
    pub bits: u32,
}

/// A flags value: any pattern of bits, named or not.
#[derive(Clone, Copy, Debug, PartialEq, Eq, Structural)]
pub struct Flags {
    bits: u32,
}

impl Flags {
    /// The raw bits of this value.
    pub closed spec fn spec_bits(self) -> u32 {
        self.bits
    }

    /// Builds a value from any bit pattern, unknown bits included.
    pub fn from_bits_retain(bits: u32) -> (r: Flags)
        ensures
            r.spec_bits() == bits,
    {
        Flags { bits }
    }

    /// The value with no bits set.
    pub fn empty() -> (r: Flags)
        ensures
            r.spec_bits() == 0,
    {
        Flags { bits: 0 }
    }

    pub fn bits(&self) -> (r: u32)
        ensures
            r == self.spec_bits(),
    {
        self.bits
    }
}

} // verus!
