//! Keys as the table takes them: one nibble per element, most significant
//! first.

use vstd::prelude::*;

verus! {

/// The eight nibbles of an IPv4 address.
pub struct NibblesV4 {
    pub n: [u8; 8],
}

/// The thirty-two nibbles of an IPv6 address.
pub struct NibblesV6 {
    pub n: [u8; 32],
}

/// The nibbles of an address of either family.
pub enum Nibbles {
    V4(NibblesV4),
    V6(NibblesV6),
}

impl NibblesV4 {
    /// The nibbles as a sequence.
    pub open spec fn view(&self) -> Seq<u8> {
        self.n@
    }

}

impl AsRef<[u8]> for NibblesV4 {
    /// The nibbles as a slice.
    fn as_ref(&self) -> (r: &[u8])
        ensures
            r@ == self@,
            r@.len() == 8,
    {
        self.n.as_slice()
    }
}

impl NibblesV6 {
    /// The nibbles as a sequence.
    pub open spec fn view(&self) -> Seq<u8> {
        self.n@
    }

}

impl AsRef<[u8]> for NibblesV6 {
    /// The nibbles as a slice.
    fn as_ref(&self) -> (r: &[u8])
        ensures
            r@ == self@,
            r@.len() == 32,
    {
        self.n.as_slice()
    }
}

impl Nibbles {
    /// The nibbles as a sequence.
    pub open spec fn view(&self) -> Seq<u8> {
        match self {
            Nibbles::V4(v) => v@,
            Nibbles::V6(v) => v@,
        }
    }

}

impl AsRef<[u8]> for Nibbles {
    /// The nibbles as a slice.
    fn as_ref(&self) -> (r: &[u8])
        ensures
            r@ == self@,
            r@.len() == 8 || r@.len() == 32,
    {
        match self {
            Nibbles::V4(v) => v.as_ref(),
            Nibbles::V6(v) => v.as_ref(),
        }
    }
}

} // verus!
