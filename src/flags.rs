use vstd::prelude::*;

verus! {

/// The attributes a symbol may carry.
#[derive(Debug, Copy, Clone, PartialEq, Eq, Structural, Hash)]
pub enum ObjSymbolFlags {
    Global,
    Local,
    Weak,
    Common,
    Hidden,
    ForceActive,
}

/// The bit that stands for a flag in a flag set.
pub open spec fn flag_bit(f: ObjSymbolFlags) -> u8 {
    match f {
        ObjSymbolFlags::Global => 1,
        ObjSymbolFlags::Local => 2,
        ObjSymbolFlags::Weak => 4,
        ObjSymbolFlags::Common => 8,
        ObjSymbolFlags::Hidden => 16,
        ObjSymbolFlags::ForceActive => 32,
    }
}

impl ObjSymbolFlags {
    /// The bit of this flag.
    pub fn bit(&self) -> (r: u8)
        ensures
            r == flag_bit(*self),
    {
        match self {
            ObjSymbolFlags::Global => 1,
            ObjSymbolFlags::Local => 2,
            ObjSymbolFlags::Weak => 4,
            ObjSymbolFlags::Common => 8,
            ObjSymbolFlags::Hidden => 16,
            ObjSymbolFlags::ForceActive => 32,
        }
    }
}

/// A set of symbol flags, one bit per flag.
#[derive(Debug, Copy, Clone, Default, PartialEq, Eq, Structural, Hash)]
pub struct ObjSymbolFlagSet(pub u8);

impl ObjSymbolFlagSet {
    /// Whether the set holds the flag.
    pub open spec fn has(self, f: ObjSymbolFlags) -> bool {
        self.0 & flag_bit(f) != 0
    }

    /// The empty set.
    pub fn empty() -> (r: Self)
        ensures
            r.0 == 0,
            forall|f: ObjSymbolFlags| !r.has(f),
    {
        proof {
            assert forall|f: ObjSymbolFlags| !(0u8 & flag_bit(f) != 0) by {
                let b = flag_bit(f);
                assert(0u8 & b == 0) by (bit_vector);
            }
        }
        ObjSymbolFlagSet(0)
    }

    /// Whether the set holds the flag.
    pub fn contains(&self, f: ObjSymbolFlags) -> (r: bool)
        ensures
            r == self.has(f),
    {
        self.0 & f.bit() != 0
    }

    /// Adds a flag, leaving the others as they were.
    pub fn insert(&mut self, f: ObjSymbolFlags)
        ensures
            final(self).0 == old(self).0 | flag_bit(f),
            final(self).has(f),
    {
        let b = f.bit();
        let old_bits = self.0;
        self.0 = self.0 | b;
        proof {
            assert(b != 0);
            assert(b != 0 ==> (old_bits | b) & b != 0) by (bit_vector);
        }
    }

    #[inline]
    pub fn is_local(&self) -> (r: bool)
        ensures
            r == self.has(ObjSymbolFlags::Local),
    {
        self.0 & 2 != 0
    }

    /// A symbol counts as global whenever it is not local.
    #[inline]
    pub fn is_global(&self) -> (r: bool)
        ensures
            r == !self.has(ObjSymbolFlags::Local),
    {
        !self.is_local()
    }

    #[inline]
    pub fn is_common(&self) -> (r: bool)
        ensures
            r == self.has(ObjSymbolFlags::Common),
    {
        self.0 & 8 != 0
    }

    #[inline]
    pub fn is_weak(&self) -> (r: bool)
        ensures
            r == self.has(ObjSymbolFlags::Weak),
    {
        self.0 & 4 != 0
    }

    #[inline]
    pub fn is_hidden(&self) -> (r: bool)
        ensures
            r == self.has(ObjSymbolFlags::Hidden),
    {
        self.0 & 16 != 0
    }

    #[inline]
    pub fn is_force_active(&self) -> (r: bool)
        ensures
            r == self.has(ObjSymbolFlags::ForceActive),
    {
        self.0 & 32 != 0
    }

    /// Marks the symbol global: clears Local and Weak, sets Global, keeps the rest.
    #[inline]
    pub fn set_global(&mut self)
        ensures
            final(self).0 == (old(self).0 & !6u8) | 1u8,
            final(self).has(ObjSymbolFlags::Global),
            !final(self).has(ObjSymbolFlags::Local),
            !final(self).has(ObjSymbolFlags::Weak),
            final(self).has(ObjSymbolFlags::Common) == old(self).has(ObjSymbolFlags::Common),
            final(self).has(ObjSymbolFlags::Hidden) == old(self).has(ObjSymbolFlags::Hidden),
            final(self).has(ObjSymbolFlags::ForceActive) == old(self).has(
                ObjSymbolFlags::ForceActive,
            ),
    {
        let x = self.0;
        let y = (x & !6u8) | 1u8;
        self.0 = y;
        proof {
            assert(y == (x & !6u8) | 1u8 ==> (y & 1 != 0 && y & 2 == 0 && y & 4 == 0 && (y & 8
                != 0) == (x & 8 != 0) && (y & 16 != 0) == (x & 16 != 0) && (y & 32 != 0) == (x
                & 32 != 0))) by (bit_vector);
        }
    }
}

} // verus!
