//! Bit flags that select the stream format and the traits a cruncher may use.
use crate::simple::dynamic::DynProto;
use crate::simple::generic::GenProto;
use vstd::prelude::*;

verus! {

/// Flags which control the bit stream format.
///
/// A value with more than one flag set is `Composed`, holding its number.
#[derive(Copy, Clone, Debug, PartialEq, Eq, Structural)]
pub enum ProtoFlags {
    Empty,
    OrderBe,
    CopyGt7,
    Impl1Literal,
    AlignStart,
    FourOffsetTables,
    ReuseOffset,
    Composed(u8),
}

/// Flags which control the bit stream traits.
///
/// A value with more than one flag set is `Composed`, holding its number.
#[derive(Copy, Clone, Debug, PartialEq, Eq, Structural)]
pub enum TraitFlags {
    Empty,
    LitSeq,
    Len1Seq,
    Len0123SeqMirrors,
    Composed(u8),
}

impl ProtoFlags {
    /// The number of the flags: the sum of the flags that are set.
    pub open spec fn num(self) -> u8 {
        match self {
            ProtoFlags::Empty => 0,
            ProtoFlags::OrderBe => 1,
            ProtoFlags::CopyGt7 => 2,
            ProtoFlags::Impl1Literal => 4,
            ProtoFlags::AlignStart => 8,
            ProtoFlags::FourOffsetTables => 16,
            ProtoFlags::ReuseOffset => 32,
            ProtoFlags::Composed(n) => n,
        }
    }

    /// The value that a number stands for: a single flag by its name, any
    /// other number as `Composed`.
    pub open spec fn of_num(n: u8) -> ProtoFlags {
        if n == 0 {
            ProtoFlags::Empty
        } else if n == 1 {
            ProtoFlags::OrderBe
        } else if n == 2 {
            ProtoFlags::CopyGt7
        } else if n == 4 {
            ProtoFlags::Impl1Literal
        } else if n == 8 {
            ProtoFlags::AlignStart
        } else if n == 16 {
            ProtoFlags::FourOffsetTables
        } else if n == 32 {
            ProtoFlags::ReuseOffset
        } else {
            ProtoFlags::Composed(n)
        }
    }

    /// Convert from the number of the flags.
    pub fn from_num(n: u8) -> (r: Self)
        ensures
            r == Self::of_num(n),
    {
        match n {
            0 => ProtoFlags::Empty,
            1 => ProtoFlags::OrderBe,
            2 => ProtoFlags::CopyGt7,
            4 => ProtoFlags::Impl1Literal,
            8 => ProtoFlags::AlignStart,
            16 => ProtoFlags::FourOffsetTables,
            32 => ProtoFlags::ReuseOffset,
            _ => ProtoFlags::Composed(n),
        }
    }

    /// Convert to the number of the flags.
    pub fn as_num(&self) -> (n: u8)
        ensures
            n == self.num(),
    {
        match self {
            ProtoFlags::Empty => 0,
            ProtoFlags::OrderBe => 1,
            ProtoFlags::CopyGt7 => 2,
            ProtoFlags::Impl1Literal => 4,
            ProtoFlags::AlignStart => 8,
            ProtoFlags::FourOffsetTables => 16,
            ProtoFlags::ReuseOffset => 32,
            ProtoFlags::Composed(n) => *n,
        }
    }

    /// The flags set in either.
    pub fn union(&self, other: Self) -> (r: Self)
        ensures
            r == Self::of_num(self.num() | other.num()),
    {
        Self::from_num(self.as_num() | other.as_num())
    }

    /// The flags set in both.
    pub fn intersection(&self, other: Self) -> (r: Self)
        ensures
            r == Self::of_num(self.num() & other.num()),
    {
        Self::from_num(self.as_num() & other.as_num())
    }

    /// Whether `self` has a flag of `other`; with no flag set, whether
    /// `other` has none either.
    pub fn contains(&self, other: Self) -> (r: bool)
        ensures
            r == (if self.num() == 0 {
                other.num() == 0
            } else {
                self.num() & other.num() != 0
            }),
    {
        let a = self.as_num();
        let b = other.as_num();
        if a == 0 {
            b == 0
        } else {
            (a & b) != 0
        }
    }

    /// Whether `self` has a flag of `other` (see [`Self::contains`]).
    pub fn has_flag(&self, other: Self) -> (r: bool)
        ensures
            r == (if self.num() == 0 {
                other.num() == 0
            } else {
                self.num() & other.num() != 0
            }),
    {
        self.contains(other)
    }

    /// Whether no flag is set.
    pub fn is_empty(&self) -> (r: bool)
        ensures
            r == (self.num() == 0),
    {
        self.as_num() == 0
    }
}

impl TraitFlags {
    /// The number of the flags: the sum of the flags that are set.
    pub open spec fn num(self) -> u8 {
        match self {
            TraitFlags::Empty => 0,
            TraitFlags::LitSeq => 1,
            TraitFlags::Len1Seq => 2,
            TraitFlags::Len0123SeqMirrors => 4,
            TraitFlags::Composed(n) => n,
        }
    }

    /// The value that a number stands for: a single flag by its name, any
    /// other number as `Composed`.
    pub open spec fn of_num(n: u8) -> TraitFlags {
        if n == 0 {
            TraitFlags::Empty
        } else if n == 1 {
            TraitFlags::LitSeq
        } else if n == 2 {
            TraitFlags::Len1Seq
        } else if n == 4 {
            TraitFlags::Len0123SeqMirrors
        } else {
            TraitFlags::Composed(n)
        }
    }

    /// Convert from the number of the flags.
    pub fn from_num(n: u8) -> (r: Self)
        ensures
            r == Self::of_num(n),
    {
        match n {
            0 => TraitFlags::Empty,
            1 => TraitFlags::LitSeq,
            2 => TraitFlags::Len1Seq,
            4 => TraitFlags::Len0123SeqMirrors,
            _ => TraitFlags::Composed(n),
        }
    }

    /// Convert to the number of the flags.
    pub fn as_num(&self) -> (n: u8)
        ensures
            n == self.num(),
    {
        match self {
            TraitFlags::Empty => 0,
            TraitFlags::LitSeq => 1,
            TraitFlags::Len1Seq => 2,
            TraitFlags::Len0123SeqMirrors => 4,
            TraitFlags::Composed(n) => *n,
        }
    }

    /// The flags set in either.
    pub fn union(&self, other: Self) -> (r: Self)
        ensures
            r == Self::of_num(self.num() | other.num()),
    {
        Self::from_num(self.as_num() | other.as_num())
    }

    /// Whether `self` has a flag of `other`; with no flag set, whether
    /// `other` has none either.
    pub fn contains(&self, other: Self) -> (r: bool)
        ensures
            r == (if self.num() == 0 {
                other.num() == 0
            } else {
                self.num() & other.num() != 0
            }),
    {
        let a = self.as_num();
        let b = other.as_num();
        if a == 0 {
            b == 0
        } else {
            (a & b) != 0
        }
    }

    /// Whether no flag is set.
    pub fn is_empty(&self) -> (r: bool)
        ensures
            r == (self.num() == 0),
    {
        self.as_num() == 0
    }
}

/// A number gives back the flags that stand for it, and the flags of a number
/// give back that number.
pub proof fn lemma_proto_flags_num_roundtrip(n: u8, f: ProtoFlags)
    ensures
        ProtoFlags::of_num(n).num() == n,
        (f matches ProtoFlags::Composed(m) ==> ProtoFlags::of_num(m) == f || m == 0 || m == 1 || m == 2
            || m == 4 || m == 8 || m == 16 || m == 32),
        !(f is Composed) ==> ProtoFlags::of_num(f.num()) == f,
{
}

/// A number gives back the flags that stand for it, and the flags of a number
/// give back that number.
pub proof fn lemma_trait_flags_num_roundtrip(n: u8, f: TraitFlags)
    ensures
        TraitFlags::of_num(n).num() == n,
        !(f is Composed) ==> TraitFlags::of_num(f.num()) == f,
{
}

impl From<u8> for ProtoFlags {
    fn from(value: u8) -> (r: Self) {
        Self::from_num(value)
    }
}

impl vstd::std_specs::convert::FromSpecImpl<u8> for ProtoFlags {
    open spec fn obeys_from_spec() -> bool {
        true
    }

    open spec fn from_spec(v: u8) -> Self {
        ProtoFlags::of_num(v)
    }
}

impl From<ProtoFlags> for u8 {
    fn from(value: ProtoFlags) -> (r: Self) {
        value.as_num()
    }
}

impl vstd::std_specs::convert::FromSpecImpl<ProtoFlags> for u8 {
    open spec fn obeys_from_spec() -> bool {
        true
    }

    open spec fn from_spec(v: ProtoFlags) -> Self {
        v.num()
    }
}

impl From<u8> for TraitFlags {
    fn from(value: u8) -> (r: Self) {
        Self::from_num(value)
    }
}

impl vstd::std_specs::convert::FromSpecImpl<u8> for TraitFlags {
    open spec fn obeys_from_spec() -> bool {
        true
    }

    open spec fn from_spec(v: u8) -> Self {
        TraitFlags::of_num(v)
    }
}

impl From<TraitFlags> for u8 {
    fn from(value: TraitFlags) -> (r: Self) {
        value.as_num()
    }
}

impl vstd::std_specs::convert::FromSpecImpl<TraitFlags> for u8 {
    open spec fn obeys_from_spec() -> bool {
        true
    }

    open spec fn from_spec(v: TraitFlags) -> Self {
        v.num()
    }
}

impl From<DynProto> for ProtoFlags {
    fn from(value: DynProto) -> (r: Self) {
        Self::from_num(value.to_num())
    }
}

impl vstd::std_specs::convert::FromSpecImpl<DynProto> for ProtoFlags {
    open spec fn obeys_from_spec() -> bool {
        true
    }

    open spec fn from_spec(v: DynProto) -> Self {
        ProtoFlags::of_num(v.num())
    }
}

impl<const P: u8> From<GenProto<P>> for ProtoFlags {
    fn from(value: GenProto<P>) -> (r: Self) {
        Self::from_num(P)
    }
}

impl<const P: u8> vstd::std_specs::convert::FromSpecImpl<GenProto<P>> for ProtoFlags {
    open spec fn obeys_from_spec() -> bool {
        true
    }

    open spec fn from_spec(v: GenProto<P>) -> Self {
        ProtoFlags::of_num(P)
    }
}

} // verus!
