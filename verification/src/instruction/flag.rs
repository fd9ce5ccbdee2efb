use vstd::prelude::*;
use crate::instruction::accessor::{bit_set, lemma_extract};

verus! {

/// The properties of an instruction, each one bit of its flag word; the bit of a
/// property is its position in this list, counted from zero.
#[derive(Debug, Clone, Copy, PartialEq, Eq, Structural)]
pub enum Flags {
    IsNop,
    IsInteger,
    IsFloating,
    IsVector,
    IsVectorElem,
    IsMatrix,
    IsLoad,
    IsStore,
    IsAtomic,
    IsStoreConditional,
    IsInstPrefetch,
    IsDataPrefetch,
    IsControl,
    IsDirectControl,
    IsIndirectControl,
    IsCondControl,
    IsUncondControl,
    IsCall,
    IsReturn,
    IsSerializing,
    IsSerializeBefore,
    IsSerializeAfter,
    IsWriteBarrier,
    IsReadBarrier,
    IsNonSpeculative,
    IsQuiesce,
    IsUnverifiable,
    IsSyscall,
    IsMacroop,
    IsMicroop,
    IsDelayedCommit,
    IsLastMicroop,
    IsFirstMicroop,
    IsSquashAfter,
    IsHtmStart,
    IsHtmStop,
    IsHtmCancel,
    NumFlags,
}

impl Flags {
    /// The bit of the flag word that holds this property.
    pub open spec fn spec_position(self) -> nat {
        match self {
            Flags::IsNop => 0,
            Flags::IsInteger => 1,
            Flags::IsFloating => 2,
            Flags::IsVector => 3,
            Flags::IsVectorElem => 4,
            Flags::IsMatrix => 5,
            Flags::IsLoad => 6,
            Flags::IsStore => 7,
            Flags::IsAtomic => 8,
            Flags::IsStoreConditional => 9,
            Flags::IsInstPrefetch => 10,
            Flags::IsDataPrefetch => 11,
            Flags::IsControl => 12,
            Flags::IsDirectControl => 13,
            Flags::IsIndirectControl => 14,
            Flags::IsCondControl => 15,
            Flags::IsUncondControl => 16,
            Flags::IsCall => 17,
            Flags::IsReturn => 18,
            Flags::IsSerializing => 19,
            Flags::IsSerializeBefore => 20,
            Flags::IsSerializeAfter => 21,
            Flags::IsWriteBarrier => 22,
            Flags::IsReadBarrier => 23,
            Flags::IsNonSpeculative => 24,
            Flags::IsQuiesce => 25,
            Flags::IsUnverifiable => 26,
            Flags::IsSyscall => 27,
            Flags::IsMacroop => 28,
            Flags::IsMicroop => 29,
            Flags::IsDelayedCommit => 30,
            Flags::IsLastMicroop => 31,
            Flags::IsFirstMicroop => 32,
            Flags::IsSquashAfter => 33,
            Flags::IsHtmStart => 34,
            Flags::IsHtmStop => 35,
            Flags::IsHtmCancel => 36,
            Flags::NumFlags => 37,
        }
    }

    /// The bit of the flag word that holds this property.
    pub fn position(&self) -> (r: u64)
        ensures
            r == self.spec_position(),
    {
        match self {
            Flags::IsNop => 0,
            Flags::IsInteger => 1,
            Flags::IsFloating => 2,
            Flags::IsVector => 3,
            Flags::IsVectorElem => 4,
            Flags::IsMatrix => 5,
            Flags::IsLoad => 6,
            Flags::IsStore => 7,
            Flags::IsAtomic => 8,
            Flags::IsStoreConditional => 9,
            Flags::IsInstPrefetch => 10,
            Flags::IsDataPrefetch => 11,
            Flags::IsControl => 12,
            Flags::IsDirectControl => 13,
            Flags::IsIndirectControl => 14,
            Flags::IsCondControl => 15,
            Flags::IsUncondControl => 16,
            Flags::IsCall => 17,
            Flags::IsReturn => 18,
            Flags::IsSerializing => 19,
            Flags::IsSerializeBefore => 20,
            Flags::IsSerializeAfter => 21,
            Flags::IsWriteBarrier => 22,
            Flags::IsReadBarrier => 23,
            Flags::IsNonSpeculative => 24,
            Flags::IsQuiesce => 25,
            Flags::IsUnverifiable => 26,
            Flags::IsSyscall => 27,
            Flags::IsMacroop => 28,
            Flags::IsMicroop => 29,
            Flags::IsDelayedCommit => 30,
            Flags::IsLastMicroop => 31,
            Flags::IsFirstMicroop => 32,
            Flags::IsSquashAfter => 33,
            Flags::IsHtmStart => 34,
            Flags::IsHtmStop => 35,
            Flags::IsHtmCancel => 36,
            Flags::NumFlags => 37,
        }
    }

    /// Whether the flag word `flags` has this property's bit set.
    pub fn contains_flag(&self, flags: u64) -> (r: bool)
        ensures
            r == bit_set(flags, self.spec_position()),
    {
        let k = self.position();
        proof {
            lemma_single_bit(flags, k);
        }
        (flags & (1u64 << k)) != 0
    }
}

/// Each property has a bit of its own, numbered as the trace format declares it:
/// from `IsNop` at bit 0 to `IsHtmCancel` at bit 36, with `NumFlags`, their count,
/// at 37; no two properties share a bit.
pub proof fn lemma_flag_positions()
    ensures
        forall|f: Flags, g: Flags| f != g ==> #[trigger] f.spec_position() != #[trigger] g.spec_position(),
        forall|f: Flags| #[trigger] f.spec_position() <= Flags::NumFlags.spec_position(),
        Flags::IsNop.spec_position() == 0,
        Flags::IsInteger.spec_position() == 1,
        Flags::IsFloating.spec_position() == 2,
        Flags::IsVector.spec_position() == 3,
        Flags::IsVectorElem.spec_position() == 4,
        Flags::IsMatrix.spec_position() == 5,
        Flags::IsLoad.spec_position() == 6,
        Flags::IsStore.spec_position() == 7,
        Flags::IsAtomic.spec_position() == 8,
        Flags::IsStoreConditional.spec_position() == 9,
        Flags::IsInstPrefetch.spec_position() == 10,
        Flags::IsDataPrefetch.spec_position() == 11,
        Flags::IsControl.spec_position() == 12,
        Flags::IsDirectControl.spec_position() == 13,
        Flags::IsIndirectControl.spec_position() == 14,
        Flags::IsCondControl.spec_position() == 15,
        Flags::IsUncondControl.spec_position() == 16,
        Flags::IsCall.spec_position() == 17,
        Flags::IsReturn.spec_position() == 18,
        Flags::IsSerializing.spec_position() == 19,
        Flags::IsSerializeBefore.spec_position() == 20,
        Flags::IsSerializeAfter.spec_position() == 21,
        Flags::IsWriteBarrier.spec_position() == 22,
        Flags::IsReadBarrier.spec_position() == 23,
        Flags::IsNonSpeculative.spec_position() == 24,
        Flags::IsQuiesce.spec_position() == 25,
        Flags::IsUnverifiable.spec_position() == 26,
        Flags::IsSyscall.spec_position() == 27,
        Flags::IsMacroop.spec_position() == 28,
        Flags::IsMicroop.spec_position() == 29,
        Flags::IsDelayedCommit.spec_position() == 30,
        Flags::IsLastMicroop.spec_position() == 31,
        Flags::IsFirstMicroop.spec_position() == 32,
        Flags::IsSquashAfter.spec_position() == 33,
        Flags::IsHtmStart.spec_position() == 34,
        Flags::IsHtmStop.spec_position() == 35,
        Flags::IsHtmCancel.spec_position() == 36,
        Flags::NumFlags.spec_position() == 37,
{
}

proof fn lemma_single_bit_bv(flags: u64, k: u64)
    by (bit_vector)
    requires
        k < 64,
    ensures
        ((flags & (1u64 << k)) != 0) == (((flags >> k) & 1u64) == 1u64),
{
}

/// Masking with a single bit tests that bit.
pub proof fn lemma_single_bit(flags: u64, k: u64)
    requires
        k < 64,
    ensures
        ((flags & (1u64 << k)) != 0) == bit_set(flags, k as nat),
{
    lemma_single_bit_bv(flags, k);
    lemma_extract(flags, k as u32, 1);
    assert((((1u64 << 1u32) - 1) as u64) == 1u64) by (bit_vector);
    assert((flags >> k) == (flags >> (k as u32)));
}

} // verus!
