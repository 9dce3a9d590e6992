//! Element types of tensors.

use vstd::prelude::*;

verus! {

/// The type of the elements of a tensor.
#[derive(Debug, Copy, Clone, PartialEq, Eq, Structural, Hash, Ord, PartialOrd)]
pub enum DatumType {
    F16,
    F32,
    F64,
    I8,
    I16,
    I32,
    I64,
    U8,
    U16,
    U32,
    U64,
}

impl DatumType {
    pub open spec fn spec_is_unsigned(&self) -> bool {
        *self is U8 || *self is U16 || *self is U32 || *self is U64
    }

    pub open spec fn spec_is_signed(&self) -> bool {
        *self is I8 || *self is I16 || *self is I32 || *self is I64
    }

    pub open spec fn spec_is_float(&self) -> bool {
        *self is F16 || *self is F32 || *self is F64
    }

    /// Bytes taken by one element.
    pub open spec fn spec_size_of(&self) -> usize {
        match *self {
            DatumType::I8 | DatumType::U8 => 1,
            DatumType::F16 | DatumType::I16 | DatumType::U16 => 2,
            DatumType::F32 | DatumType::I32 | DatumType::U32 => 4,
            DatumType::F64 | DatumType::I64 | DatumType::U64 => 8,
        }
    }

    #[verifier::when_used_as_spec(spec_is_unsigned)]
    pub fn is_unsigned(&self) -> (r: bool)
        ensures
            r == self.spec_is_unsigned(),
    {
        matches!(self, DatumType::U8 | DatumType::U16 | DatumType::U32 | DatumType::U64)
    }

    #[verifier::when_used_as_spec(spec_is_signed)]
    pub fn is_signed(&self) -> (r: bool)
        ensures
            r == self.spec_is_signed(),
    {
        matches!(self, DatumType::I8 | DatumType::I16 | DatumType::I32 | DatumType::I64)
    }

    #[verifier::when_used_as_spec(spec_is_float)]
    pub fn is_float(&self) -> (r: bool)
        ensures
            r == self.spec_is_float(),
    {
        matches!(self, DatumType::F16 | DatumType::F32 | DatumType::F64)
    }

    /// Whether elements can be copied byte for byte. Every datum type here can.
    pub fn is_copy(&self) -> (r: bool)
        ensures
            r,
            r == (self.spec_is_unsigned() || self.spec_is_signed() || self.spec_is_float()),
    {
        self.is_unsigned() || self.is_signed() || self.is_float()
    }

    /// The type with any quantization dropped. No datum type here is quantized.
    pub fn unquantized(&self) -> (r: DatumType)
        ensures
            r == *self,
    {
        *self
    }

    #[verifier::when_used_as_spec(spec_size_of)]
    pub fn size_of(&self) -> (r: usize)
        ensures
            r == self.spec_size_of(),
            1 <= r <= 8,
    {
        match self {
            DatumType::I8 | DatumType::U8 => 1,
            DatumType::F16 | DatumType::I16 | DatumType::U16 => 2,
            DatumType::F32 | DatumType::I32 | DatumType::U32 => 4,
            DatumType::F64 | DatumType::I64 | DatumType::U64 => 8,
        }
    }

    /// The alignment an element asks for: its own size.
    pub fn alignment(&self) -> (r: usize)
        ensures
            r == self.spec_size_of(),
    {
        self.size_of()
    }
}

} // verus!
