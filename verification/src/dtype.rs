//! Element data types of tensors.
use vstd::prelude::*;

verus! {

/// The element type of a tensor.
#[derive(Clone, Copy, Debug, PartialEq, Eq, Structural)]
pub enum DataType {
    Fp32,
    Bf16,
    Fp16,
    Fp8,
    Fp4,
    Int64,
    Int32,
    Int16,
    Int8,
    Int4,
}

/// The number of bits that one element of a data type occupies.
pub open spec fn bits_of(dtype: DataType) -> nat {
    match dtype {
        DataType::Fp32 => 32,
        DataType::Bf16 => 16,
        DataType::Fp16 => 16,
        DataType::Fp8 => 8,
        DataType::Fp4 => 4,
        DataType::Int64 => 64,
        DataType::Int32 => 32,
        DataType::Int16 => 16,
        DataType::Int8 => 8,
        DataType::Int4 => 4,
    }
}

/// The position of a data type in the order of the variants; a larger
/// one is the wider type for a result.
pub open spec fn dtype_order(dtype: DataType) -> nat {
    match dtype {
        DataType::Fp32 => 0,
        DataType::Bf16 => 1,
        DataType::Fp16 => 2,
        DataType::Fp8 => 3,
        DataType::Fp4 => 4,
        DataType::Int64 => 5,
        DataType::Int32 => 6,
        DataType::Int16 => 7,
        DataType::Int8 => 8,
        DataType::Int4 => 9,
    }
}

/// The type of the result of an elementwise operation on two types: the
/// later of the two in the order of the variants.
pub open spec fn result_dtype(a: DataType, b: DataType) -> DataType {
    if dtype_order(a) > dtype_order(b) {
        a
    } else {
        b
    }
}

impl DataType {
    /// The position of the data type in the order of the variants.
    pub fn order(&self) -> (n: u8)
        ensures
            n == dtype_order(*self),
    {
        match self {
            DataType::Fp32 => 0,
            DataType::Bf16 => 1,
            DataType::Fp16 => 2,
            DataType::Fp8 => 3,
            DataType::Fp4 => 4,
            DataType::Int64 => 5,
            DataType::Int32 => 6,
            DataType::Int16 => 7,
            DataType::Int8 => 8,
            DataType::Int4 => 9,
        }
    }

    /// The type of the result of an elementwise operation on this type and
    /// `other`.
    pub fn wider(&self, other: &DataType) -> (dtype: DataType)
        ensures
            dtype == result_dtype(*self, *other),
    {
        if self.order() > other.order() {
            *self
        } else {
            *other
        }
    }

    /// Return the number of bits required for one element.
    pub fn num_bits(&self) -> (bits: usize)
        ensures
            bits == bits_of(*self),
    {
        match self {
            DataType::Fp32 => 32,
            DataType::Fp16 => 16,
            DataType::Bf16 => 16,
            DataType::Fp8 => 8,
            DataType::Fp4 => 4,
            DataType::Int64 => 64,
            DataType::Int32 => 32,
            DataType::Int16 => 16,
            DataType::Int8 => 8,
            DataType::Int4 => 4,
        }
    }
}

} // verus!
