use std::sync::Arc;
use tract_core::datum::DatumType;
use tract_core::error::TractError;
use tract_core::fact::{ShapeFact, TDim, TypedFact};
use tract_core::tensor::{IntoArcTensor, Tensor};

#[test]
fn datum_type_sizes() {
    assert_eq!(DatumType::U8.size_of(), 1);
    assert_eq!(DatumType::I8.size_of(), 1);
    assert_eq!(DatumType::F16.size_of(), 2);
    assert_eq!(DatumType::I16.size_of(), 2);
    assert_eq!(DatumType::U16.size_of(), 2);
    assert_eq!(DatumType::F32.size_of(), 4);
    assert_eq!(DatumType::I32.size_of(), 4);
    assert_eq!(DatumType::U32.size_of(), 4);
    assert_eq!(DatumType::F64.size_of(), 8);
    assert_eq!(DatumType::I64.size_of(), 8);
    assert_eq!(DatumType::U64.size_of(), 8);
    assert_eq!(DatumType::F32.alignment(), 4);
    assert_eq!(DatumType::I64.alignment(), 8);
}

#[test]
fn datum_type_families() {
    assert!(DatumType::F32.is_float());
    assert!(!DatumType::F32.is_signed());
    assert!(!DatumType::F32.is_unsigned());
    assert!(DatumType::I16.is_signed());
    assert!(!DatumType::I16.is_float());
    assert!(DatumType::U64.is_unsigned());
    assert!(!DatumType::U64.is_signed());
    assert!(DatumType::U8.is_copy());
    assert!(DatumType::F64.is_copy());
    assert_eq!(DatumType::I32.unquantized(), DatumType::I32);
}

#[test]
fn zero_tensor_has_shape_strides_and_zero_bytes() {
    let t = Tensor::zero(DatumType::F32, &[2, 3, 4]).unwrap();
    assert_eq!(t.rank(), 3);
    assert_eq!(t.shape(), &[2usize, 3, 4][..]);
    assert_eq!(t.strides(), &[12isize, 4, 1][..]);
    assert_eq!(t.len(), 24);
    assert_eq!(t.datum_type(), DatumType::F32);
    assert_eq!(t.as_bytes().len(), 96);
    assert!(t.as_bytes().iter().all(|b| *b == 0));
}

#[test]
fn scalar_tensor_has_one_element() {
    let t = Tensor::zero(DatumType::I64, &[]).unwrap();
    assert_eq!(t.rank(), 0);
    assert_eq!(t.len(), 1);
    assert_eq!(t.as_bytes().len(), 8);
    assert_eq!(t.strides().len(), 0);
}

#[test]
fn empty_tensor_has_no_bytes() {
    let t = Tensor::zero(DatumType::U16, &[3, 0, 2]).unwrap();
    assert_eq!(t.len(), 0);
    assert_eq!(t.as_bytes().len(), 0);
    assert_eq!(t.strides(), &[0isize, 2, 1][..]);
}

#[test]
fn zero_aligned_rejects_bad_alignment() {
    assert_eq!(
        Tensor::zero_aligned(DatumType::F32, &[64], 0).err(),
        Some(TractError::InvalidLayout)
    );
    assert_eq!(
        Tensor::zero_aligned(DatumType::F32, &[64], 3).err(),
        Some(TractError::InvalidLayout)
    );
    assert_eq!(
        Tensor::zero_aligned(DatumType::F32, &[64], 24).err(),
        Some(TractError::InvalidLayout)
    );
    let t = Tensor::zero_aligned(DatumType::F32, &[64], 32).unwrap();
    assert_eq!(t.len(), 64);
    assert_eq!(t.as_bytes().len(), 256);
}

#[test]
fn zero_rejects_a_buffer_beyond_isize() {
    assert_eq!(
        Tensor::zero(DatumType::U8, &[usize::MAX]).err(),
        Some(TractError::InvalidLayout)
    );
    assert_eq!(
        Tensor::zero(DatumType::F64, &[usize::MAX / 2, 4]).err(),
        Some(TractError::InvalidLayout)
    );
    assert_eq!(
        Tensor::zero(DatumType::F64, &[0, usize::MAX, usize::MAX]).err(),
        Some(TractError::InvalidLayout)
    );
}

#[test]
fn from_raw_keeps_the_bytes() {
    let t = Tensor::from_raw(DatumType::U16, &[2, 2], vec![1, 0, 2, 0, 3, 0, 4, 0]).unwrap();
    assert_eq!(t.shape(), &[2usize, 2][..]);
    assert_eq!(t.strides(), &[2isize, 1][..]);
    assert_eq!(t.len(), 4);
    assert_eq!(t.as_bytes(), &[1u8, 0, 2, 0, 3, 0, 4, 0][..]);
}

#[test]
fn from_raw_rejects_a_wrong_byte_count() {
    assert_eq!(
        Tensor::from_raw(DatumType::U16, &[2, 2], vec![1, 0, 2, 0]).err(),
        Some(TractError::ShapeMismatch)
    );
    assert_eq!(
        Tensor::from_raw(DatumType::F32, &[], vec![]).err(),
        Some(TractError::ShapeMismatch)
    );
    assert_eq!(
        Tensor::from_raw(DatumType::U8, &[usize::MAX], vec![]).err(),
        Some(TractError::InvalidLayout)
    );
}

#[test]
fn clear_zeroes_the_bytes_and_keeps_the_shape() {
    let mut t = Tensor::from_raw(DatumType::U8, &[3], vec![7, 8, 9]).unwrap();
    t.clear();
    assert_eq!(t.as_bytes(), &[0u8, 0, 0][..]);
    assert_eq!(t.shape(), &[3usize][..]);
    assert_eq!(t.datum_type(), DatumType::U8);
}

#[test]
fn same_as_compares_type_shape_and_bytes() {
    let a = Tensor::from_raw(DatumType::U8, &[2, 2], vec![1, 2, 3, 4]).unwrap();
    let b = Tensor::from_raw(DatumType::U8, &[2, 2], vec![1, 2, 3, 4]).unwrap();
    let other_bytes = Tensor::from_raw(DatumType::U8, &[2, 2], vec![1, 2, 3, 5]).unwrap();
    let other_shape = Tensor::from_raw(DatumType::U8, &[4], vec![1, 2, 3, 4]).unwrap();
    let other_type = Tensor::from_raw(DatumType::I8, &[2, 2], vec![1, 2, 3, 4]).unwrap();
    assert!(a.same_as(&b));
    assert!(!a.same_as(&other_bytes));
    assert!(!a.same_as(&other_shape));
    assert!(!a.same_as(&other_type));
}

#[test]
fn into_arc_tensor_shares_the_tensor() {
    let t = Tensor::from_raw(DatumType::U8, &[2], vec![5, 6]).unwrap();
    let arc = t.into_arc_tensor();
    assert_eq!(arc.as_bytes(), &[5u8, 6][..]);
    let again: Arc<Tensor> = arc.clone().into_arc_tensor();
    assert!(Arc::ptr_eq(&arc, &again));
}

#[test]
fn shape_fact_from_dims_is_concrete() {
    let s = ShapeFact::from_dims(vec![2, 3]);
    assert_eq!(s.rank(), 2);
    assert_eq!(s.dims(), &[TDim::Val(2), TDim::Val(3)][..]);
    assert_eq!(s.as_concrete(), Some(&[2usize, 3][..]));
}

#[test]
fn shape_fact_with_a_symbol_is_not_concrete() {
    let s = ShapeFact::from_tdims(vec![TDim::Val(2), TDim::Sym('S')]);
    assert_eq!(s.rank(), 2);
    assert_eq!(s.as_concrete(), None);
    let fixed = ShapeFact::from_tdims(vec![TDim::Val(2), TDim::Val(5)]);
    assert_eq!(fixed.as_concrete(), Some(&[2usize, 5][..]));
    assert!(!s.same_as(&fixed));
    assert!(s.same_as(&s.clone()));
}

#[test]
fn plain_fact_has_no_value() {
    let f = DatumType::F32.fact(&[1, 2]);
    assert_eq!(f.datum_type(), DatumType::F32);
    assert_eq!(f.rank(), 2);
    assert_eq!(f.shape().as_concrete(), Some(&[1usize, 2][..]));
    assert!(f.konst().is_none());
    let scalar = DatumType::I32.scalar_fact();
    assert_eq!(scalar.rank(), 0);
    assert_eq!(scalar.datum_type(), DatumType::I32);
}

#[test]
fn fact_of_a_tensor_carries_it() {
    let t = Tensor::from_raw(DatumType::U8, &[2, 1], vec![9, 8]).unwrap().into_arc_tensor();
    let f = TypedFact::from_tensor(t.clone());
    assert_eq!(f.datum_type(), DatumType::U8);
    assert_eq!(f.shape().as_concrete(), Some(&[2usize, 1][..]));
    assert!(f.konst().unwrap().same_as(&t));
}

#[test]
fn constant_fact_must_agree_with_its_tensor() {
    let t = Tensor::from_raw(DatumType::U8, &[2, 1], vec![9, 8]).unwrap().into_arc_tensor();
    let ok = TypedFact::constant(DatumType::U8, ShapeFact::from_dims(vec![2, 1]), t.clone());
    assert!(ok.unwrap().konst().is_some());
    let wrong_shape =
        TypedFact::constant(DatumType::U8, ShapeFact::from_dims(vec![1, 2]), t.clone());
    assert_eq!(wrong_shape.err(), Some(TractError::ShapeMismatch));
    let wrong_type =
        TypedFact::constant(DatumType::I8, ShapeFact::from_dims(vec![2, 1]), t.clone());
    assert_eq!(wrong_type.err(), Some(TractError::ShapeMismatch));
    let symbolic = TypedFact::constant(
        DatumType::U8,
        ShapeFact::from_tdims(vec![TDim::Val(2), TDim::Sym('S')]),
        t,
    );
    assert_eq!(symbolic.err(), Some(TractError::ShapeMismatch));
}

#[test]
fn facts_compare_by_what_they_say() {
    let t = Tensor::from_raw(DatumType::U8, &[2], vec![1, 2]).unwrap().into_arc_tensor();
    let u = Tensor::from_raw(DatumType::U8, &[2], vec![1, 2]).unwrap().into_arc_tensor();
    let v = Tensor::from_raw(DatumType::U8, &[2], vec![1, 3]).unwrap().into_arc_tensor();
    let a = TypedFact::from_tensor(t);
    assert!(a.same_as(&TypedFact::from_tensor(u)));
    assert!(!a.same_as(&TypedFact::from_tensor(v)));
    assert!(!a.same_as(&DatumType::U8.fact(&[2])));
    assert!(a.same_as(&a.clone()));
    assert!(DatumType::U8.fact(&[2]).same_as(&DatumType::U8.fact(&[2])));
    assert!(!DatumType::U8.fact(&[2]).same_as(&DatumType::U8.fact(&[3])));
    assert!(!DatumType::U8.fact(&[2]).same_as(&DatumType::I8.fact(&[2])));
}
