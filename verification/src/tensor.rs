//! Owned, dynamically typed, contiguous tensors.

use crate::datum::DatumType;
use crate::error::{TractError, TractResult};
use std::sync::Arc;
use vstd::prelude::*;

verus! {

/// Product of the dimensions of `shape` from position `from` on.
pub open spec fn volume_from(shape: Seq<usize>, from: int) -> nat
    decreases shape.len() - from,
{
    if from < 0 || from >= shape.len() {
        1
    } else {
        shape[from] as nat * volume_from(shape, from + 1)
    }
}

/// Number of elements of a tensor of this shape.
pub open spec fn volume(shape: Seq<usize>) -> nat {
    volume_from(shape, 0)
}

/// Row-major strides, counted in elements: the stride of an axis is the
/// product of the dimensions behind it.
pub open spec fn natural_strides(shape: Seq<usize>) -> Seq<int> {
    Seq::new(shape.len(), |i: int| volume_from(shape, i + 1) as int)
}

/// Whether `alignment` is a power of two.
pub open spec fn is_power_of_two(alignment: usize) -> bool {
    alignment > 0 && alignment & ((alignment - 1) as usize) == 0
}

/// Whether a buffer for `shape` can be laid out: the alignment is a power of
/// two, and the bytes behind every axis, padded to the alignment, fit in
/// `isize`.
pub open spec fn layout_fits(dt: DatumType, shape: Seq<usize>, alignment: usize) -> bool {
    &&& is_power_of_two(alignment)
    &&& forall|i: int|
        0 <= i <= shape.len() ==> #[trigger] volume_from(shape, i) * dt.spec_size_of() + (alignment
            - 1) <= isize::MAX
}

/// What a tensor is: its element type, its shape and its bytes.
pub struct TensorView {
    pub datum_type: DatumType,
    pub shape: Seq<usize>,
    pub data: Seq<u8>,
}

impl TensorView {
    /// The buffer holds exactly as many bytes as shape and element type ask for.
    pub open spec fn wf(self) -> bool {
        &&& self.data.len() == volume(self.shape) * self.datum_type.spec_size_of()
        &&& layout_fits(self.datum_type, self.shape, self.datum_type.spec_size_of())
    }
}

/// A tensor: a datum type, a shape, the strides derived from it, and a byte
/// buffer of `volume(shape) * size_of(datum type)` bytes.
#[derive(Debug)]
pub struct Tensor {
    dt: DatumType,
    shape: Vec<usize>,
    strides: Vec<isize>,
    len: usize,
    data: Vec<u8>,
}

impl View for Tensor {
    type V = TensorView;

    closed spec fn view(&self) -> TensorView {
        TensorView { datum_type: self.dt, shape: self.shape@, data: self.data@ }
    }
}

proof fn lemma_volume_from_step(shape: Seq<usize>, i: int)
    requires
        0 <= i < shape.len(),
    ensures
        volume_from(shape, i) == shape[i] as nat * volume_from(shape, i + 1),
{
}

fn same_dims(a: &Vec<usize>, b: &Vec<usize>) -> (r: bool)
    ensures
        r == (a@ == b@),
{
    if a.len() != b.len() {
        return false;
    }
    let mut i: usize = 0;
    while i < a.len()
        invariant
            a.len() == b.len(),
            i <= a.len(),
            forall|j: int| 0 <= j < i ==> a@[j] == b@[j],
        decreases a.len() - i,
    {
        if a[i] != b[i] {
            return false;
        }
        i += 1;
    }
    assert(a@ =~= b@);
    true
}

fn same_bytes(a: &Vec<u8>, b: &Vec<u8>) -> (r: bool)
    ensures
        r == (a@ == b@),
{
    if a.len() != b.len() {
        return false;
    }
    let mut i: usize = 0;
    while i < a.len()
        invariant
            a.len() == b.len(),
            i <= a.len(),
            forall|j: int| 0 <= j < i ==> a@[j] == b@[j],
        decreases a.len() - i,
    {
        if a[i] != b[i] {
            return false;
        }
        i += 1;
    }
    assert(a@ =~= b@);
    true
}

/// Pushes the row-major strides of `shape` onto `strides` and returns the
/// number of elements, or `None` where `layout_fits` fails.
fn compute_natural_stride_to(
    strides: &mut Vec<isize>,
    dt: DatumType,
    shape: &[usize],
    alignment: usize,
) -> (r: Option<usize>)
    requires
        old(strides)@.len() == 0,
    ensures
        r is Some <==> layout_fits(dt, shape@, alignment),
        r matches Some(len) ==> {
            &&& len as nat == volume(shape@)
            &&& final(strides)@.len() == shape@.len()
            &&& forall|i: int|
                0 <= i < shape@.len() ==> final(strides)@[i] as int == #[trigger] natural_strides(
                    shape@,
                )[i]
        },
{
    if alignment == 0 || alignment & (alignment - 1) != 0 {
        return None;
    }
    let size = dt.size_of();
    let rank = shape.len();
    let mut k: usize = 0;
    while k < rank
        invariant
            k <= rank,
            rank == shape@.len(),
            strides@.len() == k,
        decreases rank - k,
    {
        strides.push(0);
        k += 1;
    }
    if alignment - 1 >= isize::MAX as usize {
        assert(volume_from(shape@, rank as int) == 1);
        return None;
    }
    let limit: usize = (isize::MAX as usize) - (alignment - 1);
    if size > limit {
        assert(volume_from(shape@, rank as int) == 1);
        return None;
    }
    let mut acc: usize = 1;
    let mut i: usize = rank;
    while i > 0
        invariant
            i <= rank,
            rank == shape@.len(),
            strides@.len() == rank,
            size == dt.spec_size_of(),
            limit == isize::MAX - (alignment - 1),
            is_power_of_two(alignment),
            acc as nat == volume_from(shape@, i as int),
            forall|j: int|
                i <= j <= rank ==> #[trigger] volume_from(shape@, j) * size + (alignment - 1)
                    <= isize::MAX,
            forall|j: int|
                i <= j < rank ==> strides@[j] as int == #[trigger] volume_from(shape@, j + 1),
        decreases i,
    {
        assert(acc * size <= limit) by {
            assert(volume_from(shape@, i as int) * size + (alignment - 1) <= isize::MAX);
        }
        assert(acc <= limit) by (nonlinear_arith)
            requires
                acc * size <= limit,
                size >= 1,
        ;
        strides.set(i - 1, acc as isize);
        proof {
            lemma_volume_from_step(shape@, i - 1);
        }
        let dim = shape[i - 1];
        let next = match acc.checked_mul(dim) {
            Some(n) => n,
            None => {
                assert(volume_from(shape@, i - 1) * size + (alignment - 1) > isize::MAX)
                    by (nonlinear_arith)
                    requires
                        volume_from(shape@, i - 1) == dim as nat * acc as nat,
                        acc * dim > usize::MAX,
                        size >= 1,
                        alignment >= 1,
                ;
                return None;
            },
        };
        let bytes = match next.checked_mul(size) {
            Some(n) => n,
            None => {
                assert(volume_from(shape@, i - 1) * size + (alignment - 1) > isize::MAX) by {
                    assert(volume_from(shape@, i - 1) == next as nat) by (nonlinear_arith)
                        requires
                            volume_from(shape@, i - 1) == dim as nat * acc as nat,
                            next == acc * dim,
                    ;
                }
                return None;
            },
        };
        if bytes > limit {
            assert(volume_from(shape@, i - 1) == next as nat) by (nonlinear_arith)
                requires
                    volume_from(shape@, i - 1) == dim as nat * acc as nat,
                    next == acc * dim,
            ;
            return None;
        }
        assert(volume_from(shape@, i - 1) == next as nat) by (nonlinear_arith)
            requires
                volume_from(shape@, i - 1) == dim as nat * acc as nat,
                next == acc * dim,
        ;
        acc = next;
        i -= 1;
    }
    Some(acc)
}

impl Tensor {
    #[verifier::type_invariant]
    spec fn inv(&self) -> bool {
        &&& self@.wf()
        &&& self.len as nat == volume(self.shape@)
        &&& self.strides@.len() == self.shape@.len()
        &&& forall|i: int|
            0 <= i < self.shape@.len() ==> self.strides@[i] as int == #[trigger] natural_strides(
                self.shape@,
            )[i]
    }

    /// A tensor of zero bytes, for a buffer aligned to `alignment`.
    pub fn zero_aligned(dt: DatumType, shape: &[usize], alignment: usize) -> (r: TractResult<
        Tensor,
    >)
        ensures
            match r {
                Ok(t) => {
                    &&& layout_fits(dt, shape@, alignment)
                    &&& t@.wf()
                    &&& t@.datum_type == dt
                    &&& t@.shape == shape@
                    &&& forall|i: int| 0 <= i < t@.data.len() ==> t@.data[i] == 0u8
                },
                Err(e) => e == TractError::InvalidLayout && !(layout_fits(dt, shape@, alignment)
                    && layout_fits(dt, shape@, dt.spec_size_of())),
            },
    {
        let mut strides: Vec<isize> = Vec::new();
        if compute_natural_stride_to(&mut strides, dt, shape, alignment).is_none() {
            return Err(TractError::InvalidLayout);
        }
        let mut strides: Vec<isize> = Vec::new();
        let len = match compute_natural_stride_to(&mut strides, dt, shape, dt.alignment()) {
            Some(len) => len,
            None => {
                return Err(TractError::InvalidLayout);
            },
        };
        let size = dt.size_of();
        assert(len * size <= isize::MAX) by {
            assert(volume_from(shape@, 0) * size + (size - 1) <= isize::MAX);
        }
        let bytes = len * size;
        let mut data: Vec<u8> = Vec::new();
        let mut k: usize = 0;
        while k < bytes
            invariant
                k <= bytes,
                data@.len() == k,
                forall|i: int| 0 <= i < k ==> data@[i] == 0u8,
            decreases bytes - k,
        {
            data.push(0u8);
            k += 1;
        }
        let mut dims: Vec<usize> = Vec::new();
        let mut k: usize = 0;
        while k < shape.len()
            invariant
                k <= shape.len(),
                dims@ == shape@.take(k as int),
            decreases shape.len() - k,
        {
            dims.push(shape[k]);
            assert(shape@.take(k as int + 1) =~= shape@.take(k as int).push(shape@[k as int]));
            k += 1;
        }
        assert(dims@ =~= shape@);
        Ok(Tensor { dt, shape: dims, strides, len, data })
    }

    /// A tensor of zero bytes.
    pub fn zero(dt: DatumType, shape: &[usize]) -> (r: TractResult<Tensor>)
        ensures
            match r {
                Ok(t) => {
                    &&& t@.wf()
                    &&& t@.datum_type == dt
                    &&& t@.shape == shape@
                    &&& forall|i: int| 0 <= i < t@.data.len() ==> t@.data[i] == 0u8
                },
                Err(e) => e == TractError::InvalidLayout && !layout_fits(
                    dt,
                    shape@,
                    dt.spec_size_of(),
                ),
            },
    {
        Tensor::zero_aligned(dt, shape, dt.alignment())
    }

    /// A tensor over the bytes `data`.
    pub fn from_raw(dt: DatumType, shape: &[usize], data: Vec<u8>) -> (r: TractResult<Tensor>)
        ensures
            match r {
                Ok(t) => t@.wf() && t@ == (TensorView { datum_type: dt, shape: shape@, data: data@ }),
                Err(e) => if layout_fits(dt, shape@, dt.spec_size_of()) {
                    e == TractError::ShapeMismatch && data@.len() != volume(shape@)
                        * dt.spec_size_of()
                } else {
                    e == TractError::InvalidLayout
                },
            },
    {
        let mut strides: Vec<isize> = Vec::new();
        let len = match compute_natural_stride_to(&mut strides, dt, shape, dt.alignment()) {
            Some(len) => len,
            None => {
                return Err(TractError::InvalidLayout);
            },
        };
        let size = dt.size_of();
        assert(len * size <= isize::MAX) by {
            assert(volume_from(shape@, 0) * size + (size - 1) <= isize::MAX);
        }
        if data.len() != len * size {
            return Err(TractError::ShapeMismatch);
        }
        let mut dims: Vec<usize> = Vec::new();
        let mut k: usize = 0;
        while k < shape.len()
            invariant
                k <= shape.len(),
                dims@ == shape@.take(k as int),
            decreases shape.len() - k,
        {
            dims.push(shape[k]);
            assert(shape@.take(k as int + 1) =~= shape@.take(k as int).push(shape@[k as int]));
            k += 1;
        }
        assert(dims@ =~= shape@);
        Ok(Tensor { dt, shape: dims, strides, len, data })
    }

    /// Sets every byte to zero.
    pub fn clear(&mut self)
        ensures
            final(self)@.datum_type == old(self)@.datum_type,
            final(self)@.shape == old(self)@.shape,
            final(self)@.data.len() == old(self)@.data.len(),
            forall|i: int| 0 <= i < final(self)@.data.len() ==> final(self)@.data[i] == 0u8,
    {
        proof {
            use_type_invariant(&*self);
        }
        let n = self.data.len();
        let mut data: Vec<u8> = Vec::new();
        let mut k: usize = 0;
        while k < n
            invariant
                k <= n,
                data@.len() == k,
                forall|i: int| 0 <= i < k ==> data@[i] == 0u8,
            decreases n - k,
        {
            data.push(0u8);
            k += 1;
        }
        self.data = data;
    }

    pub fn rank(&self) -> (r: usize)
        ensures
            r == self@.shape.len(),
    {
        self.shape.len()
    }

    pub fn shape(&self) -> (r: &[usize])
        ensures
            r@ == self@.shape,
    {
        self.shape.as_slice()
    }

    /// The row-major strides, in elements.
    pub fn strides(&self) -> (r: &[isize])
        ensures
            r@.len() == self@.shape.len(),
            forall|i: int|
                0 <= i < r@.len() ==> r@[i] as int == #[trigger] natural_strides(self@.shape)[i],
    {
        proof {
            use_type_invariant(self);
        }
        self.strides.as_slice()
    }

    /// The number of elements.
    pub fn len(&self) -> (r: usize)
        ensures
            r as nat == volume(self@.shape),
            self@.wf(),
    {
        proof {
            use_type_invariant(self);
        }
        self.len
    }

    pub fn datum_type(&self) -> (r: DatumType)
        ensures
            r == self@.datum_type,
    {
        self.dt
    }

    /// The buffer.
    pub fn as_bytes(&self) -> (r: &[u8])
        ensures
            r@ == self@.data,
            self@.wf(),
    {
        proof {
            use_type_invariant(self);
        }
        self.data.as_slice()
    }

    /// Whether two tensors have the same type, shape and bytes.
    pub fn same_as(&self, other: &Tensor) -> (r: bool)
        ensures
            r == (self@ == other@),
    {
        self.dt == other.dt && same_dims(&self.shape, &other.shape) && same_bytes(
            &self.data,
            &other.data,
        )
    }
}

/// What can be handed over as a shared tensor.
pub trait IntoArcTensor: Sized {
    /// The tensor that `into_arc_tensor` shares.
    spec fn tensor_view(self) -> TensorView;

    fn into_arc_tensor(self) -> (r: Arc<Tensor>)
        ensures
            r@ == self.tensor_view(),
    ;
}

impl IntoArcTensor for Tensor {
    open spec fn tensor_view(self) -> TensorView {
        self@
    }

    fn into_arc_tensor(self) -> (r: Arc<Tensor>) {
        Arc::new(self)
    }
}

impl IntoArcTensor for Arc<Tensor> {
    open spec fn tensor_view(self) -> TensorView {
        self@
    }

    fn into_arc_tensor(self) -> (r: Arc<Tensor>) {
        self
    }
}

} // verus!
