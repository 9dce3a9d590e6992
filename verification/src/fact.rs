//! Facts: what is known of the values an outlet carries.

use crate::datum::DatumType;
use crate::error::{TractError, TractResult};
use crate::tensor::{Tensor, TensorView};
use std::sync::Arc;
use vstd::prelude::*;
use vstd::slice::slice_to_vec;

verus! {

/// One dimension of a shape: a fixed size, or a symbol whose value is not
/// known yet.
#[derive(Clone, Copy, Debug, PartialEq, Eq, Structural)]
pub enum TDim {
    Val(usize),
    Sym(char),
}

/// Whether every dimension is a fixed size.
pub open spec fn is_concrete(dims: Seq<TDim>) -> bool {
    forall|i: int| 0 <= i < dims.len() ==> #[trigger] dims[i] is Val
}

/// The sizes of a shape whose dimensions are all fixed.
pub open spec fn concrete_of(dims: Seq<TDim>) -> Seq<usize> {
    Seq::new(dims.len(), |i: int| dims[i]->Val_0)
}

/// The shape with the fixed sizes `shape`.
pub open spec fn fixed_dims(shape: Seq<usize>) -> Seq<TDim> {
    Seq::new(shape.len(), |i: int| TDim::Val(shape[i]))
}

fn copy_dims(v: &Vec<TDim>) -> (r: Vec<TDim>)
    ensures
        r@ == v@,
{
    let mut r: Vec<TDim> = Vec::new();
    let mut i: usize = 0;
    while i < v.len()
        invariant
            i <= v.len(),
            r@ == v@.take(i as int),
        decreases v.len() - i,
    {
        r.push(v[i]);
        assert(v@.take(i as int + 1) =~= v@.take(i as int).push(v@[i as int]));
        i += 1;
    }
    assert(v@.take(v.len() as int) =~= v@);
    r
}

fn copy_sizes(v: &Vec<usize>) -> (r: Vec<usize>)
    ensures
        r@ == v@,
{
    let mut r: Vec<usize> = Vec::new();
    let mut i: usize = 0;
    while i < v.len()
        invariant
            i <= v.len(),
            r@ == v@.take(i as int),
        decreases v.len() - i,
    {
        r.push(v[i]);
        assert(v@.take(i as int + 1) =~= v@.take(i as int).push(v@[i as int]));
        i += 1;
    }
    assert(v@.take(v.len() as int) =~= v@);
    r
}

/// A shape, with its fixed sizes kept beside it where every dimension is
/// fixed.
#[derive(Debug)]
pub struct ShapeFact {
    dims: Vec<TDim>,
    concrete: Option<Vec<usize>>,
}

impl View for ShapeFact {
    type V = Seq<TDim>;

    closed spec fn view(&self) -> Seq<TDim> {
        self.dims@
    }
}

impl ShapeFact {
    #[verifier::type_invariant]
    spec fn inv(&self) -> bool {
        match self.concrete {
            Some(sizes) => is_concrete(self.dims@) && sizes@ == concrete_of(self.dims@),
            None => !is_concrete(self.dims@),
        }
    }

    fn compute_concrete(dims: &Vec<TDim>) -> (r: Option<Vec<usize>>)
        ensures
            match r {
                Some(sizes) => is_concrete(dims@) && sizes@ == concrete_of(dims@),
                None => !is_concrete(dims@),
            },
    {
        let mut sizes: Vec<usize> = Vec::new();
        let mut i: usize = 0;
        while i < dims.len()
            invariant
                i <= dims.len(),
                sizes@.len() == i,
                forall|j: int| 0 <= j < i ==> #[trigger] dims@[j] is Val,
                forall|j: int| 0 <= j < i ==> sizes@[j] == (#[trigger] dims@[j])->Val_0,
            decreases dims.len() - i,
        {
            match dims[i] {
                TDim::Val(v) => {
                    sizes.push(v);
                },
                TDim::Sym(_) => {
                    assert(!(dims@[i as int] is Val));
                    return None;
                },
            }
            i += 1;
        }
        assert(sizes@ =~= concrete_of(dims@));
        Some(sizes)
    }

    /// The shape with the fixed sizes `it`.
    pub fn from_dims(it: Vec<usize>) -> (r: ShapeFact)
        ensures
            r@ == fixed_dims(it@),
    {
        let mut dims: Vec<TDim> = Vec::new();
        let mut i: usize = 0;
        while i < it.len()
            invariant
                i <= it.len(),
                dims@.len() == i,
                forall|j: int| 0 <= j < i ==> dims@[j] == TDim::Val(it@[j]),
            decreases it.len() - i,
        {
            dims.push(TDim::Val(it[i]));
            i += 1;
        }
        assert(dims@ =~= fixed_dims(it@));
        let concrete = ShapeFact::compute_concrete(&dims);
        ShapeFact { dims, concrete }
    }

    /// The shape with the dimensions `dims`, fixed or symbolic.
    pub fn from_tdims(dims: Vec<TDim>) -> (r: ShapeFact)
        ensures
            r@ == dims@,
    {
        let concrete = ShapeFact::compute_concrete(&dims);
        ShapeFact { dims, concrete }
    }

    pub fn rank(&self) -> (r: usize)
        ensures
            r == self@.len(),
    {
        self.dims.len()
    }

    pub fn dims(&self) -> (r: &[TDim])
        ensures
            r@ == self@,
    {
        self.dims.as_slice()
    }

    /// The fixed sizes, where every dimension is fixed.
    pub fn as_concrete(&self) -> (r: Option<&[usize]>)
        ensures
            match r {
                Some(sizes) => is_concrete(self@) && sizes@ == concrete_of(self@),
                None => !is_concrete(self@),
            },
    {
        proof {
            use_type_invariant(self);
        }
        match &self.concrete {
            Some(sizes) => Some(sizes.as_slice()),
            None => None,
        }
    }

    /// Whether two shapes have the same dimensions.
    pub fn same_as(&self, other: &ShapeFact) -> (r: bool)
        ensures
            r == (self@ == other@),
    {
        if self.dims.len() != other.dims.len() {
            return false;
        }
        let mut i: usize = 0;
        while i < self.dims.len()
            invariant
                self.dims.len() == other.dims.len(),
                i <= self.dims.len(),
                forall|j: int| 0 <= j < i ==> self.dims@[j] == other.dims@[j],
            decreases self.dims.len() - i,
        {
            if self.dims[i] != other.dims[i] {
                return false;
            }
            i += 1;
        }
        assert(self.dims@ =~= other.dims@);
        true
    }
}

impl Clone for ShapeFact {
    fn clone(&self) -> (r: ShapeFact)
        ensures
            r@ == self@,
    {
        proof {
            use_type_invariant(self);
        }
        let dims = copy_dims(&self.dims);
        let concrete = match &self.concrete {
            Some(sizes) => Some(copy_sizes(sizes)),
            None => None,
        };
        ShapeFact { dims, concrete }
    }
}

/// What a fact says: the datum type, the shape, and the value where it is
/// known.
pub struct FactView {
    pub datum_type: DatumType,
    pub shape: Seq<TDim>,
    pub konst: Option<TensorView>,
}

impl FactView {
    /// A known value has the datum type and the shape of the fact.
    pub open spec fn wf(self) -> bool {
        self.konst matches Some(t) ==> {
            &&& t.wf()
            &&& t.datum_type == self.datum_type
            &&& self.shape == fixed_dims(t.shape)
        }
    }

    /// The fact that only gives type and shape.
    pub open spec fn plain(datum_type: DatumType, shape: Seq<TDim>) -> FactView {
        FactView { datum_type, shape, konst: None }
    }

    /// The fact of an outlet that always carries `t`.
    pub open spec fn of_tensor(t: TensorView) -> FactView {
        FactView { datum_type: t.datum_type, shape: fixed_dims(t.shape), konst: Some(t) }
    }
}

/// A fact: datum type and shape of an outlet's values, and the value itself
/// where it is known when the graph is built.
#[derive(Debug)]
pub struct TypedFact {
    datum_type: DatumType,
    shape: ShapeFact,
    konst: Option<Arc<Tensor>>,
}

impl View for TypedFact {
    type V = FactView;

    closed spec fn view(&self) -> FactView {
        FactView {
            datum_type: self.datum_type,
            shape: self.shape@,
            konst: match self.konst {
                Some(t) => Some(t@),
                None => None,
            },
        }
    }
}

impl TypedFact {
    #[verifier::type_invariant]
    spec fn inv(&self) -> bool {
        self@.wf()
    }

    /// The fact with a datum type and a shape, and no known value.
    pub fn dt_shape(datum_type: DatumType, shape: ShapeFact) -> (r: TypedFact)
        ensures
            r@ == FactView::plain(datum_type, shape@),
    {
        TypedFact { datum_type, shape, konst: None }
    }

    /// The fact with a datum type, a shape and a known value, which must
    /// have that type and shape.
    pub fn constant(datum_type: DatumType, shape: ShapeFact, konst: Arc<Tensor>) -> (r: TractResult<
        TypedFact,
    >)
        ensures
            match r {
                Ok(f) => {
                    &&& konst@.datum_type == datum_type
                    &&& shape@ == fixed_dims(konst@.shape)
                    &&& f@ == FactView::of_tensor(konst@)
                },
                Err(e) => e == TractError::ShapeMismatch && !(konst@.datum_type == datum_type
                    && shape@ == fixed_dims(konst@.shape)),
            },
    {
        if konst.datum_type() != datum_type {
            return Err(TractError::ShapeMismatch);
        }
        let declared = ShapeFact::from_dims(slice_to_vec(konst.shape()));
        if !shape.same_as(&declared) {
            return Err(TractError::ShapeMismatch);
        }
        let _ = konst.len();
        Ok(TypedFact { datum_type, shape, konst: Some(konst) })
    }

    /// The fact of an outlet that always carries `t`.
    pub fn from_tensor(t: Arc<Tensor>) -> (r: TypedFact)
        ensures
            r@ == FactView::of_tensor(t@),
    {
        let shape = ShapeFact::from_dims(slice_to_vec(t.shape()));
        let _ = t.len();
        TypedFact { datum_type: t.datum_type(), shape, konst: Some(t) }
    }

    pub fn datum_type(&self) -> (r: DatumType)
        ensures
            r == self@.datum_type,
    {
        self.datum_type
    }

    pub fn shape(&self) -> (r: &ShapeFact)
        ensures
            r@ == self@.shape,
    {
        &self.shape
    }

    pub fn rank(&self) -> (r: usize)
        ensures
            r == self@.shape.len(),
    {
        self.shape.rank()
    }

    /// The value, where it is known.
    pub fn konst(&self) -> (r: Option<&Arc<Tensor>>)
        ensures
            self@.wf(),
            match r {
                Some(t) => self@.konst == Some(t@),
                None => self@.konst is None,
            },
    {
        proof {
            use_type_invariant(self);
        }
        match &self.konst {
            Some(t) => Some(t),
            None => None,
        }
    }

    /// Whether two facts say the same.
    pub fn same_as(&self, other: &TypedFact) -> (r: bool)
        ensures
            r == (self@ == other@),
    {
        if self.datum_type != other.datum_type {
            return false;
        }
        if !self.shape.same_as(&other.shape) {
            return false;
        }
        match (&self.konst, &other.konst) {
            (None, None) => true,
            (Some(a), Some(b)) => a.same_as(b),
            _ => false,
        }
    }
}

impl Clone for TypedFact {
    fn clone(&self) -> (r: TypedFact)
        ensures
            r@ == self@,
    {
        proof {
            use_type_invariant(self);
        }
        let konst = match &self.konst {
            Some(t) => Some(t.clone()),
            None => None,
        };
        TypedFact { datum_type: self.datum_type, shape: self.shape.clone(), konst }
    }
}

impl DatumType {
    /// The fact of a scalar of this type.
    pub fn scalar_fact(&self) -> (r: TypedFact)
        ensures
            r@ == FactView::plain(*self, Seq::<TDim>::empty()),
    {
        let dims: Vec<usize> = Vec::new();
        let shape = ShapeFact::from_dims(dims);
        assert(shape@ =~= Seq::<TDim>::empty());
        TypedFact::dt_shape(*self, shape)
    }

    /// The fact of a tensor of this type with the fixed sizes `shape`.
    pub fn fact(&self, shape: &[usize]) -> (r: TypedFact)
        ensures
            r@ == FactView::plain(*self, fixed_dims(shape@)),
    {
        TypedFact::dt_shape(*self, ShapeFact::from_dims(slice_to_vec(shape)))
    }
}

/// The views of a run of facts.
pub open spec fn fact_views(facts: Seq<TypedFact>) -> Seq<FactView> {
    Seq::new(facts.len(), |i: int| facts[i]@)
}

} // verus!
