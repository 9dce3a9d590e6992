//! The operators that come with the library, and the facts they infer.

use crate::datum::DatumType;
use crate::error::{TractError, TractResult};
use crate::fact::{concrete_of, fixed_dims, is_concrete, FactView, ShapeFact, TDim, TypedFact};
use crate::op::ref_fact_views;
use crate::tensor::{layout_fits, volume, volume_from, Tensor, TensorView};
use vstd::slice::slice_to_vec;
use std::sync::Arc;
use vstd::prelude::*;

verus! {

#[derive(Copy, Clone, Debug, PartialEq, Eq, Structural)]
pub enum BinOp {
    Min,
    Max,
}

/// Where a fused step stores its result.
#[derive(Clone, Copy, Debug, PartialEq, Eq, Structural)]
pub enum OutputStoreSpec {
    View { m_axis: usize },
    Strides { col_byte_stride: isize, mr: usize, nr: usize, m: usize, n: usize },
}

/// An operand of a fused step: a tensor held by the operator, or one of
/// the node's inputs.
#[derive(Clone)]
pub enum AttrOrInput {
    Attr(Arc<Tensor>),
    Input(usize),
}

/// A step fused behind a matrix product.
#[derive(Clone)]
pub enum ProtoFusedSpec {
    BinScalar(AttrOrInput, BinOp),
    BinPerRow(AttrOrInput, BinOp),
    BinPerCol(AttrOrInput, BinOp),
    AddRowColProducts(AttrOrInput, AttrOrInput),
    AddUnicast(OutputStoreSpec, AttrOrInput),
    Store,
}

/// A grid of packed panels, each with the steps fused behind it: an
/// `ndarray` array of any number of axes. Nothing is known of its inside
/// but what `micro_ops_shape` and `micro_ops_cells` name.
#[verifier::external_body]
pub struct MicroOps {
    grid: ndarray::ArrayD<(Arc<Tensor>, Vec<ProtoFusedSpec>)>,
}

/// The lengths of the axes of a grid of packed panels.
pub uninterp spec fn micro_ops_shape(grid: MicroOps) -> Seq<usize>;

/// The cells of a grid of packed panels, the last axis varying fastest:
/// for each, the panel and the number of steps fused behind it.
pub uninterp spec fn micro_ops_cells(grid: MicroOps) -> Seq<(TensorView, nat)>;

/// Elements of a packed panel.
pub const PANEL_LEN: usize = 64;

/// Alignment of a packed panel, in bytes.
pub const PANEL_ALIGNMENT: usize = 32;

/// What a fresh panel is: `PANEL_LEN` zeros of type F32.
pub open spec fn zero_panel_view() -> TensorView {
    TensorView {
        datum_type: DatumType::F32,
        shape: seq![PANEL_LEN],
        data: Seq::new(256, |i: int| 0u8),
    }
}

/// A fresh panel with nothing fused behind it but the store.
pub fn zero_panel() -> (r: (Arc<Tensor>, Vec<ProtoFusedSpec>))
    ensures
        r.0@ == zero_panel_view(),
        r.1@.len() == 1,
        r.1@[0] is Store,
{
    let mut shape: Vec<usize> = Vec::new();
    shape.push(PANEL_LEN);
    proof {
        assert(32usize & 31usize == 0) by (bit_vector);
        assert(4usize & 3usize == 0) by (bit_vector);
        let s = shape@;
        assert(volume_from(s, 1) == 1);
        assert(volume_from(s, 0) == 64) by {
            assert(s[0] == 64);
            assert(volume_from(s, 0) == s[0] as nat * volume_from(s, 1));
        }
        assert(layout_fits(DatumType::F32, s, PANEL_ALIGNMENT)) by {
            assert(PANEL_ALIGNMENT == 32);
            assert(DatumType::F32.spec_size_of() == 4);
            assert(isize::MAX >= 0x7fff_ffff);
            assert forall|i: int| 0 <= i <= s.len() implies #[trigger] volume_from(s, i)
                * DatumType::F32.spec_size_of() + (PANEL_ALIGNMENT - 1) <= isize::MAX by {
                if i == 0 {
                    assert(volume_from(s, i) * 4 + 31 == 287);
                } else {
                    assert(i == 1);
                    assert(volume_from(s, i) * 4 + 31 == 35);
                }
            }
        }
        assert(layout_fits(DatumType::F32, s, DatumType::F32.spec_size_of())) by {
            assert forall|i: int| 0 <= i <= s.len() implies #[trigger] volume_from(s, i)
                * DatumType::F32.spec_size_of() + (DatumType::F32.spec_size_of() - 1)
                <= isize::MAX by {
                if i == 0 {
                } else {
                    assert(i == 1);
                }
            }
        }
    }
    let panel = Tensor::zero_aligned(DatumType::F32, shape.as_slice(), PANEL_ALIGNMENT).unwrap();
    proof {
        assert(panel@.data.len() == 256) by {
            assert(crate::tensor::volume(panel@.shape) == 64);
        }
        assert(panel@.data =~= zero_panel_view().data);
        assert(panel@ == zero_panel_view());
    }
    let mut fused: Vec<ProtoFusedSpec> = Vec::new();
    fused.push(ProtoFusedSpec::Store);
    (Arc::new(panel), fused)
}

/// Calls `ndarray::Array::from_shape_fn` for a grid of `rows` by `cols`
/// cells, each filled by `zero_panel`. The grid has that shape, and each of
/// its `rows * cols` cells holds a fresh panel with one fused step. The
/// call panics where the product of the axis lengths overflows `isize`,
/// which `requires` leaves out.
#[verifier::external_body]
fn zero_micro_ops(rows: usize, cols: usize) -> (r: MicroOps)
    requires
        1 <= rows,
        1 <= cols,
        rows * cols <= isize::MAX,
    ensures
        micro_ops_shape(r) == seq![rows, cols],
        micro_ops_cells(r).len() == rows * cols,
        forall|i: int|
            0 <= i < micro_ops_cells(r).len() ==> #[trigger] micro_ops_cells(r)[i] == (
                zero_panel_view(),
                1nat,
            ),
{
    MicroOps { grid: ndarray::Array::from_shape_fn(vec![rows, cols], |_| zero_panel()) }
}

/// Calls `shape` of `ndarray`'s array: the lengths of the axes of the grid.
#[verifier::external_body]
fn micro_ops_dims(grid: &MicroOps) -> (r: Vec<usize>)
    ensures
        r@ == micro_ops_shape(*grid),
{
    grid.grid.shape().to_vec()
}

/// The type of the product of tensors of type `input`.
pub fn output_type(input: DatumType) -> (r: DatumType)
    ensures
        r == input,
{
    input
}

/// The shape that `shapes` broadcast to. Leading batch axes are not
/// modelled: the result has no axis.
pub fn multi_broadcast(shapes: &[Vec<usize>]) -> (r: Option<Vec<usize>>)
    ensures
        r matches Some(v) && v@ == Seq::<usize>::empty(),
{
    Some(Vec::new())
}

/// For a product of a matrix of shape `a` (m by k) with one of shape `b`
/// (k by n): m, k, n and the shape of the product, which is held
/// transposed.
pub open spec fn matmul_shape(a: Seq<usize>, b: Seq<usize>) -> Option<
    (usize, usize, usize, Seq<usize>),
> {
    if a.len() >= 2 && b.len() >= 2 {
        Some((a[0], a[1], b[1], seq![b[1], a[0]]))
    } else {
        None
    }
}

/// m, k, n and the shape of the product of matrices of the shapes `ashape`
/// and `bshape`. Both need two axes at least.
pub fn compute_shape(ashape: &[usize], bshape: &[usize]) -> (r: TractResult<
    (usize, usize, usize, Vec<usize>),
>)
    ensures
        match r {
            Ok((m, k, n, c)) => matmul_shape(ashape@, bshape@) == Some((m, k, n, c@)),
            Err(e) => e == TractError::FactInferenceError && matmul_shape(ashape@, bshape@) is None,
        },
{
    if ashape.len() < 2 || bshape.len() < 2 {
        return Err(TractError::FactInferenceError);
    }
    let batch: Vec<Vec<usize>> = Vec::new();
    let mut c_shape = match multi_broadcast(batch.as_slice()) {
        Some(s) => s,
        None => {
            return Err(TractError::FactInferenceError);
        },
    };
    let (m, ka) = (ashape[0], ashape[1]);
    let n = bshape[1];
    c_shape.push(n);
    c_shape.push(m);
    assert(c_shape@ =~= seq![n, m]);
    Ok((m, ka, n, c_shape))
}

/// The fact of the product of a matrix of the fixed shape `a` with an input
/// of the fact `b`.
pub open spec fn product_fact(a: Seq<usize>, b: FactView) -> Result<Seq<FactView>, TractError> {
    if is_concrete(b.shape) && matmul_shape(a, concrete_of(b.shape)) is Some {
        let shapes = matmul_shape(a, concrete_of(b.shape))->Some_0;
        Ok(seq![FactView::plain(b.datum_type, fixed_dims(shapes.3))])
    } else {
        Err(TractError::FactInferenceError)
    }
}

fn infer_product(ashape: &[usize], b: &TypedFact) -> (r: TractResult<Vec<TypedFact>>)
    ensures
        crate::op::facts_result(r) == product_fact(ashape@, b@),
{
    let bshape = match b.shape().as_concrete() {
        Some(s) => s,
        None => {
            return Err(TractError::FactInferenceError);
        },
    };
    let (_m, _k, _n, c_shape) = match compute_shape(ashape, bshape) {
        Ok(s) => s,
        Err(e) => {
            return Err(e);
        },
    };
    let c_dt = output_type(b.datum_type());
    let mut facts: Vec<TypedFact> = Vec::new();
    facts.push(c_dt.fact(c_shape.as_slice()));
    assert(crate::fact::fact_views(facts@) =~= product_fact(ashape@, b@)->Ok_0);
    Ok(facts)
}

/// A tensor that is part of the graph.
#[derive(Clone)]
pub struct Const(pub Arc<Tensor>);

impl Const {
    pub open spec fn spec_output_facts(t: TensorView, inputs: Seq<FactView>) -> Result<
        Seq<FactView>,
        TractError,
    > {
        if inputs.len() == 0 {
            Ok(seq![FactView::of_tensor(t)])
        } else {
            Err(TractError::FactInferenceError)
        }
    }

    /// The fact of the tensor. A constant takes no input.
    pub fn output_facts(&self, inputs: &[&TypedFact]) -> (r: TractResult<Vec<TypedFact>>)
        ensures
            crate::op::facts_result(r) == Const::spec_output_facts(
                self.0@,
                ref_fact_views(inputs@),
            ),
    {
        if inputs.len() != 0 {
            return Err(TractError::FactInferenceError);
        }
        let mut facts: Vec<TypedFact> = Vec::new();
        facts.push(TypedFact::from_tensor(self.0.clone()));
        assert(crate::fact::fact_views(facts@) =~= seq![FactView::of_tensor(self.0@)]);
        Ok(facts)
    }
}

/// The product of two matrices, both inputs of the node.
#[derive(Clone, Copy)]
pub struct MatMul {}

impl MatMul {
    pub open spec fn spec_output_facts(inputs: Seq<FactView>) -> Result<Seq<FactView>, TractError> {
        if inputs.len() == 2 && inputs[0].datum_type == inputs[1].datum_type && is_concrete(
            inputs[0].shape,
        ) {
            product_fact(concrete_of(inputs[0].shape), inputs[1])
        } else {
            Err(TractError::FactInferenceError)
        }
    }

    /// The fact of the product. The node takes two inputs of one datum
    /// type, both with fixed shapes of two axes at least.
    pub fn output_facts(&self, inputs: &[&TypedFact]) -> (r: TractResult<Vec<TypedFact>>)
        ensures
            crate::op::facts_result(r) == MatMul::spec_output_facts(ref_fact_views(inputs@)),
    {
        if inputs.len() != 2 {
            return Err(TractError::FactInferenceError);
        }
        let a = inputs[0];
        let b = inputs[1];
        if a.datum_type() != b.datum_type() {
            return Err(TractError::FactInferenceError);
        }
        match a.shape().as_concrete() {
            Some(ashape) => infer_product(ashape, b),
            None => Err(TractError::FactInferenceError),
        }
    }
}

/// The product of a known matrix `a` with the node's single input.
#[derive(Clone)]
pub struct MatMulUnary {
    pub a: Arc<Tensor>,
}

impl MatMulUnary {
    pub open spec fn spec_output_facts(a: TensorView, inputs: Seq<FactView>) -> Result<
        Seq<FactView>,
        TractError,
    > {
        if inputs.len() == 1 {
            product_fact(a.shape, inputs[0])
        } else {
            Err(TractError::FactInferenceError)
        }
    }

    /// The fact of the product. The node takes one input, with a fixed
    /// shape of two axes at least.
    pub fn output_facts(&self, inputs: &[&TypedFact]) -> (r: TractResult<Vec<TypedFact>>)
        ensures
            crate::op::facts_result(r) == MatMulUnary::spec_output_facts(
                self.a@,
                ref_fact_views(inputs@),
            ),
    {
        if inputs.len() != 1 {
            return Err(TractError::FactInferenceError);
        }
        infer_product(self.a.shape(), inputs[0])
    }
}

/// Packs its input into panels for a matrix product.
#[derive(Clone, Copy, PartialEq, Eq, Structural)]
pub struct MatMatMulPack {}

impl MatMatMulPack {
    pub open spec fn spec_output_shape() -> Seq<usize> {
        seq![1usize]
    }

    pub open spec fn spec_output_facts(inputs: Seq<FactView>) -> Result<Seq<FactView>, TractError> {
        if inputs.len() == 1 {
            Ok(
                seq![
                    FactView::plain(
                        inputs[0].datum_type,
                        fixed_dims(MatMatMulPack::spec_output_shape()),
                    ),
                ],
            )
        } else {
            Err(TractError::FactInferenceError)
        }
    }

    fn output_shape(&self, _input: &ShapeFact) -> (r: Vec<usize>)
        ensures
            r@ == MatMatMulPack::spec_output_shape(),
    {
        let mut shape: Vec<usize> = Vec::new();
        shape.push(1);
        assert(shape@ =~= seq![1usize]);
        shape
    }

    /// The fact of the packed input. The node takes one input.
    pub fn output_facts(&self, inputs: &[&TypedFact]) -> (r: TractResult<Vec<TypedFact>>)
        ensures
            crate::op::facts_result(r) == MatMatMulPack::spec_output_facts(
                ref_fact_views(inputs@),
            ),
    {
        if inputs.len() != 1 {
            return Err(TractError::FactInferenceError);
        }
        let shape = self.output_shape(inputs[0].shape());
        let mut facts: Vec<TypedFact> = Vec::new();
        facts.push(inputs[0].datum_type().fact(shape.as_slice()));
        assert(crate::fact::fact_views(facts@) =~= MatMatMulPack::spec_output_facts(
            ref_fact_views(inputs@),
        )->Ok_0);
        Ok(facts)
    }
}

/// What a lowered matrix product is: the fact of its result and the grid of
/// its packed panels.
pub struct LirMatMulUnaryView {
    pub c_fact: FactView,
    pub shape: Seq<usize>,
    pub cells: Seq<(TensorView, nat)>,
}

/// A matrix product lowered to a grid of packed panels, ready to run.
pub struct LirMatMulUnary {
    /// The fact of the result.
    pub c_fact: TypedFact,
    /// For each cell of the grid, the packed panel and the steps fused
    /// behind the product.
    pub micro_ops: Arc<MicroOps>,
}

impl View for LirMatMulUnary {
    type V = LirMatMulUnaryView;

    open spec fn view(&self) -> LirMatMulUnaryView {
        LirMatMulUnaryView {
            c_fact: self.c_fact@,
            shape: micro_ops_shape(*self.micro_ops),
            cells: micro_ops_cells(*self.micro_ops),
        }
    }
}

impl Clone for LirMatMulUnary {
    fn clone(&self) -> (r: LirMatMulUnary)
        ensures
            r@ == self@,
    {
        LirMatMulUnary { c_fact: self.c_fact.clone(), micro_ops: self.micro_ops.clone() }
    }
}

impl LirMatMulUnaryView {
    /// The lowered product with a grid of one cell, whose panel is fresh.
    pub open spec fn single(c_fact: FactView) -> LirMatMulUnaryView {
        LirMatMulUnaryView {
            c_fact,
            shape: seq![1usize, 1usize],
            cells: seq![(zero_panel_view(), 1nat)],
        }
    }
}

impl LirMatMulUnary {
    /// The lowered product with the result fact `c_fact` and a grid of one
    /// cell, whose panel is fresh.
    pub fn single(c_fact: TypedFact) -> (r: LirMatMulUnary)
        ensures
            r@ == LirMatMulUnaryView::single(c_fact@),
    {
        let grid = zero_micro_ops(1, 1);
        assert(micro_ops_cells(grid) =~= seq![(zero_panel_view(), 1nat)]);
        LirMatMulUnary { c_fact, micro_ops: Arc::new(grid) }
    }

    /// The lengths of the axes of the grid of panels.
    pub fn grid_shape(&self) -> (r: Vec<usize>)
        ensures
            r@ == self@.shape,
    {
        micro_ops_dims(&self.micro_ops)
    }

    pub open spec fn spec_output_facts(c_fact: FactView, inputs: Seq<FactView>) -> Result<
        Seq<FactView>,
        TractError,
    > {
        Ok(seq![c_fact])
    }

    /// The fact of the result, whatever the inputs.
    pub fn output_facts(&self, _inputs: &[&TypedFact]) -> (r: TractResult<Vec<TypedFact>>)
        ensures
            crate::op::facts_result(r) == LirMatMulUnary::spec_output_facts(
                self@.c_fact,
                ref_fact_views(_inputs@),
            ),
    {
        let mut facts: Vec<TypedFact> = Vec::new();
        facts.push(self.c_fact.clone());
        assert(crate::fact::fact_views(facts@) =~= seq![self@.c_fact]);
        Ok(facts)
    }
}

/// A convolution that works on each channel by itself: what its fact
/// needs of it. The kernel has channels, height and width as its axes, and
/// the bias has one number for each channel.
pub struct DepthWise {
    pub input_channels: usize,
    pub output_channels: usize,
    pub output_shape: Vec<usize>,
    pub kernel_chw: Arc<Tensor>,
    pub bias: Arc<Tensor>,
}

pub struct DepthWiseView {
    pub input_channels: usize,
    pub output_channels: usize,
    pub output_shape: Seq<usize>,
    pub kernel_chw: TensorView,
    pub bias: TensorView,
}

impl View for DepthWise {
    type V = DepthWiseView;

    open spec fn view(&self) -> DepthWiseView {
        DepthWiseView {
            input_channels: self.input_channels,
            output_channels: self.output_channels,
            output_shape: self.output_shape@,
            kernel_chw: self.kernel_chw@,
            bias: self.bias@,
        }
    }
}

impl Clone for DepthWise {
    fn clone(&self) -> (r: DepthWise)
        ensures
            r@ == self@,
    {
        DepthWise {
            input_channels: self.input_channels,
            output_channels: self.output_channels,
            output_shape: slice_to_vec(self.output_shape.as_slice()),
            kernel_chw: self.kernel_chw.clone(),
            bias: self.bias.clone(),
        }
    }
}

impl DepthWise {
    /// The facts of the convolution over `inputs`, of which there is one
    /// at least: the output has the datum type of the first input and the
    /// shape of the operator. There is none where the numbers of input
    /// and output channels differ, or the bias has another number of
    /// elements.
    pub open spec fn spec_output_facts(op: DepthWiseView, inputs: Seq<FactView>) -> Result<
        Seq<FactView>,
        TractError,
    > {
        if op.input_channels == op.output_channels && op.input_channels == volume(op.bias.shape) {
            Ok(seq![FactView::plain(inputs[0].datum_type, fixed_dims(op.output_shape))])
        } else {
            Err(TractError::FactInferenceError)
        }
    }

    pub fn new(
        input_channels: usize,
        output_channels: usize,
        output_shape: Vec<usize>,
        kernel_chw: Arc<Tensor>,
        bias: Arc<Tensor>,
    ) -> (r: DepthWise)
        ensures
            r@ == (DepthWiseView {
                input_channels,
                output_channels,
                output_shape: output_shape@,
                kernel_chw: kernel_chw@,
                bias: bias@,
            }),
    {
        DepthWise { input_channels, output_channels, output_shape, kernel_chw, bias }
    }

    /// The fact of the output: the datum type of the first input, and the
    /// output shape of the operator.
    pub fn output_facts(&self, inputs: &[&TypedFact]) -> (r: TractResult<Vec<TypedFact>>)
        requires
            inputs@.len() >= 1,
        ensures
            crate::op::facts_result(r) == DepthWise::spec_output_facts(
                self@,
                ref_fact_views(inputs@),
            ),
    {
        if self.input_channels != self.output_channels || self.input_channels != self.bias.len() {
            return Err(TractError::FactInferenceError);
        }
        let mut facts: Vec<TypedFact> = Vec::new();
        facts.push(inputs[0].datum_type().fact(self.output_shape.as_slice()));
        assert(crate::fact::fact_views(facts@) =~= DepthWise::spec_output_facts(
            self@,
            ref_fact_views(inputs@),
        )->Ok_0);
        Ok(facts)
    }
}

/// The numbers from a start up to an end by a step, all three inputs of
/// the node. `len` is how many numbers there are.
#[derive(Clone, Copy, Debug)]
pub struct Range {
    len: TDim,
}

impl Range {
    pub closed spec fn spec_len(&self) -> TDim {
        self.len
    }

    pub fn new(len: TDim) -> (r: Range)
        ensures
            r.spec_len() == len,
    {
        Range { len }
    }

    pub fn len(&self) -> (r: TDim)
        ensures
            r == self.spec_len(),
    {
        self.len
    }

    /// The facts of a range over `inputs`: three scalars of one datum
    /// type. Where all three carry a constant, the count of the numbers
    /// follows from the constants, in floating-point arithmetic that this
    /// library does not hold: the one axis has the length `known_len`,
    /// and there is no fact without it. Otherwise the axis has the length
    /// `len`.
    pub open spec fn spec_facts_for(len: TDim, inputs: Seq<FactView>, known_len: Option<usize>)
        -> Result<Seq<FactView>, TractError> {
        if inputs.len() == 3 && inputs[0].datum_type == inputs[1].datum_type
            && inputs[0].datum_type == inputs[2].datum_type && inputs[0].shape.len() == 0
            && inputs[1].shape.len() == 0 && inputs[2].shape.len() == 0 {
            if inputs[0].konst is Some && inputs[1].konst is Some && inputs[2].konst is Some {
                match known_len {
                    Some(n) => Ok(seq![FactView::plain(inputs[0].datum_type, seq![TDim::Val(n)])]),
                    None => Err(TractError::FactInferenceError),
                }
            } else {
                Ok(seq![FactView::plain(inputs[0].datum_type, seq![len])])
            }
        } else {
            Err(TractError::FactInferenceError)
        }
    }

    /// The facts of a range for which nobody has counted the numbers.
    pub open spec fn spec_output_facts(len: TDim, inputs: Seq<FactView>) -> Result<
        Seq<FactView>,
        TractError,
    > {
        Range::spec_facts_for(len, inputs, None)
    }

    /// The fact of the numbers: one axis. The node takes three scalar
    /// inputs of one datum type. Where each of them carries a constant,
    /// the axis has the length `known_len`, which the caller has counted
    /// from the constants; otherwise it has the length of the operator.
    pub fn facts_for(&self, inputs: &[&TypedFact], known_len: Option<usize>) -> (r: TractResult<
        Vec<TypedFact>,
    >)
        ensures
            crate::op::facts_result(r) == Range::spec_facts_for(
                self.spec_len(),
                ref_fact_views(inputs@),
                known_len,
            ),
    {
        if inputs.len() != 3 {
            return Err(TractError::FactInferenceError);
        }
        let (start, end, step) = (inputs[0], inputs[1], inputs[2]);
        if start.datum_type() != end.datum_type() || start.datum_type() != step.datum_type() {
            return Err(TractError::FactInferenceError);
        }
        if start.rank() != 0 || end.rank() != 0 || step.rank() != 0 {
            return Err(TractError::FactInferenceError);
        }
        let constant = start.konst().is_some() && end.konst().is_some() && step.konst().is_some();
        let len = if constant {
            match known_len {
                Some(n) => TDim::Val(n),
                None => {
                    return Err(TractError::FactInferenceError);
                },
            }
        } else {
            self.len
        };
        let mut dims: Vec<TDim> = Vec::new();
        dims.push(len);
        assert(dims@ =~= seq![len]);
        let mut facts: Vec<TypedFact> = Vec::new();
        facts.push(TypedFact::dt_shape(start.datum_type(), ShapeFact::from_tdims(dims)));
        assert(crate::fact::fact_views(facts@) =~= Range::spec_facts_for(
            self.spec_len(),
            ref_fact_views(inputs@),
            known_len,
        )->Ok_0);
        Ok(facts)
    }

    /// The fact of the numbers where nobody has counted them: there is
    /// none where each of the three inputs carries a constant.
    pub fn output_facts(&self, inputs: &[&TypedFact]) -> (r: TractResult<Vec<TypedFact>>)
        ensures
            crate::op::facts_result(r) == Range::spec_output_facts(
                self.spec_len(),
                ref_fact_views(inputs@),
            ),
    {
        self.facts_for(inputs, None)
    }
}

} // verus!
