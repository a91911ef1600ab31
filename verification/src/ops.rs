//! Operators: the uniform execution contract shared by every computation kind
//! in a graph, and the built-in operator kinds.
//!
//! An operator is a pure function from a list of input tensors to one output
//! tensor (or an error). Each operator kind gives its exact behaviour as a
//! spec function, and its `run` method is verified against it.

use vstd::prelude::*;

use crate::tensor::{shape_product, suffix_product, Tensor, TensorModel};
use crate::tensor::{
    lemma_shape_product_pos, lemma_shape_product_single, lemma_shape_product_split,
    lemma_shape_product_zero,
};

verus! {

/// Errors signalled by an operator when it is run with malformed inputs.
#[derive(Debug, PartialEq, Eq)]
pub enum OpError {
    /// An operator was called with input tensors of a type that is not
    /// supported by the operator.
    UnsupportedInputType,
    /// The shapes of input tensors are not compatible with each other or with
    /// the operator's attributes.
    IncompatibleInputShapes(&'static str),
    /// Two operator inputs which should have the same type, have different
    /// types.
    IncompatibleInputTypes(&'static str),
    /// The operator was called with fewer inputs than expected.
    MissingInputs,
    /// An input has a value that is incorrect.
    InvalidValue(&'static str),
    /// An input or attribute has a value that is not currently supported.
    UnsupportedValue(&'static str),
}

/// The models of a list of input tensors.
pub open spec fn models(s: Seq<Tensor<i32>>) -> Seq<TensorModel<i32>> {
    s.map_values(|t: Tensor<i32>| t@)
}

/// The model of an operator's result.
pub open spec fn result_model<T>(r: Result<Tensor<T>, OpError>) -> Result<
    TensorModel<T>,
    OpError,
> {
    match r {
        Ok(t) => Ok(t@),
        Err(e) => Err(e),
    }
}

/// An Operator is a computation step in a graph.
///
/// `run_spec` states exactly which result `run` returns for every list of
/// inputs; implementations are verified against it.
pub trait Operator: Sized {
    /// The exact result of running this operator on the given inputs.
    spec fn run_spec(&self, inputs: Seq<TensorModel<i32>>) -> Result<TensorModel<i32>, OpError>;

    /// A display name for the operator.
    fn name(&self) -> &'static str;

    /// Execute the operator with the inputs.
    fn run(&self, inputs: &[Tensor<i32>]) -> (r: Result<Tensor<i32>, OpError>)
        ensures
            result_model(r) == self.run_spec(models(inputs@)),
    ;

    /// The exact result of running this operator in place. By default the
    /// first input is returned unchanged.
    open spec fn run_in_place_spec(
        &self,
        input: TensorModel<i32>,
        rest: Seq<TensorModel<i32>>,
    ) -> Result<TensorModel<i32>, OpError> {
        Ok(input)
    }

    /// Whether this operator supports in-place execution. By default it
    /// does not.
    open spec fn can_run_in_place_spec(&self) -> bool {
        false
    }

    /// Return true if this operator supports in-place execution via
    /// `run_in_place`.
    ///
    /// In-place execution writes outputs to an existing tensor rather than
    /// allocating a new tensor.
    fn can_run_in_place(&self) -> (r: bool)
        ensures
            r == self.can_run_in_place_spec(),
    ;

    /// Execute this operator in-place on an existing tensor.
    ///
    /// `input` is the first input, which the implementation may modify and
    /// return as the output. `rest` are the remaining inputs.
    fn run_in_place(&self, input: Tensor<i32>, rest: &[Tensor<i32>]) -> (r: Result<
        Tensor<i32>,
        OpError,
    >)
        ensures
            result_model(r) == self.run_in_place_spec(input@, models(rest@)),
    ;
}

// ---------------------------------------------------------------------------
// ReLU
// ---------------------------------------------------------------------------

/// The rectified-linear function on one element.
pub open spec fn relu_elem(v: i32) -> i32 {
    if v < 0 {
        0i32
    } else {
        v
    }
}

/// The model of `relu`'s result: the shape is kept, every element is clamped
/// to be non-negative.
pub open spec fn relu_model(t: TensorModel<i32>) -> TensorModel<i32> {
    TensorModel { shape: t.shape, data: t.data.map_values(|v: i32| relu_elem(v)) }
}

/// Clamp every element of a tensor to be non-negative.
pub fn relu(x: &Tensor<i32>) -> (r: Tensor<i32>)
    ensures
        r@ == relu_model(x@),
{
    let n = x.len();
    let mut data: Vec<i32> = Vec::new();
    let mut i: usize = 0;
    while i < n
        invariant
            i <= n,
            n == x@.data.len(),
            data@ =~= x@.data.take(i as int).map_values(|v: i32| relu_elem(v)),
        decreases n - i,
    {
        let v = x.at(i);
        data.push(if v < 0 { 0 } else { v });
        proof {
            assert(x@.data.take(i + 1) =~= x@.data.take(i as int).push(x@.data[i as int]));
        }
        i = i + 1;
    }
    proof {
        assert(x@.data.take(n as int) =~= x@.data);
        use_type_invariant(x);
    }
    let shape = x.shape_clone();
    Tensor::from_data(shape, data)
}

/// Rectified linear unit.
pub struct ReLU {}

impl Operator for ReLU {
    fn can_run_in_place(&self) -> (r: bool) {
        false
    }

    fn run_in_place(&self, input: Tensor<i32>, rest: &[Tensor<i32>]) -> (r: Result<
        Tensor<i32>,
        OpError,
    >) {
        Ok(input)
    }

    open spec fn run_spec(&self, inputs: Seq<TensorModel<i32>>) -> Result<
        TensorModel<i32>,
        OpError,
    > {
        if inputs.len() < 1 {
            Err(OpError::MissingInputs)
        } else {
            Ok(relu_model(inputs[0]))
        }
    }

    fn name(&self) -> &'static str {
        "ReLU"
    }

    fn run(&self, inputs: &[Tensor<i32>]) -> (r: Result<Tensor<i32>, OpError>) {
        if inputs.len() < 1 {
            return Err(OpError::MissingInputs);
        }
        Ok(relu(&inputs[0]))
    }
}

// ---------------------------------------------------------------------------
// AddOne
// ---------------------------------------------------------------------------

/// Increment one element, wrapping around at the largest value.
pub open spec fn add_one_elem(v: i32) -> i32 {
    if v == i32::MAX {
        i32::MIN
    } else {
        (v + 1) as i32
    }
}

/// The model of `AddOne`'s result: the shape is kept, every element is
/// incremented by one with wrap-around.
pub open spec fn add_one_model(t: TensorModel<i32>) -> TensorModel<i32> {
    TensorModel { shape: t.shape, data: t.data.map_values(|v: i32| add_one_elem(v)) }
}

/// Add one to every element of a tensor, wrapping around at the largest value.
pub fn add_one(x: &Tensor<i32>) -> (r: Tensor<i32>)
    ensures
        r@ == add_one_model(x@),
{
    let n = x.len();
    let mut data: Vec<i32> = Vec::new();
    let mut i: usize = 0;
    while i < n
        invariant
            i <= n,
            n == x@.data.len(),
            data@ =~= x@.data.take(i as int).map_values(|v: i32| add_one_elem(v)),
        decreases n - i,
    {
        let v = x.at(i);
        data.push(if v == i32::MAX { i32::MIN } else { v + 1 });
        proof {
            assert(x@.data.take(i + 1) =~= x@.data.take(i as int).push(x@.data[i as int]));
        }
        i = i + 1;
    }
    proof {
        assert(x@.data.take(n as int) =~= x@.data);
        use_type_invariant(x);
    }
    let shape = x.shape_clone();
    Tensor::from_data(shape, data)
}

/// Adds one to every element; mostly useful to build long test chains.
pub struct AddOne {}

impl Operator for AddOne {
    fn can_run_in_place(&self) -> (r: bool) {
        false
    }

    fn run_in_place(&self, input: Tensor<i32>, rest: &[Tensor<i32>]) -> (r: Result<
        Tensor<i32>,
        OpError,
    >) {
        Ok(input)
    }

    open spec fn run_spec(&self, inputs: Seq<TensorModel<i32>>) -> Result<
        TensorModel<i32>,
        OpError,
    > {
        if inputs.len() < 1 {
            Err(OpError::MissingInputs)
        } else {
            Ok(add_one_model(inputs[0]))
        }
    }

    fn name(&self) -> &'static str {
        "AddOne"
    }

    fn run(&self, inputs: &[Tensor<i32>]) -> (r: Result<Tensor<i32>, OpError>) {
        if inputs.len() < 1 {
            return Err(OpError::MissingInputs);
        }
        Ok(add_one(&inputs[0]))
    }
}

// ---------------------------------------------------------------------------
// Identity
// ---------------------------------------------------------------------------

/// Returns its input unchanged.
pub struct Identity {}

impl Operator for Identity {
    fn run_in_place(&self, input: Tensor<i32>, rest: &[Tensor<i32>]) -> (r: Result<
        Tensor<i32>,
        OpError,
    >) {
        Ok(input)
    }

    open spec fn run_spec(&self, inputs: Seq<TensorModel<i32>>) -> Result<
        TensorModel<i32>,
        OpError,
    > {
        if inputs.len() < 1 {
            Err(OpError::MissingInputs)
        } else {
            Ok(inputs[0])
        }
    }

    fn name(&self) -> &'static str {
        "Identity"
    }

    fn run(&self, inputs: &[Tensor<i32>]) -> (r: Result<Tensor<i32>, OpError>) {
        if inputs.len() < 1 {
            return Err(OpError::MissingInputs);
        }
        Ok(inputs[0].duplicate())
    }

    open spec fn can_run_in_place_spec(&self) -> bool {
        true
    }

    fn can_run_in_place(&self) -> (r: bool) {
        true
    }
}

// ---------------------------------------------------------------------------
// Concat
// ---------------------------------------------------------------------------

/// The data of two tensors concatenated along a dimension: `outer` blocks,
/// each made of a chunk of `ac` elements of `ad` followed by a chunk of `bc`
/// elements of `bd`.
pub open spec fn concat2_data<T>(
    ad: Seq<T>,
    bd: Seq<T>,
    ac: int,
    bc: int,
    outer: int,
) -> Seq<T>
    decreases outer,
{
    if outer <= 0 {
        Seq::empty()
    } else {
        ad.take(ac) + bd.take(bc) + concat2_data(ad.skip(ac), bd.skip(bc), ac, bc, outer - 1)
    }
}

/// The model of concatenating `a` and `b` along dimension `dim` when both
/// have an extent greater than zero there.
pub open spec fn concat2_model<T>(
    a: TensorModel<T>,
    b: TensorModel<T>,
    dim: usize,
) -> TensorModel<T> {
    let outer = shape_product(a.shape.take(dim as int));
    let ac = shape_product(a.shape.skip(dim as int));
    let bc = shape_product(b.shape.skip(dim as int));
    TensorModel {
        shape: a.shape.update(dim as int, (a.shape[dim as int] + b.shape[dim as int]) as usize),
        data: concat2_data(a.data, b.data, ac, bc, outer),
    }
}

/// The exact result of concatenating `a` and `b` along `dim`, including every
/// input check.
pub open spec fn concat2_spec<T>(a: TensorModel<T>, b: TensorModel<T>, dim: usize) -> Result<
    TensorModel<T>,
    OpError,
> {
    if a.shape.len() != b.shape.len() {
        Err(OpError::IncompatibleInputShapes("Tensors must have the same number of dimensions"))
    } else if dim >= a.shape.len() {
        Err(OpError::InvalidValue("dim is larger than input rank"))
    } else if exists|d: int| 0 <= d < a.shape.len() && d != dim && a.shape[d] != b.shape[d] {
        Err(OpError::IncompatibleInputShapes("Dimensions must be the same except for concat dim"))
    } else if a.shape[dim as int] == 0 {
        Ok(b)
    } else if b.shape[dim as int] == 0 {
        Ok(a)
    } else if a.shape[dim as int] + b.shape[dim as int] > usize::MAX {
        Err(OpError::InvalidValue("concatenated dimension does not fit in usize"))
    } else {
        Ok(concat2_model(a, b, dim))
    }
}

/// When both chunk sizes are zero the concatenated data is empty.
proof fn lemma_concat2_data_empty<T>(ad: Seq<T>, bd: Seq<T>, outer: int)
    ensures
        concat2_data(ad, bd, 0, 0, outer) =~= Seq::<T>::empty(),
    decreases outer,
{
    if outer > 0 {
        lemma_concat2_data_empty(ad.skip(0), bd.skip(0), outer - 1);
        assert(ad.take(0) =~= Seq::<T>::empty());
        assert(bd.take(0) =~= Seq::<T>::empty());
    }
}

/// Concatenate two tensors along dimension `dim`.
///
/// The tensors must have the same number of dimensions and agree on every
/// dimension other than `dim`.
pub fn concat<T: Copy>(a: &Tensor<T>, b: &Tensor<T>, dim: usize) -> (r: Result<Tensor<T>, OpError>)
    ensures
        result_model(r) == concat2_spec(a@, b@, dim),
{
    proof {
        use_type_invariant(a);
        use_type_invariant(b);
    }
    let a_shape = a.shape();
    let b_shape = b.shape();
    if a_shape.len() != b_shape.len() {
        return Err(
            OpError::IncompatibleInputShapes("Tensors must have the same number of dimensions"),
        );
    }
    let ndim = a_shape.len();
    if dim >= ndim {
        return Err(OpError::InvalidValue("dim is larger than input rank"));
    }
    let mut d: usize = 0;
    while d < ndim
        invariant
            d <= ndim,
            dim < ndim,
            ndim == a@.shape.len(),
            ndim == b@.shape.len(),
            a_shape@ == a@.shape,
            b_shape@ == b@.shape,
            forall|j: int| 0 <= j < d && j != dim ==> a@.shape[j] == b@.shape[j],
        decreases ndim - d,
    {
        if d != dim && a_shape[d] != b_shape[d] {
            return Err(
                OpError::IncompatibleInputShapes("Dimensions must be the same except for concat dim"),
            );
        }
        d = d + 1;
    }
    if a_shape[dim] == 0 {
        return Ok(b.duplicate());
    }
    if b_shape[dim] == 0 {
        return Ok(a.duplicate());
    }
    if a_shape[dim] > usize::MAX - b_shape[dim] {
        return Err(OpError::InvalidValue("concatenated dimension does not fit in usize"));
    }

    // The output shape is the common shape with the two extents at `dim`
    // added.
    let mut out_shape = a.shape_clone();
    let new_dim = a_shape[dim] + b_shape[dim];
    out_shape.set(dim, new_dim);

    let ghost outer = shape_product(a@.shape.take(dim as int));
    let ghost rest = shape_product(a@.shape.skip(dim as int + 1));
    proof {
        // The suffix products of the two shapes from `dim + 1` agree, and the
        // prefix products up to `dim` agree.
        assert(a@.shape.skip(dim as int + 1) =~= b@.shape.skip(dim as int + 1));
        assert(a@.shape.take(dim as int) =~= b@.shape.take(dim as int));
        // Unfold the suffix products once.
        lemma_shape_product_split(a@.shape.skip(dim as int), 1);
        assert(a@.shape.skip(dim as int).take(1) =~= seq![a@.shape[dim as int]]);
        assert(a@.shape.skip(dim as int).skip(1) =~= a@.shape.skip(dim as int + 1));
        lemma_shape_product_single(a@.shape[dim as int]);
        lemma_shape_product_split(b@.shape.skip(dim as int), 1);
        assert(b@.shape.skip(dim as int).take(1) =~= seq![b@.shape[dim as int]]);
        assert(b@.shape.skip(dim as int).skip(1) =~= b@.shape.skip(dim as int + 1));
        lemma_shape_product_single(b@.shape[dim as int]);
        lemma_shape_product_split(a@.shape, dim as int);
        lemma_shape_product_split(b@.shape, dim as int);
        // The output shape's product.
        assert(out_shape@.take(dim as int) =~= a@.shape.take(dim as int));
        assert(out_shape@.skip(dim as int).take(1) =~= seq![new_dim]);
        assert(out_shape@.skip(dim as int).skip(1) =~= a@.shape.skip(dim as int + 1));
        lemma_shape_product_split(out_shape@, dim as int);
        lemma_shape_product_split(out_shape@.skip(dim as int), 1);
        lemma_shape_product_single(new_dim);
    }

    if a.len() == 0 || b.len() == 0 {
        // With both extents at `dim` non-zero, one empty input forces the
        // whole output to be empty.
        let data: Vec<T> = Vec::new();
        proof {
            let adim = a@.shape[dim as int];
            let bdim = b@.shape[dim as int];
            if a@.data.len() == 0 {
                assert(outer * (adim * rest) == 0);
                assert(outer == 0 || adim * rest == 0) by (nonlinear_arith)
                    requires outer * (adim * rest) == 0;
                assert(adim * rest == 0 ==> rest == 0) by (nonlinear_arith)
                    requires adim >= 1;
            } else {
                assert(outer * (bdim * rest) == 0);
                assert(outer == 0 || bdim * rest == 0) by (nonlinear_arith)
                    requires outer * (bdim * rest) == 0;
                assert(bdim * rest == 0 ==> rest == 0) by (nonlinear_arith)
                    requires bdim >= 1;
            }
            // Either way the output has no elements.
            assert(outer == 0 || rest == 0);
            if outer == 0 {
                assert(concat2_data(
                    a@.data,
                    b@.data,
                    shape_product(a@.shape.skip(dim as int)),
                    shape_product(b@.shape.skip(dim as int)),
                    outer,
                ) =~= Seq::<T>::empty());
            } else {
                assert(shape_product(a@.shape.skip(dim as int)) == 0) by (nonlinear_arith)
                    requires
                        shape_product(a@.shape.skip(dim as int)) == a@.shape[dim as int] * rest,
                        rest == 0,
                ;
                assert(shape_product(b@.shape.skip(dim as int)) == 0) by (nonlinear_arith)
                    requires
                        shape_product(b@.shape.skip(dim as int)) == b@.shape[dim as int] * rest,
                        rest == 0,
                ;
                lemma_concat2_data_empty(a@.data, b@.data, outer);
            }
            assert(shape_product(out_shape@) == outer * (new_dim * rest));
            assert(outer * (new_dim * rest) == 0) by (nonlinear_arith)
                requires outer == 0 || rest == 0;
        }
        return Ok(Tensor::from_data(out_shape, data));
    }

    // Both inputs are non-empty, so every dimension is at least one and the
    // chunk sizes can be computed without overflow.
    proof {
        assert forall|j: int| 0 <= j < a@.shape.len() implies a@.shape[j] >= 1 by {
            if a@.shape[j] == 0 {
                lemma_shape_product_zero(a@.shape, j);
            }
        }
        assert forall|j: int| 0 <= j < b@.shape.len() implies b@.shape[j] >= 1 by {
            if b@.shape[j] == 0 {
                lemma_shape_product_zero(b@.shape, j);
            }
        }
        lemma_shape_product_pos(a@.shape.take(dim as int));
        lemma_shape_product_pos(a@.shape.skip(dim as int));
        lemma_shape_product_pos(b@.shape.skip(dim as int));
        assert(shape_product(a@.shape.skip(dim as int)) <= a@.data.len()) by (nonlinear_arith)
            requires
                a@.data.len() == outer * shape_product(a@.shape.skip(dim as int)),
                outer >= 1,
                shape_product(a@.shape.skip(dim as int)) >= 0,
        ;
        assert(shape_product(b@.shape.skip(dim as int)) <= b@.data.len()) by (nonlinear_arith)
            requires
                b@.data.len() == outer * shape_product(b@.shape.skip(dim as int)),
                outer >= 1,
                shape_product(b@.shape.skip(dim as int)) >= 0,
        ;
    }
    let ac = suffix_product(a.shape(), dim);
    let bc = suffix_product(b.shape(), dim);
    let ghost full = concat2_data(a@.data, b@.data, ac as int, bc as int, outer);

    let a_len = a.len();
    let b_len = b.len();
    let mut out: Vec<T> = Vec::new();
    let mut a_pos: usize = 0;
    let mut b_pos: usize = 0;
    let ghost mut o: int = 0;
    proof {
        assert(a@.data.skip(0) =~= a@.data);
        assert(b@.data.skip(0) =~= b@.data);
    }
    while a_pos < a_len
        invariant
            0 <= o <= outer,
            a_pos == o * ac,
            b_pos == o * bc,
            a_len == a@.data.len(),
            b_len == b@.data.len(),
            a@.data.len() == outer * ac,
            b@.data.len() == outer * bc,
            ac >= 1,
            bc >= 1,
            out@.len() == o * (ac + bc),
            out@ + concat2_data(a@.data.skip(a_pos as int), b@.data.skip(b_pos as int), ac as int, bc as int, outer - o)
                =~= full,
        decreases a_len - a_pos,
    {
        proof {
            assert(o < outer) by (nonlinear_arith)
                requires
                    o * ac < outer * ac,
                    ac >= 1,
                    0 <= o <= outer,
            ;
            assert((o + 1) * ac <= outer * ac && (o + 1) * bc <= outer * bc
                && (o + 1) * ac == o * ac + ac && (o + 1) * bc == o * bc + bc) by (nonlinear_arith)
                requires
                    o + 1 <= outer,
                    ac >= 1,
                    bc >= 1,
            ;
        }
        let ghost out_at_block = out@;
        let ghost a_block_start = a_pos as int;
        let ghost b_block_start = b_pos as int;
        let mut j: usize = 0;
        while j < ac
            invariant
                j <= ac,
                0 <= a_block_start,
                a_pos == a_block_start + j,
                a_block_start + ac <= a@.data.len(),
                a_len == a@.data.len(),
                out@ =~= out_at_block + a@.data.subrange(a_block_start, a_block_start + j),
            decreases ac - j,
        {
            proof {
                assert(out_at_block + a@.data.subrange(a_block_start, a_block_start + j + 1)
                    =~= (out_at_block + a@.data.subrange(a_block_start, a_block_start + j)).push(
                        a@.data[a_block_start + j],
                    ));
            }
            out.push(a.at(a_pos));
            a_pos = a_pos + 1;
            j = j + 1;
        }
        let ghost out_mid = out@;
        let mut j2: usize = 0;
        while j2 < bc
            invariant
                j2 <= bc,
                0 <= b_block_start,
                b_pos == b_block_start + j2,
                b_block_start + bc <= b@.data.len(),
                b_len == b@.data.len(),
                out@ =~= out_mid + b@.data.subrange(b_block_start, b_block_start + j2),
            decreases bc - j2,
        {
            proof {
                assert(out_mid + b@.data.subrange(b_block_start, b_block_start + j2 + 1)
                    =~= (out_mid + b@.data.subrange(b_block_start, b_block_start + j2)).push(
                        b@.data[b_block_start + j2],
                    ));
            }
            out.push(b.at(b_pos));
            b_pos = b_pos + 1;
            j2 = j2 + 1;
        }
        proof {
            // One unfolding of the remaining-data spec absorbs the two chunks
            // just copied.
            let a_rem = a@.data.skip(a_block_start);
            let b_rem = b@.data.skip(b_block_start);
            assert(a_rem.take(ac as int) =~= a@.data.subrange(a_block_start, a_block_start + ac));
            assert(b_rem.take(bc as int) =~= b@.data.subrange(b_block_start, b_block_start + bc));
            assert(a_rem.skip(ac as int) =~= a@.data.skip(a_block_start + ac));
            assert(b_rem.skip(bc as int) =~= b@.data.skip(b_block_start + bc));
            assert(concat2_data(a_rem, b_rem, ac as int, bc as int, outer - o)
                == a_rem.take(ac as int) + b_rem.take(bc as int) + concat2_data(
                    a@.data.skip(a_block_start + ac),
                    b@.data.skip(b_block_start + bc),
                    ac as int,
                    bc as int,
                    outer - o - 1,
                ));
            assert(out@ + concat2_data(
                a@.data.skip(a_block_start + ac),
                b@.data.skip(b_block_start + bc),
                ac as int,
                bc as int,
                outer - o - 1,
            ) =~= full);
            assert((o + 1) * (ac + bc) == o * (ac + bc) + ac + bc) by (nonlinear_arith);
            o = o + 1;
        }
    }
    proof {
        assert(a_pos <= a_len) by (nonlinear_arith)
            requires
                a_pos == o * ac,
                a_len == outer * ac,
                0 <= o <= outer,
                ac >= 1,
        ;
        assert(o == outer) by (nonlinear_arith)
            requires
                o * ac == outer * ac,
                ac >= 1,
        ;
        assert(a@.data.skip(a@.data.len() as int) =~= Seq::<T>::empty());
        assert(b@.data.skip(b@.data.len() as int) =~= Seq::<T>::empty());
        assert(out@ =~= full);
        // The output length matches the output shape's product.
        assert(shape_product(out_shape@) == outer * (new_dim * rest));
        assert(outer * (new_dim * rest) == o * (ac + bc)) by (nonlinear_arith)
            requires
                o == outer,
                new_dim == a@.shape[dim as int] + b@.shape[dim as int],
                ac == a@.shape[dim as int] * rest,
                bc == b@.shape[dim as int] * rest,
        ;
    }
    Ok(Tensor::from_data(out_shape, out))
}

/// Concatenates two tensors along the dimension `dim`.
pub struct Concat {
    pub dim: usize,
}

impl Operator for Concat {
    fn can_run_in_place(&self) -> (r: bool) {
        false
    }

    fn run_in_place(&self, input: Tensor<i32>, rest: &[Tensor<i32>]) -> (r: Result<
        Tensor<i32>,
        OpError,
    >) {
        Ok(input)
    }

    open spec fn run_spec(&self, inputs: Seq<TensorModel<i32>>) -> Result<
        TensorModel<i32>,
        OpError,
    > {
        if inputs.len() < 2 {
            Err(OpError::MissingInputs)
        } else {
            concat2_spec(inputs[0], inputs[1], self.dim)
        }
    }

    fn name(&self) -> &'static str {
        "Concat"
    }

    fn run(&self, inputs: &[Tensor<i32>]) -> (r: Result<Tensor<i32>, OpError>) {
        if inputs.len() < 2 {
            return Err(OpError::MissingInputs);
        }
        concat(&inputs[0], &inputs[1], self.dim)
    }
}

// ---------------------------------------------------------------------------
// Dispatch over the built-in operators
// ---------------------------------------------------------------------------

/// Enum of all the built-in operators.
pub enum OpType {
    AddOne(AddOne),
    Concat(Concat),
    ConstantOfShape(crate::tensor_ops::ConstantOfShape),
    Gather(crate::tensor_ops::Gather),
    Identity(Identity),
    Pad(crate::tensor_ops::Pad),
    ReLU(ReLU),
    Reshape(crate::tensor_ops::Reshape),
    Shape(crate::tensor_ops::Shape),
    Slice(Slice),
    Squeeze(crate::tensor_ops::Squeeze),
    Transpose(crate::tensor_ops::Transpose),
    Unsqueeze(crate::tensor_ops::Unsqueeze),
}

impl Operator for OpType {
    open spec fn run_spec(&self, inputs: Seq<TensorModel<i32>>) -> Result<
        TensorModel<i32>,
        OpError,
    > {
        match self {
            OpType::AddOne(op) => op.run_spec(inputs),
            OpType::Concat(op) => op.run_spec(inputs),
            OpType::ConstantOfShape(op) => op.run_spec(inputs),
            OpType::Gather(op) => op.run_spec(inputs),
            OpType::Identity(op) => op.run_spec(inputs),
            OpType::Pad(op) => op.run_spec(inputs),
            OpType::ReLU(op) => op.run_spec(inputs),
            OpType::Reshape(op) => op.run_spec(inputs),
            OpType::Shape(op) => op.run_spec(inputs),
            OpType::Slice(op) => op.run_spec(inputs),
            OpType::Squeeze(op) => op.run_spec(inputs),
            OpType::Transpose(op) => op.run_spec(inputs),
            OpType::Unsqueeze(op) => op.run_spec(inputs),
        }
    }

    open spec fn run_in_place_spec(
        &self,
        input: TensorModel<i32>,
        rest: Seq<TensorModel<i32>>,
    ) -> Result<TensorModel<i32>, OpError> {
        match self {
            OpType::AddOne(op) => op.run_in_place_spec(input, rest),
            OpType::Concat(op) => op.run_in_place_spec(input, rest),
            OpType::ConstantOfShape(op) => op.run_in_place_spec(input, rest),
            OpType::Gather(op) => op.run_in_place_spec(input, rest),
            OpType::Identity(op) => op.run_in_place_spec(input, rest),
            OpType::Pad(op) => op.run_in_place_spec(input, rest),
            OpType::ReLU(op) => op.run_in_place_spec(input, rest),
            OpType::Reshape(op) => op.run_in_place_spec(input, rest),
            OpType::Shape(op) => op.run_in_place_spec(input, rest),
            OpType::Slice(op) => op.run_in_place_spec(input, rest),
            OpType::Squeeze(op) => op.run_in_place_spec(input, rest),
            OpType::Transpose(op) => op.run_in_place_spec(input, rest),
            OpType::Unsqueeze(op) => op.run_in_place_spec(input, rest),
        }
    }

    open spec fn can_run_in_place_spec(&self) -> bool {
        match self {
            OpType::AddOne(op) => op.can_run_in_place_spec(),
            OpType::Concat(op) => op.can_run_in_place_spec(),
            OpType::ConstantOfShape(op) => op.can_run_in_place_spec(),
            OpType::Gather(op) => op.can_run_in_place_spec(),
            OpType::Identity(op) => op.can_run_in_place_spec(),
            OpType::Pad(op) => op.can_run_in_place_spec(),
            OpType::ReLU(op) => op.can_run_in_place_spec(),
            OpType::Reshape(op) => op.can_run_in_place_spec(),
            OpType::Shape(op) => op.can_run_in_place_spec(),
            OpType::Slice(op) => op.can_run_in_place_spec(),
            OpType::Squeeze(op) => op.can_run_in_place_spec(),
            OpType::Transpose(op) => op.can_run_in_place_spec(),
            OpType::Unsqueeze(op) => op.can_run_in_place_spec(),
        }
    }

    fn can_run_in_place(&self) -> (r: bool) {
        match self {
            OpType::AddOne(op) => op.can_run_in_place(),
            OpType::Concat(op) => op.can_run_in_place(),
            OpType::ConstantOfShape(op) => op.can_run_in_place(),
            OpType::Gather(op) => op.can_run_in_place(),
            OpType::Identity(op) => op.can_run_in_place(),
            OpType::Pad(op) => op.can_run_in_place(),
            OpType::ReLU(op) => op.can_run_in_place(),
            OpType::Reshape(op) => op.can_run_in_place(),
            OpType::Shape(op) => op.can_run_in_place(),
            OpType::Slice(op) => op.can_run_in_place(),
            OpType::Squeeze(op) => op.can_run_in_place(),
            OpType::Transpose(op) => op.can_run_in_place(),
            OpType::Unsqueeze(op) => op.can_run_in_place(),
        }
    }

    fn run_in_place(&self, input: Tensor<i32>, rest: &[Tensor<i32>]) -> (r: Result<
        Tensor<i32>,
        OpError,
    >) {
        match self {
            OpType::AddOne(op) => op.run_in_place(input, rest),
            OpType::Concat(op) => op.run_in_place(input, rest),
            OpType::ConstantOfShape(op) => op.run_in_place(input, rest),
            OpType::Gather(op) => op.run_in_place(input, rest),
            OpType::Identity(op) => op.run_in_place(input, rest),
            OpType::Pad(op) => op.run_in_place(input, rest),
            OpType::ReLU(op) => op.run_in_place(input, rest),
            OpType::Reshape(op) => op.run_in_place(input, rest),
            OpType::Shape(op) => op.run_in_place(input, rest),
            OpType::Slice(op) => op.run_in_place(input, rest),
            OpType::Squeeze(op) => op.run_in_place(input, rest),
            OpType::Transpose(op) => op.run_in_place(input, rest),
            OpType::Unsqueeze(op) => op.run_in_place(input, rest),
        }
    }

    fn name(&self) -> &'static str {
        match self {
            OpType::AddOne(op) => op.name(),
            OpType::Concat(op) => op.name(),
            OpType::ConstantOfShape(op) => op.name(),
            OpType::Gather(op) => op.name(),
            OpType::Identity(op) => op.name(),
            OpType::Pad(op) => op.name(),
            OpType::ReLU(op) => op.name(),
            OpType::Reshape(op) => op.name(),
            OpType::Shape(op) => op.name(),
            OpType::Slice(op) => op.name(),
            OpType::Squeeze(op) => op.name(),
            OpType::Transpose(op) => op.name(),
            OpType::Unsqueeze(op) => op.name(),
        }
    }

    fn run(&self, inputs: &[Tensor<i32>]) -> (r: Result<Tensor<i32>, OpError>) {
        match self {
            OpType::AddOne(op) => op.run(inputs),
            OpType::Concat(op) => op.run(inputs),
            OpType::ConstantOfShape(op) => op.run(inputs),
            OpType::Gather(op) => op.run(inputs),
            OpType::Identity(op) => op.run(inputs),
            OpType::Pad(op) => op.run(inputs),
            OpType::ReLU(op) => op.run(inputs),
            OpType::Reshape(op) => op.run(inputs),
            OpType::Shape(op) => op.run(inputs),
            OpType::Slice(op) => op.run(inputs),
            OpType::Squeeze(op) => op.run(inputs),
            OpType::Transpose(op) => op.run(inputs),
            OpType::Unsqueeze(op) => op.run(inputs),
        }
    }
}

// ---------------------------------------------------------------------------
// Slice
// ---------------------------------------------------------------------------

/// The data of a tensor restricted to rows `start..end` of one dimension:
/// for each of the `outer` blocks of `dim * chunk` elements, the selected
/// span of chunks.
pub open spec fn slice_data<T>(
    data: Seq<T>,
    chunk: int,
    dim: int,
    start: int,
    end: int,
    outer: int,
) -> Seq<T>
    decreases outer,
{
    if outer <= 0 || start >= end {
        Seq::empty()
    } else {
        data.subrange(start * chunk, end * chunk) + slice_data(
            data.skip(dim * chunk),
            chunk,
            dim,
            start,
            end,
            outer - 1,
        )
    }
}

/// The tensor restricted to rows `start..end` of dimension `dim`.
pub open spec fn slice_model<T>(t: TensorModel<T>, dim: usize, start: usize, end: usize) -> TensorModel<T> {
    TensorModel {
        shape: t.shape.update(dim as int, (end - start) as usize),
        data: slice_data(
            t.data,
            shape_product(t.shape.skip(dim as int + 1)),
            t.shape[dim as int] as int,
            start as int,
            end as int,
            shape_product(t.shape.take(dim as int)),
        ),
    }
}

proof fn lemma_slice_data_trivial<T>(
    data: Seq<T>,
    chunk: int,
    dim: int,
    start: int,
    end: int,
    outer: int,
)
    requires
        chunk == 0,
        0 <= start,
    ensures
        slice_data(data, chunk, dim, start, end, outer) =~= Seq::<T>::empty(),
    decreases outer,
{
    if outer > 0 && start < end {
        lemma_slice_data_trivial(data.skip(dim * chunk), chunk, dim, start, end, outer - 1);
        assert(start * chunk == 0 && end * chunk == 0) by (nonlinear_arith)
            requires
                chunk == 0,
        ;
        assert(data.subrange(0, 0) =~= Seq::<T>::empty());
    }
}

/// Return a copy of a tensor which only retains the `start..end` span of the
/// dimension `dim`.
pub fn slice<T: Copy>(input: &Tensor<T>, dim: usize, start: usize, end: usize) -> (r: Tensor<T>)
    requires
        dim < input@.shape.len(),
        start <= end,
        end <= input@.shape[dim as int],
    ensures
        r@ == slice_model(input@, dim, start, end),
{
    proof {
        use_type_invariant(input);
    }
    let shape = input.shape();
    let dim_extent = shape[dim];
    let mut out_shape = input.shape_clone();
    out_shape.set(dim, end - start);
    proof {
        assert(out_shape@ =~= input@.shape.update(dim as int, (end - start) as usize));
        lemma_shape_product_split(input@.shape, dim as int);
        lemma_shape_product_split(input@.shape.skip(dim as int), 1);
        assert(input@.shape.skip(dim as int).take(1) =~= seq![input@.shape[dim as int]]);
        assert(input@.shape.skip(dim as int).skip(1) =~= input@.shape.skip(dim as int + 1));
        lemma_shape_product_single(input@.shape[dim as int]);
        lemma_shape_product_split(out_shape@, dim as int);
        lemma_shape_product_split(out_shape@.skip(dim as int), 1);
        assert(out_shape@.take(dim as int) =~= input@.shape.take(dim as int));
        assert(out_shape@.skip(dim as int).take(1) =~= seq![(end - start) as usize]);
        assert(out_shape@.skip(dim as int).skip(1) =~= input@.shape.skip(dim as int + 1));
        lemma_shape_product_single((end - start) as usize);
    }
    let ghost chunk_g = shape_product(input@.shape.skip(dim as int + 1));
    let ghost outer_g = shape_product(input@.shape.take(dim as int));
    let ghost full = slice_data(
        input@.data,
        chunk_g,
        dim_extent as int,
        start as int,
        end as int,
        outer_g,
    );

    if input.len() == 0 || start == end {
        // Nothing to copy: either some dimension is zero or the span is
        // empty; either way the output has no elements.
        proof {
            crate::tensor::lemma_shape_product_nonneg(input@.shape.take(dim as int));
            crate::tensor::lemma_shape_product_nonneg(input@.shape.skip(dim as int + 1));
            if start == end {
                assert(outer_g * (0 * chunk_g) == 0) by (nonlinear_arith);
            } else {
                // The span is non-empty, so the extent at `dim` is positive
                // and some other dimension must be zero.
                assert(outer_g == 0 || chunk_g == 0) by (nonlinear_arith)
                    requires
                        outer_g * (input@.shape[dim as int] * chunk_g) == 0,
                        input@.shape[dim as int] >= 1,
                        outer_g >= 0,
                        chunk_g >= 0,
                ;
                if chunk_g == 0 {
                    lemma_slice_data_trivial(
                        input@.data,
                        chunk_g,
                        dim_extent as int,
                        start as int,
                        end as int,
                        outer_g,
                    );
                }
                assert(outer_g * ((end - start) * chunk_g) == 0) by (nonlinear_arith)
                    requires
                        outer_g == 0 || chunk_g == 0,
                ;
            }
        }
        let empty_data: Vec<T> = Vec::new();
        return Tensor::from_data(out_shape, empty_data);
    }

    proof {
        assert forall|j: int| 0 <= j < input@.shape.len() implies input@.shape[j] >= 1 by {
            if input@.shape[j] == 0 {
                crate::tensor::lemma_shape_product_zero(input@.shape, j);
            }
        }
        crate::tensor::lemma_shape_product_pos(input@.shape.take(dim as int));
        crate::tensor::lemma_shape_product_pos(input@.shape.skip(dim as int + 1));
        assert(chunk_g <= input@.data.len() && outer_g <= input@.data.len() && 1 <= input@.shape[
            dim as int
        ] * chunk_g <= input@.data.len() && outer_g * (input@.shape[dim as int] * chunk_g)
            == input@.data.len()) by (nonlinear_arith)
            requires
                input@.data.len() == outer_g * (input@.shape[dim as int] * chunk_g),
                outer_g >= 1,
                chunk_g >= 1,
                input@.shape[dim as int] >= 1,
        ;
    }
    let nd = shape.len();
    let chunk = crate::tensor::suffix_product(shape, dim + 1);
    let outer = crate::tensor::prefix_product(shape, dim);
    let block = dim_extent * chunk;
    let total = input.len();
    let span = end - start;

    let mut out: Vec<T> = Vec::new();
    let mut o: usize = 0;
    proof {
        assert(input@.data.skip(0) =~= input@.data);
    }
    while o < outer
        invariant
            o <= outer,
            total == input@.data.len(),
            dim < input@.shape.len(),
            start <= end,
            end <= input@.shape[dim as int],
            dim_extent == input@.shape[dim as int],
            span == end - start,
            chunk == chunk_g,
            outer == outer_g,
            block == dim_extent * chunk,
            chunk >= 1,
            block >= 1,
            total == outer * block,
            out@.len() == o * (span * chunk),
            out@ + slice_data(
                input@.data.skip(o * block),
                chunk as int,
                dim_extent as int,
                start as int,
                end as int,
                outer - o,
            ) =~= full,
        decreases outer - o,
    {
        proof {
            assert(o * block + block <= outer * block && 0 <= o * block) by (nonlinear_arith)
                requires
                    o < outer,
                    block >= 1,
                    o >= 0,
            ;
            assert(start * chunk <= end * chunk && end * chunk <= block && 0 <= start * chunk
                && end * chunk - start * chunk == span * chunk) by (nonlinear_arith)
                requires
                    start <= end,
                    end <= dim_extent,
                    block == dim_extent * chunk,
                    chunk >= 1,
                    start >= 0,
                    span == end - start,
            ;
        }
        let base = o * block;
        let lo = base + start * chunk;
        let hi = base + end * chunk;
        let ghost out_before = out@;
        let mut e: usize = lo;
        while e < hi
            invariant
                lo <= e <= hi,
                total == input@.data.len(),
                hi <= base + block,
                base + block <= total,
                0 <= lo,
                out@ =~= out_before + input@.data.subrange(lo as int, e as int),
            decreases hi - e,
        {
            proof {
                assert(out_before + input@.data.subrange(lo as int, e + 1) =~= (out_before
                    + input@.data.subrange(lo as int, e as int)).push(input@.data[e as int]));
            }
            out.push(input.at(e));
            e = e + 1;
        }
        proof {
            let rem = input@.data.skip(base as int);
            assert(rem.subrange(start * chunk as int, end * chunk as int) =~= input@.data.subrange(
                lo as int,
                hi as int,
            ));
            assert(rem.skip(dim_extent * chunk as int) =~= input@.data.skip(base + block));
            assert(out@ =~= out_before + input@.data.subrange(lo as int, hi as int));
            assert((o + 1) * block == o * block + block) by (nonlinear_arith);
            assert((o + 1) * (span * chunk) == o * (span * chunk) + (hi - lo)) by (nonlinear_arith)
                requires
                    hi - lo == span * chunk,
            ;
        }
        o = o + 1;
    }
    proof {
        assert(out@ =~= full);
        // The output length matches the output shape's product.
        lemma_shape_product_split(out_shape@, dim as int);
        lemma_shape_product_split(out_shape@.skip(dim as int), 1);
        assert(out_shape@.take(dim as int) =~= input@.shape.take(dim as int));
        assert(out_shape@.skip(dim as int).take(1) =~= seq![(end - start) as usize]);
        assert(out_shape@.skip(dim as int).skip(1) =~= input@.shape.skip(dim as int + 1));
        lemma_shape_product_single((end - start) as usize);
        assert(outer * (span * chunk) == outer_g * (((end - start) as usize) * chunk_g))
            by (nonlinear_arith)
            requires
                span == end - start,
                outer == outer_g,
                chunk == chunk_g,
        ;
    }
    Tensor::from_data(out_shape, out)
}

/// Retains the `start..end` span of one dimension of its input.
pub struct Slice {
    pub dim: usize,
    pub start: usize,
    pub end: usize,
}

impl Operator for Slice {
    fn can_run_in_place(&self) -> (r: bool) {
        false
    }

    open spec fn run_spec(&self, inputs: Seq<TensorModel<i32>>) -> Result<
        TensorModel<i32>,
        OpError,
    > {
        if inputs.len() < 1 {
            Err(OpError::MissingInputs)
        } else if !(self.dim < inputs[0].shape.len() && self.start <= self.end && self.end
            <= inputs[0].shape[self.dim as int]) {
            Err(OpError::InvalidValue("Slice range is invalid for the input shape"))
        } else {
            Ok(slice_model(inputs[0], self.dim, self.start, self.end))
        }
    }

    fn name(&self) -> &'static str {
        "Slice"
    }

    fn run(&self, inputs: &[Tensor<i32>]) -> (r: Result<Tensor<i32>, OpError>) {
        if inputs.len() < 1 {
            return Err(OpError::MissingInputs);
        }
        let first = &inputs[0];
        proof {
            use_type_invariant(first);
        }
        let shape = first.shape();
        if !(self.dim < shape.len() && self.start <= self.end && self.end <= shape[self.dim]) {
            return Err(OpError::InvalidValue("Slice range is invalid for the input shape"));
        }
        Ok(slice(first, self.dim, self.start, self.end))
    }

    fn run_in_place(&self, input: Tensor<i32>, rest: &[Tensor<i32>]) -> (r: Result<
        Tensor<i32>,
        OpError,
    >) {
        Ok(input)
    }
}

} // verus!
