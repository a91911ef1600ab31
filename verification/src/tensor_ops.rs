//! Shape-manipulation operators over tensors: reshaping, squeezing,
//! transposing, gathering, padding and concatenating.

use vstd::prelude::*;

use crate::ops::OpError;
use crate::tensor::{shape_product, Tensor, TensorModel};
use crate::tensor::{
    lemma_shape_product_concat, lemma_shape_product_nonneg, lemma_shape_product_pos, lemma_shape_product_single,
    lemma_shape_product_split, lemma_shape_product_zero,
};

verus! {

/// Whether a tensor's data type is integral or floating point.
#[derive(Copy, Clone, Debug)]
pub enum DataType {
    Int32,
    Float,
}

/// How much padding to apply to an operator's input.
#[derive(Copy, Clone, Debug)]
pub enum Padding {
    /// Apply enough padding such that the output and input have the same
    /// size.
    Same,
    /// Apply a given amount of padding to the top, left, bottom and right of
    /// the input.
    Fixed([usize; 4]),
}

/// Whether a list of dimensions contains `dim`.
fn contains_dim(dims: &[usize], dim: usize) -> (r: bool)
    ensures
        r == dims@.contains(dim),
{
    let mut i: usize = 0;
    while i < dims.len()
        invariant
            i <= dims@.len(),
            forall|j: int| 0 <= j < i ==> dims@[j] != dim,
        decreases dims@.len() - i,
    {
        if dims[i] == dim {
            return true;
        }
        i = i + 1;
    }
    false
}

// ---------------------------------------------------------------------------
// Squeeze
// ---------------------------------------------------------------------------

/// The shape left after removing the squeezed dimensions from position `i`
/// on: with explicit axes every listed dimension is removed; without, every
/// dimension of size one is.
pub open spec fn squeeze_shape(shape: Seq<usize>, axes: Option<Seq<usize>>, i: int) -> Seq<usize>
    decreases shape.len() - i,
{
    if i < 0 || i >= shape.len() {
        Seq::empty()
    } else {
        let keep = match axes {
            Some(a) => !a.contains(i as usize),
            None => shape[i] != 1,
        };
        if keep {
            seq![shape[i]] + squeeze_shape(shape, axes, i + 1)
        } else {
            squeeze_shape(shape, axes, i + 1)
        }
    }
}

/// Removing only size-one dimensions keeps the element count.
#[verifier::spinoff_prover]
proof fn lemma_squeeze_product(shape: Seq<usize>, axes: Option<Seq<usize>>, i: int)
    requires
        0 <= i <= shape.len(),
        forall|d: int|
            0 <= d < shape.len() && (match axes {
                Some(a) => a.contains(d as usize),
                None => false,
            }) ==> #[trigger] shape[d] == 1,
    ensures
        shape_product(squeeze_shape(shape, axes, i)) == shape_product(shape.skip(i)),
    decreases shape.len() - i,
{
    if i < shape.len() {
        lemma_squeeze_product(shape, axes, i + 1);
        assert(shape.skip(i).len() > 0);
        assert(shape.skip(i)[0] == shape[i]);
        assert(shape.skip(i).skip(1) =~= shape.skip(i + 1));
        let keep = match axes {
            Some(a) => !a.contains(i as usize),
            None => shape[i] != 1,
        };
        if keep {
            let rest = squeeze_shape(shape, axes, i + 1);
            assert(seq![shape[i]] + rest == squeeze_shape(shape, axes, i));
            assert((seq![shape[i]] + rest)[0] == shape[i]);
            assert((seq![shape[i]] + rest).skip(1) =~= rest);
        } else {
            assert(shape[i] == 1);
        }
    } else {
        assert(shape.skip(i) =~= Seq::<usize>::empty());
    }
}

/// Remove dimensions from the shape of a tensor, keeping its elements.
///
/// With explicit `axes`, the listed dimensions are removed; they must all
/// have size one. Without, every dimension of size one is removed.
pub fn squeeze_in_place<T: Copy>(input: &mut Tensor<T>, axes: Option<&[usize]>)
    requires
        match axes {
            Some(a) => forall|d: int|
                0 <= d < old(input)@.shape.len() && a@.contains(d as usize)
                    ==> old(input)@.shape[d] == 1,
            None => true,
        },
    ensures
        final(input)@.data == old(input)@.data,
        final(input)@.shape == squeeze_shape(
            old(input)@.shape,
            match axes {
                Some(a) => Some(a@),
                None => None,
            },
            0,
        ),
{
    proof {
        use_type_invariant(&*input);
    }
    let ghost shape0 = input@.shape;
    let ghost axes_spec: Option<Seq<usize>> = match axes {
        Some(a) => Some(a@),
        None => None,
    };
    let shape = input.shape();
    let ndim = shape.len();
    let mut new_shape: Vec<usize> = Vec::new();
    let mut d: usize = 0;
    while d < ndim
        invariant
            d <= ndim,
            ndim == shape0.len(),
            shape@ == shape0,
            axes_spec == (match axes {
                Some(a) => Some(a@),
                None => None::<Seq<usize>>,
            }),
            new_shape@ + squeeze_shape(shape0, axes_spec, d as int) =~= squeeze_shape(
                shape0,
                axes_spec,
                0,
            ),
        decreases ndim - d,
    {
        let keep = match axes {
            Some(a) => !contains_dim(a, d),
            None => shape[d] != 1,
        };
        if keep {
            proof {
                assert(squeeze_shape(shape0, axes_spec, d as int) == seq![shape0[d as int]]
                    + squeeze_shape(shape0, axes_spec, d + 1));
                assert((new_shape@ + squeeze_shape(shape0, axes_spec, d as int)) =~= (
                new_shape@.push(shape0[d as int]) + squeeze_shape(shape0, axes_spec, d + 1)));
            }
            new_shape.push(shape[d]);
        }
        d = d + 1;
    }
    proof {
        assert(squeeze_shape(shape0, axes_spec, ndim as int) =~= Seq::<usize>::empty());
        assert(new_shape@ =~= squeeze_shape(shape0, axes_spec, 0));
        lemma_squeeze_product(shape0, axes_spec, 0);
        assert(shape0.skip(0) =~= shape0);
    }
    input.reshape(new_shape);
}

/// A copy of `input` with the squeezed dimensions removed.
///
/// See [`squeeze_in_place`] for the requirements on `axes`.
pub fn squeeze<T: Copy>(input: &Tensor<T>, axes: Option<&[usize]>) -> (r: Tensor<T>)
    requires
        match axes {
            Some(a) => forall|d: int|
                0 <= d < input@.shape.len() && a@.contains(d as usize) ==> input@.shape[d] == 1,
            None => true,
        },
    ensures
        r@.data == input@.data,
        r@.shape == squeeze_shape(
            input@.shape,
            match axes {
                Some(a) => Some(a@),
                None => None,
            },
            0,
        ),
{
    let mut output = input.duplicate();
    squeeze_in_place(&mut output, axes);
    output
}

// ---------------------------------------------------------------------------
// Unsqueeze
// ---------------------------------------------------------------------------

/// A sequence of axes in ascending order, built by insertion.
pub open spec fn sort_axes(s: Seq<usize>) -> Seq<usize>
    decreases s.len(),
{
    if s.len() == 0 {
        Seq::empty()
    } else {
        insert_sorted(sort_axes(s.drop_last()), s.last())
    }
}

/// Insert `v` into an ascending sequence, after any equal entries.
pub open spec fn insert_sorted(s: Seq<usize>, v: usize) -> Seq<usize>
    decreases s.len(),
{
    if s.len() == 0 {
        seq![v]
    } else if s.last() <= v {
        s.push(v)
    } else {
        insert_sorted(s.drop_last(), v).push(s.last())
    }
}

/// The shape with a size-one dimension inserted at each of the sorted axes,
/// applied in order; an out-of-range axis is clipped to the end.
pub open spec fn unsqueeze_shape(shape: Seq<usize>, sorted_axes: Seq<usize>) -> Seq<usize>
    decreases sorted_axes.len(),
{
    if sorted_axes.len() == 0 {
        shape
    } else {
        let base = unsqueeze_shape(shape, sorted_axes.drop_last());
        base.insert(clip_pos(base, sorted_axes.last() as int), 1usize)
    }
}

/// Each sorted axis lies within the shape as extended by the insertions made
/// before it.
pub open spec fn valid_unsqueeze(shape: Seq<usize>, sorted_axes: Seq<usize>) -> bool
    decreases sorted_axes.len(),
{
    if sorted_axes.len() == 0 {
        true
    } else {
        valid_unsqueeze(shape, sorted_axes.drop_last()) && sorted_axes.last() <= shape.len()
            + sorted_axes.len() - 1
    }
}

proof fn lemma_valid_unsqueeze_prefix(shape: Seq<usize>, s: Seq<usize>, k: int)
    requires
        valid_unsqueeze(shape, s),
        0 <= k <= s.len(),
    ensures
        valid_unsqueeze(shape, s.take(k)),
        k > 0 ==> s[k - 1] <= shape.len() + k - 1,
    decreases s.len() - k,
{
    if k == s.len() {
        assert(s.take(k) =~= s);
        if k > 0 {
            assert(s.last() == s[k - 1]);
        }
    } else {
        assert(s.drop_last() =~= s.take(s.len() - 1));
        lemma_valid_unsqueeze_prefix(shape, s.take(s.len() - 1), k);
        assert(s.take(s.len() - 1).take(k) =~= s.take(k));
        if k > 0 {
            assert(s.take(s.len() - 1)[k - 1] == s[k - 1]);
        }
    }
}

/// The axes sorted ascending, by insertion sort.
fn sorted_axes_vec(axes: &[usize]) -> (r: Vec<usize>)
    ensures
        r@ == sort_axes(axes@),
        r@.len() == axes@.len(),
        ascending(r@),
{
    let mut sorted: Vec<usize> = Vec::new();
    let mut i: usize = 0;
    while i < axes.len()
        invariant
            i <= axes@.len(),
            sorted@ == sort_axes(axes@.take(i as int)),
            sorted@.len() == i,
            ascending(sorted@),
        decreases axes@.len() - i,
    {
        let v = axes[i];
        let mut j: usize = sorted.len();
        // Find the insertion position from the end.
        while j > 0
            invariant_except_break
                j <= sorted@.len(),
                ascending(sorted@),
                forall|k: int| j <= k < sorted@.len() ==> sorted@[k] > v,
            ensures
                j <= sorted@.len(),
                forall|k: int| j <= k < sorted@.len() ==> sorted@[k] > v,
                j > 0 ==> sorted@[j - 1] <= v,
            decreases j,
        {
            if sorted[j - 1] <= v {
                break ;
            }
            j = j - 1;
        }
        let ghost presorted = sorted@;
        sorted.insert(j, v);
        proof {
            assert(axes@.take(i + 1).drop_last() =~= axes@.take(i as int));
            assert(axes@.take(i + 1).last() == axes@[i as int]);
            lemma_insert_at_position(presorted, v, j as int);
        }
        i = i + 1;
    }
    proof {
        assert(axes@.take(axes@.len() as int) =~= axes@);
    }
    sorted
}

/// A copy of `input` with a size-one dimension inserted at each of `axes`.
///
/// Axes are applied in ascending order; each must lie within the shape as
/// extended by the insertions made before it.
pub fn unsqueeze<T: Copy>(input: &Tensor<T>, axes: &[usize]) -> (r: Tensor<T>)
    requires
        axes@.len() + input@.shape.len() <= usize::MAX,
        valid_unsqueeze(input@.shape, sort_axes(axes@)),
    ensures
        r@.data == input@.data,
        r@.shape == unsqueeze_shape(input@.shape, sort_axes(axes@)),
{
    proof {
        use_type_invariant(input);
    }
    let sorted = sorted_axes_vec(axes);

    let shape = input.shape();
    let base_ndim = shape.len();
    let mut new_shape: Vec<usize> = Vec::new();
    let mut c: usize = 0;
    while c < base_ndim
        invariant
            c <= shape@.len(),
            base_ndim == shape@.len(),
            new_shape@ =~= shape@.take(c as int),
        decreases shape@.len() - c,
    {
        new_shape.push(shape[c]);
        c = c + 1;
    }
    proof {
        assert(new_shape@ =~= input@.shape);
        assert(sort_axes(axes@).take(0) =~= Seq::<usize>::empty());
    }
    let mut a: usize = 0;
    while a < sorted.len()
        invariant
            a <= sorted@.len(),
            sorted@ == sort_axes(axes@),
            sorted@.len() == axes@.len(),
            new_shape@ == unsqueeze_shape(input@.shape, sorted@.take(a as int)),
            new_shape@.len() == input@.shape.len() + a,
            valid_unsqueeze(input@.shape, sorted@),
            input@.shape.len() + axes@.len() <= usize::MAX,
        decreases sorted@.len() - a,
    {
        proof {
            lemma_valid_unsqueeze_prefix(input@.shape, sorted@, a + 1);
            assert(sorted@[a as int] <= input@.shape.len() + a);
            assert(sorted@.take(a + 1).drop_last() =~= sorted@.take(a as int));
            assert(sorted@.take(a + 1).last() == sorted@[a as int]);
            assert(clip_pos(new_shape@, sorted@[a as int] as int) == sorted@[a as int] as int);
        }
        new_shape.insert(sorted[a], 1);
        a = a + 1;
    }
    proof {
        assert(sorted@.take(sorted@.len() as int) =~= sorted@);
        lemma_unsqueeze_product(input@.shape, sorted@);
    }
    input.clone_with_shape(new_shape)
}

/// An ascending sequence.
pub open spec fn ascending(s: Seq<usize>) -> bool {
    forall|i: int, j: int| 0 <= i < j < s.len() ==> s[i] <= s[j]
}

/// Inserting size-one dimensions keeps the element count.
proof fn lemma_unsqueeze_product(shape: Seq<usize>, sorted_axes: Seq<usize>)
    ensures
        shape_product(unsqueeze_shape(shape, sorted_axes)) == shape_product(shape),
    decreases sorted_axes.len(),
{
    if sorted_axes.len() > 0 {
        lemma_unsqueeze_product(shape, sorted_axes.drop_last());
        let base = unsqueeze_shape(shape, sorted_axes.drop_last());
        lemma_insert_one_product(base, sorted_axes.last() as int);
    }
}

/// Inserting a size-one dimension anywhere keeps the product.
proof fn lemma_insert_one_product(s: Seq<usize>, pos: int)
    ensures
        shape_product(s.insert(clip_pos(s, pos), 1usize)) == shape_product(s),
{
    let p = clip_pos(s, pos);
    let s2 = s.insert(p, 1usize);
    lemma_shape_product_split(s, p);
    lemma_shape_product_split(s2, p);
    assert(s2.take(p) =~= s.take(p));
    assert(s2.skip(p).len() > 0);
    assert(s2.skip(p)[0] == 1usize);
    assert(s2.skip(p).skip(1) =~= s.skip(p));
    assert(shape_product(s2.skip(p)) == 1 * shape_product(s.skip(p)));
}

/// A position clipped into the valid insertion range of a sequence.
pub open spec fn clip_pos<A>(s: Seq<A>, pos: int) -> int {
    if pos < 0 {
        0
    } else if pos > s.len() {
        s.len() as int
    } else {
        pos
    }
}

proof fn lemma_insert_at_position(s: Seq<usize>, v: usize, j: int)
    requires
        ascending(s),
        0 <= j <= s.len(),
        forall|k: int| j <= k < s.len() ==> s[k] > v,
        j > 0 ==> s[j - 1] <= v,
    ensures
        s.insert(j, v) == insert_sorted(s, v),
        ascending(s.insert(j, v)),
    decreases s.len(),
{
    if s.len() == 0 {
        assert(s.insert(0, v) =~= seq![v]);
    } else if s.last() <= v {
        assert(j == s.len());
        assert(s.insert(j, v) =~= s.push(v));
    } else {
        assert(j < s.len());
        lemma_insert_at_position(s.drop_last(), v, j);
        assert(s.insert(j, v) =~= s.drop_last().insert(j, v).push(s.last()));
    }
    assert forall|i1: int, i2: int|
        0 <= i1 < i2 < s.insert(j, v).len() implies s.insert(j, v)[i1] <= s.insert(j, v)[i2] by {
        let t = s.insert(j, v);
        if i1 < j && i2 < j {
            assert(t[i1] == s[i1] && t[i2] == s[i2]);
        } else if i1 < j && i2 == j {
            assert(t[i1] == s[i1] && t[i2] == v);
        } else if i1 < j && i2 > j {
            assert(t[i1] == s[i1] && t[i2] == s[i2 - 1]);
        } else if i1 == j {
            if i2 > j {
                assert(t[i2] == s[i2 - 1]);
            }
        } else {
            assert(t[i1] == s[i1 - 1] && t[i2] == s[i2 - 1]);
        }
    }
}

// ---------------------------------------------------------------------------
// Reshape
// ---------------------------------------------------------------------------

/// The scan of a requested shape, in order: a dimension below -1 is invalid,
/// and only one dimension may be -1.
pub open spec fn reshape_scan(s: Seq<i32>, i: int, seen_unspecified: bool) -> Result<(), OpError>
    decreases s.len() - i,
{
    if i < 0 || i >= s.len() {
        Ok(())
    } else if s[i] < -1 {
        Err(OpError::InvalidValue("Invalid dimension size in shape"))
    } else if s[i] == -1 && seen_unspecified {
        Err(OpError::InvalidValue("Multiple dimensions in new shape set to -1"))
    } else {
        reshape_scan(s, i + 1, seen_unspecified || s[i] == -1)
    }
}

/// The product of the specified (non-negative) dimensions of a requested
/// shape.
pub open spec fn specified_product(s: Seq<i32>) -> int
    decreases s.len(),
{
    if s.len() == 0 {
        1
    } else if s[0] == -1 {
        specified_product(s.skip(1))
    } else {
        s[0] * specified_product(s.skip(1))
    }
}

/// Whether a requested shape has an unspecified (-1) dimension.
pub open spec fn has_unspecified(s: Seq<i32>) -> bool {
    exists|k: int| 0 <= k < s.len() && s[k] == -1
}

/// The complete shape: requested dimensions with -1 replaced by the inferred
/// size.
pub open spec fn complete_shape(s: Seq<i32>, unspecified: usize) -> Seq<usize> {
    Seq::new(
        s.len(),
        |k: int|
            if s[k] == -1 {
                unspecified
            } else {
                s[k] as usize
            },
    )
}

/// The exact result of reshaping a tensor of `len` elements to the requested
/// shape `s`: scan errors first; then the input length must be exactly the
/// product of the specified dimensions times the inferred size, which is
/// `len` divided by the specified product (zero for an empty input).
pub open spec fn reshape_shape(s: Seq<i32>, len: int) -> Result<Seq<usize>, OpError> {
    if reshape_scan(s, 0, false) is Err {
        Err(reshape_scan(s, 0, false)->Err_0)
    } else {
        let p = specified_product(s);
        let unspecified: int = if len == 0 || p == 0 {
            0
        } else {
            len / p
        };
        let complete = complete_shape(s, unspecified as usize);
        if shape_product(complete) == len && unspecified <= usize::MAX {
            Ok(complete)
        } else {
            Err(OpError::InvalidValue("Input length must be a multiple of specified dimensions"))
        }
    }
}

/// A copy of `input` with the requested shape, inferring at most one
/// unspecified (-1) dimension from the input length.
#[verifier::rlimit(60)]
pub fn reshape<T: Copy>(input: &Tensor<T>, shape: &Tensor<i32>) -> (r: Result<Tensor<T>, OpError>)
    ensures
        match r {
            Ok(t) => {
                &&& reshape_shape(shape@.data, input@.data.len() as int) == Ok::<Seq<usize>, OpError>(t@.shape)
                &&& t@.data == input@.data
            },
            Err(e) => reshape_shape(shape@.data, input@.data.len() as int) == Err::<Seq<usize>, OpError>(e),
        },
{
    proof {
        use_type_invariant(input);
        use_type_invariant(shape);
    }
    let ghost s = shape@.data;
    let sdata = shape.data();
    let n = sdata.len();

    // Scan the requested shape for invalid and duplicate -1 entries, and
    // compute the product of the specified dimensions. The product is capped
    // once it can no longer divide the input length.
    let mut seen_unspecified = false;
    let mut zero_seen = false;
    let mut acc: u128 = 1;
    let mut i: usize = 0;
    while i < n
        invariant
            i <= n,
            n == s.len(),
            s == shape@.data,
            sdata@ == s,
            reshape_scan(s, 0, false) == reshape_scan(s, i as int, seen_unspecified),
            seen_unspecified == has_unspecified(s.take(i as int)),
            forall|k: int| 0 <= k < i ==> s[k] >= -1,
            forall|k1: int, k2: int| 0 <= k1 < k2 < i ==> !(s[k1] == -1 && s[k2] == -1),
            zero_seen <==> specified_product(s.take(i as int)) == 0,
            acc >= 1,
            !zero_seen && acc <= usize::MAX ==> acc == specified_product(s.take(i as int)),
            !zero_seen && acc > usize::MAX ==> specified_product(s.take(i as int)) > usize::MAX,
            acc <= 0xFFFF_FFFF_FFFF_FFFF_FFFF_FFFF,
        decreases n - i,
    {
        let v = sdata[i];
        if v < -1 {
            proof {
                assert(reshape_scan(s, i as int, seen_unspecified) == Err::<(), OpError>(
                    OpError::InvalidValue("Invalid dimension size in shape"),
                ));
                assert(reshape_shape(s, input@.data.len() as int) == Err::<Seq<usize>, OpError>(
                    OpError::InvalidValue("Invalid dimension size in shape"),
                ));
            }
            return Err(OpError::InvalidValue("Invalid dimension size in shape"));
        }
        if v == -1 && seen_unspecified {
            proof {
                assert(reshape_scan(s, i as int, seen_unspecified) == Err::<(), OpError>(
                    OpError::InvalidValue("Multiple dimensions in new shape set to -1"),
                ));
            }
            return Err(OpError::InvalidValue("Multiple dimensions in new shape set to -1"));
        }
        let ghost prefix = s.take(i as int);
        let ghost prefix2 = s.take(i + 1);
        proof {
            assert(prefix2 =~= prefix.push(s[i as int]));
            lemma_specified_product_snoc(prefix, s[i as int]);
            assert(specified_product(prefix2) == (if s[i as int] == -1 {
                specified_product(prefix)
            } else {
                specified_product(prefix) * s[i as int]
            }));
            if s[i as int] == -1 {
                assert(prefix2[i as int] == -1);
                assert(has_unspecified(prefix2));
                // Only the first unspecified dimension reaches this point.
                assert forall|k: int| 0 <= k < i implies s[k] != -1 by {
                    if s[k] == -1 {
                        assert(prefix[k] == -1);
                        assert(has_unspecified(prefix));
                    }
                }
            } else {
                if has_unspecified(prefix2) {
                    let w = choose|k: int| 0 <= k < prefix2.len() && prefix2[k] == -1;
                    assert(prefix[w] == -1);
                    assert(has_unspecified(prefix));
                }
                if has_unspecified(prefix) {
                    let w = choose|k: int| 0 <= k < prefix.len() && prefix[k] == -1;
                    assert(prefix2[w] == -1);
                }
                let pp = specified_product(prefix);
                if s[i as int] >= 1 {
                    assert((pp * s[i as int] == 0) == (pp == 0)) by (nonlinear_arith)
                        requires
                            s[i as int] >= 1,
                    ;
                } else {
                    assert(pp * s[i as int] == 0) by (nonlinear_arith)
                        requires
                            s[i as int] == 0,
                    ;
                }
            }
        }
        if v == -1 {
            seen_unspecified = true;
        } else if v == 0 {
            zero_seen = true;
        } else if !zero_seen {
            if acc <= usize::MAX as u128 {
                proof {
                    assert(1 <= acc * (v as u128) <= 0xFFFF_FFFF_FFFF_FFFF_FFFF_FFFF)
                        by (nonlinear_arith)
                        requires
                            1 <= acc <= 0x1_0000_0000_0000_0000,
                            1 <= v <= 0x8000_0000,
                    ;
                }
                acc = acc * (v as u128);
            } else {
                proof {
                    assert(specified_product(prefix) * (v as int) > usize::MAX)
                        by (nonlinear_arith)
                        requires
                            specified_product(prefix) > usize::MAX,
                            v >= 1,
                    ;
                }
            }
        }
        i = i + 1;
    }
    proof {
        assert(s.take(n as int) =~= s);
    }
    proof {
        assert(forall|k: int| 0 <= k < s.len() ==> s[k] >= -1);
        assert(forall|k1: int, k2: int|
            0 <= k1 < k2 < s.len() ==> !(s[k1] == -1 && s[k2] == -1));
    }

    let len = input.len();
    let ghost p = specified_product(s);

    // The inferred size of the unspecified dimension: the input length
    // divided by the specified product, when that division is exact.
    let mut unspecified: usize = 0;
    if len == 0 || zero_seen {
        unspecified = 0;
    } else if acc > usize::MAX as u128 {
        // The specified product alone exceeds the input length, so the
        // requested shape cannot match.
        proof {
            vstd::arithmetic::div_mod::lemma_fundamental_div_mod(len as int, p);
            assert((len as int) / p == 0) by (nonlinear_arith)
                requires
                    len as int == p * ((len as int) / p) + (len as int) % p,
                    0 <= (len as int) % p < p,
                    0 < len < p,
            ;
            lemma_complete_product(s, 0);
        }
        return Err(
            OpError::InvalidValue("Input length must be a multiple of specified dimensions"),
        );
    } else {
        let pa = acc as usize;
        let q = len / pa;
        let rem = len % pa;
        if rem != 0 {
            proof {
                vstd::arithmetic::div_mod::lemma_fundamental_div_mod(len as int, p);
                lemma_complete_product(s, q);
                if has_unspecified(s) {
                    assert(shape_product(complete_shape(s, q)) == q * p);
                    assert(q * p == p * (q as int)) by (nonlinear_arith);
                    assert(q * p != len) by (nonlinear_arith)
                        requires
                            len as int == p * (q as int) + rem,
                            0 < rem,
                            q * p == p * (q as int),
                    ;
                } else {
                    assert(shape_product(complete_shape(s, q)) == p);
                    if p == len {
                        assert((len as int) % p == 0) by (nonlinear_arith)
                            requires
                                len as int == p * ((len as int) / p) + (len as int) % p,
                                0 <= (len as int) % p < p,
                                p == len,
                                len >= 1,
                        ;
                    }
                }
            }
            return Err(
                OpError::InvalidValue("Input length must be a multiple of specified dimensions"),
            );
        }
        unspecified = q;
    }

    // Build the complete shape and check that it matches the input length.
    let mut complete: Vec<usize> = Vec::new();
    let mut c: usize = 0;
    while c < n
        invariant
            c <= n,
            n == s.len(),
            s == shape@.data,
            sdata@ == s,
            complete@.len() == c,
            forall|k: int|
                0 <= k < c ==> complete@[k] == (if s[k] == -1 {
                    unspecified
                } else {
                    s[k] as usize
                }),
            forall|k: int| 0 <= k < s.len() ==> s[k] >= -1,
            forall|k1: int, k2: int|
                0 <= k1 < k2 < s.len() ==> !(s[k1] == -1 && s[k2] == -1),
        decreases n - c,
    {
        let v = sdata[c];
        if v == -1 {
            complete.push(unspecified);
        } else {
            complete.push(v as usize);
        }
        c = c + 1;
    }
    proof {
        assert(complete@ =~= complete_shape(s, unspecified));
    }
    let total = crate::tensor::shape_len_capped(&complete);
    match total {
        Some(t) if t == len => {
            proof {
                lemma_complete_product(s, unspecified);
            }
            Ok(input.clone_with_shape(complete))
        },
        _ => {
            proof {
                lemma_complete_product(s, unspecified);
            }
            Err(OpError::InvalidValue("Input length must be a multiple of specified dimensions"))
        },
    }
}

proof fn lemma_specified_product_snoc(s: Seq<i32>, v: i32)
    ensures
        specified_product(s.push(v)) == (if v == -1 {
            specified_product(s)
        } else {
            specified_product(s) * v
        }),
    decreases s.len(),
{
    if s.len() == 0 {
        assert(s.push(v).skip(1) =~= Seq::<i32>::empty());
        assert(s.push(v)[0] == v);
        assert(specified_product(Seq::<i32>::empty()) == 1);
    } else {
        assert(s.push(v).skip(1) =~= s.skip(1).push(v));
        assert(s.push(v)[0] == s[0]);
        lemma_specified_product_snoc(s.skip(1), v);
        if v != -1 && s[0] != -1 {
            assert(s[0] * (specified_product(s.skip(1)) * v) == (s[0] * specified_product(
                s.skip(1),
            )) * v) by (nonlinear_arith);
        }
    }
}

/// The product of the completed shape: the specified product times the
/// inferred size when a dimension was unspecified.
proof fn lemma_complete_product(s: Seq<i32>, unspecified: usize)
    requires
        forall|k: int| 0 <= k < s.len() ==> s[k] >= -1,
        !(exists|k1: int, k2: int|
            0 <= k1 < k2 < s.len() && s[k1] == -1 && s[k2] == -1),
    ensures
        shape_product(complete_shape(s, unspecified)) == (if has_unspecified(s) {
            unspecified * specified_product(s)
        } else {
            specified_product(s)
        }),
    decreases s.len(),
{
    if s.len() > 0 {
        assert(complete_shape(s, unspecified).skip(1) =~= complete_shape(s.skip(1), unspecified));
        assert forall|k1: int, k2: int|
            0 <= k1 < k2 < s.skip(1).len() && s.skip(1)[k1] == -1 implies !(s.skip(1)[k2]
            == -1) by {
            assert(s[k1 + 1] == s.skip(1)[k1]);
            assert(s[k2 + 1] == s.skip(1)[k2]);
        }
        lemma_complete_product(s.skip(1), unspecified);
        if has_unspecified(s) {
            let w = choose|k: int| 0 <= k < s.len() && s[k] == -1;
            if s[0] == -1 {
                assert(!has_unspecified(s.skip(1))) by {
                    if has_unspecified(s.skip(1)) {
                        let w2 = choose|k: int| 0 <= k < s.skip(1).len() && s.skip(1)[k] == -1;
                        assert(s[w2 + 1] == -1);
                    }
                }
            } else {
                assert(s.skip(1)[w - 1] == -1);
                assert(has_unspecified(s.skip(1)));
                assert(s[0] * (unspecified * specified_product(s.skip(1))) == unspecified * (s[0]
                    * specified_product(s.skip(1)))) by (nonlinear_arith);
            }
        } else {
            assert(!has_unspecified(s.skip(1))) by {
                if has_unspecified(s.skip(1)) {
                    let w2 = choose|k: int| 0 <= k < s.skip(1).len() && s.skip(1)[k] == -1;
                    assert(s[w2 + 1] == -1);
                }
            }
            assert(s[0] != -1);
        }
    }
}

// ---------------------------------------------------------------------------
// Gather
// ---------------------------------------------------------------------------

/// One gathered block: for each index, the chunk of `inner` elements it
/// selects within `block`.
pub open spec fn gather_block<T>(block: Seq<T>, inner: int, idxs: Seq<i32>) -> Seq<T>
    decreases idxs.len(),
{
    if idxs.len() == 0 {
        Seq::empty()
    } else {
        block.subrange(idxs[0] * inner, idxs[0] * inner + inner) + gather_block(
            block,
            inner,
            idxs.skip(1),
        )
    }
}

/// The gathered data: for each of the `outer` blocks of `block_size`
/// elements, the chunks selected by the indices.
pub open spec fn gather_data<T>(
    data: Seq<T>,
    block_size: int,
    inner: int,
    idxs: Seq<i32>,
    outer: int,
) -> Seq<T>
    decreases outer,
{
    if outer <= 0 {
        Seq::empty()
    } else {
        gather_block(data.take(block_size), inner, idxs) + gather_data(
            data.skip(block_size),
            block_size,
            inner,
            idxs,
            outer - 1,
        )
    }
}

/// The exact result of gathering chunks of `input` along `axis` as selected
/// by `indices`.
pub open spec fn gather_spec<T>(
    t: TensorModel<T>,
    axis: usize,
    idx: TensorModel<i32>,
) -> Result<TensorModel<T>, OpError> {
    if axis >= t.shape.len() {
        Err(OpError::InvalidValue("`axis` is out of range"))
    } else if exists|k: int|
        0 <= k < idx.data.len() && !(0 <= #[trigger] idx.data[k] < t.shape[axis as int]) {
        Err(OpError::InvalidValue("Entry in `indices` is out of range"))
    } else {
        let inner = shape_product(t.shape.skip(axis as int + 1));
        let block_size = t.shape[axis as int] * inner;
        let outer = shape_product(t.shape.take(axis as int));
        Ok(
            TensorModel {
                shape: t.shape.take(axis as int) + idx.shape + t.shape.skip(axis as int + 1),
                data: gather_data(t.data, block_size, inner, idx.data, outer),
            },
        )
    }
}

proof fn lemma_gather_block_trivial<T>(block: Seq<T>, inner: int, idxs: Seq<i32>)
    requires
        inner == 0 || idxs.len() == 0,
    ensures
        gather_block(block, inner, idxs) =~= Seq::<T>::empty(),
    decreases idxs.len(),
{
    if idxs.len() > 0 {
        lemma_gather_block_trivial(block, inner, idxs.skip(1));
        assert(block.subrange(idxs[0] * inner, idxs[0] * inner + inner) =~= Seq::<T>::empty());
    }
}

proof fn lemma_gather_data_trivial<T>(
    data: Seq<T>,
    block_size: int,
    inner: int,
    idxs: Seq<i32>,
    outer: int,
)
    requires
        inner == 0 || idxs.len() == 0,
    ensures
        gather_data(data, block_size, inner, idxs, outer) =~= Seq::<T>::empty(),
    decreases outer,
{
    if outer > 0 {
        lemma_gather_block_trivial(data.take(block_size), inner, idxs);
        lemma_gather_data_trivial(data.skip(block_size), block_size, inner, idxs, outer - 1);
    }
}

/// Gather chunks of `input` along `axis` as selected by `indices`.
///
/// Every index must lie in range for the `axis` dimension. The output shape
/// splices the indices' shape in place of that dimension.
pub fn gather<T: Copy>(input: &Tensor<T>, axis: usize, indices: &Tensor<i32>) -> (r: Result<
    Tensor<T>,
    OpError,
>)
    ensures
        match r {
            Ok(t) => gather_spec(input@, axis, indices@) == Ok::<TensorModel<T>, OpError>(t@),
            Err(e) => gather_spec(input@, axis, indices@) == Err::<TensorModel<T>, OpError>(e),
        },
{
    proof {
        use_type_invariant(input);
        use_type_invariant(indices);
    }
    let ghost gshape = input@.shape;
    let shape = input.shape();
    let ndim = shape.len();
    if axis >= ndim {
        return Err(OpError::InvalidValue("`axis` is out of range"));
    }
    let dim = shape[axis];

    // Validate the indices.
    let idata = indices.data();
    let idx_len = idata.len();
    let mut k: usize = 0;
    while k < idx_len
        invariant
            k <= idx_len,
            idx_len == indices@.data.len(),
            idata@ == indices@.data,
            axis < input@.shape.len(),
            dim == input@.shape[axis as int],
            forall|j: int| 0 <= j < k ==> 0 <= #[trigger] indices@.data[j] < dim,
        decreases idx_len - k,
    {
        let v = idata[k];
        if v < 0 || dim <= i32::MAX as usize && v >= dim as i32 || (v as usize) >= dim {
            return Err(OpError::InvalidValue("Entry in `indices` is out of range"));
        }
        k = k + 1;
    }

    // The output shape splices the indices' shape in place of `axis`.
    let ishape = indices.shape();
    let mut out_shape: Vec<usize> = Vec::new();
    let mut c: usize = 0;
    while c < axis
        invariant
            c <= axis,
            axis < shape@.len(),
            shape@ == input@.shape,
            out_shape@ =~= input@.shape.take(c as int),
        decreases axis - c,
    {
        out_shape.push(shape[c]);
        c = c + 1;
    }
    let mut c2: usize = 0;
    while c2 < ishape.len()
        invariant
            c2 <= ishape@.len(),
            ishape@ == indices@.shape,
            axis < shape@.len(),
            shape@ == input@.shape,
            out_shape@ =~= input@.shape.take(axis as int) + indices@.shape.take(c2 as int),
        decreases ishape@.len() - c2,
    {
        proof {
            assert(input@.shape.take(axis as int) + indices@.shape.take(c2 + 1) =~= (
            input@.shape.take(axis as int) + indices@.shape.take(c2 as int)).push(
                indices@.shape[c2 as int],
            ));
        }
        out_shape.push(ishape[c2]);
        c2 = c2 + 1;
    }
    let mut c3: usize = axis + 1;
    while c3 < ndim
        invariant
            axis < c3 <= ndim,
            ndim == shape@.len(),
            ishape@ == indices@.shape,
            shape@ == input@.shape,
            out_shape@ =~= input@.shape.take(axis as int) + indices@.shape
                + input@.shape.subrange(axis as int + 1, c3 as int),
        decreases ndim - c3,
    {
        proof {
            assert(input@.shape.take(axis as int) + indices@.shape + input@.shape.subrange(
                axis as int + 1,
                c3 + 1,
            ) =~= (input@.shape.take(axis as int) + indices@.shape + input@.shape.subrange(
                axis as int + 1,
                c3 as int,
            )).push(input@.shape[c3 as int]));
        }
        out_shape.push(shape[c3]);
        c3 = c3 + 1;
    }
    proof {
        assert(indices@.shape.take(indices@.shape.len() as int) =~= indices@.shape);
        assert(input@.shape.subrange(axis as int + 1, ndim as int) =~= input@.shape.skip(
            axis as int + 1,
        ));
        assert(out_shape@ =~= input@.shape.take(axis as int) + indices@.shape + input@.shape.skip(
            axis as int + 1,
        ));
    }
    let ghost inner_g = shape_product(input@.shape.skip(axis as int + 1));
    let ghost outer_g = shape_product(input@.shape.take(axis as int));
    let ghost block_g = input@.shape[axis as int] * inner_g;
    let ghost out_data_g = gather_data(input@.data, block_g, inner_g, indices@.data, outer_g);

    proof {
        // The output shape's product matches the gathered data's length.
        lemma_shape_product_concat(
            input@.shape.take(axis as int) + indices@.shape,
            input@.shape.skip(axis as int + 1),
        );
        lemma_shape_product_concat(input@.shape.take(axis as int), indices@.shape);
        lemma_shape_product_split(input@.shape, axis as int);
        lemma_shape_product_split(input@.shape.skip(axis as int), 1);
        assert(input@.shape.skip(axis as int).take(1) =~= seq![input@.shape[axis as int]]);
        assert(input@.shape.skip(axis as int).skip(1) =~= input@.shape.skip(axis as int + 1));
        lemma_shape_product_single(input@.shape[axis as int]);
    }

    if input.len() == 0 || idata.len() == 0 {
        // No elements to copy: either some input dimension is zero, or no
        // indices were requested.
        proof {
            if indices@.data.len() == 0 {
                lemma_gather_data_trivial(input@.data, block_g, inner_g, indices@.data, outer_g);
                use_type_invariant(indices);
                lemma_gather_out_len_zero(input@, axis, indices@, out_shape@);
            } else {
                // Valid indices exist, so the axis dimension is positive and
                // some other dimension must be zero.
                lemma_gather_zero_input(input@, axis, indices@, out_shape@);
            }
        }
        let empty_data: Vec<T> = Vec::new();
        return Ok(Tensor::from_data(out_shape, empty_data));
    }

    // All dimensions are at least one, so the strides fit.
    proof {
        assert forall|j: int| 0 <= j < input@.shape.len() implies input@.shape[j] >= 1 by {
            if input@.shape[j] == 0 {
                lemma_shape_product_zero(input@.shape, j);
            }
        }
        lemma_shape_product_pos(input@.shape.take(axis as int));
        lemma_shape_product_pos(input@.shape.skip(axis as int + 1));
        lemma_shape_product_pos(input@.shape.skip(axis as int));
        assert(inner_g <= input@.data.len() && outer_g <= input@.data.len() && block_g
            <= input@.data.len() && outer_g * block_g == input@.data.len()) by (nonlinear_arith)
            requires
                input@.data.len() == outer_g * (input@.shape[axis as int] * inner_g),
                block_g == input@.shape[axis as int] * inner_g,
                outer_g >= 1,
                inner_g >= 1,
                input@.shape[axis as int] >= 1,
                block_g >= 1,
        ;
    }
    let inner = crate::tensor::suffix_product(shape, axis + 1);
    let outer = crate::tensor::prefix_product(shape, axis);
    let block = dim * inner;
    let total = input.len();

    let mut out: Vec<T> = Vec::new();
    let mut o: usize = 0;
    proof {
        assert(input@.data.skip(0) =~= input@.data);
    }
    while o < outer
        invariant
            o <= outer,
            total == input@.data.len(),
            idx_len == indices@.data.len(),
            idata@ == indices@.data,
            axis < input@.shape.len(),
            dim == input@.shape[axis as int],
            inner == inner_g,
            outer == outer_g,
            block == block_g,
            block == dim * inner,
            block >= 1,
            inner >= 1,
            total == outer * block,
            forall|j: int| 0 <= j < idx_len ==> 0 <= #[trigger] indices@.data[j] < dim,
            out@.len() == o * (idx_len * inner),
            out@ + gather_data(input@.data.skip(o * block), block as int, inner as int, indices@.data, outer - o)
                =~= out_data_g,
        decreases outer - o,
    {
        let ghost block_data = input@.data.skip(o * block as int).take(block as int);
        proof {
            assert(o * block + block <= outer * block && 0 <= o * block) by (nonlinear_arith)
                requires
                    o < outer,
                    block >= 1,
                    o >= 0,
            ;
        }
        let base = o * block;
        proof {
            // Unfold the remaining-data spec once into the current block.
            let rem = input@.data.skip(base as int);
            assert(rem.take(block as int) =~= block_data);
            assert(rem.skip(block as int) =~= input@.data.skip(base + block));
            assert(gather_data(rem, block as int, inner as int, indices@.data, outer - o)
                == gather_block(block_data, inner as int, indices@.data) + gather_data(
                input@.data.skip(base + block),
                block as int,
                inner as int,
                indices@.data,
                outer - o - 1,
            ));
            assert(indices@.data.skip(0) =~= indices@.data);
            assert(out@ + (gather_block(block_data, inner as int, indices@.data) + gather_data(
                input@.data.skip(base + block),
                block as int,
                inner as int,
                indices@.data,
                outer - o - 1,
            )) =~= (out@ + gather_block(block_data, inner as int, indices@.data.skip(0))
                + gather_data(
                input@.data.skip(base + block),
                block as int,
                inner as int,
                indices@.data,
                outer - o - 1,
            )));
        }
        let ghost out_len_at_block = out@.len() as int;
        let mut j: usize = 0;
        while j < idx_len
            invariant
                j <= idx_len,
                idx_len == indices@.data.len(),
                idata@ == indices@.data,
                total == input@.data.len(),
                dim == input@.shape[axis as int],
                base == o * block,
                base + block <= total,
                0 <= base,
                block == dim * inner,
                inner >= 1,
                forall|k2: int| 0 <= k2 < idx_len ==> 0 <= #[trigger] indices@.data[k2] < dim,
                out@.len() == out_len_at_block + j * inner,
                block_data == input@.data.skip(base as int).take(block as int),
                out@ + gather_block(block_data, inner as int, indices@.data.skip(j as int))
                    + gather_data(
                    input@.data.skip(base + block),
                    block as int,
                    inner as int,
                    indices@.data,
                    outer - o - 1,
                ) =~= out_data_g,
            decreases idx_len - j,
        {
            let idxv = idata[j] as usize;
            proof {
                assert(idxv * inner + inner <= block && 0 <= idxv * inner) by (nonlinear_arith)
                    requires
                        idxv < dim,
                        block == dim * inner,
                        inner >= 1,
                        idxv >= 0,
                ;
            }
            let src = base + idxv * inner;
            let ghost out_before = out@;
            let mut e: usize = 0;
            while e < inner
                invariant
                    e <= inner,
                    total == input@.data.len(),
                    src + inner <= base + block,
                    base + block <= total,
                    0 <= src,
                    out@ =~= out_before + input@.data.subrange(src as int, src + e),
                decreases inner - e,
            {
                proof {
                    assert(out_before + input@.data.subrange(src as int, src + e + 1) =~= (
                    out_before + input@.data.subrange(src as int, src + e)).push(
                        input@.data[src + e],
                    ));
                }
                out.push(input.at(src + e));
                e = e + 1;
            }
            proof {
                // One unfolding of the block spec absorbs the copied chunk.
                let idxs_rem = indices@.data.skip(j as int);
                assert(idxs_rem[0] == indices@.data[j as int]);
                assert(idxs_rem.skip(1) =~= indices@.data.skip(j + 1));
                assert(block_data.subrange(
                    idxs_rem[0] * inner,
                    idxs_rem[0] * inner + inner,
                ) =~= input@.data.subrange(src as int, src + inner as int));
                assert(out@ =~= out_before + input@.data.subrange(src as int, src + inner as int));
            }
            proof {
                assert((j + 1) * inner == j * inner + inner) by (nonlinear_arith);
            }
            j = j + 1;
        }
        proof {
            assert(indices@.data.skip(idx_len as int) =~= Seq::<i32>::empty());
            assert((o + 1) * block == o * block + block) by (nonlinear_arith);
            assert((o + 1) * (idx_len * inner) == o * (idx_len * inner) + idx_len * inner)
                by (nonlinear_arith);
            assert(input@.data.skip(base + block).take(block as int) =~= input@.data.skip((o + 1)
                * block as int).take(block as int));
            assert(input@.data.skip(base + block) =~= input@.data.skip((o + 1) * block as int));
        }
        o = o + 1;
    }
    proof {
        assert(out@ =~= out_data_g);
        // The output length matches the output shape's product: the outer
        // count times one chunk per index.
        assert(shape_product(out_shape@) == (outer_g * shape_product(indices@.shape)) * inner_g);
        assert(shape_product(indices@.shape) == indices@.data.len());
        assert(out@.len() == outer_g * (indices@.data.len() * inner_g));
        assert((outer_g * indices@.data.len()) * inner_g == outer_g * (indices@.data.len()
            * inner_g)) by (nonlinear_arith);
    }
    Ok(Tensor::from_data(out_shape, out))
}

/// When no indices are requested, the gathered output is empty and the
/// output shape has a zero product.
proof fn lemma_gather_out_len_zero<T>(
    t: TensorModel<T>,
    axis: usize,
    idx: TensorModel<i32>,
    out_shape: Seq<usize>,
)
    requires
        axis < t.shape.len(),
        idx.data.len() == 0,
        shape_product(idx.shape) == 0,
        out_shape == t.shape.take(axis as int) + idx.shape + t.shape.skip(axis as int + 1),
    ensures
        shape_product(out_shape) == 0,
{
    crate::tensor::lemma_shape_product_concat(
        t.shape.take(axis as int) + idx.shape,
        t.shape.skip(axis as int + 1),
    );
    crate::tensor::lemma_shape_product_concat(t.shape.take(axis as int), idx.shape);
    assert(shape_product(t.shape.take(axis as int)) * 0 == 0) by (nonlinear_arith);
    assert(0 * shape_product(t.shape.skip(axis as int + 1)) == 0) by (nonlinear_arith);
}

/// With a zero-sized input but valid indices, the gathered output is empty
/// and the output shape has a zero product.
proof fn lemma_gather_zero_input<T>(
    t: TensorModel<T>,
    axis: usize,
    idx: TensorModel<i32>,
    out_shape: Seq<usize>,
)
    requires
        axis < t.shape.len(),
        t.data.len() == 0,
        shape_product(t.shape) == t.data.len(),
        idx.data.len() > 0,
        forall|j: int| 0 <= j < idx.data.len() ==> 0 <= #[trigger] idx.data[j] < t.shape[axis as int],
        out_shape == t.shape.take(axis as int) + idx.shape + t.shape.skip(axis as int + 1),
        shape_product(idx.shape) == idx.data.len(),
    ensures
        shape_product(out_shape) == 0,
        gather_data(
            t.data,
            t.shape[axis as int] * shape_product(t.shape.skip(axis as int + 1)),
            shape_product(t.shape.skip(axis as int + 1)),
            idx.data,
            shape_product(t.shape.take(axis as int)),
        ) =~= Seq::<T>::empty(),
{
    let inner = shape_product(t.shape.skip(axis as int + 1));
    let outer = shape_product(t.shape.take(axis as int));
    let dimv = t.shape[axis as int];
    crate::tensor::lemma_shape_product_split(t.shape, axis as int);
    crate::tensor::lemma_shape_product_split(t.shape.skip(axis as int), 1);
    assert(t.shape.skip(axis as int).take(1) =~= seq![dimv]);
    assert(t.shape.skip(axis as int).skip(1) =~= t.shape.skip(axis as int + 1));
    crate::tensor::lemma_shape_product_single(dimv);
    assert(0 <= idx.data[0] < dimv);
    lemma_shape_product_nonneg(t.shape.take(axis as int));
    lemma_shape_product_nonneg(t.shape.skip(axis as int + 1));
    // outer * (dimv * inner) == 0 with dimv >= 1 forces outer == 0 or
    // inner == 0.
    assert(outer == 0 || inner == 0) by (nonlinear_arith)
        requires
            outer * (dimv * inner) == 0,
            dimv >= 1,
            outer >= 0,
            inner >= 0,
    ;
    if outer == 0 {
        assert(gather_data(t.data, dimv * inner, inner, idx.data, outer) =~= Seq::<T>::empty());
    } else {
        lemma_gather_data_trivial(t.data, dimv * inner, inner, idx.data, outer);
    }
    crate::tensor::lemma_shape_product_concat(
        t.shape.take(axis as int) + idx.shape,
        t.shape.skip(axis as int + 1),
    );
    crate::tensor::lemma_shape_product_concat(t.shape.take(axis as int), idx.shape);
    if outer == 0 {
        assert(0 * shape_product(idx.shape) == 0) by (nonlinear_arith);
        assert(0 * shape_product(t.shape.skip(axis as int + 1)) == 0) by (nonlinear_arith);
    } else {
        assert((outer * shape_product(idx.shape)) * 0 == 0) by (nonlinear_arith);
    }
}

/// The single element of a one-element tensor, or an error.
pub fn extract_scalar<T: Copy>(x: &Tensor<T>) -> (r: Result<T, OpError>)
    ensures
        match r {
            Ok(v) => x@.data.len() == 1 && v == x@.data[0],
            Err(e) => x@.data.len() != 1 && e == OpError::InvalidValue("Expected scalar value"),
        },
{
    match x.item() {
        Some(v) => Ok(v),
        None => Err(OpError::InvalidValue("Expected scalar value")),
    }
}

// ---------------------------------------------------------------------------
// Concat (any number of inputs)
// ---------------------------------------------------------------------------

/// The models of a list of tensor references.
pub open spec fn ref_models<T>(s: Seq<&Tensor<T>>) -> Seq<TensorModel<T>> {
    Seq::new(s.len(), |k: int| s[k]@)
}

/// The scan of the inputs to an n-ary concatenation, in order: each input
/// must have the first input's rank, and must agree with it on every
/// dimension other than `dim`.
pub open spec fn concat_check<T>(ts: Seq<TensorModel<T>>, dim: usize, k: int) -> Result<
    (),
    OpError,
>
    decreases ts.len() - k,
{
    if k < 1 || k >= ts.len() {
        Ok(())
    } else if ts[k].shape.len() != ts[0].shape.len() {
        Err(OpError::IncompatibleInputShapes("Tensors must have the same number of dimensions"))
    } else if exists|d: int|
        0 <= d < ts[0].shape.len() && d != dim && ts[k].shape[d] != ts[0].shape[d] {
        Err(OpError::IncompatibleInputShapes("Dimensions must be the same except for concat dim"))
    } else {
        concat_check(ts, dim, k + 1)
    }
}

/// The value of folding validated inputs from position `k` on through the
/// two-input concatenation, starting from `acc`.
pub open spec fn concat_fold<T>(
    ts: Seq<TensorModel<T>>,
    dim: usize,
    k: int,
    acc: TensorModel<T>,
) -> Result<TensorModel<T>, OpError>
    decreases ts.len() - k,
{
    if k < 1 || k >= ts.len() {
        Ok(acc)
    } else {
        match crate::ops::concat2_spec(acc, ts[k], dim) {
            Err(e) => Err(e),
            Ok(acc2) => concat_fold(ts, dim, k + 1, acc2),
        }
    }
}

/// The exact result of concatenating a list of tensors along `dim`: `dim`
/// must be a dimension of the first input, every input must match the first
/// on rank and on the other dimensions, and the validated inputs are folded
/// left to right through the two-input concatenation.
pub open spec fn concat_all_spec<T>(ts: Seq<TensorModel<T>>, dim: usize) -> Result<
    TensorModel<T>,
    OpError,
> {
    if ts.len() == 0 {
        Err(OpError::MissingInputs)
    } else if dim >= ts[0].shape.len() {
        Err(OpError::InvalidValue("dim is larger than input rank"))
    } else if concat_check(ts, dim, 1) is Err {
        Err(concat_check(ts, dim, 1)->Err_0)
    } else {
        concat_fold(ts, dim, 1, ts[0])
    }
}

/// Concatenate the tensors along the dimension `dim`, in order.
///
/// `dim` must be a dimension of the first tensor, and all tensors must have
/// the same number of dimensions and agree on every dimension other than
/// `dim`.
pub fn concat<T: Copy>(inputs: &[&Tensor<T>], dim: usize) -> (r: Result<Tensor<T>, OpError>)
    requires
        inputs@.len() >= 1,
    ensures
        match r {
            Ok(t) => concat_all_spec(ref_models(inputs@), dim) == Ok::<TensorModel<T>, OpError>(
                t@,
            ),
            Err(e) => concat_all_spec(ref_models(inputs@), dim) == Err::<TensorModel<T>, OpError>(
                e,
            ),
        },
{
    let ghost ts = ref_models(inputs@);
    let first = inputs[0];
    proof {
        use_type_invariant(first);
    }
    let first_shape = first.shape();
    let ndim = first_shape.len();
    if dim >= ndim {
        return Err(OpError::InvalidValue("dim is larger than input rank"));
    }

    // Validate every input against the first, in order.
    let mut k: usize = 1;
    while k < inputs.len()
        invariant
            1 <= k <= inputs@.len(),
            ts == ref_models(inputs@),
            ndim == ts[0].shape.len(),
            dim < ndim,
            first_shape@ == ts[0].shape,
            concat_check(ts, dim, 1) == concat_check(ts, dim, k as int),
        decreases inputs@.len() - k,
    {
        let other = inputs[k];
        proof {
            use_type_invariant(other);
            assert(ts[k as int] == inputs@[k as int]@);
        }
        let other_shape = other.shape();
        if other_shape.len() != ndim {
            return Err(
                OpError::IncompatibleInputShapes("Tensors must have the same number of dimensions"),
            );
        }
        let mut d: usize = 0;
        while d < ndim
            invariant
                d <= ndim,
                ndim == ts[0].shape.len(),
                dim < ndim,
                first_shape@ == ts[0].shape,
                1 <= k < ts.len(),
                other_shape@ == ts[k as int].shape,
                ts == ref_models(inputs@),
                ts[k as int].shape.len() == ndim,
                concat_check(ts, dim, 1) == concat_check(ts, dim, k as int),
                forall|j: int| 0 <= j < d && j != dim ==> ts[k as int].shape[j] == ts[0].shape[j],
            decreases ndim - d,
        {
            if d != dim && other_shape[d] != first_shape[d] {
                proof {
                    assert(concat_check(ts, dim, k as int) == Err::<(), OpError>(
                        OpError::IncompatibleInputShapes(
                            "Dimensions must be the same except for concat dim",
                        ),
                    ));
                }
                return Err(
                    OpError::IncompatibleInputShapes(
                        "Dimensions must be the same except for concat dim",
                    ),
                );
            }
            d = d + 1;
        }
        k = k + 1;
    }

    // Fold the validated inputs through the two-input concatenation.
    let mut acc = first.duplicate();
    let mut i: usize = 1;
    while i < inputs.len()
        invariant
            1 <= i <= inputs@.len(),
            ts == ref_models(inputs@),
            dim < ts[0].shape.len(),
            concat_check(ts, dim, 1) is Ok,
            concat_fold(ts, dim, 1, ts[0]) == concat_fold(ts, dim, i as int, acc@),
        decreases inputs@.len() - i,
    {
        let next = crate::ops::concat(&acc, inputs[i], dim);
        proof {
            assert(ts[i as int] == inputs@[i as int]@);
        }
        match next {
            Ok(t) => {
                acc = t;
            },
            Err(e) => {
                return Err(e);
            },
        }
        i = i + 1;
    }
    Ok(acc)
}

// ---------------------------------------------------------------------------
// Transpose
// ---------------------------------------------------------------------------

/// A sequence with the entry at `k` removed.
pub open spec fn remove_at<A>(s: Seq<A>, k: int) -> Seq<A> {
    s.take(k) + s.skip(k + 1)
}

/// The data of a sub-tensor obtained by fixing dimension `k` (of extent
/// `dim`, chunk size `chunk`) at index `i`: the selected chunk of each of
/// the `outer` blocks.
pub open spec fn extract_data<T>(data: Seq<T>, chunk: int, dim: int, i: int, outer: int) -> Seq<T>
    decreases outer,
{
    if outer <= 0 {
        Seq::empty()
    } else {
        data.subrange(i * chunk, i * chunk + chunk) + extract_data(
            data.skip(dim * chunk),
            chunk,
            dim,
            i,
            outer - 1,
        )
    }
}

/// The sub-tensor obtained by fixing dimension `k` at index `i`.
pub open spec fn extract_model<T>(t: TensorModel<T>, k: int, i: int) -> TensorModel<T> {
    TensorModel {
        shape: remove_at(t.shape, k),
        data: extract_data(
            t.data,
            shape_product(t.shape.skip(k + 1)),
            t.shape[k] as int,
            i,
            shape_product(t.shape.take(k)),
        ),
    }
}

/// A valid permutation of `n` dimensions.
pub open spec fn perm_ok(perm: Seq<usize>, n: int) -> bool {
    &&& perm.len() == n
    &&& forall|j: int| 0 <= j < perm.len() ==> (#[trigger] perm[j]) < n
    &&& forall|j1: int, j2: int| 0 <= j1 < j2 < perm.len() ==> perm[j1] != perm[j2]
}

/// The shape re-ordered by a permutation.
pub open spec fn perm_shape(shape: Seq<usize>, perm: Seq<usize>) -> Seq<usize> {
    Seq::new(perm.len(), |j: int| shape[perm[j] as int])
}

/// The permutation of the remaining dimensions once dimension `perm[0]` has
/// been removed.
pub open spec fn remove_perm(perm: Seq<usize>) -> Seq<usize> {
    Seq::new(
        (perm.len() - 1) as nat,
        |j: int|
            if perm[j + 1] > perm[0] {
                (perm[j + 1] - 1) as usize
            } else {
                perm[j + 1]
            },
    )
}

proof fn lemma_remove_perm_ok(perm: Seq<usize>, n: int)
    requires
        perm_ok(perm, n),
        n >= 1,
    ensures
        perm_ok(remove_perm(perm), n - 1),
{
    let p2 = remove_perm(perm);
    assert forall|j: int| 0 <= j < p2.len() implies (#[trigger] p2[j]) < n - 1 by {
        assert(perm[j + 1] != perm[0]);
    }
    assert forall|j1: int, j2: int| 0 <= j1 < j2 < p2.len() implies p2[j1] != p2[j2] by {
        assert(perm[j1 + 1] != perm[j2 + 1]);
        assert(perm[j1 + 1] != perm[0]);
        assert(perm[j2 + 1] != perm[0]);
    }
}

/// The transposed data: the outermost output dimension enumerates the
/// extent of input dimension `perm[0]`, each entry the transposed
/// sub-tensor with that dimension fixed.
pub open spec fn transpose_data<T>(t: TensorModel<T>, perm: Seq<usize>) -> Seq<T>
    decreases perm.len(), 1nat, 0nat,
{
    if perm.len() == 0 {
        t.data
    } else {
        transpose_rows(t, perm, 0)
    }
}

pub open spec fn transpose_rows<T>(t: TensorModel<T>, perm: Seq<usize>, i: int) -> Seq<T>
    decreases perm.len(), 0nat, t.shape[perm[0] as int] - i,
{
    if perm.len() == 0 || i < 0 || i >= t.shape[perm[0] as int] {
        Seq::empty()
    } else {
        transpose_data(extract_model(t, perm[0] as int, i), remove_perm(perm)) + transpose_rows(
            t,
            perm,
            i + 1,
        )
    }
}

/// The transpose of a tensor under a permutation of its dimensions.
pub open spec fn transpose_model<T>(t: TensorModel<T>, perm: Seq<usize>) -> TensorModel<T> {
    TensorModel { shape: perm_shape(t.shape, perm), data: transpose_data(t, perm) }
}

proof fn lemma_extract_data_trivial<T>(data: Seq<T>, chunk: int, dim: int, i: int, outer: int)
    requires
        chunk == 0,
    ensures
        extract_data(data, chunk, dim, i, outer) =~= Seq::<T>::empty(),
    decreases outer,
{
    if outer > 0 {
        lemma_extract_data_trivial(data.skip(dim * chunk), chunk, dim, i, outer - 1);
        assert(data.subrange(i * chunk, i * chunk + chunk) =~= Seq::<T>::empty());
    }
}

/// The sub-tensor of `t` with dimension `k` fixed at index `i`.
fn extract_dim<T: Copy>(t: &Tensor<T>, k: usize, i: usize) -> (r: Tensor<T>)
    requires
        k < t@.shape.len(),
        i < t@.shape[k as int],
    ensures
        r@ == extract_model(t@, k as int, i as int),
{
    proof {
        use_type_invariant(t);
    }
    let shape = t.shape();
    let ndim = shape.len();
    let dim = shape[k];
    let mut out_shape: Vec<usize> = Vec::new();
    let mut c: usize = 0;
    while c < ndim
        invariant
            c <= ndim,
            ndim == shape@.len(),
            shape@ == t@.shape,
            k < ndim,
            out_shape@ =~= (if c <= k {
                t@.shape.take(c as int)
            } else {
                t@.shape.take(k as int) + t@.shape.subrange(k + 1, c as int)
            }),
        decreases ndim - c,
    {
        if c != k {
            out_shape.push(shape[c]);
        }
        c = c + 1;
    }
    proof {
        assert(t@.shape.subrange(k + 1, ndim as int) =~= t@.shape.skip(k + 1));
        assert(out_shape@ =~= remove_at(t@.shape, k as int));
        lemma_shape_product_concat(t@.shape.take(k as int), t@.shape.skip(k + 1));
        lemma_shape_product_split(t@.shape, k as int);
        lemma_shape_product_split(t@.shape.skip(k as int), 1);
        assert(t@.shape.skip(k as int).take(1) =~= seq![t@.shape[k as int]]);
        assert(t@.shape.skip(k as int).skip(1) =~= t@.shape.skip(k + 1));
        lemma_shape_product_single(t@.shape[k as int]);
    }
    let ghost chunk_g = shape_product(t@.shape.skip(k + 1));
    let ghost outer_g = shape_product(t@.shape.take(k as int));
    let ghost full = extract_data(t@.data, chunk_g, dim as int, i as int, outer_g);

    if t.len() == 0 {
        // The fixed dimension has positive extent, so some other dimension
        // is zero and the sub-tensor is empty.
        proof {
            lemma_shape_product_nonneg(t@.shape.take(k as int));
            lemma_shape_product_nonneg(t@.shape.skip(k + 1));
            assert(outer_g == 0 || chunk_g == 0) by (nonlinear_arith)
                requires
                    outer_g * (t@.shape[k as int] * chunk_g) == 0,
                    t@.shape[k as int] >= 1,
                    outer_g >= 0,
                    chunk_g >= 0,
            ;
            if chunk_g == 0 {
                lemma_extract_data_trivial(t@.data, chunk_g, dim as int, i as int, outer_g);
                assert(outer_g * 0 == 0) by (nonlinear_arith);
            } else {
                assert(0 * chunk_g == 0) by (nonlinear_arith);
            }
        }
        let empty_data: Vec<T> = Vec::new();
        return Tensor::from_data(out_shape, empty_data);
    }

    proof {
        assert forall|j: int| 0 <= j < t@.shape.len() implies t@.shape[j] >= 1 by {
            if t@.shape[j] == 0 {
                lemma_shape_product_zero(t@.shape, j);
            }
        }
        lemma_shape_product_pos(t@.shape.take(k as int));
        lemma_shape_product_pos(t@.shape.skip(k + 1));
        assert(chunk_g <= t@.data.len() && outer_g <= t@.data.len() && t@.shape[k as int] * chunk_g
            <= t@.data.len() && outer_g * (t@.shape[k as int] * chunk_g) == t@.data.len())
            by (nonlinear_arith)
            requires
                t@.data.len() == outer_g * (t@.shape[k as int] * chunk_g),
                outer_g >= 1,
                chunk_g >= 1,
                t@.shape[k as int] >= 1,
        ;
    }
    let chunk = crate::tensor::suffix_product(shape, k + 1);
    let outer = crate::tensor::prefix_product(shape, k);
    let block = dim * chunk;
    let total = t.len();

    let mut out: Vec<T> = Vec::new();
    let mut o: usize = 0;
    proof {
        assert(t@.data.skip(0) =~= t@.data);
    }
    while o < outer
        invariant
            o <= outer,
            total == t@.data.len(),
            k < t@.shape.len(),
            i < t@.shape[k as int],
            dim == t@.shape[k as int],
            chunk == chunk_g,
            outer == outer_g,
            block == dim * chunk,
            chunk >= 1,
            block >= 1,
            total == outer * block,
            out@.len() == o * chunk,
            out@ + extract_data(t@.data.skip(o * block), chunk as int, dim as int, i as int, outer - o)
                =~= full,
        decreases outer - o,
    {
        proof {
            assert(o * block + block <= outer * block && 0 <= o * block) by (nonlinear_arith)
                requires
                    o < outer,
                    block >= 1,
                    o >= 0,
            ;
            assert(i * chunk + chunk <= block && 0 <= i * chunk) by (nonlinear_arith)
                requires
                    i < dim,
                    block == dim * chunk,
                    chunk >= 1,
                    i >= 0,
            ;
        }
        let base = o * block;
        let src = base + i * chunk;
        let ghost out_before = out@;
        let mut e: usize = 0;
        while e < chunk
            invariant
                e <= chunk,
                total == t@.data.len(),
                src + chunk <= base + block,
                base + block <= total,
                0 <= src,
                out@ =~= out_before + t@.data.subrange(src as int, src + e),
            decreases chunk - e,
        {
            proof {
                assert(out_before + t@.data.subrange(src as int, src + e + 1) =~= (out_before
                    + t@.data.subrange(src as int, src + e)).push(t@.data[src + e]));
            }
            out.push(t.at(src + e));
            e = e + 1;
        }
        proof {
            let rem = t@.data.skip(base as int);
            assert(rem.subrange(i * chunk as int, i * chunk + chunk as int) =~= t@.data.subrange(
                src as int,
                src + chunk as int,
            ));
            assert(rem.skip(dim * chunk as int) =~= t@.data.skip(base + block));
            assert(out@ =~= out_before + t@.data.subrange(src as int, src + chunk as int));
            assert((o + 1) * block == o * block + block) by (nonlinear_arith);
            assert((o + 1) * chunk == o * chunk + chunk) by (nonlinear_arith);
        }
        o = o + 1;
    }
    proof {
        assert(out@ =~= full);
        lemma_shape_product_concat(t@.shape.take(k as int), t@.shape.skip(k + 1));
        assert(outer_g * chunk_g == out@.len() && shape_product(remove_at(t@.shape, k as int))
            == outer_g * chunk_g) by (nonlinear_arith)
            requires
                out@.len() == outer_g * chunk_g,
                shape_product(remove_at(t@.shape, k as int)) == outer_g * chunk_g,
        ;
    }
    Tensor::from_data(out_shape, out)
}

/// The transpose of `t` under the dimension permutation `perm`.
fn transpose_rec<T: Copy>(t: &Tensor<T>, perm: &Vec<usize>) -> (r: Tensor<T>)
    requires
        perm_ok(perm@, t@.shape.len() as int),
    ensures
        r@ == transpose_model(t@, perm@),
    decreases t@.shape.len(),
{
    proof {
        use_type_invariant(t);
    }
    if perm.len() == 0 {
        let r = t.duplicate();
        proof {
            assert(perm_shape(t@.shape, perm@) =~= t@.shape);
        }
        return r;
    }
    let d0 = perm[0];
    let shape = t.shape();
    let dim = shape[d0];

    // The permutation of the remaining dimensions.
    let mut perm2: Vec<usize> = Vec::new();
    let mut j: usize = 1;
    while j < perm.len()
        invariant
            1 <= j <= perm@.len(),
            perm@.len() >= 1,
            d0 == perm@[0],
            forall|x: int| 0 <= x < perm@.len() ==> (#[trigger] perm@[x]) >= 0,
            perm2@ =~= remove_perm(perm@).take(j - 1),
        decreases perm@.len() - j,
    {
        proof {
            assert(remove_perm(perm@).take(j as int) =~= remove_perm(perm@).take(j - 1).push(
                remove_perm(perm@)[j - 1],
            ));
        }
        let pj = perm[j];
        if pj > d0 {
            perm2.push(pj - 1);
        } else {
            perm2.push(pj);
        }
        j = j + 1;
    }
    proof {
        assert(perm2@ =~= remove_perm(perm@));
        lemma_remove_perm_ok(perm@, t@.shape.len() as int);
    }

    // The output shape is the input shape re-ordered by the permutation.
    let mut out_shape: Vec<usize> = Vec::new();
    let mut c: usize = 0;
    while c < perm.len()
        invariant
            c <= perm@.len(),
            shape@ == t@.shape,
            perm_ok(perm@, t@.shape.len() as int),
            out_shape@ =~= perm_shape(t@.shape, perm@).take(c as int),
        decreases perm@.len() - c,
    {
        proof {
            assert(perm_shape(t@.shape, perm@).take(c + 1) =~= perm_shape(
                t@.shape,
                perm@,
            ).take(c as int).push(t@.shape[perm@[c as int] as int]));
        }
        out_shape.push(shape[perm[c]]);
        c = c + 1;
    }
    proof {
        assert(out_shape@ =~= perm_shape(t@.shape, perm@));
    }

    let mut out: Vec<T> = Vec::new();
    let ghost sub_shape = perm_shape(remove_at(t@.shape, d0 as int), remove_perm(perm@));
    let mut i: usize = 0;
    proof {
        assert(transpose_data(t@, perm@) == transpose_rows(t@, perm@, 0));
    }
    while i < dim
        invariant
            i <= dim,
            dim == t@.shape[d0 as int],
            d0 == perm@[0],
            d0 < t@.shape.len(),
            shape@ == t@.shape,
            perm_ok(perm@, t@.shape.len() as int),
            perm2@ == remove_perm(perm@),
            sub_shape == perm_shape(remove_at(t@.shape, d0 as int), remove_perm(perm@)),
            out@.len() == i * shape_product(sub_shape),
            out@ + transpose_rows(t@, perm@, i as int) =~= transpose_rows(t@, perm@, 0),
        decreases dim - i,
    {
        let sub = extract_dim(t, d0, i);
        proof {
            assert(sub@.shape.len() == t@.shape.len() - 1);
        }
        let tr = transpose_rec(&sub, &perm2);
        proof {
            use_type_invariant(&tr);
            assert(tr@.shape == sub_shape);
            assert(tr@.data == transpose_data(extract_model(t@, d0 as int, i as int), remove_perm(perm@)));
        }
        let trdata = tr.data();
        let tr_len = trdata.len();
        let ghost out_before = out@;
        let mut e: usize = 0;
        while e < tr_len
            invariant
                e <= tr_len,
                tr_len == tr@.data.len(),
                trdata@ == tr@.data,
                out@ =~= out_before + tr@.data.take(e as int),
            decreases tr_len - e,
        {
            proof {
                assert(out_before + tr@.data.take(e + 1) =~= (out_before + tr@.data.take(
                    e as int,
                )).push(tr@.data[e as int]));
            }
            out.push(trdata[e]);
            e = e + 1;
        }
        proof {
            assert(tr@.data.take(tr_len as int) =~= tr@.data);
            assert((i + 1) * shape_product(sub_shape) == i * shape_product(sub_shape)
                + shape_product(sub_shape)) by (nonlinear_arith);
        }
        i = i + 1;
    }
    proof {
        assert(transpose_rows(t@, perm@, dim as int) =~= Seq::<T>::empty());
        assert(out@ =~= transpose_data(t@, perm@));
        // The output length matches the permuted shape's product.
        assert(perm_shape(t@.shape, perm@).len() > 0);
        assert(perm_shape(t@.shape, perm@)[0] == t@.shape[d0 as int]);
        assert(perm_shape(t@.shape, perm@).skip(1) =~= sub_shape);
        assert(shape_product(perm_shape(t@.shape, perm@)) == dim * shape_product(sub_shape));
    }
    Tensor::from_data(out_shape, out)
}

/// The reversed dimension order of a rank-`n` tensor.
pub open spec fn reversed_perm(n: int) -> Seq<usize> {
    Seq::new(n as nat, |j: int| (n - 1 - j) as usize)
}

/// A copy of `input` with its dimensions re-ordered.
///
/// With an explicit permutation the dimensions are re-ordered accordingly;
/// without, they are reversed.
pub fn transpose<T: Copy>(input: &Tensor<T>, permutation: Option<&[usize]>) -> (r: Tensor<T>)
    requires
        match permutation {
            Some(p) => perm_ok(p@, input@.shape.len() as int),
            None => true,
        },
    ensures
        r@ == transpose_model(
            input@,
            match permutation {
                Some(p) => p@,
                None => reversed_perm(input@.shape.len() as int),
            },
        ),
{
    proof {
        use_type_invariant(input);
    }
    let mut perm: Vec<usize> = Vec::new();
    match permutation {
        Some(p) => {
            let mut c: usize = 0;
            while c < p.len()
                invariant
                    c <= p@.len(),
                    perm@ =~= p@.take(c as int),
                decreases p@.len() - c,
            {
                perm.push(p[c]);
                c = c + 1;
            }
            proof {
                assert(perm@ =~= p@);
            }
        },
        None => {
            let ndim = input.ndim();
            let mut c: usize = 0;
            while c < ndim
                invariant
                    c <= ndim,
                    ndim == input@.shape.len(),
                    perm@ =~= reversed_perm(ndim as int).take(c as int),
                decreases ndim - c,
            {
                proof {
                    assert(reversed_perm(ndim as int).take(c + 1) =~= reversed_perm(
                        ndim as int,
                    ).take(c as int).push((ndim - 1 - c) as usize));
                }
                perm.push(ndim - 1 - c);
                c = c + 1;
            }
            proof {
                assert(perm@ =~= reversed_perm(ndim as int));
                assert forall|j1: int, j2: int|
                    0 <= j1 < j2 < perm@.len() implies perm@[j1] != perm@[j2] by {}
            }
        },
    }
    transpose_rec(input, &perm)
}

// ---------------------------------------------------------------------------
// Pad
// ---------------------------------------------------------------------------

/// A tensor of the given shape with every element equal to `c`.
pub open spec fn const_tensor<T>(shape: Seq<usize>, c: T) -> TensorModel<T> {
    TensorModel {
        shape,
        data: Seq::new(
            (if shape_product(shape) >= 0 {
                shape_product(shape)
            } else {
                0
            }) as nat,
            |i: int| c,
        ),
    }
}

/// Pad one dimension: concatenate a block of `lo` constant slices before and
/// `hi` after along dimension `k`.
pub open spec fn pad_step<T>(t: TensorModel<T>, k: usize, lo: usize, hi: usize, c: T) -> Result<
    TensorModel<T>,
    OpError,
> {
    let lo_m = const_tensor(t.shape.update(k as int, lo), c);
    let hi_m = const_tensor(t.shape.update(k as int, hi), c);
    match crate::ops::concat2_spec(lo_m, t, k) {
        Err(e) => Err(e),
        Ok(mid) => crate::ops::concat2_spec(mid, hi_m, k),
    }
}

/// Pad the dimensions from `k` on, in order.
pub open spec fn pad_fold<T>(
    t: TensorModel<T>,
    pads: Seq<i32>,
    c: T,
    n: int,
    k: int,
) -> Result<TensorModel<T>, OpError>
    decreases n - k,
{
    if k < 0 || k >= n {
        Ok(t)
    } else {
        match pad_step(t, k as usize, pads[k] as usize, pads[n + k] as usize, c) {
            Err(e) => Err(e),
            Ok(t2) => pad_fold(t2, pads, c, n, k + 1),
        }
    }
}

/// The exact result of padding `t` with the padding vector `p`: `p` must be
/// a vector of one leading and one trailing amount per dimension, all
/// non-negative; every added element holds `c`.
pub open spec fn pad_spec<T>(t: TensorModel<T>, p: TensorModel<i32>, c: T) -> Result<
    TensorModel<T>,
    OpError,
> {
    if p.shape.len() != 1 || p.shape[0] != 2 * t.shape.len() {
        Err(OpError::InvalidValue("padding should be vector of length 2 * input dimensions"))
    } else if exists|j: int| 0 <= j < p.data.len() && #[trigger] p.data[j] < 0 {
        Err(OpError::InvalidValue("Pad only supports positive pads"))
    } else {
        pad_fold(t, p.data, c, t.shape.len() as int, 0)
    }
}

/// The shape after padding: each dimension grows by its leading and
/// trailing amounts.
pub open spec fn padded_shape_of(shape: Seq<usize>, pads: Seq<i32>) -> Seq<usize> {
    Seq::new(shape.len(), |k: int| (pads[k] + shape[k] + pads[shape.len() + k]) as usize)
}

/// A pointwise-smaller shape has a product no larger.
proof fn lemma_shape_product_monotone(a: Seq<usize>, b: Seq<usize>)
    requires
        a.len() == b.len(),
        forall|j: int| 0 <= j < a.len() ==> a[j] <= b[j],
    ensures
        shape_product(a) <= shape_product(b),
    decreases a.len(),
{
    if a.len() > 0 {
        assert forall|j: int| 0 <= j < a.skip(1).len() implies a.skip(1)[j] <= b.skip(1)[j] by {
            assert(a.skip(1)[j] == a[j + 1]);
            assert(b.skip(1)[j] == b[j + 1]);
        }
        lemma_shape_product_monotone(a.skip(1), b.skip(1));
        lemma_shape_product_nonneg(a.skip(1));
        assert(a[0] * shape_product(a.skip(1)) <= b[0] * shape_product(b.skip(1)))
            by (nonlinear_arith)
            requires
                a[0] <= b[0],
                shape_product(a.skip(1)) <= shape_product(b.skip(1)),
                shape_product(a.skip(1)) >= 0,
                a[0] >= 0,
        ;
    }
}

/// Pad `input` with `const_val` according to the padding vector, which
/// holds one leading amount per dimension followed by one trailing amount
/// per dimension.
pub fn pad<T: Copy>(input: &Tensor<T>, padding: &Tensor<i32>, const_val: T) -> (r: Result<
    Tensor<T>,
    OpError,
>)
    requires
        forall|k: int|
            0 <= k < input@.shape.len() ==> padding@.data.len() == 2 * input@.shape.len() ==> (0
                <= #[trigger] padding@.data[k] ==> 0 <= padding@.data[k + input@.shape.len()]
                ==> padding@.data[k] + input@.shape[k] + padding@.data[k + input@.shape.len()]
                <= usize::MAX),
        shape_product(padded_shape_of(input@.shape, padding@.data)) <= usize::MAX,
    ensures
        match r {
            Ok(t) => pad_spec(input@, padding@, const_val) == Ok::<TensorModel<T>, OpError>(t@),
            Err(e) => pad_spec(input@, padding@, const_val) == Err::<TensorModel<T>, OpError>(e),
        },
{
    proof {
        use_type_invariant(input);
        use_type_invariant(padding);
    }
    let ndim = input.ndim();
    let pshape = padding.shape();
    if pshape.len() != 1 || ndim > usize::MAX / 2 || pshape[0] != 2 * ndim {
        proof {
            if padding@.shape.len() == 1 && padding@.shape[0] == 2 * input@.shape.len() {
                assert(2 * input@.shape.len() <= usize::MAX);
                assert(input@.shape.len() <= usize::MAX / 2) by (nonlinear_arith)
                    requires
                        2 * input@.shape.len() <= usize::MAX,
                ;
            }
        }
        return Err(
            OpError::InvalidValue("padding should be vector of length 2 * input dimensions"),
        );
    }
    let pdata = padding.data();
    let pad_count = pdata.len();
    proof {
        crate::tensor::lemma_shape_product_single(padding@.shape[0]);
        assert(padding@.shape =~= seq![padding@.shape[0]]);
        assert(padding@.data.len() == 2 * input@.shape.len());
    }
    let mut j: usize = 0;
    while j < pad_count
        invariant
            j <= pad_count,
            pad_count == padding@.data.len(),
            pdata@ == padding@.data,
            padding@.shape.len() == 1,
            padding@.shape[0] == 2 * input@.shape.len(),
            forall|x: int| 0 <= x < j ==> #[trigger] padding@.data[x] >= 0,
        decreases pad_count - j,
    {
        if pdata[j] < 0 {
            return Err(OpError::InvalidValue("Pad only supports positive pads"));
        }
        j = j + 1;
    }

    let ghost pads = padding@.data;
    let ghost n = input@.shape.len() as int;
    let ghost target = padded_shape_of(input@.shape, pads);

    let mut cur = input.duplicate();
    let mut k: usize = 0;
    while k < ndim
        invariant
            k <= ndim,
            ndim == input@.shape.len(),
            ndim <= usize::MAX / 2,
            pads == padding@.data,
            pdata@ == pads,
            pad_count == pads.len(),
            pads.len() == 2 * ndim,
            forall|x: int| 0 <= x < pads.len() ==> #[trigger] pads[x] >= 0,
            forall|x: int|
                0 <= x < ndim ==> pads[x] + input@.shape[x] + pads[x + ndim] <= usize::MAX,
            target == padded_shape_of(input@.shape, pads),
            shape_product(target) <= usize::MAX,
            n == ndim,
            cur@.shape.len() == ndim,
            forall|x: int|
                0 <= x < ndim ==> cur@.shape[x] == (if x < k {
                    target[x]
                } else {
                    input@.shape[x]
                }),
            pad_fold(input@, pads, const_val, n, 0) == pad_fold(cur@, pads, const_val, n, k as int),
        decreases ndim - k,
    {
        proof {
            use_type_invariant(&cur);
            assert(forall|x: int| 0 <= x < ndim ==> #[trigger] cur@.shape[x] <= target[x]);
        }
        let lo = pdata[k] as usize;
        let hi = pdata[ndim + k] as usize;

        let mut lo_shape = cur.shape_clone();
        lo_shape.set(k, lo);
        let mut hi_shape = cur.shape_clone();
        hi_shape.set(k, hi);
        proof {
            assert(lo_shape@ =~= cur@.shape.update(k as int, lo));
            assert(hi_shape@ =~= cur@.shape.update(k as int, hi));
            assert forall|x: int| 0 <= x < ndim implies lo_shape@[x] <= target[x] by {
                if x == k {
                    assert(target[x] == (pads[x] + input@.shape[x] + pads[x + ndim]) as usize);
                }
            }
            assert forall|x: int| 0 <= x < ndim implies hi_shape@[x] <= target[x] by {
                if x == k {
                    assert(target[x] == (pads[x] + input@.shape[x] + pads[x + ndim]) as usize);
                }
            }
            lemma_shape_product_monotone(lo_shape@, target);
            lemma_shape_product_monotone(hi_shape@, target);
            lemma_shape_product_nonneg(lo_shape@);
            lemma_shape_product_nonneg(hi_shape@);
        }
        let lo_t = Tensor::filled(lo_shape, const_val);
        let hi_t = Tensor::filled(hi_shape, const_val);
        proof {
            let lo_m = const_tensor(cur@.shape.update(k as int, lo), const_val);
            let hi_m = const_tensor(cur@.shape.update(k as int, hi), const_val);
            assert(lo_t@.shape == lo_m.shape);
            assert(lo_t@.data =~= lo_m.data);
            assert(hi_t@.shape == hi_m.shape);
            assert(hi_t@.data =~= hi_m.data);
            assert(lo_t@ == lo_m);
            assert(hi_t@ == hi_m);
        }
        let mid = match crate::ops::concat(&lo_t, &cur, k) {
            Ok(t) => t,
            Err(e) => {
                proof {
                    // Shapes agree on every dimension but `k`, and the
                    // concatenated extent fits, so concatenation succeeds.
                    assert(lo + cur@.shape[k as int] <= usize::MAX);
                    assert(false);
                }
                return Err(e);
            },
        };
        let next = match crate::ops::concat(&mid, &hi_t, k) {
            Ok(t) => t,
            Err(e) => {
                proof {
                    assert(mid@.shape.len() == ndim);
                    assert(mid@.shape[k as int] + hi <= usize::MAX);
                    assert(false);
                }
                return Err(e);
            },
        };
        proof {
            assert(pad_step(cur@, k, lo, hi, const_val) == Ok::<TensorModel<T>, OpError>(next@));
            assert(pad_fold(cur@, pads, const_val, n, k as int) == pad_fold(
                next@,
                pads,
                const_val,
                n,
                k + 1,
            ));
            // The shape after this step has dimension `k` padded.
            assert forall|x: int|
                0 <= x < ndim implies next@.shape[x] == (if x < k + 1 {
                target[x]
            } else {
                input@.shape[x]
            }) by {
                if x == k {
                    assert(target[x] == (pads[x] + input@.shape[x] + pads[x + ndim]) as usize);
                }
            }
        }
        cur = next;
        k = k + 1;
    }
    proof {
        assert(pad_fold(cur@, pads, const_val, n, ndim as int) == Ok::<TensorModel<T>, OpError>(
            cur@,
        ));
    }
    Ok(cur)
}

// ---------------------------------------------------------------------------
// Operator wrappers
// ---------------------------------------------------------------------------

/// Gathers chunks of its first input along `axis` as selected by its second
/// input.
pub struct Gather {
    pub axis: usize,
}

impl crate::ops::Operator for Gather {
    fn can_run_in_place(&self) -> (r: bool) {
        false
    }

    open spec fn run_spec(&self, inputs: Seq<TensorModel<i32>>) -> Result<
        TensorModel<i32>,
        OpError,
    > {
        if inputs.len() < 2 {
            Err(OpError::MissingInputs)
        } else {
            gather_spec(inputs[0], self.axis, inputs[1])
        }
    }

    fn name(&self) -> &'static str {
        "Gather"
    }

    fn run(&self, inputs: &[Tensor<i32>]) -> (r: Result<Tensor<i32>, OpError>) {
        if inputs.len() < 2 {
            return Err(OpError::MissingInputs);
        }
        gather(&inputs[0], self.axis, &inputs[1])
    }

    fn run_in_place(&self, input: Tensor<i32>, rest: &[Tensor<i32>]) -> (r: Result<
        Tensor<i32>,
        OpError,
    >) {
        Ok(input)
    }
}

/// Reshapes its first input to the shape given by its second input.
pub struct Reshape {}

impl crate::ops::Operator for Reshape {
    fn can_run_in_place(&self) -> (r: bool) {
        false
    }

    open spec fn run_spec(&self, inputs: Seq<TensorModel<i32>>) -> Result<
        TensorModel<i32>,
        OpError,
    > {
        if inputs.len() < 2 {
            Err(OpError::MissingInputs)
        } else {
            match reshape_shape(inputs[1].data, inputs[0].data.len() as int) {
                Ok(sh) => Ok(TensorModel { shape: sh, data: inputs[0].data }),
                Err(e) => Err(e),
            }
        }
    }

    fn name(&self) -> &'static str {
        "Reshape"
    }

    fn run(&self, inputs: &[Tensor<i32>]) -> (r: Result<Tensor<i32>, OpError>) {
        if inputs.len() < 2 {
            return Err(OpError::MissingInputs);
        }
        reshape(&inputs[0], &inputs[1])
    }

    fn run_in_place(&self, input: Tensor<i32>, rest: &[Tensor<i32>]) -> (r: Result<
        Tensor<i32>,
        OpError,
    >) {
        Ok(input)
    }
}

/// Returns the shape of its input as a vector.
pub struct Shape {}

impl crate::ops::Operator for Shape {
    fn can_run_in_place(&self) -> (r: bool) {
        false
    }

    open spec fn run_spec(&self, inputs: Seq<TensorModel<i32>>) -> Result<
        TensorModel<i32>,
        OpError,
    > {
        if inputs.len() < 1 {
            Err(OpError::MissingInputs)
        } else {
            Ok(
                TensorModel {
                    shape: seq![inputs[0].shape.len() as usize],
                    data: Seq::new(inputs[0].shape.len(), |k: int| inputs[0].shape[k] as i32),
                },
            )
        }
    }

    fn name(&self) -> &'static str {
        "Shape"
    }

    fn run(&self, inputs: &[Tensor<i32>]) -> (r: Result<Tensor<i32>, OpError>) {
        if inputs.len() < 1 {
            return Err(OpError::MissingInputs);
        }
        let shape = inputs[0].shape();
        let mut data: Vec<i32> = Vec::new();
        let mut i: usize = 0;
        while i < shape.len()
            invariant
                i <= shape@.len(),
                data@.len() == i,
                forall|k: int| 0 <= k < i ==> data@[k] == shape@[k] as i32,
            decreases shape@.len() - i,
        {
            #[verifier::truncate]
            let v = shape[i] as i32;
            data.push(v);
            i = i + 1;
        }
        let r = Tensor::from_vec(data);
        proof {
            assert(r@.data =~= Seq::new(inputs@[0]@.shape.len(), |k: int| inputs@[0]@.shape[k] as i32));
            assert(r@.shape =~= seq![inputs@[0]@.shape.len() as usize]);
        }
        Ok(r)
    }

    fn run_in_place(&self, input: Tensor<i32>, rest: &[Tensor<i32>]) -> (r: Result<
        Tensor<i32>,
        OpError,
    >) {
        Ok(input)
    }
}

/// Produces a tensor of the shape given by its input, filled with a
/// constant.
pub struct ConstantOfShape {
    pub value: i32,
}

impl crate::ops::Operator for ConstantOfShape {
    fn can_run_in_place(&self) -> (r: bool) {
        false
    }

    open spec fn run_spec(&self, inputs: Seq<TensorModel<i32>>) -> Result<
        TensorModel<i32>,
        OpError,
    > {
        if inputs.len() < 1 {
            Err(OpError::MissingInputs)
        } else {
            let sh = Seq::new(inputs[0].data.len(), |k: int| inputs[0].data[k] as usize);
            if shape_product(sh) > usize::MAX {
                Err(OpError::UnsupportedValue("Output size is too large"))
            } else {
                Ok(const_tensor(sh, self.value))
            }
        }
    }

    fn name(&self) -> &'static str {
        "ConstantOfShape"
    }

    fn run(&self, inputs: &[Tensor<i32>]) -> (r: Result<Tensor<i32>, OpError>) {
        if inputs.len() < 1 {
            return Err(OpError::MissingInputs);
        }
        let ghost shg = Seq::new(inputs@[0]@.data.len(), |k: int| inputs@[0]@.data[k] as usize);
        let idata = inputs[0].data();
        let mut shape: Vec<usize> = Vec::new();
        let mut i: usize = 0;
        while i < idata.len()
            invariant
                i <= idata@.len(),
                idata@ == inputs@[0]@.data,
                shg == Seq::new(inputs@[0]@.data.len(), |k: int| inputs@[0]@.data[k] as usize),
                shape@.len() == i,
                forall|k: int| 0 <= k < i ==> shape@[k] == shg[k],
            decreases idata@.len() - i,
        {
            #[verifier::truncate]
            let v = idata[i] as usize;
            shape.push(v);
            i = i + 1;
        }
        proof {
            assert(shape@ =~= shg);
        }
        match crate::tensor::shape_len_capped(&shape) {
            Some(_) => {
                let r = Tensor::filled(shape, self.value);
                proof {
                    assert(r@.data =~= const_tensor(shg, self.value).data);
                    assert(r@ == const_tensor(shg, self.value));
                }
                Ok(r)
            },
            None => Err(OpError::UnsupportedValue("Output size is too large")),
        }
    }

    fn run_in_place(&self, input: Tensor<i32>, rest: &[Tensor<i32>]) -> (r: Result<
        Tensor<i32>,
        OpError,
    >) {
        Ok(input)
    }
}

/// Removes dimensions from its input's shape: the configured axes, which
/// must have size one, or with no axes every size-one dimension.
pub struct Squeeze {
    pub axes: Option<Vec<usize>>,
}

impl crate::ops::Operator for Squeeze {
    fn can_run_in_place(&self) -> (r: bool) {
        false
    }

    open spec fn run_spec(&self, inputs: Seq<TensorModel<i32>>) -> Result<
        TensorModel<i32>,
        OpError,
    > {
        if inputs.len() < 1 {
            Err(OpError::MissingInputs)
        } else if (match self.axes {
            Some(a) => exists|d: int|
                0 <= d < inputs[0].shape.len() && a@.contains(d as usize) && #[trigger] inputs[0].shape[d]
                    != 1,
            None => false,
        }) {
            Err(OpError::InvalidValue("Can only remove dimensions of size 1"))
        } else {
            Ok(
                TensorModel {
                    shape: squeeze_shape(
                        inputs[0].shape,
                        match self.axes {
                            Some(a) => Some(a@),
                            None => None,
                        },
                        0,
                    ),
                    data: inputs[0].data,
                },
            )
        }
    }

    fn name(&self) -> &'static str {
        "Squeeze"
    }

    fn run(&self, inputs: &[Tensor<i32>]) -> (r: Result<Tensor<i32>, OpError>) {
        if inputs.len() < 1 {
            return Err(OpError::MissingInputs);
        }
        let first = &inputs[0];
        proof {
            use_type_invariant(first);
        }
        let shape = first.shape();
        let ndim = shape.len();
        match &self.axes {
            Some(a) => {
                let mut d: usize = 0;
                while d < ndim
                    invariant
                        d <= ndim,
                        inputs@.len() >= 1,
                        first@ == crate::ops::models(inputs@)[0],
                        ndim == first@.shape.len(),
                        shape@ == first@.shape,
                        self.axes matches Some(ax) && ax@ == a@,
                        forall|j: int|
                            0 <= j < d && a@.contains(j as usize) ==> #[trigger] first@.shape[j]
                                == 1,
                    decreases ndim - d,
                {
                    if contains_dim(a.as_slice(), d) && shape[d] != 1 {
                        return Err(OpError::InvalidValue("Can only remove dimensions of size 1"));
                    }
                    d = d + 1;
                }
                Ok(squeeze(first, Some(a.as_slice())))
            },
            None => Ok(squeeze(first, None)),
        }
    }

    fn run_in_place(&self, input: Tensor<i32>, rest: &[Tensor<i32>]) -> (r: Result<
        Tensor<i32>,
        OpError,
    >) {
        Ok(input)
    }
}

/// Re-orders its input's dimensions: by the configured permutation, or with
/// none, reverses them.
pub struct Transpose {
    /// The order of the transposed dimensions. If omitted, the dimensions
    /// are reversed.
    pub perm: Option<Vec<usize>>,
}

impl crate::ops::Operator for Transpose {
    fn can_run_in_place(&self) -> (r: bool) {
        false
    }

    open spec fn run_spec(&self, inputs: Seq<TensorModel<i32>>) -> Result<
        TensorModel<i32>,
        OpError,
    > {
        if inputs.len() < 1 {
            Err(OpError::MissingInputs)
        } else if (match self.perm {
            Some(p) => !perm_ok(p@, inputs[0].shape.len() as int),
            None => false,
        }) {
            Err(OpError::InvalidValue("Permutation is invalid for the input shape"))
        } else {
            Ok(
                transpose_model(
                    inputs[0],
                    match self.perm {
                        Some(p) => p@,
                        None => reversed_perm(inputs[0].shape.len() as int),
                    },
                ),
            )
        }
    }

    fn name(&self) -> &'static str {
        "Transpose"
    }

    fn run(&self, inputs: &[Tensor<i32>]) -> (r: Result<Tensor<i32>, OpError>) {
        if inputs.len() < 1 {
            return Err(OpError::MissingInputs);
        }
        let first = &inputs[0];
        proof {
            use_type_invariant(first);
        }
        let ndim = first.ndim();
        match &self.perm {
            Some(p) => {
                if p.len() != ndim {
                    return Err(OpError::InvalidValue("Permutation is invalid for the input shape"));
                }
                let mut j1: usize = 0;
                while j1 < p.len()
                    invariant
                        j1 <= p@.len(),
                        inputs@.len() >= 1,
                        first@ == crate::ops::models(inputs@)[0],
                        ndim == first@.shape.len(),
                        p@.len() == ndim,
                        self.perm matches Some(px) && px@ == p@,
                        forall|a: int| 0 <= a < j1 ==> (#[trigger] p@[a]) < ndim,
                        forall|a: int, b: int| 0 <= a < b < j1 ==> p@[a] != p@[b],
                    decreases p@.len() - j1,
                {
                    if p[j1] >= ndim {
                        return Err(
                            OpError::InvalidValue("Permutation is invalid for the input shape"),
                        );
                    }
                    let mut j2: usize = 0;
                    while j2 < j1
                        invariant
                            j2 <= j1 < p@.len(),
                            inputs@.len() >= 1,
                            first@ == crate::ops::models(inputs@)[0],
                            self.perm matches Some(px) && px@ == p@,
                            ndim == first@.shape.len(),
                            p@.len() == ndim,
                            forall|a: int| 0 <= a < j1 ==> (#[trigger] p@[a]) < ndim,
                            forall|a: int, b: int| 0 <= a < b < j1 ==> p@[a] != p@[b],
                            forall|a: int| 0 <= a < j2 ==> p@[a] != p@[j1 as int],
                        decreases j1 - j2,
                    {
                        if p[j2] == p[j1] {
                            return Err(
                                OpError::InvalidValue(
                                    "Permutation is invalid for the input shape",
                                ),
                            );
                        }
                        j2 = j2 + 1;
                    }
                    j1 = j1 + 1;
                }
                proof {
                    assert(perm_ok(p@, first@.shape.len() as int));
                }
                Ok(transpose(first, Some(p.as_slice())))
            },
            None => Ok(transpose(first, None)),
        }
    }

    fn run_in_place(&self, input: Tensor<i32>, rest: &[Tensor<i32>]) -> (r: Result<
        Tensor<i32>,
        OpError,
    >) {
        Ok(input)
    }
}

/// Pads its first input with the amounts given by its second input and an
/// optional constant value given by a one-element third input.
pub struct Pad {}

impl crate::ops::Operator for Pad {
    fn can_run_in_place(&self) -> (r: bool) {
        false
    }

    open spec fn run_spec(&self, inputs: Seq<TensorModel<i32>>) -> Result<
        TensorModel<i32>,
        OpError,
    > {
        if inputs.len() < 2 {
            Err(OpError::MissingInputs)
        } else if inputs.len() >= 4 {
            Err(OpError::UnsupportedValue("Pad operator does not yet support `axes` input"))
        } else if inputs.len() == 3 && inputs[2].data.len() != 1 {
            Err(OpError::InvalidValue("Expected scalar value"))
        } else {
            let t = inputs[0];
            let p = inputs[1];
            let c = if inputs.len() == 3 {
                inputs[2].data[0]
            } else {
                0i32
            };
            if p.shape.len() == 1 && p.shape[0] == 2 * t.shape.len() && (forall|j: int|
                0 <= j < p.data.len() ==> #[trigger] p.data[j] >= 0) && !((forall|k: int|
                0 <= k < t.shape.len() ==> p.data[k] + t.shape[k] + p.data[k + t.shape.len()]
                    <= usize::MAX) && shape_product(padded_shape_of(t.shape, p.data))
                <= usize::MAX) {
                Err(OpError::UnsupportedValue("Output size is too large"))
            } else {
                pad_spec(t, p, c)
            }
        }
    }

    fn name(&self) -> &'static str {
        "Pad"
    }

    #[verifier::rlimit(100)]
    fn run(&self, inputs: &[Tensor<i32>]) -> (r: Result<Tensor<i32>, OpError>) {
        if inputs.len() < 2 {
            return Err(OpError::MissingInputs);
        }
        if inputs.len() >= 4 {
            return Err(OpError::UnsupportedValue("Pad operator does not yet support `axes` input"));
        }
        let const_val: i32 = if inputs.len() == 3 {
            match extract_scalar(&inputs[2]) {
                Ok(v) => v,
                Err(e) => {
                    return Err(e);
                },
            }
        } else {
            0
        };
        let input = &inputs[0];
        let padding = &inputs[1];
        proof {
            use_type_invariant(input);
            use_type_invariant(padding);
        }

        // Repeat the padding-vector checks so the size guard below only
        // runs on a well-formed request.
        let ndim = input.ndim();
        let pshape = padding.shape();
        if pshape.len() != 1 || ndim > usize::MAX / 2 || pshape[0] != 2 * ndim {
            proof {
                lemma_pad_vector_error(input@, padding@, const_val);
            }
            return Err(
                OpError::InvalidValue("padding should be vector of length 2 * input dimensions"),
            );
        }
        let pdata = padding.data();
        let pad_count = pdata.len();
        proof {
            crate::tensor::lemma_shape_product_single(padding@.shape[0]);
            assert(padding@.shape =~= seq![padding@.shape[0]]);
        }
        let mut j: usize = 0;
        while j < pad_count
            invariant
                j <= pad_count,
                pad_count == padding@.data.len(),
                pdata@ == padding@.data,
                padding@.shape.len() == 1,
                padding@.shape[0] == 2 * input@.shape.len(),
                inputs@.len() >= 2,
                inputs@.len() < 4,
                input@ == crate::ops::models(inputs@)[0],
                padding@ == crate::ops::models(inputs@)[1],
                inputs@.len() == 3 ==> crate::ops::models(inputs@)[2].data.len() == 1
                    && const_val == crate::ops::models(inputs@)[2].data[0],
                inputs@.len() == 2 ==> const_val == 0,
                forall|x: int| 0 <= x < j ==> #[trigger] padding@.data[x] >= 0,
            decreases pad_count - j,
        {
            if pdata[j] < 0 {
                return Err(OpError::InvalidValue("Pad only supports positive pads"));
            }
            j = j + 1;
        }

        // Guard the machine limits: each padded extent and the whole output
        // must fit in usize.
        let in_shape = input.shape();
        let mut padded: Vec<usize> = Vec::new();
        let mut k: usize = 0;
        while k < ndim
            invariant
                k <= ndim,
                ndim == input@.shape.len(),
                ndim <= usize::MAX / 2,
                in_shape@ == input@.shape,
                pdata@ == padding@.data,
                padding@.shape.len() == 1,
                padding@.shape[0] == 2 * input@.shape.len(),
                padding@.data.len() == 2 * ndim,
                inputs@.len() >= 2,
                inputs@.len() < 4,
                input@ == crate::ops::models(inputs@)[0],
                padding@ == crate::ops::models(inputs@)[1],
                inputs@.len() == 3 ==> crate::ops::models(inputs@)[2].data.len() == 1
                    && const_val == crate::ops::models(inputs@)[2].data[0],
                inputs@.len() == 2 ==> const_val == 0,
                forall|x: int| 0 <= x < padding@.data.len() ==> #[trigger] padding@.data[x] >= 0,
                padded@.len() == k,
                forall|x: int|
                    0 <= x < k ==> padded@[x] == padded_shape_of(input@.shape, padding@.data)[x]
                        && padding@.data[x] + input@.shape[x] + padding@.data[x + ndim]
                        <= usize::MAX,
            decreases ndim - k,
        {
            let lo = pdata[k] as usize;
            let hi = pdata[ndim + k] as usize;
            let dim = in_shape[k];
            proof {
                assert(padding@.data[k as int] >= 0);
                assert(padding@.data[k + ndim] >= 0);
                assert(lo == padding@.data[k as int]);
                assert(hi == padding@.data[k + ndim]);
            }
            if lo > usize::MAX - dim || lo + dim > usize::MAX - hi {
                return Err(OpError::UnsupportedValue("Output size is too large"));
            }
            proof {
                assert(padded_shape_of(input@.shape, padding@.data)[k as int] == (padding@.data[
                    k as int
                ] + input@.shape[k as int] + padding@.data[k + ndim]) as usize);
            }
            padded.push(lo + dim + hi);
            k = k + 1;
        }
        proof {
            assert(padded@ =~= padded_shape_of(input@.shape, padding@.data));
            assert(k == ndim);
            assert forall|k2: int|
                0 <= k2 < input@.shape.len() implies padding@.data[k2] + input@.shape[k2]
                + padding@.data[k2 + input@.shape.len()] <= usize::MAX by {
                assert(0 <= k2 < k);
                assert(padded@[k2] == padded_shape_of(input@.shape, padding@.data)[k2]);
                assert(padding@.data[k2] + input@.shape[k2] + padding@.data[k2 + ndim]
                    <= usize::MAX);
            }
        }
        match crate::tensor::shape_len_capped(&padded) {
            Some(_) => {
                proof {
                    assert(shape_product(padded_shape_of(input@.shape, padding@.data))
                        <= usize::MAX);
                }
                match pad(input, padding, const_val) {
                    Ok(t) => Ok(t),
                    Err(e) => Err(e),
                }
            },
            None => Err(OpError::UnsupportedValue("Output size is too large")),
        }
    }

    fn run_in_place(&self, input: Tensor<i32>, rest: &[Tensor<i32>]) -> (r: Result<
        Tensor<i32>,
        OpError,
    >) {
        Ok(input)
    }
}

/// A padding vector of the wrong shape yields the length error.
proof fn lemma_pad_vector_error(t: TensorModel<i32>, p: TensorModel<i32>, c: i32)
    requires
        !(p.shape.len() == 1 && p.shape[0] == 2 * t.shape.len()),
    ensures
        pad_spec(t, p, c) == Err::<TensorModel<i32>, OpError>(
            OpError::InvalidValue("padding should be vector of length 2 * input dimensions"),
        ),
{
}

/// Bounded sorted axes are a valid unsqueeze request.
proof fn lemma_valid_unsqueeze_from_bounds(shape: Seq<usize>, s: Seq<usize>)
    requires
        forall|k: int| 0 <= k < s.len() ==> (#[trigger] s[k]) <= shape.len() + k,
    ensures
        valid_unsqueeze(shape, s),
    decreases s.len(),
{
    if s.len() > 0 {
        assert(s.drop_last() =~= s.take(s.len() - 1));
        assert forall|k: int|
            0 <= k < s.drop_last().len() implies (#[trigger] s.drop_last()[k]) <= shape.len()
            + k by {
            assert(s.drop_last()[k] == s[k]);
        }
        lemma_valid_unsqueeze_from_bounds(shape, s.drop_last());
        assert(s.last() == s[s.len() - 1]);
    }
}

/// Inserts a size-one dimension at each of the configured axes, applied in
/// ascending order.
pub struct Unsqueeze {
    pub axes: Vec<usize>,
}

impl crate::ops::Operator for Unsqueeze {
    fn can_run_in_place(&self) -> (r: bool) {
        false
    }

    open spec fn run_spec(&self, inputs: Seq<TensorModel<i32>>) -> Result<
        TensorModel<i32>,
        OpError,
    > {
        if inputs.len() < 1 {
            Err(OpError::MissingInputs)
        } else if self.axes@.len() + inputs[0].shape.len() > usize::MAX {
            Err(OpError::UnsupportedValue("Output size is too large"))
        } else if !valid_unsqueeze(inputs[0].shape, sort_axes(self.axes@)) {
            Err(OpError::InvalidValue("Axes are invalid for the input rank"))
        } else {
            Ok(
                TensorModel {
                    shape: unsqueeze_shape(inputs[0].shape, sort_axes(self.axes@)),
                    data: inputs[0].data,
                },
            )
        }
    }

    fn name(&self) -> &'static str {
        "Unsqueeze"
    }

    fn run(&self, inputs: &[Tensor<i32>]) -> (r: Result<Tensor<i32>, OpError>) {
        if inputs.len() < 1 {
            return Err(OpError::MissingInputs);
        }
        let first = &inputs[0];
        proof {
            use_type_invariant(first);
        }
        let ndim = first.ndim();
        if self.axes.len() > usize::MAX - ndim {
            return Err(OpError::UnsupportedValue("Output size is too large"));
        }
        // Each axis, taken in ascending order, must lie within the shape as
        // extended by the insertions made before it.
        let sorted = sorted_axes_vec(self.axes.as_slice());
        let mut k: usize = 0;
        while k < sorted.len()
            invariant
                k <= sorted@.len(),
                inputs@.len() >= 1,
                first@ == crate::ops::models(inputs@)[0],
                ndim == first@.shape.len(),
                sorted@ == sort_axes(self.axes@),
                sorted@.len() == self.axes@.len(),
                self.axes@.len() + ndim <= usize::MAX,
                forall|x: int| 0 <= x < k ==> (#[trigger] sorted@[x]) <= ndim + x,
            decreases sorted@.len() - k,
        {
            let a = sorted[k];
            if a >= ndim && a - ndim > k {
                proof {
                    // A valid request would bound this axis.
                    if valid_unsqueeze(first@.shape, sorted@) {
                        lemma_valid_unsqueeze_prefix(first@.shape, sorted@, k + 1);
                    }
                }
                return Err(OpError::InvalidValue("Axes are invalid for the input rank"));
            }
            k = k + 1;
        }
        proof {
            lemma_valid_unsqueeze_from_bounds(first@.shape, sorted@);
        }
        Ok(unsqueeze(first, self.axes.as_slice()))
    }

    fn run_in_place(&self, input: Tensor<i32>, rest: &[Tensor<i32>]) -> (r: Result<
        Tensor<i32>,
        OpError,
    >) {
        Ok(input)
    }
}

} // verus!
