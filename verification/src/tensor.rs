//! An n-dimensional array type with a row-major contiguous layout.
//!
//! A tensor pairs a shape with a flat data buffer whose length equals the
//! product of the dimensions. All operator kernels in this crate work over
//! this representation.

use vstd::prelude::*;

verus! {

/// Mathematical model of a tensor: its shape and its elements in row-major
/// order.
pub ghost struct TensorModel<T> {
    pub shape: Seq<usize>,
    pub data: Seq<T>,
}

/// Product of all dimensions of a shape.
pub open spec fn shape_product(s: Seq<usize>) -> int
    decreases s.len(),
{
    if s.len() == 0 {
        1
    } else {
        s[0] * shape_product(s.skip(1))
    }
}

pub proof fn lemma_shape_product_single(d: usize)
    ensures
        shape_product(seq![d]) == d,
{
    assert(seq![d].skip(1) =~= Seq::<usize>::empty());
    assert(seq![d][0] == d);
    assert(shape_product(Seq::<usize>::empty()) == 1);
}

/// A tensor model is well formed when its buffer length matches its shape.
pub open spec fn tensor_wf<T>(m: TensorModel<T>) -> bool {
    m.data.len() == shape_product(m.shape)
}

pub proof fn lemma_shape_product_push(s: Seq<usize>, d: usize)
    ensures
        shape_product(s.push(d)) == shape_product(s) * d,
    decreases s.len(),
{
    if s.len() == 0 {
        assert(s.push(d).skip(1) =~= Seq::<usize>::empty());
        assert(s.push(d)[0] == d);
        assert(shape_product(Seq::<usize>::empty()) == 1);
    } else {
        assert(s.push(d).skip(1) =~= s.skip(1).push(d));
        lemma_shape_product_push(s.skip(1), d);
        assert(s[0] * (shape_product(s.skip(1)) * d) == (s[0] * shape_product(s.skip(1))) * d)
            by (nonlinear_arith);
    }
}

pub proof fn lemma_shape_product_split(s: Seq<usize>, i: int)
    requires
        0 <= i <= s.len(),
    ensures
        shape_product(s) == shape_product(s.take(i)) * shape_product(s.skip(i)),
    decreases i,
{
    if i == 0 {
        assert(s.take(0) =~= Seq::<usize>::empty());
        assert(s.skip(0) =~= s);
    } else {
        lemma_shape_product_split(s.skip(1), i - 1);
        assert(s.take(i).skip(1) =~= s.skip(1).take(i - 1));
        assert(s.skip(i) =~= s.skip(1).skip(i - 1));
        assert(s[0] * (shape_product(s.skip(1).take(i - 1)) * shape_product(s.skip(1).skip(i - 1)))
            == (s[0] * shape_product(s.skip(1).take(i - 1))) * shape_product(s.skip(1).skip(i - 1)))
            by (nonlinear_arith);
        assert(shape_product(s.take(i)) == s[0] * shape_product(s.take(i).skip(1)));
    }
}

pub proof fn lemma_shape_product_zero(s: Seq<usize>, i: int)
    requires
        0 <= i < s.len(),
        s[i] == 0,
    ensures
        shape_product(s) == 0,
    decreases s.len(),
{
    if i == 0 {
    } else {
        lemma_shape_product_zero(s.skip(1), i - 1);
    }
}

pub proof fn lemma_shape_product_pos(s: Seq<usize>)
    requires
        forall|i: int| 0 <= i < s.len() ==> s[i] >= 1,
    ensures
        shape_product(s) >= 1,
    decreases s.len(),
{
    if s.len() > 0 {
        lemma_shape_product_pos(s.skip(1));
        assert(s[0] * shape_product(s.skip(1)) >= 1) by (nonlinear_arith)
            requires
                s[0] >= 1,
                shape_product(s.skip(1)) >= 1,
        ;
    }
}

/// An n-dimensional array of elements of type `T`, stored contiguously in
/// row-major order.
pub struct Tensor<T> {
    shape: Vec<usize>,
    data: Vec<T>,
}

impl<T> View for Tensor<T> {
    type V = TensorModel<T>;

    closed spec fn view(&self) -> TensorModel<T> {
        TensorModel { shape: self.shape@, data: self.data@ }
    }
}

impl<T> Tensor<T> {
    #[verifier::type_invariant]
    pub open spec fn inv(self) -> bool {
        tensor_wf(self@)
    }
}

impl<T: Copy> Tensor<T> {
    /// Create a tensor with the given shape from elements in row-major order.
    pub fn from_data(shape: Vec<usize>, data: Vec<T>) -> (r: Tensor<T>)
        requires
            data@.len() == shape_product(shape@),
        ensures
            r@.shape == shape@,
            r@.data == data@,
    {
        Tensor { shape, data }
    }

    /// Create a one-dimensional tensor from a vector of elements.
    pub fn from_vec(data: Vec<T>) -> (r: Tensor<T>)
        ensures
            r@.shape =~= seq![data@.len() as usize],
            r@.data == data@,
    {
        let ghost len = data@.len();
        let shape = vec![data.len()];
        proof {
            assert(shape@ =~= seq![len as usize]);
            lemma_shape_product_single(len as usize);
        }
        Tensor { shape, data }
    }

    /// Create a zero-dimensional tensor holding a single element.
    pub fn from_scalar(value: T) -> (r: Tensor<T>)
        ensures
            r@.shape =~= Seq::<usize>::empty(),
            r@.data =~= seq![value],
    {
        let shape: Vec<usize> = Vec::new();
        let data = vec![value];
        Tensor { shape, data }
    }

    /// Create a tensor of the given shape with every element set to `value`.
    pub fn filled(shape: Vec<usize>, value: T) -> (r: Tensor<T>)
        requires
            shape_product(shape@) <= usize::MAX,
        ensures
            r@.shape == shape@,
            r@.data.len() == shape_product(shape@),
            forall|i: int| 0 <= i < r@.data.len() ==> r@.data[i] == value,
    {
        let n = shape_len(&shape);
        let mut data: Vec<T> = Vec::new();
        let mut i: usize = 0;
        while i < n
            invariant
                i <= n,
                data@.len() == i,
                forall|j: int| 0 <= j < i ==> data@[j] == value,
            decreases n - i,
        {
            data.push(value);
            i = i + 1;
        }
        Tensor { shape, data }
    }

    /// The dimensions of the tensor.
    pub fn shape(&self) -> (r: &Vec<usize>)
        ensures
            r@ == self@.shape,
    {
        &self.shape
    }

    /// An owned copy of the dimensions of the tensor.
    pub fn shape_clone(&self) -> (r: Vec<usize>)
        ensures
            r@ == self@.shape,
    {
        let mut shape: Vec<usize> = Vec::new();
        let mut i: usize = 0;
        while i < self.shape.len()
            invariant
                i <= self.shape@.len(),
                shape@ =~= self.shape@.take(i as int),
            decreases self.shape@.len() - i,
        {
            shape.push(self.shape[i]);
            i = i + 1;
        }
        proof {
            assert(shape@ =~= self.shape@);
        }
        shape
    }

    /// The elements of the tensor in row-major order.
    pub fn data(&self) -> (r: &Vec<T>)
        ensures
            r@ == self@.data,
    {
        &self.data
    }

    /// The total number of elements.
    pub fn len(&self) -> (r: usize)
        ensures
            r == self@.data.len(),
    {
        self.data.len()
    }

    /// The number of dimensions.
    pub fn ndim(&self) -> (r: usize)
        ensures
            r == self@.shape.len(),
    {
        self.shape.len()
    }

    /// The element at flat index `i` in row-major order.
    pub fn at(&self, i: usize) -> (r: T)
        requires
            i < self@.data.len(),
        ensures
            r == self@.data[i as int],
    {
        self.data[i]
    }

    /// The single element of a one-element tensor, if there is one.
    pub fn item(&self) -> (r: Option<T>)
        ensures
            r == (if self@.data.len() == 1 {
                Some(self@.data[0])
            } else {
                None::<T>
            }),
    {
        if self.data.len() == 1 {
            Some(self.data[0])
        } else {
            None
        }
    }

    /// An element-for-element copy of this tensor.
    pub fn duplicate(&self) -> (r: Tensor<T>)
        ensures
            r@ == self@,
    {
        proof {
            use_type_invariant(self);
        }
        let mut shape: Vec<usize> = Vec::new();
        let mut i: usize = 0;
        while i < self.shape.len()
            invariant
                i <= self.shape@.len(),
                shape@ =~= self.shape@.take(i as int),
            decreases self.shape@.len() - i,
        {
            shape.push(self.shape[i]);
            i = i + 1;
        }
        let mut data: Vec<T> = Vec::new();
        let mut j: usize = 0;
        while j < self.data.len()
            invariant
                j <= self.data@.len(),
                data@ =~= self.data@.take(j as int),
            decreases self.data@.len() - j,
        {
            data.push(self.data[j]);
            j = j + 1;
        }
        proof {
            assert(shape@ =~= self.shape@);
            assert(data@ =~= self.data@);
        }
        Tensor { shape, data }
    }

    /// A copy of this tensor with a new shape holding the same number of
    /// elements.
    pub fn clone_with_shape(&self, shape: Vec<usize>) -> (r: Tensor<T>)
        requires
            shape_product(shape@) == self@.data.len(),
        ensures
            r@.shape == shape@,
            r@.data == self@.data,
    {
        let copy = self.duplicate();
        Tensor { shape, data: copy.data }
    }

    /// Replace the shape of the tensor; the new shape must describe the same
    /// number of elements.
    pub fn reshape(&mut self, shape: Vec<usize>)
        requires
            shape_product(shape@) == old(self)@.data.len(),
        ensures
            final(self)@.shape == shape@,
            final(self)@.data == old(self)@.data,
    {
        let mut s = shape;
        core::mem::swap(&mut s, &mut self.shape);
    }
}

/// A product of dimensions is never negative.
pub proof fn lemma_shape_product_nonneg(s: Seq<usize>)
    ensures
        shape_product(s) >= 0,
    decreases s.len(),
{
    if s.len() > 0 {
        lemma_shape_product_nonneg(s.skip(1));
        assert(s[0] * shape_product(s.skip(1)) >= 0) by (nonlinear_arith)
            requires
                s[0] >= 0,
                shape_product(s.skip(1)) >= 0,
        ;
    }
}

/// The product of two concatenated shapes is the product of the parts.
pub proof fn lemma_shape_product_concat(a: Seq<usize>, b: Seq<usize>)
    ensures
        shape_product(a + b) == shape_product(a) * shape_product(b),
    decreases a.len(),
{
    if a.len() == 0 {
        assert(a + b =~= b);
    } else {
        assert((a + b).skip(1) =~= a.skip(1) + b);
        lemma_shape_product_concat(a.skip(1), b);
        assert((a + b)[0] == a[0]);
        assert(a[0] * (shape_product(a.skip(1)) * shape_product(b)) == (a[0] * shape_product(
            a.skip(1),
        )) * shape_product(b)) by (nonlinear_arith);
    }
}

/// The product of the dimensions of a shape up to position `upto`.
pub fn prefix_product(shape: &Vec<usize>, upto: usize) -> (r: usize)
    requires
        upto <= shape@.len(),
        shape_product(shape@.take(upto as int)) <= usize::MAX,
        forall|j: int| 0 <= j < upto ==> shape@[j] >= 1,
    ensures
        r == shape_product(shape@.take(upto as int)),
{
    let mut acc: usize = 1;
    let mut k: usize = 0;
    proof {
        assert(shape@.take(0) =~= Seq::<usize>::empty());
    }
    while k < upto
        invariant
            k <= upto,
            upto <= shape@.len(),
            forall|j: int| 0 <= j < upto ==> shape@[j] >= 1,
            acc == shape_product(shape@.take(k as int)),
            shape_product(shape@.take(upto as int)) <= usize::MAX,
        decreases upto - k,
    {
        let ghost target = shape@.take(upto as int);
        proof {
            lemma_shape_product_split(target, k as int);
            lemma_shape_product_split(target.skip(k as int), 1);
            assert(target.take(k as int) =~= shape@.take(k as int));
            assert(target.skip(k as int).take(1) =~= seq![shape@[k as int]]);
            assert(target.skip(k as int).skip(1) =~= target.skip(k as int + 1));
            assert(forall|j: int| 0 <= j < target.len() ==> target[j] == shape@[j]);
            lemma_shape_product_pos(target.skip(k as int + 1));
            lemma_shape_product_single(shape@[k as int]);
            assert(shape_product(target)
                == (acc * shape@[k as int]) * shape_product(target.skip(k as int + 1)))
                by (nonlinear_arith)
                requires
                    shape_product(target) == shape_product(target.take(k as int)) * (shape@[
                        k as int
                    ] * shape_product(target.skip(k as int + 1))),
                    acc == shape_product(target.take(k as int)),
            ;
            assert(acc * shape@[k as int] <= shape_product(target)) by (nonlinear_arith)
                requires
                    shape_product(target) == (acc * shape@[k as int]) * shape_product(
                        target.skip(k as int + 1),
                    ),
                    shape_product(target.skip(k as int + 1)) >= 1,
                    acc >= 0,
                    shape@[k as int] >= 1,
            ;
            assert(shape@.take(k as int + 1) =~= shape@.take(k as int).push(shape@[k as int]));
            lemma_shape_product_push(shape@.take(k as int), shape@[k as int]);
        }
        acc = acc * shape[k];
        k = k + 1;
    }
    acc
}

/// The product of the dimensions of a shape from position `from` on.
pub fn suffix_product(shape: &Vec<usize>, from: usize) -> (r: usize)
    requires
        from <= shape@.len(),
        shape_product(shape@.skip(from as int)) <= usize::MAX,
        forall|j: int| from <= j < shape@.len() ==> shape@[j] >= 1,
    ensures
        r == shape_product(shape@.skip(from as int)),
{
    let ghost suffix = shape@.skip(from as int);
    let mut acc: usize = 1;
    let mut k: usize = from;
    proof {
        assert(suffix.take(0) =~= Seq::<usize>::empty());
    }
    while k < shape.len()
        invariant
            from <= k <= shape@.len(),
            suffix == shape@.skip(from as int),
            forall|j: int| from <= j < shape@.len() ==> shape@[j] >= 1,
            acc == shape_product(suffix.take(k - from)),
            shape_product(suffix) <= usize::MAX,
        decreases shape@.len() - k,
    {
        let ghost i = k - from;
        proof {
            lemma_shape_product_split(suffix, i);
            lemma_shape_product_split(suffix.skip(i), 1);
            assert(suffix.skip(i).take(1) =~= seq![suffix[i]]);
            assert(suffix.skip(i).skip(1) =~= suffix.skip(i + 1));
            assert(forall|j: int| 0 <= j < suffix.len() ==> suffix[j] >= 1);
            lemma_shape_product_pos(suffix.skip(i + 1));
            lemma_shape_product_single(suffix[i]);
            assert(shape_product(suffix)
                == (acc * suffix[i]) * shape_product(suffix.skip(i + 1))) by (nonlinear_arith)
                requires
                    shape_product(suffix) == shape_product(suffix.take(i))
                        * (suffix[i] * shape_product(suffix.skip(i + 1))),
                    acc == shape_product(suffix.take(i)),
            ;
            assert(acc * suffix[i] <= shape_product(suffix)) by (nonlinear_arith)
                requires
                    shape_product(suffix)
                        == (acc * suffix[i]) * shape_product(suffix.skip(i + 1)),
                    shape_product(suffix.skip(i + 1)) >= 1,
                    acc >= 0,
                    suffix[i] >= 1,
            ;
            assert(suffix.take(i + 1) =~= suffix.take(i).push(suffix[i]));
            lemma_shape_product_push(suffix.take(i), suffix[i]);
            assert(suffix[i] == shape@[k as int]);
        }
        acc = acc * shape[k];
        k = k + 1;
    }
    proof {
        assert(suffix.take(shape@.len() - from) =~= suffix);
    }
    acc
}

/// The number of elements described by a shape, or `None` when it does not
/// fit in `usize`.
pub fn shape_len_capped(shape: &Vec<usize>) -> (r: Option<usize>)
    ensures
        match r {
            Some(v) => v == shape_product(shape@),
            None => shape_product(shape@) > usize::MAX,
        },
{
    let mut i: usize = 0;
    while i < shape.len()
        invariant
            i <= shape@.len(),
            forall|j: int| 0 <= j < i ==> shape@[j] >= 1,
        decreases shape@.len() - i,
    {
        if shape[i] == 0 {
            proof {
                lemma_shape_product_zero(shape@, i as int);
            }
            return Some(0);
        }
        i = i + 1;
    }
    let mut acc: usize = 1;
    let mut k: usize = 0;
    while k < shape.len()
        invariant
            k <= shape@.len(),
            forall|j: int| 0 <= j < shape@.len() ==> shape@[j] >= 1,
            acc == shape_product(shape@.take(k as int)),
            acc >= 1,
        decreases shape@.len() - k,
    {
        let ghost prefix = shape@.take(k as int);
        proof {
            assert(shape@.take(k + 1) =~= prefix.push(shape@[k as int]));
            lemma_shape_product_push(prefix, shape@[k as int]);
        }
        let v = shape[k];
        let limit = usize::MAX / v;
        proof {
            vstd::arithmetic::div_mod::lemma_fundamental_div_mod(usize::MAX as int, v as int);
        }
        if acc > limit {
            proof {
                // The prefix product already exceeds usize::MAX, and the
                // remaining dimensions are at least one.
                assert(acc * v > usize::MAX) by (nonlinear_arith)
                    requires
                        acc > limit,
                        v >= 1,
                        acc >= 1,
                        (limit as int) * v + (usize::MAX as int) % (v as int) == usize::MAX,
                        0 <= (usize::MAX as int) % (v as int) < v,
                ;
                lemma_shape_product_split(shape@, k + 1);
                lemma_shape_product_pos(shape@.skip(k + 1));
                assert(shape_product(shape@) >= shape_product(shape@.take(k + 1)))
                    by (nonlinear_arith)
                    requires
                        shape_product(shape@) == shape_product(shape@.take(k + 1)) * shape_product(
                            shape@.skip(k + 1),
                        ),
                        shape_product(shape@.skip(k + 1)) >= 1,
                        shape_product(shape@.take(k + 1)) >= 0,
                ;
            }
            return None;
        }
        proof {
            assert(1 <= acc * v <= usize::MAX) by (nonlinear_arith)
                requires
                    1 <= acc <= limit,
                    v >= 1,
                    (limit as int) * v + (usize::MAX as int) % (v as int) == usize::MAX,
                    0 <= (usize::MAX as int) % (v as int) < v,
            ;
        }
        acc = acc * v;
        k = k + 1;
    }
    proof {
        assert(shape@.take(shape@.len() as int) =~= shape@);
    }
    Some(acc)
}

/// The number of elements described by a shape.
pub fn shape_len(shape: &Vec<usize>) -> (r: usize)
    requires
        shape_product(shape@) <= usize::MAX,
    ensures
        r == shape_product(shape@),
{
    // A dimension of zero makes the product zero regardless of the other
    // dimensions, whose partial products might not fit in usize.
    let mut i: usize = 0;
    while i < shape.len()
        invariant
            i <= shape@.len(),
            forall|j: int| 0 <= j < i ==> shape@[j] >= 1,
        decreases shape@.len() - i,
    {
        if shape[i] == 0 {
            proof {
                lemma_shape_product_zero(shape@, i as int);
            }
            return 0;
        }
        i = i + 1;
    }
    let mut acc: usize = 1;
    let mut k: usize = 0;
    while k < shape.len()
        invariant
            k <= shape@.len(),
            forall|j: int| 0 <= j < shape@.len() ==> shape@[j] >= 1,
            acc == shape_product(shape@.take(k as int)),
            shape_product(shape@) <= usize::MAX,
        decreases shape@.len() - k,
    {
        proof {
            lemma_shape_product_split(shape@, k as int);
            lemma_shape_product_split(shape@.skip(k as int), 1);
            assert(shape@.skip(k as int).take(1) =~= seq![shape@[k as int]]);
            assert(shape@.skip(k as int).skip(1) =~= shape@.skip(k as int + 1));
            lemma_shape_product_pos(shape@.skip(k as int + 1));
            lemma_shape_product_single(shape@[k as int]);
            assert(shape_product(shape@)
                == (acc * shape@[k as int]) * shape_product(shape@.skip(k as int + 1)))
                by (nonlinear_arith)
                requires
                    shape_product(shape@) == shape_product(shape@.take(k as int))
                        * (shape@[k as int] * shape_product(shape@.skip(k as int + 1))),
                    acc == shape_product(shape@.take(k as int)),
            ;
            assert(acc * shape@[k as int] <= shape_product(shape@)) by (nonlinear_arith)
                requires
                    shape_product(shape@)
                        == (acc * shape@[k as int]) * shape_product(shape@.skip(k as int + 1)),
                    shape_product(shape@.skip(k as int + 1)) >= 1,
                    acc >= 0,
                    shape@[k as int] >= 1,
            ;
            assert(shape@.take(k as int + 1) =~= shape@.take(k as int).push(shape@[k as int]));
            lemma_shape_product_push(shape@.take(k as int), shape@[k as int]);
        }
        acc = acc * shape[k];
        k = k + 1;
    }
    proof {
        assert(shape@.take(shape@.len() as int) =~= shape@);
    }
    acc
}

} // verus!
