//! A dense, row-major N-dimensional array of plain values.
//!
//! `NdArray<T>` stores a shape (the per-axis extents) together with a flat
//! buffer holding the elements in canonical row-major order: the last axis
//! varies fastest.  A value is well formed when the product of the extents
//! equals the buffer length.

use vstd::prelude::*;
use vstd::arithmetic::mul::lemma_mul_is_associative;

verus! {

/// Total element count of a dense array with the given per-axis extents:
/// the product of all extents (`1` for the empty shape, i.e. rank 0).
pub open spec fn shape_product(dims: Seq<usize>) -> int
    decreases dims.len(),
{
    if dims.len() == 0 {
        1
    } else {
        dims[0] * shape_product(dims.skip(1))
    }
}

/// The row-major stride of axis `i`: how many buffer positions one step
/// along that axis jumps over — the product of the extents after `i`.
pub open spec fn stride_of(dims: Seq<usize>, i: int) -> int {
    shape_product(dims.skip(i + 1))
}

/// A dense N-dimensional array: a shape and a flat element buffer in
/// row-major order.
#[derive(Clone, Debug, PartialEq)]
pub struct NdArray<T> {
    shape: Vec<usize>,
    data: Vec<T>,
}

impl<T> View for NdArray<T> {
    type V = (Seq<usize>, Seq<T>);

    closed spec fn view(&self) -> (Seq<usize>, Seq<T>) {
        (self.shape@, self.data@)
    }
}

/// Well-formedness of an array view: the shape accounts for exactly the
/// elements present in the buffer.
pub open spec fn shape_consistent<T>(v: (Seq<usize>, Seq<T>)) -> bool {
    shape_product(v.0) == v.1.len()
}

impl<T> NdArray<T> {
    /// The per-axis extents.
    pub open spec fn dims(&self) -> Seq<usize> {
        self@.0
    }

    /// The elements, flattened in row-major order.
    pub open spec fn elems(&self) -> Seq<T> {
        self@.1
    }

    /// The shape describes exactly the elements held.
    pub open spec fn wf(&self) -> bool {
        shape_consistent(self@)
    }

    /// Builds an array from a shape and a row-major element buffer; yields
    /// `None` exactly when the shape's total count differs from the buffer
    /// length.
    pub fn from_shape_vec(shape: Vec<usize>, data: Vec<T>) -> (r: Option<NdArray<T>>)
        ensures
            shape_product(shape@) == data@.len() ==> (r matches Some(a) && a@ == (shape@, data@)),
            shape_product(shape@) != data@.len() ==> r is None,
    {
        let n = shape.len();
        let mut i: usize = 0;
        while i < n
            invariant
                0 <= i <= n,
                n == shape@.len(),
                forall|j: int| 0 <= j < i ==> shape@[j] != 0,
            decreases n - i,
        {
            if shape[i] == 0 {
                proof {
                    lemma_product_with_zero(shape@, i as int);
                }
                if data.len() == 0 {
                    return Some(NdArray { shape, data });
                } else {
                    return None;
                }
            }
            i = i + 1;
        }
        // Every extent is at least 1, so partial products grow monotonically.
        let mut p: usize = 1;
        let mut i: usize = 0;
        while i < n
            invariant
                0 <= i <= n,
                n == shape@.len(),
                forall|j: int| 0 <= j < n ==> shape@[j] != 0,
                p == shape_product(shape@.take(i as int)),
            decreases n - i,
        {
            proof {
                lemma_product_prefix_step(shape@, i as int);
            }
            match p.checked_mul(shape[i]) {
                Some(q) => {
                    p = q;
                }
                None => {
                    // The true product exceeds what any buffer can hold.
                    let buffer_len = data.len();
                    proof {
                        lemma_product_split(shape@, i as int + 1);
                        lemma_product_all_positive(shape@.skip(i as int + 1));
                        assert(shape_product(shape@) > usize::MAX) by (nonlinear_arith)
                            requires
                                shape_product(shape@) == shape_product(
                                    shape@.take(i as int + 1),
                                ) * shape_product(shape@.skip(i as int + 1)),
                                shape_product(shape@.take(i as int + 1)) > usize::MAX,
                                shape_product(shape@.skip(i as int + 1)) >= 1,
                        {}
                    }
                    return None;
                }
            }
            i = i + 1;
        }
        proof {
            assert(shape@.take(n as int) =~= shape@);
        }
        if p == data.len() {
            Some(NdArray { shape, data })
        } else {
            None
        }
    }

    /// Total number of elements.
    pub fn len(&self) -> (r: usize)
        ensures
            r == self.elems().len(),
    {
        self.data.len()
    }

    /// Number of axes.
    pub fn ndim(&self) -> (r: usize)
        ensures
            r == self.dims().len(),
    {
        self.shape.len()
    }

    /// The per-axis extents.
    pub fn shape(&self) -> (r: &Vec<usize>)
        ensures
            r@ == self.dims(),
    {
        &self.shape
    }

    /// Takes the array apart into its shape and row-major element buffer.
    pub fn into_parts(self) -> (r: (Vec<usize>, Vec<T>))
        ensures
            r.0@ == self.dims(),
            r.1@ == self.elems(),
    {
        (self.shape, self.data)
    }

    /// The row-major stride table, one entry per axis: how many buffer
    /// positions one step along each axis jumps over.
    pub fn strides(&self) -> (r: Vec<isize>)
        requires
            self.wf(),
            1 <= self.elems().len() <= isize::MAX as int,
        ensures
            r@.len() == self.dims().len(),
            forall|i: int| 0 <= i < r@.len() ==> #[trigger] r@[i] == stride_of(self.dims(), i),
    {
        let rank = self.shape.len();
        proof {
            assert forall|j: int| 0 <= j < self.dims().len() implies (#[trigger] self.dims()[j])
                >= 1 by {
                if self.dims()[j] == 0 {
                    lemma_product_with_zero(self.dims(), j);
                }
            };
        }
        let mut r: Vec<isize> = Vec::new();
        let mut i: usize = 0;
        while i < rank
            invariant
                i <= rank,
                rank == self.dims().len(),
                self.wf(),
                1 <= self.elems().len() <= isize::MAX as int,
                forall|j: int| 0 <= j < self.dims().len() ==> (#[trigger] self.dims()[j]) >= 1,
                r@.len() == i,
                forall|j: int| 0 <= j < i ==> #[trigger] r@[j] == stride_of(self.dims(), j),
            decreases rank - i,
        {
            proof {
                let dims = self.dims();
                assert(dims.subrange(i as int + 1, rank as int) =~= dims.skip(i as int + 1));
                lemma_product_split(dims, i as int + 1);
                assert(forall|j: int|
                    0 <= j < dims.take(i as int + 1).len() ==> (#[trigger] dims.take(
                        i as int + 1,
                    )[j]) >= 1);
                lemma_product_all_positive(dims.take(i as int + 1));
                assert(forall|j: int|
                    0 <= j < dims.skip(i as int + 1).len() ==> (#[trigger] dims.skip(
                        i as int + 1,
                    )[j]) >= 1);
                lemma_product_all_positive(dims.skip(i as int + 1));
                assert(stride_of(dims, i as int) <= shape_product(dims)) by (nonlinear_arith)
                    requires
                        shape_product(dims) == shape_product(dims.take(i as int + 1))
                            * shape_product(dims.skip(i as int + 1)),
                        shape_product(dims.take(i as int + 1)) >= 1,
                        shape_product(dims.skip(i as int + 1)) >= 1,
                {}
            }
            let s = extent_product(&self.shape, i + 1, rank);
            r.push(s as isize);
            i = i + 1;
        }
        r
    }

    /// The element at the given row-major position.
    pub fn get(&self, i: usize) -> (r: &T)
        requires
            i < self.elems().len(),
        ensures
            *r == self.elems()[i as int],
    {
        &self.data[i]
    }
}

/// The flat offset contributed by the axes from `k` on: the sum of
/// coordinate times stride for each remaining axis.
pub open spec fn flat_offset_from(dims: Seq<usize>, coord: Seq<int>, k: int) -> int
    decreases dims.len() - k,
{
    if k < 0 || k >= dims.len() {
        0
    } else {
        coord[k] * stride_of(dims, k) + flat_offset_from(dims, coord, k + 1)
    }
}

/// The flat offset of multi-index `coord` under the row-major strides:
/// the sum over all axes of coordinate times stride.
pub open spec fn flat_offset(dims: Seq<usize>, coord: Seq<int>) -> int {
    flat_offset_from(dims, coord, 0)
}

/// Whether `coord` addresses an element of an array of shape `dims`.
pub open spec fn valid_coordinate(dims: Seq<usize>, coord: Seq<int>) -> bool {
    &&& coord.len() == dims.len()
    &&& forall|i: int| 0 <= i < dims.len() ==> 0 <= #[trigger] coord[i] < dims[i]
}

/// The multi-index of the element at flat position `w` of a dense
/// row-major buffer of shape `dims`.
pub open spec fn coordinate_of(dims: Seq<usize>, w: int) -> Seq<int> {
    Seq::new(dims.len(), |i: int| (w / stride_of(dims, i)) % (dims[i] as int))
}

/// Skipping the leading axis shifts the offset sum by one axis.
pub proof fn lemma_flat_offset_shift(dims: Seq<usize>, coord: Seq<int>, k: int)
    requires
        dims.len() >= 1,
        coord.len() == dims.len(),
        1 <= k,
    ensures
        flat_offset_from(dims, coord, k) == flat_offset_from(dims.skip(1), coord.skip(1), k - 1),
    decreases dims.len() - k,
{
    if k < dims.len() {
        lemma_flat_offset_shift(dims, coord, k + 1);
        assert(dims.skip(1).skip(k) =~= dims.skip(k + 1));
        assert(coord.skip(1)[k - 1] == coord[k]);
    }
}

/// The flat offset of a valid multi-index addresses an element: it lies
/// inside the buffer of a dense array of that shape.
pub proof fn lemma_flat_offset_bound(dims: Seq<usize>, coord: Seq<int>)
    requires
        valid_coordinate(dims, coord),
    ensures
        0 <= flat_offset(dims, coord) < shape_product(dims),
    decreases dims.len(),
{
    if dims.len() > 0 {
        let tail = dims.skip(1);
        assert(forall|j: int| 0 <= j < tail.len() ==> 0 <= #[trigger] coord.skip(1)[j] < tail[j]);
        lemma_flat_offset_shift(dims, coord, 1);
        lemma_flat_offset_bound(tail, coord.skip(1));
        assert forall|j: int| 0 <= j < tail.len() implies (#[trigger] tail[j]) >= 1 by {
            assert(0 <= coord[j + 1] < dims[j + 1]);
        };
        lemma_product_all_positive(tail);
        let s0 = stride_of(dims, 0);
        let one: int = 1;
        assert(s0 == shape_product(tail)) by {
            assert(dims.skip(0 + one) =~= tail);
        }
        assert(0 <= coord[0] * s0 + flat_offset(tail, coord.skip(1)) < dims[0] * s0)
            by (nonlinear_arith)
            requires
                0 <= coord[0] < dims[0],
                0 <= flat_offset(tail, coord.skip(1)) < s0,
                s0 >= 1,
        {}
    }
}

/// Decoding a flat position of a dense row-major buffer gives a valid
/// multi-index, and that multi-index dotted with the strides gives the
/// position back: the flat offset of the element at position `w` is `w`.
pub proof fn lemma_flat_offset_decode(dims: Seq<usize>, w: int)
    requires
        forall|j: int| 0 <= j < dims.len() ==> (#[trigger] dims[j]) >= 1,
        0 <= w < shape_product(dims),
    ensures
        valid_coordinate(dims, coordinate_of(dims, w)),
        flat_offset(dims, coordinate_of(dims, w)) == w,
    decreases dims.len(),
{
    let c = coordinate_of(dims, w);
    if dims.len() == 0 {
        assert(c =~= Seq::<int>::empty());
    } else {
        let tail = dims.skip(1);
        assert(forall|j: int| 0 <= j < tail.len() ==> (#[trigger] tail[j]) >= 1);
        lemma_product_all_positive(tail);
        let s0 = stride_of(dims, 0);
        let one: int = 1;
        assert(s0 == shape_product(tail)) by {
            assert(dims.skip(0 + one) =~= tail);
        }
        assert(shape_product(dims) == dims[0] * s0);
        let c0 = w / s0;
        let r = w % s0;
        vstd::arithmetic::div_mod::lemma_fundamental_div_mod(w, s0);
        vstd::arithmetic::div_mod::lemma_mod_bound(w, s0);
        vstd::arithmetic::div_mod::lemma_div_pos_is_pos(w, s0);
        assert(c0 < dims[0]) by (nonlinear_arith)
            requires
                w < dims[0] * s0,
                w == s0 * c0 + r,
                0 <= r < s0,
                s0 >= 1,
                0 <= c0,
        {}
        lemma_flat_offset_decode(tail, r);
        let ctail = coordinate_of(tail, r);
        assert(c[0] == c0) by {
            vstd::arithmetic::div_mod::lemma_small_mod(c0 as nat, dims[0] as nat);
        }
        assert forall|i: int| 1 <= i < dims.len() implies c[i] == ctail[i - 1] by {
            let si = stride_of(dims, i);
            assert(tail.skip(i) =~= dims.skip(i + 1));
            assert(stride_of(tail, i - 1) == si);
            assert(tail[i - 1] == dims[i]);
            let di = dims[i] as int;
            assert(forall|j: int|
                0 <= j < dims.skip(i + 1).len() ==> (#[trigger] dims.skip(i + 1)[j]) >= 1);
            lemma_product_all_positive(dims.skip(i + 1));
            let kk = shape_product(tail.take(i));
            lemma_product_split(tail, i);
            assert(s0 == kk * si);
            let kk2 = shape_product(tail.take(i - 1));
            lemma_product_prefix_step(tail, i - 1);
            assert(kk == kk2 * di);
            // w / si == kk * c0 + r / si
            vstd::arithmetic::div_mod::lemma_hoist_over_denominator(r, kk * c0, si as nat);
            assert(r + (kk * c0) * si == w) by (nonlinear_arith)
                requires
                    w == s0 * c0 + r,
                    s0 == kk * si,
            {}
            // (kk * c0 + r / si) % di == (r / si) % di
            vstd::arithmetic::div_mod::lemma_mod_multiples_vanish(kk2 * c0, r / si, di);
            assert(di * (kk2 * c0) == kk * c0) by (nonlinear_arith)
                requires
                    kk == kk2 * di,
            {}
            assert((w / si) % di == (r / si) % di);
        };
        assert(c.skip(1) =~= ctail);
        lemma_flat_offset_shift(dims, c, 1);
        assert(flat_offset(dims, c) == c0 * s0 + flat_offset(tail, ctail));
        assert(c0 * s0 == s0 * c0) by (nonlinear_arith)
        {}
    }
}

/// Product of the extents `shape[lo..hi]`, each of which must be nonzero
/// and whose product must fit the machine word.
pub(crate) fn extent_product(shape: &Vec<usize>, lo: usize, hi: usize) -> (r: usize)
    requires
        lo <= hi <= shape@.len(),
        forall|j: int| lo <= j < hi ==> (#[trigger] shape@[j]) >= 1,
        shape_product(shape@.subrange(lo as int, hi as int)) <= usize::MAX,
    ensures
        r == shape_product(shape@.subrange(lo as int, hi as int)),
{
    let mut r: usize = 1;
    let mut k: usize = lo;
    while k < hi
        invariant
            lo <= k <= hi <= shape@.len(),
            forall|j: int| lo <= j < hi ==> (#[trigger] shape@[j]) >= 1,
            shape_product(shape@.subrange(lo as int, hi as int)) <= usize::MAX,
            r == shape_product(shape@.subrange(lo as int, k as int)),
        decreases hi - k,
    {
        proof {
            let full = shape@.subrange(lo as int, hi as int);
            let head = shape@.subrange(lo as int, k as int + 1);
            let tail = shape@.subrange(k as int + 1, hi as int);
            lemma_product_concat(head, tail);
            assert(full =~= head + tail);
            let prev = shape@.subrange(lo as int, k as int);
            lemma_product_concat(prev, shape@.subrange(k as int, k as int + 1));
            assert(head =~= prev + shape@.subrange(k as int, k as int + 1));
            assert(shape@.subrange(k as int, k as int + 1) =~= seq![shape@[k as int]]);
            lemma_product_singleton(shape@[k as int]);
            assert(forall|j: int|
                0 <= j < tail.len() ==> (#[trigger] tail[j]) >= 1) by {
                assert(forall|j: int|
                    0 <= j < tail.len() ==> tail[j] == shape@[k as int + 1 + j]);
            }
            lemma_product_all_positive(tail);
            assert(forall|j: int|
                0 <= j < head.len() ==> (#[trigger] head[j]) >= 1) by {
                assert(forall|j: int| 0 <= j < head.len() ==> head[j] == shape@[lo + j]);
            }
            lemma_product_all_positive(head);
            assert(shape_product(head) <= usize::MAX) by (nonlinear_arith)
                requires
                    shape_product(full) == shape_product(head) * shape_product(tail),
                    shape_product(tail) >= 1,
                    shape_product(head) >= 1,
                    shape_product(full) <= usize::MAX,
            {}
        }
        r = r * shape[k];
        k = k + 1;
    }
    r
}

/// A shape with a zero extent describes no elements at all.
pub proof fn lemma_product_with_zero(dims: Seq<usize>, i: int)
    requires
        0 <= i < dims.len(),
        dims[i] == 0,
    ensures
        shape_product(dims) == 0,
    decreases i,
{
    if i == 0 {
    } else {
        lemma_product_with_zero(dims.skip(1), i - 1);
    }
}

/// With every extent nonzero the product is at least 1.
pub proof fn lemma_product_all_positive(dims: Seq<usize>)
    requires
        forall|j: int| 0 <= j < dims.len() ==> dims[j] != 0,
    ensures
        shape_product(dims) >= 1,
    decreases dims.len(),
{
    if dims.len() == 0 {
    } else {
        lemma_product_all_positive(dims.skip(1));
        assert(dims[0] * shape_product(dims.skip(1)) >= 1) by (nonlinear_arith)
            requires
                dims[0] >= 1,
                shape_product(dims.skip(1)) >= 1,
        {}
    }
}

/// The product of a one-extent shape is that extent.
pub proof fn lemma_product_singleton(x: usize)
    ensures
        shape_product(seq![x]) == x,
{
    assert(seq![x].skip(1) =~= Seq::<usize>::empty());
    assert(shape_product(Seq::<usize>::empty()) == 1);
}

/// Extending a prefix of a shape by one extent multiplies its product by
/// that extent.
pub proof fn lemma_product_prefix_step(dims: Seq<usize>, i: int)
    requires
        0 <= i < dims.len(),
    ensures
        shape_product(dims.take(i + 1)) == shape_product(dims.take(i)) * dims[i],
{
    lemma_product_split(dims.take(i + 1), i);
    assert(dims.take(i + 1).take(i) =~= dims.take(i));
    assert(dims.take(i + 1).skip(i) =~= seq![dims[i]]);
    lemma_product_singleton(dims[i]);
}

/// Concatenating shapes multiplies their products.
pub proof fn lemma_product_concat(x: Seq<usize>, y: Seq<usize>)
    ensures
        shape_product(x + y) == shape_product(x) * shape_product(y),
    decreases x.len(),
{
    if x.len() == 0 {
        assert(x + y =~= y);
    } else {
        lemma_product_concat(x.skip(1), y);
        assert((x + y).skip(1) =~= x.skip(1) + y);
        assert((x + y)[0] == x[0]);
        lemma_mul_is_associative(x[0] as int, shape_product(x.skip(1)), shape_product(y));
    }
}

/// Deleting one axis divides the product by that axis's extent: what is
/// left is the product of the extents before it and after it.
pub proof fn lemma_product_remove(dims: Seq<usize>, a: int)
    requires
        0 <= a < dims.len(),
    ensures
        shape_product(dims.remove(a)) == shape_product(dims.take(a)) * shape_product(
            dims.skip(a + 1),
        ),
{
    lemma_product_concat(dims.take(a), dims.skip(a + 1));
    assert(dims.remove(a) =~= dims.take(a) + dims.skip(a + 1));
}

/// The product of a shape splits at any cut point.
pub proof fn lemma_product_split(dims: Seq<usize>, i: int)
    requires
        0 <= i <= dims.len(),
    ensures
        shape_product(dims) == shape_product(dims.take(i)) * shape_product(dims.skip(i)),
    decreases i,
{
    if i == 0 {
        assert(dims.take(0) =~= Seq::<usize>::empty());
        assert(dims.skip(0) =~= dims);
    } else {
        lemma_product_split(dims.skip(1), i - 1);
        assert(dims.skip(1).take(i - 1) =~= dims.take(i).skip(1));
        assert(dims.skip(1).skip(i - 1) =~= dims.skip(i));
        assert(dims.take(i)[0] == dims[0]);
        lemma_mul_is_associative(
            dims[0] as int,
            shape_product(dims.take(i).skip(1)),
            shape_product(dims.skip(i)),
        );
    }
}

} // verus!
