//! Axis-aware extremum reduction: locating the winning element and its
//! coordinate, globally or along one chosen axis.
//!
//! The reduction walks the source once, keeping a running champion per
//! output position.  A candidate replaces the champion only when it
//! compares strictly in the favored direction; ties keep the element
//! visited earlier in canonical (row-major) order, which makes the result
//! deterministic.

use vstd::prelude::*;
use vstd::pervasive::cloned;
use vstd::std_specs::cmp::PartialOrdSpec;
use vstd::arithmetic::div_mod::lemma_fundamental_div_mod_converse;
use core::cmp::Ordering;
use crate::array::NdArray;
use crate::array::shape_consistent;
use crate::array::stride_of;
use crate::array::flat_offset;
use crate::array::coordinate_of;
use crate::array::valid_coordinate;
use crate::array::lemma_flat_offset_decode;
use crate::array::lemma_flat_offset_bound;
use crate::array::lemma_flat_offset_shift;
use crate::array::extent_product;
use crate::array::shape_product;
use crate::array::lemma_product_split;
use crate::array::lemma_product_remove;
use crate::array::lemma_product_with_zero;
use crate::array::lemma_product_all_positive;

verus! {

/// One dimension of a multi-dimensional array, identified by its index.
#[derive(Clone, Copy, Debug, PartialEq, Eq, Structural)]
pub struct Axis(pub usize);

impl Axis {
    /// The dimension index this axis names.
    pub fn index(&self) -> (r: usize)
        ensures
            r == self.0,
    {
        self.0
    }
}

/// Selects whether the running champion is replaced by a candidate that
/// compares strictly greater, or strictly lesser, than it.  A tie never
/// replaces the champion: the element visited first wins.
#[derive(Clone, Copy, Debug, PartialEq, Eq, Structural)]
pub enum Direction {
    PreferGreater,
    PreferLesser,
}

/// The comparison outcome that lets a candidate take over as champion.
pub open spec fn favored(dir: Direction) -> Ordering {
    match dir {
        Direction::PreferGreater => Ordering::Greater,
        Direction::PreferLesser => Ordering::Less,
    }
}

/// Whether `cand` strictly wins against `champ` in direction `dir`.
pub open spec fn beats<A: PartialOrd>(cand: A, champ: A, dir: Direction) -> bool {
    cand.partial_cmp_spec(&champ) == Some(favored(dir))
}

/// Every pair of elements compares to a defined order.  The reduction
/// requires this of its input: an incomparable pair is a caller error.
pub open spec fn all_comparable<A: PartialOrd>(s: Seq<A>) -> bool {
    forall|i: int, j: int|
        0 <= i < s.len() && 0 <= j < s.len() ==> (#[trigger] s[i].partial_cmp_spec(&s[j])) is Some
}

/// Index of the running champion after visiting the first `n` elements of
/// `s` in order: element `k` takes over only when it strictly beats the
/// champion of the first `k` elements.
pub open spec fn winner_upto<A: PartialOrd>(s: Seq<A>, dir: Direction, n: int) -> int
    decreases n,
{
    if n <= 1 {
        0
    } else {
        let w = winner_upto(s, dir, n - 1);
        if beats(s[n - 1], s[w], dir) {
            n - 1
        } else {
            w
        }
    }
}

/// The champion of a non-empty prefix is an index inside that prefix.
pub proof fn lemma_winner_in_range<A: PartialOrd>(s: Seq<A>, dir: Direction, n: int)
    requires
        n >= 1,
    ensures
        0 <= winner_upto(s, dir, n) < n,
    decreases n,
{
    if n > 1 {
        lemma_winner_in_range(s, dir, n - 1);
    }
}

/// Number of distinct leading coordinates before axis `a`: the product of
/// the extents before `a`.
pub open spec fn outer_count(dims: Seq<usize>, a: int) -> int {
    shape_product(dims.take(a))
}

/// Flat position in the source buffer of the element whose coordinate is
/// output position `p` with axis `a` set to `i`.
pub open spec fn lane_position(dims: Seq<usize>, a: int, p: int, i: int) -> int {
    let inner = stride_of(dims, a);
    (p / inner) * (dims[a] * inner) + p % inner + i * inner
}

/// The lane through output position `p` along axis `a`: the elements whose
/// coordinates agree with `p` everywhere but on axis `a`, ordered by their
/// axis-`a` coordinate.
pub open spec fn lane<A>(dims: Seq<usize>, elems: Seq<A>, a: int, p: int) -> Seq<A> {
    Seq::new(dims[a] as nat, |i: int| elems[lane_position(dims, a, p, i)])
}

/// The axis actually reduced over: a rank-1 array has no perpendicular
/// structure, so any supplied axis collapses to global mode.
pub open spec fn effective_axis(axis: Option<Axis>, dims: Seq<usize>) -> Option<int> {
    match axis {
        Some(ax) => if dims.len() == 1 {
            None
        } else {
            Some(ax.0 as int)
        },
        None => None,
    }
}

/// Shape of both result arrays: the source shape with the reduced axis
/// deleted, or rank 0 in global mode.
pub open spec fn reduced_shape(dims: Seq<usize>, axis: Option<int>) -> Seq<usize> {
    match axis {
        None => Seq::empty(),
        Some(a) => dims.remove(a),
    }
}

/// The index result of a reduction over a non-empty source: in global mode
/// the single winner's flat offset into the row-major buffer; in axis mode,
/// for every output position, the axis coordinate of the lane's winner.
pub open spec fn reduce_indices<A: PartialOrd>(
    dims: Seq<usize>,
    elems: Seq<A>,
    axis: Option<int>,
    dir: Direction,
) -> Seq<isize> {
    match axis {
        None => seq![winner_upto(elems, dir, elems.len() as int) as isize],
        Some(a) => Seq::new(
            (outer_count(dims, a) * stride_of(dims, a)) as nat,
            |p: int| winner_upto(lane(dims, elems, a, p), dir, dims[a] as int) as isize,
        ),
    }
}

/// The value result of a reduction over a non-empty source: the winning
/// element at each output position.
pub open spec fn reduce_values<A: PartialOrd>(
    dims: Seq<usize>,
    elems: Seq<A>,
    axis: Option<int>,
    dir: Direction,
) -> Seq<A> {
    match axis {
        None => seq![elems[winner_upto(elems, dir, elems.len() as int)]],
        Some(a) => Seq::new(
            (outer_count(dims, a) * stride_of(dims, a)) as nat,
            |p: int|
                {
                    let l = lane(dims, elems, a, p);
                    l[winner_upto(l, dir, dims[a] as int)]
                },
        ),
    }
}

/// `got` holds, position by position, a clone of the expected element.
pub open spec fn values_cloned<A: PartialOrd + Clone>(expect: Seq<A>, got: Seq<A>) -> bool {
    &&& got.len() == expect.len()
    &&& forall|p: int| 0 <= p < expect.len() ==> cloned(expect[p], #[trigger] got[p])
}

/// Precondition of every reduction: a well-formed source whose elements
/// all compare (a defined total comparison is a contract on the element
/// type), small enough for its offsets to fit the index type, and — for a
/// non-empty source of rank other than 1 — an axis within the rank.
pub open spec fn reduce_pre<A: PartialOrd>(v: (Seq<usize>, Seq<A>), axis: Option<Axis>) -> bool {
    &&& shape_product(v.0) == v.1.len()
    &&& A::obeys_partial_cmp_spec()
    &&& all_comparable(v.1)
    &&& v.1.len() <= isize::MAX as int
    &&& match axis {
        Some(ax) => v.1.len() == 0 || v.0.len() == 1 || (ax.0 as int) < v.0.len() as int,
        None => true,
    }
}

/// What a reduction returns for a non-empty source: two co-shaped arrays —
/// the winners' coordinates, and (clones of) the winning elements.
pub open spec fn reduce_post<A: PartialOrd + Clone>(
    v: (Seq<usize>, Seq<A>),
    axis: Option<Axis>,
    dir: Direction,
    idx: (Seq<usize>, Seq<isize>),
    val: (Seq<usize>, Seq<A>),
) -> bool {
    let ax = effective_axis(axis, v.0);
    &&& idx.0 == reduced_shape(v.0, ax)
    &&& val.0 == reduced_shape(v.0, ax)
    &&& idx.1 == reduce_indices(v.0, v.1, ax, dir)
    &&& values_cloned(reduce_values(v.0, v.1, ax, dir), val.1)
    &&& shape_consistent(idx)
    &&& shape_consistent(val)
}

/// The comparison behaves as a strict order on the elements of `s` in
/// direction `dir`: no element strictly beats itself, and strict wins
/// chain.  A proper partial or total order on the element type gives both.
pub open spec fn strict_order_ok<A: PartialOrd>(s: Seq<A>, dir: Direction) -> bool {
    &&& forall|i: int| 0 <= i < s.len() ==> !(#[trigger] beats(s[i], s[i], dir))
    &&& forall|i: int, j: int, k: int|
        0 <= i < s.len() && 0 <= j < s.len() && 0 <= k < s.len() && #[trigger] beats(
            s[i],
            s[j],
            dir,
        ) && #[trigger] beats(s[j], s[k], dir) ==> beats(s[i], s[k], dir)
}

/// The comparison behaves as a total order on the elements of `s`: a
/// strict order under which every pair compares, and in which a champion
/// that is not beaten by an element is itself strictly better than
/// whatever beats that element.
pub open spec fn total_order_ok<A: PartialOrd>(s: Seq<A>, dir: Direction) -> bool {
    &&& all_comparable(s)
    &&& strict_order_ok(s, dir)
    &&& forall|i: int, j: int, k: int|
        0 <= i < s.len() && 0 <= j < s.len() && 0 <= k < s.len() && !(#[trigger] beats(
            s[i],
            s[j],
            dir,
        )) && #[trigger] beats(s[k], s[j], dir) ==> beats(s[k], s[i], dir)
}

/// The running champion of a prefix is a true extremum of that prefix: no
/// element visited so far strictly beats it in the chosen direction.
pub proof fn lemma_winner_is_extremum<A: PartialOrd>(s: Seq<A>, dir: Direction, n: int)
    requires
        1 <= n <= s.len(),
        strict_order_ok(s, dir),
    ensures
        0 <= winner_upto(s, dir, n) < n,
        forall|i: int| 0 <= i < n ==> !beats(s[i], s[winner_upto(s, dir, n)], dir),
    decreases n,
{
    lemma_winner_in_range(s, dir, n);
    if n > 1 {
        lemma_winner_is_extremum(s, dir, n - 1);
        let w = winner_upto(s, dir, n - 1);
        if beats(s[n - 1], s[w], dir) {
            assert forall|i: int| 0 <= i < n implies !(#[trigger] beats(s[i], s[n - 1], dir)) by {
                if i < n - 1 && beats(s[i], s[n - 1], dir) {
                    assert(beats(s[i], s[w], dir));
                }
            };
        }
    }
}

/// First-seen wins: every element before the winner is strictly beaten by
/// it, so an element that merely ties the winner can only come later in
/// canonical order.
pub proof fn lemma_winner_is_first<A: PartialOrd>(s: Seq<A>, dir: Direction, n: int)
    requires
        1 <= n <= s.len(),
        total_order_ok(s, dir),
    ensures
        forall|i: int|
            0 <= i < winner_upto(s, dir, n) ==> beats(s[winner_upto(s, dir, n)], s[i], dir),
    decreases n,
{
    if n > 1 {
        lemma_winner_is_first(s, dir, n - 1);
        lemma_winner_is_extremum(s, dir, n - 1);
        let w = winner_upto(s, dir, n - 1);
        if beats(s[n - 1], s[w], dir) {
            assert forall|i: int| 0 <= i < n - 1 implies #[trigger] beats(s[n - 1], s[i], dir) by {
                assert(!beats(s[i], s[w], dir));
            };
        }
    }
}

/// The lane arithmetic addresses exactly the axis-fixed sub-array: for
/// every valid source multi-index `c`, the element at `c`'s flat offset
/// is lane element `c[a]` of the output position addressed by `c` with
/// axis `a` deleted.  Axis mode's output positions therefore range over
/// the multi-indices of the reduced shape, and lane element `i` of output
/// position `p` is the source element whose multi-index is `p`'s with
/// axis `a` set to `i`.
pub proof fn lemma_lane_is_axis_fixed_subarray(dims: Seq<usize>, a: int, c: Seq<int>)
    requires
        0 <= a < dims.len(),
        valid_coordinate(dims, c),
    ensures
        valid_coordinate(dims.remove(a), c.remove(a)),
        0 <= flat_offset(dims.remove(a), c.remove(a)) < outer_count(dims, a) * stride_of(dims, a),
        lane_position(dims, a, flat_offset(dims.remove(a), c.remove(a)), c[a]) == flat_offset(
            dims,
            c,
        ),
    decreases a,
{
    let out = dims.remove(a);
    let cprime = c.remove(a);
    let one: int = 1;
    assert forall|j: int| 0 <= j < out.len() implies 0 <= #[trigger] cprime[j] < out[j] by {
        if j < a {
            assert(cprime[j] == c[j]);
            assert(out[j] == dims[j]);
        } else {
            assert(cprime[j] == c[j + 1]);
            assert(out[j] == dims[j + 1]);
        }
    };
    lemma_flat_offset_bound(out, cprime);
    lemma_product_remove(dims, a);
    let p = flat_offset(out, cprime);
    let i = c[a];
    let inner = stride_of(dims, a);
    let d = dims[a] as int;
    assert forall|j: int| 0 <= j < dims.len() implies (#[trigger] dims[j]) >= 1 by {
        assert(0 <= c[j] < dims[j]);
    };
    assert forall|j: int|
        0 <= j < dims.skip(a + 1).len() implies (#[trigger] dims.skip(a + 1)[j]) >= 1 by {
        assert(dims.skip(a + 1)[j] == dims[a + 1 + j]);
    };
    lemma_product_all_positive(dims.skip(a + 1));
    if a == 0 {
        assert(out =~= dims.skip(1));
        assert(cprime =~= c.skip(1));
        assert(dims.take(0) =~= Seq::<usize>::empty());
        lemma_fundamental_div_mod_converse(p, inner, 0, p);
        lemma_flat_offset_shift(dims, c, 1);
        assert(dims.skip(0 + one) =~= out);
    } else {
        let dims1 = dims.skip(1);
        let c1 = c.skip(1);
        assert forall|j: int| 0 <= j < dims1.len() implies 0 <= #[trigger] c1[j] < dims1[j] by {
            assert(c1[j] == c[j + 1]);
            assert(dims1[j] == dims[j + 1]);
        };
        lemma_lane_is_axis_fixed_subarray(dims1, a - 1, c1);
        let out1 = dims1.remove(a - 1);
        let c1p = c1.remove(a - 1);
        let p1 = flat_offset(out1, c1p);
        assert(out.skip(1) =~= out1);
        assert(cprime.skip(1) =~= c1p);
        assert(out[0] == dims[0]);
        assert(cprime[0] == c[0]);
        assert(c1[a - 1] == c[a]);
        assert(dims1[a - 1] == dims[a]);
        assert(dims1.skip(a) =~= dims.skip(a + 1));
        assert(stride_of(dims1, a - 1) == inner);
        // p splits at the leading axis of the output shape
        lemma_flat_offset_shift(out, cprime, 1);
        let s0p = stride_of(out, 0);
        assert(out.skip(0 + one) =~= out1);
        assert(s0p == shape_product(out1));
        assert(p == c[0] * s0p + p1);
        // the source offset splits at the leading axis of the source shape
        lemma_flat_offset_shift(dims, c, 1);
        let s0 = stride_of(dims, 0);
        assert(dims.skip(0 + one) =~= dims1);
        assert(s0 == shape_product(dims1));
        assert(flat_offset(dims, c) == c[0] * s0 + flat_offset(dims1, c1));
        // products: s0p == K * inner and s0 == K * (d * inner)
        let kk = shape_product(dims1.take(a - 1));
        lemma_product_remove(dims1, a - 1);
        assert(s0p == kk * inner);
        lemma_product_split(dims1, a - 1);
        assert(dims1.skip(a - 1)[0] == dims1[a - 1]);
        assert(dims1.skip(a - 1).skip(1) =~= dims1.skip(a));
        assert(shape_product(dims1.skip(a - 1)) == d * inner);
        assert(s0 == kk * (d * inner));
        // division and remainder of p by the lane stride
        vstd::arithmetic::div_mod::lemma_hoist_over_denominator(p1, c[0] * kk, inner as nat);
        assert(p1 + (c[0] * kk) * inner == p) by (nonlinear_arith)
            requires
                p == c[0] * (kk * inner) + p1,
        {}
        assert(p / inner == c[0] * kk + p1 / inner);
        vstd::arithmetic::div_mod::lemma_mod_multiples_vanish(c[0] * kk, p1, inner);
        assert(inner * (c[0] * kk) + p1 == p) by (nonlinear_arith)
            requires
                p == c[0] * (kk * inner) + p1,
        {}
        assert(p % inner == p1 % inner);
        // assemble the lane position
        assert((c[0] * kk + p1 / inner) * (d * inner) == c[0] * (kk * (d * inner)) + (p1 / inner)
            * (d * inner)) by (nonlinear_arith)
        {}
        assert(lane_position(dims, a, p, i) == c[0] * s0 + lane_position(dims1, a - 1, p1, i));
    }
}

/// The index that global mode reports is the winner's flat offset under
/// the source's row-major strides: decoding it into a multi-index gives a
/// valid coordinate whose coordinate-times-stride sum is the index
/// itself, and the reported value is the element stored there.
pub proof fn lemma_global_index_is_flat_offset<A: PartialOrd>(
    dims: Seq<usize>,
    elems: Seq<A>,
    dir: Direction,
)
    requires
        shape_product(dims) == elems.len(),
        1 <= elems.len() <= isize::MAX as int,
    ensures
        ({
            let w = reduce_indices(dims, elems, None, dir)[0] as int;
            &&& 0 <= w < elems.len()
            &&& valid_coordinate(dims, coordinate_of(dims, w))
            &&& flat_offset(dims, coordinate_of(dims, w)) == w
            &&& reduce_values(dims, elems, None, dir)[0] == elems[w]
        }),
{
    lemma_winner_in_range(elems, dir, elems.len() as int);
    assert forall|j: int| 0 <= j < dims.len() implies (#[trigger] dims[j]) >= 1 by {
        if dims[j] == 0 {
            lemma_product_with_zero(dims, j);
        }
    };
    let w = winner_upto(elems, dir, elems.len() as int);
    lemma_flat_offset_decode(dims, w);
}

/// Global mode reports a true extremum of the whole source: its value is
/// beaten by no element under the chosen direction.
pub proof fn lemma_global_winner_is_extremum<A: PartialOrd>(elems: Seq<A>, dir: Direction)
    requires
        elems.len() >= 1,
        strict_order_ok(elems, dir),
    ensures
        0 <= winner_upto(elems, dir, elems.len() as int) < elems.len(),
        forall|i: int|
            0 <= i < elems.len() ==> !beats(
                elems[i],
                elems[winner_upto(elems, dir, elems.len() as int)],
                dir,
            ),
{
    lemma_winner_is_extremum(elems, dir, elems.len() as int);
}

/// Axis mode reports, at every output position, a true extremum of that
/// position's lane: the value beaten by no element of the lane.
pub proof fn lemma_axis_winner_is_lane_extremum<A: PartialOrd>(
    dims: Seq<usize>,
    elems: Seq<A>,
    a: int,
    p: int,
    dir: Direction,
)
    requires
        0 <= a < dims.len(),
        dims[a] >= 1,
        strict_order_ok(lane(dims, elems, a, p), dir),
    ensures
        forall|i: int|
            0 <= i < dims[a] ==> !beats(
                lane(dims, elems, a, p)[i],
                lane(dims, elems, a, p)[winner_upto(lane(dims, elems, a, p), dir, dims[a] as int)],
                dir,
            ),
{
    lemma_winner_is_extremum(lane(dims, elems, a, p), dir, dims[a] as int);
}

/// The index and value results of one reduction describe the same winning
/// element: reading the source at the reported coordinate yields exactly
/// the reported value, at every output position.
pub proof fn lemma_index_value_consistent<A: PartialOrd>(
    dims: Seq<usize>,
    elems: Seq<A>,
    axis: Option<int>,
    dir: Direction,
)
    requires
        match axis {
            None => 1 <= elems.len() <= isize::MAX as int,
            Some(a) => 0 <= a < dims.len() && 1 <= dims[a] <= isize::MAX as int,
        },
    ensures
        match axis {
            None => reduce_values(dims, elems, axis, dir) == seq![
                elems[reduce_indices(dims, elems, axis, dir)[0] as int],
            ],
            Some(a) => forall|p: int|
                0 <= p < reduce_indices(dims, elems, axis, dir).len()
                    ==> #[trigger] reduce_values(dims, elems, axis, dir)[p] == lane(
                    dims,
                    elems,
                    a,
                    p,
                )[reduce_indices(dims, elems, axis, dir)[p] as int],
        },
{
    match axis {
        None => {
            lemma_winner_in_range(elems, dir, elems.len() as int);
        },
        Some(a) => {
            assert forall|p: int|
                0 <= p < reduce_indices(dims, elems, axis, dir).len() implies #[trigger]
            reduce_values(dims, elems, axis, dir)[p] == lane(dims, elems, a, p)[reduce_indices(
                dims,
                elems,
                axis,
                dir,
            )[p] as int] by {
                lemma_winner_in_range(lane(dims, elems, a, p), dir, dims[a] as int);
            };
        },
    }
}

/// A rank-1 source has no structure perpendicular to its single axis, so
/// any supplied axis reduces exactly as no axis at all: the effective axis
/// of the reduction is global either way.
pub proof fn lemma_rank1_axis_is_global(axis: Option<Axis>, dims: Seq<usize>)
    requires
        dims.len() == 1,
    ensures
        effective_axis(axis, dims) == None::<int>,
{
}

/// Every lane position lies inside a buffer of `outer * d * inner`
/// elements, and the pieces of the position arithmetic stay in bounds.
proof fn lemma_lane_pos_bounds(outer: int, d: int, inner: int, o: int, q: int, i: int)
    requires
        0 <= o < outer,
        0 <= q < inner,
        0 <= i < d,
    ensures
        0 <= i * inner,
        0 <= o * (d * inner),
        o * (d * inner) + q + i * inner < outer * (d * inner),
        o * (d * inner) + (d * inner) <= outer * (d * inner),
{
    assert(0 <= i * inner && 0 <= o * (d * inner) && o * (d * inner) + q + i * inner < outer * (d
        * inner) && o * (d * inner) + (d * inner) <= outer * (d * inner)) by (nonlinear_arith)
        requires
            0 <= o < outer,
            0 <= q < inner,
            0 <= i < d,
    {}
}

/// The axis reduction with index tracking: walks the source once (global
/// mode) or every lane in lockstep (axis mode) and returns the winners'
/// coordinates beside (clones of) the winning elements, co-shaped.
///
/// A zero-element source yields `None`; there is no champion over an empty
/// collection.  A rank-1 source treats any supplied axis as absent.  In
/// global mode the single index returned is the winner's flat offset into
/// the row-major buffer; in axis mode each index is the winner's
/// coordinate along the reduced axis.
pub fn reduce<A: PartialOrd + Clone>(
    src: &NdArray<A>,
    axis: Option<Axis>,
    direction: Direction,
) -> (r: Option<(NdArray<isize>, NdArray<A>)>)
    requires
        reduce_pre::<A>(src@, axis),
    ensures
        (r is None) <==> src.elems().len() == 0,
        r matches Some(pair) ==> reduce_post(src@, axis, direction, pair.0@, pair.1@),
{
    let n = src.len();
    if n == 0 {
        return None;
    }
    let ghost dims = src.dims();
    let ghost elems = src.elems();
    let ghost axis0 = axis;
    let ghost ax_eff = effective_axis(axis, src.dims());
    let rank = src.ndim();
    let axis = if rank == 1 {
        None
    } else {
        axis
    };
    match axis {
        None => {
            proof {
                assert(ax_eff is None);
            }
            let mut best: usize = 0;
            let mut k: usize = 1;
            while k < n
                invariant
                    1 <= k <= n,
                    n == elems.len(),
                    elems == src.elems(),
                    A::obeys_partial_cmp_spec(),
                    all_comparable(elems),
                    best < k,
                    best as int == winner_upto(elems, direction, k as int),
                decreases n - k,
            {
                let cmp_opt = src.get(k).partial_cmp(src.get(best));
                proof {
                    assert(elems[k as int].partial_cmp_spec(&elems[best as int]) is Some);
                }
                let ord = cmp_opt.unwrap();
                let replace = match (direction, ord) {
                    (Direction::PreferGreater, Ordering::Greater) => true,
                    (Direction::PreferLesser, Ordering::Less) => true,
                    _ => false,
                };
                proof {
                    assert(replace == beats(elems[k as int], elems[best as int], direction));
                }
                if replace {
                    best = k;
                }
                k = k + 1;
            }
            let mut idx_data: Vec<isize> = Vec::new();
            idx_data.push(best as isize);
            let mut val_data: Vec<A> = Vec::new();
            val_data.push(src.get(best).clone());
            let empty_shape_i: Vec<usize> = Vec::new();
            let empty_shape_v: Vec<usize> = Vec::new();
            proof {
                assert(shape_product(Seq::<usize>::empty()) == 1);
                assert(idx_data@ =~= seq![best as isize]);
            }
            let idx_arr = match NdArray::from_shape_vec(empty_shape_i, idx_data) {
                Some(x) => x,
                None => {
                    proof {
                        assert(false);
                    }
                    return None;
                },
            };
            let val_arr = match NdArray::from_shape_vec(empty_shape_v, val_data) {
                Some(x) => x,
                None => {
                    proof {
                        assert(false);
                    }
                    return None;
                },
            };
            proof {
                assert(idx_arr.elems() =~= reduce_indices(dims, elems, ax_eff, direction));
                assert(reduce_values(dims, elems, ax_eff, direction) =~= seq![
                    elems[winner_upto(elems, direction, elems.len() as int)],
                ]);
            }
            Some((idx_arr, val_arr))
        },
        Some(ax) => {
            let a = ax.index();
            proof {
                assert(axis0 == Some(ax));
                assert((a as int) < dims.len());
                assert(ax_eff == Some(a as int));
                assert forall|j: int| 0 <= j < dims.len() implies (#[trigger] dims[j]) >= 1 by {
                    if dims[j] == 0 {
                        lemma_product_with_zero(dims, j);
                    }
                };
                assert(dims.subrange(a as int + 1, rank as int) =~= dims.skip(a as int + 1));
                assert(dims.subrange(0, a as int) =~= dims.take(a as int));
                lemma_product_split(dims, a as int);
                assert(dims.skip(a as int).skip(1) =~= dims.skip(a as int + 1));
                assert(dims.skip(a as int)[0] == dims[a as int]);
                assert(shape_product(dims.skip(a as int)) == dims[a as int] * stride_of(
                    dims,
                    a as int,
                ));
                assert(forall|j: int|
                    0 <= j < dims.take(a as int).len() ==> (#[trigger] dims.take(a as int)[j])
                        >= 1);
                lemma_product_all_positive(dims.take(a as int));
                assert(forall|j: int|
                    0 <= j < dims.skip(a as int + 1).len() ==> (#[trigger] dims.skip(
                        a as int + 1,
                    )[j]) >= 1);
                lemma_product_all_positive(dims.skip(a as int + 1));
                assert(n as int == outer_count(dims, a as int) * (dims[a as int] * stride_of(
                    dims,
                    a as int,
                )));
                assert(stride_of(dims, a as int) <= n as int && outer_count(dims, a as int)
                    <= n as int && dims[a as int] <= n as int && dims[a as int] * stride_of(
                    dims,
                    a as int,
                ) <= n as int && outer_count(dims, a as int) * stride_of(dims, a as int)
                    <= n as int) by (nonlinear_arith)
                    requires
                        n as int == outer_count(dims, a as int) * (dims[a as int] * stride_of(
                            dims,
                            a as int,
                        )),
                        outer_count(dims, a as int) >= 1,
                        stride_of(dims, a as int) >= 1,
                        dims[a as int] >= 1,
                {}
            }
            let inner = extent_product(src.shape(), a + 1, rank);
            let outer = extent_product(src.shape(), 0, a);
            let shp = src.shape();
            let d = shp[a];
            let di = d * inner;
            let out_len = outer * inner;
            let mut idx_data: Vec<isize> = Vec::new();
            let mut val_data: Vec<A> = Vec::new();
            let mut o: usize = 0;
            while o < outer
                invariant
                    n == elems.len(),
                    n <= isize::MAX as int,
                    elems == src.elems(),
                    dims == src.dims(),
                    A::obeys_partial_cmp_spec(),
                    all_comparable(elems),
                    0 <= (a as int) < dims.len(),
                    d == dims[a as int],
                    1 <= d <= n,
                    1 <= inner,
                    inner as int == stride_of(dims, a as int),
                    outer as int == outer_count(dims, a as int),
                    di as int == d as int * inner as int,
                    out_len as int == outer as int * inner as int,
                    n as int == outer as int * (d as int * inner as int),
                    o <= outer,
                    idx_data@.len() == o as int * inner as int,
                    val_data@.len() == o as int * inner as int,
                    forall|p: int|
                        0 <= p < o as int * inner as int ==> #[trigger] idx_data@[p]
                            == winner_upto(
                            lane(dims, elems, a as int, p),
                            direction,
                            d as int,
                        ) as isize,
                    forall|p: int|
                        0 <= p < o as int * inner as int ==> cloned(
                            lane(dims, elems, a as int, p)[winner_upto(
                                lane(dims, elems, a as int, p),
                                direction,
                                d as int,
                            )],
                            #[trigger] val_data@[p],
                        ),
                decreases outer - o,
            {
                proof {
                    lemma_lane_pos_bounds(outer as int, d as int, inner as int, o as int, 0, 0);
                }
                let obase = o * di;
                let mut q: usize = 0;
                while q < inner
                    invariant
                        n == elems.len(),
                        n <= isize::MAX as int,
                        elems == src.elems(),
                        dims == src.dims(),
                        A::obeys_partial_cmp_spec(),
                        all_comparable(elems),
                        0 <= (a as int) < dims.len(),
                        d == dims[a as int],
                        1 <= d <= n,
                        1 <= inner,
                        inner as int == stride_of(dims, a as int),
                        outer as int == outer_count(dims, a as int),
                        di as int == d as int * inner as int,
                        n as int == outer as int * (d as int * inner as int),
                        o < outer,
                        obase as int == o as int * (d as int * inner as int),
                        q <= inner,
                        idx_data@.len() == o as int * inner as int + q as int,
                        val_data@.len() == o as int * inner as int + q as int,
                        forall|p: int|
                            0 <= p < o as int * inner as int + q as int ==> #[trigger] idx_data@[p]
                                == winner_upto(
                                lane(dims, elems, a as int, p),
                                direction,
                                d as int,
                            ) as isize,
                        forall|p: int|
                            0 <= p < o as int * inner as int + q as int ==> cloned(
                                lane(dims, elems, a as int, p)[winner_upto(
                                    lane(dims, elems, a as int, p),
                                    direction,
                                    d as int,
                                )],
                                #[trigger] val_data@[p],
                            ),
                    decreases inner - q,
                {
                    proof {
                        lemma_lane_pos_bounds(
                            outer as int,
                            d as int,
                            inner as int,
                            o as int,
                            q as int,
                            0,
                        );
                        lemma_fundamental_div_mod_converse(
                            o as int * inner as int + q as int,
                            inner as int,
                            o as int,
                            q as int,
                        );
                    }
                    let start = obase + q;
                    let ghost p: int = o as int * inner as int + q as int;
                    let mut best: usize = 0;
                    let mut i: usize = 1;
                    while i < d
                        invariant
                            n == elems.len(),
                            elems == src.elems(),
                            dims == src.dims(),
                            A::obeys_partial_cmp_spec(),
                            all_comparable(elems),
                            0 <= (a as int) < dims.len(),
                            d == dims[a as int],
                            1 <= d,
                            1 <= inner,
                            inner as int == stride_of(dims, a as int),
                            outer as int == outer_count(dims, a as int),
                            n as int == outer as int * (d as int * inner as int),
                            o < outer,
                            q < inner,
                            p == o as int * inner as int + q as int,
                            p / inner as int == o as int,
                            p % inner as int == q as int,
                            start as int == o as int * (d as int * inner as int) + q as int,
                            1 <= i <= d,
                            best < i,
                            best as int == winner_upto(
                                lane(dims, elems, a as int, p),
                                direction,
                                i as int,
                            ),
                        decreases d - i,
                    {
                        proof {
                            lemma_lane_pos_bounds(
                                outer as int,
                                d as int,
                                inner as int,
                                o as int,
                                q as int,
                                i as int,
                            );
                            lemma_lane_pos_bounds(
                                outer as int,
                                d as int,
                                inner as int,
                                o as int,
                                q as int,
                                best as int,
                            );
                            assert(lane_position(dims, a as int, p, i as int) == start as int
                                + i as int * inner as int);
                            assert(lane_position(dims, a as int, p, best as int) == start as int
                                + best as int * inner as int);
                        }
                        let pos_c = start + i * inner;
                        let pos_b = start + best * inner;
                        let cmp_opt = src.get(pos_c).partial_cmp(src.get(pos_b));
                        proof {
                            assert(elems[pos_c as int].partial_cmp_spec(&elems[pos_b as int])
                                is Some);
                        }
                        let ord = cmp_opt.unwrap();
                        let replace = match (direction, ord) {
                            (Direction::PreferGreater, Ordering::Greater) => true,
                            (Direction::PreferLesser, Ordering::Less) => true,
                            _ => false,
                        };
                        proof {
                            let l = lane(dims, elems, a as int, p);
                            assert(l[i as int] == elems[pos_c as int]);
                            assert(l[best as int] == elems[pos_b as int]);
                            assert(replace == beats(l[i as int], l[best as int], direction));
                        }
                        if replace {
                            best = i;
                        }
                        i = i + 1;
                    }
                    proof {
                        lemma_lane_pos_bounds(
                            outer as int,
                            d as int,
                            inner as int,
                            o as int,
                            q as int,
                            best as int,
                        );
                        assert(lane_position(dims, a as int, p, best as int) == start as int
                            + best as int * inner as int);
                    }
                    let pos_b = start + best * inner;
                    idx_data.push(best as isize);
                    val_data.push(src.get(pos_b).clone());
                    proof {
                        assert(lane(dims, elems, a as int, p)[best as int]
                            == elems[pos_b as int]);
                    }
                    q = q + 1;
                }
                proof {
                    assert(o as int * inner as int + inner as int == (o as int + 1)
                        * inner as int) by (nonlinear_arith) {}
                }
                o = o + 1;
            }
            let out_shape_i = shape_without(src.shape(), a);
            let out_shape_v = shape_without(src.shape(), a);
            proof {
                lemma_product_remove(dims, a as int);
                assert(shape_product(out_shape_i@) == idx_data@.len());
                assert(shape_product(out_shape_v@) == val_data@.len());
            }
            let idx_arr = match NdArray::from_shape_vec(out_shape_i, idx_data) {
                Some(x) => x,
                None => {
                    proof {
                        assert(false);
                    }
                    return None;
                },
            };
            let val_arr = match NdArray::from_shape_vec(out_shape_v, val_data) {
                Some(x) => x,
                None => {
                    proof {
                        assert(false);
                    }
                    return None;
                },
            };
            proof {
                assert(idx_arr.elems() =~= reduce_indices(dims, elems, ax_eff, direction));
                assert(values_cloned(
                    reduce_values(dims, elems, ax_eff, direction),
                    val_arr.elems(),
                ));
            }
            Some((idx_arr, val_arr))
        },
    }
}

/// Extremum search over an N-dimensional container, viewed as a shape and
/// a row-major element sequence.  All four operations share one reduction
/// pass, so the index and value results of a given source, axis and
/// direction always describe the same winning elements.
pub trait Searching<A: PartialOrd + Clone + Default>: View<V = (Seq<usize>, Seq<A>)> + Sized {
    /// The greatest element per output position: globally, or along `axis`.
    fn max(&self, axis: Option<Axis>) -> (r: Option<NdArray<A>>)
        requires
            reduce_pre::<A>(self@, axis),
        ensures
            (r is None) <==> self@.1.len() == 0,
            r matches Some(v) ==> ({
                let ax = effective_axis(axis, self@.0);
                &&& v.wf()
                &&& v.dims() == reduced_shape(self@.0, ax)
                &&& values_cloned(
                    reduce_values(self@.0, self@.1, ax, Direction::PreferGreater),
                    v.elems(),
                )
            }),
    ;

    /// The least element per output position: globally, or along `axis`.
    fn min(&self, axis: Option<Axis>) -> (r: Option<NdArray<A>>)
        requires
            reduce_pre::<A>(self@, axis),
        ensures
            (r is None) <==> self@.1.len() == 0,
            r matches Some(v) ==> ({
                let ax = effective_axis(axis, self@.0);
                &&& v.wf()
                &&& v.dims() == reduced_shape(self@.0, ax)
                &&& values_cloned(
                    reduce_values(self@.0, self@.1, ax, Direction::PreferLesser),
                    v.elems(),
                )
            }),
    ;

    /// Where the least element sits: its flat offset (global mode) or its
    /// axis coordinate at each output position.
    fn argmin(&self, axis: Option<Axis>) -> (r: Option<NdArray<isize>>)
        requires
            reduce_pre::<A>(self@, axis),
        ensures
            (r is None) <==> self@.1.len() == 0,
            r matches Some(v) ==> ({
                let ax = effective_axis(axis, self@.0);
                &&& v.wf()
                &&& v.dims() == reduced_shape(self@.0, ax)
                &&& v.elems() == reduce_indices(self@.0, self@.1, ax, Direction::PreferLesser)
            }),
    ;

    /// Where the greatest element sits: its flat offset (global mode) or
    /// its axis coordinate at each output position.
    fn argmax(&self, axis: Option<Axis>) -> (r: Option<NdArray<isize>>)
        requires
            reduce_pre::<A>(self@, axis),
        ensures
            (r is None) <==> self@.1.len() == 0,
            r matches Some(v) ==> ({
                let ax = effective_axis(axis, self@.0);
                &&& v.wf()
                &&& v.dims() == reduced_shape(self@.0, ax)
                &&& v.elems() == reduce_indices(self@.0, self@.1, ax, Direction::PreferGreater)
            }),
    ;
}

impl<A: PartialOrd + Clone + Default> Searching<A> for NdArray<A> {
    fn max(&self, axis: Option<Axis>) -> (r: Option<NdArray<A>>) {
        match reduce(self, axis, Direction::PreferGreater) {
            Some(pair) => Some(pair.1),
            None => None,
        }
    }

    fn min(&self, axis: Option<Axis>) -> (r: Option<NdArray<A>>) {
        match reduce(self, axis, Direction::PreferLesser) {
            Some(pair) => Some(pair.1),
            None => None,
        }
    }

    fn argmin(&self, axis: Option<Axis>) -> (r: Option<NdArray<isize>>) {
        match reduce(self, axis, Direction::PreferLesser) {
            Some(pair) => Some(pair.0),
            None => None,
        }
    }

    fn argmax(&self, axis: Option<Axis>) -> (r: Option<NdArray<isize>>) {
        match reduce(self, axis, Direction::PreferGreater) {
            Some(pair) => Some(pair.0),
            None => None,
        }
    }
}

/// The given shape with axis `a` deleted.
fn shape_without(shape: &Vec<usize>, a: usize) -> (r: Vec<usize>)
    requires
        a < shape@.len(),
    ensures
        r@ == shape@.remove(a as int),
{
    let n = shape.len();
    let mut r: Vec<usize> = Vec::new();
    let mut j: usize = 0;
    while j < n
        invariant
            j <= n,
            n == shape@.len(),
            (a as int) < n as int,
            r@ == (if j <= a {
                shape@.take(j as int)
            } else {
                shape@.take(a as int) + shape@.subrange(a as int + 1, j as int)
            }),
        decreases n - j,
    {
        if j != a {
            r.push(shape[j]);
        }
        proof {
            if j < a {
                assert(shape@.take(j as int + 1) =~= shape@.take(j as int).push(shape@[j as int]));
            } else if j == a {
                assert(shape@.take(a as int) + shape@.subrange(a as int + 1, a as int + 1)
                    =~= shape@.take(a as int));
            } else {
                assert(shape@.take(a as int) + shape@.subrange(a as int + 1, j as int + 1) =~= (
                shape@.take(a as int) + shape@.subrange(a as int + 1, j as int)).push(
                    shape@[j as int],
                ));
            }
        }
        j = j + 1;
    }
    proof {
        assert(r@ =~= shape@.remove(a as int));
    }
    r
}

} // verus!
