//! The k-d tree: construction, point enumeration, splitting-hyperplane query
//! and nearest-neighbour search.

use vstd::prelude::*;
use vstd::pervasive::VecAdditionalExecFns;
use vstd::multiset::Multiset;
use vstd::seq_lib::group_to_multiset_ensures;
use vstd::seq_lib::lemma_multiset_commutative;
use crate::domain::COORD_MAX;
use crate::domain::DIM_MAX;
use crate::domain::Hyperplane;
use crate::domain::Hypersphere;
use crate::domain::NPoint;
use crate::domain::VectorPointN;
use crate::domain::coords_bounded;
use crate::domain::int_coords;
use crate::domain::lemma_signed_dist_to_own_origin;
use crate::domain::pviews;
use crate::domain::SpatialQueryStructure;
use crate::domain::sq_dist;
use crate::domain::unit_basis;
use crate::domain::valid_pt;

verus! {

/// The recursive k-d tree structure: either an interior node with a split
/// dimension, a left subtree, a stored point and a right subtree, or the
/// empty sentinel.
pub enum KdTreeImpl {
    Node(usize, Box<KdTreeImpl>, VectorPointN, Box<KdTreeImpl>),
    Empty,
}

/// All coordinate vectors stored in the tree, in in-order
/// (left subtree, own point, right subtree) traversal order.
pub open spec fn tree_points(t: KdTreeImpl) -> Seq<Seq<int>>
    decreases t,
{
    match t {
        KdTreeImpl::Node(_dim, l, p, r) => tree_points(*l) + seq![p@] + tree_points(*r),
        KdTreeImpl::Empty => Seq::empty(),
    }
}

/// If `t` is a node, does it split on dimension `d`?  The empty tree has no
/// split dimension and satisfies every expectation.
pub open spec fn dim_ok(t: KdTreeImpl, d: int) -> bool {
    match t {
        KdTreeImpl::Node(dim, _l, _p, _r) => dim as int == d,
        KdTreeImpl::Empty => true,
    }
}

/// Well-formedness of a tree of dimensionality `n`: every stored point is a
/// valid `n`-dimensional point; every node's split dimension is below `n` and
/// its children, if non-empty, split on the next dimension cyclically; and
/// every point in a left (right) subtree has a coordinate at the node's split
/// dimension at most (at least) the node's own.
pub open spec fn tree_wf(t: KdTreeImpl, n: nat) -> bool
    decreases t,
{
    match t {
        KdTreeImpl::Empty => true,
        KdTreeImpl::Node(dim, l, p, r) => {
            &&& (dim as int) < n as int
            &&& valid_pt(p@, n)
            &&& tree_wf(*l, n)
            &&& tree_wf(*r, n)
            &&& dim_ok(*l, ((dim as int) + 1) % (n as int))
            &&& dim_ok(*r, ((dim as int) + 1) % (n as int))
            &&& (forall|q: Seq<int>|
                #[trigger] tree_points(*l).contains(q) ==> q[dim as int] <= p@[dim as int])
            &&& (forall|q: Seq<int>|
                #[trigger] tree_points(*r).contains(q) ==> q[dim as int] >= p@[dim as int])
        },
    }
}

/// Is the tree balanced: at every node, the sizes of the two subtrees differ
/// by at most one?
pub open spec fn balanced(t: KdTreeImpl) -> bool
    decreases t,
{
    match t {
        KdTreeImpl::Empty => true,
        KdTreeImpl::Node(_dim, l, _p, r) => {
            &&& -1 <= tree_points(*l).len() - tree_points(*r).len() <= 1
            &&& balanced(*l)
            &&& balanced(*r)
        },
    }
}

/// Does this subtree's root split on dimension `depth mod n`, with each
/// child cycling to the next depth's dimension?  Instantiated with
/// `depth = 0` at the tree's root this says: a node at depth `k` from the
/// root splits on dimension `k mod n`.
pub open spec fn dims_match_depth(t: KdTreeImpl, depth: nat, n: nat) -> bool
    decreases t,
{
    match t {
        KdTreeImpl::Empty => true,
        KdTreeImpl::Node(dim, l, _p, r) => {
            &&& dim as int == (depth as int) % (n as int)
            &&& dims_match_depth(*l, depth + 1, n)
            &&& dims_match_depth(*r, depth + 1, n)
        },
    }
}

/// Dimension cycling: in a well-formed tree whose root splits on dimension
/// `depth mod n`, every node at depth `k` below the root splits on dimension
/// `(depth + k) mod n`.
pub proof fn lemma_dimension_cycling(t: KdTreeImpl, depth: nat, n: nat)
    requires
        n >= 1,
        tree_wf(t, n),
        dim_ok(t, (depth as int) % (n as int)),
    ensures
        dims_match_depth(t, depth, n),
    decreases t,
{
    match t {
        KdTreeImpl::Empty => {},
        KdTreeImpl::Node(dim, l, _p, r) => {
            assert(dim as int == (depth as int) % (n as int));
            vstd::arithmetic::div_mod::lemma_add_mod_noop(depth as int, 1, n as int);
            vstd::arithmetic::div_mod::lemma_add_mod_noop(dim as int, 1, n as int);
            vstd::arithmetic::div_mod::lemma_mod_twice(depth as int, n as int);
            assert(((dim as int) + 1) % (n as int) == (depth as int + 1) % (n as int));
            lemma_dimension_cycling(*l, depth + 1, n);
            lemma_dimension_cycling(*r, depth + 1, n);
        },
    }
}

broadcast use {group_to_multiset_ensures, vstd::multiset::group_multiset_axioms};

/// Taking coordinate views commutes with removing an element.
proof fn lemma_pviews_remove(s: Seq<VectorPointN>, i: int)
    requires
        0 <= i < s.len(),
    ensures
        pviews(s.remove(i)) =~= pviews(s).remove(i),
{
}

/// Taking coordinate views commutes with inserting an element.
proof fn lemma_pviews_insert(s: Seq<VectorPointN>, i: int, p: VectorPointN)
    requires
        0 <= i <= s.len(),
    ensures
        pviews(s.insert(i, p)) =~= pviews(s).insert(i, p@),
{
}

/// Stable insertion sort of a point collection by the coordinate at
/// dimension `d`.  The result holds exactly the same coordinate vectors
/// (as a multiset) in non-decreasing order of their `d`-th entry.
fn sort_by_dim(pts: &mut Vec<VectorPointN>, d: usize)
    requires
        forall|k: int| 0 <= k < old(pts)@.len() ==> (d as int) < #[trigger] old(pts)@[k]@.len(),
    ensures
        final(pts)@.len() == old(pts)@.len(),
        pviews(final(pts)@).to_multiset() == pviews(old(pts)@).to_multiset(),
        forall|a: int, b: int|
            0 <= a < b < final(pts)@.len()
                ==> final(pts)@[a]@[d as int] <= final(pts)@[b]@[d as int],
        forall|k: int| 0 <= k < final(pts)@.len() ==> (d as int) < #[trigger] final(pts)@[k]@.len(),
{
    if pts.len() < 2 {
        return ;
    }
    proof {
        assert forall|k: int| 0 <= k < pts@.len() implies (d as int)
            < #[trigger] pts@[k].origin@.len() by {
            assert(pts@[k]@.len() == pts@[k].origin@.len());
        }
    }
    let mut i: usize = 1;
    while i < pts.len()
        invariant
            1 <= i <= pts@.len(),
            pts@.len() == old(pts)@.len(),
            pviews(pts@).to_multiset() == pviews(old(pts)@).to_multiset(),
            forall|a: int, b: int|
                0 <= a < b < i ==> pts@[a]@[d as int] <= pts@[b]@[d as int],
            forall|k: int| 0 <= k < pts@.len() ==> (d as int) < #[trigger] pts@[k].origin@.len(),
        decreases pts@.len() - i,
    {
        let ghost s0 = pts@;
        let x = pts.remove(i);
        let ghost s1 = pts@;
        let mut j: usize = 0;
        while j < i && pts[j].origin[d] <= x.origin[d]
            invariant
                j <= i,
                i <= pts@.len(),
                pts@ == s1,
                (d as int) < x.origin@.len(),
                forall|k: int|
                    0 <= k < pts@.len() ==> (d as int) < #[trigger] pts@[k].origin@.len(),
                forall|k: int| 0 <= k < j ==> pts@[k]@[d as int] <= x@[d as int],
            decreases i - j,
        {
            proof {
                assert(pts@[j as int]@.len() == pts@[j as int].origin@.len());
                assert(pts@[j as int]@[d as int] == pts@[j as int].origin@[d as int] as int);
                assert(x@.len() == x.origin@.len());
                assert(x@[d as int] == x.origin@[d as int] as int);
            }
            j = j + 1;
        }
        proof {
            if j < i {
                assert(pts@[j as int]@.len() == pts@[j as int].origin@.len());
                assert(pts@[j as int]@[d as int] == pts@[j as int].origin@[d as int] as int);
                assert(x@.len() == x.origin@.len());
                assert(x@[d as int] == x.origin@[d as int] as int);
                assert(pts@[j as int]@[d as int] > x@[d as int]);
            }
        }
        pts.insert(j, x);
        proof {
            lemma_pviews_remove(s0, i as int);
            lemma_pviews_insert(s1, j as int, x);
            assert(pviews(s0)[i as int] == x@);
            assert(pviews(pts@).to_multiset() =~= pviews(s0).to_multiset());
            // the sorted prefix now extends one place further
            assert forall|a: int, b: int| 0 <= a < b < i + 1 implies
                pts@[a]@[d as int] <= pts@[b]@[d as int] by {
                assert(forall|k: int| 0 <= k < i ==> s1[k] == s0[k]);
                assert(forall|k: int| 0 <= k < j ==> pts@[k] == s1[k]);
                assert(pts@[j as int] == x);
                assert(forall|k: int| j < k <= i ==> pts@[k] == s1[k - 1]);
            }
        }
        i = i + 1;
    }
    proof {
        assert forall|k: int| 0 <= k < pts@.len() implies (d as int)
            < #[trigger] pts@[k]@.len() by {
            assert(pts@[k]@.len() == pts@[k].origin@.len());
        }
    }
}

/// Taking coordinate views commutes with concatenation.
proof fn lemma_pviews_concat(a: Seq<VectorPointN>, b: Seq<VectorPointN>)
    ensures
        pviews(a + b) =~= pviews(a) + pviews(b),
{
}

/// Two sequences with equal multisets contain the same coordinate vectors.
proof fn lemma_same_multiset_same_contains(a: Seq<Seq<int>>, b: Seq<Seq<int>>)
    requires
        a.to_multiset() == b.to_multiset(),
    ensures
        forall|q: Seq<int>| a.contains(q) <==> b.contains(q),
{
    assert forall|q: Seq<int>| a.contains(q) <==> b.contains(q) by {
        vstd::seq_lib::to_multiset_contains(a, q);
        vstd::seq_lib::to_multiset_contains(b, q);
        assert(a.to_multiset().count(q) == b.to_multiset().count(q));
    }
}

/// Sort the collection by the coordinate at `dim_idx` and split it at the
/// median position `len / 2` (for two points that is the second one, for one
/// point the sole one).  Returns `None` exactly on an empty collection.
fn split_vec_with_median(
    pts: Vec<VectorPointN>,
    dim_idx: usize,
    Ghost(n): Ghost<nat>,
) -> (r: Option<(Vec<VectorPointN>, VectorPointN, Vec<VectorPointN>)>)
    requires
        (dim_idx as int) < n as int,
        forall|k: int| 0 <= k < pts@.len() ==> valid_pt(#[trigger] pts@[k]@, n),
    ensures
        match r {
            None => pts@.len() == 0,
            Some(lmr) => {
                &&& pts@.len() > 0
                &&& lmr.0@.len() == pts@.len() / 2
                &&& lmr.2@.len() == pts@.len() - 1 - pts@.len() / 2
                &&& (pviews(lmr.0@) + seq![lmr.1@] + pviews(lmr.2@)).to_multiset() == pviews(
                    pts@,
                ).to_multiset()
                &&& valid_pt(lmr.1@, n)
                &&& (forall|k: int| 0 <= k < lmr.0@.len() ==> valid_pt(#[trigger] lmr.0@[k]@, n))
                &&& (forall|k: int| 0 <= k < lmr.2@.len() ==> valid_pt(#[trigger] lmr.2@[k]@, n))
                &&& (forall|k: int|
                    0 <= k < lmr.0@.len()
                        ==> #[trigger] lmr.0@[k]@[dim_idx as int] <= lmr.1@[dim_idx as int])
                &&& (forall|k: int|
                    0 <= k < lmr.2@.len()
                        ==> #[trigger] lmr.2@[k]@[dim_idx as int] >= lmr.1@[dim_idx as int])
            },
        },
{
    if pts.is_empty() {
        return None;
    }
    let mut pts = pts;
    let ghost orig = pts@;
    sort_by_dim(&mut pts, dim_idx);
    let ghost sorted = pts@;
    let m = pts.len() / 2;
    let mut middle = pts.split_off(m);
    let right = middle.split_off(1);
    let med = middle.remove(0);
    proof {
        assert(sorted =~= pts@ + seq![med] + right@);
        lemma_pviews_concat(pts@ + seq![med], right@);
        lemma_pviews_concat(pts@, seq![med]);
        assert(pviews(seq![med]) =~= seq![med@]);
        assert(pviews(sorted) =~= pviews(pts@) + seq![med@] + pviews(right@));
        assert((pviews(pts@) + seq![med@] + pviews(right@)).to_multiset() == pviews(
            orig,
        ).to_multiset());
        // every element of the sorted sequence is an element of the input,
        // so validity carries over
        lemma_same_multiset_same_contains(pviews(sorted), pviews(orig));
        assert forall|k: int| 0 <= k < sorted.len() implies valid_pt(#[trigger] sorted[k]@, n) by {
            assert(pviews(sorted)[k] == sorted[k]@);
            assert(pviews(sorted).contains(sorted[k]@));
            let idx = choose|idx: int| 0 <= idx < orig.len() && pviews(orig)[idx] == sorted[k]@;
            assert(valid_pt(orig[idx]@, n));
        }
        assert(med == sorted[m as int]);
        assert(forall|k: int| 0 <= k < pts@.len() ==> pts@[k] == sorted[k]);
        assert(forall|k: int| 0 <= k < right@.len() ==> right@[k] == sorted[m + 1 + k]);
    }
    Some((pts, med, right))
}

/// Recursively build a k-d tree from `pts`, splitting on `dim_idx` at the
/// root and cycling through the dimensions below it.
fn build(pts: Vec<VectorPointN>, dim_idx: usize, Ghost(n): Ghost<nat>) -> (t: KdTreeImpl)
    requires
        1 <= n <= DIM_MAX as nat,
        (dim_idx as int) < n as int,
        forall|k: int| 0 <= k < pts@.len() ==> valid_pt(#[trigger] pts@[k]@, n),
    ensures
        tree_wf(t, n),
        dim_ok(t, dim_idx as int),
        balanced(t),
        tree_points(t).to_multiset() == pviews(pts@).to_multiset(),
        tree_points(t).len() == pts@.len(),
    decreases pts@.len(),
{
    if pts.is_empty() {
        proof {
            assert(pviews(pts@) =~= Seq::<Seq<int>>::empty());
            assert(tree_points(KdTreeImpl::Empty).to_multiset() =~= pviews(pts@).to_multiset());
        }
        return KdTreeImpl::Empty;
    }
    // every point carries the tree's dimensionality
    let n_exec = pts[0].origin.len();
    proof {
        assert(pts@[0]@.len() == pts@[0].origin@.len());
        assert(n_exec == n);
    }
    let next_dim = (dim_idx + 1) % n_exec;
    let ghost orig = pts@;
    match split_vec_with_median(pts, dim_idx, Ghost(n)) {
        None => {
            // a non-empty collection always has a median
            proof {
                assert(false);
            }
            KdTreeImpl::Empty
        },
        Some((left, median, right)) => {
            let ghost lv = left@;
            let ghost rv = right@;
            let l = build(left, next_dim, Ghost(n));
            let r = build(right, next_dim, Ghost(n));
            let t = KdTreeImpl::Node(dim_idx, Box::new(l), median, Box::new(r));
            proof {
                // the stored points are exactly the input points
                assert(tree_points(t) =~= tree_points(l) + seq![median@] + tree_points(r));
                lemma_multiset_commutative(tree_points(l) + seq![median@], tree_points(r));
                lemma_multiset_commutative(tree_points(l), seq![median@]);
                lemma_multiset_commutative(pviews(lv) + seq![median@], pviews(rv));
                lemma_multiset_commutative(pviews(lv), seq![median@]);
                assert(tree_points(t).to_multiset() =~= pviews(orig).to_multiset());
                // the ordering invariant at this node follows from the split
                lemma_same_multiset_same_contains(tree_points(l), pviews(lv));
                lemma_same_multiset_same_contains(tree_points(r), pviews(rv));
                assert forall|q: Seq<int>| #[trigger] tree_points(l).contains(q) implies
                    q[dim_idx as int] <= median@[dim_idx as int] by {
                    let idx = choose|idx: int| 0 <= idx < lv.len() && pviews(lv)[idx] == q;
                    assert(lv[idx]@[dim_idx as int] <= median@[dim_idx as int]);
                }
                assert forall|q: Seq<int>| #[trigger] tree_points(r).contains(q) implies
                    q[dim_idx as int] >= median@[dim_idx as int] by {
                    let idx = choose|idx: int| 0 <= idx < rv.len() && pviews(rv)[idx] == q;
                    assert(rv[idx]@[dim_idx as int] >= median@[dim_idx as int]);
                }
                assert(tree_wf(t, n));
                assert(balanced(t));
            }
            t
        },
    }
}

/// Mutably enumerate the points of a k-d tree into a vector, in order.
fn add_points_to_vector(tree: &KdTreeImpl, pts: &mut Vec<VectorPointN>)
    ensures
        pviews(final(pts)@) == pviews(old(pts)@) + tree_points(*tree),
    decreases *tree,
{
    match tree {
        KdTreeImpl::Node(_dim, l, pt, r) => {
            add_points_to_vector(l, pts);
            let ghost mid = pts@;
            pts.push(pt.clone());
            proof {
                assert(pviews(pts@) =~= pviews(mid).push(pt@));
            }
            add_points_to_vector(r, pts);
            proof {
                assert(pviews(pts@) =~= pviews(old(pts)@) + tree_points(*tree));
            }
        },
        KdTreeImpl::Empty => {
            proof {
                assert(pviews(pts@) =~= pviews(pts@) + tree_points(*tree));
            }
        },
    }
}

/// Is every point of `o`, if present, a valid point of dimensionality `n`?
pub open spec fn opt_valid(o: Option<VectorPointN>, n: nat) -> bool {
    match o {
        Some(p) => valid_pt(p@, n),
        None => true,
    }
}

/// Membership in a left/middle/right concatenation is membership in one of
/// the three parts.
proof fn lemma_concat3_contains(a: Seq<Seq<int>>, m: Seq<int>, b: Seq<Seq<int>>, q: Seq<int>)
    ensures
        (a + seq![m] + b).contains(q) <==> (a.contains(q) || q == m || b.contains(q)),
{
    let s = a + seq![m] + b;
    if a.contains(q) {
        let i = choose|i: int| 0 <= i < a.len() && a[i] == q;
        assert(s[i] == q);
    }
    if q == m {
        assert(s[a.len() as int] == q);
    }
    if b.contains(q) {
        let i = choose|i: int| 0 <= i < b.len() && b[i] == q;
        assert(s[a.len() + 1 + i] == q);
    }
    if s.contains(q) {
        let i = choose|i: int| 0 <= i < s.len() && s[i] == q;
        if i < a.len() {
            assert(a[i] == q);
        } else if i == a.len() {
            assert(q == m);
        } else {
            assert(b[i - a.len() - 1] == q);
        }
    }
}

/// Of the candidates that are present (`opt_pt1`, `pt`, `opt_pt2`), return
/// one that is closest to `search_pt` by squared Euclidean distance.
fn closest_to(
    opt_pt1: &Option<VectorPointN>,
    pt: &VectorPointN,
    opt_pt2: &Option<VectorPointN>,
    search_pt: &VectorPointN,
) -> (r: VectorPointN)
    requires
        valid_pt(pt@, search_pt@.len() as nat),
        opt_valid(*opt_pt1, search_pt@.len() as nat),
        opt_valid(*opt_pt2, search_pt@.len() as nat),
        coords_bounded(search_pt@),
    ensures
        valid_pt(r@, search_pt@.len() as nat),
        r@ == pt@ || (match *opt_pt1 {
            Some(p1) => r@ == p1@,
            None => false,
        }) || (match *opt_pt2 {
            Some(p2) => r@ == p2@,
            None => false,
        }),
        sq_dist(r@, search_pt@) <= sq_dist(pt@, search_pt@),
        match *opt_pt1 {
            Some(p1) => sq_dist(r@, search_pt@) <= sq_dist(p1@, search_pt@),
            None => true,
        },
        match *opt_pt2 {
            Some(p2) => sq_dist(r@, search_pt@) <= sq_dist(p2@, search_pt@),
            None => true,
        },
{
    let mut best = pt.clone();
    let mut best_dist = pt.sq_distance_to(search_pt);
    match opt_pt1 {
        Some(p1) => {
            let d1 = p1.sq_distance_to(search_pt);
            if d1 < best_dist {
                best = p1.clone();
                best_dist = d1;
            }
        },
        None => {},
    }
    match opt_pt2 {
        Some(p2) => {
            let d2 = p2.sq_distance_to(search_pt);
            if d2 < best_dist {
                best = p2.clone();
                best_dist = d2;
            }
        },
        None => {},
    }
    best
}

/// The splitting hyperplane of the root node: the plane through the stored
/// point whose normal is the unit basis vector along the split dimension.
/// The empty tree has none.
fn splitting_hyperplane(tree: &KdTreeImpl) -> (r: Option<Hyperplane>)
    requires
        match *tree {
            KdTreeImpl::Node(dim, _l, p, _r) => (dim as int) < p@.len(),
            KdTreeImpl::Empty => true,
        },
    ensures
        match *tree {
            KdTreeImpl::Node(dim, _l, p, _r) => {
                &&& r is Some
                &&& int_coords(r.unwrap().origin@) == p@
                &&& int_coords(r.unwrap().normal@) == unit_basis(p@.len() as nat, dim as int)
            },
            KdTreeImpl::Empty => r is None,
        },
{
    match tree {
        KdTreeImpl::Node(dim, _l, pt, _r) => {
            let n = pt.origin.len();
            let mut normal: Vec<i64> = Vec::new();
            let mut i: usize = 0;
            while i < n
                invariant
                    i <= n,
                    normal@.len() == i,
                    forall|k: int| 0 <= k < i ==> normal@[k] == 0i64,
                decreases n - i,
            {
                normal.push(0);
                i = i + 1;
            }
            normal.set(*dim, 1);
            let origin = pt.clone();
            proof {
                assert(int_coords(normal@) =~= unit_basis(pt@.len() as nat, *dim as int));
                assert(int_coords(origin.origin@) =~= pt@);
            }
            Some(Hyperplane { origin: origin.origin, normal })
        },
        KdTreeImpl::Empty => None,
    }
}

/// Branch-and-bound nearest-neighbour search.  Returns a stored point whose
/// squared distance to `search_pt` is minimal over the whole tree, or `None`
/// exactly when the tree is empty.
///
/// At a node, the subtree on the query's side of the splitting plane is
/// searched first.  The far subtree is searched unless the node's splitting
/// hyperplane provably misses the search hypersphere centred at the node's
/// point with radius equal to its distance to the query; since that sphere is
/// centred on the plane itself the test can never rule the far side out, so
/// the search is exhaustive and therefore exact.
fn find_nearest(tree: &KdTreeImpl, search_pt: &VectorPointN) -> (r: Option<VectorPointN>)
    requires
        tree_wf(*tree, search_pt@.len() as nat),
        coords_bounded(search_pt@),
    ensures
        r is None <==> tree_points(*tree).len() == 0,
        match r {
            Some(p) => {
                &&& valid_pt(p@, search_pt@.len() as nat)
                &&& tree_points(*tree).contains(p@)
                &&& forall|q: Seq<int>|
                    #[trigger] tree_points(*tree).contains(q) ==> sq_dist(p@, search_pt@)
                        <= sq_dist(q, search_pt@)
            },
            None => true,
        },
    decreases *tree,
{
    match tree {
        KdTreeImpl::Node(dim_idx, l, cur_pt, r) => {
            let ghost n = search_pt@.len() as nat;
            let ghost whole = tree_points(*tree);
            let ghost lpts = tree_points(**l);
            let ghost rpts = tree_points(**r);
            proof {
                assert(whole == lpts + seq![cur_pt@] + rpts);
                assert(cur_pt@.len() == cur_pt.origin@.len());
                assert(cur_pt@[*dim_idx as int] == cur_pt.origin@[*dim_idx as int] as int);
                assert(search_pt@[*dim_idx as int] == search_pt.origin@[*dim_idx as int] as int);
            }
            let go_left = search_pt.origin[*dim_idx] < cur_pt.origin[*dim_idx];
            let (first, second) = if go_left { (l, r) } else { (r, l) };
            let first_best = find_nearest(first, search_pt);
            match first_best {
                Some(_) => {
                    let sq_radius = cur_pt.sq_distance_to(search_pt);
                    let search_sphere = Hypersphere { origin: cur_pt.clone().origin, sq_radius };
                    match splitting_hyperplane(tree) {
                        Some(plane) => {
                            proof {
                                assert(int_coords(search_sphere.origin@) == cur_pt@);
                                assert forall|k: int|
                                    0 <= k < unit_basis(n, *dim_idx as int).len() implies -(
                                COORD_MAX as int) <= #[trigger] unit_basis(n, *dim_idx as int)[k]
                                    <= COORD_MAX as int by {}
                                assert(coords_bounded(int_coords(plane.normal@)));
                                assert(plane.wf(n));
                            }
                            if plane.intersects_hypersphere(&search_sphere) {
                                let second_best = find_nearest(second, search_pt);
                                let res = closest_to(&first_best, cur_pt, &second_best, search_pt);
                                proof {
                                    lemma_nearest_node_case(
                                        *tree,
                                        *search_pt,
                                        first_best,
                                        second_best,
                                        res,
                                        if go_left { lpts } else { rpts },
                                        if go_left { rpts } else { lpts },
                                    );
                                }
                                Some(res)
                            } else {
                                // unreachable: the sphere is centred on the plane's own
                                // origin, so the signed distance to it is zero and the
                                // intersection test always succeeds
                                proof {
                                    lemma_signed_dist_to_own_origin(
                                        int_coords(plane.normal@),
                                        int_coords(plane.origin@),
                                    );
                                    assert(false);
                                }
                                Some(closest_to(&first_best, cur_pt, &None, search_pt))
                            }
                        },
                        None => {
                            // unreachable: a node always has a splitting hyperplane
                            proof {
                                assert(false);
                            }
                            None
                        },
                    }
                },
                None => {
                    // the near subtree is empty; the node's own point still
                    // competes with the far subtree's best
                    let second_best = find_nearest(second, search_pt);
                    let res = closest_to(&None, cur_pt, &second_best, search_pt);
                    proof {
                        lemma_nearest_node_case(
                            *tree,
                            *search_pt,
                            None,
                            second_best,
                            res,
                            if go_left { lpts } else { rpts },
                            if go_left { rpts } else { lpts },
                        );
                    }
                    Some(res)
                },
            }
        },
        KdTreeImpl::Empty => None,
    }
}

/// The glue step of the nearest-neighbour proof: if `near_best` and
/// `far_best` are correct answers for the two subtrees and `res` is a closest
/// candidate among them and the node's own point, then `res` is a correct
/// answer for the whole node.
proof fn lemma_nearest_node_case(
    tree: KdTreeImpl,
    search_pt: VectorPointN,
    near_best: Option<VectorPointN>,
    far_best: Option<VectorPointN>,
    res: VectorPointN,
    npts: Seq<Seq<int>>,
    fpts: Seq<Seq<int>>,
)
    requires
        tree is Node,
        tree matches KdTreeImpl::Node(dim_idx, l, cur_pt, r) ==> {
            &&& ((npts == tree_points(*l) && fpts == tree_points(*r)) || (npts == tree_points(*r)
                && fpts == tree_points(*l)))
            &&& (res@ == cur_pt@ || (match near_best {
                Some(p) => res@ == p@,
                None => false,
            }) || (match far_best {
                Some(p) => res@ == p@,
                None => false,
            }))
            &&& sq_dist(res@, search_pt@) <= sq_dist(cur_pt@, search_pt@)
        },
        near_best is None <==> npts.len() == 0,
        match near_best {
            Some(p) => npts.contains(p@) && (forall|q: Seq<int>|
                #[trigger] npts.contains(q) ==> sq_dist(p@, search_pt@) <= sq_dist(q, search_pt@))
                && sq_dist(res@, search_pt@) <= sq_dist(p@, search_pt@),
            None => true,
        },
        match far_best {
            Some(p) => fpts.contains(p@) && (forall|q: Seq<int>|
                #[trigger] fpts.contains(q) ==> sq_dist(p@, search_pt@) <= sq_dist(q, search_pt@))
                && sq_dist(res@, search_pt@) <= sq_dist(p@, search_pt@),
            None => fpts.len() == 0,
        },
    ensures
        tree_points(tree).contains(res@),
        forall|q: Seq<int>|
            #[trigger] tree_points(tree).contains(q) ==> sq_dist(res@, search_pt@) <= sq_dist(
                q,
                search_pt@,
            ),
{
    match tree {
        KdTreeImpl::Node(dim_idx, l, cur_pt, r) => {
            let lpts = tree_points(*l);
            let rpts = tree_points(*r);
            // membership of the result
            lemma_concat3_contains(lpts, cur_pt@, rpts, res@);
            // minimality over every stored point
            assert forall|q: Seq<int>| #[trigger] tree_points(tree).contains(q) implies sq_dist(
                res@,
                search_pt@,
            ) <= sq_dist(q, search_pt@) by {
                lemma_concat3_contains(lpts, cur_pt@, rpts, q);
                if q == cur_pt@ {
                } else if npts.contains(q) {
                    assert(near_best is Some);
                } else {
                    assert(fpts.contains(q));
                    assert(far_best is Some);
                }
            }
        },
        KdTreeImpl::Empty => {},
    }
}

/// Every point stored in a well-formed tree is a valid point of the tree's
/// dimensionality.
pub proof fn lemma_tree_points_valid(t: KdTreeImpl, n: nat)
    requires
        tree_wf(t, n),
    ensures
        forall|q: Seq<int>| #[trigger] tree_points(t).contains(q) ==> valid_pt(q, n),
    decreases t,
{
    match t {
        KdTreeImpl::Empty => {},
        KdTreeImpl::Node(_dim, l, p, r) => {
            lemma_tree_points_valid(*l, n);
            lemma_tree_points_valid(*r, n);
            assert forall|q: Seq<int>| #[trigger] tree_points(t).contains(q) implies valid_pt(
                q,
                n,
            ) by {
                lemma_concat3_contains(tree_points(*l), p@, tree_points(*r), q);
            }
        },
    }
}

/// Remove and return a point of `pts` whose squared distance to `search_pt`
/// is minimal over `pts`.
fn extract_nearest(pts: &mut Vec<VectorPointN>, search_pt: &VectorPointN) -> (p: VectorPointN)
    requires
        old(pts)@.len() > 0,
        forall|k: int|
            0 <= k < old(pts)@.len() ==> valid_pt(#[trigger] old(pts)@[k]@, search_pt@.len() as nat),
        coords_bounded(search_pt@),
    ensures
        final(pts)@.len() == old(pts)@.len() - 1,
        valid_pt(p@, search_pt@.len() as nat),
        pviews(old(pts)@).contains(p@),
        pviews(final(pts)@).to_multiset().insert(p@) == pviews(old(pts)@).to_multiset(),
        forall|k: int|
            0 <= k < final(pts)@.len() ==> valid_pt(
                #[trigger] final(pts)@[k]@,
                search_pt@.len() as nat,
            ),
        forall|q: Seq<int>|
            #[trigger] pviews(final(pts)@).contains(q) ==> sq_dist(p@, search_pt@) <= sq_dist(
                q,
                search_pt@,
            ),
{
    let mut best_i: usize = 0;
    let mut best_d: i64 = pts[0].sq_distance_to(search_pt);
    let mut i: usize = 1;
    while i < pts.len()
        invariant
            best_i < i <= pts@.len(),
            pts@ == old(pts)@,
            coords_bounded(search_pt@),
            forall|k: int|
                0 <= k < pts@.len() ==> valid_pt(#[trigger] pts@[k]@, search_pt@.len() as nat),
            best_d as int == sq_dist(pts@[best_i as int]@, search_pt@),
            forall|k: int| 0 <= k < i ==> best_d as int <= sq_dist(#[trigger] pts@[k]@, search_pt@),
        decreases pts@.len() - i,
    {
        let d = pts[i].sq_distance_to(search_pt);
        if d < best_d {
            best_i = i;
            best_d = d;
        }
        i = i + 1;
    }
    let ghost s0 = pts@;
    let p = pts.remove(best_i);
    proof {
        lemma_pviews_remove(s0, best_i as int);
        assert(pviews(s0)[best_i as int] == p@);
        assert(pviews(s0).contains(p@));
        assert(pviews(pts@).to_multiset().insert(p@) =~= pviews(s0).to_multiset());
        assert forall|q: Seq<int>| #[trigger] pviews(pts@).contains(q) implies sq_dist(
            p@,
            search_pt@,
        ) <= sq_dist(q, search_pt@) by {
            let idx = choose|idx: int| 0 <= idx < pviews(pts@).len() && pviews(pts@)[idx] == q;
            if idx < best_i {
                assert(pts@[idx] == s0[idx]);
                assert(sq_dist(s0[idx]@, search_pt@) >= best_d as int);
            } else {
                assert(pts@[idx] == s0[idx + 1]);
                assert(sq_dist(s0[idx + 1]@, search_pt@) >= best_d as int);
            }
        }
    }
    p
}

/// A k-d tree over points of one fixed dimensionality.  Built once from a
/// collection of points; immutable and read-only afterwards.
pub struct KdTree {
    root: KdTreeImpl,
    dim: usize,
}

impl KdTree {
    /// The tree's root node.
    pub closed spec fn spec_root(self) -> KdTreeImpl {
        self.root
    }

    /// The dimensionality the tree was built with.
    pub closed spec fn spec_dim(self) -> nat {
        self.dim as nat
    }

    /// The coordinate vectors of all stored points, in in-order traversal
    /// order.
    pub open spec fn points(self) -> Seq<Seq<int>> {
        tree_points(self.spec_root())
    }

    /// The tree's invariant: its structure is well formed for its
    /// dimensionality, its root splits on dimension zero, and every node's
    /// subtree sizes differ by at most one.
    pub open spec fn wf(self) -> bool {
        &&& 1 <= self.spec_dim() <= DIM_MAX as nat
        &&& tree_wf(self.spec_root(), self.spec_dim())
        &&& dim_ok(self.spec_root(), 0)
        &&& balanced(self.spec_root())
    }

    /// Build a k-d tree holding exactly the given points (the enumerated
    /// tree is a permutation of the input), splitting each node's collection
    /// at the median of the coordinate on the node's split dimension, with
    /// split dimensions cycling from zero at the root.
    pub fn build(pts: Vec<VectorPointN>) -> (t: Self)
        requires
            forall|k: int|
                0 <= k < pts@.len() ==> valid_pt(#[trigger] pts@[k]@, pts@[0]@.len() as nat),
        ensures
            t.wf(),
            t.points().to_multiset() == pviews(pts@).to_multiset(),
            t.points().len() == pts@.len(),
            pts@.len() > 0 ==> t.spec_dim() == pts@[0]@.len(),
    {
        if pts.is_empty() {
            proof {
                assert(pviews(pts@) =~= Seq::<Seq<int>>::empty());
                assert(tree_points(KdTreeImpl::Empty).to_multiset() =~= pviews(
                    pts@,
                ).to_multiset());
            }
            KdTree { root: KdTreeImpl::Empty, dim: 1 }
        } else {
            let dim = pts[0].origin.len();
            proof {
                assert(pts@[0]@.len() == pts@[0].origin@.len());
                assert(valid_pt(pts@[0]@, pts@[0]@.len() as nat));
            }
            let root = build(pts, 0, Ghost(dim as nat));
            KdTree { root, dim }
        }
    }

    /// All points stored in the tree, in in-order traversal order.
    pub fn get_points(&self) -> (pts: Vec<VectorPointN>)
        ensures
            pviews(pts@) == self.points(),
    {
        let mut pts = Vec::new();
        let ghost before = pts@;
        add_points_to_vector(&self.root, &mut pts);
        proof {
            assert(pviews(before) =~= Seq::<Seq<int>>::empty());
            assert(pviews(before) + tree_points(self.root) =~= tree_points(self.root));
        }
        pts
    }

    /// The splitting hyperplane of the root: the plane through the root's
    /// stored point whose normal is the unit basis vector along the root's
    /// split dimension.  The empty tree has none.
    pub fn splitting_hyperplane(&self) -> (r: Option<Hyperplane>)
        requires
            self.wf(),
        ensures
            r is Some <==> self.points().len() > 0,
            match self.spec_root() {
                KdTreeImpl::Node(dim, _l, p, _r) => {
                    &&& r is Some
                    &&& int_coords(r.unwrap().origin@) == p@
                    &&& int_coords(r.unwrap().normal@) == unit_basis(p@.len() as nat, dim as int)
                },
                KdTreeImpl::Empty => r is None,
            },
    {
        match &self.root {
            KdTreeImpl::Node(_dim, _l, _p, _r) => {
                proof {
                    assert(tree_points(self.root).len() >= seq![_p@].len());
                }
            },
            KdTreeImpl::Empty => {
                proof {
                    assert(tree_points(self.root).len() == 0);
                }
            },
        }
        splitting_hyperplane(&self.root)
    }

    /// Nearest-neighbour search: returns a stored point whose Euclidean
    /// distance to `search_pt` is minimal over all stored points, and `None`
    /// exactly when the tree is empty.
    pub fn find_nearest(&self, search_pt: &VectorPointN) -> (r: Option<VectorPointN>)
        requires
            self.wf(),
            self.points().len() > 0 ==> search_pt@.len() == self.spec_dim() && coords_bounded(
                search_pt@,
            ),
        ensures
            r is None <==> self.points().len() == 0,
            match r {
                Some(p) => {
                    &&& valid_pt(p@, self.spec_dim())
                    &&& self.points().contains(p@)
                    &&& forall|q: Seq<int>|
                        #[trigger] self.points().contains(q) ==> sq_dist(p@, search_pt@)
                            <= sq_dist(q, search_pt@)
                },
                None => true,
            },
    {
        match &self.root {
            KdTreeImpl::Empty => None,
            KdTreeImpl::Node(_dim, _l, _p, _r) => {
                proof {
                    assert(tree_points(self.root).len() >= seq![_p@].len());
                }
                find_nearest(&self.root, search_pt)
            },
        }
    }
}

/// Dimension cycling for a built tree: every node at depth `k` from the
/// root splits on dimension `k mod n`, where `n` is the tree's
/// dimensionality.
pub proof fn lemma_tree_dimension_cycling(t: KdTree)
    requires
        t.wf(),
    ensures
        dims_match_depth(t.spec_root(), 0, t.spec_dim()),
{
    vstd::arithmetic::div_mod::lemma_small_mod(0, t.spec_dim());
    lemma_dimension_cycling(t.spec_root(), 0, t.spec_dim());
}

/// Taking coordinate views commutes with pushing an element.
proof fn lemma_pviews_push(s: Seq<VectorPointN>, p: VectorPointN)
    ensures
        pviews(s.push(p)) =~= pviews(s).push(p@),
{
}

impl SpatialQueryStructure for KdTree {
    open spec fn q_points(&self) -> Seq<Seq<int>> {
        self.points()
    }

    open spec fn q_dim(&self) -> nat {
        self.spec_dim()
    }

    open spec fn q_wf(&self) -> bool {
        self.wf()
    }

    fn find_closest_point(&self, search_pt: &VectorPointN) -> (p: VectorPointN) {
        match self.find_nearest(search_pt) {
            Some(p) => p,
            None => {
                // unreachable: the structure is non-empty
                proof {
                    assert(false);
                }
                VectorPointN { origin: Vec::new() }
            },
        }
    }

    fn find_closest_point_within_range(&self, search_pt: &VectorPointN, sq_range: i64) -> (r:
        Option<VectorPointN>) {
        match self.find_nearest(search_pt) {
            None => None,
            Some(p) => {
                let d = p.sq_distance_to(search_pt);
                if d <= sq_range {
                    Some(p)
                } else {
                    None
                }
            },
        }
    }

    fn find_k_nearest_points(&self, search_pt: &VectorPointN, k: u32) -> (r: Vec<VectorPointN>) {
        let ghost total = self.points();
        let mut rest = self.get_points();
        proof {
            lemma_tree_points_valid(self.spec_root(), self.spec_dim());
            assert forall|a: int| 0 <= a < rest@.len() implies valid_pt(
                #[trigger] rest@[a]@,
                self.spec_dim(),
            ) by {
                assert(pviews(rest@)[a] == rest@[a]@);
                assert(total.contains(rest@[a]@));
            }
            assert(pviews(Seq::<VectorPointN>::empty()) =~= Seq::<Seq<int>>::empty());
            assert(pviews(Seq::<VectorPointN>::empty()).to_multiset() =~= Multiset::<
                Seq<int>,
            >::empty());
            assert(pviews(Seq::<VectorPointN>::empty()).to_multiset().add(
                pviews(rest@).to_multiset(),
            ) =~= total.to_multiset());
        }
        let mut out: Vec<VectorPointN> = Vec::new();
        let kk = k as usize;
        while out.len() < kk && rest.len() > 0
            invariant
                out@.len() + rest@.len() == total.len(),
                out@.len() <= kk,
                total == self.points(),
                self.wf(),
                total.len() > 0 ==> search_pt@.len() == self.spec_dim() && coords_bounded(
                    search_pt@,
                ),
                pviews(out@).to_multiset().add(pviews(rest@).to_multiset()) == total.to_multiset(),
                forall|a: int|
                    0 <= a < rest@.len() ==> valid_pt(#[trigger] rest@[a]@, self.spec_dim()),
                forall|a: int|
                    0 <= a < out@.len() ==> valid_pt(#[trigger] out@[a]@, self.spec_dim()),
                forall|a: int, b: int|
                    0 <= a < b < out@.len() ==> sq_dist(#[trigger] out@[a]@, search_pt@) <= sq_dist(
                        #[trigger] out@[b]@,
                        search_pt@,
                    ),
                forall|a: int, q: Seq<int>|
                    0 <= a < out@.len() && #[trigger] pviews(rest@).contains(q) ==> sq_dist(
                        #[trigger] out@[a]@,
                        search_pt@,
                    ) <= sq_dist(q, search_pt@),
            decreases rest@.len(),
        {
            let ghost out0 = out@;
            let ghost rest0 = rest@;
            let p = extract_nearest(&mut rest, search_pt);
            out.push(p);
            proof {
                lemma_pviews_push(out0, p);
                assert(pviews(out@).to_multiset() =~= pviews(out0).to_multiset().insert(p@));
                assert(pviews(out@).to_multiset().add(pviews(rest@).to_multiset()) =~= pviews(
                    out0,
                ).to_multiset().add(pviews(rest@).to_multiset().insert(p@)));
                assert forall|a: int, q: Seq<int>|
                    0 <= a < out@.len() && #[trigger] pviews(rest@).contains(q) implies sq_dist(
                    #[trigger] out@[a]@,
                    search_pt@,
                ) <= sq_dist(q, search_pt@) by {
                    assert(pviews(rest0).to_multiset().count(q) > 0);
                    assert(pviews(rest0).contains(q));
                    if a < out0.len() {
                        assert(out@[a] == out0[a]);
                    } else {
                        assert(out@[a] == p);
                    }
                }
                assert forall|a: int, b: int| 0 <= a < b < out@.len() implies sq_dist(
                    #[trigger] out@[a]@,
                    search_pt@,
                ) <= sq_dist(#[trigger] out@[b]@, search_pt@) by {
                    if b == out0.len() {
                        assert(out@[b] == p);
                        assert(pviews(rest0).contains(p@));
                    }
                }
            }
        }
        proof {
            assert forall|q: Seq<int>, a: int|
                total.to_multiset().count(q) > #[trigger] pviews(out@).to_multiset().count(q) && 0
                    <= a < out@.len() implies sq_dist(#[trigger] out@[a]@, search_pt@) <= sq_dist(
                q,
                search_pt@,
            ) by {
                assert(total.to_multiset().count(q) == pviews(out@).to_multiset().count(q) + pviews(
                    rest@,
                ).to_multiset().count(q));
                assert(pviews(rest@).to_multiset().count(q) > 0);
                assert(pviews(rest@).contains(q));
            }
            assert forall|q: Seq<int>|
                #[trigger] pviews(out@).to_multiset().count(q) <= total.to_multiset().count(
                q,
            ) by {
                assert(total.to_multiset().count(q) == pviews(out@).to_multiset().count(q) + pviews(
                    rest@,
                ).to_multiset().count(q));
            }
        }
        out
    }

    fn find_k_nearest_points_within_range(
        &self,
        search_pt: &VectorPointN,
        k: u32,
        sq_range: i64,
    ) -> (r: Vec<VectorPointN>) {
        let ghost total = self.points();
        let mut rest = self.get_points();
        proof {
            lemma_tree_points_valid(self.spec_root(), self.spec_dim());
            assert forall|a: int| 0 <= a < rest@.len() implies valid_pt(
                #[trigger] rest@[a]@,
                self.spec_dim(),
            ) by {
                assert(pviews(rest@)[a] == rest@[a]@);
                assert(total.contains(rest@[a]@));
            }
            assert(pviews(Seq::<VectorPointN>::empty()) =~= Seq::<Seq<int>>::empty());
            assert(pviews(Seq::<VectorPointN>::empty()).to_multiset() =~= Multiset::<
                Seq<int>,
            >::empty());
            assert(pviews(Seq::<VectorPointN>::empty()).to_multiset().add(
                pviews(rest@).to_multiset(),
            ) =~= total.to_multiset());
        }
        let mut out: Vec<VectorPointN> = Vec::new();
        let mut done = false;
        let kk = k as usize;
        while !done && out.len() < kk && rest.len() > 0
            invariant
                out@.len() + rest@.len() == total.len(),
                out@.len() <= kk,
                total == self.points(),
                self.wf(),
                sq_range >= 0,
                total.len() > 0 ==> search_pt@.len() == self.spec_dim() && coords_bounded(
                    search_pt@,
                ),
                pviews(out@).to_multiset().add(pviews(rest@).to_multiset()) == total.to_multiset(),
                forall|a: int|
                    0 <= a < rest@.len() ==> valid_pt(#[trigger] rest@[a]@, self.spec_dim()),
                forall|a: int|
                    0 <= a < out@.len() ==> valid_pt(#[trigger] out@[a]@, self.spec_dim()),
                forall|a: int|
                    0 <= a < out@.len() ==> sq_dist(#[trigger] out@[a]@, search_pt@)
                        <= sq_range as int,
                forall|a: int, b: int|
                    0 <= a < b < out@.len() ==> sq_dist(#[trigger] out@[a]@, search_pt@) <= sq_dist(
                        #[trigger] out@[b]@,
                        search_pt@,
                    ),
                forall|a: int, q: Seq<int>|
                    0 <= a < out@.len() && #[trigger] pviews(rest@).contains(q) ==> sq_dist(
                        #[trigger] out@[a]@,
                        search_pt@,
                    ) <= sq_dist(q, search_pt@),
                done ==> forall|q: Seq<int>|
                    #[trigger] pviews(rest@).contains(q) ==> sq_dist(q, search_pt@)
                        > sq_range as int,
            decreases (if done {
                0int
            } else {
                rest@.len() as int + 1
            }),
        {
            let ghost out0 = out@;
            let ghost rest0 = rest@;
            let p = extract_nearest(&mut rest, search_pt);
            let d = p.sq_distance_to(search_pt);
            if d <= sq_range {
                out.push(p);
                proof {
                    lemma_pviews_push(out0, p);
                    assert(pviews(out@).to_multiset() =~= pviews(out0).to_multiset().insert(p@));
                    assert(pviews(out@).to_multiset().add(pviews(rest@).to_multiset()) =~= pviews(
                        out0,
                    ).to_multiset().add(pviews(rest@).to_multiset().insert(p@)));
                    assert forall|a: int, q: Seq<int>|
                        0 <= a < out@.len() && #[trigger] pviews(rest@).contains(q) implies sq_dist(
                        #[trigger] out@[a]@,
                        search_pt@,
                    ) <= sq_dist(q, search_pt@) by {
                        assert(pviews(rest0).to_multiset().count(q) > 0);
                        assert(pviews(rest0).contains(q));
                        if a < out0.len() {
                            assert(out@[a] == out0[a]);
                        } else {
                            assert(out@[a] == p);
                        }
                    }
                    assert forall|a: int, b: int| 0 <= a < b < out@.len() implies sq_dist(
                        #[trigger] out@[a]@,
                        search_pt@,
                    ) <= sq_dist(#[trigger] out@[b]@, search_pt@) by {
                        if b == out0.len() {
                            assert(out@[b] == p);
                            assert(pviews(rest0).contains(p@));
                        }
                    }
                }
            } else {
                // the closest remaining point is already out of range, so
                // every remaining point is; put it back and stop
                let ghost rest1 = rest@;
                rest.push(p);
                done = true;
                proof {
                    lemma_pviews_push(rest1, p);
                    assert(pviews(rest@).to_multiset() =~= pviews(rest1).to_multiset().insert(p@));
                    assert(pviews(out@).to_multiset().add(pviews(rest@).to_multiset())
                        =~= total.to_multiset());
                    assert forall|q: Seq<int>| #[trigger] pviews(rest@).contains(q) implies sq_dist(
                        q,
                        search_pt@,
                    ) > sq_range as int by {
                        assert(pviews(rest@).to_multiset().count(q) > 0);
                        if q == p@ {
                        } else {
                            assert(pviews(rest1).to_multiset().count(q) > 0);
                            assert(pviews(rest1).contains(q));
                        }
                    }
                    assert forall|a: int, q: Seq<int>|
                        0 <= a < out@.len() && #[trigger] pviews(rest@).contains(q) implies sq_dist(
                        #[trigger] out@[a]@,
                        search_pt@,
                    ) <= sq_dist(q, search_pt@) by {
                        assert(pviews(rest@).to_multiset().count(q) > 0);
                        if q == p@ {
                            assert(pviews(rest0).contains(p@));
                        } else {
                            assert(pviews(rest1).to_multiset().count(q) > 0);
                            assert(pviews(rest1).contains(q));
                        }
                    }
                }
            }
        }
        proof {
            assert forall|q: Seq<int>, a: int|
                total.to_multiset().count(q) > #[trigger] pviews(out@).to_multiset().count(q) && 0
                    <= a < out@.len() implies sq_dist(#[trigger] out@[a]@, search_pt@) <= sq_dist(
                q,
                search_pt@,
            ) by {
                assert(total.to_multiset().count(q) == pviews(out@).to_multiset().count(q) + pviews(
                    rest@,
                ).to_multiset().count(q));
                assert(pviews(rest@).to_multiset().count(q) > 0);
                assert(pviews(rest@).contains(q));
            }
            assert forall|q: Seq<int>|
                #[trigger] pviews(out@).to_multiset().count(q) <= total.to_multiset().count(
                q,
            ) by {
                assert(total.to_multiset().count(q) == pviews(out@).to_multiset().count(q) + pviews(
                    rest@,
                ).to_multiset().count(q));
            }
            assert forall|q: Seq<int>|
                total.to_multiset().count(q) > #[trigger] pviews(out@).to_multiset().count(q)
                    && sq_dist(q, search_pt@) <= sq_range as int implies out@.len() == k as int by {
                assert(total.to_multiset().count(q) == pviews(out@).to_multiset().count(q) + pviews(
                    rest@,
                ).to_multiset().count(q));
                assert(pviews(rest@).to_multiset().count(q) > 0);
                assert(pviews(rest@).contains(q));
                // the loop cannot have stopped for the range, since `q` is
                // still within it; so it stopped because `k` points were
                // found
                assert(!done);
                assert(out@.len() == kk);
            }
        }
        out
    }
}

} // verus!
