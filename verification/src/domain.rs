//! Points, hyperplanes and hyperspheres in n-dimensional space.
//!
//! Coordinates are signed integers bounded by [`COORD_MAX`], and a point's
//! dimensionality is bounded by [`DIM_MAX`].  Under those bounds every squared
//! distance and every signed plane distance fits in an `i64`, which the proofs
//! below establish once and for all.

use vstd::prelude::*;

verus! {

/// Largest magnitude a single coordinate may have.
pub const COORD_MAX: i64 = 1048576;

/// Largest dimensionality a point may have.
pub const DIM_MAX: usize = 1048576;

/// Do all entries of `s` lie in `[-COORD_MAX, COORD_MAX]`?
pub open spec fn coords_bounded(s: Seq<int>) -> bool {
    forall|i: int| 0 <= i < s.len() ==> -(COORD_MAX as int) <= #[trigger] s[i] <= COORD_MAX as int
}

/// Is `s` a valid coordinate vector of dimensionality `n`?
pub open spec fn valid_pt(s: Seq<int>, n: nat) -> bool {
    &&& s.len() == n
    &&& 1 <= n <= DIM_MAX as nat
    &&& coords_bounded(s)
}

/// Squared Euclidean distance between two coordinate vectors of equal length.
pub open spec fn sq_dist(a: Seq<int>, b: Seq<int>) -> int
    decreases a.len(),
{
    if a.len() == 0 {
        0
    } else {
        sq_dist(a.drop_last(), b.drop_last()) + (a.last() - b.last()) * (a.last() - b.last())
    }
}

/// The entries of an executable coordinate vector, as mathematical integers.
pub open spec fn int_coords(s: Seq<i64>) -> Seq<int> {
    s.map(|_i: int, c: i64| c as int)
}

/// Signed distance, along `normal`, from the plane through `origin` to the
/// point `p`: the dot product of `normal` with `p - origin`.
pub open spec fn signed_dist(normal: Seq<int>, origin: Seq<int>, p: Seq<int>) -> int
    decreases normal.len(),
{
    if normal.len() == 0 {
        0
    } else {
        signed_dist(normal.drop_last(), origin.drop_last(), p.drop_last()) + normal.last() * (
        p.last() - origin.last())
    }
}

/// A plane's signed distance to its own origin point is zero.
pub proof fn lemma_signed_dist_to_own_origin(normal: Seq<int>, origin: Seq<int>)
    ensures
        signed_dist(normal, origin, origin) == 0,
    decreases normal.len(),
{
    if normal.len() == 0 {
    } else {
        lemma_signed_dist_to_own_origin(normal.drop_last(), origin.drop_last());
    }
}

/// The unit basis vector along axis `d` in dimensionality `n`.
pub open spec fn unit_basis(n: nat, d: int) -> Seq<int> {
    Seq::new(n, |i: int| if i == d { 1int } else { 0int })
}

/// Does the plane with the given normal and origin intersect the sphere with
/// the given centre and squared radius?  This is the exact integer form of
/// "the signed distance from the plane to the centre is at most the radius":
/// for `r = sqrt(sq_radius) >= 0`, `s <= r` holds iff `s <= 0 || s*s <= r*r`.
pub open spec fn plane_intersects_sphere(
    normal: Seq<int>,
    plane_origin: Seq<int>,
    center: Seq<int>,
    sq_radius: int,
) -> bool {
    let s = signed_dist(normal, plane_origin, center);
    s <= 0 || s * s <= sq_radius
}

/// A basic point defined by an n-dimensional coordinate vector.
pub struct VectorPointN {
    /// The point's position, as its vector from the origin.
    pub origin: Vec<i64>,
}

impl View for VectorPointN {
    type V = Seq<int>;

    open spec fn view(&self) -> Seq<int> {
        int_coords(self.origin@)
    }
}

impl Clone for VectorPointN {
    /// Cloning a point preserves its coordinates exactly.
    fn clone(&self) -> (r: Self)
        ensures
            r@ == self@,
    {
        let origin = self.origin.clone();
        proof {
            assert forall|i: int| 0 <= i < self.origin@.len() implies origin@[i]
                == self.origin@[i] by {
                assert(cloned::<i64>(self.origin@[i], origin@[i]));
            }
            assert(origin@ =~= self.origin@);
        }
        VectorPointN { origin }
    }
}

/// An n-dimensional point with a defined n-vector from the origin.
pub trait NPoint: Sized {
    /// The point's position as a mathematical coordinate vector.
    spec fn coords(&self) -> Seq<int>;

    /// The point's position as its vector from the origin.
    fn from_origin(&self) -> (v: &Vec<i64>)
        ensures
            int_coords(v@) == self.coords(),
    ;

    /// The squared Euclidean distance from `self` to `pt2`.
    fn sq_distance_to(&self, pt2: &Self) -> (r: i64)
        requires
            self.coords().len() == pt2.coords().len(),
            self.coords().len() <= DIM_MAX,
            coords_bounded(self.coords()),
            coords_bounded(pt2.coords()),
        ensures
            r as int == sq_dist(self.coords(), pt2.coords()),
            r >= 0,
    ;
}

impl NPoint for VectorPointN {
    open spec fn coords(&self) -> Seq<int> {
        self@
    }

    fn from_origin(&self) -> (v: &Vec<i64>) {
        &self.origin
    }

    fn sq_distance_to(&self, pt2: &Self) -> (r: i64) {
        let n = self.origin.len();
        let mut acc: i64 = 0;
        let mut i: usize = 0;
        while i < n
            invariant
                i <= n,
                n == self@.len(),
                n == pt2@.len(),
                n <= DIM_MAX,
                coords_bounded(self@),
                coords_bounded(pt2@),
                acc as int == sq_dist(self@.take(i as int), pt2@.take(i as int)),
                0 <= acc as int <= (i as int) * 4 * (COORD_MAX as int) * (COORD_MAX as int),
            decreases n - i,
        {
            proof {
                assert(self@[i as int] == self.origin@[i as int] as int);
                assert(pt2@[i as int] == pt2.origin@[i as int] as int);
            }
            let d = self.origin[i] - pt2.origin[i];
            proof {
                assert(0 <= (d as int) * (d as int) <= 4 * 1048576int * 1048576int)
                    by (nonlinear_arith)
                    requires -(2 * 1048576int) <= d as int <= 2 * 1048576int;
            }
            let sq = d * d;
            proof {
                assert((i as int) * 4 * (COORD_MAX as int) * (COORD_MAX as int) + 4 * (
                COORD_MAX as int) * (COORD_MAX as int) <= (DIM_MAX as int) * 4 * (COORD_MAX as int)
                    * (COORD_MAX as int)) by (nonlinear_arith)
                    requires i as int + 1 <= DIM_MAX as int;
                assert(self@.take(i + 1).drop_last() =~= self@.take(i as int));
                assert(pt2@.take(i + 1).drop_last() =~= pt2@.take(i as int));
                assert(self@.take(i + 1).last() == self@[i as int]);
            }
            acc = acc + sq;
            i = i + 1;
        }
        proof {
            assert(self@.take(n as int) =~= self@);
            assert(pt2@.take(n as int) =~= pt2@);
        }
        acc
    }
}

/// The coordinate vectors of a sequence of points.
pub open spec fn pviews(s: Seq<VectorPointN>) -> Seq<Seq<int>> {
    s.map(|_i: int, p: VectorPointN| p@)
}

/// An arbitrary structure of points capable of answering spatial queries.
///
/// All distances are squared Euclidean distances; comparing them orders
/// points exactly as the (non-negative) distances themselves would.  Ranges
/// are likewise given as squared radii, and a range boundary is inclusive.
pub trait SpatialQueryStructure {
    /// The coordinate vectors of the stored points.
    spec fn q_points(&self) -> Seq<Seq<int>>;

    /// The dimensionality shared by the stored points.
    spec fn q_dim(&self) -> nat;

    /// The structure's well-formedness invariant.
    spec fn q_wf(&self) -> bool;

    /// A stored point whose distance to `search_pt` is minimal over all
    /// stored points.  The structure must be non-empty.
    fn find_closest_point(&self, search_pt: &VectorPointN) -> (p: VectorPointN)
        requires
            self.q_wf(),
            self.q_points().len() > 0,
            search_pt@.len() == self.q_dim(),
            coords_bounded(search_pt@),
        ensures
            valid_pt(p@, self.q_dim()),
            self.q_points().contains(p@),
            forall|q: Seq<int>|
                #[trigger] self.q_points().contains(q) ==> sq_dist(p@, search_pt@) <= sq_dist(
                    q,
                    search_pt@,
                ),
    ;

    /// A stored point whose distance to `search_pt` is minimal over all
    /// stored points, provided that distance is within `sq_range`; `None`
    /// when every stored point (if any) lies farther than the range.
    fn find_closest_point_within_range(&self, search_pt: &VectorPointN, sq_range: i64) -> (r:
        Option<VectorPointN>)
        requires
            self.q_wf(),
            self.q_points().len() > 0 ==> search_pt@.len() == self.q_dim() && coords_bounded(
                search_pt@,
            ),
            sq_range >= 0,
        ensures
            match r {
                Some(p) => {
                    &&& valid_pt(p@, self.q_dim())
                    &&& self.q_points().contains(p@)
                    &&& sq_dist(p@, search_pt@) <= sq_range as int
                    &&& forall|q: Seq<int>|
                        #[trigger] self.q_points().contains(q) ==> sq_dist(p@, search_pt@)
                            <= sq_dist(q, search_pt@)
                },
                None => forall|q: Seq<int>|
                    #[trigger] self.q_points().contains(q) ==> sq_dist(q, search_pt@)
                        > sq_range as int,
            },
    ;

    /// Up to `k` stored points in ascending order of distance to
    /// `search_pt`: exactly `k` of them unless the structure holds fewer, in
    /// which case all of them.  Every stored point that is left out lies at
    /// least as far from `search_pt` as every returned point.
    fn find_k_nearest_points(&self, search_pt: &VectorPointN, k: u32) -> (r: Vec<VectorPointN>)
        requires
            self.q_wf(),
            self.q_points().len() > 0 ==> search_pt@.len() == self.q_dim() && coords_bounded(
                search_pt@,
            ),
        ensures
            r@.len() == if (k as int) <= self.q_points().len() {
                k as int
            } else {
                self.q_points().len() as int
            },
            forall|a: int| 0 <= a < r@.len() ==> valid_pt(#[trigger] r@[a]@, self.q_dim()),
            forall|a: int, b: int|
                0 <= a < b < r@.len() ==> sq_dist(#[trigger] r@[a]@, search_pt@) <= sq_dist(
                    #[trigger] r@[b]@,
                    search_pt@,
                ),
            forall|q: Seq<int>|
                #[trigger] pviews(r@).to_multiset().count(q)
                    <= self.q_points().to_multiset().count(q),
            forall|q: Seq<int>, a: int|
                self.q_points().to_multiset().count(q) > #[trigger] pviews(r@).to_multiset().count(
                    q,
                ) && 0 <= a < r@.len() ==> sq_dist(#[trigger] r@[a]@, search_pt@) <= sq_dist(
                    q,
                    search_pt@,
                ),
    ;

    /// The points of `find_k_nearest_points` that lie within `sq_range` of
    /// `search_pt`, in ascending order of distance: a stored point within
    /// the range is left out only when `k` points at most as far away are
    /// returned.
    fn find_k_nearest_points_within_range(
        &self,
        search_pt: &VectorPointN,
        k: u32,
        sq_range: i64,
    ) -> (r: Vec<VectorPointN>)
        requires
            self.q_wf(),
            self.q_points().len() > 0 ==> search_pt@.len() == self.q_dim() && coords_bounded(
                search_pt@,
            ),
            sq_range >= 0,
        ensures
            r@.len() <= k as int,
            forall|a: int| 0 <= a < r@.len() ==> valid_pt(#[trigger] r@[a]@, self.q_dim()),
            forall|a: int|
                0 <= a < r@.len() ==> sq_dist(#[trigger] r@[a]@, search_pt@) <= sq_range as int,
            forall|a: int, b: int|
                0 <= a < b < r@.len() ==> sq_dist(#[trigger] r@[a]@, search_pt@) <= sq_dist(
                    #[trigger] r@[b]@,
                    search_pt@,
                ),
            forall|q: Seq<int>|
                #[trigger] pviews(r@).to_multiset().count(q)
                    <= self.q_points().to_multiset().count(q),
            forall|q: Seq<int>, a: int|
                self.q_points().to_multiset().count(q) > #[trigger] pviews(r@).to_multiset().count(
                    q,
                ) && 0 <= a < r@.len() ==> sq_dist(#[trigger] r@[a]@, search_pt@) <= sq_dist(
                    q,
                    search_pt@,
                ),
            forall|q: Seq<int>|
                self.q_points().to_multiset().count(q) > #[trigger] pviews(r@).to_multiset().count(
                    q,
                ) && sq_dist(q, search_pt@) <= sq_range as int ==> r@.len() == k as int,
    ;
}

/// An n-dimensional plane defined by a vector from the origin and a normal
/// vector.  It is used only for signed-distance and intersection tests and is
/// never mutated after creation.
pub struct Hyperplane {
    /// A point on the plane, as its vector from the origin.
    pub origin: Vec<i64>,
    /// The plane's normal direction.
    pub normal: Vec<i64>,
}

/// An n-dimensional sphere defined by a vector from the origin and a
/// non-negative squared radius.  The radius is carried squared so that it is
/// exact in integer arithmetic.
pub struct Hypersphere {
    /// The sphere's centre, as its vector from the origin.
    pub origin: Vec<i64>,
    /// The square of the sphere's radius.
    pub sq_radius: i64,
}

impl Hyperplane {
    /// Is this plane's coordinate data well formed in dimensionality `n`?
    pub open spec fn wf(&self, n: nat) -> bool {
        &&& valid_pt(int_coords(self.origin@), n)
        &&& int_coords(self.normal@).len() == n
        &&& coords_bounded(int_coords(self.normal@))
    }

    /// The signed distance from the plane to `pt`, along the plane's normal:
    /// the dot product of the normal with `pt - origin`.
    pub fn distance_to_point(&self, pt: &VectorPointN) -> (r: i64)
        requires
            self.wf(pt@.len() as nat),
            coords_bounded(pt@),
        ensures
            r as int == signed_dist(int_coords(self.normal@), int_coords(self.origin@), pt@),
    {
        let n = self.normal.len();
        let mut acc: i64 = 0;
        let mut i: usize = 0;
        while i < n
            invariant
                i <= n,
                n == int_coords(self.normal@).len(),
                n == int_coords(self.origin@).len(),
                n == pt@.len(),
                n <= DIM_MAX,
                coords_bounded(int_coords(self.normal@)),
                coords_bounded(int_coords(self.origin@)),
                coords_bounded(pt@),
                acc as int == signed_dist(
                    int_coords(self.normal@).take(i as int),
                    int_coords(self.origin@).take(i as int),
                    pt@.take(i as int),
                ),
                -((i as int) * 2 * (COORD_MAX as int) * (COORD_MAX as int)) <= acc as int <= (
                i as int) * 2 * (COORD_MAX as int) * (COORD_MAX as int),
            decreases n - i,
        {
            proof {
                assert(int_coords(self.normal@)[i as int] == self.normal@[i as int] as int);
                assert(int_coords(self.origin@)[i as int] == self.origin@[i as int] as int);
                assert(pt@[i as int] == pt.origin@[i as int] as int);
            }
            let m = self.normal[i];
            let d = pt.origin[i] - self.origin[i];
            proof {
                assert(-(2 * 1048576int * 1048576int) <= (m as int) * (d as int) <= 2 * 1048576int
                    * 1048576int) by (nonlinear_arith)
                    requires
                        -1048576int <= m as int <= 1048576int,
                        -(2 * 1048576int) <= d as int <= 2 * 1048576int,
                ;
                assert((i as int + 1) * 2 * (COORD_MAX as int) * (COORD_MAX as int) <= (
                DIM_MAX as int) * 2 * (COORD_MAX as int) * (COORD_MAX as int)) by (nonlinear_arith)
                    requires i as int + 1 <= DIM_MAX as int;
                assert(int_coords(self.normal@).take(i + 1).drop_last() =~= int_coords(
                    self.normal@,
                ).take(i as int));
                assert(int_coords(self.origin@).take(i + 1).drop_last() =~= int_coords(
                    self.origin@,
                ).take(i as int));
                assert(pt@.take(i + 1).drop_last() =~= pt@.take(i as int));
            }
            acc = acc + m * d;
            i = i + 1;
        }
        proof {
            assert(int_coords(self.normal@).take(n as int) =~= int_coords(self.normal@));
            assert(int_coords(self.origin@).take(n as int) =~= int_coords(self.origin@));
            assert(pt@.take(n as int) =~= pt@);
        }
        acc
    }

    /// Does this plane intersect (touch or cut) the given sphere?  True
    /// exactly when the signed distance from the plane to the sphere's centre
    /// is at most the sphere's radius.
    pub fn intersects_hypersphere(&self, hypersphere: &Hypersphere) -> (r: bool)
        requires
            self.wf(int_coords(hypersphere.origin@).len() as nat),
            coords_bounded(int_coords(hypersphere.origin@)),
            hypersphere.sq_radius >= 0,
        ensures
            r == plane_intersects_sphere(
                int_coords(self.normal@),
                int_coords(self.origin@),
                int_coords(hypersphere.origin@),
                hypersphere.sq_radius as int,
            ),
    {
        let pt = VectorPointN { origin: hypersphere.origin.clone() };
        let s = self.distance_to_point(&pt);
        if s <= 0 {
            true
        } else {
            proof {
                assert((s as int) * (s as int)
                    < 85070591730234615865843651857942052864int) by (nonlinear_arith)
                    requires
                        0 <= s as int,
                        (s as int) < 9223372036854775808int,
                ;
            }
            (s as i128) * (s as i128) <= hypersphere.sq_radius as i128
        }
    }
}

} // verus!
