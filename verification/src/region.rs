//! Point and region value types.
//!
//! A `Point` identifies one location in a control-flow graph. A `Region`
//! is the inferred lifetime of a value: a finite set of points that only
//! ever grows, which is what makes the solver's fixed-point computation
//! terminate.

use vstd::prelude::*;
use vstd::seq_lib::*;
use vstd::set_lib::lemma_len_subset;

verus! {

/// An opaque, totally ordered, hashable identifier for one location in a
/// control-flow graph. The engine assumes no internal structure beyond
/// identity; adjacency lives in the graph abstraction.
#[derive(Clone, Copy, Debug, PartialEq, Eq, PartialOrd, Ord, Hash, Structural)]
pub struct Point {
    pub index: usize,
}

/// A finite, monotone-growing set of `Point`s. Once a point is added it
/// is never removed: regions only grow, which bounds the solver's
/// fixed-point loop.
///
/// The view of a region is the set of points it holds.
#[derive(Debug)]
pub struct Region {
    points: Vec<Point>,
}

impl View for Region {
    type V = Set<Point>;

    closed spec fn view(&self) -> Set<Point> {
        self.points@.to_set()
    }
}

impl Region {
    /// No point is stored twice, so `size` is the cardinality of the set.
    pub closed spec fn wf(self) -> bool {
        self.points@.no_duplicates()
    }

    /// The number of stored points; the solver's growth measure.
    pub closed spec fn size(self) -> nat {
        self.points@.len()
    }

    /// The empty region.
    pub fn new() -> (r: Region)
        ensures
            r@ == Set::<Point>::empty(),
            r.wf(),
            r.size() == 0,
    {
        let r = Region { points: Vec::new() };
        proof {
            assert(r@ =~= Set::<Point>::empty());
        }
        r
    }

    /// Membership test.
    pub fn contains(&self, p: Point) -> (r: bool)
        ensures
            r == self@.contains(p),
    {
        let n = self.points.len();
        for i in 0..n
            invariant
                n == self.points@.len(),
                forall|k: int| 0 <= k < i ==> self.points@[k] != p,
        {
            if self.points[i] == p {
                return true;
            }
        }
        proof {
            assert(!self.points@.contains(p));
        }
        false
    }

    /// Adds one point; reports whether the region grew.
    pub fn add_point(&mut self, p: Point) -> (grew: bool)
        requires
            old(self).wf(),
        ensures
            final(self).wf(),
            final(self)@ == old(self)@.insert(p),
            old(self)@ <= final(self)@,
            grew == !old(self)@.contains(p),
            final(self).size() == old(self).size() + (if grew { 1int } else { 0 }),
            !grew ==> *final(self) == *old(self),
    {
        if self.contains(p) {
            proof {
                assert(self@ =~= self@.insert(p));
            }
            false
        } else {
            self.points.push(p);
            proof {
                lemma_to_set_push(old(self).points@, p);
            }
            true
        }
    }

    /// Unions another region's points into this one; reports whether this
    /// region grew.
    pub fn add_region(&mut self, other: &Region) -> (grew: bool)
        requires
            old(self).wf(),
        ensures
            final(self).wf(),
            final(self)@ == old(self)@ + other@,
            old(self)@ <= final(self)@,
            grew == !(other@ <= old(self)@),
            final(self).size() >= old(self).size(),
            grew ==> final(self).size() > old(self).size(),
            !grew ==> *final(self) == *old(self),
    {
        let ghost start = *self;
        let mut grew: bool = false;
        let n = other.points.len();
        for j in 0..n
            invariant
                n == other.points@.len(),
                self.wf(),
                self@ == start@ + other.points@.subrange(0, j as int).to_set(),
                start@ <= self@,
                grew == !(other.points@.subrange(0, j as int).to_set() <= start@),
                self.size() >= start.size(),
                grew ==> self.size() > start.size(),
                !grew ==> *self == start,
        {
            let ghost pre = *self;
            let ghost prefix = other.points@.subrange(0, j as int);
            let p = other.points[j];
            let g = self.add_point(p);
            grew = grew || g;
            proof {
                assert(other.points@.subrange(0, j + 1) == prefix.push(p));
                lemma_to_set_push(prefix, p);
                assert(self@ =~= start@ + other.points@.subrange(0, j + 1).to_set());
                if !grew {
                    assert(other.points@.subrange(0, j + 1).to_set() <= start@);
                } else {
                    if g && pre@.contains(p) {
                        assert(false);
                    }
                    assert(!(other.points@.subrange(0, j + 1).to_set() <= start@) || self.size() > start.size()) by {
                        if g {
                            assert(!pre@.contains(p));
                            assert(start@ <= pre@);
                            assert(!start@.contains(p));
                            assert(other.points@.subrange(0, j + 1).to_set().contains(p));
                        }
                    }
                    assert(!(other.points@.subrange(0, j + 1).to_set() <= start@)) by {
                        if other.points@.subrange(0, j + 1).to_set() <= start@ {
                            assert(prefix.to_set() <= prefix.push(p).to_set());
                        }
                    }
                }
            }
        }
        proof {
            assert(other.points@.subrange(0, n as int) == other.points@);
            assert(other@ == other.points@.to_set());
        }
        grew
    }

    /// Structural copy: a fresh region holding exactly the same points.
    pub fn duplicate(&self) -> (r: Region)
        ensures
            r@ == self@,
            r.size() == self.size(),
            self.wf() ==> r.wf(),
    {
        let mut points: Vec<Point> = Vec::new();
        let n = self.points.len();
        for i in 0..n
            invariant
                n == self.points@.len(),
                points@ == self.points@.subrange(0, i as int),
        {
            points.push(self.points[i]);
            proof {
                assert(points@ =~= self.points@.subrange(0, i + 1));
            }
        }
        proof {
            assert(self.points@.subrange(0, n as int) == self.points@);
        }
        Region { points }
    }

    /// Does every point of this region lie in `other`?
    pub fn subset(&self, other: &Region) -> (r: bool)
        ensures
            r == (self@ <= other@),
    {
        let n = self.points.len();
        for i in 0..n
            invariant
                n == self.points@.len(),
                forall|k: int| 0 <= k < i ==> other@.contains(#[trigger] self.points@[k]),
        {
            if !other.contains(self.points[i]) {
                proof {
                    assert(self@.contains(self.points@[i as int]));
                }
                return false;
            }
        }
        proof {
            assert forall|p: Point| self@.contains(p) implies other@.contains(p) by {
                let k = choose|k: int| 0 <= k < self.points@.len() && self.points@[k] == p;
                assert(other@.contains(self.points@[k]));
            }
        }
        true
    }

    /// Set equality: both regions hold exactly the same points.
    pub fn equals(&self, other: &Region) -> (r: bool)
        ensures
            r == (self@ == other@),
    {
        let fwd = self.subset(other);
        let bwd = other.subset(self);
        proof {
            if fwd && bwd {
                assert(self@ =~= other@);
            }
        }
        fwd && bwd
    }
}

impl PartialEq for Region {
    /// Two regions are equal when they hold the same set of points,
    /// whatever order the points were added in.
    fn eq(&self, other: &Region) -> bool {
        self.equals(other)
    }
}

impl vstd::std_specs::cmp::PartialEqSpecImpl for Region {
    open spec fn obeys_eq_spec() -> bool {
        true
    }

    open spec fn eq_spec(&self, other: &Region) -> bool {
        self@ == other@
    }
}

/// Appending one element to a sequence inserts it into the set of the
/// sequence's elements.
proof fn lemma_to_set_push(s: Seq<Point>, x: Point)
    ensures
        s.push(x).to_set() == s.to_set().insert(x),
{
    assert forall|a: Point| s.push(x).to_set().contains(a) implies s.to_set().insert(x).contains(a) by {
        let i = choose|i: int| 0 <= i < s.push(x).len() && s.push(x)[i] == a;
        if i < s.len() {
            assert(s[i] == a);
        }
    }
    assert forall|a: Point| s.to_set().insert(x).contains(a) implies s.push(x).to_set().contains(a) by {
        if s.contains(a) {
            let i = choose|i: int| 0 <= i < s.len() && s[i] == a;
            assert(s.push(x)[i] == a);
        } else {
            assert(s.push(x)[s.len() as int] == x);
        }
    }
    assert(s.push(x).to_set() =~= s.to_set().insert(x));
}

/// The total number of stored points over a table of regions: the
/// solver's strictly increasing progress measure.
pub open spec fn total_size(rs: Seq<Region>) -> nat
    decreases rs.len(),
{
    if rs.len() == 0 {
        0
    } else {
        total_size(rs.drop_last()) + rs.last().size()
    }
}

/// Replacing one region of a table changes the total size by exactly the
/// difference of the two regions' sizes.
pub proof fn lemma_total_size_update(rs: Seq<Region>, i: int, r: Region)
    requires
        0 <= i < rs.len(),
    ensures
        total_size(rs.update(i, r)) + rs[i].size() == total_size(rs) + r.size(),
    decreases rs.len(),
{
    let upd = rs.update(i, r);
    if i == rs.len() - 1 {
        assert(upd.drop_last() =~= rs.drop_last());
    } else {
        lemma_total_size_update(rs.drop_last(), i, r);
        assert(upd.drop_last() =~= rs.drop_last().update(i, r));
        assert(upd.last() == rs.last());
    }
}

/// A table whose regions each hold at most `u` points holds at most
/// `len * u` points in total.
pub proof fn lemma_total_size_bound(rs: Seq<Region>, u: nat)
    requires
        forall|i: int| 0 <= i < rs.len() ==> (#[trigger] rs[i].size()) <= u,
    ensures
        total_size(rs) <= rs.len() * u,
    decreases rs.len(),
{
    if rs.len() == 0 {
    } else {
        lemma_total_size_bound(rs.drop_last(), u);
        assert(rs.last().size() <= u);
        assert((rs.len() - 1) * u + u == rs.len() * u) by (nonlinear_arith);
    }
}

/// A well-formed region whose points all lie in a finite set of at most
/// `u` points holds at most `u` points itself.
pub proof fn lemma_region_size_bounded(r: Region, allowed: Set<Point>, u: nat)
    requires
        r.wf(),
        r@ <= allowed,
        allowed.finite(),
        allowed.len() <= u,
    ensures
        r.size() <= u,
{
    r.points@.unique_seq_to_set();
    lemma_len_subset(r.points@.to_set(), allowed);
}

} // verus!
