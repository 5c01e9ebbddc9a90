use crate::rectangle::{lemma_quadrant_inside, lemma_quadrants_cover};
use crate::{Point, Positioned, Rectangle};
use vstd::prelude::*;
use vstd::seq_lib::lemma_multiset_commutative;

verus! {

broadcast use {
    vstd::seq_lib::group_seq_properties,
    vstd::seq_lib::group_filter_ensures,
    vstd::seq_lib::group_to_multiset_ensures,
};

/// The number of entries a node holds itself before it subdivides.
pub const NODE_CAPACITY: usize = 4;

/// Why an insertion was refused.
#[derive(Clone, Copy, Debug, PartialEq, Eq, Structural)]
pub enum QuadtreeError {
    /// The entry's position lies outside the node's boundary.
    OutOfBounds,
}

/// The four children of a subdivided node.
pub struct Quadrants<'a, T> {
    north_west: Box<Quadtree<'a, T>>,
    north_east: Box<Quadtree<'a, T>>,
    south_west: Box<Quadtree<'a, T>>,
    south_east: Box<Quadtree<'a, T>>,
}

/// A node of the index: a boundary, the entries it holds itself, in insertion
/// order, and, once it has subdivided, its four quadrants.
pub struct Quadtree<'a, T> {
    boundary: Rectangle,
    entries: Vec<&'a T>,
    quadrants: Option<Quadrants<'a, T>>,
}

impl<'a, T: Positioned> Quadtree<'a, T> {
    pub closed spec fn spec_boundary(self) -> Rectangle {
        self.boundary
    }

    /// The entries the node holds itself, in insertion order.
    pub closed spec fn spec_entries(self) -> Seq<&'a T> {
        self.entries@
    }

    pub closed spec fn is_subdivided(self) -> bool {
        self.quadrants is Some
    }

    /// The child of index `i` (north-west, north-east, south-west, south-east).
    pub closed spec fn spec_quadrant(self, i: int) -> Quadtree<'a, T>
        recommends
            self.is_subdivided(),
    {
        let q = self.quadrants->Some_0;
        if i == 0 {
            *q.north_west
        } else if i == 1 {
            *q.north_east
        } else if i == 2 {
            *q.south_west
        } else {
            *q.south_east
        }
    }

    /// Everything stored under the node, in the order a query reports it: the node's
    /// own entries first, then those of each quadrant in turn.
    pub closed spec fn elements(self) -> Seq<&'a T>
        decreases self,
    {
        match self.quadrants {
            None => self.entries@,
            Some(q) => self.entries@ + q.north_west.elements() + q.north_east.elements()
                + q.south_west.elements() + q.south_east.elements(),
        }
    }

    /// The node's boundary is well formed, it holds at most `NODE_CAPACITY` entries
    /// itself, each inside its boundary, and each quadrant covers the matching
    /// quadrant of the boundary and is well formed in turn.
    pub closed spec fn wf(self) -> bool
        decreases self,
    {
        &&& self.boundary.wf()
        &&& self.entries.len() <= NODE_CAPACITY
        &&& forall|i: int|
            0 <= i < self.entries.len() ==> self.boundary.spec_contains(
                #[trigger] self.entries@[i].spec_position(),
            )
        &&& match self.quadrants {
            None => true,
            Some(q) => {
                &&& q.north_west.boundary == self.boundary.spec_quadrant(0)
                &&& q.north_east.boundary == self.boundary.spec_quadrant(1)
                &&& q.south_west.boundary == self.boundary.spec_quadrant(2)
                &&& q.south_east.boundary == self.boundary.spec_quadrant(3)
                &&& q.north_west.wf()
                &&& q.north_east.wf()
                &&& q.south_west.wf()
                &&& q.south_east.wf()
            },
        }
    }

    /// How many levels an insertion may descend below this node: a leaf with room
    /// takes the entry itself, a full leaf hands it to a fresh quadrant.
    pub closed spec fn routing_depth(self) -> nat
        decreases self,
    {
        match self.quadrants {
            None => if self.entries.len() < NODE_CAPACITY {
                0
            } else {
                1
            },
            Some(q) => 1 + q.north_west.routing_depth() + q.north_east.routing_depth()
                + q.south_west.routing_depth() + q.south_east.routing_depth(),
        }
    }

    /// The test a query applies to each entry.
    pub open spec fn in_range(range: Rectangle) -> spec_fn(&'a T) -> bool {
        |e: &'a T| range.spec_contains(e.spec_position())
    }

    /// Every element stored under a well-formed node lies inside its boundary.
    pub proof fn lemma_elements_inside(self)
        requires
            self.wf(),
        ensures
            forall|k: int|
                0 <= k < self.elements().len() ==> self.spec_boundary().spec_contains(
                    #[trigger] self.elements()[k].spec_position(),
                ),
        decreases self,
    {
        if let Some(q) = self.quadrants {
            q.north_west.lemma_elements_inside();
            q.north_east.lemma_elements_inside();
            q.south_west.lemma_elements_inside();
            q.south_east.lemma_elements_inside();
            assert forall|k: int| 0 <= k < self.elements().len() implies self.boundary.spec_contains(
                #[trigger] self.elements()[k].spec_position(),
            ) by {
                let e = self.entries@;
                let a = q.north_west.elements();
                let b = q.north_east.elements();
                let c = q.south_west.elements();
                let d = q.south_east.elements();
                let p = self.elements()[k].spec_position();
                if k < e.len() {
                } else if k < e.len() + a.len() {
                    assert(a[k - e.len()] == self.elements()[k]);
                    lemma_quadrant_inside(self.boundary, 0, p);
                } else if k < e.len() + a.len() + b.len() {
                    assert(b[k - e.len() - a.len()] == self.elements()[k]);
                    lemma_quadrant_inside(self.boundary, 1, p);
                } else if k < e.len() + a.len() + b.len() + c.len() {
                    assert(c[k - e.len() - a.len() - b.len()] == self.elements()[k]);
                    lemma_quadrant_inside(self.boundary, 2, p);
                } else {
                    assert(d[k - e.len() - a.len() - b.len() - c.len()] == self.elements()[k]);
                    lemma_quadrant_inside(self.boundary, 3, p);
                }
            }
        }
    }

    /// Querying a well-formed node with a range that misses its boundary reports nothing.
    pub proof fn lemma_disjoint_range_selects_nothing(self, range: Rectangle)
        requires
            self.wf(),
            !self.spec_boundary().spec_intersects(range),
        ensures
            self.elements().filter(Self::in_range(range)) == Seq::<&'a T>::empty(),
    {
        let s = self.elements().filter(Self::in_range(range));
        self.lemma_elements_inside();
        if s.len() > 0 {
            assert(Self::in_range(range)(s[0]));
            assert(s.contains(s[0]));
            self.elements().lemma_filter_contains_rev(Self::in_range(range), s[0]);
        }
        assert(s =~= Seq::<&'a T>::empty());
    }

    /// An empty node over the rectangle with the given center and half extents.
    pub fn new(center_x: i32, center_y: i32, half_dim_x: i32, half_dim_y: i32) -> (t: Quadtree<'a, T>)
        requires
            Rectangle::new_spec(center_x, center_y, half_dim_x, half_dim_y).wf(),
        ensures
            t.wf(),
            t.spec_boundary() == Rectangle::new_spec(center_x, center_y, half_dim_x, half_dim_y),
            !t.is_subdivided(),
            t.spec_entries() == Seq::<&'a T>::empty(),
            t.elements() == Seq::<&'a T>::empty(),
    {
        Quadtree {
            boundary: Rectangle::new(center_x, center_y, half_dim_x, half_dim_y),
            entries: Vec::new(),
            quadrants: None,
        }
    }

    /// The values stored under the node whose positions lie in `range`: the node's
    /// own entries in insertion order, then the results of each quadrant in turn.
    pub fn query(&self, range: &Rectangle) -> (r: Vec<&'a T>)
        requires
            self.wf(),
        ensures
            r@ == self.elements().filter(Self::in_range(*range)),
        decreases self,
    {
        let mut result: Vec<&'a T> = Vec::new();
        if !self.boundary.intersects(range) {
            proof {
                self.lemma_disjoint_range_selects_nothing(*range);
            }
            return result;
        }
        let ghost pred = Self::in_range(*range);
        let mut i: usize = 0;
        while i < self.entries.len()
            invariant
                i <= self.entries.len(),
                result@ == self.entries@.take(i as int).filter(pred),
                pred == Self::in_range(*range),
            decreases self.entries.len() - i,
        {
            let e: &'a T = self.entries[i];
            proof {
                assert(self.entries@.take(i + 1) == self.entries@.take(i as int).push(e));
                self.entries@.take(i as int).lemma_filter_push(e, pred);
            }
            if range.contains(e) {
                result.push(e);
            }
            i += 1;
        }
        assert(self.entries@.take(i as int) == self.entries@);
        match &self.quadrants {
            None => result,
            Some(q) => {
                let mut a = q.north_west.query(range);
                let mut b = q.north_east.query(range);
                let mut c = q.south_west.query(range);
                let mut d = q.south_east.query(range);
                result.append(&mut a);
                result.append(&mut b);
                result.append(&mut c);
                result.append(&mut d);
                proof {
                    let e = self.entries@;
                    let (sa, sb) = (q.north_west.elements(), q.north_east.elements());
                    let (sc, sd) = (q.south_west.elements(), q.south_east.elements());
                    Seq::filter_distributes_over_add(e, sa, pred);
                    Seq::filter_distributes_over_add(e + sa, sb, pred);
                    Seq::filter_distributes_over_add(e + sa + sb, sc, pred);
                    Seq::filter_distributes_over_add(e + sa + sb + sc, sd, pred);
                }
                result
            },
        }
    }

    /// Stores `entry` under the node. An entry outside the boundary is refused with
    /// `OutOfBounds` and leaves the node as it was. A leaf with fewer than
    /// `NODE_CAPACITY` entries appends it to its own entries. Otherwise the node
    /// subdivides if it has not yet done so, keeps its own entries where they are,
    /// and hands the entry to the first quadrant, in order, whose boundary contains it.
    pub fn insert(&mut self, entry: &'a T) -> (r: Result<(), QuadtreeError>)
        requires
            old(self).wf(),
        ensures
            final(self).wf(),
            final(self).spec_boundary() == old(self).spec_boundary(),
            r is Err <==> !old(self).spec_boundary().spec_contains(entry.spec_position()),
            r is Err ==> *final(self) == *old(self),
            r is Ok ==> final(self).elements().to_multiset() == old(self).elements().to_multiset().insert(
                entry,
            ),
            r is Ok && !old(self).is_subdivided() && old(self).spec_entries().len() < NODE_CAPACITY
                ==> !final(self).is_subdivided() && final(self).spec_entries() == old(
                self,
            ).spec_entries().push(entry),
            r is Ok && (old(self).is_subdivided() || old(self).spec_entries().len() >= NODE_CAPACITY)
                ==> final(self).is_subdivided() && final(self).spec_entries() == old(
                self,
            ).spec_entries(),
            r is Ok && old(self).is_subdivided() ==> forall|i: int|
                0 <= i < 4 && i != old(self).spec_boundary().first_quadrant_of(entry.spec_position())
                    ==> #[trigger] final(self).spec_quadrant(i) == old(self).spec_quadrant(i),
            r is Ok && old(self).is_subdivided() ==> ({
                let k = old(self).spec_boundary().first_quadrant_of(entry.spec_position());
                final(self).spec_quadrant(k).elements().to_multiset() == old(self).spec_quadrant(
                    k,
                ).elements().to_multiset().insert(entry)
            }),
            r is Ok && !old(self).is_subdivided() && old(self).spec_entries().len() >= NODE_CAPACITY
                ==> forall|i: int|
                0 <= i < 4 ==> #[trigger] final(self).spec_quadrant(i).elements() == (if i
                    == old(self).spec_boundary().first_quadrant_of(entry.spec_position()) {
                    seq![entry]
                } else {
                    Seq::<&'a T>::empty()
                }),
        decreases old(self).routing_depth(),
    {
        if !self.boundary.contains(entry) {
            return Err(QuadtreeError::OutOfBounds);
        }
        if self.quadrants.is_none() && self.entries.len() < NODE_CAPACITY {
            self.entries.push(entry);
            return Ok(());
        }
        if self.quadrants.is_none() {
            self.subdivide();
        }
        let ghost pos = entry.spec_position();
        let ghost mid = *self;
        proof {
            lemma_quadrants_cover(self.boundary, pos);
        }
        let mut q = self.quadrants.take().unwrap();
        proof {
            if old(self).is_subdivided() {
                assert(mid == *old(self));
                assert(old(self).routing_depth() == 1 + q.north_west.routing_depth()
                    + q.north_east.routing_depth() + q.south_west.routing_depth()
                    + q.south_east.routing_depth());
            } else {
                assert(old(self).routing_depth() == 1);
                assert(mid.spec_quadrant(0) == *q.north_west);
                assert(mid.spec_quadrant(1) == *q.north_east);
                assert(mid.spec_quadrant(2) == *q.south_west);
                assert(mid.spec_quadrant(3) == *q.south_east);
            }
            assert(q.north_west.routing_depth() < old(self).routing_depth());
            assert(q.north_east.routing_depth() < old(self).routing_depth());
            assert(q.south_west.routing_depth() < old(self).routing_depth());
            assert(q.south_east.routing_depth() < old(self).routing_depth());
        }
        let mut r = q.north_west.insert(entry);
        if r.is_err() {
            r = q.north_east.insert(entry);
        }
        if r.is_err() {
            r = q.south_west.insert(entry);
        }
        if r.is_err() {
            r = q.south_east.insert(entry);
        }
        self.quadrants = Some(q);
        proof {
            let m = mid.quadrants->Some_0;
            let e = self.entries@;
            let (a0, b0) = (m.north_west.elements(), m.north_east.elements());
            let (c0, d0) = (m.south_west.elements(), m.south_east.elements());
            let (a1, b1) = (q.north_west.elements(), q.north_east.elements());
            let (c1, d1) = (q.south_west.elements(), q.south_east.elements());
            assert(self.elements() == e + a1 + b1 + c1 + d1);
            assert(mid.elements() == e + a0 + b0 + c0 + d0);
            if !old(self).is_subdivided() {
                assert(mid.spec_quadrant(0) == *m.north_west);
                assert(mid.spec_quadrant(1) == *m.north_east);
                assert(mid.spec_quadrant(2) == *m.south_west);
                assert(mid.spec_quadrant(3) == *m.south_east);
                assert(e + a0 + b0 + c0 + d0 == e);
            }
            assert(mid.elements() == old(self).elements());
            lemma_multiset_commutative(e, a0);
            lemma_multiset_commutative(e + a0, b0);
            lemma_multiset_commutative(e + a0 + b0, c0);
            lemma_multiset_commutative(e + a0 + b0 + c0, d0);
            lemma_multiset_commutative(e, a1);
            lemma_multiset_commutative(e + a1, b1);
            lemma_multiset_commutative(e + a1 + b1, c1);
            lemma_multiset_commutative(e + a1 + b1 + c1, d1);
            assert(self.elements().to_multiset() =~= old(self).elements().to_multiset().insert(
                entry,
            ));
        }
        r
    }

    /// Gives a full leaf its four quadrants, each an empty leaf.
    fn subdivide(&mut self)
        requires
            old(self).wf(),
            !old(self).is_subdivided(),
        ensures
            final(self).wf(),
            final(self).spec_boundary() == old(self).spec_boundary(),
            final(self).spec_entries() == old(self).spec_entries(),
            final(self).is_subdivided(),
            forall|i: int|
                0 <= i < 4 ==> (#[trigger] final(self).spec_quadrant(i)).elements() == Seq::<
                    &'a T,
                >::empty() && final(self).spec_quadrant(i).routing_depth() == 0,
    {
        proof {
            lemma_quadrant_inside(self.boundary, 0, self.boundary.center);
            lemma_quadrant_inside(self.boundary, 1, self.boundary.center);
            lemma_quadrant_inside(self.boundary, 2, self.boundary.center);
            lemma_quadrant_inside(self.boundary, 3, self.boundary.center);
        }
        let nw = self.boundary.quadrant(0);
        let ne = self.boundary.quadrant(1);
        let sw = self.boundary.quadrant(2);
        let se = self.boundary.quadrant(3);
        self.quadrants = Some(
            Quadrants {
                north_west: Box::new(Quadtree::new(nw.center.x, nw.center.y, nw.half_dim.x, nw.half_dim.y)),
                north_east: Box::new(Quadtree::new(ne.center.x, ne.center.y, ne.half_dim.x, ne.half_dim.y)),
                south_west: Box::new(Quadtree::new(sw.center.x, sw.center.y, sw.half_dim.x, sw.half_dim.y)),
                south_east: Box::new(Quadtree::new(se.center.x, se.center.y, se.half_dim.x, se.half_dim.y)),
            },
        );
    }

    /// Querying a well-formed node with its own boundary reports everything stored
    /// under it, in order: nothing is lost and nothing repeats.
    pub proof fn lemma_query_boundary_reports_all(self)
        requires
            self.wf(),
        ensures
            self.elements().filter(Self::in_range(self.spec_boundary())) == self.elements(),
    {
        self.lemma_elements_inside();
        lemma_filter_keeps_all(self.elements(), Self::in_range(self.spec_boundary()));
    }

    /// What an accepted insertion does to a query of the whole boundary: it reports
    /// everything it reported before, and the new entry once more.
    pub proof fn lemma_insert_then_query_all(before: Self, after: Self, entry: &'a T)
        requires
            before.wf(),
            after.wf(),
            after.spec_boundary() == before.spec_boundary(),
            after.elements().to_multiset() == before.elements().to_multiset().insert(entry),
        ensures
            after.elements().filter(Self::in_range(after.spec_boundary())).to_multiset()
                == before.elements().filter(Self::in_range(before.spec_boundary())).to_multiset().insert(
                entry,
            ),
    {
        before.lemma_query_boundary_reports_all();
        after.lemma_query_boundary_reports_all();
    }

    pub fn boundary(&self) -> (r: Rectangle)
        ensures
            r == self.spec_boundary(),
    {
        self.boundary
    }

    /// The entries the node holds itself, in insertion order.
    pub fn entries(&self) -> (r: &Vec<&'a T>)
        ensures
            r@ == self.spec_entries(),
    {
        &self.entries
    }

    /// The child of index `i` (north-west, north-east, south-west, south-east), once
    /// the node has subdivided.
    pub fn quadrant(&self, i: usize) -> (r: Option<&Quadtree<'a, T>>)
        ensures
            r is Some <==> self.is_subdivided() && i < 4,
            r is Some ==> *r->Some_0 == self.spec_quadrant(i as int),
    {
        match &self.quadrants {
            None => None,
            Some(q) => if i == 0 {
                Some(&*q.north_west)
            } else if i == 1 {
                Some(&*q.north_east)
            } else if i == 2 {
                Some(&*q.south_west)
            } else if i == 3 {
                Some(&*q.south_east)
            } else {
                None
            },
        }
    }
}

/// Filtering keeps a sequence whole when every element passes.
proof fn lemma_filter_keeps_all<A>(s: Seq<A>, pred: spec_fn(A) -> bool)
    requires
        forall|k: int| 0 <= k < s.len() ==> pred(#[trigger] s[k]),
    ensures
        s.filter(pred) == s,
    decreases s.len(),
{
    if s.len() > 0 {
        let init = s.drop_last();
        assert forall|k: int| 0 <= k < init.len() implies pred(#[trigger] init[k]) by {
            assert(init[k] == s[k]);
        }
        lemma_filter_keeps_all(init, pred);
        init.lemma_filter_push(s.last(), pred);
        assert(init.push(s.last()) == s);
    } else {
        assert(s.filter(pred).len() == 0);
        assert(s.filter(pred) =~= s);
    }
}

} // verus!