//! The quadtree: construction, subdivision, insertion, range query and
//! reset.

use vstd::prelude::*;
use crate::geometry::{Point, Rect, Vector2};
use crate::laws::{
    lemma_divided, lemma_holds_each_of_parts, lemma_insertion, lemma_insertion_keeps_tiling,
    lemma_query_bounds_finds_all, lemma_query_finds,
};
use crate::model::{lemma_divided_rank, quadrant_leaves, Node};
use crate::scalar::{plus, Scalar};

verus! {

/// A node of the tree with all that lies below it.
///
/// `children` holds the points that are stored at the node itself, in the
/// order of their insertion. `quads` is absent while the node is a leaf and
/// holds its four quadrants, north-west, north-east, south-east and
/// south-west, once it has been subdivided. `capacity` is the number of
/// points that the node stores itself before it subdivides, `max_capacity`
/// the capacity that its quadrants get when it does.
#[derive(Debug)]
pub struct Quadtree<T> {
    pub bounds: Rect<T>,
    pub capacity: usize,
    pub max_capacity: usize,
    pub children: Vec<Vector2<T>>,
    pub quads: Option<Vec<Quadtree<T>>>,
}

/// The positions that a vector of points stands for.
pub open spec fn positions<T: Scalar>(points: Seq<Vector2<T>>) -> Seq<Point> {
    points.map_values(|p: Vector2<T>| p@)
}

impl<T: Scalar> Quadtree<T> {
    /// The node that the tree stands for.
    pub open spec fn model(self) -> Node
        decreases self,
    {
        Node {
            bounds: self.bounds@,
            capacity: self.capacity as nat,
            max_capacity: self.max_capacity as nat,
            points: positions(self.children@),
            quads: match self.quads {
                None => None,
                Some(qs) => Some(
                    Seq::new(
                        qs@.len(),
                        |i: int|
                            if 0 <= i < qs@.len() {
                                qs@[i].model()
                            } else {
                                arbitrary()
                            },
                    ),
                ),
            },
        }
    }

    /// Whether the tree is well formed: its model satisfies the invariant
    /// of the tree, and `T` can hold the regions of all its nodes.
    pub open spec fn wf(self) -> bool {
        self.model().inv() && self.model().fits(T::lowest(), T::highest())
    }
}

impl<T: Scalar> View for Quadtree<T> {
    type V = Node;

    open spec fn view(&self) -> Node {
        self.model()
    }
}

impl<T: Scalar> Quadtree<T> {
    /// A leaf without points on the region `bounds`. Its quadrants, once
    /// there are any, get the same capacity.
    pub fn new(bounds: Rect<T>, capacity: usize) -> (tree: Self)
        ensures
            tree@ == Node::leaf(bounds@, capacity as nat),
            tree.bounds == bounds,
            tree.capacity == capacity,
            tree.max_capacity == capacity,
            tree.children@.len() == 0,
            tree.quads is None,
            tree@.tiled(),
            bounds.valid() ==> tree.wf(),
    {
        let tree = Quadtree {
            bounds,
            capacity,
            max_capacity: capacity,
            children: with_room(capacity),
            quads: None,
        };
        assert(tree@.points =~= Seq::empty());
        tree
    }

    /// The same tree on another region. Nothing else changes: the tree
    /// stays well formed where the new region holds all its points.
    pub fn set_bounds(self, bounds: Rect<T>) -> (tree: Self)
        ensures
            tree@ == (Node { bounds: bounds@, ..self@ }),
            tree.bounds == bounds,
            tree.capacity == self.capacity,
            tree.max_capacity == self.max_capacity,
            tree.children == self.children,
            tree.quads == self.quads,
            self.quads is None ==> tree@.tiled(),
            self.wf() && bounds.valid() && bounds@.holds_each(self@.all_points()) ==> tree.wf(),
    {
        let mut tree = self;
        tree.bounds = bounds;
        assert(tree@.all_points() == self@.all_points());

        tree
    }

    /// The same tree with another capacity for the node itself, and
    /// without the points that the node held itself. The capacity that
    /// quadrants get stays.
    pub fn set_capacity(self, capacity: usize) -> (tree: Self)
        ensures
            tree@ == (Node { capacity: capacity as nat, points: Seq::empty(), ..self@ }),
            tree.capacity == capacity,
            tree.max_capacity == self.max_capacity,
            tree.bounds == self.bounds,
            tree.children@.len() == 0,
            tree.quads == self.quads,
            self@.tiled() ==> tree@.tiled(),
            self.wf() ==> tree.wf(),
    {
        let mut tree = self;
        tree.capacity = capacity;
        tree.children = with_room(capacity);
        proof {
            assert(tree@.points =~= Seq::empty());
            if self.wf() {
                let kept = tree@.all_points();
                let before = self@.all_points();
                assert forall|i: int| 0 <= i < kept.len() implies tree@.bounds.contains(
                    #[trigger] kept[i],
                ) by {
                    if self@.quads is Some {
                        assert(kept[i] == before[self@.points.len() + i]);
                    }
                }
            }
        }

        tree
    }

    /// The same node, subdivided ahead of any insertion: in place of any
    /// quadrants that it had it gets four empty leaves on the four
    /// quadrants of its region, each with the capacity of the node. The
    /// node then stores no point itself and passes every point on.
    pub fn set_quads(self) -> (tree: Self)
        requires
            self.bounds.valid(),
        ensures
            tree@ == (Node { quads: Some(quadrant_leaves(self@.bounds, self@.capacity)), ..self@ }),
            tree.bounds == self.bounds,
            tree.capacity == self.capacity,
            tree.max_capacity == self.max_capacity,
            tree.children == self.children,
            tree@.tiled(),
            self.wf() ==> tree.wf(),
    {
        let quads = quadrants(self.bounds, self.capacity);
        let mut tree = self;
        tree.quads = Some(quads);
        proof {
            let fresh = quadrant_leaves(self@.bounds, self@.capacity);
            assert(tree@.quads->0 =~= fresh);
            assert forall|i: int| 0 <= i < 4 implies (#[trigger] fresh[i]).all_points() == Seq::<
                Point,
            >::empty() && fresh[i].inv() && fresh[i].tiled() && (self.bounds.valid()
                ==> fresh[i].fits(T::lowest(), T::highest())) by {}
            if self.wf() {
                let kept = tree@.all_points();
                let before = self@.all_points();
                assert forall|i: int| 0 <= i < kept.len() implies tree@.bounds.contains(
                    #[trigger] kept[i],
                ) by {
                    assert(kept[i] == before[i]);
                }
            }
        }

        tree
    }

    /// Subdivides the node into four empty quadrants, unless it has
    /// quadrants already. The points of the node stay where they are.
    pub fn divide(&mut self)
        requires
            old(self).quads is None ==> old(self).bounds.valid(),
        ensures
            final(self)@ == old(self)@.divided(),
            old(self).quads is Some ==> *final(self) == *old(self),
            final(self).bounds == old(self).bounds,
            final(self).capacity == old(self).capacity,
            final(self).max_capacity == old(self).max_capacity,
            final(self).children == old(self).children,
            old(self).wf() ==> final(self).wf(),
            old(self)@.tiled() ==> final(self)@.tiled(),
    {
        if self.quads.is_some() {
            return ;
        }
        self.quads = Some(quadrants(self.bounds, self.max_capacity));
        proof {
            assert(self@.quads->0 =~= old(self)@.fresh_quads());
            lemma_divided(old(self)@, T::lowest(), T::highest());
        }
    }

    /// Stores a point in the tree, and tells whether it was stored.
    ///
    /// A point outside the region of the node is refused. A leaf with room
    /// stores the point itself. Any other node subdivides, if it has not
    /// yet, and offers the point to its quadrants in order until one stores
    /// it; where none does, the point is refused.
    pub fn insert(&mut self, location: Vector2<T>) -> (accepted: bool)
        requires
            old(self).wf(),
        ensures
            final(self)@ == old(self)@.inserted(location@),
            accepted == old(self)@.accepts(location@),
            final(self).wf(),
            old(self)@.tiled() ==> final(self)@.tiled(),
            final(self).bounds == old(self).bounds,
            final(self).capacity == old(self).capacity,
            final(self).max_capacity == old(self).max_capacity,
            !old(self)@.bounds.contains(location@) ==> !accepted && *final(self) == *old(self),
            final(self).children@ == (if old(self)@.bounds.contains(location@) && old(self).quads
                is None && old(self).children@.len() < old(self).capacity {
                old(self).children@.push(location)
            } else {
                old(self).children@
            }),
            old(self)@.bounds.contains(location@) && old(self).quads is None && old(
                self,
            ).children@.len() < old(self).capacity ==> accepted && final(self).quads is None,
            accepted ==> final(self)@.all_points().to_multiset() == old(
                self,
            )@.all_points().to_multiset().insert(location@),
            !accepted ==> final(self)@.all_points() == old(self)@.all_points(),
        decreases old(self)@.rank(),
    {
        proof {
            lemma_insertion(old(self)@, location@, T::lowest(), T::highest());
            lemma_insertion_keeps_tiling(old(self)@, location@);
        }
        if !self.bounds.contains(location) {
            return false;
        }
        if self.children.len() < self.capacity && self.quads.is_none() {
            self.children.push(location);
            assert(self@.points =~= old(self)@.points.push(location@));
            return true;
        }
        if self.quads.is_none() {
            self.divide();
        }
        let ghost d = old(self)@.divided();
        let ghost qs = d.quads->0;
        let ghost tried = d.attempts(location@);
        proof {
            lemma_divided_rank(old(self)@, location@);
        }

        let mut i: usize = 0;
        while i < 4
            invariant
                0 <= i <= 4,
                d == old(self)@.divided(),
                d.inv(),
                d.fits(T::lowest(), T::highest()),
                d.rank() <= old(self)@.rank(),
                qs == d.quads->0,
                tried == d.attempts(location@),
                old(self)@.insertion(location@) == d.routed(tried),
                old(self).wf(),
                !(old(self).quads is None && old(self).children@.len() < old(self).capacity),
                self.children == old(self).children,
                self.bounds == old(self).bounds,
                self.capacity == old(self).capacity,
                self.max_capacity == old(self).max_capacity,
                self.quads is Some,
                self@.quads->0.len() == 4,
                self@ == (Node { quads: self@.quads, ..d }),
                forall|j: int|
                    0 <= j < i ==> self@.quads->0[j] == (#[trigger] tried[j]).0 && !tried[j].1,
                forall|j: int| i <= j < 4 ==> self@.quads->0[j] == #[trigger] qs[j],
            decreases 4 - i,
        {
            let stored = self.quads.as_mut().unwrap()[i].insert(location);
            if stored {
                proof {
                    assert(self@.quads->0 =~= d.routed(tried).0.quads->0);
                    lemma_insertion(old(self)@, location@, T::lowest(), T::highest());
                    lemma_insertion_keeps_tiling(old(self)@, location@);
                }
                return true;
            }
            i += 1;
        }
        proof {
            assert(self@.quads->0 =~= d.routed(tried).0.quads->0);
        }
        false
    }

    /// The points of the tree that lie in `range`: those of the node
    /// itself first, in the order of their insertion, then those of each
    /// quadrant in turn. A subtree whose region shares no area with the
    /// range is not visited.
    pub fn query(&self, range: Rect<T>) -> (found: Vec<Vector2<T>>)
        requires
            self.wf(),
            range.valid(),
        ensures
            positions(found@) == self@.query(range@),
            positions(found@) == self@.all_points().filter(range@.holds()),
            range@ == self@.bounds ==> positions(found@) == self@.all_points(),
        decreases self@.rank(),
    {
        let mut found = Vec::new();
        if self.bounds.overlap(range).is_some() {
            self.collect_own(range, &mut found);
            if let Some(quads) = &self.quads {
                let ghost qs = self@.quads->0;
                let ghost kept = self@.points.filter(range@.holds());
                let mut i: usize = 0;
                while i < 4
                    invariant
                        0 <= i <= 4,
                        self.wf(),
                        range.valid(),
                        self.quads == Some(*quads),
                        qs == self@.quads->0,
                        qs.len() == 4,
                        i == 0 ==> positions(found@) == kept,
                        i == 1 ==> positions(found@) == kept + qs[0].query(range@),
                        i == 2 ==> positions(found@) == kept + qs[0].query(range@) + qs[1].query(
                            range@,
                        ),
                        i == 3 ==> positions(found@) == kept + qs[0].query(range@) + qs[1].query(
                            range@,
                        ) + qs[2].query(range@),
                        i == 4 ==> positions(found@) == kept + qs[0].query(range@) + qs[1].query(
                            range@,
                        ) + qs[2].query(range@) + qs[3].query(range@),
                    decreases 4 - i,
                {
                    let mut part = quads[i].query(range);
                    found.append(&mut part);
                    i += 1;
                }
            }
        }
        proof {
            lemma_query_finds(self@, range@);
            if range@ == self@.bounds {
                lemma_query_bounds_finds_all(self@);
            }
        }
        found
    }

    /// Appends to `found` the points of the node itself that lie in
    /// `range`, in the order of their insertion.
    fn collect_own(&self, range: Rect<T>, found: &mut Vec<Vector2<T>>)
        ensures
            positions(final(found)@) == positions(old(found)@) + self@.points.filter(
                range@.holds(),
            ),
    {
        let ghost before = positions(found@);
        let ghost own = self@.points;
        let mut j: usize = 0;
        while j < self.children.len()
            invariant
                0 <= j <= self.children.len(),
                own == positions(self.children@),
                positions(found@) == before + own.take(j as int).filter(range@.holds()),
            decreases self.children.len() - j,
        {
            let child = self.children[j];
            let ghost so_far = found@;
            if range.contains(child) {
                found.push(child);
            }
            proof {
                broadcast use Seq::lemma_filter_push;

                assert(own.take(j + 1) =~= own.take(j as int).push(child@));
                assert(positions(so_far.push(child)) =~= positions(so_far).push(child@));
            }
            j += 1;
        }
        assert(own.take(j as int) =~= own);
    }

    /// Whether the tree is well formed, tested at run time.
    pub fn is_wf(&self) -> (ok: bool)
        ensures
            ok == self.wf(),
        decreases self,
    {
        if !self.bounds.is_valid() || !self.holds_all(self.bounds) {
            return false;
        }
        match &self.quads {
            None => self.children.len() <= self.capacity,
            Some(quads) => {
                if quads.len() != 4 {
                    return false;
                }
                let mut i: usize = 0;
                while i < 4
                    invariant
                        0 <= i <= 4,
                        self.quads == Some(*quads),
                        quads@.len() == 4,
                        forall|k: int| 0 <= k < i ==> (#[trigger] quads@[k]).wf(),
                    decreases 4 - i,
                {
                    proof {
                        let nested = self.quads->0;
                        assert(decreases_to!(self => nested[i as int]));
                    }
                    if !quads[i].is_wf() {
                        return false;
                    }
                    i += 1;
                }
                true
            },
        }
    }

    /// Whether every point of the subtree lies in `region`.
    fn holds_all(&self, region: Rect<T>) -> (all: bool)
        ensures
            all == region@.holds_each(self@.all_points()),
        decreases self,
    {
        let ghost own = self@.points;
        let mut j: usize = 0;
        while j < self.children.len()
            invariant
                0 <= j <= self.children.len(),
                own == positions(self.children@),
                region@.holds_each(own.take(j as int)),
            decreases self.children.len() - j,
        {
            if !region.contains(self.children[j]) {
                proof {
                    assert(self@.all_points()[j as int] == own[j as int]);
                }
                return false;
            }
            proof {
                assert(own.take(j + 1) =~= own.take(j as int).push(own[j as int]));
            }
            j += 1;
        }
        assert(own.take(j as int) =~= own);
        match &self.quads {
            None => true,
            Some(quads) => {
                if quads.len() != 4 {
                    return true;
                }
                let ghost qs = self@.quads->0;
                let mut i: usize = 0;
                while i < 4
                    invariant
                        0 <= i <= 4,
                        self.quads == Some(*quads),
                        quads@.len() == 4,
                        qs == self@.quads->0,
                        own == self@.points,
                        region@.holds_each(own),
                        forall|k: int|
                            0 <= k < i ==> region@.holds_each((#[trigger] qs[k]).all_points()),
                    decreases 4 - i,
                {
                    proof {
                        let nested = self.quads->0;
                        assert(decreases_to!(self => nested[i as int]));
                    }
                    if !quads[i].holds_all(region) {
                        proof {
                            lemma_holds_each_of_parts(region@, self@, i as int);
                        }
                        return false;
                    }
                    i += 1;
                }
                proof {
                    lemma_holds_each_of_parts(region@, self@, 0);
                }
                true
            },
        }
    }

    /// Resets the node to a leaf without points. Its region and its
    /// capacities stay.
    pub fn clear(&mut self)
        ensures
            final(self)@ == old(self)@.cleared(),
            final(self)@.tiled(),
            final(self).children@.len() == 0,
            final(self).quads is None,
            final(self).bounds == old(self).bounds,
            final(self).capacity == old(self).capacity,
            final(self).max_capacity == old(self).max_capacity,
            old(self).bounds.valid() ==> final(self).wf(),
    {
        self.children.clear();
        self.quads = None;
        assert(self@.points =~= Seq::empty());
    }
}

impl<T: Scalar> Clone for Quadtree<T> {
    /// A copy of the whole tree.
    fn clone(&self) -> (copy: Self)
        ensures
            copy@ == self@,
            copy.bounds == self.bounds,
            copy.capacity == self.capacity,
            copy.max_capacity == self.max_capacity,
            copy.children@ == self.children@,
        decreases self,
    {
        let mut children = with_room(self.children.len());
        let mut j: usize = 0;
        while j < self.children.len()
            invariant
                0 <= j <= self.children.len(),
                children@ == self.children@.take(j as int),
            decreases self.children.len() - j,
        {
            children.push(self.children[j]);
            assert(self.children@.take(j + 1) =~= self.children@.take(j as int).push(
                self.children@[j as int],
            ));
            j += 1;
        }
        assert(self.children@.take(j as int) =~= self.children@);

        let quads = match &self.quads {
            None => None,
            Some(quads) => {
                let mut copies: Vec<Quadtree<T>> = Vec::new();
                let mut i: usize = 0;
                while i < quads.len()
                    invariant
                        0 <= i <= quads.len(),
                        self.quads == Some(*quads),
                        copies@.len() == i,
                        forall|k: int| 0 <= k < i ==> (#[trigger] copies@[k])@ == quads@[k]@,
                    decreases quads.len() - i,
                {
                    proof {
                        let nested = self.quads->0;
                        assert(decreases_to!(self => nested[i as int]));
                    }
                    copies.push(quads[i].clone());
                    i += 1;
                }
                Some(copies)
            },
        };
        let copy = Quadtree {
            bounds: self.bounds,
            capacity: self.capacity,
            max_capacity: self.max_capacity,
            children,
            quads,
        };
        proof {
            if self.quads is Some {
                assert(copy@.quads->0 =~= self@.quads->0);
            }
        }
        copy
    }
}

/// Four empty leaves of the given capacity on the four quadrants of a
/// region: north-west, north-east, south-east, south-west.
fn quadrants<T: Scalar>(bounds: Rect<T>, capacity: usize) -> (quads: Vec<Quadtree<T>>)
    requires
        bounds.valid(),
    ensures
        quads@.len() == 4,
        forall|i: int|
            0 <= i < 4 ==> (#[trigger] quads@[i])@ == Node::leaf(
                bounds@.quadrant(i),
                capacity as nat,
            ),
{
    let x = bounds.left;
    let y = bounds.top;
    let w = bounds.width.halved();
    let h = bounds.height.halved();
    let x_mid = plus(x, w);
    let y_mid = plus(y, h);

    let mut quads = Vec::new();
    quads.push(Quadtree::new(Rect::new(x, y, w, h), capacity));
    quads.push(Quadtree::new(Rect::new(x_mid, y, w, h), capacity));
    quads.push(Quadtree::new(Rect::new(x_mid, y_mid, w, h), capacity));
    quads.push(Quadtree::new(Rect::new(x, y_mid, w, h), capacity));
    quads
}

/// An empty vector of points with room for `capacity` of them, where the
/// allocator grants it.
fn with_room<T: Scalar>(capacity: usize) -> (points: Vec<Vector2<T>>)
    ensures
        points@ == Seq::<Vector2<T>>::empty(),
{
    let mut points = Vec::new();
    let _ = points.try_reserve(capacity);
    points
}

} // verus!
