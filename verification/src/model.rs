//! The mathematical model of the tree: what a node holds, and what
//! subdivision, insertion and a range query make of it.

use vstd::prelude::*;
use crate::geometry::{Point, Region};
use crate::scalar::{half, magnitude};

verus! {

/// A node of the tree: its region, the points stored at the node itself
/// and, once it has been subdivided, its four quadrants in the order
/// north-west, north-east, south-east, south-west.
pub struct Node {
    pub bounds: Region,
    pub capacity: nat,
    pub max_capacity: nat,
    pub points: Seq<Point>,
    pub quads: Option<Seq<Node>>,
}

/// The largest of four numbers.
pub open spec fn largest(a: nat, b: nat, c: nat, d: nat) -> nat {
    let ab = if a >= b { a } else { b };
    let cd = if c >= d { c } else { d };
    if ab >= cd {
        ab
    } else {
        cd
    }
}

/// The index of the first of four attempts that stored the point, or 4
/// where none did.
pub open spec fn first_stored(tried: Seq<(Node, bool)>) -> int {
    if tried[0].1 {
        0
    } else if tried[1].1 {
        1
    } else if tried[2].1 {
        2
    } else if tried[3].1 {
        3
    } else {
        4
    }
}

/// Four empty leaves of the given capacity on the four quadrants of a
/// region, in the order north-west, north-east, south-east, south-west.
pub open spec fn quadrant_leaves(bounds: Region, capacity: nat) -> Seq<Node> {
    Seq::new(4, |i: int| Node::leaf(bounds.quadrant(i), capacity))
}

impl Region {
    /// The quadrant of the rectangle with the given index: 0 is north-west,
    /// 1 north-east, 2 south-east and 3 south-west. Each has half the width
    /// and half the height, rounded towards zero.
    pub open spec fn quadrant(self, index: int) -> Region {
        let w = half(self.width);
        let h = half(self.height);
        Region {
            left: if index == 1 || index == 2 { self.left + w } else { self.left },
            top: if index == 2 || index == 3 { self.top + h } else { self.top },
            width: w,
            height: h,
        }
    }

    /// The part of the rectangle that its quadrants reach: from the same
    /// corner, twice the half of each side. A side of odd length leaves a
    /// strip of width one beyond it.
    pub open spec fn covered(self) -> Region {
        Region {
            left: self.left,
            top: self.top,
            width: 2 * half(self.width),
            height: 2 * half(self.height),
        }
    }

    /// Whether both sides of the rectangle have an even length, so that
    /// two halves make up the whole.
    pub open spec fn halves_evenly(self) -> bool {
        2 * half(self.width) == self.width && 2 * half(self.height) == self.height
    }
}

impl Node {
    /// A node without points and without quadrants.
    pub open spec fn leaf(bounds: Region, capacity: nat) -> Node {
        Node { bounds, capacity, max_capacity: capacity, points: Seq::empty(), quads: None }
    }

    /// The four empty quadrants that subdivision gives a node.
    pub open spec fn fresh_quads(self) -> Seq<Node> {
        quadrant_leaves(self.bounds, self.max_capacity)
    }

    /// The node after subdivision: unchanged if it has quadrants already,
    /// else with four empty ones. The points of the node stay where they
    /// are.
    pub open spec fn divided(self) -> Node {
        if self.quads is Some {
            self
        } else {
            Node { quads: Some(self.fresh_quads()), ..self }
        }
    }

    /// A bound on how many levels an insertion can descend from this node.
    pub open spec fn rank(self) -> nat
        decreases self,
    {
        match self.quads {
            None => magnitude(self.bounds.width) + magnitude(self.bounds.height),
            Some(qs) => if qs.len() == 4 {
                1 + largest(qs[0].rank(), qs[1].rank(), qs[2].rank(), qs[3].rank())
            } else {
                0
            },
        }
    }

    /// What each of the four quadrants makes of an insertion of `p`, had it
    /// been offered the point.
    pub open spec fn attempts(self, p: Point) -> Seq<(Node, bool)>
        decreases self.rank(), 0nat,
    {
        match self.quads {
            Some(qs) => if qs.len() == 4 {
                Seq::new(
                    4,
                    |i: int|
                        if 0 <= i < 4 {
                            qs[i].insertion(p)
                        } else {
                            (self, false)
                        },
                )
            } else {
                Seq::empty()
            },
            None => Seq::empty(),
        }
    }

    /// The node after its quadrants were offered a point in order until
    /// one stored it, and whether one did: the quadrants up to that one
    /// are replaced by what the attempt made of them, the others are
    /// untouched.
    pub open spec fn routed(self, tried: Seq<(Node, bool)>) -> (Node, bool) {
        let qs = self.quads->0;
        let k = first_stored(tried);
        let quads = Seq::new(4, |i: int| if i <= k { tried[i].0 } else { qs[i] });
        (Node { quads: Some(quads), ..self }, k < 4)
    }

    /// What an insertion makes of the node, and whether the point was
    /// stored.
    ///
    /// A point outside the region of the node is refused and nothing
    /// changes. A leaf with room left stores the point itself. Any other
    /// node is subdivided if it has no quadrants yet, and offers the point
    /// to its quadrants in order until one stores it.
    pub open spec fn insertion(self, p: Point) -> (Node, bool)
        decreases self.rank(), 1nat,
    {
        if !self.bounds.contains(p) {
            (self, false)
        } else if self.quads is None && self.points.len() < self.capacity {
            (Node { points: self.points.push(p), ..self }, true)
        } else {
            let d = self.divided();
            if d.quads->0.len() != 4 {
                (d, false)
            } else {
                proof {
                    lemma_divided_rank(self, p);
                }
                d.routed(d.attempts(p))
            }
        }
    }

    /// The node after the insertion of `p`.
    pub open spec fn inserted(self, p: Point) -> Node {
        self.insertion(p).0
    }

    /// Whether an insertion of `p` stores the point.
    pub open spec fn accepts(self, p: Point) -> bool {
        self.insertion(p).1
    }

    /// All points of the subtree: those of the node itself, then those of
    /// each quadrant in turn.
    pub open spec fn all_points(self) -> Seq<Point>
        decreases self,
    {
        match self.quads {
            None => self.points,
            Some(qs) => if qs.len() == 4 {
                self.points + qs[0].all_points() + qs[1].all_points() + qs[2].all_points()
                    + qs[3].all_points()
            } else {
                self.points
            },
        }
    }

    /// The node after a reset: no points and no quadrants; the region and
    /// the capacities stay.
    pub open spec fn cleared(self) -> Node {
        Node { points: Seq::empty(), quads: None, ..self }
    }

    /// The node after the insertion of each point of `ps` in order.
    pub open spec fn inserted_all(self, ps: Seq<Point>) -> Node
        decreases ps.len(),
    {
        if ps.len() == 0 {
            self
        } else {
            self.inserted_all(ps.drop_last()).inserted(ps.last())
        }
    }

    /// Those points of `ps`, in order, that were stored when each point of
    /// `ps` was inserted in order.
    pub open spec fn stored_of(self, ps: Seq<Point>) -> Seq<Point>
        decreases ps.len(),
    {
        if ps.len() == 0 {
            Seq::empty()
        } else {
            let earlier = self.stored_of(ps.drop_last());
            if self.inserted_all(ps.drop_last()).accepts(ps.last()) {
                earlier.push(ps.last())
            } else {
                earlier
            }
        }
    }

    /// The points that a range query finds, in order: nothing where the
    /// region of the node and the range share no area; else the points of
    /// the node itself that lie in the range, in the order of their
    /// insertion, then what each quadrant finds in turn.
    pub open spec fn query(self, range: Region) -> Seq<Point>
        decreases self,
    {
        if self.bounds.overlap(range) is None {
            Seq::empty()
        } else {
            let own = self.points.filter(range.holds());
            match self.quads {
                None => own,
                Some(qs) => if qs.len() == 4 {
                    own + qs[0].query(range) + qs[1].query(range) + qs[2].query(range)
                        + qs[3].query(range)
                } else {
                    own
                },
            }
        }
    }

    /// The invariant of the tree: a node has no quadrants or four, a leaf
    /// holds no more points than its capacity, and every point of a subtree
    /// lies in the region of the subtree's root.
    pub open spec fn inv(self) -> bool
        decreases self,
    {
        &&& self.quads is None ==> self.points.len() <= self.capacity
        &&& self.bounds.holds_each(self.all_points())
        &&& match self.quads {
            None => true,
            Some(qs) => qs.len() == 4 && qs[0].inv() && qs[1].inv() && qs[2].inv() && qs[3].inv(),
        }
    }

    /// Whether the quadrants of every subdivided node of the subtree lie
    /// on the four quadrants of the region of that node, in the order
    /// north-west, north-east, south-east, south-west.
    pub open spec fn tiled(self) -> bool
        decreases self,
    {
        match self.quads {
            None => true,
            Some(qs) => qs.len() == 4 ==> {
                &&& qs[0].bounds == self.bounds.quadrant(0) && qs[0].tiled()
                &&& qs[1].bounds == self.bounds.quadrant(1) && qs[1].tiled()
                &&& qs[2].bounds == self.bounds.quadrant(2) && qs[2].tiled()
                &&& qs[3].bounds == self.bounds.quadrant(3) && qs[3].tiled()
            },
        }
    }

    /// Whether every node of the subtree gives its quadrants a capacity of
    /// at least one.
    pub open spec fn passes_on_room(self) -> bool
        decreases self,
    {
        &&& self.max_capacity >= 1
        &&& match self.quads {
            None => true,
            Some(qs) => qs.len() == 4 ==> qs[0].passes_on_room() && qs[1].passes_on_room()
                && qs[2].passes_on_room() && qs[3].passes_on_room(),
        }
    }

    /// Whether the quadrants reach the point at every node that has to
    /// pass it on: a leaf with room keeps the point and passes nothing on;
    /// any other node passes it on, and so do those of its quadrants whose
    /// region holds it.
    pub open spec fn reaches(self, p: Point) -> bool
        decreases self,
    {
        match self.quads {
            None => self.points.len() < self.capacity || self.bounds.covered().contains(p),
            Some(qs) => self.bounds.covered().contains(p) && (qs.len() == 4 ==> {
                &&& qs[0].bounds.contains(p) ==> qs[0].reaches(p)
                &&& qs[1].bounds.contains(p) ==> qs[1].reaches(p)
                &&& qs[2].bounds.contains(p) ==> qs[2].reaches(p)
                &&& qs[3].bounds.contains(p) ==> qs[3].reaches(p)
            }),
        }
    }

    /// Whether the regions of all nodes of the subtree fit between `lo` and
    /// `hi`.
    pub open spec fn fits(self, lo: int, hi: int) -> bool
        decreases self,
    {
        &&& self.bounds.fits(lo, hi)
        &&& match self.quads {
            None => true,
            Some(qs) => qs.len() == 4 ==> qs[0].fits(lo, hi) && qs[1].fits(lo, hi) && qs[2].fits(
                lo,
                hi,
            ) && qs[3].fits(lo, hi),
        }
    }
}

/// Subdivision of a node whose region is not empty does not raise its
/// rank.
pub proof fn lemma_divided_rank(n: Node, p: Point)
    requires
        n.bounds.contains(p),
    ensures
        n.divided().rank() <= n.rank(),
{
    if n.quads is None {
        let qs = n.divided().quads->0;
        assert forall|i: int| 0 <= i < 4 implies (#[trigger] qs[i]).rank() < n.rank() by {}
    }
}

} // verus!
