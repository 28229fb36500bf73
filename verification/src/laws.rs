//! What holds of rectangles and of the tree, proved over their models.

use vstd::prelude::*;
use vstd::multiset::Multiset;
use vstd::seq_lib::{lemma_multiset_commutative, to_multiset_build, to_multiset_contains};
use crate::geometry::{Point, Region};
use crate::model::{first_stored, Node};
use crate::scalar::half;

verus! {

/// Containment is half open: a rectangle whose sides are not negative
/// holds its left and top edges, and neither its right nor its bottom edge.
pub proof fn lemma_contains_half_open(r: Region, p: Point)
    requires
        r.width >= 0,
        r.height >= 0,
    ensures
        r.contains(p) <==> (r.left <= p.x < r.left + r.width && r.top <= p.y < r.top + r.height),
{
}

/// The sign of a side does not matter: the lower end of a rectangle is
/// never above its upper end, a rectangle holds the points that its
/// normalized form holds, and two rectangles with the same normalized form
/// hold the same points and share the same area with any third.
pub proof fn lemma_normalized(r: Region, s: Region, other: Region, p: Point)
    ensures
        r.min_x() <= r.max_x(),
        r.min_y() <= r.max_y(),
        r.normalized().width >= 0,
        r.normalized().height >= 0,
        r.normalized().normalized() == r.normalized(),
        r.normalized().contains(p) == r.contains(p),
        r.normalized().overlap(other) == r.overlap(other),
        r.normalized() == s.normalized() ==> r.contains(p) == s.contains(p) && r.overlap(other)
            == s.overlap(other) && other.overlap(r) == other.overlap(s),
{
}

/// The overlap of two rectangles is their common area: where there is one,
/// it holds exactly the points that both hold, and its sides are positive;
/// where there is none, no point lies in both. Rectangles that only touch
/// have no overlap.
pub proof fn lemma_overlap_is_common_area(a: Region, b: Region, p: Point)
    ensures
        a.overlap(b) == b.overlap(a),
        match a.overlap(b) {
            Some(c) => c.width > 0 && c.height > 0 && (c.contains(p) <==> a.contains(p)
                && b.contains(p)),
            None => !(a.contains(p) && b.contains(p)),
        },
        (exists|q: Point| a.contains(q) && b.contains(q)) <==> a.overlap(b) is Some,
{
    match a.overlap(b) {
        Some(c) => {
            let q = Point { x: c.left, y: c.top };
            assert(a.contains(q) && b.contains(q));
        },
        None => {},
    }
}

/// The four quadrants of a rectangle lie inside it.
pub proof fn lemma_quadrant_inside(r: Region, index: int, p: Point)
    requires
        0 <= index < 4,
        r.quadrant(index).contains(p),
    ensures
        r.contains(p),
{
}

/// Two different quadrants of a rectangle share no area and no point.
pub proof fn lemma_quadrants_disjoint(r: Region, i: int, j: int, p: Point)
    requires
        0 <= i < 4,
        0 <= j < 4,
        i != j,
    ensures
        r.quadrant(i).overlap(r.quadrant(j)) is None,
        !(r.quadrant(i).contains(p) && r.quadrant(j).contains(p)),
{
}

/// The quadrants of a rectangle tile the part of it that they reach: a
/// point of that part lies in exactly one quadrant, and any other point in
/// none. Where both sides have an even length, that part is the whole
/// rectangle.
pub proof fn lemma_quadrants_tile(r: Region, p: Point)
    ensures
        r.covered().contains(p) <==> (exists|i: int|
            0 <= i < 4 && #[trigger] r.quadrant(i).contains(p)),
        forall|i: int, j: int|
            0 <= i < 4 && 0 <= j < 4 && #[trigger] r.quadrant(i).contains(p)
                && #[trigger] r.quadrant(j).contains(p) ==> i == j,
        r.covered().contains(p) ==> r.contains(p),
        r.halves_evenly() ==> r.covered() == r,
{
    if r.covered().contains(p) {
        let mid_x = r.left + half(r.width);
        let mid_y = r.top + half(r.height);
        let east = if r.width >= 0 {
            p.x >= mid_x
        } else {
            p.x < mid_x
        };
        let south = if r.height >= 0 {
            p.y >= mid_y
        } else {
            p.y < mid_y
        };
        let index: int = if south {
            if east {
                2
            } else {
                3
            }
        } else {
            if east {
                1
            } else {
                0
            }
        };
        assert(r.quadrant(index).contains(p));
    }
}

/// Subdivision keeps the invariant, the fit of the regions and the points
/// of the subtree.
pub proof fn lemma_divided(n: Node, lo: int, hi: int)
    ensures
        n.divided().all_points() == n.all_points(),
        n.inv() ==> n.divided().inv(),
        n.fits(lo, hi) ==> n.divided().fits(lo, hi),
        n.tiled() ==> n.divided().tiled(),
        n.passes_on_room() ==> n.divided().passes_on_room(),
{
    if n.quads is None {
        let d = n.divided();
        let qs = d.quads->0;
        assert forall|i: int| 0 <= i < 4 implies (#[trigger] qs[i]).all_points() == Seq::<
            Point,
        >::empty() && qs[i].inv() && qs[i].tiled() && qs[i].bounds == n.bounds.quadrant(i)
            && (n.passes_on_room() ==> qs[i].passes_on_room()) by {}
        if n.fits(lo, hi) {
            assert forall|i: int| 0 <= i < 4 implies (#[trigger] qs[i]).fits(lo, hi) by {}
        }
    }
}

/// A region holds every point of a subdivided node exactly if it holds the
/// points of the node itself and those of each quadrant.
pub proof fn lemma_holds_each_of_parts(region: Region, n: Node, index: int)
    requires
        n.quads is Some,
        n.quads->0.len() == 4,
        0 <= index < 4,
    ensures
        region.holds_each(n.all_points()) <==> region.holds_each(n.points) && region.holds_each(
            n.quads->0[0].all_points(),
        ) && region.holds_each(n.quads->0[1].all_points()) && region.holds_each(
            n.quads->0[2].all_points(),
        ) && region.holds_each(n.quads->0[3].all_points()),
        region.holds_each(n.all_points()) ==> region.holds_each(n.quads->0[index].all_points()),
{
    let qs = n.quads->0;
    let all = n.all_points();
    let a = n.points;
    let b = qs[0].all_points();
    let c = qs[1].all_points();
    let d = qs[2].all_points();
    let e = qs[3].all_points();
    assert(all == a + b + c + d + e);
    if region.holds_each(all) {
        assert forall|i: int| 0 <= i < a.len() implies region.contains(#[trigger] a[i]) by {
            assert(a[i] == all[i]);
        }
        assert forall|i: int| 0 <= i < b.len() implies region.contains(#[trigger] b[i]) by {
            assert(b[i] == all[a.len() + i]);
        }
        assert forall|i: int| 0 <= i < c.len() implies region.contains(#[trigger] c[i]) by {
            assert(c[i] == all[a.len() + b.len() + i]);
        }
        assert forall|i: int| 0 <= i < d.len() implies region.contains(#[trigger] d[i]) by {
            assert(d[i] == all[a.len() + b.len() + c.len() + i]);
        }
        assert forall|i: int| 0 <= i < e.len() implies region.contains(#[trigger] e[i]) by {
            assert(e[i] == all[a.len() + b.len() + c.len() + d.len() + i]);
        }
    }
}

/// A filter that no element passes leaves nothing.
pub proof fn lemma_filter_none(s: Seq<Point>, keep: spec_fn(Point) -> bool)
    requires
        forall|i: int| 0 <= i < s.len() ==> !keep(#[trigger] s[i]),
    ensures
        s.filter(keep) == Seq::<Point>::empty(),
    decreases s.len(),
{
    reveal(Seq::filter);
    if s.len() > 0 {
        lemma_filter_none(s.drop_last(), keep);
    }
}

/// A filter that every element passes leaves the sequence as it is.
pub proof fn lemma_filter_all(s: Seq<Point>, keep: spec_fn(Point) -> bool)
    requires
        forall|i: int| 0 <= i < s.len() ==> keep(#[trigger] s[i]),
    ensures
        s.filter(keep) == s,
    decreases s.len(),
{
    reveal(Seq::filter);
    if s.len() > 0 {
        lemma_filter_all(s.drop_last(), keep);
    }
}

/// A range query on a tree that satisfies the invariant finds exactly the
/// points of the tree that lie in the range, in the order in which the
/// tree holds them.
pub proof fn lemma_query_finds(n: Node, range: Region)
    requires
        n.inv(),
    ensures
        n.query(range) == n.all_points().filter(range.holds()),
    decreases n,
{
    let all = n.all_points();
    if n.bounds.overlap(range) is None {
        assert forall|i: int| 0 <= i < all.len() implies !(range.holds())(#[trigger] all[i]) by {
            assert(n.bounds.contains(all[i]));
        }
        lemma_filter_none(all, range.holds());
    } else {
        match n.quads {
            None => {},
            Some(qs) => {
                lemma_query_finds(qs[0], range);
                lemma_query_finds(qs[1], range);
                lemma_query_finds(qs[2], range);
                lemma_query_finds(qs[3], range);
            },
        }
    }
}

/// The points of five sequences laid end to end are, as a multiset, the
/// sum of the five.
proof fn lemma_joined_multiset(
    a: Seq<Point>,
    b: Seq<Point>,
    c: Seq<Point>,
    d: Seq<Point>,
    e: Seq<Point>,
)
    ensures
        (a + b + c + d + e).to_multiset() =~= a.to_multiset().add(b.to_multiset()).add(
            c.to_multiset(),
        ).add(d.to_multiset()).add(e.to_multiset()),
{
    lemma_multiset_commutative(a, b);
    lemma_multiset_commutative(a + b, c);
    lemma_multiset_commutative(a + b + c, d);
    lemma_multiset_commutative(a + b + c + d, e);
}

/// Where every point of `before` and the point `p` lie in a region, so
/// does every point of a sequence that holds the points of `before` and
/// `p`.
proof fn lemma_still_inside(bounds: Region, before: Seq<Point>, after: Seq<Point>, p: Point)
    requires
        forall|i: int| 0 <= i < before.len() ==> bounds.contains(#[trigger] before[i]),
        bounds.contains(p),
        after.to_multiset() =~= before.to_multiset().insert(p),
    ensures
        forall|i: int| 0 <= i < after.len() ==> bounds.contains(#[trigger] after[i]),
{
    broadcast use to_multiset_contains;

    assert forall|i: int| 0 <= i < after.len() implies bounds.contains(#[trigger] after[i]) by {
        let x = after[i];
        assert(after.to_multiset().count(x) > 0);
        if x != p {
            let j = choose|j: int| 0 <= j < before.len() && before[j] == x;
            assert(bounds.contains(before[j]));
        }
    }
}

/// What an insertion keeps and what it changes: the invariant and the fit
/// of the regions hold afterwards, the region and the capacities of the
/// node stay, a stored point lies in the region of the node and is the
/// one point that the subtree gains, and a refused point leaves the points
/// of the subtree as they were.
pub proof fn lemma_insertion(n: Node, p: Point, lo: int, hi: int)
    requires
        n.inv(),
    ensures
        n.inserted(p).inv(),
        n.fits(lo, hi) ==> n.inserted(p).fits(lo, hi),
        n.inserted(p).bounds == n.bounds,
        n.inserted(p).capacity == n.capacity,
        n.inserted(p).max_capacity == n.max_capacity,
        n.accepts(p) ==> n.bounds.contains(p),
        n.accepts(p) ==> n.inserted(p).all_points().to_multiset()
            =~= n.all_points().to_multiset().insert(p),
        !n.accepts(p) ==> n.inserted(p).all_points() == n.all_points(),
        n.quads is Some ==> n.inserted(p).quads is Some && n.inserted(p).points == n.points,
    decreases n.rank(),
{
    broadcast use to_multiset_build;

    if !n.bounds.contains(p) {
    } else if n.quads is None && n.points.len() < n.capacity {
        assert(n.inserted(p).all_points() == n.all_points().push(p));
    } else {
        let d = n.divided();
        let qs = d.quads->0;
        let tried = d.attempts(p);
        let k = first_stored(tried);
        let m = n.inserted(p);
        let nq = m.quads->0;
        assert forall|i: int| 0 <= i < 4 implies (#[trigger] nq[i]).inv() && (n.fits(lo, hi)
            ==> nq[i].fits(lo, hi)) && (i != k ==> nq[i].all_points() == qs[i].all_points()) && (i
            == k ==> nq[i].all_points().to_multiset() =~= qs[i].all_points().to_multiset().insert(
            p,
        )) by {
            lemma_insertion(qs[i], p, lo, hi);
        }
        lemma_joined_multiset(
            d.points,
            qs[0].all_points(),
            qs[1].all_points(),
            qs[2].all_points(),
            qs[3].all_points(),
        );
        lemma_joined_multiset(
            m.points,
            nq[0].all_points(),
            nq[1].all_points(),
            nq[2].all_points(),
            nq[3].all_points(),
        );
        if k < 4 {
            lemma_still_inside(n.bounds, n.all_points(), m.all_points(), p);
        }
    }
}

/// An insertion keeps the quadrants of every node on the quadrants of its
/// region, and it keeps the capacities that nodes pass on.
pub proof fn lemma_insertion_keeps_tiling(n: Node, p: Point)
    requires
        n.inv(),
    ensures
        n.tiled() ==> n.inserted(p).tiled(),
        n.passes_on_room() ==> n.inserted(p).passes_on_room(),
    decreases n.rank(),
{
    if n.bounds.contains(p) && !(n.quads is None && n.points.len() < n.capacity) {
        let d = n.divided();
        let qs = d.quads->0;
        let nq = n.inserted(p).quads->0;
        assert forall|i: int| 0 <= i < 4 implies (#[trigger] nq[i]).bounds == qs[i].bounds
            && (qs[i].tiled() ==> nq[i].tiled()) && (qs[i].passes_on_room()
            ==> nq[i].passes_on_room()) by {
            lemma_insertion(qs[i], p, 0, 0);
            lemma_insertion_keeps_tiling(qs[i], p);
        }
    }
}

/// When a point is stored. In a tree whose quadrants tile, a point is
/// stored only if it lies in the region of the tree and the quadrants
/// reach it at every node that has to pass it on; where every node passes
/// on a capacity of at least one, such a point is stored.
pub proof fn lemma_accepts_what_it_reaches(n: Node, p: Point)
    requires
        n.inv(),
        n.tiled(),
    ensures
        n.accepts(p) ==> n.bounds.contains(p) && n.reaches(p),
        n.passes_on_room() && n.bounds.contains(p) && n.reaches(p) ==> n.accepts(p),
    decreases n,
{
    if n.bounds.contains(p) && !(n.quads is None && n.points.len() < n.capacity) {
        let qs = n.divided().quads->0;
        assert forall|i: int| 0 <= i < 4 implies (#[trigger] qs[i]).bounds == n.bounds.quadrant(i)
            && (qs[i].accepts(p) ==> qs[i].bounds.contains(p)) by {}
        if n.quads is Some {
            lemma_accepts_what_it_reaches(qs[0], p);
            lemma_accepts_what_it_reaches(qs[1], p);
            lemma_accepts_what_it_reaches(qs[2], p);
            lemma_accepts_what_it_reaches(qs[3], p);
        }
        if n.passes_on_room() && n.reaches(p) {
            lemma_quadrants_tile(n.bounds, p);
            let i = choose|i: int| 0 <= i < 4 && #[trigger] n.bounds.quadrant(i).contains(p);
            assert(qs[i].accepts(p));
        }
    }
}

/// A sequence without elements makes the empty multiset.
proof fn lemma_empty_multiset(s: Seq<Point>)
    requires
        s.len() == 0,
    ensures
        s.to_multiset() =~= Multiset::empty(),
{
    broadcast use to_multiset_contains;

    assert forall|x: Point| s.to_multiset().count(x) == 0 by {
        assert(!s.contains(x));
    }
}

/// A point outside the region of a node is refused, and the node stays as
/// it is.
pub proof fn lemma_rejects_outside(n: Node, p: Point)
    requires
        !n.bounds.contains(p),
    ensures
        !n.accepts(p),
        n.inserted(p) == n,
{
}

/// A leaf with room stores a point of its region itself, behind the points
/// that it holds, and stays a leaf.
pub proof fn lemma_leaf_stores(n: Node, p: Point)
    requires
        n.bounds.contains(p),
        n.quads is None,
        n.points.len() < n.capacity,
    ensures
        n.accepts(p),
        n.inserted(p) == (Node { points: n.points.push(p), ..n }),
{
}

/// A full leaf is subdivided by the insertion of a point of its region: it
/// keeps its own points, and the point is offered to the new quadrants.
pub proof fn lemma_full_leaf_divides(n: Node, p: Point)
    requires
        n.bounds.contains(p),
        n.quads is None,
        n.points.len() >= n.capacity,
    ensures
        n.inserted(p).quads is Some,
        n.inserted(p).points == n.points,
        n.insertion(p) == n.divided().routed(n.divided().attempts(p)),
{
}

/// Where no two quadrants of a node hold the point, the first quadrant
/// whose region holds it decides the insertion: it alone changes, and its
/// answer is the answer of the node.
pub proof fn lemma_first_holder_decides(n: Node, p: Point, index: int)
    requires
        n.quads is Some,
        n.quads->0.len() == 4,
        n.bounds.contains(p),
        0 <= index < 4,
        n.quads->0[index].bounds.contains(p),
        forall|j: int| 0 <= j < 4 && j != index ==> !(#[trigger] n.quads->0[j]).bounds.contains(p),
    ensures
        n.accepts(p) == n.quads->0[index].accepts(p),
        n.inserted(p) == (Node {
            quads: Some(n.quads->0.update(index, n.quads->0[index].inserted(p))),
            ..n
        }),
{
    let qs = n.quads->0;
    let tried = n.attempts(p);
    assert forall|j: int| 0 <= j < 4 && j != index implies (#[trigger] tried[j]) == (
        qs[j],
        false,
    ) by {}
    assert(n.inserted(p).quads->0 =~= qs.update(index, qs[index].inserted(p)));
}

/// Subdivision is idempotent.
pub proof fn lemma_divided_twice(n: Node)
    ensures
        n.divided().divided() == n.divided(),
        n.divided().points == n.points,
        n.divided().quads is Some,
{
}

/// The quadrants that subdivision creates are empty leaves on the four
/// quadrants of the region of the node, with the capacity that the node
/// passes on.
pub proof fn lemma_divided_quads(n: Node, index: int)
    requires
        n.quads is None,
        0 <= index < 4,
    ensures
        n.divided().quads->0.len() == 4,
        n.divided().quads->0[index] == Node::leaf(n.bounds.quadrant(index), n.max_capacity),
{
}

/// After a reset a node is a leaf without points, and no range query finds
/// anything in it.
pub proof fn lemma_cleared_is_empty(n: Node, range: Region)
    ensures
        n.cleared().quads is None,
        n.cleared().all_points() == Seq::<Point>::empty(),
        n.cleared().query(range) == Seq::<Point>::empty(),
        n.cleared().bounds == n.bounds,
        n.cleared().capacity == n.capacity,
        n.cleared().max_capacity == n.max_capacity,
        n.cleared().inv(),
{
    lemma_filter_none(n.cleared().points, range.holds());
}

/// A range query with the region of the tree itself finds all points of the
/// tree.
pub proof fn lemma_query_bounds_finds_all(n: Node)
    requires
        n.inv(),
    ensures
        n.query(n.bounds) == n.all_points(),
{
    lemma_query_finds(n, n.bounds);
    lemma_filter_all(n.all_points(), n.bounds.holds());
}

/// No point is lost and none is made up: after the insertion of any
/// points, a range query with the region of the tree finds, as a multiset,
/// the points that the tree held before and those that were stored.
pub proof fn lemma_query_returns_stored(n: Node, ps: Seq<Point>)
    requires
        n.inv(),
    ensures
        n.inserted_all(ps).inv(),
        n.inserted_all(ps).bounds == n.bounds,
        n.inserted_all(ps).query(n.bounds).to_multiset() =~= n.all_points().to_multiset().add(
            n.stored_of(ps).to_multiset(),
        ),
    decreases ps.len(),
{
    broadcast use to_multiset_build;

    if ps.len() == 0 {
        lemma_query_bounds_finds_all(n);
        lemma_empty_multiset(n.stored_of(ps));
    } else {
        let before = n.inserted_all(ps.drop_last());
        lemma_query_returns_stored(n, ps.drop_last());
        lemma_insertion(before, ps.last(), 0, 0);
        lemma_query_bounds_finds_all(before);
        lemma_query_bounds_finds_all(before.inserted(ps.last()));
    }
}

/// A tree that starts empty returns to a range query with its region
/// exactly the points that it stored.
pub proof fn lemma_fresh_tree_returns_stored(bounds: Region, capacity: nat, ps: Seq<Point>)
    ensures
        Node::leaf(bounds, capacity).inserted_all(ps).query(bounds).to_multiset() =~= Node::leaf(
            bounds,
            capacity,
        ).stored_of(ps).to_multiset(),
{
    let n = Node::leaf(bounds, capacity);
    lemma_query_returns_stored(n, ps);
    lemma_empty_multiset(n.all_points());
}

} // verus!
