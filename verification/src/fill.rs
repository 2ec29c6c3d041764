//! Rasterising a closed tour of axis-aligned edges into the set of cells it encloses.
//!
//! Every unit step of an edge tags the cell on its inner side as a seed and the cell on its
//! outer side as a border. The enclosed set is what a flood from the seeds reaches without
//! entering a border cell.

use crate::flags::Flags;
use crate::geometry::{Pos, PosDiff};
use vstd::prelude::*;

verus! {

/// Why a tour could not be rasterised.
#[derive(Copy, Clone, PartialEq, Eq, Structural, Debug)]
pub enum FillError {
    /// Two consecutive corners coincide or differ in both coordinates.
    BadEdge,
    /// The enclosed set is not contained in the rectangle.
    OutOfBounds,
}

/// The corner that follows corner `i` on the closed tour.
pub open spec fn edge_end(tour: Seq<Pos>, i: int) -> Pos {
    tour[if i + 1 == tour.len() {
        0
    } else {
        i + 1
    }]
}

/// An edge is a horizontal or vertical run of at least one unit.
pub open spec fn edge_ok(a: Pos, b: Pos) -> bool {
    (a.x == b.x) != (a.y == b.y)
}

/// Edge `i` of the tour is a proper edge.
pub open spec fn edge_ok_at(tour: Seq<Pos>, i: int) -> bool {
    edge_ok(tour[i], edge_end(tour, i))
}

/// Every edge of the tour is a proper edge.
pub open spec fn tour_ok(tour: Seq<Pos>) -> bool {
    forall|i: int| 0 <= i < tour.len() ==> #[trigger] edge_ok_at(tour, i)
}

/// The least coordinate, along its axis, of a unit step of the edge from `a` to `b`.
pub open spec fn edge_lo(a: Pos, b: Pos) -> int {
    if a.x == b.x {
        if a.y < b.y {
            a.y as int
        } else {
            b.y as int
        }
    } else {
        if a.x < b.x {
            a.x as int
        } else {
            b.x as int
        }
    }
}

/// One past the greatest coordinate of a unit step of the edge from `a` to `b`.
pub open spec fn edge_hi(a: Pos, b: Pos) -> int {
    if a.x == b.x {
        if a.y < b.y {
            b.y as int
        } else {
            a.y as int
        }
    } else {
        if a.x < b.x {
            b.x as int
        } else {
            a.x as int
        }
    }
}

/// The cell on the inner side of the unit step at `t`: left of an upward edge, right of a
/// downward one, above a rightward one, below a leftward one.
pub open spec fn edge_seed(a: Pos, b: Pos, t: int) -> (int, int) {
    if a.x == b.x {
        if a.y < b.y {
            (a.x - 1, t)
        } else {
            (a.x as int, t)
        }
    } else {
        if a.x < b.x {
            (t, a.y as int)
        } else {
            (t, a.y - 1)
        }
    }
}

/// The cell on the outer side of the unit step at `t`.
pub open spec fn edge_border(a: Pos, b: Pos, t: int) -> (int, int) {
    if a.x == b.x {
        if a.y < b.y {
            (a.x as int, t)
        } else {
            (a.x - 1, t)
        }
    } else {
        if a.x < b.x {
            (t, a.y - 1)
        } else {
            (t, a.y as int)
        }
    }
}

/// `t` names a unit step of edge `i` of the tour.
pub open spec fn on_edge(tour: Seq<Pos>, i: int, t: int) -> bool {
    &&& 0 <= i < tour.len()
    &&& edge_lo(tour[i], edge_end(tour, i)) <= t < edge_hi(tour[i], edge_end(tour, i))
}

/// The seed of the unit step at `t` of edge `i`.
pub open spec fn seed_at(tour: Seq<Pos>, i: int, t: int) -> (int, int) {
    edge_seed(tour[i], edge_end(tour, i), t)
}

/// The border of the unit step at `t` of edge `i`.
pub open spec fn border_at(tour: Seq<Pos>, i: int, t: int) -> (int, int) {
    edge_border(tour[i], edge_end(tour, i), t)
}

/// Some unit step of the tour has `c` on its inner side.
#[verifier::opaque]
pub open spec fn is_seed(tour: Seq<Pos>, c: (int, int)) -> bool {
    exists|i: int, t: int| on_edge(tour, i, t) && #[trigger] seed_at(tour, i, t) == c
}

/// Some unit step of the tour has `c` on its outer side.
#[verifier::opaque]
pub open spec fn is_border(tour: Seq<Pos>, c: (int, int)) -> bool {
    exists|i: int, t: int| on_edge(tour, i, t) && #[trigger] border_at(tour, i, t) == c
}

/// The flood may stand on `c`: a border cell stops it unless it is a seed as well.
pub open spec fn passable(tour: Seq<Pos>, c: (int, int)) -> bool {
    !is_border(tour, c) || is_seed(tour, c)
}

/// Two cells share a side.
pub open spec fn adjacent(a: (int, int), b: (int, int)) -> bool {
    ||| (b.0 == a.0 + 1 && b.1 == a.1)
    ||| (b.0 == a.0 && b.1 == a.1 + 1)
    ||| (b.0 == a.0 - 1 && b.1 == a.1)
    ||| (b.0 == a.0 && b.1 == a.1 - 1)
}

/// A walk of the flood: it starts on a seed and moves by unit steps over passable cells.
pub open spec fn is_fill_path(tour: Seq<Pos>, path: Seq<(int, int)>) -> bool {
    &&& path.len() > 0
    &&& is_seed(tour, path[0])
    &&& forall|i: int|
        0 < i < path.len() ==> adjacent(path[i - 1], #[trigger] path[i]) && passable(
            tour,
            path[i],
        )
}

/// The cell `c` is enclosed by the tour.
#[verifier::opaque]
pub open spec fn filled(tour: Seq<Pos>, c: (int, int)) -> bool {
    exists|path: Seq<(int, int)>| #[trigger] is_fill_path(tour, path) && path.last() == c
}

/// The cell `c` lies in the rectangle of `w` by `h` cells at the origin.
pub open spec fn in_region(w: int, h: int, c: (int, int)) -> bool {
    0 <= c.0 < w && 0 <= c.1 < h
}

/// Every enclosed cell lies in the rectangle of `w` by `h` cells.
pub open spec fn fill_fits(tour: Seq<Pos>, w: int, h: int) -> bool {
    forall|c: (int, int)| #[trigger] filled(tour, c) ==> in_region(w, h, c)
}

/// A seed is enclosed.
pub proof fn lemma_seed_filled(tour: Seq<Pos>, c: (int, int))
    requires
        is_seed(tour, c),
    ensures
        filled(tour, c),
{
    reveal(filled);
    let path = seq![c];
    assert(is_fill_path(tour, path));
    assert(path.last() == c);
}

/// A passable cell beside an enclosed cell is enclosed.
pub proof fn lemma_filled_step(tour: Seq<Pos>, c: (int, int), n: (int, int))
    requires
        filled(tour, c),
        adjacent(c, n),
        passable(tour, n),
    ensures
        filled(tour, n),
{
    reveal(filled);
    let path = choose|path: Seq<(int, int)>| #[trigger] is_fill_path(tour, path) && path.last() == c;
    let longer = path.push(n);
    assert forall|i: int| 0 < i < longer.len() implies adjacent(longer[i - 1], #[trigger] longer[i])
        && passable(tour, longer[i]) by {
        if i < path.len() {
            assert(longer[i] == path[i]);
            assert(longer[i - 1] == path[i - 1]);
        }
    }
    assert(longer[0] == path[0]);
    assert(is_fill_path(tour, longer));
    assert(longer.last() == n);
}

/// The visited flag of cell `(x, y)`; the table has a margin of one cell on every side.
spec fn vis_at(vis: Flags, x: int, y: int) -> bool {
    vis.has(x + 1, y + 1)
}

#[verifier::opaque]
spec fn queued(queue: Seq<Pos>, x: int, y: int) -> bool {
    exists|k: int| 0 <= k < queue.len() && (#[trigger] queue[k]).x == x && queue[k].y == y
}

proof fn lemma_queued_push(queue: Seq<Pos>, p: Pos)
    ensures
        forall|x: int, y: int| #[trigger] queued(queue, x, y) ==> queued(queue.push(p), x, y),
        queued(queue.push(p), p.x as int, p.y as int),
{
    reveal(queued);
    let longer = queue.push(p);
    assert forall|x: int, y: int| #[trigger] queued(queue, x, y) implies queued(longer, x, y) by {
        let k = choose|k: int| 0 <= k < queue.len() && (#[trigger] queue[k]).x == x && queue[k].y == y;
        assert(longer[k] == queue[k]);
    }
    assert(longer[queue.len() as int].x == p.x);
}

/// The first `k` neighbours of `(x, y)`, in the order right, up, left, down, are visited.
spec fn enclosed(vis: Flags, x: int, y: int, k: int) -> bool {
    &&& k > 0 ==> vis_at(vis, x + 1, y)
    &&& k > 1 ==> vis_at(vis, x, y + 1)
    &&& k > 2 ==> vis_at(vis, x - 1, y)
    &&& k > 3 ==> vis_at(vis, x, y - 1)
}

/// What the tables hold throughout: the filled cells are visited, enclosed and queued, and
/// a visited cell is filled or a border.
spec fn flooding(tour: Seq<Pos>, w: int, h: int, vis: Flags, fil: Flags, queue: Seq<Pos>) -> bool {
    &&& vis.wf()
    &&& fil.wf()
    &&& vis.width() == w + 2
    &&& vis.height() == h + 2
    &&& fil.width() == w
    &&& fil.height() == h
    &&& forall|x: int, y: int| #[trigger]
        fil.has(x, y) ==> vis_at(vis, x, y) && filled(tour, (x, y)) && queued(queue, x, y)
    &&& forall|x: int, y: int| #[trigger]
        vis_at(vis, x, y) ==> fil.has(x, y) || is_border(tour, (x, y))
    &&& forall|k: int|
        0 <= k < queue.len() ==> fil.has((#[trigger] queue[k]).x as int, queue[k].y as int)
}

/// The tags of every unit step of the edges before `e` are in the tables.
spec fn tagged_edges(tour: Seq<Pos>, vis: Flags, fil: Flags, e: int) -> bool {
    forall|i: int, u: int|
        #![trigger seed_at(tour, i, u)]
        #![trigger border_at(tour, i, u)]
        on_edge(tour, i, u) && i < e ==> {
            &&& fil.has(seed_at(tour, i, u).0, seed_at(tour, i, u).1)
            &&& vis_at(vis, border_at(tour, i, u).0, border_at(tour, i, u).1)
        }
}

/// The tags of the unit steps of edge `e` before step `t` are in the tables.
spec fn tagged_steps(tour: Seq<Pos>, vis: Flags, fil: Flags, e: int, t: int) -> bool {
    forall|u: int|
        #![trigger seed_at(tour, e, u)]
        #![trigger border_at(tour, e, u)]
        on_edge(tour, e, u) && u < t ==> {
            &&& fil.has(seed_at(tour, e, u).0, seed_at(tour, e, u).1)
            &&& vis_at(vis, border_at(tour, e, u).0, border_at(tour, e, u).1)
        }
}

/// Every tag of the tour is in the tables.
spec fn tags_laid(tour: Seq<Pos>, vis: Flags, fil: Flags) -> bool {
    &&& forall|c: (int, int)| #[trigger] is_border(tour, c) ==> vis_at(vis, c.0, c.1)
    &&& forall|c: (int, int)| #[trigger] is_seed(tour, c) ==> fil.has(c.0, c.1)
}

/// The first `n` cells of the queue have all their neighbours visited.
spec fn processed(vis: Flags, queue: Seq<Pos>, n: int) -> bool {
    forall|k: int|
        0 <= k < n ==> enclosed(vis, (#[trigger] queue[k]).x as int, queue[k].y as int, 4)
}

proof fn lemma_flood_complete(
    tour: Seq<Pos>,
    w: int,
    h: int,
    vis: Flags,
    fil: Flags,
    queue: Seq<Pos>,
    path: Seq<(int, int)>,
    i: int,
)
    requires
        flooding(tour, w, h, vis, fil, queue),
        tags_laid(tour, vis, fil),
        processed(vis, queue, queue.len() as int),
        is_fill_path(tour, path),
        0 <= i < path.len(),
    ensures
        fil.has(path[i].0, path[i].1),
    decreases i,
{
    if i > 0 {
        lemma_flood_complete(tour, w, h, vis, fil, queue, path, i - 1);
        let p = path[i - 1];
        let n = path[i];
        assert(adjacent(p, n) && passable(tour, n));
        assert(queued(queue, p.0, p.1));
        reveal(queued);
        let k = choose|k: int| 0 <= k < queue.len() && (#[trigger] queue[k]).x == p.0 && queue[k].y == p.1;
        assert(enclosed(vis, queue[k].x as int, queue[k].y as int, 4));
        assert(vis_at(vis, n.0, n.1));
    }
}

/// Whether every edge of the tour is a horizontal or vertical run of at least one unit.
pub fn check_tour(tour: &Vec<Pos>) -> (r: bool)
    ensures
        r == tour_ok(tour@),
{
    let n = tour.len();
    let mut i: usize = 0;
    while i < n
        invariant
            i <= n,
            n == tour@.len(),
            forall|j: int| 0 <= j < i ==> #[trigger] edge_ok_at(tour@, j),
        decreases n - i,
    {
        let a = tour[i];
        let b = tour[if i + 1 == n {
            0
        } else {
            i + 1
        }];
        if (a.x == b.x) == (a.y == b.y) {
            assert(!edge_ok_at(tour@, i as int));
            return false;
        }
        i += 1;
    }
    true
}

/// Lays the tags of one unit step into the tables. `false` when the seed is off the rectangle.
fn tag_step(
    tour: &Vec<Pos>,
    w: i32,
    h: i32,
    vis: &mut Flags,
    fil: &mut Flags,
    queue: &mut Vec<Pos>,
    e: usize,
    t: i32,
) -> (ok: bool)
    requires
        0 <= w,
        0 <= h,
        tour_ok(tour@),
        on_edge(tour@, e as int, t as int),
        flooding(tour@, w as int, h as int, *old(vis), *old(fil), old(queue)@),
    ensures
        ok ==> flooding(tour@, w as int, h as int, *final(vis), *final(fil), final(queue)@),
        ok ==> forall|x: int, y: int| #[trigger] old(vis).has(x, y) ==> final(vis).has(x, y),
        ok ==> forall|x: int, y: int| #[trigger] old(fil).has(x, y) ==> final(fil).has(x, y),
        ok ==> final(fil).has(seed_at(tour@, e as int, t as int).0, seed_at(tour@, e as int, t as int).1),
        ok ==> vis_at(
            *final(vis),
            border_at(tour@, e as int, t as int).0,
            border_at(tour@, e as int, t as int).1,
        ),
        !ok ==> !in_region(w as int, h as int, seed_at(tour@, e as int, t as int)),
{
    let n = tour.len();
    let a = tour[e];
    let b = tour[if e + 1 == n {
        0
    } else {
        e + 1
    }];
    assert(b == edge_end(tour@, e as int));
    assert(edge_ok_at(tour@, e as int));
    let ax: i64 = a.x as i64;
    let ay: i64 = a.y as i64;
    let tt: i64 = t as i64;
    let (sx, sy, bx, by): (i64, i64, i64, i64) = if a.x == b.x {
        if a.y < b.y {
            (ax - 1, tt, ax, tt)
        } else {
            (ax, tt, ax - 1, tt)
        }
    } else {
        if a.x < b.x {
            (tt, ay, tt, ay - 1)
        } else {
            (tt, ay - 1, tt, ay)
        }
    };
    let ghost s = (sx as int, sy as int);
    let ghost bd = (bx as int, by as int);
    assert(s == seed_at(tour@, e as int, t as int));
    assert(bd == border_at(tour@, e as int, t as int));
    if !(0 <= sx && sx < w as i64 && 0 <= sy && sy < h as i64) {
        return false;
    }
    let ghost vis0 = *vis;
    let ghost fil0 = *fil;
    let ghost queue0 = queue@;
    vis.set((bx + 1) as usize, (by + 1) as usize);
    vis.set((sx + 1) as usize, (sy + 1) as usize);
    if !fil.get(sx as usize, sy as usize) {
        fil.set(sx as usize, sy as usize);
        queue.push(Pos::new(sx as i32, sy as i32));
        proof {
            lemma_queued_push(queue0, Pos { x: sx as i32, y: sy as i32 });
        }
    }
    proof {
        assert(is_seed(tour@, s)) by {
            reveal(is_seed);
        }
        assert(is_border(tour@, bd)) by {
            reveal(is_border);
        }
        lemma_seed_filled(tour@, s);
        assert(fil.has(s.0, s.1));
        assert forall|x: int, y: int| #[trigger] fil.has(x, y) implies vis_at(*vis, x, y) && filled(
            tour@,
            (x, y),
        ) && queued(queue@, x, y) by {
            if fil0.has(x, y) {
                assert(vis_at(vis0, x, y));
                assert(queued(queue0, x, y));
            } else {
                assert(x == sx && y == sy);
            }
        }
        assert forall|x: int, y: int| #[trigger] vis_at(*vis, x, y) implies fil.has(x, y) || is_border(
            tour@,
            (x, y),
        ) by {
            if vis_at(vis0, x, y) {
            } else if x == bx && y == by {
            } else {
                assert(x == sx && y == sy);
            }
        }
        assert forall|k: int| 0 <= k < queue@.len() implies fil.has(
            (#[trigger] queue@[k]).x as int,
            queue@[k].y as int,
        ) by {
            if k < queue0.len() {
                assert(queue@[k] == queue0[k]);
                assert(fil0.has(queue0[k].x as int, queue0[k].y as int));
            }
        }
    }
    true
}

/// Lays the tags of every edge. `None` when a seed is off the rectangle.
fn tag_tour(tour: &Vec<Pos>, w: i32, h: i32) -> (r: Option<(Flags, Flags, Vec<Pos>)>)
    requires
        0 <= w,
        0 <= h,
        tour_ok(tour@),
    ensures
        match r {
            Some((vis, fil, queue)) => {
                &&& flooding(tour@, w as int, h as int, vis, fil, queue@)
                &&& tags_laid(tour@, vis, fil)
            },
            None => exists|c: (int, int)| is_seed(tour@, c) && !in_region(w as int, h as int, c),
        },
{
    let mut vis = Flags::new(w as usize + 2, h as usize + 2);
    let mut fil = Flags::new(w as usize, h as usize);
    let mut queue: Vec<Pos> = Vec::new();
    let n = tour.len();
    let mut e: usize = 0;
    while e < n
        invariant
            0 <= w,
            0 <= h,
            tour_ok(tour@),
            n == tour@.len(),
            e <= n,
            flooding(tour@, w as int, h as int, vis, fil, queue@),
            tagged_edges(tour@, vis, fil, e as int),
        decreases n - e,
    {
        let a = tour[e];
        let b = tour[if e + 1 == n {
            0
        } else {
            e + 1
        }];
        assert(b == edge_end(tour@, e as int));
        assert(edge_ok_at(tour@, e as int));
        let (lo, hi): (i32, i32) = if a.x == b.x {
            if a.y < b.y {
                (a.y, b.y)
            } else {
                (b.y, a.y)
            }
        } else {
            if a.x < b.x {
                (a.x, b.x)
            } else {
                (b.x, a.x)
            }
        };
        let mut t: i32 = lo;
        while t < hi
            invariant
                0 <= w,
                0 <= h,
                tour_ok(tour@),
                n == tour@.len(),
                e < n,
                lo == edge_lo(tour@[e as int], edge_end(tour@, e as int)),
                hi == edge_hi(tour@[e as int], edge_end(tour@, e as int)),
                lo <= t <= hi,
                flooding(tour@, w as int, h as int, vis, fil, queue@),
                tagged_edges(tour@, vis, fil, e as int),
                tagged_steps(tour@, vis, fil, e as int, t as int),
            decreases hi - t,
        {
            let ghost vis0 = vis;
            let ghost fil0 = fil;
            if !tag_step(tour, w, h, &mut vis, &mut fil, &mut queue, e, t) {
                assert(is_seed(tour@, seed_at(tour@, e as int, t as int))) by {
                    reveal(is_seed);
                }
                return None;
            }
            proof {
                assert forall|i: int, u: int|
                    #![trigger seed_at(tour@, i, u)]
                    #![trigger border_at(tour@, i, u)]
                    on_edge(tour@, i, u) && i < e implies {
                    &&& fil.has(seed_at(tour@, i, u).0, seed_at(tour@, i, u).1)
                    &&& vis_at(vis, border_at(tour@, i, u).0, border_at(tour@, i, u).1)
                } by {
                    assert(fil0.has(seed_at(tour@, i, u).0, seed_at(tour@, i, u).1));
                    assert(vis_at(vis0, border_at(tour@, i, u).0, border_at(tour@, i, u).1));
                }
                assert forall|u: int|
                    #![trigger seed_at(tour@, e as int, u)]
                    #![trigger border_at(tour@, e as int, u)]
                    on_edge(tour@, e as int, u) && u < t + 1 implies {
                    &&& fil.has(seed_at(tour@, e as int, u).0, seed_at(tour@, e as int, u).1)
                    &&& vis_at(vis, border_at(tour@, e as int, u).0, border_at(tour@, e as int, u).1)
                } by {
                    if u < t {
                        assert(fil0.has(seed_at(tour@, e as int, u).0, seed_at(tour@, e as int, u).1));
                        assert(vis_at(
                            vis0,
                            border_at(tour@, e as int, u).0,
                            border_at(tour@, e as int, u).1,
                        ));
                    }
                }
            }
            t += 1;
        }
        assert(tagged_edges(tour@, vis, fil, e + 1));
        e += 1;
    }
    proof {
        assert forall|c: (int, int)| #[trigger] is_border(tour@, c) implies vis_at(vis, c.0, c.1) by {
            reveal(is_border);
            let (i, t) = choose|i: int, t: int|
                on_edge(tour@, i, t) && #[trigger] border_at(tour@, i, t) == c;
            assert(vis_at(vis, border_at(tour@, i, t).0, border_at(tour@, i, t).1));
        }
        assert forall|c: (int, int)| #[trigger] is_seed(tour@, c) implies fil.has(c.0, c.1) by {
            reveal(is_seed);
            let (i, t) = choose|i: int, t: int| on_edge(tour@, i, t) && #[trigger] seed_at(tour@, i, t) == c;
            assert(fil.has(seed_at(tour@, i, t).0, seed_at(tour@, i, t).1));
        }
    }
    Some((vis, fil, queue))
}

/// Visits neighbour `dir` of `cur`. `false` when the flood would leave the rectangle there.
fn visit_neighbour(
    tour: &Vec<Pos>,
    w: i32,
    h: i32,
    vis: &mut Flags,
    fil: &mut Flags,
    queue: &mut Vec<Pos>,
    done: usize,
    cur: Pos,
    dir: usize,
) -> (ok: bool)
    requires
        0 <= w,
        0 <= h,
        dir < 4,
        done <= old(queue)@.len(),
        flooding(tour@, w as int, h as int, *old(vis), *old(fil), old(queue)@),
        tags_laid(tour@, *old(vis), *old(fil)),
        processed(*old(vis), old(queue)@, done as int),
        enclosed(*old(vis), cur.x as int, cur.y as int, dir as int),
        old(fil).has(cur.x as int, cur.y as int),
    ensures
        !ok ==> !fill_fits(tour@, w as int, h as int),
        ok ==> {
            &&& flooding(tour@, w as int, h as int, *final(vis), *final(fil), final(queue)@)
            &&& tags_laid(tour@, *final(vis), *final(fil))
            &&& processed(*final(vis), final(queue)@, done as int)
            &&& enclosed(*final(vis), cur.x as int, cur.y as int, dir + 1)
            &&& final(fil).has(cur.x as int, cur.y as int)
            &&& final(vis).unset() + final(queue)@.len() == old(vis).unset() + old(queue)@.len()
            &&& final(queue)@.len() >= old(queue)@.len()
            &&& forall|k: int| 0 <= k < old(queue)@.len() ==> final(queue)@[k] == old(queue)@[k]
        },
{
    proof {
        fil.lemma_has_inside(cur.x as int, cur.y as int);
    }
    let diffs = PosDiff::gen_all_diff();
    let d = diffs[dir];
    assert(d == PosDiff::all_diffs()[dir as int]);
    let nx: i32 = cur.x + d.dx;
    let ny: i32 = cur.y + d.dy;
    let ghost c = (cur.x as int, cur.y as int);
    let ghost n = (nx as int, ny as int);
    assert(adjacent(c, n));
    let ghost vis0 = *vis;
    let ghost fil0 = *fil;
    let ghost queue0 = queue@;
    let vx: usize = (nx as i64 + 1) as usize;
    let vy: usize = (ny as i64 + 1) as usize;
    if vis.get(vx, vy) {
        assert(vis_at(vis0, n.0, n.1));
        return true;
    }
    assert(!vis_at(vis0, n.0, n.1));
    proof {
        assert(!is_border(tour@, n));
        lemma_filled_step(tour@, c, n);
    }
    if !(0 <= nx && nx < w && 0 <= ny && ny < h) {
        return false;
    }
    vis.set(vx, vy);
    fil.set(nx as usize, ny as usize);
    queue.push(Pos::new(nx, ny));
    proof {
        lemma_queued_push(queue0, Pos { x: nx, y: ny });
        assert(vis_at(*vis, n.0, n.1));
        assert forall|x: int, y: int| #[trigger] fil.has(x, y) implies vis_at(*vis, x, y) && filled(
            tour@,
            (x, y),
        ) && queued(queue@, x, y) by {
            if fil0.has(x, y) {
                assert(vis_at(vis0, x, y));
                assert(queued(queue0, x, y));
            } else {
                assert(x == nx && y == ny);
            }
        }
        assert forall|x: int, y: int| #[trigger] vis_at(*vis, x, y) implies fil.has(x, y) || is_border(
            tour@,
            (x, y),
        ) by {
            if vis_at(vis0, x, y) {
            } else {
                assert(x == nx && y == ny);
            }
        }
        assert forall|k: int| 0 <= k < queue@.len() implies fil.has(
            (#[trigger] queue@[k]).x as int,
            queue@[k].y as int,
        ) by {
            if k < queue0.len() {
                assert(queue@[k] == queue0[k]);
                assert(fil0.has(queue0[k].x as int, queue0[k].y as int));
            }
        }
        assert forall|c: (int, int)| #[trigger] is_border(tour@, c) implies vis_at(*vis, c.0, c.1) by {
            assert(vis_at(vis0, c.0, c.1));
        }
        assert forall|c: (int, int)| #[trigger] is_seed(tour@, c) implies fil.has(c.0, c.1) by {
            assert(fil0.has(c.0, c.1));
        }
        assert forall|k: int| 0 <= k < done implies enclosed(
            *vis,
            (#[trigger] queue@[k]).x as int,
            queue@[k].y as int,
            4,
        ) by {
            assert(queue@[k] == queue0[k]);
            assert(enclosed(vis0, queue0[k].x as int, queue0[k].y as int, 4));
        }
    }
    true
}

/// The cells that `tour` encloses, as a table of `max_x` by `max_y` flags.
///
/// A tour with no corner encloses nothing. The flood is confined to the rectangle: a tour
/// whose enclosed set reaches beyond it is refused.
pub fn fill_tour(tour: &Vec<Pos>, max_x: i32, max_y: i32) -> (r: Result<Flags, FillError>)
    ensures
        (r matches Err(FillError::BadEdge)) <==> !tour_ok(tour@),
        (r matches Err(FillError::OutOfBounds)) <==> tour_ok(tour@) && !fill_fits(
            tour@,
            max_x as int,
            max_y as int,
        ),
        r matches Ok(fil) ==> {
            &&& fil.wf()
            &&& fil.width() == if max_x < 0 { 0 } else { max_x as int }
            &&& fil.height() == if max_y < 0 { 0 } else { max_y as int }
            &&& forall|x: int, y: int| #[trigger] fil.has(x, y) <==> filled(tour@, (x, y))
        },
{
    if !check_tour(tour) {
        return Err(FillError::BadEdge);
    }
    let w: i32 = if max_x < 0 {
        0
    } else {
        max_x
    };
    let h: i32 = if max_y < 0 {
        0
    } else {
        max_y
    };
    assert(forall|c: (int, int)|
        in_region(max_x as int, max_y as int, c) ==> #[trigger] in_region(w as int, h as int, c));
    let (mut vis, mut fil, mut queue) = match tag_tour(tour, w, h) {
        Some(tables) => tables,
        None => {
            proof {
                let c = choose|c: (int, int)| is_seed(tour@, c) && !in_region(w as int, h as int, c);
                lemma_seed_filled(tour@, c);
                assert(!in_region(max_x as int, max_y as int, c));
            }
            return Err(FillError::OutOfBounds);
        },
    };
    let mut head: usize = 0;
    while head < queue.len()
        invariant
            0 <= w,
            0 <= h,
            tour_ok(tour@),
            head <= queue@.len(),
            forall|c: (int, int)|
                in_region(max_x as int, max_y as int, c) ==> #[trigger] in_region(w as int, h as int, c),
            flooding(tour@, w as int, h as int, vis, fil, queue@),
            tags_laid(tour@, vis, fil),
            processed(vis, queue@, head as int),
        decreases vis.unset() + queue@.len() - head,
    {
        let cur = queue[head];
        let ghost measure = vis.unset() + queue@.len();
        let mut dir: usize = 0;
        while dir < 4
            invariant
                0 <= w,
                0 <= h,
                tour_ok(tour@),
                dir <= 4,
                head < queue@.len(),
                queue@[head as int] == cur,
                fil.has(cur.x as int, cur.y as int),
                flooding(tour@, w as int, h as int, vis, fil, queue@),
                tags_laid(tour@, vis, fil),
                processed(vis, queue@, head as int),
                enclosed(vis, cur.x as int, cur.y as int, dir as int),
                vis.unset() + queue@.len() == measure,
                forall|c: (int, int)|
                    in_region(max_x as int, max_y as int, c) ==> #[trigger] in_region(
                        w as int,
                        h as int,
                        c,
                    ),
            decreases 4 - dir,
        {
            if !visit_neighbour(tour, w, h, &mut vis, &mut fil, &mut queue, head, cur, dir) {
                proof {
                    let c = choose|c: (int, int)| #[trigger]
                        filled(tour@, c) && !in_region(w as int, h as int, c);
                    assert(!in_region(max_x as int, max_y as int, c));
                }
                return Err(FillError::OutOfBounds);
            }
            dir += 1;
        }
        head += 1;
    }
    proof {
        assert forall|c: (int, int)| #[trigger] filled(tour@, c) implies fil.has(c.0, c.1) by {
            reveal(filled);
            let path = choose|path: Seq<(int, int)>| #[trigger]
                is_fill_path(tour@, path) && path.last() == c;
            lemma_flood_complete(tour@, w as int, h as int, vis, fil, queue@, path, path.len() - 1);
        }
        assert forall|c: (int, int)| #[trigger] filled(tour@, c) implies in_region(
            max_x as int,
            max_y as int,
            c,
        ) by {
            fil.lemma_has_inside(c.0, c.1);
        }
    }
    Ok(fil)
}

} // verus!
