//! A map with grid coordinates, and the algorithms that fill it.
use vstd::prelude::*;
use crate::cell::{Area, Cell};
use crate::error::RpgError;
use crate::gridcell::is_room_area;
use crate::point::Point;
use crate::room::Room;
use crate::combine::index_pairs;
use crate::connect::{
    all_pairs_joined, hall_open, in_some, lemma_group_survives, lemma_group_unique, lemma_hallway_opens, lemma_one_group, max_sq, on_hall, pair_joined, pass_done,
};
use crate::rng::{choose_point, random_in_range};
use crate::route::RouteMethod;
use std::collections::VecDeque;

verus! {

/// The largest width or height of a map: the number of its cells then fits in
/// a `usize` on every target, 32-bit ones included.
pub const MAX_EXTENT: usize = 65535;

/// Whether `(x, y)` is a cell of the grid `g`.
pub open spec fn in_grid(g: Seq<Seq<Area>>, x: int, y: int) -> bool {
    0 <= x < g.len() && 0 <= y < g[x].len()
}

/// The grid `g` after every cell of the box `[x0, x1] x [y0, y1]` that is not an
/// entrance became a room.
pub open spec fn fill_rect(g: Seq<Seq<Area>>, x0: int, y0: int, x1: int, y1: int) -> Seq<Seq<Area>> {
    Seq::new(
        g.len(),
        |i: int|
            Seq::new(
                g[i].len(),
                |j: int|
                    if x0 <= i <= x1 && y0 <= j <= y1 && g[i][j] != Area::Entrance {
                        Area::Room
                    } else {
                        g[i][j]
                    },
            ),
    )
}

/// What placing a room makes of a cell: everything but an entrance becomes a room.
pub open spec fn filled(a: Area) -> Area {
    if a != Area::Entrance { Area::Room } else { a }
}

/// The smaller of two integers.
pub open spec fn min_int(a: int, b: int) -> int {
    if a <= b { a } else { b }
}

/// The larger of two integers.
pub open spec fn max_int(a: int, b: int) -> int {
    if a >= b { a } else { b }
}

/// The grid `g` after placing a room with opposite corners `p0` and `p1`.
pub open spec fn room_placed(g: Seq<Seq<Area>>, p0: Point, p1: Point) -> Seq<Seq<Area>> {
    fill_rect(
        g,
        min_int(p0.x as int, p1.x as int),
        min_int(p0.y as int, p1.y as int),
        max_int(p0.x as int, p1.x as int),
        max_int(p0.y as int, p1.y as int),
    )
}

/// The grid `g` after an L-shaped hallway from `p0` to `p1`: along the row of
/// `p0` first and then along the column of `p1` when `horizontal_first`, else
/// along the column of `p0` first and then along the row of `p1`.
pub open spec fn hallway_placed(g: Seq<Seq<Area>>, p0: Point, p1: Point, horizontal_first: bool) -> Seq<Seq<Area>> {
    if horizontal_first {
        let bend = Point { x: p1.x, y: p0.y };
        room_placed(room_placed(g, p0, bend), bend, p1)
    } else {
        let bend = Point { x: p0.x, y: p1.y };
        room_placed(room_placed(g, p0, bend), bend, p1)
    }
}

/// The grid `g` with the cell `(x, y)` set to `a`.
pub open spec fn set_cell(g: Seq<Seq<Area>>, x: int, y: int, a: Area) -> Seq<Seq<Area>> {
    g.update(x, g[x].update(y, a))
}

/// The distance between two points along the axis on which they lie furthest apart.
pub open spec fn ring_dist(a: Point, b: Point) -> int {
    let dx = if a.x >= b.x { a.x - b.x } else { b.x - a.x };
    let dy = if a.y >= b.y { a.y - b.y } else { b.y - a.y };
    max_int(dx, dy)
}

/// No cell of `g` but `origin` itself satisfies `pred`.
pub open spec fn no_match(g: Seq<Seq<Area>>, origin: Point, pred: spec_fn(Area) -> bool) -> bool {
    forall|q: Point|
        in_grid(g, q.x as int, q.y as int) && q != origin ==> !pred(#[trigger] g[q.x as int][q.y as int])
}

/// `p` is a cell of `g` other than `origin` that satisfies `pred`, and no
/// other such cell lies on a ring around `origin` nearer than that of `p`.
pub open spec fn is_nearest_match(g: Seq<Seq<Area>>, origin: Point, p: Point, pred: spec_fn(Area) -> bool) -> bool {
    &&& in_grid(g, p.x as int, p.y as int)
    &&& p != origin
    &&& pred(g[p.x as int][p.y as int])
    &&& forall|q: Point|
        in_grid(g, q.x as int, q.y as int) && q != origin && pred(#[trigger] g[q.x as int][q.y as int])
            ==> ring_dist(origin, q) >= ring_dist(origin, p)
}

/// Whether `p` lies on the straight piece of cells `(k, fixed)` (when
/// `horizontal`) or `(fixed, k)` (otherwise), for `lo <= k <= hi`.
pub open spec fn on_segment(horizontal: bool, fixed: int, lo: int, hi: int, p: Point) -> bool {
    if horizontal {
        p.y == fixed && lo <= p.x <= hi
    } else {
        p.x == fixed && lo <= p.y <= hi
    }
}

/// Whether `(i, j)` lies on the outer edge of the grid `g`.
pub open spec fn on_edge_of(g: Seq<Seq<Area>>, i: int, j: int) -> bool {
    i == 0 || i == g.len() - 1 || j == 0 || j == g[i].len() - 1
}

/// 1 for a room, 0 for anything else.
pub open spec fn room_unit(a: Area) -> int {
    if a == Area::Room { 1 } else { 0 }
}

/// The number of rooms among the cell `(i, j)` and its eight neighbours.
pub open spec fn rooms_around(g: Seq<Seq<Area>>, i: int, j: int) -> int {
    room_unit(g[i - 1][j - 1]) + room_unit(g[i - 1][j]) + room_unit(g[i - 1][j + 1])
        + room_unit(g[i][j - 1]) + room_unit(g[i][j]) + room_unit(g[i][j + 1])
        + room_unit(g[i + 1][j - 1]) + room_unit(g[i + 1][j]) + room_unit(g[i + 1][j + 1])
}

/// Whether the cave rule makes a room of the cell `(i, j)`: a cell off the
/// edge with at least 5 rooms among itself and its eight neighbours.
pub open spec fn anneals(g: Seq<Seq<Area>>, i: int, j: int) -> bool {
    !on_edge_of(g, i, j) && rooms_around(g, i, j) >= 5
}

/// One generation of the cave automaton, computed from all of `g` at once.
pub open spec fn cave_step(g: Seq<Seq<Area>>) -> Seq<Seq<Area>> {
    Seq::new(
        g.len(),
        |i: int| Seq::new(g[i].len(), |j: int| if anneals(g, i, j) { Area::Room } else { Area::Nothing }),
    )
}

/// `g1` grew from `g0`: every room and entrance stayed, and the only change
/// is that some empty cells became rooms.
pub open spec fn grown(g0: Seq<Seq<Area>>, g1: Seq<Seq<Area>>) -> bool {
    &&& g1.len() == g0.len()
    &&& forall|i: int| 0 <= i < g0.len() ==> #[trigger] g1[i].len() == g0[i].len()
    &&& forall|i: int, j: int|
        in_grid(g0, i, j) ==> {
            &&& (g0[i][j] != Area::Nothing ==> #[trigger] g1[i][j] == g0[i][j])
            &&& (g1[i][j] != Area::Room || g0[i][j] != Area::Entrance)
            &&& (g1[i][j] == Area::Entrance ==> g0[i][j] == Area::Entrance)
        }
}

/// Every cell on the outer edge of `g` is empty.
pub open spec fn edges_empty(g: Seq<Seq<Area>>) -> bool {
    forall|i: int, j: int| in_grid(g, i, j) && on_edge_of(g, i, j) ==> #[trigger] g[i][j] == Area::Nothing
}

/// One of the four neighbours of the cell `(i, j)` of `g` is not empty.
pub open spec fn has_filled_neighbour(g: Seq<Seq<Area>>, i: int, j: int) -> bool {
    g[i - 1][j] != Area::Nothing || g[i + 1][j] != Area::Nothing || g[i][j - 1] != Area::Nothing || g[i][j + 1]
        != Area::Nothing
}

/// Every cell of `g` is a room or empty.
pub open spec fn rooms_only(g: Seq<Seq<Area>>) -> bool {
    forall|i: int, j: int| in_grid(g, i, j) ==> #[trigger] g[i][j] != Area::Entrance
}

/// The grid `g` with every cell of `s` emptied.
pub open spec fn cleared(g: Seq<Seq<Area>>, s: Set<Point>) -> Seq<Seq<Area>> {
    Seq::new(g.len(), |i: int| Seq::new(g[i].len(), |j: int| if s.contains(pt(i, j)) { Area::Nothing } else { g[i][j] }))
}

/// `g1` is `g0` with some cells emptied and nothing else changed.
pub open spec fn thinned(g0: Seq<Seq<Area>>, g1: Seq<Seq<Area>>) -> bool {
    &&& g1.len() == g0.len()
    &&& forall|i: int| 0 <= i < g0.len() ==> #[trigger] g1[i].len() == g0[i].len()
    &&& forall|i: int, j: int| in_grid(g0, i, j) ==> #[trigger] g1[i][j] == g0[i][j] || g1[i][j] == Area::Nothing
}

/// Growing is transitive.
pub proof fn lemma_grown_trans(g0: Seq<Seq<Area>>, g1: Seq<Seq<Area>>, g2: Seq<Seq<Area>>)
    requires
        grown(g0, g1),
        grown(g1, g2),
    ensures
        grown(g0, g2),
{
    assert forall|i: int, j: int| in_grid(g0, i, j) implies {
        &&& (g0[i][j] != Area::Nothing ==> #[trigger] g2[i][j] == g0[i][j])
        &&& (g2[i][j] != Area::Room || g0[i][j] != Area::Entrance)
        &&& (g2[i][j] == Area::Entrance ==> g0[i][j] == Area::Entrance)
    } by {
        assert(in_grid(g1, i, j));
    }
}

/// The squared distance between two cells of a map fits in a `u64`.
proof fn lemma_grid_dist(g: Seq<Seq<Area>>, p: Point, q: Point)
    requires
        g.len() <= MAX_EXTENT,
        forall|k: int| 0 <= k < g.len() ==> #[trigger] g[k].len() <= MAX_EXTENT,
        in_grid(g, p.x as int, p.y as int),
        in_grid(g, q.x as int, q.y as int),
    ensures
        crate::point::sq_dist(p, q) <= u64::MAX,
{
    let dx = p.x - q.x;
    let dy = p.y - q.y;
    assert(g[p.x as int].len() <= MAX_EXTENT && g[q.x as int].len() <= MAX_EXTENT);
    assert(dx * dx + dy * dy <= 2 * 65535 * 65535) by (nonlinear_arith)
        requires -65535 <= dx <= 65535, -65535 <= dy <= 65535;
}

/// The grey level in which a cell of the area `a` is drawn.
pub open spec fn shade(a: Area) -> u8 {
    match a {
        Area::Room => 200,
        Area::Entrance => 255,
        Area::Nothing => 25,
    }
}

/// The squared distance between two cells of a map is at most `max_sq`.
proof fn lemma_sq_dist_bounded(g: Seq<Seq<Area>>, p: Point, q: Point, w: int, h: int)
    requires
        g.len() == w,
        forall|k: int| 0 <= k < w ==> #[trigger] g[k].len() == h,
        in_grid(g, p.x as int, p.y as int),
        in_grid(g, q.x as int, q.y as int),
    ensures
        crate::point::sq_dist(p, q) <= max_sq(g),
{
    assert(g[0].len() == h);
    assert(g[p.x as int].len() == h && g[q.x as int].len() == h);
    let dx = p.x - q.x;
    let dy = p.y - q.y;
    assert(dx * dx <= (w - 1) * (w - 1)) by (nonlinear_arith)
        requires -(w - 1) <= dx <= w - 1;
    assert(dy * dy <= (h - 1) * (h - 1)) by (nonlinear_arith)
        requires -(h - 1) <= dy <= h - 1;
}

/// Placing a room only grows a map.
pub proof fn lemma_room_placed_grows(g: Seq<Seq<Area>>, p0: Point, p1: Point)
    ensures
        grown(g, room_placed(g, p0, p1)),
{
}

/// Placing a hallway only grows a map.
pub proof fn lemma_hallway_placed_grows(g: Seq<Seq<Area>>, p0: Point, p1: Point, horizontal_first: bool)
    ensures
        grown(g, hallway_placed(g, p0, p1, horizontal_first)),
{
    let bend = if horizontal_first { Point { x: p1.x, y: p0.y } } else { Point { x: p0.x, y: p1.y } };
    let g1 = room_placed(g, p0, bend);
    lemma_room_placed_grows(g, p0, bend);
    lemma_room_placed_grows(g1, bend, p1);
}

/// An entrance survives any room placed over it.
pub proof fn lemma_entrance_protected(g: Seq<Seq<Area>>, p0: Point, p1: Point, x: int, y: int)
    requires
        in_grid(g, x, y),
        g[x][y] == Area::Entrance,
    ensures
        room_placed(g, p0, p1)[x][y] == Area::Entrance,
{
}

/// On a map of empty cells only, the search for a room finds nothing,
/// wherever it starts.
pub proof fn lemma_empty_map_finds_no_room(g: Seq<Seq<Area>>, origin: Point)
    requires
        forall|i: int, j: int| in_grid(g, i, j) ==> #[trigger] g[i][j] == Area::Nothing,
    ensures
        no_match(g, origin, |a: Area| is_room_area(a)),
{
    assert forall|q: Point| in_grid(g, q.x as int, q.y as int) && q != origin implies !is_room_area(
        #[trigger] g[q.x as int][q.y as int],
    ) by {
    }
}

/// Placing the same room a second time changes nothing.
pub proof fn lemma_place_room_idempotent(g: Seq<Seq<Area>>, p0: Point, p1: Point)
    ensures
        room_placed(room_placed(g, p0, p1), p0, p1) == room_placed(g, p0, p1),
{
    assert(room_placed(room_placed(g, p0, p1), p0, p1) =~~= room_placed(g, p0, p1));
}

/// The point at the grid index `(i, j)`.
pub open spec fn pt(i: int, j: int) -> Point {
    Point { x: i as i64, y: j as i64 }
}

/// The area of the cell at `p`.
pub open spec fn area_at(g: Seq<Seq<Area>>, p: Point) -> Area {
    g[p.x as int][p.y as int]
}

/// If `q` is a cell of `g` with the same area as `p`, then it belongs to `s`.
pub open spec fn joins(g: Seq<Seq<Area>>, s: Set<Point>, p: Point, q: Point) -> bool {
    in_grid(g, q.x as int, q.y as int) && area_at(g, q) == area_at(g, p) ==> s.contains(q)
}

/// `s` is a set of cells of `g` that holds, with each of its cells, every
/// neighbour (left, right, above, below) of the same area.
pub open spec fn closed_region(g: Seq<Seq<Area>>, s: Set<Point>) -> bool {
    forall|p: Point|
        #[trigger] s.contains(p) ==> {
            &&& in_grid(g, p.x as int, p.y as int)
            &&& joins(g, s, p, pt(p.x + 1, p.y as int))
            &&& joins(g, s, p, pt(p.x - 1, p.y as int))
            &&& joins(g, s, p, pt(p.x as int, p.y + 1))
            &&& joins(g, s, p, pt(p.x as int, p.y - 1))
        }
}

/// Every cell of `s` has the area `a`.
pub open spec fn uniform(g: Seq<Seq<Area>>, s: Set<Point>, a: Area) -> bool {
    forall|p: Point| #[trigger] s.contains(p) ==> area_at(g, p) == a
}

/// The position of the index `(i, j)` in a grid flattened row after row.
pub open spec fn flat(i: int, j: int, h: int) -> int {
    i * h + j
}

/// `v` marks, for each cell of a `w` by `h` grid, whether it is in `s`.
pub open spec fn marks(v: Seq<bool>, s: Set<Point>, w: int, h: int) -> bool {
    &&& v.len() == w * h
    &&& forall|i: int, j: int| 0 <= i < w && 0 <= j < h ==> #[trigger] v[flat(i, j, h)] == s.contains(pt(i, j))
    &&& forall|p: Point| #[trigger] s.contains(p) ==> 0 <= p.x < w && 0 <= p.y < h
}

/// The number of `false` entries of `v`.
pub open spec fn count_false(v: Seq<bool>) -> nat
    decreases v.len(),
{
    if v.len() == 0 {
        0
    } else {
        count_false(v.drop_last()) + if v.last() { 0nat } else { 1nat }
    }
}

/// Marking an unmarked entry leaves one `false` fewer.
proof fn lemma_count_false_set(v: Seq<bool>, i: int)
    requires
        0 <= i < v.len(),
        !v[i],
    ensures
        count_false(v.update(i, true)) + 1 == count_false(v),
    decreases v.len(),
{
    if i == v.len() - 1 {
        assert(v.update(i, true).drop_last() =~= v.drop_last());
    } else {
        lemma_count_false_set(v.drop_last(), i);
        assert(v.update(i, true).drop_last() =~= v.drop_last().update(i, true));
    }
}

/// A sequence holds no more `false` entries than entries.
proof fn lemma_count_false_le(v: Seq<bool>)
    ensures
        count_false(v) <= v.len(),
    decreases v.len(),
{
    if v.len() > 0 {
        lemma_count_false_le(v.drop_last());
    }
}

/// Flat positions lie in the flattened grid, one for each index.
proof fn lemma_flat(i: int, j: int, i2: int, j2: int, w: int, h: int)
    requires
        0 <= i < w,
        0 <= j < h,
        0 <= i2 < w,
        0 <= j2 < h,
    ensures
        0 <= flat(i, j, h) < w * h,
        flat(i, j, h) == flat(i2, j2, h) ==> i == i2 && j == j2,
{
    assert(0 <= i * h + j < w * h) by (nonlinear_arith)
        requires 0 <= i < w, 0 <= j < h;
    if i < i2 {
        assert(i * h + j < i2 * h + j2) by (nonlinear_arith)
            requires i < i2, 0 <= j < h, 0 <= j2;
    } else if i2 < i {
        assert(i2 * h + j2 < i * h + j) by (nonlinear_arith)
            requires i2 < i, 0 <= j2 < h, 0 <= j;
    }
}

/// The queue entry for the cell at `n`.
spec fn qpos(n: Point) -> (usize, usize) {
    (n.x as usize, n.y as usize)
}

/// The neighbour `n` of `p` belongs to `room` if it should, or waits in `queue`.
spec fn near_ok(g: Seq<Seq<Area>>, room: Set<Point>, queue: Seq<(usize, usize)>, p: Point, n: Point) -> bool {
    joins(g, room, p, n) || queue.contains(qpos(n))
}

/// Each cell of `room` lies on `g`, and each of its neighbours of the same
/// area either belongs to `room` or waits in `queue`.
#[verifier::opaque]
spec fn frontier_ok(g: Seq<Seq<Area>>, room: Set<Point>, queue: Seq<(usize, usize)>) -> bool {
    forall|p: Point|
        #[trigger] room.contains(p) ==> {
            &&& in_grid(g, p.x as int, p.y as int)
            &&& near_ok(g, room, queue, p, pt(p.x + 1, p.y as int))
            &&& near_ok(g, room, queue, p, pt(p.x - 1, p.y as int))
            &&& near_ok(g, room, queue, p, pt(p.x as int, p.y + 1))
            &&& near_ok(g, room, queue, p, pt(p.x as int, p.y - 1))
        }
}

/// Each entry of `queue` lies at most one step off the `w` by `h` grid, and
/// one that is a marked cell of the area `area` already belongs to `room`.
#[verifier::opaque]
spec fn queue_ok(
    g: Seq<Seq<Area>>,
    room: Set<Point>,
    all: Set<Point>,
    queue: Seq<(usize, usize)>,
    area: Area,
    w: int,
    h: int,
) -> bool {
    forall|e: (usize, usize)| #[trigger] queue.contains(e) ==> entry_ok(g, room, all, e, area, w, h)
}

/// One entry of the queue, as `queue_ok` requires it.
spec fn entry_ok(g: Seq<Seq<Area>>, room: Set<Point>, all: Set<Point>, e: (usize, usize), area: Area, w: int, h: int) -> bool {
    e.0 <= w && e.1 <= h && (in_grid(g, e.0 as int, e.1 as int) && g[e.0 as int][e.1 as int] == area
        && all.contains(pt(e.0 as int, e.1 as int)) ==> room.contains(pt(e.0 as int, e.1 as int)))
}

/// What a queue holds after its head is taken off.
proof fn lemma_pop_contains(q0: Seq<(usize, usize)>, e: (usize, usize))
    requires
        q0.len() > 0,
    ensures
        q0.drop_first().contains(e) ==> q0.contains(e),
        q0.contains(e) && e != q0[0] ==> q0.drop_first().contains(e),
{
    if q0.drop_first().contains(e) {
        let k = choose|k: int| 0 <= k < q0.len() - 1 && q0.drop_first()[k] == e;
        assert(q0[k + 1] == e);
    }
    if q0.contains(e) && e != q0[0] {
        let k = choose|k: int| 0 <= k < q0.len() && q0[k] == e;
        assert(q0.drop_first()[k - 1] == e);
    }
}

/// One neighbour stays accounted for when the head of the queue adds nothing.
proof fn lemma_near_skip(
    g: Seq<Seq<Area>>,
    room: Set<Point>,
    all: Set<Point>,
    q0: Seq<(usize, usize)>,
    area: Area,
    w: int,
    h: int,
    p: Point,
    n: Point,
)
    requires
        q0.len() > 0,
        g.len() == w,
        forall|k: int| 0 <= k < w ==> #[trigger] g[k].len() == h,
        w <= MAX_EXTENT,
        h <= MAX_EXTENT,
        near_ok(g, room, q0, p, n),
        room.contains(p),
        uniform(g, room, area),
        entry_ok(g, room, all, q0[0], area, w, h),
        !in_grid(g, q0[0].0 as int, q0[0].1 as int) || g[q0[0].0 as int][q0[0].1 as int] != area
            || all.contains(pt(q0[0].0 as int, q0[0].1 as int)),
    ensures
        near_ok(g, room, q0.drop_first(), p, n),
{
    lemma_pop_contains(q0, qpos(n));
    if !joins(g, room, p, n) && qpos(n) == q0[0] {
        assert(pt(q0[0].0 as int, q0[0].1 as int) == n);
    }
}

/// Taking an entry off the queue that adds nothing to the room keeps the
/// flood's invariants.
proof fn lemma_flood_skip(
    g: Seq<Seq<Area>>,
    room: Set<Point>,
    all: Set<Point>,
    q0: Seq<(usize, usize)>,
    area: Area,
    w: int,
    h: int,
)
    requires
        q0.len() > 0,
        g.len() == w,
        forall|k: int| 0 <= k < w ==> #[trigger] g[k].len() == h,
        w <= MAX_EXTENT,
        h <= MAX_EXTENT,
        frontier_ok(g, room, q0),
        queue_ok(g, room, all, q0, area, w, h),
        uniform(g, room, area),
        !in_grid(g, q0[0].0 as int, q0[0].1 as int) || g[q0[0].0 as int][q0[0].1 as int] != area
            || all.contains(pt(q0[0].0 as int, q0[0].1 as int)),
    ensures
        frontier_ok(g, room, q0.drop_first()),
        queue_ok(g, room, all, q0.drop_first(), area, w, h),
{
    reveal(frontier_ok);
    reveal(queue_ok);
    let q1 = q0.drop_first();
    assert(q0.contains(q0[0]));
    assert forall|e: (usize, usize)| #[trigger] q1.contains(e) implies entry_ok(g, room, all, e, area, w, h) by {
        lemma_pop_contains(q0, e);
    }
    assert forall|p: Point| #[trigger] room.contains(p) implies {
        &&& in_grid(g, p.x as int, p.y as int)
        &&& near_ok(g, room, q1, p, pt(p.x + 1, p.y as int))
        &&& near_ok(g, room, q1, p, pt(p.x - 1, p.y as int))
        &&& near_ok(g, room, q1, p, pt(p.x as int, p.y + 1))
        &&& near_ok(g, room, q1, p, pt(p.x as int, p.y - 1))
    } by {
        lemma_near_skip(g, room, all, q0, area, w, h, p, pt(p.x + 1, p.y as int));
        lemma_near_skip(g, room, all, q0, area, w, h, p, pt(p.x - 1, p.y as int));
        lemma_near_skip(g, room, all, q0, area, w, h, p, pt(p.x as int, p.y + 1));
        lemma_near_skip(g, room, all, q0, area, w, h, p, pt(p.x as int, p.y - 1));
    }
}

/// The queue after taking its head `(a, b)` off and adding the four
/// neighbours of `(a, b)`.
spec fn queue_after_add(q0: Seq<(usize, usize)>) -> Seq<(usize, usize)> {
    let (a, b) = q0[0];
    q0.drop_first().push(((a + 1) as usize, b)).push(
        (if a > 0 { (a - 1) as usize } else { 0 }, b),
    ).push((a, (b + 1) as usize)).push((a, if b > 0 { (b - 1) as usize } else { 0 }))
}

/// What the queue holds after the head joins the room.
proof fn lemma_queue_after_add(q0: Seq<(usize, usize)>, e: (usize, usize))
    requires
        q0.len() > 0,
    ensures
        queue_after_add(q0).contains(e) <==> (q0.drop_first().contains(e) || e == ((q0[0].0 + 1) as usize, q0[0].1)
            || e == (if q0[0].0 > 0 { (q0[0].0 - 1) as usize } else { 0 }, q0[0].1)
            || e == (q0[0].0, (q0[0].1 + 1) as usize)
            || e == (q0[0].0, if q0[0].1 > 0 { (q0[0].1 - 1) as usize } else { 0 })),
{
    let (a, b) = q0[0];
    let q1 = q0.drop_first();
    let n0 = ((a + 1) as usize, b);
    let n1 = (if a > 0 { (a - 1) as usize } else { 0 }, b);
    let n2 = (a, (b + 1) as usize);
    let n3 = (a, if b > 0 { (b - 1) as usize } else { 0 });
    lemma_push_contains(q1, n0, e);
    lemma_push_contains(q1.push(n0), n1, e);
    lemma_push_contains(q1.push(n0).push(n1), n2, e);
    lemma_push_contains(q1.push(n0).push(n1).push(n2), n3, e);
}

/// One neighbour stays accounted for when the head of the queue joins the room.
proof fn lemma_near_add(
    g: Seq<Seq<Area>>,
    room: Set<Point>,
    q0: Seq<(usize, usize)>,
    w: int,
    h: int,
    p: Point,
    n: Point,
)
    requires
        q0.len() > 0,
        g.len() == w,
        forall|k: int| 0 <= k < w ==> #[trigger] g[k].len() == h,
        w <= MAX_EXTENT,
        h <= MAX_EXTENT,
        in_grid(g, q0[0].0 as int, q0[0].1 as int),
        room.insert(pt(q0[0].0 as int, q0[0].1 as int)).contains(p),
        in_grid(g, p.x as int, p.y as int),
        p != pt(q0[0].0 as int, q0[0].1 as int) ==> near_ok(g, room, q0, p, n),
        n == pt(p.x + 1, p.y as int) || n == pt(p.x - 1, p.y as int) || n == pt(p.x as int, p.y + 1)
            || n == pt(p.x as int, p.y - 1),
    ensures
        near_ok(g, room.insert(pt(q0[0].0 as int, q0[0].1 as int)), queue_after_add(q0), p, n),
{
    let here = pt(q0[0].0 as int, q0[0].1 as int);
    lemma_queue_after_add(q0, qpos(n));
    lemma_pop_contains(q0, qpos(n));
    if p != here && !joins(g, room, p, n) && qpos(n) == q0[0] && in_grid(g, n.x as int, n.y as int) {
        assert(n == here);
    }
}

/// Taking an unmarked cell of the right area off the queue, adding it to the
/// room and queueing its four neighbours keeps the flood's invariants.
proof fn lemma_flood_add(
    g: Seq<Seq<Area>>,
    seen: Set<Point>,
    room: Set<Point>,
    all: Set<Point>,
    q0: Seq<(usize, usize)>,
    area: Area,
    w: int,
    h: int,
)
    requires
        q0.len() > 0,
        g.len() == w,
        forall|k: int| 0 <= k < w ==> #[trigger] g[k].len() == h,
        w <= MAX_EXTENT,
        h <= MAX_EXTENT,
        frontier_ok(g, room, q0),
        queue_ok(g, room, all, q0, area, w, h),
        uniform(g, room, area),
        closed_region(g, seen),
        forall|p: Point| #[trigger] all.contains(p) <==> (seen.contains(p) || room.contains(p)),
        in_grid(g, q0[0].0 as int, q0[0].1 as int),
        g[q0[0].0 as int][q0[0].1 as int] == area,
        !all.contains(pt(q0[0].0 as int, q0[0].1 as int)),
    ensures
        frontier_ok(g, room.insert(pt(q0[0].0 as int, q0[0].1 as int)), queue_after_add(q0)),
        queue_ok(g, room.insert(pt(q0[0].0 as int, q0[0].1 as int)), all.insert(pt(q0[0].0 as int, q0[0].1 as int)), queue_after_add(q0), area, w, h),
        uniform(g, room.insert(pt(q0[0].0 as int, q0[0].1 as int)), area),
{
    reveal(frontier_ok);
    reveal(queue_ok);
    let (a, b) = q0[0];
    let here = pt(a as int, b as int);
    let q2 = queue_after_add(q0);
    let room2 = room.insert(here);
    let all2 = all.insert(here);
    assert(q0.contains(q0[0]));
    assert forall|e: (usize, usize)| #[trigger] q2.contains(e) implies entry_ok(g, room2, all2, e, area, w, h) by {
        lemma_queue_after_add(q0, e);
        lemma_pop_contains(q0, e);
        let q = pt(e.0 as int, e.1 as int);
        if in_grid(g, e.0 as int, e.1 as int) && g[e.0 as int][e.1 as int] == area && all2.contains(q) && !room2.contains(q) {
            if q0.drop_first().contains(e) {
                assert(entry_ok(g, room, all, e, area, w, h));
            } else {
                assert(seen.contains(q));
                assert(area_at(g, q) == area_at(g, here));
                assert(joins(g, seen, q, here));
            }
        }
    }
    assert forall|p: Point| #[trigger] room2.contains(p) implies {
        &&& in_grid(g, p.x as int, p.y as int)
        &&& near_ok(g, room2, q2, p, pt(p.x + 1, p.y as int))
        &&& near_ok(g, room2, q2, p, pt(p.x - 1, p.y as int))
        &&& near_ok(g, room2, q2, p, pt(p.x as int, p.y + 1))
        &&& near_ok(g, room2, q2, p, pt(p.x as int, p.y - 1))
    } by {
        lemma_near_add(g, room, q0, w, h, p, pt(p.x + 1, p.y as int));
        lemma_near_add(g, room, q0, w, h, p, pt(p.x - 1, p.y as int));
        lemma_near_add(g, room, q0, w, h, p, pt(p.x as int, p.y + 1));
        lemma_near_add(g, room, q0, w, h, p, pt(p.x as int, p.y - 1));
    }
}

/// The sets of cells of a list of rooms.
pub open spec fn groups(rooms: Seq<Room>) -> Seq<Set<Point>> {
    rooms.map_values(|r: Room| r@)
}

/// Whether a cell with the area `a` is kept when the grid is split into
/// groups: empty cells only when `include_nothing`.
pub open spec fn kept(a: Area, include_nothing: bool) -> bool {
    include_nothing || a != Area::Nothing
}

/// `gs` is a list of non-empty, pairwise disjoint groups of kept cells of
/// `g`, all of one area each, each holding every neighbour of the same area
/// of each of its cells, and lying within `seen`; every kept cell of `seen`
/// lies in one of them.
pub open spec fn split_within(g: Seq<Seq<Area>>, gs: Seq<Set<Point>>, include_nothing: bool, seen: Set<Point>) -> bool {
    &&& forall|k: int| 0 <= k < gs.len() ==> #[trigger] gs[k] != Set::<Point>::empty()
    &&& forall|k: int, p: Point|
        0 <= k < gs.len() && #[trigger] gs[k].contains(p) ==> in_grid(g, p.x as int, p.y as int)
            && kept(area_at(g, p), include_nothing) && seen.contains(p)
    &&& forall|k: int, p: Point, q: Point|
        0 <= k < gs.len() && #[trigger] gs[k].contains(p) && #[trigger] gs[k].contains(q) ==> area_at(g, p)
            == area_at(g, q)
    &&& forall|k1: int, k2: int, p: Point|
        0 <= k1 < gs.len() && 0 <= k2 < gs.len() && k1 != k2 && #[trigger] gs[k1].contains(p)
            ==> !#[trigger] gs[k2].contains(p)
    &&& forall|k: int| 0 <= k < gs.len() ==> #[trigger] closed_region(g, gs[k])
    &&& forall|p: Point|
        #[trigger] seen.contains(p) && kept(area_at(g, p), include_nothing) ==> exists|k: int|
            0 <= k < gs.len() && #[trigger] gs[k].contains(p)
}

/// Every cell of the grid `g`.
pub open spec fn all_cells(g: Seq<Seq<Area>>) -> Set<Point> {
    Set::new(|p: Point| in_grid(g, p.x as int, p.y as int))
}

/// `gs` splits all the kept cells of `g` into groups of one area each: each
/// group holds, with each of its cells, every neighbour of the same area.
pub open spec fn is_partition(g: Seq<Seq<Area>>, gs: Seq<Set<Point>>, include_nothing: bool) -> bool {
    split_within(g, gs, include_nothing, all_cells(g))
}

/// A map of empty cells only splits into no groups at all when empty cells
/// are left out.
pub proof fn lemma_empty_map_has_no_rooms(g: Seq<Seq<Area>>, gs: Seq<Set<Point>>)
    requires
        is_partition(g, gs, false),
        forall|i: int, j: int| in_grid(g, i, j) ==> #[trigger] g[i][j] == Area::Nothing,
    ensures
        gs.len() == 0,
{
    if gs.len() > 0 {
        assert(gs[0] != Set::<Point>::empty());
        let p = gs[0].choose();
        if !gs[0].contains(p) {
            assert(gs[0] =~= Set::<Point>::empty());
        }
        assert(kept(area_at(g, p), false));
    }
}

/// The union of two closed sets of cells is closed.
proof fn lemma_closed_union(g: Seq<Seq<Area>>, s1: Set<Point>, s2: Set<Point>)
    requires
        closed_region(g, s1),
        closed_region(g, s2),
    ensures
        closed_region(g, s1.union(s2)),
{
    assert forall|p: Point| #[trigger] s1.union(s2).contains(p) implies {
        &&& in_grid(g, p.x as int, p.y as int)
        &&& joins(g, s1.union(s2), p, pt(p.x + 1, p.y as int))
        &&& joins(g, s1.union(s2), p, pt(p.x - 1, p.y as int))
        &&& joins(g, s1.union(s2), p, pt(p.x as int, p.y + 1))
        &&& joins(g, s1.union(s2), p, pt(p.x as int, p.y - 1))
    } by {
        if s1.contains(p) {
            assert(s1.contains(p));
        } else {
            assert(s2.contains(p));
        }
    }
}

/// Whether `p` and `q` are neighbours: one step apart along one axis.
pub open spec fn adjacent(p: Point, q: Point) -> bool {
    (p.x == q.x && (p.y == q.y + 1 || p.y + 1 == q.y)) || (p.y == q.y && (p.x == q.x + 1 || p.x + 1 == q.x))
}

/// The `k`-th cell of `s` is a neighbour of an earlier one.
pub open spec fn has_earlier_neighbour(s: Seq<Point>, k: int) -> bool {
    exists|m: int| 0 <= m < k && adjacent(s[k], #[trigger] s[m])
}

/// Each cell of `s` after the first is a neighbour of an earlier one, so that
/// the cells of `s` form one connected shape.
pub open spec fn linked(s: Seq<Point>) -> bool {
    forall|k: int| 1 <= k < s.len() ==> #[trigger] has_earlier_neighbour(s, k)
}

/// Each entry of `queue` is a cell of the room, a neighbour of one, or the
/// seed while the room is still empty.
#[verifier::opaque]
spec fn queue_linked(cells: Seq<Point>, room: Set<Point>, queue: Seq<(usize, usize)>, seed: Point) -> bool {
    forall|e: (usize, usize)|
        #[trigger] queue.contains(e) ==> room.contains(pt(e.0 as int, e.1 as int)) || (exists|m: int|
            0 <= m < cells.len() && adjacent(pt(e.0 as int, e.1 as int), #[trigger] cells[m])) || (cells.len()
            == 0 && pt(e.0 as int, e.1 as int) == seed)
}

/// Taking the head off the queue keeps the others linked.
proof fn lemma_linked_skip(cells: Seq<Point>, room: Set<Point>, q0: Seq<(usize, usize)>, seed: Point)
    requires
        q0.len() > 0,
        queue_linked(cells, room, q0, seed),
    ensures
        queue_linked(cells, room, q0.drop_first(), seed),
{
    reveal(queue_linked);
    assert forall|e: (usize, usize)| #[trigger] q0.drop_first().contains(e) implies room.contains(pt(e.0 as int, e.1 as int))
        || (exists|m: int| 0 <= m < cells.len() && adjacent(pt(e.0 as int, e.1 as int), #[trigger] cells[m]))
        || (cells.len() == 0 && pt(e.0 as int, e.1 as int) == seed) by {
        lemma_pop_contains(q0, e);
    }
}

/// Adding the head of the queue to the room and queueing its neighbours
/// keeps the room's cells and the queue linked.
proof fn lemma_linked_add(cells: Seq<Point>, room: Set<Point>, q0: Seq<(usize, usize)>, seed: Point)
    requires
        q0.len() > 0,
        q0[0].0 <= MAX_EXTENT,
        q0[0].1 <= MAX_EXTENT,
        queue_linked(cells, room, q0, seed),
        linked(cells),
        forall|p: Point| #[trigger] room.contains(p) <==> cells.contains(p),
        !room.contains(pt(q0[0].0 as int, q0[0].1 as int)),
        cells.len() == 0 ==> pt(q0[0].0 as int, q0[0].1 as int) == seed,
    ensures
        ({
            let here = pt(q0[0].0 as int, q0[0].1 as int);
            &&& linked(cells.push(here))
            &&& queue_linked(cells.push(here), room.insert(here), queue_after_add(q0), seed)
        }),
{
    reveal(queue_linked);
    let (a, b) = q0[0];
    let here = pt(a as int, b as int);
    let c2 = cells.push(here);
    assert(q0.contains(q0[0]));
    assert forall|k: int| 1 <= k < c2.len() implies #[trigger] has_earlier_neighbour(c2, k) by {
        if k < cells.len() {
            assert(has_earlier_neighbour(cells, k));
            let m = choose|m: int| 0 <= m < k && adjacent(cells[k], #[trigger] cells[m]);
            assert(c2[m] == cells[m]);
        } else {
            assert(cells.len() > 0);
            let m = choose|m: int| 0 <= m < cells.len() && adjacent(here, #[trigger] cells[m]);
            assert(c2[m] == cells[m]);
        }
    }
    assert forall|e: (usize, usize)| #[trigger] queue_after_add(q0).contains(e) implies room.insert(here).contains(pt(e.0 as int, e.1 as int))
        || (exists|m: int| 0 <= m < c2.len() && adjacent(pt(e.0 as int, e.1 as int), #[trigger] c2[m]))
        || (c2.len() == 0 && pt(e.0 as int, e.1 as int) == seed) by {
        lemma_queue_after_add(q0, e);
        lemma_pop_contains(q0, e);
        let q = pt(e.0 as int, e.1 as int);
        if q0.drop_first().contains(e) {
            if !room.contains(q) {
                if exists|m: int| 0 <= m < cells.len() && adjacent(q, #[trigger] cells[m]) {
                    let m = choose|m: int| 0 <= m < cells.len() && adjacent(q, #[trigger] cells[m]);
                    assert(c2[m] == cells[m]);
                } else {
                    assert(q == seed && cells.len() == 0);
                    assert(c2[0] == here);
                }
            }
        } else if q != here {
            assert(adjacent(q, c2[cells.len() as int]));
        }
    }
}

/// `s` is the group of `p` in `g`: the cells of the area of `p` that are
/// joined to it through neighbours of that area, and no others.
pub open spec fn is_group_of(g: Seq<Seq<Area>>, s: Set<Point>, p: Point) -> bool {
    &&& closed_region(g, s)
    &&& uniform(g, s, area_at(g, p))
    &&& s.contains(p)
    &&& exists|cells: Seq<Point>| #[trigger] linked(cells) && forall|q: Point| s.contains(q) <==> cells.contains(q)
}

/// `p` is a room cell of `g` whose group holds fewer than 15 cells.
pub open spec fn in_small_group(g: Seq<Seq<Area>>, p: Point) -> bool {
    &&& area_at(g, p) == Area::Room
    &&& exists|s: Set<Point>| #[trigger] is_group_of(g, s, p) && s.finite() && s.len() < 15
}

/// The grid `g` with every room cell of a group of fewer than 15 cells emptied.
pub open spec fn orphans_removed(g: Seq<Seq<Area>>) -> Seq<Seq<Area>> {
    Seq::new(
        g.len(),
        |i: int| Seq::new(g[i].len(), |j: int| if in_small_group(g, pt(i, j)) { Area::Nothing } else { g[i][j] }),
    )
}

/// `g0` could be drawn by `generate_random_cells(limit)` on a map shaped like `g`.
pub open spec fn seeded(g0: Seq<Seq<Area>>, g: Seq<Seq<Area>>, limit: i64) -> bool {
    &&& g0.len() == g.len()
    &&& forall|i: int| 0 <= i < g.len() ==> #[trigger] g0[i].len() == g[i].len()
    &&& rooms_only(g0)
    &&& limit >= 99 ==> forall|a: int, b: int| in_grid(g0, a, b) ==> #[trigger] g0[a][b] == Area::Nothing
    &&& limit < 1 ==> forall|a: int, b: int| in_grid(g0, a, b) ==> #[trigger] g0[a][b] == Area::Room
}

/// `n` generations of the cave automaton applied to `g`.
pub open spec fn cave_steps(g: Seq<Seq<Area>>, n: int) -> Seq<Seq<Area>>
    decreases n,
{
    if n <= 0 { g } else { cave_step(cave_steps(g, n - 1)) }
}

/// `g1` is what generating a cave makes of the drawn grid `g0`: `iter`
/// generations of the automaton, the small groups removed, then one pass of
/// hallways `placed` between the resulting groups `rooms`.
pub open spec fn cave_made(
    g0: Seq<Seq<Area>>,
    rooms: Seq<Room>,
    placed: Seq<(Point, Point, bool)>,
    g1: Seq<Seq<Area>>,
    iter: i64,
) -> bool {
    let g = orphans_removed(cave_steps(g0, iter as int));
    &&& is_partition(g, groups(rooms), false)
    &&& pass_done(g, g1, rooms, placed)
    &&& grown(g, g1)
}

/// `q` is a room cell of `g` nearest to `origin` (see `is_nearest_match`).
pub open spec fn nearest_room(g: Seq<Seq<Area>>, origin: Point, q: Point) -> bool {
    is_nearest_match(g, origin, q, |a: Area| is_room_area(a))
}

/// `gm` is `g` after the hallway that `place_random_room` may place from
/// `origin`: none without `connect` or when `g` holds no other room cell,
/// else an L-shaped hallway to a nearest room cell.
pub open spec fn hall_to_nearest(g: Seq<Seq<Area>>, gm: Seq<Seq<Area>>, origin: Point, connect: bool) -> bool {
    if !connect || no_match(g, origin, |a: Area| is_room_area(a)) {
        gm == g
    } else {
        exists|q: Point|
            #[trigger] nearest_room(g, origin, q) && (gm == hallway_placed(g, origin, q, true) || gm == hallway_placed(
                g,
                origin,
                q,
                false,
            ))
    }
}

/// `g1` is `g` after `place_random_room(scale, connect)` drew the centre
/// `(x0, y0)` and the size `w` by `h`: the optional hallway, then the
/// rectangle around the centre (whose lower side is set by the width).
pub open spec fn random_room_placed(
    g: Seq<Seq<Area>>,
    g1: Seq<Seq<Area>>,
    x0: int,
    y0: int,
    w: int,
    h: int,
    scale: int,
    connect: bool,
) -> bool {
    &&& 1 <= x0 < g.len()
    &&& 1 <= y0 < g[x0].len()
    &&& 2 <= w < scale
    &&& 2 <= h < scale
    &&& exists|gm: Seq<Seq<Area>>|
        #[trigger] hall_to_nearest(g, gm, pt(x0, y0), connect) && g1 == fill_rect(
            gm,
            max_int(0, x0 - w / 2),
            max_int(0, y0 - h / 2),
            min_int(g.len() - 1, x0 + w / 2),
            min_int(g[x0].len() - 1, y0 + w / 2),
        )
}

/// Whether `p` lies in the rectangle that `place_centred_room` places on a
/// `wd` by `ht` map for the centre and size `r = (x0, y0, w, h)`.
pub open spec fn in_centred(r: (int, int, int, int), wd: int, ht: int, p: Point) -> bool {
    let (x0, y0, w, h) = r;
    max_int(0, x0 - w / 2) <= p.x <= min_int(wd - 1, x0 + w / 2) && max_int(0, y0 - h / 2) <= p.y <= min_int(
        ht - 1,
        y0 + w / 2,
    )
}

/// `r = (x0, y0, w, h)` is a centre and size that `place_random_room(scale, _)`
/// can draw on a `wd` by `ht` map.
pub open spec fn drawn_rect(r: (int, int, int, int), wd: int, ht: int, scale: int) -> bool {
    1 <= r.0 < wd && 1 <= r.1 < ht && 2 <= r.2 < scale && 2 <= r.3 < scale
}

/// The grid `g` (of `wd` by `ht` cells) is made of the rectangles `rects`,
/// each drawn for `scale`, and the hallways `halls`: all of their cells are
/// rooms, and every room lies on one of them.
pub open spec fn made_of(
    g: Seq<Seq<Area>>,
    wd: int,
    ht: int,
    rects: Seq<(int, int, int, int)>,
    halls: Seq<(Point, Point, bool)>,
    scale: int,
) -> bool {
    &&& forall|k: int| 0 <= k < rects.len() ==> #[trigger] drawn_rect(rects[k], wd, ht, scale)
    &&& forall|k: int, p: Point|
        0 <= k < rects.len() && #[trigger] in_centred(rects[k], wd, ht, p) && in_grid(g, p.x as int, p.y as int)
            ==> g[p.x as int][p.y as int] == Area::Room
    &&& forall|k: int| 0 <= k < halls.len() ==> #[trigger] hall_open(g, halls[k].0, halls[k].1, halls[k].2)
    &&& forall|i: int, j: int|
        in_grid(g, i, j) && #[trigger] g[i][j] == Area::Room ==> (exists|k: int|
            0 <= k < rects.len() && #[trigger] in_centred(rects[k], wd, ht, pt(i, j))) || (exists|k: int|
            0 <= k < halls.len() && #[trigger] on_hall(halls[k].0, halls[k].1, halls[k].2, pt(i, j)))
}

/// Each cell of `d` comes with its whole group in `g`.
pub open spec fn whole_groups(g: Seq<Seq<Area>>, d: Set<Point>) -> bool {
    forall|p: Point| #[trigger] d.contains(p) ==> exists|s: Set<Point>| #[trigger] is_group_of(g, s, p) && s.subset_of(d)
}

/// The position of `(a, b)` in a `w` by `h` grid flattened row after row.
fn flat_index(a: usize, b: usize, w: usize, h: usize, len: usize) -> (r: usize)
    requires
        a < w,
        b < h,
        len == w * h,
    ensures
        r == flat(a as int, b as int, h as int),
        r < len,
{
    assert(a * h + b < w * h) by (nonlinear_arith)
        requires a < w, b < h;
    assert(a * h <= a * h + b);
    a * h + b
}

/// What a sequence holds after a push.
proof fn lemma_push_contains<A>(s: Seq<A>, v: A, p: A)
    ensures
        s.push(v).contains(p) <==> (s.contains(p) || p == v),
{
    if s.contains(p) {
        let k = choose|k: int| 0 <= k < s.len() && s[k] == p;
        assert(s.push(v)[k] == p);
    }
    if p == v {
        assert(s.push(v)[s.len() as int] == v);
    }
    if s.push(v).contains(p) && p != v {
        let k = choose|k: int| 0 <= k < s.len() + 1 && s.push(v)[k] == p;
        assert(s[k] == p);
    }
}

/// A map with grid coordinates
///
/// The map owns a full grid of `xmax` by `ymax` cells, one for each
/// coordinate in `[0, xmax) x [0, ymax)`.
#[derive(Clone, Debug)]
pub struct GridMap {
    xmax: usize,
    ymax: usize,
    cells: Vec<Vec<Cell>>,
}

impl View for GridMap {
    type V = Seq<Seq<Area>>;

    /// The area of each cell, indexed by x and then by y.
    closed spec fn view(&self) -> Seq<Seq<Area>> {
        self.cells@.map_values(|row: Vec<Cell>| row@.map_values(|c: Cell| c.area))
    }
}

impl GridMap {
    /// The width of the map (the number of cells along x).
    pub closed spec fn width(&self) -> nat {
        self.xmax as nat
    }

    /// The height of the map (the number of cells along y).
    pub closed spec fn height(&self) -> nat {
        self.ymax as nat
    }

    /// The map holds exactly `width` rows of `height` cells.
    pub closed spec fn wf(&self) -> bool {
        &&& self.xmax <= MAX_EXTENT
        &&& self.ymax <= MAX_EXTENT
        &&& self.cells.len() == self.xmax
        &&& forall|i: int| 0 <= i < self.xmax ==> #[trigger] self.cells@[i].len() == self.ymax
    }

    /// What well-formedness tells of the view.
    pub proof fn lemma_wf_view(&self)
        requires
            self.wf(),
        ensures
            self@.len() == self.width(),
            forall|i: int| 0 <= i < self.width() ==> #[trigger] self@[i].len() == self.height(),
            self.width() <= MAX_EXTENT,
            self.height() <= MAX_EXTENT,
    {
        assert forall|i: int| 0 <= i < self.width() implies #[trigger] self@[i].len() == self.height() by {
            assert(self.cells@[i].len() == self.ymax);
        }
    }

    /// The area of a cell in the view is the area of the cell that the map holds.
    proof fn lemma_view_cell(&self, i: int, j: int)
        requires
            self.wf(),
            0 <= i < self.width(),
            0 <= j < self.height(),
        ensures
            self@[i].len() == self.height(),
            #[trigger] self@[i][j] == self.cells@[i]@[j].area,
    {
        assert(self.cells@[i].len() == self.ymax);
    }

    /// Make a new GridMap, every cell of it empty.
    pub fn new(xmax: usize, ymax: usize) -> (r: GridMap)
        requires
            xmax <= MAX_EXTENT,
            ymax <= MAX_EXTENT,
        ensures
            r.wf(),
            r.width() == xmax,
            r.height() == ymax,
            forall|x: int, y: int|
                0 <= x < xmax && 0 <= y < ymax ==> #[trigger] r@[x][y] == Area::Nothing,
    {
        let mut cells: Vec<Vec<Cell>> = Vec::new();
        let mut i: usize = 0;
        while i < xmax
            invariant
                i <= xmax,
                cells.len() == i,
                forall|k: int| 0 <= k < i ==> #[trigger] cells@[k].len() == ymax,
                forall|k: int, l: int|
                    0 <= k < i && 0 <= l < ymax ==> (#[trigger] cells@[k]@[l]).area == Area::Nothing,
            decreases xmax - i,
        {
            let mut row: Vec<Cell> = Vec::new();
            let mut j: usize = 0;
            while j < ymax
                invariant
                    j <= ymax,
                    row.len() == j,
                    forall|l: int| 0 <= l < j ==> (#[trigger] row@[l]).area == Area::Nothing,
                decreases ymax - j,
            {
                row.push(Cell::new());
                j += 1;
            }
            cells.push(row);
            i += 1;
        }
        let r = GridMap { xmax, ymax, cells };
        proof {
            assert forall|x: int, y: int| 0 <= x < xmax && 0 <= y < ymax implies #[trigger] r@[x][y]
                == Area::Nothing by {
                r.lemma_view_cell(x, y);
            }
        }
        r
    }

    /// Returns size of map in (x, y) format
    pub fn get_limits(&self) -> (r: (usize, usize))
        ensures
            r.0 == self.width(),
            r.1 == self.height(),
    {
        (self.xmax, self.ymax)
    }

    /// Whether `point` is a cell of the map.
    pub open spec fn contains_point(&self, point: Point) -> bool {
        0 <= point.x < self.width() && 0 <= point.y < self.height()
    }

    fn point_in_map(&self, point: Point) -> (r: bool)
        ensures
            r == self.contains_point(point),
    {
        point.x >= 0 && point.y >= 0 && (point.x as u64) < (self.xmax as u64) && (point.y as u64) < (
        self.ymax as u64)
    }

    /// Set the area of one cell.
    fn set_area_at(&mut self, i: usize, j: usize, area: Area)
        requires
            old(self).wf(),
            i < old(self).width(),
            j < old(self).height(),
        ensures
            final(self).wf(),
            final(self).width() == old(self).width(),
            final(self).height() == old(self).height(),
            final(self)@ == set_cell(old(self)@, i as int, j as int, area),
    {
        assert(self.cells@[i as int].len() == self.ymax);
        self.cells[i][j].area = area;
        proof {
            old(self).lemma_wf_view();
            assert forall|k: int| 0 <= k < self.xmax implies #[trigger] self.cells@[k].len() == self.ymax by {
                assert(old(self).cells@[k].len() == self.ymax);
            }
            assert(self@ =~~= set_cell(old(self)@, i as int, j as int, area));
        }
    }

    /// Get a reference to the cell at a coordinate.
    pub fn get_cell_ref(&self, point: Point) -> (r: Result<&Cell, RpgError>)
        requires
            self.wf(),
        ensures
            r is Ok <==> self.contains_point(point),
            r matches Ok(c) ==> c.area == self@[point.x as int][point.y as int],
            r matches Err(e) ==> e is OutOfBounds,
    {
        if !self.point_in_map(point) {
            return Err(RpgError::OutOfBounds);
        }
        let x = point.x as usize;
        let y = point.y as usize;
        proof {
            self.lemma_view_cell(x as int, y as int);
        }
        Ok(&self.cells[x][y])
    }

    /// Get a mutable reference to the cell at a coordinate.
    pub fn get_cell_mut(&mut self, point: Point) -> (r: Result<&mut Cell, RpgError>)
        requires
            old(self).wf(),
        ensures
            r is Ok <==> old(self).contains_point(point),
            r matches Ok(c) ==> c.area == old(self)@[point.x as int][point.y as int],
            r matches Ok(c) ==> final(self).width() == old(self).width(),
            r matches Ok(c) ==> final(self).height() == old(self).height(),
            r matches Ok(c) ==> final(self).wf(),
            r matches Ok(c) ==> final(self)@ =~~= set_cell(
                old(self)@,
                point.x as int,
                point.y as int,
                final(c).area,
            ),
            r matches Err(e) ==> e is OutOfBounds && *final(self) == *old(self),
    {
        if !self.point_in_map(point) {
            return Err(RpgError::OutOfBounds);
        }
        let x = point.x as usize;
        let y = point.y as usize;
        proof {
            self.lemma_view_cell(x as int, y as int);
        }
        Ok(&mut self.cells[x][y])
    }

    /// Set the entrance at a particular location. The cell at this location
    /// will be marked as having the entrance area type, whatever it was.
    pub fn place_entrance(&mut self, point: Point) -> (r: Result<(), RpgError>)
        requires
            old(self).wf(),
        ensures
            final(self).wf(),
            final(self).width() == old(self).width(),
            final(self).height() == old(self).height(),
            r is Ok <==> old(self).contains_point(point),
            r is Ok ==> final(self)@ == set_cell(
                old(self)@,
                point.x as int,
                point.y as int,
                Area::Entrance,
            ),
            r matches Err(e) ==> e is OutOfBounds && final(self)@ == old(self)@,
    {
        if !self.point_in_map(point) {
            return Err(RpgError::OutOfBounds);
        }
        self.set_area_at(point.x as usize, point.y as usize, Area::Entrance);
        Ok(())
    }

    /// Set a room
    ///
    /// The two points are opposite corners of the room, in either order: the
    /// room spans every cell between the two x coordinates and between the two
    /// y coordinates, both ends included, as far as the map reaches. Every such
    /// cell becomes a room, except an entrance, which stays.
    pub fn place_room(&mut self, point0: Point, point1: Point)
        requires
            old(self).wf(),
        ensures
            final(self).wf(),
            final(self).width() == old(self).width(),
            final(self).height() == old(self).height(),
            final(self)@ == room_placed(old(self)@, point0, point1),
    {
        proof {
            self.lemma_wf_view();
        }
        let x_lower = if point0.x <= point1.x { point0.x } else { point1.x };
        let x_upper = if point0.x <= point1.x { point1.x } else { point0.x };
        let y_lower = if point0.y <= point1.y { point0.y } else { point1.y };
        let y_upper = if point0.y <= point1.y { point1.y } else { point0.y };
        if self.xmax == 0 || self.ymax == 0 || x_upper < 0 || y_upper < 0 || x_lower >= self.xmax as i64
            || y_lower >= self.ymax as i64 {
            assert(self@ =~~= room_placed(old(self)@, point0, point1));
            return;
        }
        let i_lo: usize = if x_lower < 0 { 0 } else { x_lower as usize };
        let j_lo: usize = if y_lower < 0 { 0 } else { y_lower as usize };
        let i_hi: usize = if x_upper >= self.xmax as i64 { self.xmax - 1 } else { x_upper as usize };
        let j_hi: usize = if y_upper >= self.ymax as i64 { self.ymax - 1 } else { y_upper as usize };
        let ghost g = old(self)@;
        let mut i: usize = i_lo;
        while i <= i_hi
            invariant
                self.wf(),
                self.width() == old(self).width(),
                self.height() == old(self).height(),
                i_lo <= i <= i_hi + 1,
                i_hi < self.xmax,
                j_lo <= j_hi < self.ymax,
                forall|a: int, b: int|
                    0 <= a < self.xmax && 0 <= b < self.ymax ==> #[trigger] self@[a][b] == if i_lo
                        <= a < i && j_lo <= b <= j_hi {
                        filled(g[a][b])
                    } else {
                        g[a][b]
                    },
            decreases i_hi + 1 - i,
        {
            let mut j: usize = j_lo;
            while j <= j_hi
                invariant
                    self.wf(),
                    self.width() == old(self).width(),
                    self.height() == old(self).height(),
                    i_lo <= i <= i_hi,
                    i_hi < self.xmax,
                    j_lo <= j <= j_hi + 1,
                    j_hi < self.ymax,
                    forall|a: int, b: int|
                        0 <= a < self.xmax && 0 <= b < self.ymax ==> #[trigger] self@[a][b] == if (
                        i_lo <= a < i && j_lo <= b <= j_hi) || (a == i && j_lo <= b < j) {
                            filled(g[a][b])
                        } else {
                            g[a][b]
                        },
                decreases j_hi + 1 - j,
            {
                proof {
                    self.lemma_view_cell(i as int, j as int);
                }
                if self.cells[i][j].area != Area::Entrance {
                    self.set_area_at(i, j, Area::Room);
                }
                j += 1;
            }
            i += 1;
        }
        proof {
            self.lemma_wf_view();
            old(self).lemma_wf_view();
            assert(self@ =~~= room_placed(g, point0, point1));
        }
    }

    /// Place a room by setting the origin and width/height
    ///
    /// The origin is one corner of the room. A negative width or height
    /// extends the room to the left of, or above, the origin instead.
    pub fn place_room_dimensions(&mut self, point: Point, size: (isize, isize))
        requires
            old(self).wf(),
        ensures
            final(self).wf(),
            final(self).width() == old(self).width(),
            final(self).height() == old(self).height(),
            final(self)@ == fill_rect(
                old(self)@,
                min_int(point.x as int, point.x + size.0),
                min_int(point.y as int, point.y + size.1),
                max_int(point.x as int, point.x + size.0),
                max_int(point.y as int, point.y + size.1),
            ),
    {
        let corner = Point::new(
            saturate_i64(point.x as i128 + size.0 as i128),
            saturate_i64(point.y as i128 + size.1 as i128),
        );
        self.place_room(point, corner);
        proof {
            old(self).lemma_wf_view();
            assert(self@ =~~= fill_rect(
                old(self)@,
                min_int(point.x as int, point.x + size.0),
                min_int(point.y as int, point.y + size.1),
                max_int(point.x as int, point.x + size.0),
                max_int(point.y as int, point.y + size.1),
            ));
        }
    }

    /// Place a hallway between two points
    ///
    /// The hallway is one cell wide and made of two straight pieces, placed
    /// as rooms: horizontal first or vertical first, as `route` says, and
    /// one of the two at random for `RouteMethod::Manhattan`.
    pub fn place_hallway(&mut self, point0: Point, point1: Point, route: RouteMethod)
        requires
            old(self).wf(),
        ensures
            final(self).wf(),
            final(self).width() == old(self).width(),
            final(self).height() == old(self).height(),
            route is HorizontalFirst ==> final(self)@ == hallway_placed(old(self)@, point0, point1, true),
            route is VerticalFirst ==> final(self)@ == hallway_placed(old(self)@, point0, point1, false),
            route is Manhattan ==> (final(self)@ == hallway_placed(old(self)@, point0, point1, true)
                || final(self)@ == hallway_placed(old(self)@, point0, point1, false)),
    {
        let horizontal_first = match route {
            RouteMethod::HorizontalFirst => true,
            RouteMethod::VerticalFirst => false,
            RouteMethod::Manhattan => rand::random::<bool>(),
        };
        self.place_route(point0, point1, horizontal_first);
    }

    /// Place an L-shaped hallway, horizontal piece first or vertical piece first.
    fn place_route(&mut self, point0: Point, point1: Point, horizontal_first: bool)
        requires
            old(self).wf(),
        ensures
            final(self).wf(),
            final(self).width() == old(self).width(),
            final(self).height() == old(self).height(),
            final(self)@ == hallway_placed(old(self)@, point0, point1, horizontal_first),
    {
        if horizontal_first {
            let bend = Point::new(point1.x, point0.y);
            self.place_room(point0, bend);
            self.place_room(bend, point1);
        } else {
            let bend = Point::new(point0.x, point1.y);
            self.place_room(point0, bend);
            self.place_room(bend, point1);
        }
    }

    /// Delete everything in this map and reset it to nothing
    fn clear(&mut self)
        requires
            old(self).wf(),
        ensures
            final(self).wf(),
            final(self).width() == old(self).width(),
            final(self).height() == old(self).height(),
            forall|a: int, b: int|
                0 <= a < final(self).width() && 0 <= b < final(self).height()
                    ==> #[trigger] final(self)@[a][b] == Area::Nothing,
    {
        let mut i: usize = 0;
        while i < self.xmax
            invariant
                self.wf(),
                self.width() == old(self).width(),
                self.height() == old(self).height(),
                i <= self.xmax,
                forall|a: int, b: int|
                    0 <= a < i && 0 <= b < self.ymax ==> #[trigger] self@[a][b] == Area::Nothing,
            decreases self.xmax - i,
        {
            let mut j: usize = 0;
            while j < self.ymax
                invariant
                    self.wf(),
                    self.width() == old(self).width(),
                    self.height() == old(self).height(),
                    i < self.xmax,
                    j <= self.ymax,
                    forall|a: int, b: int|
                        (0 <= a < i && 0 <= b < self.ymax) || (a == i && 0 <= b < j) ==> #[trigger] self@[a][b]
                            == Area::Nothing,
                decreases self.ymax - j,
            {
                proof {
                    self.lemma_wf_view();
                }
                self.set_area_at(i, j, Area::Nothing);
                j += 1;
            }
            i += 1;
        }
    }

    /// Look at each cell of a straight piece of the map and collect those
    /// that satisfy `cond`.
    fn scan_segment<F: Fn(&Cell) -> bool>(
        &self,
        cond: &F,
        Ghost(pred): Ghost<spec_fn(Area) -> bool>,
        horizontal: bool,
        fixed: usize,
        lo: usize,
        hi: usize,
        found: &mut Vec<Point>,
    )
        requires
            self.wf(),
            forall|c: &Cell| cond.requires((c,)),
            forall|c: &Cell, b: bool| cond.ensures((c,), b) ==> b == pred(c.area),
            horizontal ==> fixed < self.height() && hi < self.width(),
            !horizontal ==> fixed < self.width() && hi < self.height(),
            forall|p: Point| old(found)@.contains(p) ==> in_grid(self@, p.x as int, p.y as int),
        ensures
            forall|p: Point| final(found)@.contains(p) ==> in_grid(self@, p.x as int, p.y as int),
            forall|p: Point|
                #[trigger] final(found)@.contains(p) <==> (old(found)@.contains(p) || (on_segment(
                    horizontal,
                    fixed as int,
                    lo as int,
                    hi as int,
                    p,
                ) && pred(self@[p.x as int][p.y as int]))),
    {
        proof {
            self.lemma_wf_view();
        }
        let mut k: usize = lo;
        while k <= hi
            invariant
                self.wf(),
                forall|c: &Cell| cond.requires((c,)),
                forall|c: &Cell, b: bool| cond.ensures((c,), b) ==> b == pred(c.area),
                horizontal ==> fixed < self.height() && hi < self.width(),
                !horizontal ==> fixed < self.width() && hi < self.height(),
                lo <= k <= hi + 1 || (k == lo && lo > hi),
                self@.len() == self.width(),
                forall|i: int| 0 <= i < self.width() ==> #[trigger] self@[i].len() == self.height(),
                forall|p: Point| found@.contains(p) ==> in_grid(self@, p.x as int, p.y as int),
                forall|p: Point|
                    #[trigger] found@.contains(p) <==> (old(found)@.contains(p) || (on_segment(
                        horizontal,
                        fixed as int,
                        lo as int,
                        k - 1,
                        p,
                    ) && pred(self@[p.x as int][p.y as int]))),
            decreases hi + 1 - k,
        {
            let (i, j) = if horizontal { (k, fixed) } else { (fixed, k) };
            proof {
                self.lemma_view_cell(i as int, j as int);
            }
            let here = Point::new(i as i64, j as i64);
            if cond(&self.cells[i][j]) {
                let ghost before = found@;
                found.push(here);
                proof {
                    assert forall|p: Point| #[trigger] found@.contains(p) <==> (before.contains(p) || p == here) by {
                        lemma_push_contains(before, here, p);
                    }
                }
            }
            k += 1;
        }
    }

    /// Find the cells nearest to `point` that satisfy a condition, and pick one at random.
    ///
    /// The search looks at the rings of cells around `point`, from the
    /// nearest ring outwards, and stops at the first ring that holds a match:
    /// one of the matches on that ring is picked at random. When the rings
    /// have covered the whole map without a match, there is none.
    fn find_by<F: Fn(&Cell) -> bool>(&self, point: Point, cond: &F, Ghost(pred): Ghost<spec_fn(Area) -> bool>) -> (r: Option<Point>)
        requires
            self.wf(),
            self.contains_point(point),
            forall|c: &Cell| cond.requires((c,)),
            forall|c: &Cell, b: bool| cond.ensures((c,), b) ==> b == pred(c.area),
        ensures
            r is None <==> no_match(self@, point, pred),
            r matches Some(p) ==> is_nearest_match(self@, point, p, pred),
    {
        proof {
            self.lemma_wf_view();
        }
        let x = point.x as usize;
        let y = point.y as usize;
        let w = self.xmax;
        let h = self.ymax;
        let mut radius: usize = 0;
        loop
            invariant
                self.wf(),
                forall|c: &Cell| cond.requires((c,)),
                forall|c: &Cell, b: bool| cond.ensures((c,), b) ==> b == pred(c.area),
                w == self.width(),
                h == self.height(),
                self@.len() == w,
                forall|i: int| 0 <= i < w ==> #[trigger] self@[i].len() == h,
                w <= MAX_EXTENT,
                h <= MAX_EXTENT,
                x < w,
                y < h,
                x == point.x,
                y == point.y,
                radius < w + h,
                forall|q: Point|
                    in_grid(self@, q.x as int, q.y as int) && q != point && ring_dist(point, q) <= radius
                        ==> !pred(#[trigger] self@[q.x as int][q.y as int]),
            decreases w + h - radius,
        {
            radius += 1;
            let x_lo: usize = if x >= radius { x - radius } else { 0 };
            let x_hi: usize = if x + radius < w { x + radius } else { w - 1 };
            let y_in_lo: usize = if y + 1 >= radius { y + 1 - radius } else { 0 };
            let y_in_hi: usize = if y + radius - 1 < h { y + radius - 1 } else { h - 1 };
            let mut found: Vec<Point> = Vec::new();
            if y >= radius {
                self.scan_segment(cond, Ghost(pred), true, y - radius, x_lo, x_hi, &mut found);
            }
            if y + radius < h {
                self.scan_segment(cond, Ghost(pred), true, y + radius, x_lo, x_hi, &mut found);
            }
            if x >= radius {
                self.scan_segment(cond, Ghost(pred), false, x - radius, y_in_lo, y_in_hi, &mut found);
            }
            if x + radius < w {
                self.scan_segment(cond, Ghost(pred), false, x + radius, y_in_lo, y_in_hi, &mut found);
            }
            assert forall|q: Point| #[trigger] found@.contains(q) <==> (in_grid(self@, q.x as int, q.y as int)
                && ring_dist(point, q) == radius && pred(self@[q.x as int][q.y as int])) by {
            }
            if found.len() > 0 {
                let chosen = choose_point(&found);
                proof {
                    let p = chosen->Some_0;
                    assert(found@.contains(p));
                }
                return chosen;
            }
            proof {
                assert forall|q: Point|
                    in_grid(self@, q.x as int, q.y as int) && q != point && ring_dist(point, q) <= radius
                        implies !pred(#[trigger] self@[q.x as int][q.y as int]) by {
                    if ring_dist(point, q) == radius && pred(self@[q.x as int][q.y as int]) {
                        assert(found@.contains(q));
                    }
                }
            }
            if x <= radius && y <= radius && x + radius + 1 >= w && y + radius + 1 >= h {
                return None;
            }
        }
    }

    /// Find the room cell nearest to the cell specified (see `find_by`), if
    /// the cell is on the map and a room cell other than it exists.
    pub fn find_nearest_connected(&self, point: Point) -> (r: Option<Point>)
        requires
            self.wf(),
        ensures
            !self.contains_point(point) ==> r is None,
            self.contains_point(point) ==> (r is None <==> no_match(self@, point, |a: Area| is_room_area(a))),
            r matches Some(p) ==> is_nearest_match(self@, point, p, |a: Area| is_room_area(a)),
    {
        if !self.point_in_map(point) {
            return None;
        }
        self.find_by(
            point,
            &(|cell: &Cell| -> (r: bool)
                ensures
                    r == is_room_area(cell.area),
                { cell.is_room() }),
            Ghost(|a: Area| is_room_area(a)),
        )
    }

    /// Similar to place entrance, however it starts with the coordinates and
    /// finds the nearest spot that is already a room (see `find_by`), which
    /// becomes the entrance. This allows entrances to be placed in
    /// non-deterministic generators, such as caves.
    pub fn place_entrance_near(&mut self, point: Point) -> (r: Result<(), RpgError>)
        requires
            old(self).wf(),
        ensures
            final(self).wf(),
            final(self).width() == old(self).width(),
            final(self).height() == old(self).height(),
            !old(self).contains_point(point) ==> (r matches Err(e) && e is OutOfBounds),
            old(self).contains_point(point) && no_match(old(self)@, point, |a: Area| is_room_area(a))
                ==> (r matches Err(e) && e is Empty),
            r is Err ==> final(self)@ == old(self)@,
            r is Ok <==> (old(self).contains_point(point) && !no_match(
                old(self)@,
                point,
                |a: Area| is_room_area(a),
            )),
            r is Ok ==> exists|p: Point|
                is_nearest_match(old(self)@, point, p, |a: Area| is_room_area(a)) && final(self)@
                    == set_cell(old(self)@, p.x as int, p.y as int, Area::Entrance),
    {
        if !self.point_in_map(point) {
            return Err(RpgError::OutOfBounds);
        }
        match self.find_nearest_connected(point) {
            None => Err(RpgError::Empty("no room to place an entrance near".to_string())),
            Some(found) => {
                proof {
                    self.lemma_wf_view();
                }
                let r = self.place_entrance(found);
                assert(r is Ok);
                r
            },
        }
    }

    /// Fill every cell with a room or nothing at random. `limit` lies
    /// between 1 and 100: for each cell a number is drawn from `1..100`, and
    /// the cell becomes a room when the number exceeds `limit`. A higher limit
    /// means fewer rooms.
    pub fn generate_random_cells(&mut self, limit: i64)
        requires
            old(self).wf(),
        ensures
            final(self).wf(),
            final(self).width() == old(self).width(),
            final(self).height() == old(self).height(),
            rooms_only(final(self)@),
            limit >= 99 ==> forall|a: int, b: int|
                in_grid(final(self)@, a, b) ==> #[trigger] final(self)@[a][b] == Area::Nothing,
            limit < 1 ==> forall|a: int, b: int|
                in_grid(final(self)@, a, b) ==> #[trigger] final(self)@[a][b] == Area::Room,
    {
        let mut i: usize = 0;
        while i < self.xmax
            invariant
                self.wf(),
                self.width() == old(self).width(),
                self.height() == old(self).height(),
                i <= self.xmax,
                forall|a: int, b: int|
                    0 <= a < i && 0 <= b < self.ymax ==> #[trigger] self@[a][b] != Area::Entrance
                        && (limit >= 99 ==> self@[a][b] == Area::Nothing) && (limit < 1 ==> self@[a][b]
                        == Area::Room),
            decreases self.xmax - i,
        {
            let mut j: usize = 0;
            while j < self.ymax
                invariant
                    self.wf(),
                    self.width() == old(self).width(),
                    self.height() == old(self).height(),
                    i < self.xmax,
                    j <= self.ymax,
                    forall|a: int, b: int|
                        (0 <= a < i && 0 <= b < self.ymax) || (a == i && 0 <= b < j) ==> #[trigger] self@[a][b]
                            != Area::Entrance && (limit >= 99 ==> self@[a][b] == Area::Nothing) && (limit
                            < 1 ==> self@[a][b] == Area::Room),
                decreases self.ymax - j,
            {
                let val = random_in_range(1, 100) as i64;
                proof {
                    self.lemma_wf_view();
                }
                if val > limit {
                    self.set_area_at(i, j, Area::Room);
                } else {
                    self.set_area_at(i, j, Area::Nothing);
                }
                j += 1;
            }
            i += 1;
        }
        proof {
            self.lemma_wf_view();
        }
    }

    /// Fill the map at random with a limit of 80 (see
    /// `generate_random_cells`), then clear each room off the edge whose four
    /// neighbours are all empty, sweeping the map in order. Edge cells are left
    /// as they were drawn, as they lack a neighbour.
    pub fn generate_annealed_random_cells(&mut self)
        requires
            old(self).wf(),
        ensures
            final(self).wf(),
            final(self).width() == old(self).width(),
            final(self).height() == old(self).height(),
            rooms_only(final(self)@),
            exists|g0: Seq<Seq<Area>>| seeded(g0, old(self)@, 80) && #[trigger] thinned(g0, final(self)@),
            forall|i: int, j: int|
                in_grid(final(self)@, i, j) && !on_edge_of(final(self)@, i, j) && #[trigger] final(self)@[i][j]
                    == Area::Room ==> has_filled_neighbour(final(self)@, i, j),
    {
        self.generate_random_cells(80);
        let ghost g0 = self@;
        proof {
            self.lemma_wf_view();
            old(self).lemma_wf_view();
            assert(seeded(g0, old(self)@, 80));
            assert(thinned(g0, self@));
        }
        if self.xmax < 3 || self.ymax < 3 {
            return;
        }
        let ghost w = self.width() as int;
        let ghost h = self.height() as int;
        let mut i: usize = 1;
        while i < self.xmax - 1
            invariant
                self.wf(),
                self.width() == old(self).width(),
                self.height() == old(self).height(),
                w == self.width(),
                h == self.height(),
                self@.len() == w,
                forall|m: int| 0 <= m < w ==> #[trigger] self@[m].len() == h,
                3 <= self.xmax,
                3 <= self.ymax,
                1 <= i <= self.xmax - 1,
                rooms_only(self@),
                thinned(g0, self@),
                forall|a: int, b: int|
                    1 <= a < i && 1 <= b < h - 1 && #[trigger] self@[a][b] == Area::Room ==> has_filled_neighbour(self@, a, b),
            decreases self.xmax - i,
        {
            let mut j: usize = 1;
            while j < self.ymax - 1
                invariant
                    self.wf(),
                    self.width() == old(self).width(),
                    self.height() == old(self).height(),
                    w == self.width(),
                    h == self.height(),
                    self@.len() == w,
                    forall|m: int| 0 <= m < w ==> #[trigger] self@[m].len() == h,
                    3 <= self.xmax,
                    3 <= self.ymax,
                    1 <= i < self.xmax - 1,
                    1 <= j <= self.ymax - 1,
                    rooms_only(self@),
                    thinned(g0, self@),
                    forall|a: int, b: int|
                        ((1 <= a < i && 1 <= b < h - 1) || (a == i && 1 <= b < j)) && #[trigger] self@[a][b] == Area::Room
                            ==> has_filled_neighbour(self@, a, b),
                decreases self.ymax - j,
            {
                proof {
                    self.lemma_wf_view();
                }
                assert(self.cells@[i - 1].len() == self.ymax && self.cells@[i + 1].len() == self.ymax
                    && self.cells@[i as int].len() == self.ymax);
                proof {
                    self.lemma_view_cell(i as int - 1, j as int);
                    self.lemma_view_cell(i as int + 1, j as int);
                    self.lemma_view_cell(i as int, j as int - 1);
                    self.lemma_view_cell(i as int, j as int + 1);
                }
                let alone = self.cells[i - 1][j].is_empty() && self.cells[i][j - 1].is_empty()
                    && self.cells[i + 1][j].is_empty() && self.cells[i][j + 1].is_empty();
                let ghost before = self@;
                if alone {
                    self.set_area_at(i, j, Area::Nothing);
                }
                proof {
                    self.lemma_wf_view();
                    assert forall|a: int, b: int|
                        ((1 <= a < i && 1 <= b < h - 1) || (a == i && 1 <= b < j + 1)) && #[trigger] self@[a][b] == Area::Room
                            implies has_filled_neighbour(self@, a, b) by {
                        if a == i && b == j {
                            assert(!alone);
                        } else {
                            assert(before[a][b] == Area::Room);
                            assert(has_filled_neighbour(before, a, b));
                        }
                    }
                }
                j += 1;
            }
            i += 1;
        }
        proof {
            self.lemma_wf_view();
        }
    }

    /// Place a room around `origin` of the given width and height: from
    /// `width / 2` cells left of it to `width / 2` right of it, and from
    /// `height / 2` cells above it to `width / 2` below it (the width, not the
    /// height, sets the lower side), as far as the map reaches.
    pub fn place_centred_room(&mut self, origin: Point, width: usize, height: usize)
        requires
            old(self).wf(),
            old(self).contains_point(origin),
        ensures
            final(self).wf(),
            final(self).width() == old(self).width(),
            final(self).height() == old(self).height(),
            final(self)@ == fill_rect(
                old(self)@,
                max_int(0, origin.x - width / 2),
                max_int(0, origin.y - height / 2),
                min_int(old(self).width() - 1, origin.x + width / 2),
                min_int(old(self).height() - 1, origin.y + width / 2),
            ),
    {
        let x0 = origin.x as usize;
        let y0 = origin.y as usize;
        let xmin = if x0 >= width / 2 { x0 - width / 2 } else { 0 };
        let ymin = if y0 >= height / 2 { y0 - height / 2 } else { 0 };
        let xmax = if width / 2 < self.xmax - x0 { x0 + width / 2 } else { self.xmax - 1 };
        let ymax = if width / 2 < self.ymax - y0 { y0 + width / 2 } else { self.ymax - 1 };
        self.place_room(Point::new(xmin as i64, ymin as i64), Point::new(xmax as i64, ymax as i64));
        proof {
            old(self).lemma_wf_view();
            assert(self@ =~~= fill_rect(
                old(self)@,
                max_int(0, origin.x - width / 2),
                max_int(0, origin.y - height / 2),
                min_int(old(self).width() - 1, origin.x + width / 2),
                min_int(old(self).height() - 1, origin.y + width / 2),
            ));
        }
    }

    /// Place a randomly sized room of up to `scale` length or width.
    ///
    /// The size is drawn from `2..scale` on each axis and the centre from the
    /// cells off the top and left edges. With `connect`, a hallway is first
    /// placed from the centre to the nearest room (see
    /// `find_nearest_connected`), if there is one. The room itself is then
    /// placed by `place_centred_room`.
    pub fn place_random_room(&mut self, scale: usize, connect: bool)
        requires
            old(self).wf(),
            scale > 2,
            old(self).width() > 1,
            old(self).height() > 1,
        ensures
            final(self).wf(),
            final(self).width() == old(self).width(),
            final(self).height() == old(self).height(),
            grown(old(self)@, final(self)@),
            exists|p: Point| #[trigger] all_cells(final(self)@).contains(p) && area_at(final(self)@, p) != Area::Nothing,
            exists|x0: int, y0: int, w: int, h: int|
                #[trigger] random_room_placed(old(self)@, final(self)@, x0, y0, w, h, scale as int, connect),
    {
        let width = random_in_range(2, scale);
        let height = random_in_range(2, scale);
        let x0 = random_in_range(1, self.xmax);
        let y0 = random_in_range(1, self.ymax);
        let origin = Point::new(x0 as i64, y0 as i64);
        let ghost g0 = self@;
        proof {
            self.lemma_wf_view();
            assert(origin == pt(x0 as int, y0 as int));
        }
        if connect {
            if let Some(nearest) = self.find_nearest_connected(origin) {
                self.place_hallway(origin, nearest, RouteMethod::Manhattan);
                proof {
                    lemma_hallway_placed_grows(g0, origin, nearest, true);
                    lemma_hallway_placed_grows(g0, origin, nearest, false);
                    assert(nearest_room(g0, origin, nearest));
                    assert(hall_to_nearest(g0, self@, origin, connect));
                }
            } else {
                assert(hall_to_nearest(g0, self@, origin, connect));
            }
        } else {
            assert(hall_to_nearest(g0, self@, origin, connect));
        }
        let ghost g1 = self@;
        self.place_centred_room(origin, width, height);
        proof {
            let xmin = max_int(0, origin.x - width / 2);
            let ymin = max_int(0, origin.y - height / 2);
            let xmax = min_int(self.width() - 1, origin.x + width / 2);
            let ymax = min_int(self.height() - 1, origin.y + width / 2);
            assert(fill_rect(g1, xmin, ymin, xmax, ymax) == room_placed(
                g1,
                Point { x: xmin as i64, y: ymin as i64 },
                Point { x: xmax as i64, y: ymax as i64 },
            ));
            lemma_room_placed_grows(g1, Point { x: xmin as i64, y: ymin as i64 }, Point { x: xmax as i64, y: ymax as i64 });
            self.lemma_wf_view();
            assert(all_cells(self@).contains(origin));
            assert(area_at(self@, origin) != Area::Nothing);
            old(self).lemma_wf_view();
            assert(random_room_placed(g0, self@, x0 as int, y0 as int, width as int, height as int, scale as int, connect));
        }
    }

    /// Determine if `(i, j)` lies on an edge of the map.
    fn on_edge(&self, i: usize, j: usize) -> (r: bool)
        requires
            self.wf(),
            i < self.width(),
            j < self.height(),
        ensures
            r == on_edge_of(self@, i as int, j as int),
    {
        proof {
            self.lemma_wf_view();
        }
        i == 0 || i == self.xmax - 1 || j == 0 || j == self.ymax - 1
    }

    /// Whether the cave rule makes a room of the cell `(i, j)`.
    fn cave_anneal_cell(&self, i: usize, j: usize) -> (r: bool)
        requires
            self.wf(),
            i < self.width(),
            j < self.height(),
        ensures
            r == anneals(self@, i as int, j as int),
    {
        if self.on_edge(i, j) {
            return false;
        }
        proof {
            self.lemma_wf_view();
        }
        let mut neighbours: usize = 0;
        let mut x: usize = i - 1;
        while x < i + 2
            invariant
                self.wf(),
                !on_edge_of(self@, i as int, j as int),
                1 <= i < self.width() - 1,
                1 <= j < self.height() - 1,
                i - 1 <= x <= i + 2,
                neighbours <= 3 * (x - (i - 1)),
                self@.len() == self.width(),
                forall|k: int| 0 <= k < self.width() ==> #[trigger] self@[k].len() == self.height(),
                neighbours == (if x > i - 1 { room_unit(self@[i - 1][j - 1]) + room_unit(self@[i - 1][j as int]) + room_unit(self@[i - 1][j + 1]) } else { 0 })
                    + (if x > i { room_unit(self@[i as int][j - 1]) + room_unit(self@[i as int][j as int]) + room_unit(self@[i as int][j + 1]) } else { 0 })
                    + (if x > i + 1 { room_unit(self@[i + 1][j - 1]) + room_unit(self@[i + 1][j as int]) + room_unit(self@[i + 1][j + 1]) } else { 0 }),
            decreases i + 2 - x,
        {
            let mut y: usize = j - 1;
            let ghost before = neighbours;
            while y < j + 2
                invariant
                    self.wf(),
                    1 <= i < self.width() - 1,
                    1 <= j < self.height() - 1,
                    i - 1 <= x < i + 2,
                    j - 1 <= y <= j + 2,
                    before <= 3 * (x - (i - 1)),
                    neighbours <= before + (y - (j - 1)),
                    self@.len() == self.width(),
                    forall|k: int| 0 <= k < self.width() ==> #[trigger] self@[k].len() == self.height(),
                    neighbours == before + (if y > j - 1 { room_unit(self@[x as int][j - 1]) } else { 0 })
                        + (if y > j { room_unit(self@[x as int][j as int]) } else { 0 })
                        + (if y > j + 1 { room_unit(self@[x as int][j + 1]) } else { 0 }),
                decreases j + 2 - y,
            {
                proof {
                    self.lemma_view_cell(x as int, y as int);
                }
                if self.cells[x][y].area == Area::Room {
                    neighbours += 1;
                }
                y += 1;
            }
            x += 1;
        }
        neighbours >= 5
    }

    /// Compute one generation of the cave automaton for the whole map, from
    /// the map as it was before the step.
    fn generate_cave_iteration(&mut self)
        requires
            old(self).wf(),
        ensures
            final(self).wf(),
            final(self).width() == old(self).width(),
            final(self).height() == old(self).height(),
            final(self)@ == cave_step(old(self)@),
    {
        proof {
            self.lemma_wf_view();
        }
        let mut next: Vec<Vec<Cell>> = Vec::new();
        let mut i: usize = 0;
        while i < self.xmax
            invariant
                self.wf(),
                i <= self.xmax,
                next.len() == i,
                forall|k: int| 0 <= k < i ==> #[trigger] next@[k].len() == self.ymax,
                forall|k: int, l: int|
                    0 <= k < i && 0 <= l < self.ymax ==> (#[trigger] next@[k]@[l]).area == (if anneals(
                        self@,
                        k,
                        l,
                    ) {
                        Area::Room
                    } else {
                        Area::Nothing
                    }),
            decreases self.xmax - i,
        {
            let mut row: Vec<Cell> = Vec::new();
            let mut j: usize = 0;
            while j < self.ymax
                invariant
                    self.wf(),
                    i < self.xmax,
                    j <= self.ymax,
                    row.len() == j,
                    forall|l: int|
                        0 <= l < j ==> (#[trigger] row@[l]).area == (if anneals(self@, i as int, l) {
                            Area::Room
                        } else {
                            Area::Nothing
                        }),
                decreases self.ymax - j,
            {
                let mut cell = Cell::new();
                if self.cave_anneal_cell(i, j) {
                    cell.set_area(Area::Room);
                }
                row.push(cell);
                j += 1;
            }
            next.push(row);
            i += 1;
        }
        let ghost g = self@;
        self.cells = next;
        proof {
            assert(self.wf());
            self.lemma_wf_view();
            assert forall|a: int, b: int| 0 <= a < self.xmax && 0 <= b < self.ymax implies #[trigger] self@[a][b] == cave_step(g)[a][b] by {
                self.lemma_view_cell(a, b);
            }
            assert(self@ =~~= cave_step(g));
        }
    }

    /// Flood fill from the cell `(si, sj)` across the neighbouring cells of
    /// the same area that are not marked in `visited` yet, marking them.
    ///
    /// The fill runs on a queue rather than by recursion, so that large maps
    /// cannot exhaust the stack. The queue may hold a cell more than once, or a
    /// position off the map; such entries are skipped when they come out.
    fn flood(&self, si: usize, sj: usize, visited: &mut Vec<bool>, Ghost(seen): Ghost<Set<Point>>) -> (r: (Room, usize))
        requires
            self.wf(),
            si < self.width(),
            sj < self.height(),
            marks(old(visited)@, seen, self.width() as int, self.height() as int),
            !seen.contains(pt(si as int, sj as int)),
            closed_region(self@, seen),
        ensures
            marks(final(visited)@, seen.union(r.0@), self.width() as int, self.height() as int),
            r.0@.disjoint(seen),
            r.0@.contains(pt(si as int, sj as int)),
            uniform(self@, r.0@, self@[si as int][sj as int]),
            closed_region(self@, r.0@),
            r.0@.finite(),
            r.1 == r.0@.len(),
            linked(r.0.cell_seq()),
            r.0.cell_seq().no_duplicates(),
    {
        proof {
            self.lemma_wf_view();
            self.lemma_view_cell(si as int, sj as int);
        }
        let w = self.xmax;
        let h = self.ymax;
        let ghost g = self@;
        let area = self.cells[si][sj].area;
        let ghost seed = pt(si as int, sj as int);
        let mut room = Room::new();
        let mut count: usize = 0;
        let ghost start = count_false(old(visited)@);
        proof {
            lemma_count_false_le(old(visited)@);
        }
        let mut queue: VecDeque<(usize, usize)> = VecDeque::new();
        queue.push_back((si, sj));
        let ghost mut all = seen;
        proof {
            reveal(frontier_ok);
            reveal(queue_ok);
            reveal(queue_linked);
            room.lemma_cell_seq();
            assert(queue@ == seq![(si, sj)]);
            assert forall|e: (usize, usize)| #[trigger] queue@.contains(e) implies e == (si, sj) by {
                let k = choose|k: int| 0 <= k < queue@.len() && queue@[k] == e;
            }
        }
        while queue.len() > 0
            invariant
                self.wf(),
                g == self@,
                w == self.width(),
                h == self.height(),
                g.len() == w,
                forall|k: int| 0 <= k < w ==> #[trigger] g[k].len() == h,
                w <= MAX_EXTENT,
                h <= MAX_EXTENT,
                si < w,
                sj < h,
                area == g[si as int][sj as int],
                closed_region(g, seen),
                marks(visited@, all, w as int, h as int),
                forall|p: Point| #[trigger] all.contains(p) <==> (seen.contains(p) || room@.contains(p)),
                room@.disjoint(seen),
                uniform(g, room@, area),
                seed == pt(si as int, sj as int),
                room@.contains(seed) || (queue@.len() > 0 && queue@[0] == (si, sj) && !all.contains(seed)),
                frontier_ok(g, room@, queue@),
                queue_ok(g, room@, all, queue@, area, w as int, h as int),
                room@.finite(),
                count == room@.len(),
                count + count_false(visited@) == start,
                start <= w * h,
                linked(room.cell_seq()),
                room.cell_seq().no_duplicates(),
                forall|p: Point| #[trigger] room@.contains(p) <==> room.cell_seq().contains(p),
                queue_linked(room.cell_seq(), room@, queue@, seed),
            decreases count_false(visited@), queue@.len(),
        {
            let ghost q0 = queue@;
            let ghost room0 = room@;
            let ghost room0_seq = room.cell_seq();
            assert(room0.contains(seed) || q0[0] == (si, sj));
            let (a, b) = queue.pop_front().unwrap();
            assert(queue@ == q0.drop_first());
            proof {
                reveal(queue_ok);
                assert(q0.contains(q0[0]));
                assert(entry_ok(g, room@, all, q0[0], area, w as int, h as int));
            }
            if a >= w || b >= h {
                proof {
                    lemma_flood_skip(g, room@, all, q0, area, w as int, h as int);
                    lemma_linked_skip(room.cell_seq(), room@, q0, seed);
                }
                continue;
            }
            proof {
                self.lemma_view_cell(a as int, b as int);
                lemma_flat(a as int, b as int, a as int, b as int, w as int, h as int);
            }
            if self.cells[a][b].area != area {
                proof {
                    lemma_flood_skip(g, room@, all, q0, area, w as int, h as int);
                    lemma_linked_skip(room.cell_seq(), room@, q0, seed);
                }
                continue;
            }
            let idx = flat_index(a, b, w, h, visited.len());
            assert(visited@[flat(a as int, b as int, h as int)] == all.contains(pt(a as int, b as int)));
            if visited[idx] {
                proof {
                    lemma_flood_skip(g, room@, all, q0, area, w as int, h as int);
                    lemma_linked_skip(room.cell_seq(), room@, q0, seed);
                }
                continue;
            }
            let ghost here = pt(a as int, b as int);
            proof {
                lemma_flood_add(g, seen, room@, all, q0, area, w as int, h as int);
                if room.cell_seq().len() == 0 {
                    assert(room@ =~= Set::<Point>::empty()) by {
                        assert forall|p: Point| !room@.contains(p) by {
                            if room@.contains(p) {
                                assert(room.cell_seq().contains(p));
                            }
                        }
                    }
                }
                lemma_linked_add(room.cell_seq(), room@, q0, seed);
                lemma_count_false_set(visited@, flat(a as int, b as int, h as int));
                assert forall|i: int, j: int| 0 <= i < w && 0 <= j < h implies
                    #[trigger] visited@.update(flat(a as int, b as int, h as int), true)[flat(i, j, h as int)]
                        == all.insert(here).contains(pt(i, j)) by {
                    lemma_flat(i, j, a as int, b as int, w as int, h as int);
                }
                all = all.insert(here);
            }
            visited.set(flat_index(a, b, w, h, visited.len()), true);
            let _ = room.add_cell(Point::new(a as i64, b as i64));
            proof {
                room.lemma_cell_seq();
            }
            assert(room.cell_seq() == room0_seq.push(here));
            count += 1;
            queue.push_back((a + 1, b));
            queue.push_back((if a > 0 { a - 1 } else { 0 }, b));
            queue.push_back((a, b + 1));
            queue.push_back((a, if b > 0 { b - 1 } else { 0 }));
            assert(queue@ == queue_after_add(q0));
            assert(room@.contains(seed));
        }
        proof {
            reveal(frontier_ok);
            assert forall|p: Point| #[trigger] room@.contains(p) implies {
                &&& in_grid(g, p.x as int, p.y as int)
                &&& joins(g, room@, p, pt(p.x + 1, p.y as int))
                &&& joins(g, room@, p, pt(p.x - 1, p.y as int))
                &&& joins(g, room@, p, pt(p.x as int, p.y + 1))
                &&& joins(g, room@, p, pt(p.x as int, p.y - 1))
            } by {
            }
            assert(all =~= seen.union(room@));
        }
        (room, count)
    }

    /// Partition the map into groups of cells, called rooms.
    ///
    /// Each group is a connected blob of cells of one area type, found by
    /// flood fill: its cells, in the order in which they were found, each
    /// neighbour an earlier one, and it holds every neighbour of the same
    /// area of each of its cells. Groups of empty cells are kept only when `include_nothing`.
    /// These groups can then be used for path processing or connectivity
    /// testing.
    pub fn partition_spaces(&self, include_nothing: bool) -> (r: Vec<Room>)
        requires
            self.wf(),
        ensures
            is_partition(self@, groups(r@), include_nothing),
            forall|k: int| 0 <= k < r.len() ==> #[trigger] linked(r@[k].cell_seq()),
            forall|k: int| 0 <= k < r.len() ==> #[trigger] r@[k].cell_seq().no_duplicates(),
    {
        proof {
            self.lemma_wf_view();
        }
        let w = self.xmax;
        let h = self.ymax;
        let ghost g = self@;
        assert(w * h <= MAX_EXTENT * MAX_EXTENT) by (nonlinear_arith)
            requires w <= MAX_EXTENT, h <= MAX_EXTENT;
        let total = w * h;
        let mut visited: Vec<bool> = Vec::new();
        let mut k: usize = 0;
        while k < total
            invariant
                k <= total,
                visited.len() == k,
                forall|m: int| 0 <= m < k ==> !#[trigger] visited@[m],
            decreases total - k,
        {
            visited.push(false);
            k += 1;
        }
        let ghost mut seen = Set::<Point>::empty();
        proof {
            assert forall|i: int, j: int| 0 <= i < w && 0 <= j < h implies #[trigger] visited@[flat(i, j, h as int)]
                == seen.contains(pt(i, j)) by {
                lemma_flat(i, j, i, j, w as int, h as int);
            }
        }
        let mut out: Vec<Room> = Vec::new();
        let mut i: usize = 0;
        while i < w
            invariant
                self.wf(),
                g == self@,
                w == self.width(),
                h == self.height(),
                g.len() == w,
                forall|m: int| 0 <= m < w ==> #[trigger] g[m].len() == h,
                w <= MAX_EXTENT,
                h <= MAX_EXTENT,
                i <= w,
                marks(visited@, seen, w as int, h as int),
                closed_region(g, seen),
                forall|a: int, b: int| 0 <= a < i && 0 <= b < h ==> #[trigger] seen.contains(pt(a, b)),
                split_within(g, groups(out@), include_nothing, seen),
                forall|k: int| 0 <= k < out.len() ==> #[trigger] linked(out@[k].cell_seq()),
                forall|k: int| 0 <= k < out.len() ==> #[trigger] out@[k].cell_seq().no_duplicates(),
            decreases w - i,
        {
            let mut j: usize = 0;
            while j < h
                invariant
                    self.wf(),
                    g == self@,
                    w == self.width(),
                    h == self.height(),
                    g.len() == w,
                    forall|m: int| 0 <= m < w ==> #[trigger] g[m].len() == h,
                    w <= MAX_EXTENT,
                    h <= MAX_EXTENT,
                    i < w,
                    j <= h,
                    marks(visited@, seen, w as int, h as int),
                    closed_region(g, seen),
                    forall|a: int, b: int|
                        (0 <= a < i && 0 <= b < h) || (a == i && 0 <= b < j) ==> #[trigger] seen.contains(pt(a, b)),
                    split_within(g, groups(out@), include_nothing, seen),
                    forall|k: int| 0 <= k < out.len() ==> #[trigger] linked(out@[k].cell_seq()),
                    forall|k: int| 0 <= k < out.len() ==> #[trigger] out@[k].cell_seq().no_duplicates(),
                decreases h - j,
            {
                let idx = flat_index(i, j, w, h, visited.len());
                if !visited[idx] {
                    proof {
                        self.lemma_view_cell(i as int, j as int);
                    }
                    let area = self.cells[i][j].area;
                    let (room, _) = self.flood(i, j, &mut visited, Ghost(seen));
                    let ghost before = groups(out@);
                    let ghost old_out = out@;
                    let ghost fresh = room@;
                    let ghost seen0 = seen;
                    proof {
                        lemma_closed_union(g, seen, room@);
                        seen = seen.union(room@);
                    }
                    if area != Area::Nothing || include_nothing {
                        out.push(room);
                        proof {
                            assert forall|k: int| 0 <= k < out.len() implies #[trigger] linked(out@[k].cell_seq()) by {
                                if k < out.len() - 1 {
                                    assert(out@[k] == old_out[k]);
                                }
                            }
                            assert forall|k: int| 0 <= k < out.len() implies #[trigger] out@[k].cell_seq().no_duplicates() by {
                                if k < out.len() - 1 {
                                    assert(out@[k] == old_out[k]);
                                }
                            }
                            assert(groups(out@) == before.push(fresh));
                            let gs = groups(out@);
                            assert forall|p: Point| #[trigger] seen.contains(p) && kept(area_at(g, p), include_nothing)
                                implies exists|k: int| 0 <= k < gs.len() && #[trigger] gs[k].contains(p) by {
                                if seen0.contains(p) {
                                    let k = choose|k: int| 0 <= k < before.len() && #[trigger] before[k].contains(p);
                                    assert(gs[k] == before[k]);
                                } else {
                                    assert(gs[before.len() as int] == fresh);
                                }
                            }
                            assert forall|k: int| 0 <= k < gs.len() implies #[trigger] gs[k] != Set::<Point>::empty() by {
                                if k == before.len() {
                                    assert(gs[k].contains(pt(i as int, j as int)));
                                    assert(!Set::<Point>::empty().contains(pt(i as int, j as int)));
                                } else {
                                    assert(gs[k] == before[k]);
                                }
                            }
                            assert forall|k1: int, k2: int, p: Point|
                                0 <= k1 < gs.len() && 0 <= k2 < gs.len() && k1 != k2 && #[trigger] gs[k1].contains(p)
                                implies !#[trigger] gs[k2].contains(p) by {
                                if k1 < before.len() {
                                    assert(gs[k1] == before[k1]);
                                }
                                if k2 < before.len() {
                                    assert(gs[k2] == before[k2]);
                                }
                            }
                            assert forall|k: int| 0 <= k < gs.len() implies #[trigger] closed_region(g, gs[k]) by {
                                if k < before.len() {
                                    assert(gs[k] == before[k]);
                                }
                            }
                            assert forall|k: int, p: Point, q: Point|
                                0 <= k < gs.len() && #[trigger] gs[k].contains(p) && #[trigger] gs[k].contains(q)
                                implies area_at(g, p) == area_at(g, q) by {
                                if k < before.len() {
                                    assert(gs[k] == before[k]);
                                }
                            }
                            assert forall|k: int, p: Point| 0 <= k < gs.len() && #[trigger] gs[k].contains(p)
                                implies in_grid(g, p.x as int, p.y as int) && kept(area_at(g, p), include_nothing)
                                && seen.contains(p) by {
                                if k < before.len() {
                                    assert(gs[k] == before[k]);
                                }
                            }
                        }
                    } else {
                        proof {
                            let gs = groups(out@);
                            assert forall|p: Point| #[trigger] seen.contains(p) && kept(area_at(g, p), include_nothing)
                                implies exists|k: int| 0 <= k < gs.len() && #[trigger] gs[k].contains(p) by {
                                if seen0.contains(p) {
                                } else {
                                    assert(fresh.contains(p));
                                }
                            }
                            assert forall|k: int, p: Point| 0 <= k < gs.len() && #[trigger] gs[k].contains(p)
                                implies in_grid(g, p.x as int, p.y as int) && kept(area_at(g, p), include_nothing)
                                && seen.contains(p) by {
                            }
                        }
                    }
                }
                j += 1;
            }
            i += 1;
        }
        proof {
            assert forall|p: Point| #[trigger] all_cells(g).contains(p) implies seen.contains(p) by {
                assert(p == pt(p.x as int, p.y as int));
            }
            assert forall|p: Point| #[trigger] seen.contains(p) implies all_cells(g).contains(p) by {
            }
            assert(seen =~= all_cells(g));
        }
        out
    }

    /// A mark for every cell of the map, none of them set.
    fn unmarked(&self) -> (r: Vec<bool>)
        requires
            self.wf(),
        ensures
            marks(r@, Set::<Point>::empty(), self.width() as int, self.height() as int),
    {
        let w = self.xmax;
        let h = self.ymax;
        assert(w * h <= MAX_EXTENT * MAX_EXTENT) by (nonlinear_arith)
            requires w <= MAX_EXTENT, h <= MAX_EXTENT;
        let total = w * h;
        let mut visited: Vec<bool> = Vec::new();
        let mut k: usize = 0;
        while k < total
            invariant
                k <= total,
                visited.len() == k,
                forall|m: int| 0 <= m < k ==> !#[trigger] visited@[m],
            decreases total - k,
        {
            visited.push(false);
            k += 1;
        }
        proof {
            assert forall|i: int, j: int| 0 <= i < w && 0 <= j < h implies #[trigger] visited@[flat(i, j, h as int)]
                == Set::<Point>::empty().contains(pt(i, j)) by {
                lemma_flat(i, j, i, j, w as int, h as int);
            }
        }
        visited
    }

    /// Get the size of the room (in number of cells) at a point: the number
    /// of room cells joined to it by neighbours, itself included.
    fn get_room_size(&self, point: Point) -> (r: usize)
        requires
            self.wf(),
            self.contains_point(point),
        ensures
            area_at(self@, point) != Area::Room ==> r == 0,
            area_at(self@, point) == Area::Room ==> exists|s: Set<Point>|
                is_group_of(self@, s, point) && s.finite() && r == s.len(),
    {
        let x = point.x as usize;
        let y = point.y as usize;
        proof {
            self.lemma_view_cell(x as int, y as int);
        }
        if self.cells[x][y].area != Area::Room {
            return 0;
        }
        let mut visited = self.unmarked();
        proof {
            assert forall|p: Point| #[trigger] Set::<Point>::empty().contains(p) implies {
                &&& in_grid(self@, p.x as int, p.y as int)
                &&& joins(self@, Set::<Point>::empty(), p, pt(p.x + 1, p.y as int))
                &&& joins(self@, Set::<Point>::empty(), p, pt(p.x - 1, p.y as int))
                &&& joins(self@, Set::<Point>::empty(), p, pt(p.x as int, p.y + 1))
                &&& joins(self@, Set::<Point>::empty(), p, pt(p.x as int, p.y - 1))
            } by {
            }
        }
        let (room, size) = self.flood(x, y, &mut visited, Ghost(Set::<Point>::empty()));
        assert(pt(x as int, y as int) == point);
        proof {
            room.lemma_cell_seq();
            assert(is_group_of(self@, room@, point));
        }
        size
    }

    /// Clear the room at a point: the point and every cell of the same area
    /// joined to it by neighbours become empty.
    fn clear_room(&mut self, point: Point)
        requires
            old(self).wf(),
            old(self).contains_point(point),
        ensures
            final(self).wf(),
            final(self).width() == old(self).width(),
            final(self).height() == old(self).height(),
            area_at(old(self)@, point) == Area::Nothing ==> final(self)@ == old(self)@,
            area_at(old(self)@, point) != Area::Nothing ==> exists|s: Set<Point>|
                is_group_of(old(self)@, s, point) && final(self)@ == cleared(old(self)@, s),
    {
        let x = point.x as usize;
        let y = point.y as usize;
        proof {
            self.lemma_view_cell(x as int, y as int);
            self.lemma_wf_view();
        }
        if self.cells[x][y].area == Area::Nothing {
            return;
        }
        let mut visited = self.unmarked();
        let (room, _) = self.flood(x, y, &mut visited, Ghost(Set::<Point>::empty()));
        assert(pt(x as int, y as int) == point);
        proof {
            room.lemma_cell_seq();
            assert(is_group_of(self@, room@, point));
        }
        let ghost g = self@;
        let ghost mut done = Set::<Point>::empty();
        proof {
            room.lemma_cell_seq();
            assert forall|m: int| 0 <= m < room.cell_seq().len() implies in_grid(g, (#[trigger] room.cell_seq()[m]).x as int, room.cell_seq()[m].y as int) by {
                assert(room.cell_seq().contains(room.cell_seq()[m]));
                assert(room@.contains(room.cell_seq()[m]));
            }
        }
        let n = room.cell_count();
        let mut k: usize = 0;
        while k < n
            invariant
                self.wf(),
                self.width() == old(self).width(),
                self.height() == old(self).height(),
                g.len() == self.width(),
                forall|m: int| 0 <= m < self.width() ==> #[trigger] g[m].len() == self.height(),
                n == room.cell_seq().len(),
                k <= n,
                forall|m: int| 0 <= m < n ==> in_grid(g, (#[trigger] room.cell_seq()[m]).x as int, room.cell_seq()[m].y as int),
                forall|m: int| 0 <= m < k ==> done.contains(#[trigger] room.cell_seq()[m]),
                forall|p: Point| #[trigger] done.contains(p) ==> room.cell_seq().contains(p),
                forall|a: int, b: int|
                    0 <= a < self.width() && 0 <= b < self.height() ==> #[trigger] self@[a][b] == if done.contains(
                        pt(a, b),
                    ) {
                        Area::Nothing
                    } else {
                        g[a][b]
                    },
            decreases n - k,
        {
            let p = room.cell(k);
            let ghost prev = self@;
            proof {
                self.lemma_wf_view();
                done = done.insert(p);
            }
            self.set_area_at(p.x as usize, p.y as usize, Area::Nothing);
            proof {
                self.lemma_wf_view();
                assert forall|a: int, b: int| 0 <= a < self.width() && 0 <= b < self.height() implies #[trigger] self@[a][b]
                    == if done.contains(pt(a, b)) { Area::Nothing } else { g[a][b] } by {
                    if a == p.x && b == p.y {
                        assert(pt(a, b) == p);
                    } else {
                        assert(prev[a][b] == self@[a][b]);
                        assert(pt(a, b) != p);
                    }
                }
                assert(room.cell_seq().contains(p));
            }
            k += 1;
        }
        proof {
            self.lemma_wf_view();
            assert forall|p: Point| room@.contains(p) implies done.contains(p) by {
                assert(room.cell_seq().contains(p));
                let m = choose|m: int| 0 <= m < n && room.cell_seq()[m] == p;
            }
            assert(done =~= room@);
            assert(self@ =~~= cleared(g, room@));
        }
    }

    /// Clear away small, unattached rooms: each group of fewer than 15 room
    /// cells joined by neighbours becomes empty.
    fn remove_orphans(&mut self)
        requires
            old(self).wf(),
        ensures
            final(self).wf(),
            final(self).width() == old(self).width(),
            final(self).height() == old(self).height(),
            final(self)@ == orphans_removed(old(self)@),
    {
        proof {
            self.lemma_wf_view();
        }
        let ghost g0 = self@;
        let ghost w = self.width() as int;
        let ghost h = self.height() as int;
        let ghost mut d = Set::<Point>::empty();
        proof {
            assert(self@ =~~= cleared(g0, d));
        }
        let mut i: usize = 0;
        while i < self.xmax
            invariant
                self.wf(),
                self.width() == old(self).width(),
                self.height() == old(self).height(),
                g0 == old(self)@,
                w == self.width(),
                h == self.height(),
                g0.len() == w,
                forall|m: int| 0 <= m < w ==> #[trigger] g0[m].len() == h,
                w <= MAX_EXTENT,
                h <= MAX_EXTENT,
                i <= self.xmax,
                self@ == cleared(g0, d),
                whole_groups(g0, d),
                forall|p: Point| #[trigger] d.contains(p) ==> in_small_group(g0, p),
                forall|a: int, b: int|
                    0 <= a < i && 0 <= b < h && in_small_group(g0, pt(a, b)) ==> #[trigger] d.contains(pt(a, b)),
            decreases self.xmax - i,
        {
            let mut j: usize = 0;
            while j < self.ymax
                invariant
                    self.wf(),
                    self.width() == old(self).width(),
                    self.height() == old(self).height(),
                    g0 == old(self)@,
                    w == self.width(),
                    h == self.height(),
                    g0.len() == w,
                    forall|m: int| 0 <= m < w ==> #[trigger] g0[m].len() == h,
                    w <= MAX_EXTENT,
                    h <= MAX_EXTENT,
                    i < self.xmax,
                    j <= self.ymax,
                    self@ == cleared(g0, d),
                    whole_groups(g0, d),
                    forall|p: Point| #[trigger] d.contains(p) ==> in_small_group(g0, p),
                    forall|a: int, b: int|
                        ((0 <= a < i && 0 <= b < h) || (a == i && 0 <= b < j)) && in_small_group(g0, pt(a, b))
                            ==> #[trigger] d.contains(pt(a, b)),
                decreases self.ymax - j,
            {
                let point = Point::new(i as i64, j as i64);
                let ghost g = self@;
                proof {
                    self.lemma_view_cell(i as int, j as int);
                    self.lemma_wf_view();
                    assert(point == pt(i as int, j as int));
                }
                if self.cells[i][j].area == Area::Room {
                    let size = self.get_room_size(point);
                    let ghost t = choose|t: Set<Point>| is_group_of(g, t, point) && t.finite() && size == t.len();
                    proof {
                        lemma_group_survives(g0, d, g, t, point, w, h);
                        assert(!d.contains(point));
                    }
                    if size < 15 {
                        self.clear_room(point);
                        proof {
                            self.lemma_wf_view();
                            let u = choose|u: Set<Point>| is_group_of(g, u, point) && self@ == cleared(g, u);
                            lemma_group_unique(g, t, u, point);
                            assert(in_small_group(g0, point));
                            assert forall|p: Point| #[trigger] d.union(t).contains(p) implies exists|s: Set<Point>| #[trigger] is_group_of(g0, s, p) && s.subset_of(d.union(t)) by {
                                if d.contains(p) {
                                    let s = choose|s: Set<Point>| #[trigger] is_group_of(g0, s, p) && s.subset_of(d);
                                    assert(is_group_of(g0, s, p) && s.subset_of(d.union(t)));
                                } else {
                                    assert(is_group_of(g0, t, p));
                                }
                            }
                            assert forall|p: Point| #[trigger] d.union(t).contains(p) implies in_small_group(g0, p) by {
                                if !d.contains(p) {
                                    assert(is_group_of(g0, t, p));
                                }
                            }
                            assert(self@ =~~= cleared(g0, d.union(t)));
                            d = d.union(t);
                        }
                    } else {
                        proof {
                            if in_small_group(g0, point) {
                                let s = choose|s: Set<Point>| #[trigger] is_group_of(g0, s, point) && s.finite() && s.len() < 15;
                                lemma_group_unique(g0, s, t, point);
                            }
                        }
                    }
                } else {
                    proof {
                        if in_small_group(g0, point) {
                            assert(d.contains(point));
                        }
                    }
                }
                j += 1;
            }
            i += 1;
        }
        proof {
            self.lemma_wf_view();
            assert forall|a: int, b: int| 0 <= a < w && 0 <= b < h implies #[trigger] self@[a][b] == orphans_removed(g0)[a][b] by {
                if d.contains(pt(a, b)) {
                    assert(in_small_group(g0, pt(a, b)));
                }
            }
            assert(self@ =~~= orphans_removed(g0));
        }
    }

    /// Partition the map into groups of room and entrance cells.
    fn partition_rooms(&self) -> (r: Vec<Room>)
        requires
            self.wf(),
        ensures
            is_partition(self@, groups(r@), false),
            forall|k: int| 0 <= k < r.len() ==> #[trigger] linked(r@[k].cell_seq()),
    {
        self.partition_spaces(false)
    }

    /// Place a hallway between the nearest cells of each pair of groups that
    /// lie less than `sqrt(distance)` apart, choosing its bend at random.
    /// The ghost result lists the hallways placed.
    fn connect_groups(&mut self, rooms: &Vec<Room>, distance: u64) -> (placed: Ghost<Seq<(Point, Point, bool)>>)
        requires
            old(self).wf(),
            rooms_only(old(self)@),
            forall|k: int, p: Point|
                0 <= k < rooms.len() && #[trigger] rooms@[k]@.contains(p) ==> in_grid(old(self)@, p.x as int, p.y as int),
            forall|k: int| 0 <= k < rooms.len() ==> #[trigger] rooms@[k]@ != Set::<Point>::empty(),
        ensures
            final(self).wf(),
            final(self).width() == old(self).width(),
            final(self).height() == old(self).height(),
            grown(old(self)@, final(self)@),
            rooms_only(final(self)@),
            pass_done(old(self)@, final(self)@, rooms@, placed@),
            distance > max_sq(old(self)@) ==> all_pairs_joined(rooms@, placed@),
    {
        let pairs = index_pairs(rooms.len());
        proof {
            self.lemma_wf_view();
        }
        let ghost g0 = self@;
        let ghost w = self.width() as int;
        let ghost h = self.height() as int;
        let ghost mut placed: Seq<(Point, Point, bool)> = Seq::empty();
        let mut k: usize = 0;
        while k < pairs.len()
            invariant
                self.wf(),
                self.width() == old(self).width(),
                self.height() == old(self).height(),
                g0 == old(self)@,
                w == self.width(),
                h == self.height(),
                g0.len() == w,
                forall|m: int| 0 <= m < w ==> #[trigger] g0[m].len() == h,
                self@.len() == w,
                forall|m: int| 0 <= m < w ==> #[trigger] self@[m].len() == h,
                w <= MAX_EXTENT,
                h <= MAX_EXTENT,
                grown(g0, self@),
                rooms_only(self@),
                k <= pairs.len(),
                forall|m: int| 0 <= m < pairs.len() ==> #[trigger] pairs@[m].0 < pairs@[m].1 && pairs@[m].1 < rooms.len(),
                forall|k: int, p: Point|
                    0 <= k < rooms.len() && #[trigger] rooms@[k]@.contains(p) ==> in_grid(g0, p.x as int, p.y as int),
                forall|k: int| 0 <= k < rooms.len() ==> #[trigger] rooms@[k]@ != Set::<Point>::empty(),
                pass_done(g0, self@, rooms@, placed),
                forall|m: int|
                    0 <= m < k && distance > max_sq(g0) ==> #[trigger] pair_joined(
                        rooms@,
                        placed,
                        pairs@[m].0 as int,
                        pairs@[m].1 as int,
                    ),
            decreases pairs.len() - k,
        {
            let (a, b) = pairs[k];
            assert(pairs@[k as int].0 < pairs@[k as int].1 && pairs@[k as int].1 < rooms.len());
            proof {
                assert forall|p: Point, q: Point| rooms@[a as int]@.contains(p) && rooms@[b as int]@.contains(q)
                    implies #[trigger] crate::point::sq_dist(p, q) <= u64::MAX by {
                    lemma_grid_dist(g0, p, q);
                }
            }
            let ghost placed0 = placed;
            let ghost g1 = self@;
            match rooms[a].nearest_cells(&rooms[b]) {
                Ok((cell0, cell1)) => {
                    proof {
                        lemma_grid_dist(g0, cell0, cell1);
                        lemma_sq_dist_bounded(g0, cell0, cell1, w, h);
                    }
                    if cell0.distance2(&cell1) < distance {
                        self.place_hallway(cell0, cell1, RouteMethod::Manhattan);
                        proof {
                            let hf = self@ == hallway_placed(g1, cell0, cell1, true);
                            assert(self@ == hallway_placed(g1, cell0, cell1, hf));
                            lemma_hallway_placed_grows(g1, cell0, cell1, hf);
                            lemma_grown_trans(g0, g1, self@);
                            lemma_hallway_opens(g1, cell0, cell1, hf, w, h);
                            placed = placed0.push((cell0, cell1, hf));
                            let n = placed0.len() as int;
                            assert(placed[n] == (cell0, cell1, hf));
                            assert forall|m: int| 0 <= m < placed.len() implies #[trigger] hall_open(self@, placed[m].0, placed[m].1, placed[m].2) by {
                                if m < n {
                                    assert(placed[m] == placed0[m]);
                                    assert(hall_open(g1, placed0[m].0, placed0[m].1, placed0[m].2));
                                    assert forall|p: Point| #[trigger] on_hall(placed[m].0, placed[m].1, placed[m].2, p) implies in_grid(self@, p.x as int, p.y as int) && self@[p.x as int][p.y as int] == Area::Room by {
                                        assert(in_grid(g1, p.x as int, p.y as int));
                                    }
                                }
                            }
                            assert forall|m: int| 0 <= m < placed.len() implies #[trigger] in_some(rooms@, placed[m].0) by {
                                if m < n {
                                    assert(placed[m] == placed0[m]);
                                } else {
                                    assert(rooms@[a as int]@.contains(cell0));
                                }
                            }
                            assert forall|m: int| 0 <= m < placed.len() implies #[trigger] in_some(rooms@, placed[m].1) by {
                                if m < n {
                                    assert(placed[m] == placed0[m]);
                                    assert(in_some(rooms@, placed0[m].1));
                                } else {
                                    assert(rooms@[b as int]@.contains(cell1));
                                    assert(placed[m].1 == cell1);
                                }
                            }
                            assert forall|i: int, j: int| in_grid(self@, i, j) && #[trigger] self@[i][j] == Area::Room implies g0[i][j] == Area::Room || exists|m: int|
                                0 <= m < placed.len() && #[trigger] on_hall(placed[m].0, placed[m].1, placed[m].2, pt(i, j)) by {
                                if on_hall(cell0, cell1, hf, pt(i, j)) {
                                    assert(on_hall(placed[n].0, placed[n].1, placed[n].2, pt(i, j)));
                                } else {
                                    assert(g1[i][j] == Area::Room);
                                    if g0[i][j] != Area::Room {
                                        let m = choose|m: int| 0 <= m < placed0.len() && #[trigger] on_hall(placed0[m].0, placed0[m].1, placed0[m].2, pt(i, j));
                                        assert(placed[m] == placed0[m]);
                                    }
                                }
                            }
                            assert(pair_joined(rooms@, placed, a as int, b as int)) by {
                                assert(rooms@[a as int]@.contains(placed[n].0));
                                assert(rooms@[b as int]@.contains(placed[n].1));
                            }
                            assert forall|m: int| 0 <= m < k + 1 && distance > max_sq(g0) implies #[trigger] pair_joined(rooms@, placed, pairs@[m].0 as int, pairs@[m].1 as int) by {
                                if m < k {
                                    assert(pair_joined(rooms@, placed0, pairs@[m].0 as int, pairs@[m].1 as int));
                                    let x = choose|x: int| 0 <= x < placed0.len() && #[trigger] rooms@[pairs@[m].0 as int]@.contains(placed0[x].0) && #[trigger] rooms@[pairs@[m].1 as int]@.contains(placed0[x].1);
                                    assert(placed[x] == placed0[x]);
                                }
                            }
                        }
                    }
                },
                Err(_) => {
                },
            }
            k += 1;
        }
        proof {
            if distance > max_sq(g0) {
                assert forall|i: int, j: int| 0 <= i < j < rooms.len() implies #[trigger] pair_joined(rooms@, placed, i, j) by {
                    assert(pairs@.contains((i as usize, j as usize)));
                    let m = choose|m: int| 0 <= m < pairs@.len() && pairs@[m] == (i as usize, j as usize);
                    assert(pair_joined(rooms@, placed, pairs@[m].0 as int, pairs@[m].1 as int));
                }
            }
        }
        Ghost(placed)
    }

    /// Generate a dungeon: clear the map, place `num_rooms` random rooms of up
    /// to `room_size` cells a side, then join the groups of rooms with
    /// hallways until they form a single group.
    ///
    /// Each pass places a hallway between the nearest cells of every pair of
    /// groups less than `sqrt(distance)` apart, where `distance` starts at 36
    /// and grows by 150 after each pass, and then partitions the map again.
    /// Once `distance` exceeds the squared diagonal of the map every pair is
    /// joined, which leaves a single group: the passes end there at the latest.
    pub fn generate_dungeon(&mut self, num_rooms: usize, room_size: usize)
        requires
            old(self).wf(),
            num_rooms > 0 ==> room_size > 2 && old(self).width() > 1 && old(self).height() > 1,
        ensures
            final(self).wf(),
            final(self).width() == old(self).width(),
            final(self).height() == old(self).height(),
            rooms_only(final(self)@),
            num_rooms == 0 ==> forall|a: int, b: int|
                in_grid(final(self)@, a, b) ==> #[trigger] final(self)@[a][b] == Area::Nothing,
            exists|rooms: Seq<Room>|
                is_partition(final(self)@, groups(rooms), false) && rooms.len() <= 1 && (num_rooms > 0
                    ==> rooms.len() == 1) && forall|k: int| 0 <= k < rooms.len() ==> #[trigger] linked(rooms[k].cell_seq()),
            exists|rects: Seq<(int, int, int, int)>, halls: Seq<(Point, Point, bool)>|
                rects.len() == num_rooms && #[trigger] made_of(
                    final(self)@,
                    final(self).width() as int,
                    final(self).height() as int,
                    rects,
                    halls,
                    room_size as int,
                ),
    {
        self.clear();
        proof {
            self.lemma_wf_view();
        }
        let ghost empty = self@;
        let ghost wd = self.width() as int;
        let ghost ht = self.height() as int;
        let ghost mut rects: Seq<(int, int, int, int)> = Seq::empty();
        let ghost mut halls: Seq<(Point, Point, bool)> = Seq::empty();
        proof {
            assert(made_of(self@, wd, ht, rects, halls, room_size as int));
        }
        let mut n: usize = 0;
        while n < num_rooms
            invariant
                wd == self.width(),
                ht == self.height(),
                self@.len() == wd,
                forall|m: int| 0 <= m < wd ==> #[trigger] self@[m].len() == ht,
                rects.len() == n,
                halls == Seq::<(Point, Point, bool)>::empty(),
                made_of(self@, wd, ht, rects, halls, room_size as int),
                self.wf(),
                self.width() == old(self).width(),
                self.height() == old(self).height(),
                num_rooms > 0 ==> room_size > 2 && self.width() > 1 && self.height() > 1,
                n <= num_rooms,
                rooms_only(self@),
                n == 0 ==> self@ == empty,
                forall|a: int, b: int| in_grid(empty, a, b) ==> #[trigger] empty[a][b] == Area::Nothing,
                n > 0 ==> exists|p: Point| #[trigger] all_cells(self@).contains(p) && area_at(self@, p) != Area::Nothing,
            decreases num_rooms - n,
        {
            let ghost before = self@;
            self.place_random_room(room_size, false);
            proof {
                self.lemma_wf_view();
                let (x0, y0, w, h) = choose|x0: int, y0: int, w: int, h: int|
                    #[trigger] random_room_placed(before, self@, x0, y0, w, h, room_size as int, false);
                let gm = choose|gm: Seq<Seq<Area>>|
                    #[trigger] hall_to_nearest(before, gm, pt(x0, y0), false) && self@ == fill_rect(
                        gm,
                        max_int(0, x0 - w / 2),
                        max_int(0, y0 - h / 2),
                        min_int(before.len() - 1, x0 + w / 2),
                        min_int(before[x0].len() - 1, y0 + w / 2),
                    );
                assert(gm == before);
                let r = (x0, y0, w, h);
                let rects0 = rects;
                rects = rects.push(r);
                assert(rects[n as int] == r);
                assert forall|k: int| 0 <= k < rects.len() implies #[trigger] drawn_rect(rects[k], wd, ht, room_size as int) by {
                    if k < n {
                        assert(rects[k] == rects0[k]);
                    }
                }
                assert forall|k: int, p: Point|
                    0 <= k < rects.len() && #[trigger] in_centred(rects[k], wd, ht, p) && in_grid(self@, p.x as int, p.y as int)
                        implies self@[p.x as int][p.y as int] == Area::Room by {
                    if k < n {
                        assert(rects[k] == rects0[k]);
                        assert(in_centred(rects0[k], wd, ht, p));
                    }
                }
                assert forall|i: int, j: int| in_grid(self@, i, j) && #[trigger] self@[i][j] == Area::Room implies (exists|k: int|
                    0 <= k < rects.len() && #[trigger] in_centred(rects[k], wd, ht, pt(i, j))) || (exists|k: int|
                    0 <= k < halls.len() && #[trigger] on_hall(halls[k].0, halls[k].1, halls[k].2, pt(i, j))) by {
                    assert(pt(i, j).x == i && pt(i, j).y == j);
                    assert(in_grid(before, i, j));
                    if in_centred(r, wd, ht, pt(i, j)) {
                        assert(in_centred(rects[n as int], wd, ht, pt(i, j)));
                    } else {
                        assert(before[x0].len() == ht);
                        assert(self@[i][j] == before[i][j]);
                        assert(before[i][j] == Area::Room);
                        let k = choose|k: int| 0 <= k < rects0.len() && #[trigger] in_centred(rects0[k], wd, ht, pt(i, j));
                        assert(rects[k] == rects0[k]);
                    }
                }
            }
            n += 1;
        }
        let w = self.xmax as u64;
        let h = self.ymax as u64;
        let ghost ms = max_sq(self@);
        proof {
            self.lemma_wf_view();
            let ww = self@.len() as int;
            let hh: int = if self@.len() > 0 { self@[0].len() as int } else { 0 };
            assert(0 <= hh <= 65535);
            assert(ms == (ww - 1) * (ww - 1) + (hh - 1) * (hh - 1));
            assert(0 <= (ww - 1) * (ww - 1) + (hh - 1) * (hh - 1) <= 2 * 65535 * 65535) by (nonlinear_arith)
                requires 0 <= ww <= 65535, 0 <= hh <= 65535;
        }
        let mut rooms = self.partition_rooms();
        let mut distance: u64 = 36;
        while rooms.len() > 1
            invariant
                self.wf(),
                self.width() == old(self).width(),
                self.height() == old(self).height(),
                ms == max_sq(self@),
                0 <= ms <= 2 * 65535 * 65535,
                rooms_only(self@),
                is_partition(self@, groups(rooms@), false),
                forall|k: int| 0 <= k < rooms.len() ==> #[trigger] linked(rooms@[k].cell_seq()),
                rooms.len() > 1 ==> distance <= ms + 186,
                distance <= ms + 336,
                num_rooms == 0 ==> self@ == empty,
                forall|a: int, b: int| in_grid(empty, a, b) ==> #[trigger] empty[a][b] == Area::Nothing,
                num_rooms > 0 ==> exists|p: Point| #[trigger] all_cells(self@).contains(p) && area_at(self@, p) != Area::Nothing,
                wd == self.width(),
                ht == self.height(),
                rects.len() == num_rooms,
                made_of(self@, wd, ht, rects, halls, room_size as int),
            decreases ms + 336 - distance,
        {
            proof {
                if num_rooms == 0 {
                    let gs = groups(rooms@);
                    assert(gs[0] != Set::<Point>::empty());
                    let p = gs[0].choose();
                    assert(gs[0].contains(p)) by {
                        if !gs[0].contains(p) {
                            assert(gs[0] =~= Set::<Point>::empty());
                        }
                    }
                }
                assert forall|k: int, p: Point| 0 <= k < rooms.len() && #[trigger] rooms@[k]@.contains(p)
                    implies in_grid(self@, p.x as int, p.y as int) by {
                    assert(groups(rooms@)[k].contains(p));
                }
                assert forall|k: int| 0 <= k < rooms.len() implies #[trigger] rooms@[k]@ != Set::<Point>::empty() by {
                    assert(groups(rooms@)[k] != Set::<Point>::empty());
                }
                assert forall|k: int, p: Point| 0 <= k < rooms.len() implies (#[trigger] rooms@[k]@.contains(p)
                    <==> rooms@[k].cell_seq().contains(p)) by {
                    rooms@[k].lemma_cell_seq();
                }
                self.lemma_wf_view();
            }
            let ghost g0 = self@;
            let ghost old_rooms = rooms@;
            let placed = self.connect_groups(&rooms, distance);
            rooms = self.partition_rooms();
            proof {
                self.lemma_wf_view();
                let halls0 = halls;
                let pl = placed@;
                halls = halls0 + pl;
                let g1 = self@;
                assert forall|k: int, p: Point|
                    0 <= k < rects.len() && #[trigger] in_centred(rects[k], wd, ht, p) && in_grid(g1, p.x as int, p.y as int)
                        implies g1[p.x as int][p.y as int] == Area::Room by {
                    assert(in_grid(g0, p.x as int, p.y as int));
                }
                assert forall|k: int| 0 <= k < halls.len() implies #[trigger] hall_open(g1, halls[k].0, halls[k].1, halls[k].2) by {
                    if k < halls0.len() {
                        assert(halls[k] == halls0[k]);
                        assert(hall_open(g0, halls0[k].0, halls0[k].1, halls0[k].2));
                        assert forall|p: Point| #[trigger] on_hall(halls[k].0, halls[k].1, halls[k].2, p) implies in_grid(g1, p.x as int, p.y as int)
                            && g1[p.x as int][p.y as int] == Area::Room by {
                            assert(in_grid(g0, p.x as int, p.y as int));
                        }
                    } else {
                        assert(halls[k] == pl[k - halls0.len()]);
                        assert(hall_open(g1, pl[k - halls0.len()].0, pl[k - halls0.len()].1, pl[k - halls0.len()].2));
                    }
                }
                assert forall|i: int, j: int| in_grid(g1, i, j) && #[trigger] g1[i][j] == Area::Room implies (exists|k: int|
                    0 <= k < rects.len() && #[trigger] in_centred(rects[k], wd, ht, pt(i, j))) || (exists|k: int|
                    0 <= k < halls.len() && #[trigger] on_hall(halls[k].0, halls[k].1, halls[k].2, pt(i, j))) by {
                    assert(in_grid(g0, i, j));
                    if g0[i][j] == Area::Room {
                        if !(exists|k: int| 0 <= k < rects.len() && #[trigger] in_centred(rects[k], wd, ht, pt(i, j))) {
                            let k = choose|k: int| 0 <= k < halls0.len() && #[trigger] on_hall(halls0[k].0, halls0[k].1, halls0[k].2, pt(i, j));
                            assert(halls[k] == halls0[k]);
                        }
                    } else {
                        let k = choose|k: int| 0 <= k < pl.len() && #[trigger] on_hall(pl[k].0, pl[k].1, pl[k].2, pt(i, j));
                        assert(halls[halls0.len() + k] == pl[k]);
                    }
                }
                assert(made_of(g1, wd, ht, rects, halls, room_size as int));
                if num_rooms > 0 {
                    let p = choose|p: Point| #[trigger] all_cells(g0).contains(p) && area_at(g0, p) != Area::Nothing;
                    assert(all_cells(self@).contains(p));
                }
                if distance > ms {
                    lemma_one_group(g0, self@, old_rooms, placed@, groups(rooms@));
                }
            }
            distance += 150;
        }
        proof {
            if num_rooms > 0 {
                let p = choose|p: Point| #[trigger] all_cells(self@).contains(p) && area_at(self@, p) != Area::Nothing;
                assert(kept(area_at(self@, p), false));
                let k = choose|k: int| 0 <= k < groups(rooms@).len() && #[trigger] groups(rooms@)[k].contains(p);
            }
            assert(is_partition(self@, groups(rooms@), false) && rooms@.len() <= 1 && (num_rooms > 0 ==> rooms@.len() == 1)
                && forall|k: int| 0 <= k < rooms@.len() ==> #[trigger] linked(rooms@[k].cell_seq()));
        }
    }

    /// Generate a cave: fill the map at random with `seed_limit` (see
    /// `generate_random_cells`), apply `iter` generations of the cave
    /// automaton, clear the small groups of rooms, then place a hallway
    /// between the nearest cells of every pair of groups less than 6 cells
    /// apart, in a single pass. After at least one generation the cells on
    /// the edge of the map stay empty.
    pub fn generate_cave(&mut self, iter: i64, seed_limit: i64)
        requires
            old(self).wf(),
        ensures
            final(self).wf(),
            final(self).width() == old(self).width(),
            final(self).height() == old(self).height(),
            rooms_only(final(self)@),
            iter >= 1 ==> edges_empty(final(self)@),
            exists|g0: Seq<Seq<Area>>, rooms: Seq<Room>, placed: Seq<(Point, Point, bool)>|
                seeded(g0, old(self)@, seed_limit) && #[trigger] cave_made(g0, rooms, placed, final(self)@, iter),
    {
        self.generate_random_cells(seed_limit);
        let ghost g0 = self@;
        proof {
            self.lemma_wf_view();
            old(self).lemma_wf_view();
            assert(seeded(g0, old(self)@, seed_limit));
        }
        let mut n: i64 = 0;
        while n < iter
            invariant
                self.wf(),
                self.width() == old(self).width(),
                self.height() == old(self).height(),
                rooms_only(self@),
                n >= 0,
                n >= 1 ==> edges_empty(self@),
                n <= iter || n == 0,
                self@ == cave_steps(g0, n as int),
            decreases iter - n,
        {
            self.generate_cave_iteration();
            proof {
                self.lemma_wf_view();
            }
            n += 1;
        }
        let ghost gs = self@;
        proof {
            assert(gs == cave_steps(g0, iter as int)) by {
                if iter <= 0 {
                    assert(n == 0);
                }
            }
        }
        self.remove_orphans();
        proof {
            self.lemma_wf_view();
            assert forall|a: int, b: int| in_grid(self@, a, b) implies #[trigger] self@[a][b] != Area::Entrance by {
                assert(in_grid(gs, a, b));
            }
            if iter >= 1 {
                assert forall|a: int, b: int| in_grid(self@, a, b) && on_edge_of(self@, a, b) implies #[trigger] self@[a][b] == Area::Nothing by {
                    assert(in_grid(gs, a, b));
                    assert(gs[a][b] == Area::Nothing);
                }
            }
        }
        let caves = self.partition_rooms();
        proof {
            assert forall|k: int, p: Point| 0 <= k < caves.len() && #[trigger] caves@[k]@.contains(p)
                implies in_grid(self@, p.x as int, p.y as int) by {
                assert(groups(caves@)[k].contains(p));
            }
            assert forall|k: int| 0 <= k < caves.len() implies #[trigger] caves@[k]@ != Set::<Point>::empty() by {
                assert(groups(caves@)[k] != Set::<Point>::empty());
            }
        }
        let ghost g1 = self@;
        let placed = self.connect_groups(&caves, 36);
        proof {
            assert(cave_made(g0, caves@, placed@, self@, iter));
            self.lemma_wf_view();
            if iter >= 1 {
                assert forall|a: int, b: int| in_grid(self@, a, b) && on_edge_of(self@, a, b) implies #[trigger] self@[a][b] == Area::Nothing by {
                    assert(in_grid(g1, a, b));
                    assert(self@[a][b] != Area::Entrance);
                    if self@[a][b] == Area::Room {
                        if g1[a][b] != Area::Room {
                            let k = choose|k: int| 0 <= k < placed@.len() && #[trigger] on_hall(placed@[k].0, placed@[k].1, placed@[k].2, pt(a, b));
                            assert(in_some(caves@, placed@[k].0));
                            assert(in_some(caves@, placed@[k].1));
                            let i0 = choose|i: int| 0 <= i < caves@.len() && #[trigger] caves@[i]@.contains(placed@[k].0);
                            let i1 = choose|i: int| 0 <= i < caves@.len() && #[trigger] caves@[i]@.contains(placed@[k].1);
                            let p0 = placed@[k].0;
                            let p1 = placed@[k].1;
                            assert(groups(caves@)[i0].contains(p0));
                            assert(groups(caves@)[i1].contains(p1));
                            assert(g1[p0.x as int][p0.y as int] != Area::Nothing);
                            assert(g1[p1.x as int][p1.y as int] != Area::Nothing);
                            assert(!on_edge_of(g1, p0.x as int, p0.y as int));
                            assert(!on_edge_of(g1, p1.x as int, p1.y as int));
                            assert(g1[p0.x as int].len() == g1[0].len() && g1[p1.x as int].len() == g1[0].len());
                            assert(g1[a].len() == g1[0].len());
                        }
                    }
                }
            }
        }
    }

    /// The grey level in which a cell of the area `a` is drawn.
    pub fn shade_of(a: Area) -> (r: u8)
        ensures
            r == shade(a),
    {
        match a {
            Area::Room => 200,
            Area::Entrance => 255,
            Area::Nothing => 25,
        }
    }

    /// The pixels of a greyscale picture of the map, row after row, each
    /// cell drawn as a square of `scale` by `scale` pixels in its shade.
    pub fn gray_pixels(&self, scale: usize) -> (r: Vec<u8>)
        requires
            self.wf(),
            scale > 0,
            self.width() * scale * self.height() * scale <= usize::MAX,
        ensures
            r@.len() == self.width() * scale * self.height() * scale,
            forall|idx: int|
                0 <= idx < r@.len() ==> #[trigger] r@[idx] == shade(
                    self@[(idx % (self.width() * scale)) / scale as int][(idx / (self.width() * scale))
                        / scale as int],
                ),
    {
        proof {
            self.lemma_wf_view();
        }
        let w = self.xmax;
        let h = self.ymax;
        assert(w * scale * (h * scale) == w * scale * h * scale) by (nonlinear_arith);
        assert(w * scale <= w * scale * (h * scale) || h == 0) by (nonlinear_arith)
            requires scale > 0;
        assert(h * scale <= w * scale * (h * scale) || w == 0) by (nonlinear_arith)
            requires scale > 0;
        let mut pixels: Vec<u8> = Vec::new();
        if w == 0 || h == 0 {
            assert(w * scale * h * scale == 0) by (nonlinear_arith)
                requires w == 0 || h == 0;
            return pixels;
        }
        let row_length = w * scale;
        let num_rows = h * scale;
        let mut py: usize = 0;
        while py < num_rows
            invariant
                self.wf(),
                w == self.width(),
                h == self.height(),
                self@.len() == w,
                forall|k: int| 0 <= k < w ==> #[trigger] self@[k].len() == h,
                scale > 0,
                w > 0,
                h > 0,
                row_length == w * scale,
                num_rows == h * scale,
                row_length * num_rows <= usize::MAX,
                py <= num_rows,
                pixels@.len() == py * row_length,
                forall|idx: int|
                    0 <= idx < pixels@.len() ==> #[trigger] pixels@[idx] == shade(
                        self@[(idx % (row_length as int)) / scale as int][(idx / (row_length as int)) / scale as int],
                    ),
            decreases num_rows - py,
        {
            let mut px: usize = 0;
            while px < row_length
                invariant
                    self.wf(),
                    w == self.width(),
                    h == self.height(),
                    self@.len() == w,
                    forall|k: int| 0 <= k < w ==> #[trigger] self@[k].len() == h,
                    scale > 0,
                    row_length == w * scale,
                    num_rows == h * scale,
                    row_length * num_rows <= usize::MAX,
                    py < num_rows,
                    px <= row_length,
                    pixels@.len() == py * row_length + px,
                    forall|idx: int|
                        0 <= idx < pixels@.len() ==> #[trigger] pixels@[idx] == shade(
                            self@[(idx % (row_length as int)) / scale as int][(idx / (row_length as int)) / scale as int],
                        ),
                decreases row_length - px,
            {
                let x = px / scale;
                let y = py / scale;
                proof {
                    vstd::arithmetic::div_mod::lemma_fundamental_div_mod_converse(
                        (py * row_length + px) as int,
                        row_length as int,
                        py as int,
                        px as int,
                    );
                    assert(x < w) by {
                        vstd::arithmetic::div_mod::lemma_div_is_ordered(px as int, (row_length - 1) as int, scale as int);
                        vstd::arithmetic::div_mod::lemma_div_multiples_vanish_fancy(w as int - 1, (scale - 1) as int, scale as int);
                        assert((w - 1) * scale + (scale - 1) == row_length - 1) by (nonlinear_arith)
                            requires row_length == w * scale;
                    }
                    assert(y < h) by {
                        vstd::arithmetic::div_mod::lemma_div_is_ordered(py as int, (num_rows - 1) as int, scale as int);
                        vstd::arithmetic::div_mod::lemma_div_multiples_vanish_fancy(h as int - 1, (scale - 1) as int, scale as int);
                        assert((h - 1) * scale + (scale - 1) == num_rows - 1) by (nonlinear_arith)
                            requires num_rows == h * scale;
                    }
                    assert(py * row_length + px < row_length * num_rows) by (nonlinear_arith)
                        requires py < num_rows, px < row_length;
                    self.lemma_view_cell(x as int, y as int);
                }
                pixels.push(Self::shade_of(self.cells[x][y].area));
                px += 1;
            }
            assert((py + 1) * row_length == py * row_length + row_length) by (nonlinear_arith);
            py += 1;
        }
        assert(num_rows * row_length == w * scale * h * scale) by (nonlinear_arith)
            requires row_length == w * scale, num_rows == h * scale;
        pixels
    }
}

/// A map can be indexed by a point of it, like `get_cell_ref` without the error.
impl core::ops::Index<Point> for GridMap {
    type Output = Cell;

    fn index(&self, index: Point) -> (r: &Cell)
        ensures
            r.area == self@[index.x as int][index.y as int],
    {
        let x = index.x as usize;
        let y = index.y as usize;
        proof {
            self.lemma_view_cell(x as int, y as int);
        }
        &self.cells[x][y]
    }
}

impl vstd::std_specs::core::IndexSpecImpl<Point> for GridMap {
    open spec fn index_req(&self, index: &Point) -> bool {
        self.wf() && self.contains_point(*index)
    }
}

/// `v`, or the nearest bound of `i64` where `v` lies beyond it.
fn saturate_i64(v: i128) -> (r: i64)
    ensures
        r == if v < i64::MIN { i64::MIN as int } else if v > i64::MAX { i64::MAX as int } else { v as int },
{
    if v < i64::MIN as i128 {
        i64::MIN
    } else if v > i64::MAX as i128 {
        i64::MAX
    } else {
        v as i64
    }
}

} // verus!
