//! Connected groups of cells: walking along rooms and hallways, and why
//! joining every pair of groups with a hallway leaves a single group.
use vstd::prelude::*;
use crate::cell::Area;
use crate::gridmap::{
    adjacent, area_at, closed_region, groups, has_earlier_neighbour, in_grid, is_partition, joins, linked,
    max_int, min_int, pt, rooms_only, is_group_of, whole_groups, cleared, MAX_EXTENT, hallway_placed, room_placed, grown, kept, all_cells,
};
use crate::point::Point;
use crate::room::Room;

verus! {

/// Whether `p` lies in the box with opposite corners `a` and `b`.
pub open spec fn in_rect(p: Point, a: Point, b: Point) -> bool {
    min_int(a.x as int, b.x as int) <= p.x <= max_int(a.x as int, b.x as int) && min_int(a.y as int, b.y as int)
        <= p.y <= max_int(a.y as int, b.y as int)
}

/// The corner of the L-shaped hallway from `a` to `b`.
pub open spec fn bend(a: Point, b: Point, horizontal_first: bool) -> Point {
    if horizontal_first { Point { x: b.x, y: a.y } } else { Point { x: a.x, y: b.y } }
}

/// Whether `p` lies on the L-shaped hallway from `a` to `b`.
pub open spec fn on_hall(a: Point, b: Point, horizontal_first: bool, p: Point) -> bool {
    in_rect(p, a, bend(a, b, horizontal_first)) || in_rect(p, bend(a, b, horizontal_first), b)
}

/// Every cell of the grid `g` on the hallway from `a` to `b` is a room.
pub open spec fn hall_open(g: Seq<Seq<Area>>, a: Point, b: Point, horizontal_first: bool) -> bool {
    forall|p: Point| #[trigger] on_hall(a, b, horizontal_first, p) ==> in_grid(g, p.x as int, p.y as int) && g[p.x as int][p.y as int] == Area::Room
}

/// The largest squared distance between two cells of `g`.
pub open spec fn max_sq(g: Seq<Seq<Area>>) -> int {
    let w = g.len() as int;
    let h = if g.len() > 0 { g[0].len() as int } else { 0 };
    (w - 1) * (w - 1) + (h - 1) * (h - 1)
}

/// Walking a straight piece of cells of the area `ar` from `a` to `c` stays
/// in a closed group that holds `a`.
pub proof fn lemma_walk(g: Seq<Seq<Area>>, s: Set<Point>, ar: Area, a: Point, c: Point)
    requires
        a.x == c.x || a.y == c.y,
        closed_region(g, s),
        s.contains(a),
        forall|p: Point| #[trigger] in_rect(p, a, c) ==> in_grid(g, p.x as int, p.y as int) && g[p.x as int][p.y as int] == ar,
        g.len() <= MAX_EXTENT,
        forall|k: int| 0 <= k < g.len() ==> #[trigger] g[k].len() <= MAX_EXTENT,
    ensures
        forall|p: Point| #[trigger] in_rect(p, a, c) ==> s.contains(p),
    decreases (if a.x >= c.x { a.x - c.x } else { c.x - a.x }) + (if a.y >= c.y { a.y - c.y } else { c.y - a.y }),
{
    assert(in_rect(a, a, c));
    if a == c {
        assert forall|p: Point| #[trigger] in_rect(p, a, c) implies s.contains(p) by {
            assert(p == a);
        }
    } else {
        let n = if a.x < c.x {
            pt(a.x + 1, a.y as int)
        } else if a.x > c.x {
            pt(a.x - 1, a.y as int)
        } else if a.y < c.y {
            pt(a.x as int, a.y + 1)
        } else {
            pt(a.x as int, a.y - 1)
        };
        assert(in_rect(n, a, c));
        assert(joins(g, s, a, n));
        assert(s.contains(n));
        assert forall|p: Point| #[trigger] in_rect(p, n, c) implies in_grid(g, p.x as int, p.y as int) && g[p.x as int][p.y as int] == ar by {
            assert(in_rect(p, a, c));
        }
        lemma_walk(g, s, ar, n, c);
        assert forall|p: Point| #[trigger] in_rect(p, a, c) implies s.contains(p) by {
            if p != a {
                assert(in_rect(p, n, c));
            }
        }
    }
}

/// A closed group of rooms that holds one end of an open hallway holds all of it.
pub proof fn lemma_walk_hall(g: Seq<Seq<Area>>, s: Set<Point>, a: Point, b: Point, horizontal_first: bool)
    requires
        closed_region(g, s),
        s.contains(a),
        hall_open(g, a, b, horizontal_first),
        g.len() <= MAX_EXTENT,
        forall|k: int| 0 <= k < g.len() ==> #[trigger] g[k].len() <= MAX_EXTENT,
    ensures
        forall|p: Point| #[trigger] on_hall(a, b, horizontal_first, p) ==> s.contains(p),
{
    let c = bend(a, b, horizontal_first);
    assert forall|p: Point| #[trigger] in_rect(p, a, c) implies in_grid(g, p.x as int, p.y as int) && g[p.x as int][p.y as int] == Area::Room by {
        assert(on_hall(a, b, horizontal_first, p));
    }
    lemma_walk(g, s, Area::Room, a, c);
    assert(in_rect(c, a, c));
    assert forall|p: Point| #[trigger] in_rect(p, c, b) implies in_grid(g, p.x as int, p.y as int) && g[p.x as int][p.y as int] == Area::Room by {
        assert(on_hall(a, b, horizontal_first, p));
    }
    lemma_walk(g, s, Area::Room, c, b);
    assert forall|p: Point| #[trigger] on_hall(a, b, horizontal_first, p) implies s.contains(p) by {
        if in_rect(p, a, c) {
        } else {
            assert(in_rect(p, c, b));
        }
    }
}

/// Neighbours are among the four cells that `closed_region` looks at.
proof fn lemma_adjacent_is_near(p: Point, q: Point)
    requires
        adjacent(p, q),
        0 <= p.x < MAX_EXTENT,
        0 <= p.y < MAX_EXTENT,
        0 <= q.x < MAX_EXTENT,
        0 <= q.y < MAX_EXTENT,
    ensures
        q == pt(p.x + 1, p.y as int) || q == pt(p.x - 1, p.y as int) || q == pt(p.x as int, p.y + 1) || q == pt(
            p.x as int,
            p.y - 1,
        ),
{
}

/// Going back from a cell of a linked sequence that lies in a closed group of
/// rooms, the first cell lies in it too.
proof fn lemma_chain_down(g: Seq<Seq<Area>>, s: Set<Point>, ar: Area, cells: Seq<Point>, t: int)
    requires
        0 <= t < cells.len(),
        closed_region(g, s),
        linked(cells),
        forall|k: int| 0 <= k < cells.len() ==> in_grid(g, (#[trigger] cells[k]).x as int, cells[k].y as int) && g[cells[k].x as int][cells[k].y as int] == ar,
        s.contains(cells[t]),
        g.len() <= MAX_EXTENT,
        forall|k: int| 0 <= k < g.len() ==> #[trigger] g[k].len() <= MAX_EXTENT,
    ensures
        s.contains(cells[0]),
    decreases t,
{
    if t > 0 {
        assert(has_earlier_neighbour(cells, t));
        let m = choose|m: int| 0 <= m < t && adjacent(cells[t], #[trigger] cells[m]);
        let p = cells[t];
        let q = cells[m];
        assert(g[p.x as int].len() <= MAX_EXTENT && g[q.x as int].len() <= MAX_EXTENT);
        lemma_adjacent_is_near(p, q);
        assert(joins(g, s, p, pt(p.x + 1, p.y as int)));
        assert(joins(g, s, p, pt(p.x - 1, p.y as int)));
        assert(joins(g, s, p, pt(p.x as int, p.y + 1)));
        assert(joins(g, s, p, pt(p.x as int, p.y - 1)));
        assert(s.contains(q));
        lemma_chain_down(g, s, ar, cells, m);
    }
}

/// Going forward from the first cell of a linked sequence that lies in a
/// closed group of rooms, every cell lies in it.
proof fn lemma_chain_up(g: Seq<Seq<Area>>, s: Set<Point>, ar: Area, cells: Seq<Point>, k: int)
    requires
        0 <= k < cells.len(),
        closed_region(g, s),
        linked(cells),
        forall|k: int| 0 <= k < cells.len() ==> in_grid(g, (#[trigger] cells[k]).x as int, cells[k].y as int) && g[cells[k].x as int][cells[k].y as int] == ar,
        s.contains(cells[0]),
        g.len() <= MAX_EXTENT,
        forall|k: int| 0 <= k < g.len() ==> #[trigger] g[k].len() <= MAX_EXTENT,
    ensures
        s.contains(cells[k]),
    decreases k,
{
    if k > 0 {
        assert(has_earlier_neighbour(cells, k));
        let m = choose|m: int| 0 <= m < k && adjacent(cells[k], #[trigger] cells[m]);
        lemma_chain_up(g, s, ar, cells, m);
        let p = cells[m];
        let q = cells[k];
        assert(g[p.x as int].len() <= MAX_EXTENT && g[q.x as int].len() <= MAX_EXTENT);
        lemma_adjacent_is_near(p, q);
        assert(joins(g, s, p, pt(p.x + 1, p.y as int)));
        assert(joins(g, s, p, pt(p.x - 1, p.y as int)));
        assert(joins(g, s, p, pt(p.x as int, p.y + 1)));
        assert(joins(g, s, p, pt(p.x as int, p.y - 1)));
    }
}

/// A closed group that holds one cell of a linked sequence of cells of the
/// area `ar` holds all of it.
pub proof fn lemma_chain_in(g: Seq<Seq<Area>>, s: Set<Point>, ar: Area, cells: Seq<Point>, t: int)
    requires
        0 <= t < cells.len(),
        closed_region(g, s),
        linked(cells),
        forall|k: int| 0 <= k < cells.len() ==> in_grid(g, (#[trigger] cells[k]).x as int, cells[k].y as int) && g[cells[k].x as int][cells[k].y as int] == ar,
        s.contains(cells[t]),
        g.len() <= MAX_EXTENT,
        forall|k: int| 0 <= k < g.len() ==> #[trigger] g[k].len() <= MAX_EXTENT,
    ensures
        forall|k: int| 0 <= k < cells.len() ==> s.contains(#[trigger] cells[k]),
{
    lemma_chain_down(g, s, ar, cells, t);
    assert forall|k: int| 0 <= k < cells.len() implies s.contains(#[trigger] cells[k]) by {
        lemma_chain_up(g, s, ar, cells, k);
    }
}

/// A hallway between two cells of a map of rooms and empty cells opens
/// every cell on it, changes no other cell, and places no entrance.
pub proof fn lemma_hallway_opens(g: Seq<Seq<Area>>, a: Point, b: Point, horizontal_first: bool, w: int, h: int)
    requires
        rooms_only(g),
        g.len() == w,
        forall|k: int| 0 <= k < w ==> #[trigger] g[k].len() == h,
        w <= MAX_EXTENT,
        h <= MAX_EXTENT,
        in_grid(g, a.x as int, a.y as int),
        in_grid(g, b.x as int, b.y as int),
    ensures
        hall_open(hallway_placed(g, a, b, horizontal_first), a, b, horizontal_first),
        rooms_only(hallway_placed(g, a, b, horizontal_first)),
        forall|i: int, j: int|
            in_grid(g, i, j) && !on_hall(a, b, horizontal_first, pt(i, j)) ==> #[trigger] hallway_placed(
                g,
                a,
                b,
                horizontal_first,
            )[i][j] == g[i][j],
{
    let c = bend(a, b, horizontal_first);
    let g1 = room_placed(g, a, c);
    let g2 = room_placed(g1, c, b);
    assert(g2 == hallway_placed(g, a, b, horizontal_first));
    assert forall|p: Point| #[trigger] on_hall(a, b, horizontal_first, p) implies in_grid(g2, p.x as int, p.y as int)
        && g2[p.x as int][p.y as int] == Area::Room by {
        assert(g[p.x as int].len() == h);
    }
    assert forall|i: int, j: int| in_grid(g, i, j) && !on_hall(a, b, horizontal_first, pt(i, j)) implies #[trigger] g2[i][j]
        == g[i][j] by {
        assert(pt(i, j).x == i && pt(i, j).y == j);
    }
}

/// `p` lies in one of the `rooms`.
pub open spec fn in_some(rooms: Seq<Room>, p: Point) -> bool {
    exists|i: int| 0 <= i < rooms.len() && #[trigger] rooms[i]@.contains(p)
}

/// The hallways placed in one pass of stitching, and what they did to the map.
pub open spec fn pass_done(
    g0: Seq<Seq<Area>>,
    g1: Seq<Seq<Area>>,
    rooms: Seq<Room>,
    placed: Seq<(Point, Point, bool)>,
) -> bool {
    &&& forall|k: int| 0 <= k < placed.len() ==> #[trigger] hall_open(g1, placed[k].0, placed[k].1, placed[k].2)
    &&& forall|k: int| 0 <= k < placed.len() ==> #[trigger] in_some(rooms, placed[k].0)
    &&& forall|k: int| 0 <= k < placed.len() ==> #[trigger] in_some(rooms, placed[k].1)
    &&& forall|i: int, j: int|
        in_grid(g1, i, j) && #[trigger] g1[i][j] == Area::Room ==> g0[i][j] == Area::Room || exists|k: int|
            0 <= k < placed.len() && #[trigger] on_hall(placed[k].0, placed[k].1, placed[k].2, pt(i, j))
}

/// Every pair of groups got a hallway between a cell of one and a cell of the other.
pub open spec fn all_pairs_joined(rooms: Seq<Room>, placed: Seq<(Point, Point, bool)>) -> bool {
    forall|i: int, j: int| 0 <= i < j < rooms.len() ==> #[trigger] pair_joined(rooms, placed, i, j)
}

/// A hallway runs from a cell of `rooms[i]` to a cell of `rooms[j]`.
pub open spec fn pair_joined(rooms: Seq<Room>, placed: Seq<(Point, Point, bool)>, i: int, j: int) -> bool {
    exists|k: int|
        0 <= k < placed.len() && #[trigger] rooms[i]@.contains(placed[k].0) && #[trigger] rooms[j]@.contains(placed[k].1)
}

/// A closed group of rooms that holds one cell of a linked group of rooms
/// holds the whole group.
proof fn lemma_group_in(g: Seq<Seq<Area>>, s: Set<Point>, room: Room, q: Point)
    requires
        closed_region(g, s),
        linked(room.cell_seq()),
        forall|p: Point| #[trigger] room@.contains(p) <==> room.cell_seq().contains(p),
        forall|p: Point| #[trigger] room@.contains(p) ==> in_grid(g, p.x as int, p.y as int) && g[p.x as int][p.y as int] == Area::Room,
        room@.contains(q),
        s.contains(q),
        g.len() <= MAX_EXTENT,
        forall|k: int| 0 <= k < g.len() ==> #[trigger] g[k].len() <= MAX_EXTENT,
    ensures
        forall|p: Point| #[trigger] room@.contains(p) ==> s.contains(p),
{
    let cells = room.cell_seq();
    assert forall|k: int| 0 <= k < cells.len() implies in_grid(g, (#[trigger] cells[k]).x as int, cells[k].y as int)
        && g[cells[k].x as int][cells[k].y as int] == Area::Room by {
        assert(cells.contains(cells[k]));
        assert(room@.contains(cells[k]));
    }
    assert(cells.contains(q));
    let t = choose|t: int| 0 <= t < cells.len() && cells[t] == q;
    lemma_chain_in(g, s, Area::Room, cells, t);
    assert forall|p: Point| #[trigger] room@.contains(p) implies s.contains(p) by {
        assert(cells.contains(p));
        let k = choose|k: int| 0 <= k < cells.len() && cells[k] == p;
    }
}

/// After a pass that joined every pair of connected groups of rooms with a
/// hallway, the rooms of the map form at most one group.
pub proof fn lemma_one_group(
    g0: Seq<Seq<Area>>,
    g1: Seq<Seq<Area>>,
    rooms: Seq<Room>,
    placed: Seq<(Point, Point, bool)>,
    next: Seq<Set<Point>>,
)
    requires
        rooms_only(g0),
        rooms_only(g1),
        grown(g0, g1),
        g0.len() <= MAX_EXTENT,
        forall|k: int| 0 <= k < g0.len() ==> #[trigger] g0[k].len() <= MAX_EXTENT,
        is_partition(g0, groups(rooms), false),
        forall|k: int| 0 <= k < rooms.len() ==> #[trigger] linked(rooms[k].cell_seq()),
        forall|k: int, p: Point| 0 <= k < rooms.len() ==> (#[trigger] rooms[k]@.contains(p) <==> rooms[k].cell_seq().contains(p)),
        pass_done(g0, g1, rooms, placed),
        all_pairs_joined(rooms, placed),
        is_partition(g1, next, false),
    ensures
        next.len() <= 1,
{
    if next.len() > 1 && rooms.len() == 0 {
        assert(next[0] != Set::<Point>::empty());
        let q = next[0].choose();
        if !next[0].contains(q) {
            assert(next[0] =~= Set::<Point>::empty());
        }
        assert(in_grid(g1, q.x as int, q.y as int) && kept(area_at(g1, q), false));
        assert(pt(q.x as int, q.y as int) == q);
        if placed.len() > 0 {
            assert(in_some(rooms, placed[0].0));
        }
        assert(g1[q.x as int][q.y as int] == Area::Room);
        assert(g0[q.x as int][q.y as int] == Area::Room);
        assert(crate::gridmap::all_cells(g0).contains(q));
        assert(kept(area_at(g0, q), false));
    }
    if next.len() > 1 && rooms.len() > 0 {
        let gs = groups(rooms);
        assert(gs[0] == rooms[0]@);
        assert(gs[0] != Set::<Point>::empty());
        let c0 = gs[0].choose();
        if !gs[0].contains(c0) {
            assert(gs[0] =~= Set::<Point>::empty());
        }
        // the group of the new map that holds the first old group
        assert(in_grid(g0, c0.x as int, c0.y as int));
        assert(kept(area_at(g1, c0), false));
        assert(crate::gridmap::all_cells(g1).contains(c0));
        let k0 = choose|k: int| 0 <= k < next.len() && #[trigger] next[k].contains(c0);
        let s = next[k0];
        assert(closed_region(g1, s));
        // every old group lies in it
        assert forall|i: int, p: Point| 0 <= i < rooms.len() && #[trigger] rooms[i]@.contains(p) implies in_grid(g1, p.x as int, p.y as int)
            && g1[p.x as int][p.y as int] == Area::Room by {
            assert(gs[i] == rooms[i]@);
            assert(gs[i].contains(p));
        }
        lemma_group_in(g1, s, rooms[0], c0);
        assert forall|i: int, p: Point| 0 <= i < rooms.len() && #[trigger] rooms[i]@.contains(p) implies s.contains(p) by {
            if i > 0 {
                assert(pair_joined(rooms, placed, 0, i));
                let k = choose|k: int| 0 <= k < placed.len() && #[trigger] rooms[0]@.contains(placed[k].0) && #[trigger] rooms[i]@.contains(placed[k].1);
                assert(hall_open(g1, placed[k].0, placed[k].1, placed[k].2));
                lemma_walk_hall(g1, s, placed[k].0, placed[k].1, placed[k].2);
                assert(on_hall(placed[k].0, placed[k].1, placed[k].2, placed[k].1));
                lemma_group_in(g1, s, rooms[i], placed[k].1);
            }
        }
        // every room of the new map lies in it
        assert forall|q: Point| in_grid(g1, q.x as int, q.y as int) && #[trigger] g1[q.x as int][q.y as int] == Area::Room implies s.contains(q) by {
            assert(pt(q.x as int, q.y as int) == q);
            if g0[q.x as int][q.y as int] == Area::Room {
                assert(crate::gridmap::all_cells(g0).contains(q));
                assert(kept(area_at(g0, q), false));
                let i = choose|i: int| 0 <= i < gs.len() && #[trigger] gs[i].contains(q);
                assert(gs[i] == rooms[i]@);
            } else {
                let k = choose|k: int| 0 <= k < placed.len() && #[trigger] on_hall(placed[k].0, placed[k].1, placed[k].2, pt(q.x as int, q.y as int));
                assert(in_some(rooms, placed[k].0));
                let i = choose|i: int| 0 <= i < rooms.len() && #[trigger] rooms[i]@.contains(placed[k].0);
                assert(hall_open(g1, placed[k].0, placed[k].1, placed[k].2));
                lemma_walk_hall(g1, s, placed[k].0, placed[k].1, placed[k].2);
            }
        }
        // so a second group of the new map would share a cell with it
        let k1: int = if k0 == 0 { 1 } else { 0 };
        assert(next[k1] != Set::<Point>::empty());
        let q = next[k1].choose();
        if !next[k1].contains(q) {
            assert(next[k1] =~= Set::<Point>::empty());
        }
        assert(in_grid(g1, q.x as int, q.y as int) && kept(area_at(g1, q), false));
        assert(g1[q.x as int][q.y as int] == Area::Room);
        assert(s.contains(q));
        assert(next[k0].contains(q));
    }
}

/// On a map of empty cells only, keeping the empty cells gives exactly one
/// group, which is the whole map.
pub proof fn lemma_empty_map_is_one_space(g: Seq<Seq<Area>>, gs: Seq<Set<Point>>, h: int)
    requires
        is_partition(g, gs, true),
        0 < g.len() <= MAX_EXTENT,
        0 < h <= MAX_EXTENT,
        forall|k: int| 0 <= k < g.len() ==> #[trigger] g[k].len() == h,
        forall|i: int, j: int| in_grid(g, i, j) ==> #[trigger] g[i][j] == Area::Nothing,
    ensures
        gs.len() == 1,
        gs[0] == all_cells(g),
{
    let origin = pt(0, 0);
    assert(g[0].len() == h);
    assert(all_cells(g).contains(origin));
    assert(kept(area_at(g, origin), true));
    let k0 = choose|k: int| 0 <= k < gs.len() && #[trigger] gs[k].contains(origin);
    assert forall|k: int| 0 <= k < gs.len() implies #[trigger] gs[k] == all_cells(g) by {
        let s = gs[k];
        assert(s != Set::<Point>::empty());
        let p = s.choose();
        if !s.contains(p) {
            assert(s =~= Set::<Point>::empty());
        }
        assert(closed_region(g, s));
        assert forall|q: Point| #[trigger] all_cells(g).contains(q) implies s.contains(q) by {
            let c1 = Point { x: 0, y: p.y };
            let c2 = Point { x: 0, y: q.y };
            assert(g[p.x as int].len() == h && g[q.x as int].len() == h);
            assert forall|r: Point| #[trigger] in_rect(r, p, c1) implies in_grid(g, r.x as int, r.y as int) && g[r.x as int][r.y as int] == Area::Nothing by {
                assert(g[r.x as int].len() == h);
            }
            lemma_walk(g, s, Area::Nothing, p, c1);
            assert(in_rect(c1, p, c1));
            assert forall|r: Point| #[trigger] in_rect(r, c1, c2) implies in_grid(g, r.x as int, r.y as int) && g[r.x as int][r.y as int] == Area::Nothing by {
                assert(g[r.x as int].len() == h);
            }
            lemma_walk(g, s, Area::Nothing, c1, c2);
            assert(in_rect(c2, c1, c2));
            assert forall|r: Point| #[trigger] in_rect(r, c2, q) implies in_grid(g, r.x as int, r.y as int) && g[r.x as int][r.y as int] == Area::Nothing by {
                assert(g[r.x as int].len() == h);
            }
            lemma_walk(g, s, Area::Nothing, c2, q);
            assert(in_rect(q, c2, q));
        }
        assert forall|q: Point| s.contains(q) implies #[trigger] all_cells(g).contains(q) by {
        }
        assert(s =~= all_cells(g));
    }
    if gs.len() > 1 {
        assert(gs[0].contains(origin));
        assert(gs[1].contains(origin));
    }
}

/// A cell has one group: two sets that are each a group of `p` are equal.
pub proof fn lemma_group_unique(g: Seq<Seq<Area>>, s: Set<Point>, t: Set<Point>, p: Point)
    requires
        is_group_of(g, s, p),
        is_group_of(g, t, p),
        g.len() <= MAX_EXTENT,
        forall|k: int| 0 <= k < g.len() ==> #[trigger] g[k].len() <= MAX_EXTENT,
    ensures
        s == t,
{
    lemma_group_within(g, s, t, p);
    lemma_group_within(g, t, s, p);
    assert(s =~= t);
}

/// A group of `p` lies within any other group of `p`.
proof fn lemma_group_within(g: Seq<Seq<Area>>, s: Set<Point>, t: Set<Point>, p: Point)
    requires
        is_group_of(g, s, p),
        is_group_of(g, t, p),
        g.len() <= MAX_EXTENT,
        forall|k: int| 0 <= k < g.len() ==> #[trigger] g[k].len() <= MAX_EXTENT,
    ensures
        forall|q: Point| t.contains(q) ==> s.contains(q),
{
    let cells = choose|cells: Seq<Point>| #[trigger] linked(cells) && forall|q: Point| t.contains(q) <==> cells.contains(q);
    let ar = area_at(g, p);
    assert forall|k: int| 0 <= k < cells.len() implies in_grid(g, (#[trigger] cells[k]).x as int, cells[k].y as int)
        && g[cells[k].x as int][cells[k].y as int] == ar by {
        assert(cells.contains(cells[k]));
        assert(t.contains(cells[k]));
    }
    assert(cells.contains(p));
    let i = choose|i: int| 0 <= i < cells.len() && cells[i] == p;
    lemma_chain_in(g, s, ar, cells, i);
    assert forall|q: Point| t.contains(q) implies s.contains(q) by {
        assert(cells.contains(q));
        let k = choose|k: int| 0 <= k < cells.len() && cells[k] == q;
    }
}

/// Emptying whole groups of a map leaves the group of a room cell that
/// stays what it was before.
pub proof fn lemma_group_survives(g0: Seq<Seq<Area>>, d: Set<Point>, g: Seq<Seq<Area>>, t: Set<Point>, c: Point, w: int, h: int)
    requires
        g0.len() == w,
        forall|m: int| 0 <= m < w ==> #[trigger] g0[m].len() == h,
        w <= MAX_EXTENT,
        h <= MAX_EXTENT,
        whole_groups(g0, d),
        g == cleared(g0, d),
        is_group_of(g, t, c),
        in_grid(g, c.x as int, c.y as int),
        area_at(g, c) == Area::Room,
    ensures
        is_group_of(g0, t, c),
{
    assert forall|p: Point| #[trigger] t.contains(p) implies !d.contains(p) && g0[p.x as int][p.y as int] == Area::Room by {
        assert(in_grid(g, p.x as int, p.y as int));
        assert(pt(p.x as int, p.y as int) == p);
    }
    assert forall|p: Point| #[trigger] t.contains(p) implies {
        &&& in_grid(g0, p.x as int, p.y as int)
        &&& joins(g0, t, p, pt(p.x + 1, p.y as int))
        &&& joins(g0, t, p, pt(p.x - 1, p.y as int))
        &&& joins(g0, t, p, pt(p.x as int, p.y + 1))
        &&& joins(g0, t, p, pt(p.x as int, p.y - 1))
    } by {
        assert(in_grid(g, p.x as int, p.y as int));
        lemma_neighbour_survives(g0, d, g, t, p, pt(p.x + 1, p.y as int), w, h);
        lemma_neighbour_survives(g0, d, g, t, p, pt(p.x - 1, p.y as int), w, h);
        lemma_neighbour_survives(g0, d, g, t, p, pt(p.x as int, p.y + 1), w, h);
        lemma_neighbour_survives(g0, d, g, t, p, pt(p.x as int, p.y - 1), w, h);
    }
}

proof fn lemma_neighbour_survives(g0: Seq<Seq<Area>>, d: Set<Point>, g: Seq<Seq<Area>>, t: Set<Point>, p: Point, q: Point, w: int, h: int)
    requires
        g0.len() == w,
        forall|m: int| 0 <= m < w ==> #[trigger] g0[m].len() == h,
        w <= MAX_EXTENT,
        h <= MAX_EXTENT,
        whole_groups(g0, d),
        g == cleared(g0, d),
        closed_region(g, t),
        t.contains(p),
        forall|p: Point| #[trigger] t.contains(p) ==> !d.contains(p) && g0[p.x as int][p.y as int] == Area::Room,
        q == pt(p.x + 1, p.y as int) || q == pt(p.x - 1, p.y as int) || q == pt(p.x as int, p.y + 1) || q == pt(p.x as int, p.y - 1),
    ensures
        joins(g0, t, p, q),
{
    assert(in_grid(g, p.x as int, p.y as int));
    assert(g0[p.x as int].len() == h);
    if in_grid(g0, q.x as int, q.y as int) && area_at(g0, q) == area_at(g0, p) {
        assert(g0[q.x as int].len() == h);
        assert(pt(q.x as int, q.y as int) == q);
        if d.contains(q) {
            let s = choose|s: Set<Point>| #[trigger] is_group_of(g0, s, q) && s.subset_of(d);
            assert(adjacent(q, p));
            lemma_adjacent_is_near(q, p);
            assert(joins(g0, s, q, pt(q.x + 1, q.y as int)));
            assert(joins(g0, s, q, pt(q.x - 1, q.y as int)));
            assert(joins(g0, s, q, pt(q.x as int, q.y + 1)));
            assert(joins(g0, s, q, pt(q.x as int, q.y - 1)));
            assert(s.contains(p));
        }
        assert(g[q.x as int][q.y as int] == Area::Room);
        assert(pt(p.x as int, p.y as int) == p);
        assert(joins(g, t, p, q));
    }
}

} // verus!
