//! A group of grid coordinates, such as one connected space of a map.
use vstd::prelude::*;
use crate::error::RpgError;
use vstd::std_specs::iter::IteratorSpec;
use crate::point::{sq_dist, Point};

verus! {

/// A representation of a room made up of cells
///
/// The room is a set of points that usually form one connected shape on the
/// map. It may or may not be connected to other rooms or features.
#[derive(Debug)]
pub struct Room {
    cells: Vec<Point>,
    /// Reserved: whether the room was joined to the rest of the map.
    connected: bool,
}

/// Whether `(a, b)` is a pair at the smallest squared distance between a
/// point of `s` and a point of `t`.
pub open spec fn is_nearest_pair(s: Set<Point>, t: Set<Point>, a: Point, b: Point) -> bool {
    &&& s.contains(a)
    &&& t.contains(b)
    &&& forall|p: Point, q: Point|
        s.contains(p) && t.contains(q) ==> sq_dist(a, b) <= #[trigger] sq_dist(p, q)
}

impl View for Room {
    type V = Set<Point>;

    closed spec fn view(&self) -> Set<Point> {
        Set::new(|p: Point| self.cells@.contains(p))
    }
}

impl Room {
    /// The cells of the room, in the order in which they were added.
    pub closed spec fn cell_seq(&self) -> Seq<Point> {
        self.cells@
    }

    /// The set of cells is the set of the cells in order, and is finite.
    pub proof fn lemma_cell_seq(&self)
        ensures
            self@.finite(),
            forall|p: Point| #[trigger] self@.contains(p) <==> self.cell_seq().contains(p),
    {
        assert(self@ =~= self.cells@.to_set());
        vstd::seq_lib::seq_to_set_is_finite(self.cells@);
    }

    /// The number of entries in the list of cells.
    pub fn cell_count(&self) -> (r: usize)
        ensures
            r == self.cell_seq().len(),
    {
        self.cells.len()
    }

    /// The cell at position `k` of the list of cells.
    pub fn cell(&self, k: usize) -> (r: Point)
        requires
            k < self.cell_seq().len(),
        ensures
            r == self.cell_seq()[k as int],
    {
        self.cells[k]
    }

    /// Make a new, empty room
    pub fn new() -> (r: Room)
        ensures
            r@ == Set::<Point>::empty(),
            r.cell_seq() == Seq::<Point>::empty(),
            r.cell_seq().no_duplicates(),
    {
        let r = Room { cells: Vec::new(), connected: false };
        assert(r@ =~= Set::<Point>::empty());
        r
    }

    fn contains(&self, point: Point) -> (r: bool)
        ensures
            r == self@.contains(point),
    {
        let mut i: usize = 0;
        while i < self.cells.len()
            invariant
                i <= self.cells.len(),
                forall|k: int| 0 <= k < i ==> self.cells@[k] != point,
            decreases self.cells.len() - i,
        {
            if self.cells[i] == point {
                return true;
            }
            i += 1;
        }
        false
    }

    /// Add a point to the room; the result says whether it was not there before
    pub fn add_cell(&mut self, point: Point) -> (r: Result<bool, RpgError>)
        ensures
            final(self)@ == old(self)@.insert(point),
            r matches Ok(added) && added == !old(self)@.contains(point),
            final(self).cell_seq() == if old(self)@.contains(point) {
                old(self).cell_seq()
            } else {
                old(self).cell_seq().push(point)
            },
            old(self).cell_seq().no_duplicates() ==> final(self).cell_seq().no_duplicates(),
    {
        if self.contains(point) {
            assert(old(self)@.insert(point) =~= old(self)@);
            return Ok(false);
        }
        let ghost before = self.cells@;
        self.cells.push(point);
        proof {
            assert forall|p: Point| self@.contains(p) <==> old(self)@.insert(point).contains(p) by {
                if before.contains(p) {
                    let k = choose|k: int| 0 <= k < before.len() && before[k] == p;
                    assert(self.cells@[k] == p);
                }
                if p == point {
                    assert(self.cells@[before.len() as int] == point);
                }
                if self.cells@.contains(p) && p != point {
                    let k = choose|k: int| 0 <= k < self.cells@.len() && self.cells@[k] == p;
                    assert(before[k] == p);
                }
            }
            assert(self@ =~= old(self)@.insert(point));
        }
        Ok(true)
    }

    /// Remove a point from the room; the result says whether it was there
    pub fn remove_cell(&mut self, point: Point) -> (r: Result<bool, RpgError>)
        ensures
            final(self)@ == old(self)@.remove(point),
            r matches Ok(removed) && removed == old(self)@.contains(point),
            old(self).cell_seq().no_duplicates() ==> final(self).cell_seq().no_duplicates(),
    {
        let mut kept: Vec<Point> = Vec::new();
        let mut found = false;
        let mut i: usize = 0;
        while i < self.cells.len()
            invariant
                i <= self.cells.len(),
                found == exists|k: int| 0 <= k < i && self.cells@[k] == point,
                self.cells@.no_duplicates() ==> kept@.no_duplicates(),
                forall|p: Point| kept@.contains(p) <==> (p != point && exists|k: int|
                    0 <= k < i && self.cells@[k] == p),
            decreases self.cells.len() - i,
        {
            let c = self.cells[i];
            let ghost kept_before = kept@;
            proof {
                if self.cells@.no_duplicates() && kept_before.contains(c) && c != point {
                    let k = choose|k: int| 0 <= k < i && self.cells@[k] == c;
                    assert(self.cells@[k] == self.cells@[i as int]);
                }
            }
            if c == point {
                found = true;
            } else {
                kept.push(c);
            }
            proof {
                assert forall|p: Point| kept@.contains(p) <==> (p != point && exists|k: int|
                    0 <= k < i + 1 && self.cells@[k] == p) by {
                    if p != point && exists|k: int| 0 <= k < i + 1 && self.cells@[k] == p {
                        let k = choose|k: int| 0 <= k < i + 1 && self.cells@[k] == p;
                        if k == i {
                            assert(kept@[kept@.len() - 1] == p);
                        } else {
                            assert(kept_before.contains(p));
                            let m = choose|m: int| 0 <= m < kept_before.len() && kept_before[m] == p;
                            assert(kept@[m] == p);
                        }
                    }
                    if kept@.contains(p) {
                        let m = choose|m: int| 0 <= m < kept@.len() && kept@[m] == p;
                        if m < kept_before.len() {
                            assert(kept_before[m] == p);
                            assert(kept_before.contains(p));
                        } else {
                            assert(self.cells@[i as int] == p);
                        }
                    }
                }
            }
            i += 1;
        }
        let ghost before = self@;
        self.cells = kept;
        assert(self@ =~= before.remove(point));
        Ok(found)
    }

    /// Test whether the room is empty (contains no cells)
    pub fn is_empty(&self) -> (r: bool)
        ensures
            r == (self@ == Set::<Point>::empty()),
    {
        if self.cells.len() == 0 {
            assert(self@ =~= Set::<Point>::empty());
            true
        } else {
            assert(self@.contains(self.cells@[0]));
            false
        }
    }

    /// Find a pair of cells, one of this room and one of the other, at the
    /// smallest distance between the two rooms.
    pub fn nearest_cells(&self, other: &Room) -> (r: Result<(Point, Point), RpgError>)
        requires
            forall|p: Point, q: Point|
                self@.contains(p) && other@.contains(q) ==> #[trigger] sq_dist(p, q) <= u64::MAX,
        ensures
            r is Ok <==> (self@ != Set::<Point>::empty() && other@ != Set::<Point>::empty()),
            r matches Ok((a, b)) ==> is_nearest_pair(self@, other@, a, b),
            r matches Err(e) ==> e is Empty,
    {
        if self.is_empty() {
            return Err(RpgError::Empty("our room is empty; no nearest cells".to_string()));
        } else if other.is_empty() {
            return Err(RpgError::Empty("their room is empty; no nearest cells".to_string()));
        }
        proof {
            if self.cells.len() == 0 {
                assert(self@ =~= Set::<Point>::empty());
            }
            if other.cells.len() == 0 {
                assert(other@ =~= Set::<Point>::empty());
            }
        }
        assert(self@.contains(self.cells@[0]) && other@.contains(other.cells@[0]));
        let mut our_closest = self.cells[0];
        let mut their_closest = other.cells[0];
        let mut best_distance = our_closest.distance2(&their_closest);

        let mut i: usize = 0;
        while i < self.cells.len()
            invariant
                forall|p: Point, q: Point|
                    self@.contains(p) && other@.contains(q) ==> #[trigger] sq_dist(p, q)
                        <= u64::MAX,
                i <= self.cells.len(),
                self@.contains(our_closest),
                other@.contains(their_closest),
                best_distance == sq_dist(our_closest, their_closest),
                forall|k: int, l: int|
                    0 <= k < i && 0 <= l < other.cells@.len() ==> best_distance <= sq_dist(
                        #[trigger] self.cells@[k],
                        #[trigger] other.cells@[l],
                    ),
            decreases self.cells.len() - i,
        {
            let our_cell = self.cells[i];
            assert(self@.contains(our_cell));
            let mut j: usize = 0;
            while j < other.cells.len()
                invariant
                    forall|p: Point, q: Point|
                        self@.contains(p) && other@.contains(q) ==> #[trigger] sq_dist(p, q)
                            <= u64::MAX,
                    i < self.cells.len(),
                    our_cell == self.cells@[i as int],
                    self@.contains(our_cell),
                    j <= other.cells.len(),
                    self@.contains(our_closest),
                    other@.contains(their_closest),
                    best_distance == sq_dist(our_closest, their_closest),
                    forall|k: int, l: int|
                        0 <= k < i && 0 <= l < other.cells@.len() ==> best_distance <= sq_dist(
                            #[trigger] self.cells@[k],
                            #[trigger] other.cells@[l],
                        ),
                    forall|l: int|
                        0 <= l < j ==> best_distance <= sq_dist(
                            our_cell,
                            #[trigger] other.cells@[l],
                        ),
                decreases other.cells.len() - j,
            {
                let their_cell = other.cells[j];
                assert(other@.contains(their_cell));
                let this_distance = our_cell.distance2(&their_cell);
                if this_distance <= best_distance {
                    best_distance = this_distance;
                    our_closest = our_cell;
                    their_closest = their_cell;
                }
                j += 1;
            }
            i += 1;
        }
        proof {
            assert forall|p: Point, q: Point| self@.contains(p) && other@.contains(q) implies
                sq_dist(our_closest, their_closest) <= #[trigger] sq_dist(p, q) by {
                let k = choose|k: int| 0 <= k < self.cells@.len() && self.cells@[k] == p;
                let l = choose|l: int| 0 <= l < other.cells@.len() && other.cells@[l] == q;
                assert(best_distance <= sq_dist(self.cells@[k], other.cells@[l]));
            }
        }
        Ok((our_closest, their_closest))
    }

    /// Iterate over the cells of the room
    pub fn iter_cells(&self) -> (r: std::slice::Iter<'_, Point>)
        ensures
            r.remaining().unref() == self.cell_seq(),
            forall|p: Point| #[trigger] self@.contains(p) <==> r.remaining().unref().contains(p),
    {
        let r = self.cells.as_slice().iter();
        proof {
            assert(r.remaining().unref() =~= self.cells@);
        }
        r
    }
}

impl Default for Room {
    fn default() -> (r: Self)
        ensures
            r@ == Set::<Point>::empty(),
    {
        Self::new()
    }
}

} // verus!
