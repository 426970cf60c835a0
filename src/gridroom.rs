//! A group of grid indexes, such as one connected space of a map.
use vstd::prelude::*;
use vstd::std_specs::iter::IteratorSpec;

verus! {

/// A representation of a room made up of cells, by their grid indexes
///
/// The room is a set of indexes that usually form one connected shape on the
/// map. It may or may not be connected to other rooms or features.
#[derive(Debug)]
pub struct GridRoom {
    cells: Vec<(usize, usize)>,
    /// Reserved: whether the room was joined to the rest of the map.
    connected: bool,
}

/// Whether `(a, b)` is a pair at the smallest squared distance between a
/// point of `s` and a point of `t`.
pub open spec fn is_nearest_pair(s: Set<(usize, usize)>, t: Set<(usize, usize)>, a: (usize, usize), b: (usize, usize)) -> bool {
    &&& s.contains(a)
    &&& t.contains(b)
    &&& forall|p: (usize, usize), q: (usize, usize)|
        s.contains(p) && t.contains(q) ==> sq_dist_idx(a, b) <= #[trigger] sq_dist_idx(p, q)
}

/// The square of the euclidean distance between two grid indexes.
pub open spec fn sq_dist_idx(a: (usize, usize), b: (usize, usize)) -> int {
    (a.0 - b.0) * (a.0 - b.0) + (a.1 - b.1) * (a.1 - b.1)
}

/// The squared distance between two indexes, when it fits in `usize`.
fn index_distance2(a: (usize, usize), b: (usize, usize)) -> (r: usize)
    requires
        sq_dist_idx(a, b) <= usize::MAX,
    ensures
        r == sq_dist_idx(a, b),
{
    let dx: u128 = if a.0 >= b.0 { (a.0 - b.0) as u128 } else { (b.0 - a.0) as u128 };
    let dy: u128 = if a.1 >= b.1 { (a.1 - b.1) as u128 } else { (b.1 - a.1) as u128 };
    proof {
        assert(dx * dx == (a.0 - b.0) * (a.0 - b.0)) by (nonlinear_arith)
            requires dx == a.0 - b.0 || dx == b.0 - a.0;
        assert(dy * dy == (a.1 - b.1) * (a.1 - b.1)) by (nonlinear_arith)
            requires dy == a.1 - b.1 || dy == b.1 - a.1;
        assert(0 <= dx * dx && 0 <= dy * dy) by (nonlinear_arith);
    }
    let sx: u128 = dx * dx;
    let sy: u128 = dy * dy;
    (sx + sy) as usize
}

impl View for GridRoom {
    type V = Set<(usize, usize)>;

    closed spec fn view(&self) -> Set<(usize, usize)> {
        Set::new(|p: (usize, usize)| self.cells@.contains(p))
    }
}

impl GridRoom {
    /// Make a new, empty room
    pub fn new() -> (r: GridRoom)
        ensures
            r@ == Set::<(usize, usize)>::empty(),
    {
        let r = GridRoom { cells: Vec::new(), connected: false };
        assert(r@ =~= Set::<(usize, usize)>::empty());
        r
    }

    fn contains(&self, point: (usize, usize)) -> (r: bool)
        ensures
            r == self@.contains(point),
    {
        let mut i: usize = 0;
        while i < self.cells.len()
            invariant
                i <= self.cells.len(),
                forall|k: int| 0 <= k < i ==> self.cells@[k] != point,
            decreases self.cells.len() - i,
        {
            if self.cells[i].0 == point.0 && self.cells[i].1 == point.1 {
                return true;
            }
            i += 1;
        }
        false
    }

    /// Add an index to the room; the result says whether it was not there before
    pub fn add_cell(&mut self, index: &(usize, usize)) -> (r: Result<bool, String>)
        ensures
            final(self)@ == old(self)@.insert(*index),
            r matches Ok(added) && added == !old(self)@.contains(*index),
    {
        let point = *index;
        if self.contains(point) {
            assert(old(self)@.insert(point) =~= old(self)@);
            return Ok(false);
        }
        let ghost before = self.cells@;
        self.cells.push(point);
        proof {
            assert forall|p: (usize, usize)| self@.contains(p) <==> old(self)@.insert(point).contains(p) by {
                if before.contains(p) {
                    let k = choose|k: int| 0 <= k < before.len() && before[k] == p;
                    assert(self.cells@[k] == p);
                }
                if p == point {
                    assert(self.cells@[before.len() as int] == point);
                }
                if self.cells@.contains(p) && p != point {
                    let k = choose|k: int| 0 <= k < self.cells@.len() && self.cells@[k] == p;
                    assert(before[k] == p);
                }
            }
            assert(self@ =~= old(self)@.insert(point));
        }
        Ok(true)
    }

    /// Remove an index from the room; the result says whether it was there
    pub fn remove_cell(&mut self, index: &(usize, usize)) -> (r: Result<bool, String>)
        ensures
            final(self)@ == old(self)@.remove(*index),
            r matches Ok(removed) && removed == old(self)@.contains(*index),
    {
        let point = *index;
        let mut kept: Vec<(usize, usize)> = Vec::new();
        let mut found = false;
        let mut i: usize = 0;
        while i < self.cells.len()
            invariant
                i <= self.cells.len(),
                found == exists|k: int| 0 <= k < i && self.cells@[k] == point,
                forall|p: (usize, usize)| kept@.contains(p) <==> (p != point && exists|k: int|
                    0 <= k < i && self.cells@[k] == p),
            decreases self.cells.len() - i,
        {
            let c = self.cells[i];
            let ghost kept_before = kept@;
            if c.0 == point.0 && c.1 == point.1 {
                found = true;
            } else {
                kept.push(c);
            }
            proof {
                assert forall|p: (usize, usize)| kept@.contains(p) <==> (p != point && exists|k: int|
                    0 <= k < i + 1 && self.cells@[k] == p) by {
                    if p != point && exists|k: int| 0 <= k < i + 1 && self.cells@[k] == p {
                        let k = choose|k: int| 0 <= k < i + 1 && self.cells@[k] == p;
                        if k == i {
                            assert(kept@[kept@.len() - 1] == p);
                        } else {
                            assert(kept_before.contains(p));
                            let m = choose|m: int| 0 <= m < kept_before.len() && kept_before[m] == p;
                            assert(kept@[m] == p);
                        }
                    }
                    if kept@.contains(p) {
                        let m = choose|m: int| 0 <= m < kept@.len() && kept@[m] == p;
                        if m < kept_before.len() {
                            assert(kept_before[m] == p);
                            assert(kept_before.contains(p));
                        } else {
                            assert(self.cells@[i as int] == p);
                        }
                    }
                }
            }
            i += 1;
        }
        let ghost before = self@;
        self.cells = kept;
        assert(self@ =~= before.remove(point));
        Ok(found)
    }

    /// Test whether the room is empty (contains no cells)
    pub fn is_empty(&self) -> (r: bool)
        ensures
            r == (self@ == Set::<(usize, usize)>::empty()),
    {
        if self.cells.len() == 0 {
            assert(self@ =~= Set::<(usize, usize)>::empty());
            true
        } else {
            assert(self@.contains(self.cells@[0]));
            false
        }
    }

    /// Find a pair of cells, one of this room and one of the other, at the
    /// smallest distance between the two rooms.
    pub fn nearest_cells(&self, other: &GridRoom) -> (r: Result<((usize, usize), (usize, usize)), String>)
        requires
            forall|p: (usize, usize), q: (usize, usize)|
                self@.contains(p) && other@.contains(q) ==> #[trigger] sq_dist_idx(p, q) <= usize::MAX,
        ensures
            r is Ok <==> (self@ != Set::<(usize, usize)>::empty() && other@ != Set::<(usize, usize)>::empty()),
            r matches Ok((a, b)) ==> is_nearest_pair(self@, other@, a, b),
                {
        if self.is_empty() {
            return Err(("our room is empty; no nearest cells".to_string()));
        } else if other.is_empty() {
            return Err(("their room is empty; no nearest cells".to_string()));
        }
        proof {
            if self.cells.len() == 0 {
                assert(self@ =~= Set::<(usize, usize)>::empty());
            }
            if other.cells.len() == 0 {
                assert(other@ =~= Set::<(usize, usize)>::empty());
            }
        }
        assert(self@.contains(self.cells@[0]) && other@.contains(other.cells@[0]));
        let mut our_closest = self.cells[0];
        let mut their_closest = other.cells[0];
        let mut best_distance = index_distance2(our_closest, their_closest);

        let mut i: usize = 0;
        while i < self.cells.len()
            invariant
                forall|p: (usize, usize), q: (usize, usize)|
                    self@.contains(p) && other@.contains(q) ==> #[trigger] sq_dist_idx(p, q)
                        <= usize::MAX,
                i <= self.cells.len(),
                self@.contains(our_closest),
                other@.contains(their_closest),
                best_distance == sq_dist_idx(our_closest, their_closest),
                forall|k: int, l: int|
                    0 <= k < i && 0 <= l < other.cells@.len() ==> best_distance <= sq_dist_idx(
                        #[trigger] self.cells@[k],
                        #[trigger] other.cells@[l],
                    ),
            decreases self.cells.len() - i,
        {
            let our_cell = self.cells[i];
            assert(self@.contains(our_cell));
            let mut j: usize = 0;
            while j < other.cells.len()
                invariant
                    forall|p: (usize, usize), q: (usize, usize)|
                        self@.contains(p) && other@.contains(q) ==> #[trigger] sq_dist_idx(p, q)
                            <= usize::MAX,
                    i < self.cells.len(),
                    our_cell == self.cells@[i as int],
                    self@.contains(our_cell),
                    j <= other.cells.len(),
                    self@.contains(our_closest),
                    other@.contains(their_closest),
                    best_distance == sq_dist_idx(our_closest, their_closest),
                    forall|k: int, l: int|
                        0 <= k < i && 0 <= l < other.cells@.len() ==> best_distance <= sq_dist_idx(
                            #[trigger] self.cells@[k],
                            #[trigger] other.cells@[l],
                        ),
                    forall|l: int|
                        0 <= l < j ==> best_distance <= sq_dist_idx(
                            our_cell,
                            #[trigger] other.cells@[l],
                        ),
                decreases other.cells.len() - j,
            {
                let their_cell = other.cells[j];
                assert(other@.contains(their_cell));
                let this_distance = index_distance2(our_cell, their_cell);
                if this_distance <= best_distance {
                    best_distance = this_distance;
                    our_closest = our_cell;
                    their_closest = their_cell;
                }
                j += 1;
            }
            i += 1;
        }
        proof {
            assert forall|p: (usize, usize), q: (usize, usize)| self@.contains(p) && other@.contains(q) implies
                sq_dist_idx(our_closest, their_closest) <= #[trigger] sq_dist_idx(p, q) by {
                let k = choose|k: int| 0 <= k < self.cells@.len() && self.cells@[k] == p;
                let l = choose|l: int| 0 <= l < other.cells@.len() && other.cells@[l] == q;
                assert(best_distance <= sq_dist_idx(self.cells@[k], other.cells@[l]));
            }
        }
        Ok((our_closest, their_closest))
    }

    /// Iterate over the cells of the room
    pub fn iter_cells(&self) -> (r: std::slice::Iter<'_, (usize, usize)>)
        ensures
            forall|p: (usize, usize)| #[trigger] self@.contains(p) <==> r.remaining().unref().contains(p),
    {
        let r = self.cells.as_slice().iter();
        proof {
            assert(r.remaining().unref() =~= self.cells@);
        }
        r
    }
}

impl Default for GridRoom {
    fn default() -> (r: Self)
        ensures
            r@ == Set::<(usize, usize)>::empty(),
    {
        Self::new()
    }
}

} // verus!
