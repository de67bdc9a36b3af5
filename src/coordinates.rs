use vstd::prelude::*;

verus! {

/// A position on the board grid.
#[derive(Debug, Default, Copy, Clone, Ord, PartialOrd, Eq, PartialEq, Hash, Structural)]
pub struct Coordinates {
    pub x: u16,
    pub y: u16,
}

/// The signed offset of the `k`-th neighbor, for `k` in `0..8`, in the order
/// bottom left, bottom, bottom right, left, right, top left, top, top right.
pub open spec fn square_delta(k: int) -> (int, int) {
    if k == 0 {
        (-1, -1)
    } else if k == 1 {
        (0, -1)
    } else if k == 2 {
        (1, -1)
    } else if k == 3 {
        (-1, 0)
    } else if k == 4 {
        (1, 0)
    } else if k == 5 {
        (-1, 1)
    } else if k == 6 {
        (0, 1)
    } else {
        (1, 1)
    }
}

/// Position of the offset `(dx, dy)` in the neighbor order of `square_delta`.
pub open spec fn delta_index(dx: int, dy: int) -> int {
    let t = (dy + 1) * 3 + (dx + 1);
    if t < 4 {
        t
    } else {
        t - 1
    }
}

/// `q` is one of the up to eight cells around `p`.
pub open spec fn adjacent(p: Coordinates, q: Coordinates) -> bool {
    &&& p != q
    &&& -1 <= q.x - p.x <= 1
    &&& -1 <= q.y - p.y <= 1
}

/// `p` shifted by `(dx, dy)`, or `None` when that leaves the range of `u16`.
pub open spec fn shifted(p: Coordinates, dx: int, dy: int) -> Option<Coordinates> {
    let x = p.x + dx;
    let y = p.y + dy;
    if 0 <= x <= u16::MAX && 0 <= y <= u16::MAX {
        Some(Coordinates { x: x as u16, y: y as u16 })
    } else {
        None
    }
}

/// The `k`-th neighbor of `p`, when it can be represented.
pub open spec fn neighbor(p: Coordinates, k: int) -> Option<Coordinates> {
    shifted(p, square_delta(k).0, square_delta(k).1)
}

/// The representable neighbors of `p` among the first `k` offsets, in offset order.
pub open spec fn neighbors_upto(p: Coordinates, k: nat) -> Seq<Coordinates>
    decreases k,
{
    if k == 0 {
        seq![]
    } else {
        let prev = neighbors_upto(p, (k - 1) as nat);
        match neighbor(p, k - 1) {
            Some(q) => prev.push(q),
            None => prev,
        }
    }
}

/// All representable neighbors of `p`, in offset order.
pub open spec fn neighbors(p: Coordinates) -> Seq<Coordinates> {
    neighbors_upto(p, 8)
}

/// The `k`-th neighbor offset is exactly the adjacent cell whose offset has index `k`.
pub proof fn lemma_neighbor_is_adjacent(p: Coordinates, q: Coordinates, k: int)
    requires
        0 <= k < 8,
    ensures
        neighbor(p, k) == Some(q) <==> (adjacent(p, q) && delta_index(q.x - p.x, q.y - p.y) == k),
{
}

/// The neighbors among the first `k` offsets are the adjacent cells whose offset index is below `k`.
pub proof fn lemma_neighbors_upto(p: Coordinates, k: nat)
    requires
        k <= 8,
    ensures
        forall|q: Coordinates| #[trigger]
            neighbors_upto(p, k).contains(q) <==> (adjacent(p, q) && delta_index(
                q.x - p.x,
                q.y - p.y,
            ) < k),
        neighbors_upto(p, k).no_duplicates(),
        neighbors_upto(p, k).len() <= k,
    decreases k,
{
    if k > 0 {
        let prev = neighbors_upto(p, (k - 1) as nat);
        lemma_neighbors_upto(p, (k - 1) as nat);
        assert forall|q: Coordinates| #[trigger]
            neighbors_upto(p, k).contains(q) <==> (adjacent(p, q) && delta_index(
                q.x - p.x,
                q.y - p.y,
            ) < k) by {
            lemma_neighbor_is_adjacent(p, q, k - 1);
            if let Some(r) = neighbor(p, k - 1) {
                assert(prev.push(r).contains(q) <==> (prev.contains(q) || q == r)) by {
                    if q == r {
                        assert(prev.push(r)[prev.len() as int] == r);
                    }
                    if prev.push(r).contains(q) && q != r {
                        let i = choose|i: int| 0 <= i < prev.len() + 1 && prev.push(r)[i] == q;
                        assert(prev[i] == q);
                    }
                    if prev.contains(q) {
                        let i = choose|i: int| 0 <= i < prev.len() && prev[i] == q;
                        assert(prev.push(r)[i] == q);
                    }
                }
            }
        }
        if let Some(r) = neighbor(p, k - 1) {
            lemma_neighbor_is_adjacent(p, r, k - 1);
            assert(!prev.contains(r));
        }
    }
}

/// The cells listed by `neighbors` are exactly the adjacent ones, each once.
pub proof fn lemma_neighbors(p: Coordinates)
    ensures
        forall|q: Coordinates| #[trigger] neighbors(p).contains(q) <==> adjacent(p, q),
        neighbors(p).no_duplicates(),
        neighbors(p).len() <= 8,
{
    lemma_neighbors_upto(p, 8);
    assert forall|q: Coordinates| #[trigger] neighbors(p).contains(q) <==> adjacent(p, q) by {
        if adjacent(p, q) {
            assert(delta_index(q.x - p.x, q.y - p.y) < 8);
        }
    }
}

impl Coordinates {
    /// Adds a signed offset to both axes. A result that would fall outside the
    /// range of `u16` (a step left of column 0 or below row 0) is `None`, so
    /// such a neighbor can never be mistaken for a cell of the grid.
    pub fn add_delta(self, dx: i8, dy: i8) -> (r: Option<Coordinates>)
        ensures
            r == shifted(self, dx as int, dy as int),
    {
        let x: i32 = self.x as i32 + dx as i32;
        let y: i32 = self.y as i32 + dy as i32;
        if 0 <= x && x <= u16::MAX as i32 && 0 <= y && y <= u16::MAX as i32 {
            Some(Coordinates { x: x as u16, y: y as u16 })
        } else {
            None
        }
    }
}

/// The `k`-th neighbor offset, as listed by `square_delta`.
pub fn square_delta_at(k: usize) -> (d: (i8, i8))
    requires
        k < 8,
    ensures
        d.0 as int == square_delta(k as int).0,
        d.1 as int == square_delta(k as int).1,
{
    match k {
        0 => (-1, -1),
        1 => (0, -1),
        2 => (1, -1),
        3 => (-1, 0),
        4 => (1, 0),
        5 => (-1, 1),
        6 => (0, 1),
        _ => (1, 1),
    }
}

} // verus!
