use vstd::prelude::*;
use crate::coordinates::{Coordinates, adjacent, lemma_neighbors, neighbors};
use crate::events::{BoardCompletedEvent, BombExplosionEvent, RevealOutcome, RevealedTile};
use crate::tile::Tile;
use crate::tile_map::{
    TileMap, TileMapView, bomb_total, lemma_cell, lemma_index, lemma_index_injective, lemma_no_bomb_adjacent,
    tile_for_count,
};

verus! {

/// Number of covered cells in a dense cover table.
pub open spec fn covered_total(cover: Seq<Option<u64>>) -> nat
    decreases cover.len(),
{
    if cover.len() == 0 {
        0
    } else {
        covered_total(cover.drop_last()) + if cover.last() is Some {
            1nat
        } else {
            0nat
        }
    }
}

/// Replacing one entry changes the covered total by what left and what came.
pub proof fn lemma_covered_total_update(cover: Seq<Option<u64>>, i: int, e: Option<u64>)
    requires
        0 <= i < cover.len(),
    ensures
        covered_total(cover.update(i, e)) + (if cover[i] is Some {
            1int
        } else {
            0int
        }) == covered_total(cover) + (if e is Some {
            1int
        } else {
            0int
        }),
    decreases cover.len(),
{
    let u = cover.update(i, e);
    if i == cover.len() - 1 {
        assert(u.drop_last() =~= cover.drop_last());
    } else {
        lemma_covered_total_update(cover.drop_last(), i, e);
        assert(u.drop_last() =~= cover.drop_last().update(i, e));
    }
}

/// No more entries are covered than there are entries.
pub proof fn lemma_covered_total_bound(cover: Seq<Option<u64>>)
    ensures
        covered_total(cover) <= cover.len(),
    decreases cover.len(),
{
    if cover.len() > 0 {
        lemma_covered_total_bound(cover.drop_last());
    }
}

/// Mathematical model of a board: the tile map, and for every cell (row by
/// row) the handle of its cover while it is covered, and its flag.
#[verifier::ext_equal]
pub ghost struct BoardView {
    pub map: TileMapView,
    pub covered: Seq<Option<u64>>,
    pub marked: Seq<bool>,
}

impl BoardView {
    pub open spec fn wf(self) -> bool {
        &&& self.map.wf()
        &&& self.covered.len() == self.map.tiles.len()
        &&& self.marked.len() == self.map.tiles.len()
    }

    /// `c` is a cell of the grid that is still hidden from the player.
    pub open spec fn is_covered(self, c: Coordinates) -> bool {
        self.map.in_grid(c) && self.covered[self.map.index(c)] is Some
    }

    /// Handle of the cover of `c`, meaningful while `c` is covered.
    pub open spec fn handle(self, c: Coordinates) -> u64 {
        match self.covered[self.map.index(c)] {
            Some(h) => h,
            None => 0,
        }
    }

    /// The player has flagged `c`.
    pub open spec fn is_marked(self, c: Coordinates) -> bool {
        self.map.in_grid(c) && self.marked[self.map.index(c)]
    }

    /// Number of covered cells.
    pub open spec fn covered_count(self) -> nat {
        covered_total(self.covered)
    }

    /// Only the bombs remain covered: the count of covered cells equals the
    /// number of bombs.
    pub open spec fn is_completed(self) -> bool {
        self.covered_count() == self.map.bomb_count
    }

    /// Handle of the cover of `c` when it may be revealed by a click: covered
    /// and not flagged.
    pub open spec fn to_uncover(self, c: Coordinates) -> Option<u64> {
        if self.is_covered(c) && !self.is_marked(c) {
            Some(self.handle(c))
        } else {
            None
        }
    }

    /// What uncovering `c` returns: its handle if it is covered.
    pub open spec fn uncover_result(self, c: Coordinates) -> Option<u64> {
        if self.is_covered(c) {
            Some(self.handle(c))
        } else {
            None
        }
    }

    /// The board after `c` is uncovered and unflagged.
    pub open spec fn uncovered(self, c: Coordinates) -> BoardView {
        if self.map.in_grid(c) {
            BoardView {
                covered: self.covered.update(self.map.index(c), None),
                marked: self.marked.update(self.map.index(c), false),
                ..self
            }
        } else {
            self
        }
    }

    /// The board after the flag of `c` is removed.
    pub open spec fn unmarked(self, c: Coordinates) -> BoardView {
        if self.map.in_grid(c) {
            BoardView { marked: self.marked.update(self.map.index(c), false), ..self }
        } else {
            self
        }
    }

    /// The board after a flag toggle on `c`: only a covered cell changes.
    pub open spec fn toggled(self, c: Coordinates) -> BoardView {
        if self.is_covered(c) {
            BoardView {
                marked: self.marked.update(self.map.index(c), !self.marked[self.map.index(c)]),
                ..self
            }
        } else {
            self
        }
    }

    /// What a flag toggle on `c` returns: the handle and the flag state before.
    pub open spec fn toggle_result(self, c: Coordinates) -> Option<(u64, bool)> {
        if self.is_covered(c) {
            Some((self.handle(c), self.is_marked(c)))
        } else {
            None
        }
    }

    /// The covered neighbors of `c`, in neighbor order.
    pub open spec fn covered_neighbors(self, c: Coordinates) -> Seq<Coordinates> {
        neighbors(c).filter(|q: Coordinates| self.is_covered(q))
    }

    /// `s` is closed under flood expansion: along with each covered `Empty`
    /// cell it holds every covered cell around that cell.
    pub open spec fn flood_closed(self, s: Set<Coordinates>) -> bool {
        forall|p: Coordinates, q: Coordinates|
            #![trigger s.contains(p), adjacent(p, q)]
            s.contains(p) && self.is_covered(p) && self.map.tile(p) == Tile::Empty && adjacent(p, q)
                && self.is_covered(q) ==> s.contains(q)
    }

    /// The cells that a flood from `c` reaches: those in every closed set that
    /// holds `c`. From a covered `Empty` cell this is the connected region of
    /// covered `Empty` cells around it together with the covered cells that
    /// border that region; from any other covered cell, the cell alone.
    pub open spec fn flood_region(self, c: Coordinates) -> Set<Coordinates> {
        Set::new(
            |p: Coordinates|
                forall|s: Set<Coordinates>| #[trigger]
                    self.flood_closed(s) && s.contains(c) ==> s.contains(p),
        )
    }

    /// The cells a click on `c` uncovers: its flood region when `c` may be
    /// uncovered, nothing otherwise.
    pub open spec fn revealed_region(self, c: Coordinates) -> Set<Coordinates> {
        if self.to_uncover(c) is Some {
            self.flood_region(c)
        } else {
            Set::empty()
        }
    }

    /// The board after every cell of `region` is uncovered and unflagged.
    pub open spec fn uncover_all(self, region: Set<Coordinates>) -> BoardView {
        BoardView {
            map: self.map,
            covered: Seq::new(
                self.covered.len(),
                |i: int|
                    if region.contains(self.map.cell(i)) {
                        None
                    } else {
                        self.covered[i]
                    },
            ),
            marked: Seq::new(
                self.marked.len(),
                |i: int|
                    if region.contains(self.map.cell(i)) {
                        false
                    } else {
                        self.marked[i]
                    },
            ),
        }
    }

    /// The board after a click on `c`.
    pub open spec fn revealed_from(self, c: Coordinates) -> BoardView {
        if self.to_uncover(c) is Some {
            self.uncover_all(self.flood_region(c))
        } else {
            self
        }
    }
}

/// `tiles` lists each cell of `region` exactly once, with the handle of its
/// cover in `v` and its content.
pub open spec fn reports_region(
    tiles: Seq<RevealedTile>,
    v: BoardView,
    region: Set<Coordinates>,
) -> bool {
    &&& forall|i: int|
        0 <= i < tiles.len() ==> {
            &&& region.contains(#[trigger] tiles[i].coordinates)
            &&& tiles[i].handle == v.handle(tiles[i].coordinates)
            &&& tiles[i].tile == v.map.tile(tiles[i].coordinates)
        }
    &&& forall|i: int, j: int|
        0 <= i < j < tiles.len() ==> tiles[i].coordinates != tiles[j].coordinates
    &&& forall|p: Coordinates|
        region.contains(p) ==> exists|i: int|
            0 <= i < tiles.len() && #[trigger] tiles[i].coordinates == p
}

/// After uncovering `region`, a grid cell is covered, flagged and has its
/// handle exactly as before unless it lies in `region`.
pub proof fn lemma_uncover_all_at(v: BoardView, region: Set<Coordinates>, q: Coordinates)
    requires
        v.wf(),
        v.map.in_grid(q),
    ensures
        v.uncover_all(region).covered[v.map.index(q)] == if region.contains(q) {
            None
        } else {
            v.covered[v.map.index(q)]
        },
        v.uncover_all(region).marked[v.map.index(q)] == if region.contains(q) {
            false
        } else {
            v.marked[v.map.index(q)]
        },
        v.uncover_all(region).is_covered(q) == (v.is_covered(q) && !region.contains(q)),
        v.uncover_all(region).is_marked(q) == (v.is_marked(q) && !region.contains(q)),
        v.uncover_all(region).is_covered(q) ==> v.uncover_all(region).handle(q) == v.handle(q),
{
    let i = v.map.index(q);
    lemma_index(v.map, q);
    lemma_cell(v.map, i);
    lemma_index_injective(v.map, v.map.cell(i), q);
}

/// Uncovering one more cell extends the uncovered region by that cell.
pub proof fn lemma_uncover_step(v: BoardView, region: Set<Coordinates>, p: Coordinates)
    requires
        v.wf(),
        v.map.in_grid(p),
    ensures
        v.uncover_all(region).uncovered(p) == v.uncover_all(region.insert(p)),
{
    let a = v.uncover_all(region).uncovered(p);
    let b = v.uncover_all(region.insert(p));
    let k = v.map.index(p);
    lemma_index(v.map, p);
    assert forall|i: int| 0 <= i < v.covered.len() implies (v.map.cell(i) == p) == (i == k) by {
        lemma_cell(v.map, i);
        if i == k {
            lemma_index_injective(v.map, v.map.cell(i), p);
        }
    }
    assert(a.covered =~= b.covered);
    assert(a.marked =~= b.marked);
    assert(a =~= b);
}

/// Uncovering nothing leaves the board as it is.
pub proof fn lemma_uncover_nothing(v: BoardView)
    ensures
        v.uncover_all(Set::empty()) == v,
{
    assert(v.uncover_all(Set::empty()) =~= v);
}

/// The covered neighbors of `c` are exactly the covered cells adjacent to it.
pub proof fn lemma_covered_neighbors(v: BoardView, c: Coordinates)
    ensures
        forall|q: Coordinates| #[trigger]
            v.covered_neighbors(c).contains(q) <==> (adjacent(c, q) && v.is_covered(q)),
{
    let pred = |q: Coordinates| v.is_covered(q);
    lemma_neighbors(c);
    assert forall|q: Coordinates| #[trigger]
        v.covered_neighbors(c).contains(q) <==> (adjacent(c, q) && v.is_covered(q)) by {
        if v.covered_neighbors(c).contains(q) {
            neighbors(c).lemma_filter_contains_rev(pred, q);
        }
        if adjacent(c, q) && v.is_covered(q) {
            assert(neighbors(c).contains(q));
            let i = choose|i: int| 0 <= i < neighbors(c).len() && neighbors(c)[i] == q;
            neighbors(c).lemma_filter_contains(pred, i);
        }
    }
}

/// Uncovering is idempotent: once `c` has been uncovered, uncovering it again
/// finds nothing to do and leaves the board unchanged.
pub proof fn lemma_uncover_twice(v: BoardView, c: Coordinates)
    requires
        v.wf(),
    ensures
        v.uncovered(c).uncover_result(c) is None,
        v.uncovered(c).uncovered(c) == v.uncovered(c),
{
    if v.map.in_grid(c) {
        lemma_index(v.map, c);
        let u = v.uncovered(c);
        assert(u.uncovered(c).covered =~= u.covered);
        assert(u.uncovered(c).marked =~= u.marked);
        assert(u.uncovered(c) =~= u);
    }
}

/// Toggling a flag twice restores the board, and a flagged tile is never
/// offered for uncovering by a click.
pub proof fn lemma_toggle_twice(v: BoardView, c: Coordinates)
    requires
        v.wf(),
    ensures
        v.toggled(c).toggled(c) == v,
        v.toggle_result(c) matches Some((h, was_marked)) ==> (v.toggled(c).is_marked(c)
            == !was_marked),
        v.is_marked(c) ==> v.to_uncover(c) is None,
        v.toggled(c).is_marked(c) ==> v.toggled(c).to_uncover(c) is None,
{
    if v.is_covered(c) {
        lemma_index(v.map, c);
        let t = v.toggled(c);
        assert(t.is_covered(c));
        assert(t.toggled(c).marked =~= v.marked);
        assert(t.toggled(c) =~= v);
    }
}

/// The flood region of a click that may uncover `c` holds `c`, holds only
/// covered cells, is closed under expansion from covered `Empty` cells, and
/// lies inside every other closed set holding `c`: it is the connected
/// region of covered `Empty` cells from `c` with its covered border, and
/// nothing beyond. From a cell that is not `Empty` (a number or a bomb) it is
/// that cell alone.
pub proof fn lemma_flood_region(v: BoardView, c: Coordinates)
    requires
        v.wf(),
        v.to_uncover(c) is Some,
    ensures
        v.flood_region(c).contains(c),
        forall|p: Coordinates| #[trigger] v.flood_region(c).contains(p) ==> v.is_covered(p),
        v.flood_closed(v.flood_region(c)),
        forall|s: Set<Coordinates>| #[trigger]
            v.flood_closed(s) && s.contains(c) ==> v.flood_region(c).subset_of(s),
        v.map.tile(c) != Tile::Empty ==> v.flood_region(c) == set![c],
{
    let r = v.flood_region(c);
    let cov = Set::new(|p: Coordinates| v.is_covered(p));
    assert(v.flood_closed(cov));
    assert forall|p: Coordinates| #[trigger] r.contains(p) implies v.is_covered(p) by {
        assert(v.flood_closed(cov) && cov.contains(c));
    }
    assert forall|p: Coordinates, q: Coordinates|
        #![trigger r.contains(p), adjacent(p, q)]
        r.contains(p) && v.is_covered(p) && v.map.tile(p) == Tile::Empty && adjacent(p, q)
            && v.is_covered(q) implies r.contains(q) by {
        assert forall|s: Set<Coordinates>| #[trigger]
            v.flood_closed(s) && s.contains(c) implies s.contains(q) by {
            assert(s.contains(p));
        }
    }
    if v.map.tile(c) != Tile::Empty {
        let one = set![c];
        assert(v.flood_closed(one));
        assert(r =~= one) by {
            assert forall|p: Coordinates| r.contains(p) implies one.contains(p) by {
                assert(v.flood_closed(one) && one.contains(c));
            }
        }
    }
}

/// Uncovering two regions in turn uncovers their union.
pub proof fn lemma_uncover_all_twice(v: BoardView, a: Set<Coordinates>, b: Set<Coordinates>)
    requires
        v.wf(),
    ensures
        v.uncover_all(a).uncover_all(b) == v.uncover_all(a.union(b)),
{
    let l = v.uncover_all(a).uncover_all(b);
    let r = v.uncover_all(a.union(b));
    assert(l.covered =~= r.covered);
    assert(l.marked =~= r.marked);
    assert(l =~= r);
}

/// A set closed under flood expansion stays closed once cells are uncovered.
proof fn lemma_closed_after_uncover(v: BoardView, a: Set<Coordinates>, s: Set<Coordinates>)
    requires
        v.wf(),
        v.flood_closed(s),
    ensures
        v.uncover_all(a).flood_closed(s),
{
    let u = v.uncover_all(a);
    assert forall|p: Coordinates, q: Coordinates|
        #![trigger s.contains(p), adjacent(p, q)]
        s.contains(p) && u.is_covered(p) && u.map.tile(p) == Tile::Empty && adjacent(p, q)
            && u.is_covered(q) implies s.contains(q) by {
        lemma_uncover_all_at(v, a, p);
        lemma_uncover_all_at(v, a, q);
    }
}

/// A click on `b` after a click on `a` uncovers, together with the first
/// click, exactly the union of what each click uncovers on the starting board.
proof fn lemma_second_click(v: BoardView, a: Coordinates, b: Coordinates)
    requires
        v.wf(),
    ensures
        v.revealed_from(a).revealed_from(b) == v.uncover_all(
            v.revealed_region(a).union(v.revealed_region(b)),
        ),
{
    let ra = v.revealed_region(a);
    let rb = v.revealed_region(b);
    let w = v.uncover_all(ra);
    if v.to_uncover(a) is None {
        assert(ra =~= Set::<Coordinates>::empty());
        lemma_uncover_nothing(v);
    } else {
        lemma_flood_region(v, a);
    }
    assert(v.revealed_from(a) == w);
    assert(w.wf());
    if v.map.in_grid(b) {
        lemma_uncover_all_at(v, ra, b);
    }
    if v.to_uncover(b) is None {
        assert(w.to_uncover(b) is None);
        assert(ra.union(rb) =~= ra);
    } else if ra.contains(b) {
        assert(w.to_uncover(b) is None);
        lemma_flood_region(v, b);
        assert(v.flood_closed(ra) && ra.contains(b));
        assert(ra.union(rb) =~= ra);
    } else {
        assert(w.to_uncover(b) is Some);
        lemma_flood_region(v, b);
        lemma_flood_region(w, b);
        let rw = w.flood_region(b);
        lemma_uncover_all_twice(v, ra, rw);
        // what the second click reaches from `b` lies in what it reaches on the starting board
        lemma_closed_after_uncover(v, ra, rb);
        assert(w.flood_closed(rb) && rb.contains(b));
        // and the two clicks together reach all of it
        let t = ra.union(rw);
        assert(v.flood_closed(t)) by {
            assert forall|p: Coordinates, q: Coordinates|
                #![trigger t.contains(p), adjacent(p, q)]
                t.contains(p) && v.is_covered(p) && v.map.tile(p) == Tile::Empty && adjacent(p, q)
                    && v.is_covered(q) implies t.contains(q) by {
                if ra.contains(p) {
                    assert(ra.contains(q));
                } else {
                    lemma_uncover_all_at(v, ra, p);
                    lemma_uncover_all_at(v, ra, q);
                    assert(w.is_covered(p));
                    if !ra.contains(q) {
                        assert(rw.contains(q));
                    }
                }
            }
        }
        assert(t.contains(b));
        assert(ra.union(rw) =~= ra.union(rb)) by {
            assert forall|p: Coordinates| rb.contains(p) implies t.contains(p) by {
                assert(v.flood_closed(t) && t.contains(b));
            }
            assert forall|p: Coordinates| rw.contains(p) implies rb.contains(p) by {
                assert(w.flood_closed(rb) && rb.contains(b));
            }
        }
    }
}

/// The board after two clicks does not depend on their order.
pub proof fn lemma_reveal_order_independent(v: BoardView, a: Coordinates, b: Coordinates)
    requires
        v.wf(),
    ensures
        v.revealed_from(a).revealed_from(b) == v.revealed_from(b).revealed_from(a),
{
    lemma_second_click(v, a, b);
    lemma_second_click(v, b, a);
    assert(v.revealed_region(a).union(v.revealed_region(b)) =~= v.revealed_region(b).union(
        v.revealed_region(a),
    ));
}

/// Number of bombs is at most the number of covered cells when every bomb is
/// covered, with equality exactly when every covered cell is a bomb.
proof fn lemma_covered_bombs(cover: Seq<Option<u64>>, tiles: Seq<Tile>)
    requires
        cover.len() == tiles.len(),
        forall|i: int| 0 <= i < tiles.len() && tiles[i] is Bomb ==> cover[i] is Some,
    ensures
        bomb_total(tiles) <= covered_total(cover),
        bomb_total(tiles) == covered_total(cover) <==> forall|i: int|
            0 <= i < cover.len() && cover[i] is Some ==> tiles[i] is Bomb,
    decreases cover.len(),
{
    if cover.len() > 0 {
        let (c2, t2) = (cover.drop_last(), tiles.drop_last());
        lemma_covered_bombs(c2, t2);
        if bomb_total(tiles) == covered_total(cover) {
            assert forall|i: int| 0 <= i < cover.len() && cover[i] is Some implies tiles[i] is Bomb by {
                if i < cover.len() - 1 {
                    assert(c2[i] == cover[i]);
                    assert(t2[i] == tiles[i]);
                }
            }
        }
        if forall|i: int| 0 <= i < cover.len() && cover[i] is Some ==> tiles[i] is Bomb {
            assert forall|i: int| 0 <= i < c2.len() && c2[i] is Some implies t2[i] is Bomb by {
                assert(cover[i] == c2[i]);
            }
        }
    }
}

/// Completion depends only on which tiles are uncovered, not on the order in
/// which they were: while every bomb is still covered, the board is complete
/// exactly when every covered tile is a bomb.
pub proof fn lemma_completed_iff_only_bombs_covered(v: BoardView)
    requires
        v.wf(),
        forall|c: Coordinates| #[trigger] v.map.is_bomb(c) ==> v.is_covered(c),
    ensures
        v.is_completed() <==> forall|c: Coordinates| #[trigger]
            v.is_covered(c) ==> v.map.is_bomb(c),
{
    let m = v.map;
    assert forall|i: int| 0 <= i < m.tiles.len() && m.tiles[i] is Bomb implies v.covered[i] is Some by {
        lemma_cell(m, i);
        assert(m.is_bomb(m.cell(i)));
    }
    lemma_covered_bombs(v.covered, m.tiles);
    if forall|c: Coordinates| #[trigger] v.is_covered(c) ==> m.is_bomb(c) {
        assert forall|i: int| 0 <= i < v.covered.len() && v.covered[i] is Some implies m.tiles[i] is Bomb by {
            lemma_cell(m, i);
            assert(v.is_covered(m.cell(i)));
        }
    }
    if v.is_completed() {
        assert forall|c: Coordinates| #[trigger] v.is_covered(c) implies m.is_bomb(c) by {
            lemma_index(m, c);
        }
    }
}

/// What a sequence holds after its last element is taken off.
proof fn lemma_contains_pop<A>(s: Seq<A>, x: A)
    requires
        s.len() > 0,
        s.contains(x),
    ensures
        x == s.last() || s.drop_last().contains(x),
{
    let i = choose|i: int| 0 <= i < s.len() && s[i] == x;
    if i < s.len() - 1 {
        assert(s.drop_last()[i] == x);
    }
}

/// What a concatenation holds.
proof fn lemma_contains_concat<A>(a: Seq<A>, b: Seq<A>, x: A)
    ensures
        (a + b).contains(x) <==> (a.contains(x) || b.contains(x)),
{
    if (a + b).contains(x) {
        let i = choose|i: int| 0 <= i < (a + b).len() && (a + b)[i] == x;
        if i < a.len() {
            assert(a[i] == x);
        } else {
            assert(b[i - a.len()] == x);
        }
    }
    if a.contains(x) {
        let i = choose|i: int| 0 <= i < a.len() && a[i] == x;
        assert((a + b)[i] == x);
    }
    if b.contains(x) {
        let i = choose|i: int| 0 <= i < b.len() && b[i] == x;
        assert((a + b)[a.len() + i] == x);
    }
}

/// The play state of one game: the tile map with, for each cell, whether it
/// is still covered (and the handle the presentation layer gave its cover)
/// and whether it is flagged.
pub struct Board {
    tile_map: TileMap,
    covered_tiles: Vec<Option<u64>>,
    covered_count: usize,
    marked_tiles: Vec<bool>,
}

impl View for Board {
    type V = BoardView;

    closed spec fn view(&self) -> BoardView {
        BoardView { map: self.tile_map@, covered: self.covered_tiles@, marked: self.marked_tiles@ }
    }
}

impl Board {
    /// The stored count of covered cells is accurate.
    pub closed spec fn count_accurate(&self) -> bool {
        self.covered_count == covered_total(self.covered_tiles@)
    }

    pub open spec fn wf(&self) -> bool {
        self@.wf() && self.count_accurate()
    }

    /// A board over `tile_map` with no cell covered or flagged yet; covers are
    /// registered with `cover_tile` as the presentation layer creates them.
    pub fn new(tile_map: TileMap) -> (r: Board)
        requires
            tile_map.wf(),
        ensures
            r.wf(),
            r@.map == tile_map@,
            forall|i: int| 0 <= i < r@.covered.len() ==> r@.covered[i] is None,
            forall|i: int| 0 <= i < r@.marked.len() ==> !r@.marked[i],
    {
        proof {
            let (w, h) = (tile_map@.width as int, tile_map@.height as int);
            assert(w * h <= 65535 * 65535) by (nonlinear_arith)
                requires
                    0 <= w <= 65535,
                    0 <= h <= 65535,
            ;
        }
        let cells = tile_map.width() as usize * tile_map.height() as usize;
        let mut covered_tiles: Vec<Option<u64>> = Vec::new();
        let mut marked_tiles: Vec<bool> = Vec::new();
        let mut i: usize = 0;
        while i < cells
            invariant
                i <= cells,
                covered_tiles@.len() == i,
                marked_tiles@.len() == i,
                forall|j: int| 0 <= j < i ==> covered_tiles@[j] is None,
                forall|j: int| 0 <= j < i ==> !marked_tiles@[j],
            decreases cells - i,
        {
            covered_tiles.push(None);
            marked_tiles.push(false);
            i += 1;
        }
        proof {
            lemma_covered_total_none(covered_tiles@);
        }
        Board { tile_map, covered_tiles, covered_count: 0, marked_tiles }
    }

    /// Registers `handle` as the cover of `coordinates`, which becomes covered.
    /// Returns `false`, changing nothing, for a cell off the grid.
    pub fn cover_tile(&mut self, coordinates: Coordinates, handle: u64) -> (r: bool)
        requires
            old(self).wf(),
        ensures
            final(self).wf(),
            r == old(self)@.map.in_grid(coordinates),
            final(self)@ == if r {
                BoardView {
                    covered: old(self)@.covered.update(
                        old(self)@.map.index(coordinates),
                        Some(handle),
                    ),
                    ..old(self)@
                }
            } else {
                old(self)@
            },
    {
        if coordinates.x >= self.tile_map.width() || coordinates.y >= self.tile_map.height() {
            return false;
        }
        let i = self.cell_index(coordinates);
        proof {
            lemma_covered_total_update(self.covered_tiles@, i as int, Some(handle));
            lemma_covered_total_bound(self.covered_tiles@.update(i as int, Some(handle)));
            self.lemma_cells_fit();
        }
        if self.covered_tiles[i].is_none() {
            self.covered_count += 1;
        }
        self.covered_tiles.set(i, Some(handle));
        true
    }

    /// Retrieve a covered tile's handle; `None` if it is uncovered or flagged.
    pub fn tile_to_uncover(&self, coords: &Coordinates) -> (r: Option<u64>)
        requires
            self.wf(),
        ensures
            r == self@.to_uncover(*coords),
    {
        if self.is_marked(coords) {
            None
        } else {
            self.covered_handle(coords)
        }
    }

    /// Attempt to uncover a tile, returning its handle; a flagged tile is
    /// unflagged on the way. `None` if the tile was not covered.
    pub fn try_uncover_tile(&mut self, coords: &Coordinates) -> (r: Option<u64>)
        requires
            old(self).wf(),
        ensures
            final(self).wf(),
            r == old(self)@.uncover_result(*coords),
            final(self)@ == old(self)@.uncovered(*coords),
    {
        if self.is_marked(coords) {
            let _ = self.unmark_tile(coords);
        }
        if coords.x >= self.tile_map.width() || coords.y >= self.tile_map.height() {
            return None;
        }
        let i = self.cell_index(*coords);
        let r = self.covered_tiles[i];
        if r.is_some() {
            proof {
                lemma_covered_total_update(self.covered_tiles@, i as int, None);
            }
            self.covered_count -= 1;
            self.covered_tiles.set(i, None);
        }
        proof {
            assert(self.covered_tiles@ =~= old(self)@.covered.update(i as int, None));
            assert(self.marked_tiles@ =~= old(self)@.marked.update(i as int, false));
        }
        r
    }

    /// Reveals from a click on `coordinates`. Nothing happens unless the tile
    /// is covered and not flagged. Otherwise the tile is uncovered; if it is
    /// `Empty`, every covered tile around it is uncovered too, and so on from
    /// each uncovered `Empty` tile, stopping at numbered tiles. Flags on
    /// uncovered tiles are removed. The board completes when the number of
    /// covered tiles reaches the number of bombs; a revealed bomb explodes.
    pub fn trigger_reveal(&mut self, coordinates: Coordinates) -> (r: RevealOutcome)
        requires
            old(self).wf(),
        ensures
            final(self).wf(),
            final(self)@ == old(self)@.revealed_from(coordinates),
            reports_region(r.revealed@, old(self)@, old(self)@.revealed_region(coordinates)),
            r.completed is Some <==> final(self)@.covered_count() <= old(self)@.map.bomb_count
                < old(self)@.covered_count(),
            r.explosion is Some <==> (old(self)@.to_uncover(coordinates) is Some
                && old(self)@.map.is_bomb(coordinates)),
    {
        let ghost v0 = self@;
        let ghost c = coordinates;
        let ghost mut region: Set<Coordinates> = Set::empty();
        let ghost mut pos: Map<Coordinates, int> = Map::empty();
        let mut queue: Vec<Coordinates> = Vec::new();
        let mut revealed: Vec<RevealedTile> = Vec::new();
        let mut completed = false;
        let mut exploded = false;
        let bomb_count = self.tile_map.bomb_count() as usize;
        let triggered = self.tile_to_uncover(&coordinates).is_some();
        if triggered {
            queue.push(coordinates);
            proof {
                assert(queue@[0] == c);
            }
        }
        proof {
            lemma_uncover_nothing(v0);
        }
        while queue.len() > 0
            invariant
                self.wf(),
                v0.wf(),
                self@.map == v0.map,
                bomb_count == v0.map.bomb_count,
                self@ == v0.uncover_all(region),
                forall|p: Coordinates| region.contains(p) ==> v0.is_covered(p),
                forall|p: Coordinates| queue@.contains(p) ==> v0.is_covered(p),
                triggered == (v0.to_uncover(c) is Some),
                !triggered ==> queue@.len() == 0 && region == Set::<Coordinates>::empty(),
                triggered ==> region.contains(c) || queue@.contains(c),
                forall|s: Set<Coordinates>, p: Coordinates|
                    #![trigger v0.flood_closed(s), s.contains(p)]
                    v0.flood_closed(s) && s.contains(c) && (region.contains(p) || queue@.contains(p))
                        ==> s.contains(p),
                forall|p: Coordinates, q: Coordinates|
                    #![trigger region.contains(p), adjacent(p, q)]
                    region.contains(p) && v0.map.tile(p) == Tile::Empty && adjacent(p, q)
                        && v0.is_covered(q) ==> region.contains(q) || queue@.contains(q),
                forall|p: Coordinates|
                    (region.contains(p) || queue@.contains(p)) && p != c ==> !v0.map.is_bomb(p),
                exploded == (region.contains(c) && v0.map.is_bomb(c)),
                self@.covered_count() <= v0.covered_count(),
                completed == (self@.covered_count() <= bomb_count < v0.covered_count()),
                forall|i: int|
                    0 <= i < revealed@.len() ==> {
                        &&& region.contains(#[trigger] revealed@[i].coordinates)
                        &&& revealed@[i].handle == v0.handle(revealed@[i].coordinates)
                        &&& revealed@[i].tile == v0.map.tile(revealed@[i].coordinates)
                    },
                forall|i: int, j: int|
                    0 <= i < j < revealed@.len() ==> revealed@[i].coordinates
                        != revealed@[j].coordinates,
                forall|p: Coordinates|
                    region.contains(p) ==> pos.contains_key(p) && 0 <= pos[p] < revealed@.len()
                        && revealed@[pos[p]].coordinates == p,
            decreases 9 * self@.covered_count() + queue@.len(),
        {
            let ghost queue_before = queue@;
            let ghost region_before = region;
            let ghost cur = self@;
            let p = queue.pop().unwrap();
            proof {
                assert(queue_before.contains(p)) by {
                    assert(queue_before[queue_before.len() - 1] == p);
                }
                assert forall|q: Coordinates| queue_before.contains(q) implies q == p
                    || queue@.contains(q) by {
                    lemma_contains_pop(queue_before, q);
                }
                assert forall|q: Coordinates| queue@.contains(q) implies queue_before.contains(
                    q,
                ) by {
                    let i = choose|i: int| 0 <= i < queue@.len() && queue@[i] == q;
                    assert(queue_before[i] == q);
                }
                assert(v0.is_covered(p));
                lemma_uncover_all_at(v0, region, p);
            }
            match self.try_uncover_tile(&p) {
                None => {
                    proof {
                        assert(region.insert(p) =~= region);
                        lemma_uncover_step(v0, region, p);
                    }
                },
                Some(h) => {
                    proof {
                        lemma_index(v0.map, p);
                        lemma_covered_total_update(cur.covered, v0.map.index(p), None);
                        lemma_uncover_step(v0, region, p);
                        region = region.insert(p);
                        pos = pos.insert(p, revealed@.len() as int);
                    }
                    let tile = self.tile_map.tile_at(p).unwrap();
                    revealed.push(RevealedTile { coordinates: p, handle: h, tile });
                    if self.covered_count == bomb_count {
                        completed = true;
                    }
                    if tile.is_bomb() {
                        exploded = true;
                    } else if tile == Tile::Empty {
                        let ghost queue_mid = queue@;
                        let mut around = self.covered_neighbor_cells(p);
                        let ghost around_cells = around@;
                        queue.append(&mut around);
                        proof {
                            let m = v0.map;
                            assert(m.tile(p) == tile_for_count(m.bombs_around(p)));
                            lemma_covered_neighbors(self@, p);
                            assert forall|q: Coordinates| #[trigger]
                                queue@.contains(q) == (queue_mid.contains(q)
                                    || around_cells.contains(q)) by {
                                lemma_contains_concat(queue_mid, around_cells, q);
                            }
                            assert forall|q: Coordinates| adjacent(p, q) && v0.is_covered(
                                q,
                            ) implies region.contains(q) || queue@.contains(q) by {
                                lemma_uncover_all_at(v0, region, q);
                            }
                            assert forall|q: Coordinates| #[trigger]
                                around_cells.contains(q) implies v0.is_covered(q)
                                && adjacent(p, q) && !m.is_bomb(q) by {
                                lemma_uncover_all_at(v0, region, q);
                                lemma_no_bomb_adjacent(m, p, q);
                            }
                        }
                    }
                },
            }
            proof {
                assert forall|q: Coordinates|
                    (region.contains(q) || queue@.contains(q)) && q != c implies !v0.map.is_bomb(
                    q,
                ) by {
                    if region_before.contains(q) || queue_before.contains(q) {
                        // carried over from before this step
                        assert(!v0.map.is_bomb(q));
                    } else {
                        // pushed as a neighbor of an uncovered `Empty` cell
                        assert(queue@.contains(q));
                        assert(!v0.map.is_bomb(q));
                    }
                }
                assert forall|s: Set<Coordinates>, q: Coordinates|
                    #![trigger v0.flood_closed(s), s.contains(q)]
                    v0.flood_closed(s) && s.contains(c) && (region.contains(q) || queue@.contains(
                        q,
                    )) implies s.contains(q) by {
                    assert(s.contains(p));
                    if !region.contains(q) && !queue_before.contains(q) {
                        assert(adjacent(p, q));
                    }
                }
            }
        }
        proof {
            if triggered {
                assert(v0.flood_closed(region));
                assert(region =~= v0.flood_region(c)) by {
                    assert forall|p: Coordinates| region.contains(p) implies v0.flood_region(
                        c,
                    ).contains(p) by {
                        assert forall|s: Set<Coordinates>| #[trigger]
                            v0.flood_closed(s) && s.contains(c) implies s.contains(p) by {}
                    }
                }
            }
            assert forall|p: Coordinates| region.contains(p) implies exists|i: int|
                0 <= i < revealed@.len() && #[trigger] revealed@[i].coordinates == p by {
                assert(revealed@[pos[p]].coordinates == p);
            }
        }
        RevealOutcome {
            revealed,
            completed: if completed {
                Some(BoardCompletedEvent)
            } else {
                None
            },
            explosion: if exploded {
                Some(BombExplosionEvent)
            } else {
                None
            },
        }
    }

    /// Toggles the flag of a covered tile, returning its handle and whether it
    /// was flagged before. `None`, changing nothing, if the tile is not covered.
    pub fn try_toggle_mark(&mut self, coords: &Coordinates) -> (r: Option<(u64, bool)>)
        requires
            old(self).wf(),
        ensures
            final(self).wf(),
            r == old(self)@.toggle_result(*coords),
            final(self)@ == old(self)@.toggled(*coords),
    {
        let handle = match self.covered_handle(coords) {
            Some(h) => h,
            None => return None,
        };
        let mark = self.is_marked(coords);
        let i = self.cell_index(*coords);
        if mark {
            let _ = self.unmark_tile(coords);
        } else {
            self.marked_tiles.set(i, true);
        }
        Some((handle, mark))
    }

    /// Handles of the covered neighbors of `coords`, in neighbor order.
    pub fn adjacent_covered_tiles(&self, coords: Coordinates) -> (r: Vec<u64>)
        requires
            self.wf(),
        ensures
            r@.len() == self@.covered_neighbors(coords).len(),
            forall|i: int|
                0 <= i < r@.len() ==> r@[i] == self@.handle(
                    #[trigger] self@.covered_neighbors(coords)[i],
                ),
    {
        let cells = self.covered_neighbor_cells(coords);
        let mut r: Vec<u64> = Vec::new();
        let mut i: usize = 0;
        while i < cells.len()
            invariant
                self.wf(),
                cells@ == self@.covered_neighbors(coords),
                i <= cells@.len(),
                r@.len() == i,
                forall|j: int| 0 <= j < i ==> r@[j] == self@.handle(cells@[j]),
            decreases cells@.len() - i,
        {
            match self.covered_handle(&cells[i]) {
                Some(h) => r.push(h),
                None => r.push(0),
            }
            i += 1;
        }
        r
    }

    /// Removes the flag of `coords`, returning `coords` if it was flagged and
    /// `None` otherwise.
    pub fn unmark_tile(&mut self, coords: &Coordinates) -> (r: Option<Coordinates>)
        requires
            old(self).wf(),
        ensures
            final(self).wf(),
            r == if old(self)@.is_marked(*coords) {
                Some(*coords)
            } else {
                None
            },
            final(self)@ == old(self)@.unmarked(*coords),
    {
        if coords.x >= self.tile_map.width() || coords.y >= self.tile_map.height() {
            return None;
        }
        let i = self.cell_index(*coords);
        let was = self.marked_tiles[i];
        self.marked_tiles.set(i, false);
        if was {
            Some(*coords)
        } else {
            None
        }
    }

    /// Is the board complete: only as many tiles covered as there are bombs.
    pub fn is_completed(&self) -> (r: bool)
        requires
            self.wf(),
        ensures
            r == self@.is_completed(),
    {
        self.tile_map.bomb_count() as usize == self.covered_count
    }

    /// Number of covered tiles.
    pub fn covered_count(&self) -> (r: usize)
        requires
            self.wf(),
        ensures
            r == self@.covered_count(),
    {
        self.covered_count
    }

    /// The tile map the board plays on.
    pub fn tile_map(&self) -> (r: &TileMap)
        ensures
            r@ == self@.map,
    {
        &self.tile_map
    }

    /// Storage position of a grid cell.
    fn cell_index(&self, c: Coordinates) -> (i: usize)
        requires
            self.wf(),
            self@.map.in_grid(c),
        ensures
            i == self@.map.index(c),
            i < self@.covered.len(),
    {
        proof {
            lemma_index(self@.map, c);
            let (w, h) = (self@.map.width as int, self@.map.height as int);
            assert(w * h <= 65535 * 65535) by (nonlinear_arith)
                requires
                    0 <= w <= 65535,
                    0 <= h <= 65535,
            ;
            assert(c.y * w <= c.y * w + c.x);
        }
        c.y as usize * self.tile_map.width() as usize + c.x as usize
    }

    /// The cells of the grid number fewer than `usize::MAX`.
    proof fn lemma_cells_fit(&self)
        requires
            self.wf(),
        ensures
            self@.covered.len() < usize::MAX,
    {
        let (w, h) = (self@.map.width as int, self@.map.height as int);
        assert(w * h <= 65535 * 65535) by (nonlinear_arith)
            requires
                0 <= w <= 65535,
                0 <= h <= 65535,
        ;
    }

    fn is_marked(&self, c: &Coordinates) -> (r: bool)
        requires
            self.wf(),
        ensures
            r == self@.is_marked(*c),
    {
        if c.x >= self.tile_map.width() || c.y >= self.tile_map.height() {
            return false;
        }
        let i = self.cell_index(*c);
        self.marked_tiles[i]
    }

    /// Handle of the cover of `c` if it is covered.
    fn covered_handle(&self, c: &Coordinates) -> (r: Option<u64>)
        requires
            self.wf(),
        ensures
            r == self@.uncover_result(*c),
    {
        if c.x >= self.tile_map.width() || c.y >= self.tile_map.height() {
            return None;
        }
        let i = self.cell_index(*c);
        self.covered_tiles[i]
    }

    /// The covered neighbors of `c`, in neighbor order.
    fn covered_neighbor_cells(&self, c: Coordinates) -> (r: Vec<Coordinates>)
        requires
            self.wf(),
        ensures
            r@ == self@.covered_neighbors(c),
            r@.len() <= 8,
    {
        let square = self.tile_map.safe_square_at(c);
        let ghost v = self@;
        let ghost pred = |q: Coordinates| v.is_covered(q);
        let ghost all = neighbors(c);
        proof {
            lemma_neighbors(c);
        }
        let mut r: Vec<Coordinates> = Vec::new();
        let mut i: usize = 0;
        while i < square.len()
            invariant
                self.wf(),
                v == self@,
                square@ == all,
                all.len() <= 8,
                i <= square@.len(),
                r@ == all.take(i as int).filter(pred),
                pred == (|q: Coordinates| v.is_covered(q)),
            decreases square@.len() - i,
        {
            proof {
                let t = all.take(i as int + 1);
                reveal(Seq::filter);
                assert(t.drop_last() =~= all.take(i as int));
                assert(t.last() == square@[i as int]);
            }
            if self.covered_handle(&square[i]).is_some() {
                r.push(square[i]);
            }
            i += 1;
        }
        proof {
            assert(all.take(i as int) =~= all);
            all.lemma_filter_len(pred);
        }
        r
    }
}

/// An empty cover table covers nothing.
proof fn lemma_covered_total_none(cover: Seq<Option<u64>>)
    requires
        forall|i: int| 0 <= i < cover.len() ==> cover[i] is None,
    ensures
        covered_total(cover) == 0,
    decreases cover.len(),
{
    if cover.len() > 0 {
        lemma_covered_total_none(cover.drop_last());
    }
}

} // verus!
