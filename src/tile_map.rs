use vstd::prelude::*;
use vstd::arithmetic::div_mod::{lemma_fundamental_div_mod, lemma_mod_bound};
use crate::coordinates::{
    Coordinates, adjacent, delta_index, lemma_neighbors, neighbors, neighbors_upto, square_delta_at,
};
use crate::tile::{Tile, append_decimal, decimal};
use rand::Rng;

verus! {

/// Number of bombs in a sequence of tiles.
pub open spec fn bomb_total(tiles: Seq<Tile>) -> nat
    decreases tiles.len(),
{
    if tiles.len() == 0 {
        0
    } else {
        bomb_total(tiles.drop_last()) + if tiles.last() is Bomb {
            1nat
        } else {
            0nat
        }
    }
}

/// Replacing one tile changes the bomb total by what left and what came.
pub proof fn lemma_bomb_total_update(tiles: Seq<Tile>, i: int, t: Tile)
    requires
        0 <= i < tiles.len(),
    ensures
        bomb_total(tiles.update(i, t)) + (if tiles[i] is Bomb {
            1int
        } else {
            0int
        }) == bomb_total(tiles) + (if t is Bomb {
            1int
        } else {
            0int
        }),
    decreases tiles.len(),
{
    let u = tiles.update(i, t);
    if i == tiles.len() - 1 {
        assert(u.drop_last() =~= tiles.drop_last());
    } else {
        lemma_bomb_total_update(tiles.drop_last(), i, t);
        assert(u.drop_last() =~= tiles.drop_last().update(i, t));
    }
}

/// The tile a cell that holds no bomb shows for `n` bombs around it.
pub open spec fn tile_for_count(n: nat) -> Tile {
    if n == 0 {
        Tile::Empty
    } else {
        Tile::BombNeighbor(n as u8)
    }
}

/// Mathematical model of a tile map: a `width` x `height` grid stored row by row.
pub ghost struct TileMapView {
    pub width: nat,
    pub height: nat,
    pub bomb_count: nat,
    pub tiles: Seq<Tile>,
}

impl TileMapView {
    pub open spec fn in_grid(self, c: Coordinates) -> bool {
        c.x < self.width && c.y < self.height
    }

    /// Position of the cell `c` in the row-by-row storage.
    pub open spec fn index(self, c: Coordinates) -> int {
        c.y * self.width + c.x
    }

    /// The cell stored at position `i`.
    pub open spec fn cell(self, i: int) -> Coordinates {
        Coordinates { x: (i % (self.width as int)) as u16, y: (i / (self.width as int)) as u16 }
    }

    pub open spec fn tile(self, c: Coordinates) -> Tile {
        self.tiles[self.index(c)]
    }

    /// A bomb lies at `c`; never true off the grid.
    pub open spec fn is_bomb(self, c: Coordinates) -> bool {
        self.in_grid(c) && self.tile(c) is Bomb
    }

    /// Number of cells around `c` that hold a bomb.
    pub open spec fn bombs_around(self, c: Coordinates) -> nat {
        neighbors(c).filter(|q: Coordinates| self.is_bomb(q)).len()
    }

    /// The storage has one tile per cell and the sizes fit in `u16`.
    pub open spec fn is_grid(self) -> bool {
        &&& self.width <= u16::MAX
        &&& self.height <= u16::MAX
        &&& self.bomb_count <= u16::MAX
        &&& self.tiles.len() == self.width * self.height
    }

    /// Every cell without a bomb shows the exact number of bombs around it,
    /// `Empty` for none.
    pub open spec fn counts_consistent(self) -> bool {
        forall|c: Coordinates|
            self.in_grid(c) && !self.is_bomb(c) ==> #[trigger] self.tile(c) == tile_for_count(
                self.bombs_around(c),
            )
    }

    /// A generated map: consistent counts and exactly `bomb_count` bombs.
    pub open spec fn wf(self) -> bool {
        &&& self.is_grid()
        &&& self.counts_consistent()
        &&& bomb_total(self.tiles) == self.bomb_count
    }
}

/// Cells of the grid are stored at distinct positions inside the storage.
pub proof fn lemma_index(m: TileMapView, c: Coordinates)
    requires
        m.in_grid(c),
    ensures
        0 <= m.index(c) < m.width * m.height,
        m.index(c) == c.y * m.width + c.x,
{
    let w = m.width as int;
    let h = m.height as int;
    let x = c.x as int;
    let y = c.y as int;
    assert(0 <= y * w + x < w * h) by (nonlinear_arith)
        requires
            0 <= x < w,
            0 <= y < h,
    ;
}

/// Distinct cells of the grid have distinct positions.
pub proof fn lemma_index_injective(m: TileMapView, a: Coordinates, b: Coordinates)
    requires
        m.in_grid(a),
        m.in_grid(b),
        m.index(a) == m.index(b),
    ensures
        a == b,
{
    let w = m.width as int;
    let (ax, ay, bx, by) = (a.x as int, a.y as int, b.x as int, b.y as int);
    assert(ay == by && ax == bx) by (nonlinear_arith)
        requires
            0 <= ax < w,
            0 <= bx < w,
            0 <= ay,
            0 <= by,
            ay * w + ax == by * w + bx,
    {
        if ay < by {
            assert(ay * w + w <= by * w) by (nonlinear_arith)
                requires
                    ay < by,
                    0 <= w,
            ;
        } else if by < ay {
            assert(by * w + w <= ay * w) by (nonlinear_arith)
                requires
                    by < ay,
                    0 <= w,
            ;
        }
    }
}

/// Every storage position holds a cell of the grid.
pub proof fn lemma_cell(m: TileMapView, i: int)
    requires
        m.is_grid(),
        0 <= i < m.width * m.height,
    ensures
        m.in_grid(m.cell(i)),
        m.index(m.cell(i)) == i,
{
    let w = m.width as int;
    let h = m.height as int;
    assert(w > 0) by (nonlinear_arith)
        requires
            0 <= i < w * h,
            0 <= h,
    ;
    lemma_fundamental_div_mod(i, w);
    lemma_mod_bound(i, w);
    let q = i / w;
    let r = i % w;
    assert(0 <= q < h) by (nonlinear_arith)
        requires
            i == w * q + r,
            0 <= r < w,
            0 <= i < w * h,
    ;
    assert(m.cell(i).x == r);
    assert(m.cell(i).y == q);
    assert(q * w + r == i) by (nonlinear_arith)
        requires
            i == w * q + r,
    ;
}

/// With no bomb around `c`, no adjacent cell holds a bomb.
pub proof fn lemma_no_bomb_adjacent(m: TileMapView, c: Coordinates, q: Coordinates)
    requires
        m.bombs_around(c) == 0,
        adjacent(c, q),
    ensures
        !m.is_bomb(q),
{
    let pred = |r: Coordinates| m.is_bomb(r);
    lemma_neighbors(c);
    assert(neighbors(c).contains(q));
    let i = choose|i: int| 0 <= i < neighbors(c).len() && neighbors(c)[i] == q;
    if m.is_bomb(q) {
        neighbors(c).lemma_filter_contains(pred, i);
    }
}

/// Two maps with the same bomb cells have the same counts everywhere.
pub proof fn lemma_same_bombs_same_counts(a: TileMapView, b: TileMapView, c: Coordinates)
    requires
        forall|q: Coordinates| a.is_bomb(q) == b.is_bomb(q),
    ensures
        a.bombs_around(c) == b.bombs_around(c),
{
    let pa = |r: Coordinates| a.is_bomb(r);
    let pb = |r: Coordinates| b.is_bomb(r);
    assert(pa =~= pb);
}

/// Why a board cannot be generated from the requested options.
#[derive(Debug, Copy, Clone, Eq, PartialEq, Structural)]
pub enum BoardError {
    /// The width or the height is zero.
    EmptyMap,
    /// There are at least as many bombs as cells, so no safe cell would remain.
    TooManyBombs,
}

/// `n` dashes.
pub open spec fn dashes(n: nat) -> Seq<char> {
    Seq::new(n, |i: int| '-')
}

impl TileMapView {
    /// Glyphs of the first `k` tiles of row `y`, left to right.
    pub open spec fn row_glyphs(self, y: nat, k: nat) -> Seq<char>
        decreases k,
    {
        if k == 0 {
            seq![]
        } else {
            self.row_glyphs(y, (k - 1) as nat) + self.tile(
                Coordinates { x: (k - 1) as u16, y: y as u16 },
            ).glyph()
        }
    }

    /// Row `y` framed by bars, with its line break.
    pub open spec fn row_text(self, y: nat) -> Seq<char> {
        seq!['|'] + self.row_glyphs(y, self.width) + seq!['|', '\n']
    }

    /// The `n` top rows, top row first.
    pub open spec fn top_rows(self, n: nat) -> Seq<char>
        decreases n,
    {
        if n == 0 {
            seq![]
        } else {
            self.top_rows((n - 1) as nat) + self.row_text((self.height - n) as nat)
        }
    }

    /// Console dump: a header line, then the rows from top to bottom between
    /// two lines of dashes.
    pub open spec fn console_text(self) -> Seq<char> {
        let border = dashes(self.width + 2);
        let header = seq!['M', 'a', 'p', ' ', '('] + decimal(self.width) + seq![',', ' '] + decimal(
            self.height,
        ) + seq![')', ' ', 'w', 'i', 't', 'h', ' '] + decimal(self.bomb_count) + seq![
            ' ',
            'b',
            'o',
            'm',
            'b',
            's',
            ':',
            '\n',
        ];
        header + border + seq!['\n'] + self.top_rows(self.height) + border
    }
}

/// Every generated map holds exactly `bomb_count` bombs; no tile shows a
/// count of zero (such a tile is `Empty`); and every tile without a bomb
/// shows exactly the number of bombs around it.
pub proof fn lemma_generated_map(m: TileMapView)
    requires
        m.wf(),
    ensures
        bomb_total(m.tiles) == m.bomb_count,
        forall|c: Coordinates| m.in_grid(c) ==> #[trigger] m.tile(c) != Tile::BombNeighbor(0),
        forall|c: Coordinates|
            m.in_grid(c) && !m.is_bomb(c) ==> #[trigger] m.tile(c) == tile_for_count(
                m.bombs_around(c),
            ),
        forall|c: Coordinates|
            m.in_grid(c) && !m.is_bomb(c) ==> (#[trigger] m.tile(c) == Tile::Empty <==> m.bombs_around(
                c,
            ) == 0),
{
    assert forall|c: Coordinates| m.in_grid(c) implies #[trigger] m.tile(c) != Tile::BombNeighbor(
        0,
    ) by {
        if !m.is_bomb(c) {
            lemma_neighbors(c);
            let pred = |r: Coordinates| m.is_bomb(r);
            neighbors(c).lemma_filter_len(pred);
        }
    }
}

/// The grid of tiles of one game.
#[derive(Debug, Clone)]
pub struct TileMap {
    bomb_count: u16,
    width: u16,
    height: u16,
    map: Vec<Tile>,
}

impl View for TileMap {
    type V = TileMapView;

    closed spec fn view(&self) -> TileMapView {
        TileMapView {
            width: self.width as nat,
            height: self.height as nat,
            bomb_count: self.bomb_count as nat,
            tiles: self.map@,
        }
    }
}

impl TileMap {
    pub open spec fn wf(&self) -> bool {
        self@.wf()
    }

    /// Generate an empty map: every tile `Empty`, no bombs. A zero width or
    /// height gives a map without cells.
    pub fn empty(width: u16, height: u16) -> (r: TileMap)
        ensures
            r.wf(),
            r@.width == width,
            r@.height == height,
            r@.bomb_count == 0,
            forall|i: int| 0 <= i < r@.tiles.len() ==> r@.tiles[i] == Tile::Empty,
    {
        let w = width as usize;
        let h = height as usize;
        assert(w * h <= 65535 * 65535) by (nonlinear_arith)
            requires
                w <= 65535,
                h <= 65535,
        ;
        let cells: usize = w * h;
        let mut map: Vec<Tile> = Vec::new();
        let mut i: usize = 0;
        while i < cells
            invariant
                i <= cells,
                map@.len() == i,
                forall|j: int| 0 <= j < i ==> map@[j] == Tile::Empty,
            decreases cells - i,
        {
            map.push(Tile::Empty);
            i += 1;
        }
        let r = TileMap { bomb_count: 0, width, height, map };
        proof {
            let m = r@;
            assert(m.tiles =~= map@);
            lemma_bomb_total_none(m.tiles);
            assert forall|c: Coordinates| m.in_grid(c) && !m.is_bomb(c) implies #[trigger] m.tile(
                c,
            ) == tile_for_count(m.bombs_around(c)) by {
                lemma_index(m, c);
                assert forall|q: Coordinates| !m.is_bomb(q) by {
                    if m.in_grid(q) {
                        lemma_index(m, q);
                    }
                }
                lemma_no_bombs_no_count(m, c);
            }
        }
        r
    }

    /// Position of a grid cell in the storage.
    fn index_of(&self, c: Coordinates) -> (i: usize)
        requires
            self@.is_grid(),
            self@.in_grid(c),
        ensures
            i == self@.index(c),
            i < self@.tiles.len(),
    {
        proof {
            lemma_index(self@, c);
            let (w, h) = (self.width as int, self.height as int);
            assert(w * h <= 65535 * 65535) by (nonlinear_arith)
                requires
                    0 <= w <= 65535,
                    0 <= h <= 65535,
            ;
            assert(c.y * w <= c.y * w + c.x);
        }
        c.y as usize * self.width as usize + c.x as usize
    }

    /// Check if the tile at `coordinates` is a bomb; `false` off the grid.
    pub fn is_bomb_at(&self, coordinates: Coordinates) -> (r: bool)
        requires
            self@.is_grid(),
        ensures
            r == self@.is_bomb(coordinates),
    {
        if coordinates.x >= self.width || coordinates.y >= self.height {
            return false;
        }
        let i = self.index_of(coordinates);
        self.map[i].is_bomb()
    }

    /// Count the number of adjacent tiles that are bombs; 0 on a bomb tile.
    pub fn bomb_count_at(&self, coordinates: Coordinates) -> (r: u8)
        requires
            self@.is_grid(),
        ensures
            r == if self@.is_bomb(coordinates) {
                0
            } else {
                self@.bombs_around(coordinates)
            },
    {
        if self.is_bomb_at(coordinates) {
            return 0;
        }
        let square = self.safe_square_at(coordinates);
        let ghost m = self@;
        let ghost pred = |r: Coordinates| m.is_bomb(r);
        let ghost all = neighbors(coordinates);
        proof {
            lemma_neighbors(coordinates);
            all.lemma_filter_len(pred);
        }
        let mut count: u8 = 0;
        let mut i: usize = 0;
        while i < square.len()
            invariant
                square@ == all,
                all.len() <= 8,
                i <= square@.len(),
                count == all.take(i as int).filter(pred).len(),
                m == self@,
                m.is_grid(),
                pred == (|r: Coordinates| m.is_bomb(r)),
            decreases square@.len() - i,
        {
            proof {
                let t = all.take(i as int + 1);
                reveal(Seq::filter);
                all.take(i as int).lemma_filter_len(pred);
                assert(t.drop_last() =~= all.take(i as int));
                assert(t.last() == square@[i as int]);
                assert(t.filter(pred) == if pred(t.last()) {
                    t.drop_last().filter(pred).push(t.last())
                } else {
                    t.drop_last().filter(pred)
                });
            }
            if self.is_bomb_at(square[i]) {
                count += 1;
            }
            i += 1;
        }
        proof {
            assert(all.take(i as int) =~= all);
        }
        count
    }

    /// The up to eight neighbors of `coordinates`, in the fixed offset order.
    /// Neighbors beyond the grid's width or height are included; those that
    /// would need a negative coordinate are not.
    pub fn safe_square_at(&self, coordinates: Coordinates) -> (r: Vec<Coordinates>)
        ensures
            r@ == neighbors(coordinates),
    {
        let mut r: Vec<Coordinates> = Vec::new();
        let mut k: usize = 0;
        while k < 8
            invariant
                k <= 8,
                r@ == neighbors_upto(coordinates, k as nat),
            decreases 8 - k,
        {
            let (dx, dy) = square_delta_at(k);
            match coordinates.add_delta(dx, dy) {
                Some(q) => r.push(q),
                None => {},
            }
            k += 1;
        }
        r
    }

    /// Spawn `bomb_count` bombs and randomly place them across the map, then
    /// give every other tile the number of bombs around it.
    ///
    /// Each bomb lands on a cell drawn uniformly among those still free, which
    /// is the distribution of retrying uniform draws over the whole grid until
    /// a free cell comes up, without an unbounded number of retries.
    pub fn set_bombs(&mut self, bomb_count: u16)
        requires
            old(self).wf(),
            old(self)@.bomb_count == 0,
            bomb_count < old(self)@.width * old(self)@.height,
        ensures
            final(self).wf(),
            final(self)@.width == old(self)@.width,
            final(self)@.height == old(self)@.height,
            final(self)@.bomb_count == bomb_count,
    {
        self.bomb_count = bomb_count;
        let mut remaining: u16 = bomb_count;
        while remaining > 0
            invariant
                self@.is_grid(),
                self@.width == old(self)@.width,
                self@.height == old(self)@.height,
                self@.bomb_count == bomb_count,
                bomb_count < self@.tiles.len(),
                remaining <= bomb_count,
                bomb_total(self@.tiles) + remaining == bomb_count,
            decreases remaining,
        {
            let free: usize = self.map.len() - (bomb_count - remaining) as usize;
            let k = random_below(free);
            let i = self.nth_free_index(k);
            proof {
                lemma_bomb_total_update(self@.tiles, i as int, Tile::Bomb);
            }
            self.map.set(i, Tile::Bomb);
            remaining -= 1;
        }
        self.fill_neighbor_counts();
    }

    /// Places a bomb on every listed cell of the grid (cells off the grid and
    /// cells that already hold a bomb are passed over), then recomputes the
    /// counts of all other tiles.
    pub fn set_bombs_at(&mut self, bombs: &Vec<Coordinates>)
        requires
            old(self).wf(),
            old(self)@.bomb_count + bombs@.len() <= u16::MAX,
        ensures
            final(self).wf(),
            final(self)@.width == old(self)@.width,
            final(self)@.height == old(self)@.height,
            forall|q: Coordinates| #[trigger]
                final(self)@.is_bomb(q) == (old(self)@.is_bomb(q) || (old(self)@.in_grid(q)
                    && bombs@.contains(q))),
    {
        let mut j: usize = 0;
        while j < bombs.len()
            invariant
                self@.is_grid(),
                self@.width == old(self)@.width,
                self@.height == old(self)@.height,
                j <= bombs@.len(),
                self@.bomb_count <= old(self)@.bomb_count + j,
                old(self)@.bomb_count + bombs@.len() <= u16::MAX,
                bomb_total(self@.tiles) == self@.bomb_count,
                forall|q: Coordinates| #[trigger]
                    self@.is_bomb(q) == (old(self)@.is_bomb(q) || (old(self)@.in_grid(q)
                        && bombs@.take(j as int).contains(q))),
            decreases bombs@.len() - j,
        {
            let c = bombs[j];
            let ghost before = self@;
            if c.x < self.width && c.y < self.height && !self.is_bomb_at(c) {
                let i = self.index_of(c);
                proof {
                    lemma_bomb_total_update(self@.tiles, i as int, Tile::Bomb);
                }
                self.map.set(i, Tile::Bomb);
                self.bomb_count += 1;
                proof {
                    assert forall|q: Coordinates| #[trigger]
                        self@.is_bomb(q) == (before.is_bomb(q) || q == c) by {
                        if self@.in_grid(q) {
                            lemma_index(self@, q);
                            if self@.index(q) == i {
                                lemma_index_injective(self@, q, c);
                            }
                        }
                    }
                }
            }
            proof {
                assert(bombs@.take(j as int + 1) =~= bombs@.take(j as int).push(c));
                assert forall|q: Coordinates|
                    bombs@.take(j as int + 1).contains(q) == (bombs@.take(j as int).contains(q)
                        || q == c) by {
                    let t = bombs@.take(j as int);
                    if q == c {
                        assert(t.push(c)[t.len() as int] == c);
                    }
                    if t.push(c).contains(q) && q != c {
                        let w = choose|w: int| 0 <= w < t.len() + 1 && t.push(c)[w] == q;
                        assert(t[w] == q);
                    }
                    if t.contains(q) {
                        let w = choose|w: int| 0 <= w < t.len() && t[w] == q;
                        assert(t.push(c)[w] == q);
                    }
                }
            }
            j += 1;
        }
        proof {
            assert(bombs@.take(j as int) =~= bombs@);
        }
        self.fill_neighbor_counts();
    }

    /// Position of the `k`-th tile without a bomb, in storage order.
    fn nth_free_index(&self, k: usize) -> (i: usize)
        requires
            self@.is_grid(),
            k + bomb_total(self@.tiles) < self@.tiles.len(),
        ensures
            i < self@.tiles.len(),
            !(self@.tiles[i as int] is Bomb),
            i - bomb_total(self@.tiles.take(i as int)) == k,
    {
        let ghost tiles = self@.tiles;
        let mut i: usize = 0;
        let mut seen: usize = 0;
        while i < self.map.len()
            invariant
                tiles == self@.tiles,
                i <= tiles.len(),
                seen <= k,
                seen == i - bomb_total(tiles.take(i as int)),
            decreases tiles.len() - i,
        {
            proof {
                assert(tiles.take(i as int + 1).drop_last() =~= tiles.take(i as int));
            }
            if !self.map[i].is_bomb() {
                if seen == k {
                    return i;
                }
                seen += 1;
            }
            i += 1;
        }
        proof {
            assert(tiles.take(i as int) =~= tiles);
        }
        0
    }

    /// Gives every tile without a bomb the number of bombs around it.
    fn fill_neighbor_counts(&mut self)
        requires
            old(self)@.is_grid(),
            bomb_total(old(self)@.tiles) == old(self)@.bomb_count,
        ensures
            final(self).wf(),
            final(self)@.width == old(self)@.width,
            final(self)@.height == old(self)@.height,
            final(self)@.bomb_count == old(self)@.bomb_count,
            forall|q: Coordinates| #[trigger] final(self)@.is_bomb(q) == old(self)@.is_bomb(q),
    {
        let ghost orig = self@;
        let cells = self.map.len();
        let w = self.width as usize;
        let mut i: usize = 0;
        while i < cells
            invariant
                self@.is_grid(),
                self@.width == orig.width,
                self@.height == orig.height,
                self@.bomb_count == orig.bomb_count,
                w == orig.width,
                cells == orig.tiles.len(),
                cells == self@.tiles.len(),
                i <= cells,
                bomb_total(self@.tiles) == self@.bomb_count,
                forall|q: Coordinates| #[trigger] self@.is_bomb(q) == orig.is_bomb(q),
                forall|j: int|
                    0 <= j < i && !(#[trigger] self@.tiles[j] is Bomb) ==> self@.tiles[j]
                        == tile_for_count(orig.bombs_around(self@.cell(j))),
            decreases cells - i,
        {
            proof {
                lemma_cell(self@, i as int);
            }
            let c = Coordinates { x: (i % w) as u16, y: (i / w) as u16 };
            assert(c == self@.cell(i as int));
            if !self.map[i].is_bomb() {
                let n = self.bomb_count_at(c);
                proof {
                    lemma_same_bombs_same_counts(self@, orig, c);
                }
                let t = if n == 0 {
                    Tile::Empty
                } else {
                    Tile::BombNeighbor(n)
                };
                let ghost before = self@;
                proof {
                    lemma_bomb_total_update(self@.tiles, i as int, t);
                }
                self.map.set(i, t);
                proof {
                    assert forall|q: Coordinates| #[trigger]
                        self@.is_bomb(q) == before.is_bomb(q) by {
                        if self@.in_grid(q) {
                            lemma_index(self@, q);
                        }
                    }
                }
            }
            i += 1;
        }
        proof {
            let m = self@;
            assert forall|c: Coordinates| m.in_grid(c) && !m.is_bomb(c) implies #[trigger] m.tile(
                c,
            ) == tile_for_count(m.bombs_around(c)) by {
                lemma_index(m, c);
                let j = m.index(c);
                lemma_cell(m, j);
                lemma_index_injective(m, m.cell(j), c);
                lemma_same_bombs_same_counts(m, orig, c);
            }
        }
    }

    /// Generate a map of the given size holding `bomb_count` randomly placed
    /// bombs, rejecting sizes that leave no cell or no safe cell.
    pub fn generate(width: u16, height: u16, bomb_count: u16) -> (r: Result<TileMap, BoardError>)
        ensures
            r == Err::<TileMap, BoardError>(BoardError::EmptyMap) <==> (width == 0 || height == 0),
            r == Err::<TileMap, BoardError>(BoardError::TooManyBombs) <==> (width != 0 && height
                != 0 && bomb_count >= width * height),
            r matches Ok(m) ==> {
                &&& m.wf()
                &&& m@.width == width
                &&& m@.height == height
                &&& m@.bomb_count == bomb_count
            },
    {
        if width == 0 || height == 0 {
            return Err(BoardError::EmptyMap);
        }
        assert(width * height <= 65535 * 65535) by (nonlinear_arith)
            requires
                width <= 65535,
                height <= 65535,
        ;
        if bomb_count as u64 >= width as u64 * height as u64 {
            return Err(BoardError::TooManyBombs);
        }
        let mut map = TileMap::empty(width, height);
        map.set_bombs(bomb_count);
        Ok(map)
    }

    /// The tile at `coordinates`, `None` off the grid.
    pub fn tile_at(&self, coordinates: Coordinates) -> (r: Option<Tile>)
        requires
            self@.is_grid(),
        ensures
            r == if self@.in_grid(coordinates) {
                Some(self@.tile(coordinates))
            } else {
                None
            },
    {
        if coordinates.x >= self.width || coordinates.y >= self.height {
            return None;
        }
        let i = self.index_of(coordinates);
        Some(self.map[i])
    }

    /// The first `Empty` tile in storage order (row by row from the bottom,
    /// left to right): a cell where a game can safely start.
    pub fn safe_start(&self) -> (r: Option<Coordinates>)
        requires
            self@.is_grid(),
        ensures
            r matches Some(c) ==> {
                &&& self@.in_grid(c)
                &&& self@.tile(c) == Tile::Empty
                &&& forall|j: int| 0 <= j < self@.index(c) ==> self@.tiles[j] != Tile::Empty
            },
            r is None ==> forall|j: int|
                0 <= j < self@.tiles.len() ==> self@.tiles[j] != Tile::Empty,
    {
        let w = self.width as usize;
        let mut i: usize = 0;
        while i < self.map.len()
            invariant
                self@.is_grid(),
                w == self@.width,
                i <= self@.tiles.len(),
                forall|j: int| 0 <= j < i ==> self@.tiles[j] != Tile::Empty,
            decreases self@.tiles.len() - i,
        {
            if self.map[i] == Tile::Empty {
                proof {
                    lemma_cell(self@, i as int);
                }
                return Some(Coordinates { x: (i % w) as u16, y: (i / w) as u16 });
            }
            i += 1;
        }
        None
    }

    /// Text dump of the map for debugging: a header, then the rows from top
    /// to bottom framed by bars, between two lines of dashes.
    pub fn console_output(&self) -> (s: String)
        requires
            self@.is_grid(),
        ensures
            s@ == self@.console_text(),
    {
        let ghost m = self@;
        let mut s = String::new();
        proof {
            reveal_strlit("Map (");
            reveal_strlit(", ");
            reveal_strlit(") with ");
            reveal_strlit(" bombs:\n");
            reveal_strlit("-");
            reveal_strlit("\n");
            reveal_strlit("|");
            reveal_strlit("|\n");
        }
        s.append("Map (");
        append_decimal(&mut s, self.width);
        s.append(", ");
        append_decimal(&mut s, self.height);
        s.append(") with ");
        append_decimal(&mut s, self.bomb_count);
        s.append(" bombs:\n");
        let ghost header = s@;
        let mut line = String::new();
        let dash_count: usize = self.width as usize + 2;
        let mut d: usize = 0;
        while d < dash_count
            invariant
                d <= dash_count,
                line@ == dashes(d as nat),
            decreases dash_count - d,
        {
            proof {
                reveal_strlit("-");
            }
            line.append("-");
            d += 1;
            assert(line@ =~= dashes(d as nat));
        }
        s.append(line.as_str());
        s.append("\n");
        let ghost top = s@;
        let mut r: u16 = 0;
        while r < self.height
            invariant
                m == self@,
                m.is_grid(),
                r <= m.height,
                s@ == top + m.top_rows(r as nat),
            decreases m.height - r,
        {
            let y: u16 = self.height - 1 - r;
            let ghost before = s@;
            proof {
                reveal_strlit("|");
                reveal_strlit("|\n");
            }
            s.append("|");
            let mut x: u16 = 0;
            while x < self.width
                invariant
                    m == self@,
                    m.is_grid(),
                    y < m.height,
                    x <= m.width,
                    s@ == before + seq!['|'] + m.row_glyphs(y as nat, x as nat),
                decreases m.width - x,
            {
                let t = self.tile_at(Coordinates { x, y });
                let tile = t.unwrap();
                let text = tile.console_output();
                s.append(text.as_str());
                x += 1;
                assert(s@ =~= before + seq!['|'] + m.row_glyphs(y as nat, x as nat));
            }
            s.append("|\n");
            r += 1;
            assert(s@ =~= top + m.top_rows(r as nat));
        }
        s.append(line.as_str());
        assert(s@ =~= m.console_text());
        s
    }

    /// Getter for `width`
    pub fn width(&self) -> (r: u16)
        ensures
            r == self@.width,
    {
        self.width
    }

    /// Getter for `height`
    pub fn height(&self) -> (r: u16)
        ensures
            r == self@.height,
    {
        self.height
    }

    /// Getter for `bomb_count`
    pub fn bomb_count(&self) -> (r: u16)
        ensures
            r == self@.bomb_count,
    {
        self.bomb_count
    }
}

/// Relies on rand's `thread_rng().gen_range(0..n)`: a value drawn from the
/// half-open range `0..n`, which must not be empty.
#[verifier::external_body]
fn random_below(n: usize) -> (r: usize)
    requires
        n > 0,
    ensures
        r < n,
{
    rand::thread_rng().gen_range(0..n)
}

/// A sequence of non-bomb tiles holds no bomb.
proof fn lemma_bomb_total_none(tiles: Seq<Tile>)
    requires
        forall|i: int| 0 <= i < tiles.len() ==> !(tiles[i] is Bomb),
    ensures
        bomb_total(tiles) == 0,
    decreases tiles.len(),
{
    if tiles.len() > 0 {
        lemma_bomb_total_none(tiles.drop_last());
    }
}

/// Where no cell holds a bomb, every count is zero.
proof fn lemma_no_bombs_no_count(m: TileMapView, c: Coordinates)
    requires
        forall|q: Coordinates| !m.is_bomb(q),
    ensures
        m.bombs_around(c) == 0,
{
    let pred = |r: Coordinates| m.is_bomb(r);
    let f = neighbors(c).filter(pred);
    if f.len() > 0 {
        neighbors(c).lemma_filter_pred(pred, 0);
    }
}

} // verus!
