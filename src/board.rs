use vstd::prelude::*;

use crate::line::{
    all_double_fit, all_tiles, doubles_fit, is_tile, lemma_slide_tiles, lemma_slide_unchanged,
    merge, nonzeros, pack, pow2, slide_changes, slide_line,
};

verus! {

/// Number of cells on the board.
pub const CELLS: usize = 16;

/// The direction of a move: the side of the board the tiles slide towards.
#[derive(Clone, Copy, Debug, PartialEq, Eq, Structural)]
pub enum Direction {
    Up,
    Down,
    Left,
    Right,
}

/// The board index of the cell at position `k` of line `l`, in the traversal
/// order of direction `d`: rows walk towards their far end for `Right` and
/// `Left`, columns for `Down` and `Up`.
pub open spec fn line_cell(d: Direction, l: int, k: int) -> int {
    match d {
        Direction::Right => 4 * l + k,
        Direction::Left => 4 * l + 3 - k,
        Direction::Down => 4 * k + l,
        Direction::Up => 4 * (3 - k) + l,
    }
}

/// The line of direction `d` that holds board cell `i`.
pub open spec fn line_at(d: Direction, i: int) -> int {
    match d {
        Direction::Right | Direction::Left => i / 4,
        Direction::Down | Direction::Up => i % 4,
    }
}

/// The position of board cell `i` within its line, in the traversal order of `d`.
pub open spec fn pos_at(d: Direction, i: int) -> int {
    match d {
        Direction::Right => i % 4,
        Direction::Left => 3 - i % 4,
        Direction::Down => i / 4,
        Direction::Up => 3 - i / 4,
    }
}

/// Line `l` of the grid `g`, in the traversal order of `d`.
pub open spec fn line_of(g: Seq<i32>, d: Direction, l: int) -> Seq<i32> {
    Seq::new(4, |k: int| g[line_cell(d, l, k)])
}

/// The grid after a move in direction `d`: every line merged, then packed.
pub open spec fn moved(g: Seq<i32>, d: Direction) -> Seq<i32> {
    Seq::new(16, |i: int| slide_line(line_of(g, d, line_at(d, i)))[pos_at(d, i)])
}

/// Whether a move in direction `d` changes some line of the grid.
pub open spec fn move_changes(g: Seq<i32>, d: Direction) -> bool {
    exists|l: int| 0 <= l < 4 && #[trigger] slide_changes(line_of(g, d, l))
}

/// The number of non-empty cells of the grid.
pub open spec fn filled(g: Seq<i32>) -> nat {
    nonzeros(g).len()
}

/// The indices of the empty cells among the first `n` cells of `g`, in increasing order.
pub open spec fn empties_upto(g: Seq<i32>, n: nat) -> Seq<usize>
    decreases n,
{
    if n == 0 {
        Seq::empty()
    } else if g[n - 1] == 0 {
        empties_upto(g, (n - 1) as nat).push((n - 1) as usize)
    } else {
        empties_upto(g, (n - 1) as nat)
    }
}

/// The indices of the empty cells of `g`, in increasing order.
pub open spec fn empties(g: Seq<i32>) -> Seq<usize> {
    empties_upto(g, g.len())
}

/// The value a spawned tile takes from a random draw: 2 or 4, one for each parity.
pub open spec fn tile_of(coin: u32) -> i32 {
    if coin % 2 == 0 {
        2
    } else {
        4
    }
}

/// The grid after spawning a tile from the draws `pick` and `coin`: the
/// empty cell numbered `pick` modulo their count takes `tile_of(coin)`;
/// a grid without an empty cell stays as it is.
pub open spec fn spawned(g: Seq<i32>, pick: u32, coin: u32) -> Seq<i32> {
    let e = empties(g);
    if e.len() == 0 {
        g
    } else {
        g.update(e[pick as int % e.len() as int] as int, tile_of(coin))
    }
}

/// The grid after one turn in direction `d`: the move, then a spawn from
/// `pick` and `coin` only if the move changed the grid.
pub open spec fn played(g: Seq<i32>, d: Direction, pick: u32, coin: u32) -> Seq<i32> {
    if move_changes(g, d) {
        spawned(moved(g, d), pick, coin)
    } else {
        g
    }
}

/// A fresh board seeded from three pairs of draws: three tiles spawned, one
/// after another, on an empty grid.
pub open spec fn seeded(picks: Seq<u32>, coins: Seq<u32>) -> Seq<i32> {
    spawned(
        spawned(spawned(Seq::new(16, |i: int| 0i32), picks[0], coins[0]), picks[1], coins[1]),
        picks[2],
        coins[2],
    )
}

proof fn lemma_empties_upto(g: Seq<i32>, n: nat)
    requires
        n <= g.len() <= CELLS,
    ensures
        forall|j: int|
            0 <= j < empties_upto(g, n).len() ==> #[trigger] empties_upto(g, n)[j] < n && g[empties_upto(
                g,
                n,
            )[j] as int] == 0,
        (exists|p: int| 0 <= p < n && g[p] == 0) ==> empties_upto(g, n).len() > 0,
        empties_upto(g, n).len() <= n,
    decreases n,
{
    if n > 0 {
        lemma_empties_upto(g, (n - 1) as nat);
        let e = empties_upto(g, (n - 1) as nat);
        if g[n - 1] == 0 {
            assert forall|j: int| 0 <= j < empties_upto(g, n).len() implies #[trigger] empties_upto(
                g,
                n,
            )[j] < n && g[empties_upto(g, n)[j] as int] == 0 by {
                if j < e.len() {
                    assert(empties_upto(g, n)[j] == e[j]);
                } else {
                    assert(empties_upto(g, n)[j] == (n - 1) as usize);
                }
            }
        } else {
            if exists|p: int| 0 <= p < n && g[p] == 0 {
                let p = choose|p: int| 0 <= p < n && g[p] == 0;
                assert(p < n - 1);
            }
        }
    }
}

/// Filling one empty cell with a non-zero value adds one to the count of filled cells.
proof fn lemma_fill_one(g: Seq<i32>, p: int, v: i32)
    requires
        0 <= p < g.len(),
        g[p] == 0,
        v != 0,
    ensures
        nonzeros(g.update(p, v)).len() == nonzeros(g).len() + 1,
    decreases g.len(),
{
    let h = g.update(p, v);
    if p == 0 {
        assert(h.skip(1) =~= g.skip(1));
    } else {
        assert(h.skip(1) =~= g.skip(1).update(p - 1, v));
        lemma_fill_one(g.skip(1), p - 1, v);
    }
}

/// Spawning on a grid that has an empty cell fills exactly one more cell,
/// with a value of 2 or 4, and leaves every other cell as it was.
pub proof fn lemma_spawn_fills_one(g: Seq<i32>, pick: u32, coin: u32)
    requires
        g.len() == CELLS,
        exists|p: int| 0 <= p < g.len() && g[p] == 0,
    ensures
        filled(spawned(g, pick, coin)) == filled(g) + 1,
        exists|p: int|
            0 <= p < g.len() && g[p] == 0 && spawned(g, pick, coin) == g.update(p, tile_of(coin)),
{
    lemma_empties_upto(g, g.len());
    let e = empties(g);
    let p = e[pick as int % e.len() as int] as int;
    lemma_fill_one(g, p, tile_of(coin));
}

/// A move over a grid of tile values, each of which can double, leaves only tile values
/// on exactly 16 cells.
pub proof fn lemma_move_keeps_tiles(g: Seq<i32>, d: Direction)
    requires
        g.len() == CELLS,
        all_tiles(g),
        all_double_fit(g),
    ensures
        moved(g, d).len() == CELLS,
        all_tiles(moved(g, d)),
{
    assert forall|i: int| 0 <= i < 16 implies is_tile(#[trigger] moved(g, d)[i]) by {
        lemma_cell_line(d, i);
        let l = line_at(d, i);
        let s = line_of(g, d, l);
        assert forall|k: int| 0 <= k < 4 implies is_tile(#[trigger] s[k]) && doubles_fit(s[k]) by {
            lemma_line_cell(d, l, k);
        }
        lemma_slide_tiles(s);
    }
}

/// A spawn over a grid of tile values leaves only tile values on exactly 16 cells.
pub proof fn lemma_spawn_keeps_tiles(g: Seq<i32>, pick: u32, coin: u32)
    requires
        g.len() == CELLS,
        all_tiles(g),
    ensures
        spawned(g, pick, coin).len() == CELLS,
        all_tiles(spawned(g, pick, coin)),
{
    assert(pow2(0) == 1);
    assert(pow2(1) == 2);
    assert(pow2(2) == 4);
    assert(is_tile(tile_of(coin)));
    lemma_empties_upto(g, g.len());
}

/// A move that reports no change leaves the grid as it was, so that making
/// it again changes nothing and reports no change either.
pub proof fn lemma_unchanged_move_repeats(g: Seq<i32>, d: Direction)
    requires
        g.len() == CELLS,
    ensures
        !move_changes(g, d) ==> moved(g, d) == g && moved(moved(g, d), d) == g && !move_changes(
            moved(g, d),
            d,
        ),
{
    if !move_changes(g, d) {
        assert forall|i: int| 0 <= i < 16 implies #[trigger] moved(g, d)[i] == g[i] by {
            lemma_cell_line(d, i);
            let l = line_at(d, i);
            assert(!slide_changes(line_of(g, d, l)));
            lemma_slide_unchanged(line_of(g, d, l));
        }
        assert(moved(g, d) =~= g);
    }
}

/// A turn whose move reports no change spawns nothing and leaves the grid as
/// it was; a turn whose move changed the grid fills exactly one more cell than
/// the move left, when the move left an empty cell.
pub proof fn lemma_spawn_gating(g: Seq<i32>, d: Direction, pick: u32, coin: u32)
    requires
        g.len() == CELLS,
    ensures
        !move_changes(g, d) ==> played(g, d, pick, coin) == g && filled(played(g, d, pick, coin))
            == filled(g),
        move_changes(g, d) && (exists|p: int| 0 <= p < CELLS && moved(g, d)[p] == 0) ==> filled(
            played(g, d, pick, coin),
        ) == filled(moved(g, d)) + 1,
{
    if move_changes(g, d) && (exists|p: int| 0 <= p < CELLS && moved(g, d)[p] == 0) {
        lemma_spawn_fills_one(moved(g, d), pick, coin);
    }
}

/// A turn over a grid of tile values, each of which can double, leaves only
/// tile values on exactly 16 cells.
pub proof fn lemma_turn_keeps_tiles(g: Seq<i32>, d: Direction, pick: u32, coin: u32)
    requires
        g.len() == CELLS,
        all_tiles(g),
        all_double_fit(g),
    ensures
        played(g, d, pick, coin).len() == CELLS,
        all_tiles(played(g, d, pick, coin)),
{
    lemma_move_keeps_tiles(g, d);
    lemma_spawn_keeps_tiles(moved(g, d), pick, coin);
}

proof fn lemma_no_empty_full(g: Seq<i32>)
    requires
        forall|k: int| 0 <= k < g.len() ==> #[trigger] g[k] != 0,
    ensures
        nonzeros(g).len() == g.len(),
    decreases g.len(),
{
    if g.len() > 0 {
        assert forall|k: int| 0 <= k < g.skip(1).len() implies #[trigger] g.skip(1)[k] != 0 by {
            assert(g.skip(1)[k] == g[k + 1]);
        }
        lemma_no_empty_full(g.skip(1));
    }
}

proof fn lemma_all_empty(g: Seq<i32>)
    requires
        forall|k: int| 0 <= k < g.len() ==> #[trigger] g[k] == 0,
    ensures
        nonzeros(g).len() == 0,
    decreases g.len(),
{
    if g.len() > 0 {
        assert forall|k: int| 0 <= k < g.skip(1).len() implies #[trigger] g.skip(1)[k] == 0 by {
            assert(g.skip(1)[k] == g[k + 1]);
        }
        lemma_all_empty(g.skip(1));
    }
}

/// A grid with fewer filled cells than cells has an empty cell.
proof fn lemma_has_empty(g: Seq<i32>)
    requires
        filled(g) < g.len(),
    ensures
        exists|p: int| 0 <= p < g.len() && g[p] == 0,
{
    if !exists|p: int| 0 <= p < g.len() && g[p] == 0 {
        lemma_no_empty_full(g);
    }
}

/// A seeded grid holds exactly three filled cells, each 2 or 4, and only
/// tile values on exactly 16 cells.
pub proof fn lemma_seeded(picks: Seq<u32>, coins: Seq<u32>)
    requires
        picks.len() == 3,
        coins.len() == 3,
    ensures
        seeded(picks, coins).len() == CELLS,
        filled(seeded(picks, coins)) == 3,
        all_tiles(seeded(picks, coins)),
{
    let g0 = Seq::new(16, |i: int| 0i32);
    lemma_all_empty(g0);
    assert(is_tile(0i32));
    assert(g0[0] == 0);
    lemma_spawn_fills_one(g0, picks[0], coins[0]);
    lemma_spawn_keeps_tiles(g0, picks[0], coins[0]);
    let g1 = spawned(g0, picks[0], coins[0]);
    lemma_has_empty(g1);
    lemma_spawn_fills_one(g1, picks[1], coins[1]);
    lemma_spawn_keeps_tiles(g1, picks[1], coins[1]);
    let g2 = spawned(g1, picks[1], coins[1]);
    lemma_has_empty(g2);
    lemma_spawn_fills_one(g2, picks[2], coins[2]);
    lemma_spawn_keeps_tiles(g2, picks[2], coins[2]);
}

/// Listing the cells of a board built from 16 values gives back those values:
/// `from_tiles` keeps them as the grid, and `iterate` lists the grid.
pub proof fn lemma_round_trip(values: Seq<i32>, b: BoardState, listed: Seq<i32>)
    requires
        values.len() == CELLS,
        b.grid() == values,
        listed == b.grid(),
    ensures
        listed == values,
        listed.len() == CELLS,
{
}

proof fn lemma_line_cell(d: Direction, l: int, k: int)
    requires
        0 <= l < 4,
        0 <= k < 4,
    ensures
        0 <= line_cell(d, l, k) < 16,
        line_at(d, line_cell(d, l, k)) == l,
        pos_at(d, line_cell(d, l, k)) == k,
{
}

proof fn lemma_cell_line(d: Direction, i: int)
    requires
        0 <= i < 16,
    ensures
        0 <= line_at(d, i) < 4,
        0 <= pos_at(d, i) < 4,
        line_cell(d, line_at(d, i), pos_at(d, i)) == i,
{
}

/// The board index of position `k` of line `l` in direction `d`.
fn cell_index(d: Direction, l: usize, k: usize) -> (i: usize)
    requires
        l < 4,
        k < 4,
    ensures
        i == line_cell(d, l as int, k as int),
        i < CELLS,
{
    match d {
        Direction::Right => 4 * l + k,
        Direction::Left => 4 * l + 3 - k,
        Direction::Down => 4 * k + l,
        Direction::Up => 4 * (3 - k) + l,
    }
}

/// The error of building a board from a sequence that does not hold one value per cell.
#[derive(Clone, Copy, Debug, PartialEq, Eq, Structural)]
pub enum BoardError {
    InvalidLength,
}

/// A 4 by 4 grid of cell values, in row-major order: `0` is an empty cell.
pub struct BoardState {
    pub cells: [i32; 16],
}

impl BoardState {
    /// The cell values, in row-major order.
    pub open spec fn grid(&self) -> Seq<i32> {
        self.cells@
    }

    /// Every cell can double without overflow, so that any move can be made.
    pub open spec fn fits_doubling(&self) -> bool {
        all_double_fit(self.cells@)
    }

    /// Builds a board from 16 values in row-major order: cell `(i, j)` takes
    /// `values[4 * i + j]`. Any other length is refused.
    pub fn from_tiles(values: Vec<i32>) -> (r: Result<BoardState, BoardError>)
        ensures
            values@.len() == CELLS <==> r is Ok,
            r matches Ok(b) ==> b.grid() == values@,
            values@.len() != CELLS <==> r == Err::<BoardState, BoardError>(
                BoardError::InvalidLength,
            ),
    {
        if values.len() != CELLS {
            return Err(BoardError::InvalidLength);
        }
        let mut cells = [0i32; 16];
        let mut i: usize = 0;
        while i < CELLS
            invariant
                i <= CELLS,
                values@.len() == CELLS,
                forall|j: int| 0 <= j < i ==> #[trigger] cells@[j] == values@[j],
            decreases CELLS - i,
        {
            cells[i] = values[i];
            i = i + 1;
        }
        assert(cells@ =~= values@);
        Ok(BoardState { cells })
    }

    /// The 16 cell values in row-major order: row 0 from left to right, then row 1, and so on.
    pub fn iterate(&self) -> (r: Vec<i32>)
        ensures
            r@ == self.grid(),
    {
        let mut r: Vec<i32> = Vec::new();
        let mut i: usize = 0;
        while i < CELLS
            invariant
                i <= CELLS,
                r@ == self.cells@.subrange(0, i as int),
            decreases CELLS - i,
        {
            r.push(self.cells[i]);
            i = i + 1;
            assert(r@ =~= self.cells@.subrange(0, i as int));
        }
        assert(self.cells@.subrange(0, 16) =~= self.cells@);
        r
    }

    /// Whether every cell can double without overflow.
    pub fn can_double(&self) -> (r: bool)
        ensures
            r == self.fits_doubling(),
    {
        let mut i: usize = 0;
        while i < CELLS
            invariant
                i <= CELLS,
                forall|j: int| 0 <= j < i ==> doubles_fit(#[trigger] self.cells@[j]),
            decreases CELLS - i,
        {
            let v = self.cells[i];
            if v < -0x4000_0000 || v > 0x3fff_ffff {
                return false;
            }
            i = i + 1;
        }
        true
    }

    /// A board seeded from three pairs of draws: on an empty grid, three tiles
    /// are spawned one after another, the `k`-th from `picks[k]` and `coins[k]`.
    pub fn from_draws(picks: [u32; 3], coins: [u32; 3]) -> (b: BoardState)
        ensures
            b.grid() == seeded(picks@, coins@),
            filled(b.grid()) == 3,
            all_tiles(b.grid()),
    {
        let mut b = BoardState { cells: [0i32; 16] };
        assert(b.cells@ =~= Seq::new(16, |i: int| 0i32));
        b.spawn_at(picks[0], coins[0]);
        b.spawn_at(picks[1], coins[1]);
        b.spawn_at(picks[2], coins[2]);
        proof {
            lemma_seeded(picks@, coins@);
        }
        b
    }

    /// Spawns a tile from the draws `pick` and `coin`: the empty cell numbered
    /// `pick` modulo their count, in row-major order, takes 2 for an even `coin`
    /// and 4 for an odd one. A board without an empty cell is left as it is.
    pub fn spawn_at(&mut self, pick: u32, coin: u32)
        ensures
            final(self).grid() == spawned(old(self).grid(), pick, coin),
    {
        let ghost g = self.cells@;
        let mut empty: Vec<usize> = Vec::new();
        let mut i: usize = 0;
        while i < CELLS
            invariant
                i <= CELLS,
                self.cells@ == g,
                empty@ == empties_upto(g, i as nat),
            decreases CELLS - i,
        {
            if self.cells[i] == 0 {
                empty.push(i);
            }
            i = i + 1;
        }
        proof {
            lemma_empties_upto(g, CELLS as nat);
        }
        if empty.len() == 0 {
            return;
        }
        let n = empty.len() as u32;
        let idx = (pick % n) as usize;
        let v: i32 = if coin % 2 == 0 {
            2
        } else {
            4
        };
        let at = empty[idx];
        self.cells[at] = v;
    }

    /// Moves every line of the board in direction `d`: each line is merged,
    /// then packed, in its traversal order. Returns whether any line changed.
    pub fn slide(&mut self, d: Direction) -> (changed: bool)
        requires
            old(self).fits_doubling(),
        ensures
            final(self).grid() == moved(old(self).grid(), d),
            changed == move_changes(old(self).grid(), d),
    {
        let ghost start = self.cells@;
        let mut changed = false;
        let mut l: usize = 0;
        while l < 4
            invariant
                l <= 4,
                start.len() == CELLS,
                all_double_fit(start),
                forall|i: int|
                    0 <= i < 16 ==> #[trigger] self.cells@[i] == if line_at(d, i) < l {
                        moved(start, d)[i]
                    } else {
                        start[i]
                    },
                changed == exists|m: int| 0 <= m < l && #[trigger] slide_changes(line_of(start, d, m)),
            decreases 4 - l,
        {
            let i0 = cell_index(d, l, 0);
            let i1 = cell_index(d, l, 1);
            let i2 = cell_index(d, l, 2);
            let i3 = cell_index(d, l, 3);
            proof {
                lemma_line_cell(d, l as int, 0);
                lemma_line_cell(d, l as int, 1);
                lemma_line_cell(d, l as int, 2);
                lemma_line_cell(d, l as int, 3);
            }
            let mut line = [self.cells[i0], self.cells[i1], self.cells[i2], self.cells[i3]];
            let ghost orig = line_of(start, d, l as int);
            assert(line@ =~= orig);
            assert forall|k: int| 0 <= k < 4 implies doubles_fit(#[trigger] line@[k]) by {
                assert(line@[k] == start[line_cell(d, l as int, k)]);
            }
            let merged = merge(&mut line);
            let packed = pack(&mut line);
            assert(line@ == slide_line(orig));
            self.cells[i0] = line[0];
            self.cells[i1] = line[1];
            self.cells[i2] = line[2];
            self.cells[i3] = line[3];
            assert(slide_changes(orig) == (merged || packed));
            proof {
                if !(changed || merged || packed) {
                    assert forall|m: int| 0 <= m < l + 1 implies !#[trigger] slide_changes(
                        line_of(start, d, m),
                    ) by {
                        if m == l {
                            assert(line_of(start, d, m) == orig);
                        }
                    }
                }
            }
            changed = changed || merged || packed;
            proof {
                assert forall|i: int| 0 <= i < 16 implies #[trigger] self.cells@[i] == if line_at(
                    d,
                    i,
                ) < l + 1 {
                    moved(start, d)[i]
                } else {
                    start[i]
                } by {
                    lemma_cell_line(d, i);
                }
            }
            l = l + 1;
        }
        changed
    }
}

} // verus!
