use vstd::prelude::*;

use crate::board::{
    filled, lemma_seeded, lemma_unchanged_move_repeats, move_changes, moved, played, seeded,
    spawned, BoardState, Direction,
};
use crate::line::{all_double_fit, all_tiles};
use crate::random::draw;

verus! {

/// The moves of a game board, and the spawning of a tile after one.
pub trait Playable {
    /// The cell values, in row-major order.
    spec fn tiles(&self) -> Seq<i32>;

    /// Places a tile of value 2 or 4 on an empty cell chosen at random.
    /// A board without an empty cell is left as it is.
    fn generate_tile(&mut self)
        ensures
            exists|pick: u32, coin: u32|
                final(self).tiles() == spawned(old(self).tiles(), pick, coin),
    ;

    /// Slides every row towards its right end. Returns whether the board changed.
    fn move_right(&mut self) -> (changed: bool)
        requires
            all_double_fit(old(self).tiles()),
        ensures
            final(self).tiles() == moved(old(self).tiles(), Direction::Right),
            changed == move_changes(old(self).tiles(), Direction::Right),
    ;

    /// Slides every row towards its left end. Returns whether the board changed.
    fn move_left(&mut self) -> (changed: bool)
        requires
            all_double_fit(old(self).tiles()),
        ensures
            final(self).tiles() == moved(old(self).tiles(), Direction::Left),
            changed == move_changes(old(self).tiles(), Direction::Left),
    ;

    /// Slides every column towards its top end. Returns whether the board changed.
    fn move_up(&mut self) -> (changed: bool)
        requires
            all_double_fit(old(self).tiles()),
        ensures
            final(self).tiles() == moved(old(self).tiles(), Direction::Up),
            changed == move_changes(old(self).tiles(), Direction::Up),
    ;

    /// Slides every column towards its bottom end. Returns whether the board changed.
    fn move_down(&mut self) -> (changed: bool)
        requires
            all_double_fit(old(self).tiles()),
        ensures
            final(self).tiles() == moved(old(self).tiles(), Direction::Down),
            changed == move_changes(old(self).tiles(), Direction::Down),
    ;
}

impl Playable for BoardState {
    open spec fn tiles(&self) -> Seq<i32> {
        self.cells@
    }

    fn generate_tile(&mut self) {
        let pick = draw();
        let coin = draw();
        self.spawn_at(pick, coin);
        assert(self.tiles() == spawned(old(self).tiles(), pick, coin));
    }

    fn move_right(&mut self) -> (changed: bool) {
        self.slide(Direction::Right)
    }

    fn move_left(&mut self) -> (changed: bool) {
        self.slide(Direction::Left)
    }

    fn move_up(&mut self) -> (changed: bool) {
        self.slide(Direction::Up)
    }

    fn move_down(&mut self) -> (changed: bool) {
        self.slide(Direction::Down)
    }
}

impl BoardState {
    /// A fresh board: three tiles of value 2 or 4 on distinct cells chosen at
    /// random, every other cell empty.
    pub fn new() -> (b: BoardState)
        ensures
            filled(b.grid()) == 3,
            all_tiles(b.grid()),
            exists|picks: Seq<u32>, coins: Seq<u32>|
                picks.len() == 3 && coins.len() == 3 && b.grid() == seeded(picks, coins),
    {
        let picks = [draw(), draw(), draw()];
        let coins = [draw(), draw(), draw()];
        let b = BoardState::from_draws(picks, coins);
        proof {
            lemma_seeded(picks@, coins@);
        }
        b
    }

    /// Replaces the board with a fresh one, as `new` makes it.
    pub fn reset(&mut self)
        ensures
            filled(final(self).grid()) == 3,
            all_tiles(final(self).grid()),
            exists|picks: Seq<u32>, coins: Seq<u32>|
                picks.len() == 3 && coins.len() == 3 && final(self).grid() == seeded(picks, coins),
    {
        *self = BoardState::new();
    }

    /// One turn from the draws `pick` and `coin`: the move in direction `d`,
    /// then, only if it changed the board, a tile spawned from the draws.
    /// Returns whether the move changed the board.
    pub fn play(&mut self, d: Direction, pick: u32, coin: u32) -> (changed: bool)
        requires
            old(self).fits_doubling(),
        ensures
            final(self).grid() == played(old(self).grid(), d, pick, coin),
            changed == move_changes(old(self).grid(), d),
    {
        proof {
            lemma_unchanged_move_repeats(self.cells@, d);
        }
        let changed = self.slide(d);
        if changed {
            self.spawn_at(pick, coin);
        }
        changed
    }

    /// One turn in direction `d`: the move, then, only if it changed the
    /// board, a tile spawned on an empty cell chosen at random.
    /// Returns whether the move changed the board.
    pub fn turn(&mut self, d: Direction) -> (changed: bool)
        requires
            old(self).fits_doubling(),
        ensures
            exists|pick: u32, coin: u32|
                final(self).grid() == played(old(self).grid(), d, pick, coin),
            changed == move_changes(old(self).grid(), d),
    {
        let ghost start = self.cells@;
        proof {
            lemma_unchanged_move_repeats(start, d);
        }
        let changed = self.slide(d);
        let ghost mid = self.cells@;
        if changed {
            self.generate_tile();
            proof {
                let (p, c) = choose|p: u32, c: u32| self.tiles() == spawned(mid, p, c);
                assert(self.cells@ == played(start, d, p, c));
            }
        } else {
            assert(self.cells@ == played(start, d, 0, 0));
        }
        changed
    }
}

} // verus!
