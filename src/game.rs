use vstd::prelude::*;
use rand::rngs::StdRng;
use rand::SeedableRng;
use rand::seq::IteratorRandom;
use crate::direction::{BoardShift, Key};
use crate::grid::{Position, in_bounds, all_cells, cell_at};
use crate::shift::{arranged, shifted, shift_gain};
use crate::tiles::{Tile, TileStore, board_wf, free_cells, has_adjacent_pair, total, occupied};
use vstd::set_lib::{lemma_int_range, lemma_len_subset, set_int_range};
use vstd::seq_lib::seq_to_set_is_finite;

verus! {

#[verifier::external_type_specification]
#[verifier::external_body]
pub struct ExStdRng(StdRng);

/// The value of every new tile.
pub const NEW_TILE_VALUE: u32 = 2;

/// How many tiles a game starts with.
pub const STARTING_TILES: usize = 2;

/// The phase of a game.
#[derive(Clone, Copy, Debug, PartialEq, Eq, Structural)]
pub enum RunState {
    Playing,
    GameOver,
}

/// The phase after the terminal check: a full board on which no two
/// neighbouring tiles are equal ends the game; otherwise nothing changes.
pub open spec fn terminal_phase(size: int, s: Seq<Tile>, phase: RunState) -> RunState {
    if s.len() == size * size && !has_adjacent_pair(s) {
        RunState::GameOver
    } else {
        phase
    }
}

/// `after` is `before` with a new tile of the new-tile value on one of its
/// free cells, taking identity `next_id`; or `before` itself when no cell is
/// free or no identity is left.
pub open spec fn spawned(size: int, before: Seq<Tile>, next_id: int, after: Seq<Tile>) -> bool {
    if free_cells(size, before).len() == 0 || next_id >= u64::MAX {
        after == before
    } else {
        exists|p: Position|
            #[trigger] free_cells(size, before).contains(p) && after == before.push(
                Tile { id: next_id as u64, position: p, value: NEW_TILE_VALUE },
            )
    }
}

/// `after` is `before` with the starting tiles added: as many as there are
/// free cells, up to the starting count, on distinct free cells, with
/// identities from `next_id` on.
pub open spec fn started(size: int, before: Seq<Tile>, next_id: int, after: Seq<Tile>) -> bool {
    let free = free_cells(size, before);
    let added = after.len() - before.len();
    &&& after.len() >= before.len()
    &&& after.take(before.len() as int) == before
    &&& added <= STARTING_TILES
    &&& next_id + STARTING_TILES <= u64::MAX ==> added == if free.len() < STARTING_TILES {
        free.len() as int
    } else {
        STARTING_TILES as int
    }
    &&& forall|k: int|
        before.len() <= k < after.len() ==> {
            &&& free.contains(#[trigger] after[k].position)
            &&& after[k].value == NEW_TILE_VALUE
            &&& after[k].id == next_id + (k - before.len())
        }
}

/// `x`, or the largest `u64` where `x` is larger.
pub open spec fn saturated(x: int) -> int {
    if x > u64::MAX {
        u64::MAX as int
    } else {
        x
    }
}

/// Relies on `SeedableRng::seed_from_u64`: a generator whose sequence depends
/// on the seed alone. Nothing is claimed of the numbers it draws.
#[verifier::external_body]
fn seeded_rng(seed: u64) -> StdRng {
    StdRng::seed_from_u64(seed)
}

/// Relies on `IteratorRandom::choose`: `None` if and only if there is no
/// cell to choose from, else one of the cells.
#[verifier::external_body]
fn choose_cell(rng: &mut StdRng, cells: &Vec<Position>) -> (r: Option<Position>)
    ensures
        r is None <==> cells@.len() == 0,
        r matches Some(p) ==> cells@.contains(p),
{
    cells.iter().copied().choose(rng)
}

/// Relies on `IteratorRandom::choose_multiple`: `amount` cells, or all of them
/// when there are fewer, each taken from a different place of the input.
#[verifier::external_body]
fn choose_cells(rng: &mut StdRng, cells: &Vec<Position>, amount: usize) -> (r: Vec<Position>)
    ensures
        r@.len() == if cells@.len() < amount {
            cells@.len()
        } else {
            amount as nat
        },
        forall|i: int| 0 <= i < r@.len() ==> cells@.contains(#[trigger] r@[i]),
        cells@.no_duplicates() ==> r@.no_duplicates(),
{
    cells.iter().copied().choose_multiple(rng, amount)
}

proof fn lemma_filter_no_duplicates(s: Seq<Position>, pred: spec_fn(Position) -> bool)
    requires
        s.no_duplicates(),
    ensures
        s.filter(pred).no_duplicates(),
    decreases s.len(),
{
    if s.len() > 0 {
        let init = s.drop_last();
        let last = s.last();
        assert(init.no_duplicates());
        lemma_filter_no_duplicates(init, pred);
        assert(s == init.push(last));
        init.lemma_filter_push(last, pred);
        if pred(last) && init.filter(pred).contains(last) {
            init.lemma_filter_contains_rev(pred, last);
            let k = choose|k: int| 0 <= k < init.len() && init[k] == last;
            assert(s[k] == s[s.len() - 1]);
        }
    }
}

proof fn lemma_cell_at(size: int, k: int)
    requires
        1 <= size <= u8::MAX,
        0 <= k < size * size,
    ensures
        0 <= k / size < size,
        0 <= k % size < size,
        cell_at(size, k).x == k / size,
        cell_at(size, k).y == k % size,
        in_bounds(size, cell_at(size, k)),
{
    vstd::arithmetic::div_mod::lemma_fundamental_div_mod(k, size);
    let (q, r) = (k / size, k % size);
    assert(q < size) by (nonlinear_arith)
        requires
            k == size * q + r,
            0 <= r < size,
            0 <= k < size * size,
    ;
    assert(0 <= q) by (nonlinear_arith)
        requires
            k == size * q + r,
            r < size,
            0 <= k,
            size > 0,
    ;
}

/// What a free cell is: on the board and with no tile on it; and no cell is
/// listed twice.
pub proof fn lemma_free_cells(size: int, s: Seq<Tile>)
    requires
        1 <= size <= u8::MAX,
    ensures
        free_cells(size, s).no_duplicates(),
        forall|p: Position|
            #[trigger] free_cells(size, s).contains(p) ==> in_bounds(size, p) && !occupied(s, p),
{
    let pred = |p: Position| !occupied(s, p);
    let cells = all_cells(size);
    assert forall|k: int| 0 <= k < cells.len() implies in_bounds(size, #[trigger] cells[k]) by {
        lemma_cell_at(size, k);
    }
    assert(cells.no_duplicates()) by {
        assert forall|i: int, j: int| 0 <= i < cells.len() && 0 <= j < cells.len() && i != j
            implies cells[i] != cells[j] by {
            lemma_cell_at(size, i);
            lemma_cell_at(size, j);
            vstd::arithmetic::div_mod::lemma_fundamental_div_mod(i, size);
            vstd::arithmetic::div_mod::lemma_fundamental_div_mod(j, size);
        }
    }
    lemma_filter_no_duplicates(cells, pred);
    assert forall|p: Position| #[trigger] free_cells(size, s).contains(p) implies in_bounds(size, p)
        && !occupied(s, p) by {
        let i = choose|i: int| 0 <= i < cells.filter(pred).len() && cells.filter(pred)[i] == p;
        cells.lemma_filter_pred(pred, i);
        cells.lemma_filter_contains_rev(pred, p);
    }
}

/// A board with fewer than `size * size` tiles has a free cell.
pub proof fn lemma_free_cell_exists(size: int, s: Seq<Tile>)
    requires
        1 <= size <= u8::MAX,
        board_wf(size, s),
        s.len() < size * size,
    ensures
        free_cells(size, s).len() > 0,
{
    let pred = |p: Position| !occupied(s, p);
    let cells = all_cells(size);
    if free_cells(size, s).len() == 0 {
        let codes = s.map_values(|t: Tile| t.position.x * size + t.position.y);
        assert forall|k: int| set_int_range(0, size * size).contains(k) implies codes.to_set().contains(
            k,
        ) by {
            lemma_cell_at(size, k);
            if !occupied(s, cells[k]) {
                cells.lemma_filter_contains(pred, k);
            }
            let i = choose|i: int| 0 <= i < s.len() && #[trigger] s[i].position == cells[k];
            vstd::arithmetic::div_mod::lemma_fundamental_div_mod(k, size);
            assert(codes[i] == k);
        }
        lemma_int_range(0, size * size);
        codes.lemma_cardinality_of_set();
        seq_to_set_is_finite(codes);
        lemma_len_subset(set_int_range(0, size * size), codes.to_set());
    }
}

/// Adding a tile adds its value to the sum.
pub proof fn lemma_total_push(s: Seq<Tile>, t: Tile)
    ensures
        total(s.push(t)) == total(s) + t.value,
    decreases s.len(),
{
    if s.len() > 0 {
        lemma_total_push(s.skip(1), t);
        assert(s.push(t).skip(1) =~= s.skip(1).push(t));
        assert(s.push(t)[0] == s[0]);
    } else {
        assert(s.push(t).skip(1) =~= Seq::<Tile>::empty());
        assert(total(Seq::<Tile>::empty()) == 0);
        assert(s.push(t)[0] == t);
    }
}

/// A game: the board, the score, the best score and the phase, with the
/// source of randomness that places new tiles.
pub struct Game {
    score: u64,
    score_best: u64,
    phase: RunState,
    store: TileStore,
    rng: StdRng,
}

impl Game {
    pub closed spec fn spec_score(&self) -> int {
        self.score as int
    }

    pub closed spec fn spec_best(&self) -> int {
        self.score_best as int
    }

    pub closed spec fn spec_phase(&self) -> RunState {
        self.phase
    }

    pub closed spec fn spec_store(&self) -> TileStore {
        self.store
    }

    pub open spec fn wf(&self) -> bool {
        &&& self.spec_store().wf()
        &&& self.spec_score() <= self.spec_best()
    }

    /// The tiles on the board.
    pub open spec fn board(&self) -> Seq<Tile> {
        self.spec_store()@
    }

    pub open spec fn size(&self) -> int {
        self.spec_store().spec_size()
    }

    /// A new game on a board of side `size`, with the starting tiles placed at
    /// random; the same seed places them the same way.
    pub fn new(size: u8, seed: u64) -> (g: Game)
        requires
            size >= 1,
        ensures
            g.wf(),
            g.size() == size,
            g.spec_score() == 0,
            g.spec_best() == 0,
            g.spec_phase() == RunState::Playing,
            started(size as int, Seq::empty(), 0, g.board()),
    {
        let mut g = Game {
            score: 0,
            score_best: 0,
            phase: RunState::Playing,
            store: TileStore::new(size),
            rng: seeded_rng(seed),
        };
        g.spawn_tiles();
        g
    }

    /// A game that goes on from the tiles of `store`, with no score yet.
    pub fn from_tiles(store: TileStore, seed: u64) -> (g: Game)
        requires
            store.wf(),
        ensures
            g.wf(),
            g.spec_store() == store,
            g.spec_score() == 0,
            g.spec_best() == 0,
            g.spec_phase() == RunState::Playing,
    {
        Game { score: 0, score_best: 0, phase: RunState::Playing, store, rng: seeded_rng(seed) }
    }

    /// Starts a new session: the board is cleared, the score goes back to
    /// zero, the best score stays, and the starting tiles are placed.
    pub fn game_reset(&mut self)
        requires
            old(self).wf(),
        ensures
            final(self).wf(),
            final(self).size() == old(self).size(),
            final(self).spec_score() == 0,
            final(self).spec_best() == old(self).spec_best(),
            final(self).spec_phase() == RunState::Playing,
            started(old(self).size(), Seq::empty(), old(self).spec_store().spec_next_id(), final(self).board()),
    {
        self.store.clear();
        self.score = 0;
        self.phase = RunState::Playing;
        self.spawn_tiles();
    }

    /// Handles one key press. While the game is on, an arrow key shifts the
    /// board; the score grows by what the merges earn, the best score follows
    /// it, a new tile is placed when anything moved, and the terminal check
    /// runs. Any other key, or any key once the game is over, changes nothing.
    /// Tells whether anything moved.
    pub fn board_shift(&mut self, key: Key) -> (moved: bool)
        requires
            old(self).wf(),
        ensures
            final(self).wf(),
            final(self).size() == old(self).size(),
            final(self).spec_score() >= old(self).spec_score(),
            final(self).spec_best() >= old(self).spec_best(),
            match (old(self).spec_phase(), BoardShift::of_key(key)) {
                (RunState::Playing, Some(d)) => {
                    let after_shift = shifted(d, old(self).size(), old(self).board());
                    &&& moved == (after_shift != arranged(d, old(self).board()))
                    &&& final(self).spec_score() == saturated(
                        old(self).spec_score() + shift_gain(d, old(self).board()),
                    )
                    &&& final(self).spec_best() == if old(self).spec_best() < final(self).spec_score() {
                        final(self).spec_score()
                    } else {
                        old(self).spec_best()
                    }
                    &&& moved ==> spawned(
                        old(self).size(),
                        after_shift,
                        old(self).spec_store().spec_next_id(),
                        final(self).board(),
                    )
                    &&& !moved ==> final(self).board() == after_shift
                    &&& final(self).spec_phase() == terminal_phase(
                        old(self).size(),
                        final(self).board(),
                        RunState::Playing,
                    )
                },
                _ => {
                    &&& !moved
                    &&& final(self).board() == old(self).board()
                    &&& final(self).spec_score() == old(self).spec_score()
                    &&& final(self).spec_best() == old(self).spec_best()
                    &&& final(self).spec_phase() == old(self).spec_phase()
                },
            },
    {
        if self.phase != RunState::Playing {
            return false;
        }
        match BoardShift::try_from(&key) {
            Err(_) => false,
            Ok(direction) => {
                let outcome = self.store.shift(direction);
                self.score = self.score.saturating_add(outcome.score_delta);
                if self.score_best < self.score {
                    self.score_best = self.score;
                }
                if outcome.moved {
                    self.spawn_tile();
                }
                self.end_game();
                outcome.moved
            },
        }
    }

    pub fn current_score(&self) -> (r: u64)
        ensures
            r == self.spec_score(),
    {
        self.score
    }

    pub fn best_score(&self) -> (r: u64)
        ensures
            r == self.spec_best(),
    {
        self.score_best
    }

    pub fn phase(&self) -> (r: RunState)
        ensures
            r == self.spec_phase(),
    {
        self.phase
    }

    pub fn board_size(&self) -> (r: u8)
        ensures
            r == self.size(),
    {
        self.store.size()
    }

    /// A snapshot of the tiles, for whoever draws the board.
    pub fn tiles(&self) -> (r: Vec<Tile>)
        ensures
            r@ == self.board(),
    {
        self.store.get_all()
    }

    /// Places a new tile on a free cell chosen at random, if there is one.
    pub fn spawn_tile(&mut self)
        requires
            old(self).wf(),
        ensures
            final(self).wf(),
            final(self).size() == old(self).size(),
            spawned(old(self).size(), old(self).board(), old(self).spec_store().spec_next_id(), final(self).board()),
            final(self).board().len() > old(self).board().len() ==> final(self).spec_store().spec_next_id()
                == old(self).spec_store().spec_next_id() + 1,
            final(self).board().len() == old(self).board().len() ==> final(self).spec_store().spec_next_id()
                == old(self).spec_store().spec_next_id(),
            total(final(self).board()) == total(old(self).board()) + if final(self).board().len()
                > old(self).board().len() {
                NEW_TILE_VALUE as int
            } else {
                0
            },
            old(self).board().len() < old(self).size() * old(self).size() && old(
                self,
            ).spec_store().spec_next_id() < u64::MAX ==> final(self).board().len() == old(
                self,
            ).board().len() + 1 && total(final(self).board()) == total(old(self).board())
                + NEW_TILE_VALUE,
            final(self).spec_score() == old(self).spec_score(),
            final(self).spec_best() == old(self).spec_best(),
            final(self).spec_phase() == old(self).spec_phase(),
    {
        let cells = self.store.free_cells();
        proof {
            lemma_free_cells(self.store.spec_size(), self.store@);
            if self.store@.len() < self.store.spec_size() * self.store.spec_size() {
                lemma_free_cell_exists(self.store.spec_size(), self.store@);
            }
        }
        match choose_cell(&mut self.rng, &cells) {
            Some(p) => {
                let ghost before = self.store@;
                let r = self.store.insert(p, NEW_TILE_VALUE);
                proof {
                    if r is Some {
                        lemma_total_push(before, Tile { id: r->0, position: p, value: NEW_TILE_VALUE });
                    }
                }
            },
            None => {},
        }
    }

    /// Places the starting tiles on distinct free cells chosen at random.
    pub fn spawn_tiles(&mut self)
        requires
            old(self).wf(),
        ensures
            final(self).wf(),
            final(self).size() == old(self).size(),
            started(old(self).size(), old(self).board(), old(self).spec_store().spec_next_id(), final(self).board()),
            final(self).spec_store().spec_next_id() == old(self).spec_store().spec_next_id() + (
            final(self).board().len() - old(self).board().len()),
            final(self).spec_score() == old(self).spec_score(),
            final(self).spec_best() == old(self).spec_best(),
            final(self).spec_phase() == old(self).spec_phase(),
    {
        let ghost size = self.store.spec_size();
        let ghost before = self.store@;
        let ghost id0 = self.store.spec_next_id();
        let cells = self.store.free_cells();
        proof {
            lemma_free_cells(size, before);
        }
        let chosen = choose_cells(&mut self.rng, &cells, STARTING_TILES);
        let mut i: usize = 0;
        while i < chosen.len()
            invariant
                self.wf(),
                self.store.spec_size() == size,
                1 <= size <= u8::MAX,
                cells@ == free_cells(size, before),
                forall|k: int| 0 <= k < chosen@.len() ==> cells@.contains(#[trigger] chosen@[k]),
                chosen@.no_duplicates(),
                chosen@.len() <= STARTING_TILES,
                chosen@.len() == if cells@.len() < STARTING_TILES {
                    cells@.len()
                } else {
                    STARTING_TILES as nat
                },
                i <= chosen@.len(),
                self.store@.len() >= before.len(),
                self.store@.take(before.len() as int) == before,
                self.store@.len() - before.len() <= i,
                self.store.spec_next_id() == id0 + (self.store@.len() - before.len()),
                id0 + STARTING_TILES <= u64::MAX ==> self.store@.len() - before.len() == i,
                forall|k: int|
                    before.len() <= k < self.store@.len() ==> {
                        &&& cells@.contains(#[trigger] self.store@[k].position)
                        &&& self.store@[k].value == NEW_TILE_VALUE
                        &&& self.store@[k].id == id0 + (k - before.len())
                        &&& exists|m: int| 0 <= m < i && #[trigger] chosen@[m] == self.store@[k].position
                    },
                self.score == old(self).score,
                self.score_best == old(self).score_best,
                self.phase == old(self).phase,
            decreases chosen@.len() - i,
        {
            let p = chosen[i];
            let ghost mid = self.store@;
            proof {
                lemma_free_cells(size, before);
                assert(cells@.contains(p));
                if occupied(mid, p) {
                    let k = choose|k: int| 0 <= k < mid.len() && #[trigger] mid[k].position == p;
                    if k < before.len() {
                        assert(mid[k] == before[k]);
                        assert(occupied(before, p));
                    } else {
                        let m = choose|m: int| 0 <= m < i && chosen@[m] == mid[k].position;
                        assert(chosen@[m] == chosen@[i as int]);
                    }
                }
            }
            let r = self.store.insert(p, NEW_TILE_VALUE);
            proof {
                if r is Some {
                    assert(self.store@.take(before.len() as int) =~= mid.take(before.len() as int));
                }
                assert forall|k: int| before.len() <= k < self.store@.len() implies exists|m: int|
                    0 <= m < i + 1 && #[trigger] chosen@[m] == (#[trigger] self.store@[k]).position by {
                    if k < mid.len() {
                        let m = choose|m: int| 0 <= m < i && chosen@[m] == mid[k].position;
                        assert(chosen@[m] == self.store@[k].position);
                    } else {
                        assert(chosen@[i as int] == self.store@[k].position);
                    }
                }
            }
            i = i + 1;
        }
        proof {
            let after = self.store@;
            let free = free_cells(size, before);
            assert forall|k: int| before.len() <= k < after.len() implies free.contains(
                #[trigger] after[k].position,
            ) by {
                assert(cells@.contains(self.store@[k].position));
            }
            assert(started(size, before, id0, after));
        }
    }

    /// The terminal check: on a full board with no two equal neighbours the
    /// game is over.
    pub fn end_game(&mut self)
        requires
            old(self).wf(),
        ensures
            final(self).wf(),
            final(self).spec_phase() == terminal_phase(old(self).size(), old(self).board(), old(self).spec_phase()),
            final(self).spec_store() == old(self).spec_store(),
            final(self).spec_score() == old(self).spec_score(),
            final(self).spec_best() == old(self).spec_best(),
    {
        let size = self.store.size() as usize;
        proof {
            assert(size * size <= 65025) by (nonlinear_arith)
                requires
                    size <= 255,
            ;
        }
        if self.store.len() == size * size && !self.store.has_move() {
            self.phase = RunState::GameOver;
        }
    }
}

} // verus!
