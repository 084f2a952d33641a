use vstd::prelude::*;
use vstd::set_lib::{lemma_int_range, lemma_len_subset, set_int_range};
use crate::grid::{Board, Position, in_bounds, all_cells, cell_at};

verus! {

/// The identity of a tile; it stays the same while the tile slides and grows.
pub type TileId = u64;

/// A live tile: its identity, the cell it stands on and its value.
#[derive(Clone, Copy, Debug, PartialEq, Eq, Structural)]
pub struct Tile {
    pub id: TileId,
    pub position: Position,
    pub value: u32,
}

/// No two tiles stand on the same cell.
pub open spec fn positions_distinct(s: Seq<Tile>) -> bool {
    forall|i: int, j: int|
        0 <= i < s.len() && 0 <= j < s.len() && i != j ==> s[i].position != s[j].position
}

/// No two tiles share an identity.
pub open spec fn ids_distinct(s: Seq<Tile>) -> bool {
    forall|i: int, j: int| 0 <= i < s.len() && 0 <= j < s.len() && i != j ==> s[i].id != s[j].id
}

/// A layout of tiles on a board of side `size`: every tile on the board, with
/// a positive value, and no two on one cell.
pub open spec fn board_wf(size: int, s: Seq<Tile>) -> bool {
    &&& positions_distinct(s)
    &&& forall|i: int| 0 <= i < s.len() ==> in_bounds(size, #[trigger] s[i].position)
    &&& forall|i: int| 0 <= i < s.len() ==> #[trigger] s[i].value > 0
}

/// Whether some tile stands on `p`.
pub open spec fn occupied(s: Seq<Tile>, p: Position) -> bool {
    exists|i: int| 0 <= i < s.len() && #[trigger] s[i].position == p
}

/// The cells of the board that no tile stands on, column by column.
pub open spec fn free_cells(size: int, s: Seq<Tile>) -> Seq<Position> {
    all_cells(size).filter(|p: Position| !occupied(s, p))
}

/// The sum of the values of the tiles.
pub open spec fn total(s: Seq<Tile>) -> int
    decreases s.len(),
{
    if s.len() == 0 {
        0
    } else {
        s[0].value + total(s.skip(1))
    }
}

/// Whether two tiles of equal value stand on neighbouring cells.
pub open spec fn has_adjacent_pair(s: Seq<Tile>) -> bool {
    exists|i: int, j: int|
        0 <= i < s.len() && 0 <= j < s.len() && crate::grid::adjacent(
            #[trigger] s[i].position,
            #[trigger] s[j].position,
        ) && s[i].value == s[j].value
}

/// A board holds at most `size * size` tiles.
pub proof fn lemma_capacity(size: int, s: Seq<Tile>)
    requires
        size >= 1,
        board_wf(size, s),
    ensures
        s.len() <= size * size,
{
    let codes = s.map_values(|t: Tile| t.position.x * size + t.position.y);
    assert forall|i: int, j: int|
        0 <= i < codes.len() && 0 <= j < codes.len() && i != j implies codes[i] != codes[j] by {
        let (p, q) = (s[i].position, s[j].position);
        if codes[i] == codes[j] {
            vstd::arithmetic::div_mod::lemma_fundamental_div_mod_converse(
                codes[i],
                size,
                p.x as int,
                p.y as int,
            );
            vstd::arithmetic::div_mod::lemma_fundamental_div_mod_converse(
                codes[j],
                size,
                q.x as int,
                q.y as int,
            );
        }
    }
    codes.unique_seq_to_set();
    lemma_int_range(0, size * size);
    assert forall|c: int| codes.to_set().contains(c) implies set_int_range(0, size * size).contains(
        c,
    ) by {
        let i = choose|i: int| 0 <= i < codes.len() && codes[i] == c;
        let p = s[i].position;
        assert(p.x * size + p.y < size * size) by (nonlinear_arith)
            requires
                p.x < size,
                p.y < size,
                p.x >= 0,
                p.y >= 0,
        ;
        assert(0 <= p.x * size) by (nonlinear_arith)
            requires
                p.x >= 0,
                size >= 0,
        ;
    }
    lemma_len_subset(codes.to_set(), set_int_range(0, size * size));
}

/// The index of cell `p` among the cells of a board of side `size`, column by column.
pub open spec fn cell_index(size: int, p: Position) -> int {
    p.x * size + p.y
}

proof fn lemma_cell_index(size: int, p: Position, q: Position)
    requires
        size >= 1,
        in_bounds(size, p),
        in_bounds(size, q),
    ensures
        0 <= cell_index(size, p) < size * size,
        cell_index(size, p) == cell_index(size, q) <==> p == q,
{
    assert(0 <= cell_index(size, p) < size * size) by (nonlinear_arith)
        requires
            0 <= p.x < size,
            0 <= p.y < size,
    ;
    if cell_index(size, p) == cell_index(size, q) {
        vstd::arithmetic::div_mod::lemma_fundamental_div_mod_converse(
            cell_index(size, p),
            size,
            p.x as int,
            p.y as int,
        );
        vstd::arithmetic::div_mod::lemma_fundamental_div_mod_converse(
            cell_index(size, q),
            size,
            q.x as int,
            q.y as int,
        );
    }
}

/// The tiles of one board, each with an identity that is never handed out twice.
pub struct TileStore {
    size: u8,
    tiles: Vec<Tile>,
    next_id: TileId,
}

impl View for TileStore {
    type V = Seq<Tile>;

    closed spec fn view(&self) -> Seq<Tile> {
        self.tiles@
    }
}

impl TileStore {
    /// The side length of the board.
    pub closed spec fn spec_size(&self) -> int {
        self.size as int
    }

    /// The identity that the next tile will get.
    pub closed spec fn spec_next_id(&self) -> int {
        self.next_id as int
    }

    pub open spec fn wf(&self) -> bool {
        &&& 1 <= self.spec_size() <= u8::MAX
        &&& board_wf(self.spec_size(), self@)
        &&& ids_distinct(self@)
        &&& forall|i: int| 0 <= i < self@.len() ==> #[trigger] self@[i].id < self.spec_next_id()
        &&& self@.len() <= self.spec_size() * self.spec_size()
    }

    /// An empty board of side `size`.
    pub fn new(size: u8) -> (r: TileStore)
        requires
            size >= 1,
        ensures
            r.wf(),
            r.spec_size() == size,
            r@ == Seq::<Tile>::empty(),
            r.spec_next_id() == 0,
    {
        TileStore { size, tiles: Vec::new(), next_id: 0 }
    }

    pub fn size(&self) -> (r: u8)
        ensures
            r == self.spec_size(),
    {
        self.size
    }

    pub fn len(&self) -> (r: usize)
        ensures
            r == self@.len(),
    {
        self.tiles.len()
    }

    /// A snapshot of all live tiles.
    pub fn get_all(&self) -> (r: Vec<Tile>)
        ensures
            r@ == self@,
    {
        let mut r: Vec<Tile> = Vec::new();
        let mut i: usize = 0;
        while i < self.tiles.len()
            invariant
                i <= self.tiles@.len(),
                r@ == self.tiles@.take(i as int),
            decreases self.tiles@.len() - i,
        {
            r.push(self.tiles[i]);
            i = i + 1;
            assert(r@ =~= self.tiles@.take(i as int));
        }
        assert(r@ =~= self.tiles@);
        r
    }

    /// Whether some tile stands on `p`.
    pub fn is_occupied(&self, p: Position) -> (r: bool)
        ensures
            r == occupied(self@, p),
    {
        let mut i: usize = 0;
        while i < self.tiles.len()
            invariant
                i <= self.tiles@.len(),
                forall|k: int| 0 <= k < i ==> #[trigger] self.tiles@[k].position != p,
            decreases self.tiles@.len() - i,
        {
            if self.tiles[i].position == p {
                return true;
            }
            i = i + 1;
        }
        false
    }

    /// The index of the tile with identity `id`, if any.
    fn find(&self, id: TileId) -> (r: Option<usize>)
        ensures
            r matches Some(i) ==> i < self@.len() && self@[i as int].id == id,
            r is None ==> forall|k: int| 0 <= k < self@.len() ==> #[trigger] self@[k].id != id,
    {
        let mut i: usize = 0;
        while i < self.tiles.len()
            invariant
                i <= self.tiles@.len(),
                forall|k: int| 0 <= k < i ==> #[trigger] self.tiles@[k].id != id,
            decreases self.tiles@.len() - i,
        {
            if self.tiles[i].id == id {
                return Some(i);
            }
            i = i + 1;
        }
        None
    }

    /// Whether a tile other than the one with identity `id` stands on `p`.
    fn taken_by_other(&self, id: TileId, p: Position) -> (r: bool)
        ensures
            r == exists|k: int|
                0 <= k < self@.len() && #[trigger] self@[k].id != id && self@[k].position == p,
    {
        let mut k: usize = 0;
        while k < self.tiles.len()
            invariant
                k <= self.tiles@.len(),
                forall|m: int|
                    0 <= m < k && #[trigger] self.tiles@[m].id != id ==> self.tiles@[m].position
                        != p,
            decreases self.tiles@.len() - k,
        {
            if self.tiles[k].id != id && self.tiles[k].position == p {
                assert(self@[k as int].id != id && self@[k as int].position == p);
                return true;
            }
            k = k + 1;
        }
        false
    }

    /// Adds a tile of `value` on the free cell `position` and returns its new
    /// identity; `None` only when no identity is left. Inserting on a cell off
    /// the board or already taken is a caller's error.
    pub fn insert(&mut self, position: Position, value: u32) -> (r: Option<TileId>)
        requires
            old(self).wf(),
            in_bounds(old(self).spec_size(), position),
            !occupied(old(self)@, position),
            value > 0,
        ensures
            final(self).wf(),
            final(self).spec_size() == old(self).spec_size(),
            r is Some <==> old(self).spec_next_id() < u64::MAX,
            r matches Some(id) ==> id == old(self).spec_next_id() && final(self).spec_next_id() == id
                + 1 && final(self)@ == old(self)@.push(Tile { id, position, value }),
            r is None ==> final(self)@ == old(self)@ && final(self).spec_next_id()
                == old(self).spec_next_id(),
    {
        if self.next_id == u64::MAX {
            return None;
        }
        let id = self.next_id;
        self.tiles.push(Tile { id, position, value });
        self.next_id = id + 1;
        proof {
            lemma_capacity(self.size as int, self.tiles@);
        }
        Some(id)
    }

    /// Removes the tile with identity `id`; tells whether there was one.
    pub fn remove(&mut self, id: TileId) -> (r: bool)
        requires
            old(self).wf(),
        ensures
            final(self).wf(),
            final(self).spec_size() == old(self).spec_size(),
            final(self).spec_next_id() == old(self).spec_next_id(),
            r == exists|i: int| 0 <= i < old(self)@.len() && #[trigger] old(self)@[i].id == id,
            r ==> exists|i: int|
                0 <= i < old(self)@.len() && #[trigger] old(self)@[i].id == id && final(self)@
                    == old(self)@.remove(i),
            !r ==> final(self)@ == old(self)@,
    {
        match self.find(id) {
            Some(i) => {
                let ghost before = self.tiles@;
                self.tiles.remove(i);
                assert(self.tiles@ == before.remove(i as int));
                true
            },
            None => false,
        }
    }

    /// Moves the tile with identity `id` to `position` and sets its value.
    /// It is refused when there is no such tile, when the cell is off the
    /// board or taken by another tile, or when the value is zero.
    pub fn update(&mut self, id: TileId, position: Position, value: u32) -> (r: bool)
        requires
            old(self).wf(),
        ensures
            final(self).wf(),
            final(self).spec_size() == old(self).spec_size(),
            final(self).spec_next_id() == old(self).spec_next_id(),
            r == ((exists|i: int| 0 <= i < old(self)@.len() && #[trigger] old(self)@[i].id == id)
                && in_bounds(old(self).spec_size(), position) && value > 0 && forall|k: int|
                0 <= k < old(self)@.len() && #[trigger] old(self)@[k].id != id
                    ==> old(self)@[k].position != position),
            r ==> exists|i: int|
                0 <= i < old(self)@.len() && #[trigger] old(self)@[i].id == id && final(self)@
                    == old(self)@.update(i, Tile { id, position, value }),
            !r ==> final(self)@ == old(self)@,
    {
        if position.x >= self.size || position.y >= self.size || value == 0 {
            return false;
        }
        let found = self.find(id);
        if found.is_none() {
            return false;
        }
        let i = found.unwrap();
        if self.taken_by_other(id, position) {
            return false;
        }
        self.tiles.set(i, Tile { id, position, value });
        true
    }

    /// Puts `tiles` in place of the current ones.
    pub(crate) fn replace_tiles(&mut self, tiles: Vec<Tile>)
        requires
            old(self).wf(),
            board_wf(old(self).spec_size(), tiles@),
            ids_distinct(tiles@),
            forall|i: int| 0 <= i < tiles@.len() ==> #[trigger] tiles@[i].id < old(self).spec_next_id(),
        ensures
            final(self).wf(),
            final(self).spec_size() == old(self).spec_size(),
            final(self).spec_next_id() == old(self).spec_next_id(),
            final(self)@ == tiles@,
    {
        proof {
            lemma_capacity(self.size as int, tiles@);
        }
        self.tiles = tiles;
    }

    /// Takes every tile off the board; identities are not handed out again.
    pub fn clear(&mut self)
        requires
            old(self).wf(),
        ensures
            final(self).wf(),
            final(self).spec_size() == old(self).spec_size(),
            final(self).spec_next_id() == old(self).spec_next_id(),
            final(self)@ == Seq::<Tile>::empty(),
    {
        self.tiles = Vec::new();
    }

    /// The values on the board, cell by cell, column by column; zero where no tile stands.
    /// Every cell of the board has a slot, so a vector indexed by cell serves
    /// as the map from cells to values, with lookups by index alone.
    fn value_grid(&self) -> (grid: Vec<u32>)
        requires
            self.wf(),
        ensures
            grid@.len() == self.spec_size() * self.spec_size(),
            forall|k: int|
                0 <= k < self@.len() ==> grid@[cell_index(self.spec_size(), #[trigger] self@[k].position)]
                    == self@[k].value,
            forall|c: int|
                0 <= c < grid@.len() && #[trigger] grid@[c] != 0 ==> exists|k: int|
                    0 <= k < self@.len() && cell_index(self.spec_size(), #[trigger] self@[k].position)
                        == c && self@[k].value == grid@[c],
    {
        let size = self.size as usize;
        let ghost sz = size as int;
        proof {
            assert(sz * sz <= 65025) by (nonlinear_arith)
                requires
                    1 <= sz <= 255,
            ;
        }
        let cells = size * size;
        let mut grid: Vec<u32> = Vec::new();
        while grid.len() < cells
            invariant
                grid@.len() <= cells,
                forall|c: int| 0 <= c < grid@.len() ==> #[trigger] grid@[c] == 0,
            decreases cells - grid@.len(),
        {
            grid.push(0);
        }
        let mut i: usize = 0;
        while i < self.tiles.len()
            invariant
                self.wf(),
                sz == self.spec_size(),
                size == sz,
                cells == sz * sz,
                sz * sz <= 65025,
                grid@.len() == cells,
                i <= self@.len(),
                forall|k: int|
                    0 <= k < i ==> grid@[cell_index(sz, #[trigger] self@[k].position)]
                        == self@[k].value,
                forall|c: int|
                    0 <= c < grid@.len() && #[trigger] grid@[c] != 0 ==> exists|k: int|
                        0 <= k < i && cell_index(sz, #[trigger] self@[k].position) == c
                            && self@[k].value == grid@[c],
            decreases self@.len() - i,
        {
            let t = self.tiles[i];
            proof {
                assert(t == self@[i as int]);
                assert(in_bounds(sz, t.position));
                lemma_cell_index(sz, t.position, t.position);
                assert forall|k: int| 0 <= k < i implies cell_index(sz, #[trigger] self@[k].position)
                    != cell_index(sz, t.position) by {
                    lemma_cell_index(sz, self@[k].position, t.position);
                }
            }
            assert(in_bounds(sz, t.position));
            let c = t.position.x as usize * size + t.position.y as usize;
            let ghost before = grid@;
            grid.set(c, t.value);
            i = i + 1;
            proof {
                assert(c == cell_index(sz, self@[i - 1].position));
                assert forall|k: int| 0 <= k < i - 1 implies grid@[cell_index(
                    sz,
                    #[trigger] self@[k].position,
                )] == self@[k].value by {
                    assert(in_bounds(sz, self@[k].position));
                    lemma_cell_index(sz, self@[k].position, t.position);
                    assert(before[cell_index(sz, self@[k].position)] == self@[k].value);
                }
                assert(grid@[cell_index(sz, self@[i - 1].position)] == self@[i - 1].value);
                assert forall|d: int| 0 <= d < grid@.len() && #[trigger] grid@[d] != 0 implies exists|
                    k: int,
                |
                    0 <= k < i && cell_index(sz, #[trigger] self@[k].position) == d && self@[k].value
                        == grid@[d] by {
                    if d == c {
                        assert(cell_index(sz, self@[i - 1].position) == d);
                    }
                }
            }
        }
        grid
    }

    /// Whether a tile of value `v` stands on `q`, read off the value grid.
    fn grid_holds(&self, grid: &Vec<u32>, q: Position, v: u32) -> (r: bool)
        requires
            self.wf(),
            in_bounds(self.spec_size(), q),
            v > 0,
            grid@.len() == self.spec_size() * self.spec_size(),
            forall|k: int|
                0 <= k < self@.len() ==> grid@[cell_index(self.spec_size(), #[trigger] self@[k].position)]
                    == self@[k].value,
            forall|c: int|
                0 <= c < grid@.len() && #[trigger] grid@[c] != 0 ==> exists|k: int|
                    0 <= k < self@.len() && cell_index(self.spec_size(), #[trigger] self@[k].position)
                        == c && self@[k].value == grid@[c],
        ensures
            r == exists|k: int| 0 <= k < self@.len() && #[trigger] self@[k].position == q && self@[k].value == v,
    {
        let ghost sz = self.spec_size();
        proof {
            lemma_cell_index(sz, q, q);
            assert(sz * sz <= 65025) by (nonlinear_arith)
                requires
                    1 <= sz <= 255,
            ;
        }
        let c = q.x as usize * self.size as usize + q.y as usize;
        let r = grid[c] == v;
        proof {
            if r {
                let k = choose|k: int|
                    0 <= k < self@.len() && cell_index(sz, #[trigger] self@[k].position) == c
                        && self@[k].value == grid@[c as int];
                lemma_cell_index(sz, self@[k].position, q);
            } else {
                assert forall|k: int| 0 <= k < self@.len() && #[trigger] self@[k].position == q
                    implies self@[k].value != v by {
                    assert(grid@[cell_index(sz, self@[k].position)] == self@[k].value);
                }
            }
        }
        r
    }

    /// Whether two tiles of equal value stand on neighbouring cells, so that
    /// some shift would merge them.
    pub fn has_move(&self) -> (r: bool)
        requires
            self.wf(),
        ensures
            r == has_adjacent_pair(self@),
    {
        let size = self.size;
        let ghost sz = size as int;
        let grid = self.value_grid();
        let mut i: usize = 0;
        while i < self.tiles.len()
            invariant
                self.wf(),
                sz == self.spec_size(),
                size == sz,
                grid@.len() == sz * sz,
                forall|k: int|
                    0 <= k < self@.len() ==> grid@[cell_index(sz, #[trigger] self@[k].position)]
                        == self@[k].value,
                forall|c: int|
                    0 <= c < grid@.len() && #[trigger] grid@[c] != 0 ==> exists|k: int|
                        0 <= k < self@.len() && cell_index(sz, #[trigger] self@[k].position) == c
                            && self@[k].value == grid@[c],
                i <= self@.len(),
                forall|k: int, j: int|
                    0 <= k < i && 0 <= j < self@.len() && crate::grid::adjacent(
                        #[trigger] self@[k].position,
                        #[trigger] self@[j].position,
                    ) ==> self@[k].value != self@[j].value,
            decreases self@.len() - i,
        {
            let t = self.tiles[i];
            assert(in_bounds(sz, t.position));
            let (x, y) = (t.position.x, t.position.y);
            let v = t.value;
            let found = (x > 0 && self.grid_holds(&grid, Position { x: x - 1, y }, v)) || (x + 1
                < size && self.grid_holds(&grid, Position { x: x + 1, y }, v)) || (y > 0
                && self.grid_holds(&grid, Position { x, y: y - 1 }, v)) || (y + 1 < size
                && self.grid_holds(&grid, Position { x, y: y + 1 }, v));
            if found {
                proof {
                    let k = choose|k: int|
                        0 <= k < self@.len() && crate::grid::adjacent(t.position, #[trigger] self@[k].position)
                            && self@[k].value == v;
                    assert(crate::grid::adjacent(self@[i as int].position, self@[k].position));
                }
                return true;
            }
            proof {
                assert forall|j: int|
                    0 <= j < self@.len() && crate::grid::adjacent(
                        t.position,
                        #[trigger] self@[j].position,
                    ) implies t.value != self@[j].value by {
                    assert(in_bounds(sz, self@[j].position));
                }
            }
            i = i + 1;
        }
        false
    }

    /// The cells that no tile stands on, column by column.
    pub fn free_cells(&self) -> (r: Vec<Position>)
        requires
            self.wf(),
        ensures
            r@ == free_cells(self.spec_size(), self@),
    {
        let cells = Board::new(self.size).cells();
        let ghost pred = |p: Position| !occupied(self@, p);
        let mut r: Vec<Position> = Vec::new();
        let mut k: usize = 0;
        while k < cells.len()
            invariant
                k <= cells@.len(),
                pred == (|q: Position| !occupied(self@, q)),
                r@ == cells@.take(k as int).filter(pred),
            decreases cells@.len() - k,
        {
            let p = cells[k];
            proof {
                assert(cells@.take(k as int + 1) == cells@.take(k as int).push(p));
                cells@.take(k as int).lemma_filter_push(p, pred);
            }
            let taken = self.is_occupied(p);
            assert(pred(p) == !taken);
            if !taken {
                r.push(p);
            }
            k = k + 1;
        }
        assert(cells@.take(k as int) == cells@);
        r
    }
}

} // verus!
