use vstd::prelude::*;

verus! {

/// Side length of the board that a new game is played on.
pub const DEFAULT_SIZE: u8 = 4;

/// A cell of the board: column `x` and row `y`, each in `[0, size)`.
#[derive(Clone, Copy, Debug, PartialEq, Eq, Structural, Hash)]
pub struct Position {
    pub x: u8,
    pub y: u8,
}

/// Whether `p` lies on a board of side `size`.
pub open spec fn in_bounds(size: int, p: Position) -> bool {
    p.x < size && p.y < size
}

/// Whether `p` and `q` share a side.
pub open spec fn adjacent(p: Position, q: Position) -> bool {
    ||| p.x == q.x && (p.y + 1 == q.y || q.y + 1 == p.y)
    ||| p.y == q.y && (p.x + 1 == q.x || q.x + 1 == p.x)
}

/// The `k`-th cell of a board of side `size`, column by column.
pub open spec fn cell_at(size: int, k: int) -> Position {
    Position { x: (k / size) as u8, y: (k % size) as u8 }
}

/// All cells of a board of side `size`, column by column and, within a
/// column, row by row.
pub open spec fn all_cells(size: int) -> Seq<Position> {
    Seq::new((size * size) as nat, |k: int| cell_at(size, k))
}

/// The square board. Only its side length matters to the rules; how large a
/// cell is drawn is the renderer's business.
#[derive(Clone, Copy, Debug, PartialEq, Eq, Structural)]
pub struct Board {
    pub size: u8,
}

impl Board {
    pub fn new(size: u8) -> (b: Board)
        ensures
            b.size == size,
    {
        Board { size }
    }

    /// Every cell of the board, column by column.
    pub fn cells(&self) -> (r: Vec<Position>)
        ensures
            r@ == all_cells(self.size as int),
    {
        let size = self.size;
        let mut r: Vec<Position> = Vec::new();
        let mut x: u8 = 0;
        while x < size
            invariant
                x <= size,
                r@.len() == x as int * size as int,
                forall|k: int| 0 <= k < r@.len() ==> #[trigger] r@[k] == cell_at(size as int, k),
            decreases size - x,
        {
            let mut y: u8 = 0;
            while y < size
                invariant
                    x < size,
                    y <= size,
                    r@.len() == x as int * size as int + y as int,
                    forall|k: int| 0 <= k < r@.len() ==> #[trigger] r@[k] == cell_at(size as int, k),
                decreases size - y,
            {
                proof {
                    let k = x as int * size as int + y as int;
                    assert(k / size as int == x as int && k % size as int == y as int) by {
                        vstd::arithmetic::div_mod::lemma_fundamental_div_mod_converse(
                            k,
                            size as int,
                            x as int,
                            y as int,
                        );
                    }
                }
                r.push(Position { x, y });
                y = y + 1;
            }
            proof {
                assert((x as int + 1) * size as int == x as int * size as int + size as int)
                    by (nonlinear_arith);
            }
            x = x + 1;
        }
        assert(r@ =~= all_cells(size as int));
        r
    }
}

} // verus!
