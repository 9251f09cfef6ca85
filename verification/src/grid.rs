//! The board state: a square grid of cells, each empty or holding a tile
//! value. Cells are stored row-major; `0` marks an empty cell.

use vstd::prelude::*;

verus! {

/// A cell coordinate on the board; `x` and `y` each lie in `[0, size)`.
#[derive(Clone, Copy, PartialEq, Eq, Hash, Debug, Structural)]
pub struct Position {
    pub x: u8,
    pub y: u8,
}

/// A live tile: where it sits and the number it carries.
#[derive(Clone, Copy, PartialEq, Eq, Debug, Structural)]
pub struct Tile {
    pub pos: Position,
    pub value: u32,
}

/// How many entries of `s` are occupied (non-zero).
pub open spec fn count_nonzero(s: Seq<u32>) -> nat
    decreases s.len(),
{
    if s.len() == 0 {
        0
    } else {
        count_nonzero(s.drop_last()) + if s.last() != 0 {
            1nat
        } else {
            0nat
        }
    }
}

/// Sum of all entries of `s`.
pub open spec fn sum_values(s: Seq<u32>) -> int
    decreases s.len(),
{
    if s.len() == 0 {
        0
    } else {
        sum_values(s.drop_last()) + s.last()
    }
}

/// Updating an empty entry to an occupied one raises the occupancy count by
/// exactly one.
pub proof fn lemma_count_update(s: Seq<u32>, i: int, v: u32)
    requires
        0 <= i < s.len(),
        s[i] == 0,
        v != 0,
    ensures
        count_nonzero(s.update(i, v)) == count_nonzero(s) + 1,
    decreases s.len(),
{
    if i == s.len() - 1 {
        assert(s.update(i, v).drop_last() =~= s.drop_last());
    } else {
        lemma_count_update(s.drop_last(), i, v);
        assert(s.update(i, v).drop_last() =~= s.drop_last().update(i, v));
    }
}

/// The occupancy count never exceeds the number of cells, and reaches it
/// exactly on a fully occupied sequence.
pub proof fn lemma_count_full(s: Seq<u32>)
    ensures
        count_nonzero(s) <= s.len(),
        (forall|i: int| 0 <= i < s.len() ==> s[i] != 0) ==> count_nonzero(s) == s.len(),
    decreases s.len(),
{
    if s.len() > 0 {
        lemma_count_full(s.drop_last());
        assert forall|i: int| 0 <= i < s.drop_last().len() implies s.drop_last()[i] == s[i] by {}
    }
}

/// The board: a square grid of side `size` with the values of its cells.
#[derive(Debug)]
pub struct GridState {
    pub size: u8,
    pub cells: Vec<u32>,
}

impl GridState {
    /// Well-formedness: the side length is at least 2 and the cell store
    /// covers the whole square.
    pub open spec fn wf(self) -> bool {
        &&& 2 <= self.size
        &&& self.cells@.len() == (self.size as int) * (self.size as int)
    }

    /// The side length as a mathematical integer.
    pub open spec fn side(self) -> int {
        self.size as int
    }

    pub open spec fn in_bounds(self, x: int, y: int) -> bool {
        0 <= x < self.side() && 0 <= y < self.side()
    }

    /// The value at cell `(x, y)`; `0` means empty.
    pub open spec fn cell(self, x: int, y: int) -> u32 {
        self.cells@[y * self.side() + x]
    }

    /// Number of occupied cells.
    pub open spec fn tile_count(self) -> nat {
        count_nonzero(self.cells@)
    }

    /// Every cell is occupied.
    pub open spec fn is_full(self) -> bool {
        forall|x: int, y: int| self.in_bounds(x, y) ==> #[trigger] self.cell(x, y) != 0
    }

    /// A fresh, empty board.
    pub fn new(size: u8) -> (r: GridState)
        requires
            2 <= size,
        ensures
            r.wf(),
            r.size == size,
            r.cells@.len() == size * size,
            forall|i: int| 0 <= i < r.cells@.len() ==> r.cells@[i] == 0,
            r.tile_count() == 0,
    {
        proof {
            assert((size as int) * (size as int) <= 255 * 255) by (nonlinear_arith)
                requires size <= 255;
        }
        let total: usize = size as usize * size as usize;
        let mut cells: Vec<u32> = Vec::new();
        let mut i: usize = 0;
        while i < total
            invariant
                i <= total,
                cells@.len() == i,
                forall|j: int| 0 <= j < i ==> cells@[j] == 0,
                count_nonzero(cells@) == 0,
            decreases total - i,
        {
            proof {
                assert(cells@.push(0u32).drop_last() =~= cells@);
            }
            cells.push(0);
            i = i + 1;
        }
        GridState { size, cells }
    }

    /// Index of cell `(x, y)` in the row-major store.
    fn index_of(&self, x: u8, y: u8) -> (r: usize)
        requires
            self.wf(),
            self.in_bounds(x as int, y as int),
        ensures
            r == (y as int) * self.side() + (x as int),
            r < self.cells@.len(),
    {
        proof {
            assert((y as int) * (self.size as int) + (x as int) < (self.size as int) * (
            self.size as int) && (y as int) * (self.size as int) + (x as int) < 65536) by (
            nonlinear_arith)
                requires
                    0 <= (x as int) < (self.size as int),
                    0 <= (y as int) < (self.size as int),
                    (self.size as int) <= 255,
            ;
        }
        y as usize * self.size as usize + x as usize
    }

    /// Whether `pos` lies on the board.
    pub fn pos_in_bounds(&self, pos: Position) -> (r: bool)
        requires
            self.wf(),
        ensures
            r == self.in_bounds(pos.x as int, pos.y as int),
    {
        (pos.x as usize) < (self.size as usize) && (pos.y as usize) < (self.size as usize)
    }

    /// The tile at `pos`, if that cell is occupied.
    pub fn tile_at(&self, pos: Position) -> (r: Option<Tile>)
        requires
            self.wf(),
            self.in_bounds(pos.x as int, pos.y as int),
        ensures
            self.cell(pos.x as int, pos.y as int) == 0 ==> r is None,
            self.cell(pos.x as int, pos.y as int) != 0 ==> r == Some(
                Tile { pos, value: self.cell(pos.x as int, pos.y as int) },
            ),
    {
        let i = self.index_of(pos.x, pos.y);
        let v = self.cells[i];
        if v == 0 {
            None
        } else {
            Some(Tile { pos, value: v })
        }
    }

    /// Place a tile of the given value on an empty in-bounds cell.
    pub fn insert(&mut self, pos: Position, value: u32)
        requires
            old(self).wf(),
            old(self).in_bounds(pos.x as int, pos.y as int),
            old(self).cell(pos.x as int, pos.y as int) == 0,
            value != 0,
        ensures
            final(self).wf(),
            final(self).size == old(self).size,
            final(self).cells@ == old(self).cells@.update(
                (pos.y as int) * old(self).side() + (pos.x as int),
                value,
            ),
            final(self).cell(pos.x as int, pos.y as int) == value,
            forall|x: int, y: int|
                final(self).in_bounds(x, y) && !(x == pos.x as int && y == pos.y as int)
                    ==> final(self).cell(x, y) == old(self).cell(x, y),
            final(self).tile_count() == old(self).tile_count() + 1,
    {
        let i = self.index_of(pos.x, pos.y);
        self.cells.set(i, value);
        proof {
            lemma_count_update(old(self).cells@, i as int, value);
            assert forall|x: int, y: int|
                self.in_bounds(x, y) && !(x == pos.x as int && y == pos.y as int) implies self.cell(
                x,
                y,
            ) == old(self).cell(x, y) by {
                assert(y * self.side() + x != (pos.y as int) * self.side() + (pos.x as int)
                    && 0 <= y * self.side() + x < self.side() * self.side()) by (nonlinear_arith)
                    requires
                        0 <= x < self.side(),
                        0 <= y < self.side(),
                        0 <= (pos.x as int) < self.side(),
                        0 <= (pos.y as int) < self.side(),
                        !(x == pos.x as int && y == pos.y as int),
                ;
            }
        }
    }

    /// Remove every tile from the board.
    pub fn clear(&mut self)
        requires
            old(self).wf(),
        ensures
            final(self).wf(),
            final(self).size == old(self).size,
            forall|i: int| 0 <= i < final(self).cells@.len() ==> final(self).cells@[i] == 0,
            final(self).cells@.len() == old(self).cells@.len(),
            final(self).tile_count() == 0,
    {
        let size = self.size;
        *self = GridState::new(size);
    }

    /// Every live tile, in row-major order: positions are in bounds and
    /// pairwise distinct, values match the grid, every occupied cell is
    /// reported, and the count is exact.
    pub fn tiles(&self) -> (r: Vec<Tile>)
        requires
            self.wf(),
        ensures
            r@.len() == self.tile_count(),
            forall|k: int|
                0 <= k < r@.len() ==> {
                    &&& self.in_bounds(#[trigger] r@[k].pos.x as int, r@[k].pos.y as int)
                    &&& r@[k].value == self.cell(r@[k].pos.x as int, r@[k].pos.y as int)
                    &&& r@[k].value != 0
                },
            forall|k1: int, k2: int|
                0 <= k1 < k2 < r@.len() ==> #[trigger] r@[k1].pos != #[trigger] r@[k2].pos,
            forall|x: int, y: int|
                self.in_bounds(x, y) && #[trigger] self.cell(x, y) != 0 ==> exists|k: int|
                    0 <= k < r@.len() && #[trigger] r@[k].pos.x == x && r@[k].pos.y == y,
    {
        let n = self.size as usize;
        let mut r: Vec<Tile> = Vec::new();
        let mut y: usize = 0;
        let mut i: usize = 0;
        while y < n
            invariant
                self.wf(),
                n == self.side(),
                y <= n,
                i == y * n,
                r@.len() == count_nonzero(self.cells@.subrange(0, i as int)),
                forall|k: int|
                    0 <= k < r@.len() ==> {
                        &&& self.in_bounds(#[trigger] r@[k].pos.x as int, r@[k].pos.y as int)
                        &&& r@[k].value == self.cell(r@[k].pos.x as int, r@[k].pos.y as int)
                        &&& r@[k].value != 0
                        &&& (r@[k].pos.y as int) * self.side() + (r@[k].pos.x as int) < i
                    },
                forall|k1: int, k2: int|
                    0 <= k1 < k2 < r@.len() ==> (#[trigger] r@[k1].pos.y as int) * self.side() + (
                    r@[k1].pos.x as int) < (#[trigger] r@[k2].pos.y as int) * self.side() + (
                    r@[k2].pos.x as int),
                forall|x0: int, y0: int|
                    self.in_bounds(x0, y0) && y0 * self.side() + x0 < i && #[trigger] self.cell(
                        x0,
                        y0,
                    ) != 0 ==> exists|k: int|
                        0 <= k < r@.len() && #[trigger] r@[k].pos.x == x0 && r@[k].pos.y == y0,
            decreases n - y,
        {
            let mut x: usize = 0;
            while x < n
                invariant
                    self.wf(),
                    n == self.side(),
                    y < n,
                    x <= n,
                    i == y * n + x,
                    r@.len() == count_nonzero(self.cells@.subrange(0, i as int)),
                    forall|k: int|
                        0 <= k < r@.len() ==> {
                            &&& self.in_bounds(#[trigger] r@[k].pos.x as int, r@[k].pos.y as int)
                            &&& r@[k].value == self.cell(r@[k].pos.x as int, r@[k].pos.y as int)
                            &&& r@[k].value != 0
                            &&& (r@[k].pos.y as int) * self.side() + (r@[k].pos.x as int) < i
                        },
                    forall|k1: int, k2: int|
                        0 <= k1 < k2 < r@.len() ==> (#[trigger] r@[k1].pos.y as int) * self.side()
                            + (r@[k1].pos.x as int) < (#[trigger] r@[k2].pos.y as int)
                            * self.side() + (r@[k2].pos.x as int),
                    forall|x0: int, y0: int|
                        self.in_bounds(x0, y0) && y0 * self.side() + x0 < i
                            && #[trigger] self.cell(x0, y0) != 0 ==> exists|k: int|
                            0 <= k < r@.len() && #[trigger] r@[k].pos.x == x0 && r@[k].pos.y == y0,
                decreases n - x,
            {
                proof {
                    assert((y as int) * (n as int) + (x as int) < (n as int) * (n as int) && (n
                        as int) * (n as int) <= 65025 && ((y as int) + 1) * (n as int) == (y
                        as int) * (n as int) + (n as int)) by (nonlinear_arith)
                        requires
                            0 <= (x as int) < (n as int),
                            0 <= (y as int) < (n as int),
                            (n as int) <= 255,
                    ;
                }
                let v = self.cells[i];
                proof {
                    assert(self.cells@.subrange(0, i + 1).drop_last() =~= self.cells@.subrange(
                        0,
                        i as int,
                    ));
                    assert(self.cells@.subrange(0, i + 1).last() == self.cells@[i as int]);
                }
                if v != 0 {
                    let t = Tile { pos: Position { x: x as u8, y: y as u8 }, value: v };
                    proof {
                        assert(self.cell(x as int, y as int) == self.cells@[i as int]);
                    }
                    let ghost old_r = r@;
                    r.push(t);
                    proof {
                        assert forall|x0: int, y0: int|
                            self.in_bounds(x0, y0) && y0 * self.side() + x0 < i + 1
                                && #[trigger] self.cell(x0, y0) != 0 implies exists|k: int|
                            0 <= k < r@.len() && #[trigger] r@[k].pos.x == x0 && r@[k].pos.y
                                == y0 by {
                            if y0 * self.side() + x0 < i {
                                let k0 = choose|k: int|
                                    0 <= k < old_r.len() && #[trigger] old_r[k].pos.x == x0
                                        && old_r[k].pos.y == y0;
                                assert(r@[k0].pos.x == x0 && r@[k0].pos.y == y0);
                            } else {
                                assert(y0 == y as int && x0 == x as int) by (nonlinear_arith)
                                    requires
                                        0 <= x0 < self.side(),
                                        0 <= y0 < self.side(),
                                        0 <= (x as int) < self.side(),
                                        0 <= (y as int) < self.side(),
                                        i == (y as int) * self.side() + (x as int),
                                        i <= y0 * self.side() + x0 < i + 1,
                                ;
                                assert(r@[r@.len() - 1].pos.x == x0 && r@[r@.len() - 1].pos.y
                                    == y0);
                            }
                        }
                    }
                }
                x = x + 1;
                i = i + 1;
            }
            proof {
                assert(((y as int) + 1) * (n as int) == (y as int) * (n as int) + (n as int)) by (
                nonlinear_arith);
            }
            y = y + 1;
        }
        proof {
            assert(self.cells@.subrange(0, i as int) =~= self.cells@);
            assert forall|x0: int, y0: int| self.in_bounds(x0, y0) implies y0 * self.side() + x0
                < i by {
                assert(y0 * self.side() + x0 < self.side() * self.side()) by (nonlinear_arith)
                    requires
                        0 <= x0 < self.side(),
                        0 <= y0 < self.side(),
                ;
            }
            assert forall|k1: int, k2: int| 0 <= k1 < k2 < r@.len() implies #[trigger] r@[k1].pos
                != #[trigger] r@[k2].pos by {
                assert((r@[k1].pos.y as int) * self.side() + (r@[k1].pos.x as int) < (
                r@[k2].pos.y as int) * self.side() + (r@[k2].pos.x as int));
            }
        }
        r
    }

    /// The positions of every live tile; same order and guarantees as
    /// `tiles`.
    pub fn occupied_positions(&self) -> (r: Vec<Position>)
        requires
            self.wf(),
        ensures
            r@.len() == self.tile_count(),
            forall|k: int|
                0 <= k < r@.len() ==> self.in_bounds(#[trigger] r@[k].x as int, r@[k].y as int)
                    && self.cell(r@[k].x as int, r@[k].y as int) != 0,
            forall|k1: int, k2: int|
                0 <= k1 < k2 < r@.len() ==> #[trigger] r@[k1] != #[trigger] r@[k2],
            forall|x: int, y: int|
                self.in_bounds(x, y) && #[trigger] self.cell(x, y) != 0 ==> exists|k: int|
                    0 <= k < r@.len() && #[trigger] r@[k].x == x && r@[k].y == y,
    {
        let tiles = self.tiles();
        let mut r: Vec<Position> = Vec::new();
        let mut k: usize = 0;
        while k < tiles.len()
            invariant
                k <= tiles@.len(),
                r@.len() == k,
                forall|j: int| 0 <= j < k ==> r@[j] == tiles@[j].pos,
            decreases tiles@.len() - k,
        {
            r.push(tiles[k].pos);
            k = k + 1;
        }
        proof {
            assert forall|x: int, y: int|
                self.in_bounds(x, y) && #[trigger] self.cell(x, y) != 0 implies exists|k0: int|
                0 <= k0 < r@.len() && #[trigger] r@[k0].x == x && r@[k0].y == y by {
                let k0 = choose|k0: int|
                    0 <= k0 < tiles@.len() && #[trigger] tiles@[k0].pos.x == x && tiles@[k0].pos.y
                        == y;
                assert(r@[k0].x == x && r@[k0].y == y);
            }
        }
        r
    }
}

} // verus!
