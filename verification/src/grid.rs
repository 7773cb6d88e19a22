//! The in-memory board: dimensions fixed at handshake time plus one tile of
//! state per cell, stored in row-major order (y outer, x inner).

use vstd::prelude::*;

verus! {

/// A grid coordinate: `x` is the column, `y` the row. Used both to index the
/// grid and to say which tile a move command applies to.
#[derive(Clone, Copy, Debug, PartialEq, Eq, Hash, Structural)]
pub struct Location {
    pub x: u16,
    pub y: u16,
}

/// Per-cell state. `owner` 0 means the tile is unclaimed.
#[derive(Clone, Copy, Debug, PartialEq, Eq, Structural)]
pub struct Tile {
    pub owner: u8,
    pub strength: u8,
}

/// The playing field. Dimensions are set once, from the size line of the
/// handshake, and never change; per-turn decodes overwrite the tiles in
/// place. `contents` holds the tiles row-major: the tile at `(x, y)` sits at
/// index `y * width + x`.
pub struct GameMap {
    pub width: u16,
    pub height: u16,
    pub contents: Vec<Tile>,
}

impl GameMap {
    /// Number of tiles on the board.
    pub open spec fn area(self) -> nat {
        self.width as nat * self.height as nat
    }

    /// Shape invariant: one tile per cell, for the whole session.
    pub open spec fn wf(self) -> bool {
        self.contents@.len() == self.area()
    }

    /// The tile at column `x`, row `y`, under the row-major layout.
    pub open spec fn tile(self, x: int, y: int) -> Tile {
        self.contents@[y * self.width as int + x]
    }

    /// A fresh board of unclaimed, zero-strength tiles.
    pub fn new(width: u16, height: u16) -> (g: GameMap)
        ensures
            g.wf(),
            g.width == width,
            g.height == height,
            forall|i: int|
                0 <= i < g.area() ==> g.contents@[i] == (Tile { owner: 0, strength: 0 }),
    {
        proof {
            lemma_area_fits(width, height);
        }
        let n: usize = (width as usize) * (height as usize);
        let mut contents: Vec<Tile> = Vec::new();
        while contents.len() < n
            invariant
                contents@.len() <= n,
                forall|i: int|
                    0 <= i < contents@.len() ==> contents@[i] == (Tile {
                        owner: 0,
                        strength: 0,
                    }),
            decreases n - contents@.len(),
        {
            contents.push(Tile { owner: 0, strength: 0 });
        }
        GameMap { width, height, contents }
    }

    /// Read the tile at a coordinate. Callers only form coordinates from the
    /// decode loop bounds, so an out-of-range access is a caller bug and is
    /// ruled out by contract rather than clamped.
    pub fn tile_at(&self, x: u16, y: u16) -> (t: Tile)
        requires
            self.wf(),
            x < self.width,
            y < self.height,
        ensures
            t == self.tile(x as int, y as int),
    {
        proof {
            lemma_area_fits(self.width, self.height);
            lemma_row_major_index(self.width as int, self.height as int, x as int, y as int);
        }
        let i: usize = (y as usize) * (self.width as usize) + (x as usize);
        self.contents[i]
    }

    /// Overwrite the tile at a coordinate, leaving the shape untouched.
    pub fn set_tile(&mut self, x: u16, y: u16, t: Tile)
        requires
            old(self).wf(),
            x < old(self).width,
            y < old(self).height,
        ensures
            final(self).width == old(self).width,
            final(self).height == old(self).height,
            final(self).wf(),
            final(self).contents@ == old(self).contents@.update(
                y as int * old(self).width as int + x as int,
                t,
            ),
    {
        proof {
            lemma_area_fits(self.width, self.height);
            lemma_row_major_index(self.width as int, self.height as int, x as int, y as int);
        }
        let i: usize = (y as usize) * (self.width as usize) + (x as usize);
        self.contents[i] = t;
    }
}

/// The tile count of any board fits comfortably below `u32::MAX`, so the
/// row-major index arithmetic never overflows `usize`.
pub proof fn lemma_area_fits(width: u16, height: u16)
    ensures
        width as int * height as int <= 0xFFFE0001,
{
    assert(width as int * height as int <= 0xFFFE0001) by (nonlinear_arith)
        requires
            width <= 0xFFFF,
            height <= 0xFFFF,
    ;
}

/// A row-major index formed from in-range coordinates lands inside the grid.
pub proof fn lemma_row_major_index(w: int, h: int, x: int, y: int)
    requires
        0 <= x < w,
        0 <= y < h,
    ensures
        0 <= y * w + x < h * w,
{
    assert(0 <= y * w + x < h * w) by (nonlinear_arith)
        requires
            0 <= x < w,
            0 <= y < h,
    ;
}

} // verus!
