use vstd::prelude::*;

verus! {

/// Largest board side accepted, so that `size * size` always fits in a `usize`.
pub const MAX_SIZE: usize = 4096;

/// One grid cell: a color index and whether the tile is still present.
#[derive(Clone, Copy, Debug, PartialEq, Eq, Structural)]
pub struct Tile {
    pub color: usize,
    pub enabled: bool,
}

/// What a cell shows to the game: its color if present, nothing otherwise.
/// The color of a removed tile carries no meaning.
pub open spec fn cell_of(t: Tile) -> Option<usize> {
    if t.enabled {
        Some(t.color)
    } else {
        None
    }
}

/// A grid of cells indexed `[x][y]`: `x` the column, `y` the row, row 0 on top.
pub open spec fn grid_wf(g: Seq<Seq<Option<usize>>>, n: int) -> bool {
    &&& g.len() == n
    &&& forall|x: int| 0 <= x < n ==> (#[trigger] g[x]).len() == n
}

impl Tile {
    /// A present tile of the given color.
    pub fn new(color: usize) -> (r: Tile)
        ensures
            r.color == color,
            r.enabled,
    {
        Tile { color, enabled: true }
    }
}

impl Default for Tile {
    /// A present tile of color 0.
    fn default() -> (r: Tile)
        ensures
            r.color == 0,
            r.enabled,
    {
        Tile { color: 0, enabled: true }
    }
}

/// A square board of tiles, stored column by column, with the group size a
/// click must reach to remove anything.
#[derive(Debug)]
pub struct Game {
    pub size: usize,
    pub min_connected: usize,
    pub cols: Vec<Vec<Tile>>,
}

impl Game {
    /// The dimensions never change and the threshold lies in `[1, size * size]`.
    pub open spec fn wf(&self) -> bool {
        &&& 1 <= self.size <= MAX_SIZE
        &&& 1 <= self.min_connected <= self.size * self.size
        &&& self.cols@.len() == self.size
        &&& forall|x: int| 0 <= x < self.size ==> (#[trigger] self.cols@[x])@.len() == self.size
    }

    /// The board as the game sees it: column `x`, row `y`.
    pub open spec fn grid(&self) -> Seq<Seq<Option<usize>>> {
        self.cols@.map_values(|c: Vec<Tile>| c@.map_values(|t: Tile| cell_of(t)))
    }

    /// A board of `size` by `size` present tiles, all of color 0.
    pub fn new(size: usize, min_connected: usize) -> (r: Game)
        requires
            1 <= size <= MAX_SIZE,
            1 <= min_connected <= size * size,
        ensures
            r.wf(),
            r.size == size,
            r.min_connected == min_connected,
            forall|x: int, y: int|
                0 <= x < size && 0 <= y < size ==> #[trigger] r.grid()[x][y] == Some(0usize),
    {
        let mut cols: Vec<Vec<Tile>> = Vec::new();
        let mut x: usize = 0;
        while x < size
            invariant
                x <= size,
                cols@.len() == x,
                forall|i: int| 0 <= i < x ==> (#[trigger] cols@[i])@.len() == size,
                forall|i: int, j: int|
                    0 <= i < x && 0 <= j < size ==> #[trigger] cols@[i]@[j] == (Tile { color: 0, enabled: true }),
            decreases size - x,
        {
            let mut col: Vec<Tile> = Vec::new();
            let mut y: usize = 0;
            while y < size
                invariant
                    y <= size,
                    col@.len() == y,
                    forall|j: int| 0 <= j < y ==> #[trigger] col@[j] == (Tile { color: 0, enabled: true }),
                decreases size - y,
            {
                col.push(Tile::new(0));
                y = y + 1;
            }
            cols.push(col);
            x = x + 1;
        }
        Game { size, min_connected, cols }
    }

    /// A board of present tiles from colors given row by row (`rows[y][x]`).
    pub fn from_rows(rows: &Vec<Vec<usize>>, min_connected: usize) -> (r: Game)
        requires
            1 <= rows@.len() <= MAX_SIZE,
            forall|y: int| 0 <= y < rows@.len() ==> (#[trigger] rows@[y])@.len() == rows@.len(),
            1 <= min_connected <= rows@.len() * rows@.len(),
        ensures
            r.wf(),
            r.size == rows@.len(),
            r.min_connected == min_connected,
            forall|x: int, y: int|
                0 <= x < r.size && 0 <= y < r.size ==> #[trigger] r.grid()[x][y] == Some(
                    rows@[y]@[x],
                ),
    {
        let size = rows.len();
        let mut cols: Vec<Vec<Tile>> = Vec::new();
        let mut x: usize = 0;
        while x < size
            invariant
                size == rows@.len(),
                forall|y: int| 0 <= y < size ==> (#[trigger] rows@[y])@.len() == size,
                x <= size,
                cols@.len() == x,
                forall|i: int| 0 <= i < x ==> (#[trigger] cols@[i])@.len() == size,
                forall|i: int, j: int|
                    0 <= i < x && 0 <= j < size ==> #[trigger] cols@[i]@[j] == (Tile {
                        color: rows@[j]@[i],
                        enabled: true,
                    }),
            decreases size - x,
        {
            let mut col: Vec<Tile> = Vec::new();
            let mut y: usize = 0;
            while y < size
                invariant
                    size == rows@.len(),
                    forall|y: int| 0 <= y < size ==> (#[trigger] rows@[y])@.len() == size,
                    x < size,
                    y <= size,
                    col@.len() == y,
                    forall|j: int| 0 <= j < y ==> #[trigger] col@[j] == (Tile { color: rows@[j]@[x as int], enabled: true }),
                decreases size - y,
            {
                col.push(Tile::new(rows[y][x]));
                y = y + 1;
            }
            cols.push(col);
            x = x + 1;
        }
        Game { size, min_connected, cols }
    }

    /// The tile at column `x`, row `y`.
    pub fn tile(&self, x: usize, y: usize) -> (r: Tile)
        requires
            self.wf(),
            x < self.size,
            y < self.size,
        ensures
            r == self.cols@[x as int]@[y as int],
            cell_of(r) == self.grid()[x as int][y as int],
    {
        self.cols[x][y]
    }

    /// Replaces the tile at column `x`, row `y`.
    pub fn set_tile(&mut self, x: usize, y: usize, t: Tile)
        requires
            old(self).wf(),
            x < old(self).size,
            y < old(self).size,
        ensures
            final(self).wf(),
            final(self).size == old(self).size,
            final(self).min_connected == old(self).min_connected,
            final(self).cols@ == old(self).cols@.update(
                x as int,
                final(self).cols@[x as int],
            ),
            final(self).cols@[x as int]@ == old(self).cols@[x as int]@.update(y as int, t),
            final(self).grid() == old(self).grid().update(
                x as int,
                old(self).grid()[x as int].update(y as int, cell_of(t)),
            ),
    {
        self.cols[x].set(y, t);
        proof {
            assert(self.grid()[x as int] =~= old(self).grid()[x as int].update(y as int, cell_of(t)));
            assert(self.grid() =~= old(self).grid().update(
                x as int,
                old(self).grid()[x as int].update(y as int, cell_of(t)),
            ));
        }
    }

    /// True iff no tile is present.
    pub fn is_cleared(&self) -> (r: bool)
        requires
            self.wf(),
        ensures
            r == cleared(self.grid()),
    {
        let n = self.size;
        let mut x: usize = 0;
        while x < n
            invariant
                self.wf(),
                n == self.size,
                x <= n,
                forall|i: int, j: int| 0 <= i < x && 0 <= j < n ==> #[trigger] self.grid()[i][j] is None,
            decreases n - x,
        {
            let mut y: usize = 0;
            while y < n
                invariant
                    self.wf(),
                    n == self.size,
                    x < n,
                    y <= n,
                    forall|i: int, j: int| 0 <= i < x && 0 <= j < n ==> #[trigger] self.grid()[i][j] is None,
                    forall|j: int| 0 <= j < y ==> #[trigger] self.grid()[x as int][j] is None,
                decreases n - y,
            {
                if self.tile(x, y).enabled {
                    return false;
                }
                y = y + 1;
            }
            x = x + 1;
        }
        true
    }
}

/// No cell of the grid holds a tile.
pub open spec fn cleared(g: Seq<Seq<Option<usize>>>) -> bool {
    forall|x: int, y: int| 0 <= x < g.len() && 0 <= y < g[x].len() ==> #[trigger] g[x][y] is None
}

} // verus!
