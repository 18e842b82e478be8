//! The maze itself: a grid of tiles that starts with every wall standing and
//! is carved into a perfect maze by a depth-first walk.

use crate::grid::{beside, lemma_index_in_range, lemma_with_tile, Grid};
use crate::shuffle::{random_orders, seeded_orders, seeded_table, table};
use crate::tile::{
    entered, is_side, lemma_full_tile, opposite, without_wall, Direction, EAST, FULL, NORTH, SOUTH,
    VISITED, WEST,
};
use crate::perfect::lemma_spans_from_any;
use crate::walk::{
    are_orders, carved, lemma_begin_inv, lemma_begin_safe, lemma_done, lemma_finished,
    lemma_nothing_left, lemma_opens_on, lemma_step_inv, lemma_step_safe, lemma_untouched,
    lemma_untouched_underway, Visit, Walk,
};
use vstd::prelude::*;

verus! {

/// Why a maze could not be made or asked.
#[derive(Clone, Copy, Debug, PartialEq, Eq, Structural)]
pub enum MazeError {
    /// The width or the height is zero.
    InvalidDimensions,
    /// The position lies outside the grid.
    OutOfBounds,
}

/// A rectangular maze. Each tile is a byte: four wall bits and a visited bit.
#[derive(Debug, PartialEq, Eq)]
pub struct Maze {
    grid: Vec<u8>,
    width: usize,
    height: usize,
}

/// A tile on the way of the walk, and how many of its sides have been tried.
#[derive(Clone, Copy)]
struct Frame {
    x: usize,
    y: usize,
    tried: usize,
}

impl View for Frame {
    type V = Visit;

    closed spec fn view(&self) -> Visit {
        Visit { x: self.x as int, y: self.y as int, tried: self.tried as int }
    }
}

/// The walk that has carved `grid` so far and has `trail` still to go back.
spec fn walk_of(grid: Grid, trail: Seq<Frame>) -> Walk {
    Walk { grid, trail: Seq::new(trail.len(), |k: int| trail[k]@) }
}

/// The side opposite to `wall`.
fn opposite_wall(wall: u8) -> (back: u8)
    requires
        is_side(wall),
    ensures
        back == opposite(wall),
        is_side(back),
{
    if wall == NORTH {
        SOUTH
    } else if wall == SOUTH {
        NORTH
    } else if wall == WEST {
        EAST
    } else {
        WEST
    }
}

impl View for Maze {
    type V = Grid;

    closed spec fn view(&self) -> Grid {
        Grid { width: self.width as int, height: self.height as int, tiles: self.grid@ }
    }
}

impl Clone for Maze {
    /// A maze of the same size with the same tiles.
    fn clone(&self) -> (copy: Maze)
        ensures
            copy@ == self@,
    {
        proof {
            use_type_invariant(self);
        }
        let grid = self.grid.clone();
        assert(grid@ =~= self.grid@);
        Maze { grid, width: self.width, height: self.height }
    }
}

impl Maze {
    /// Every maze has at least one tile, and a byte for each tile.
    #[verifier::type_invariant]
    spec fn well_shaped(&self) -> bool {
        self@.shaped()
    }

    /// The maze is one that this library hands out: a grid on which nothing
    /// has been carved yet, or a perfect maze. Either way its facets agree,
    /// and a tile that has not been visited has all its walls.
    pub open spec fn wf(&self) -> bool {
        &&& self@.underway()
        &&& self@.untouched() || self@.perfect()
    }

    /// Makes a maze of `width` by `height` tiles with every wall standing.
    /// A maze without tiles is refused.
    pub fn new(width: usize, height: usize) -> (made: Result<Maze, MazeError>)
        requires
            width * height <= usize::MAX,
        ensures
            width == 0 || height == 0 ==> made == Err::<Maze, MazeError>(
                MazeError::InvalidDimensions,
            ),
            width > 0 && height > 0 ==> made is Ok && made->Ok_0@ == Grid::fresh(
                width as int,
                height as int,
            ) && made->Ok_0.wf(),
    {
        if width == 0 || height == 0 {
            return Err(MazeError::InvalidDimensions);
        }
        let maze = Maze { grid: vec![FULL; width * height], width, height };
        proof {
            assert(maze@.tiles =~= Grid::fresh(width as int, height as int).tiles);
            lemma_untouched_underway(maze@);
        }
        Ok(maze)
    }

    /// Carves the maze with orders drawn at random. On a maze that has been
    /// carved before, nothing changes.
    pub fn recursive_backtracker(&mut self)
        requires
            old(self).wf(),
        ensures
            final(self).wf(),
            final(self)@.perfect(),
            final(self)@.width == old(self)@.width,
            final(self)@.height == old(self)@.height,
            exists|orders: Seq<Seq<u8>>|
                are_orders(orders, old(self)@.width * old(self)@.height) && final(self)@
                    == #[trigger] carved(old(self)@, orders),
            old(self)@.visited(0, 0) ==> final(self)@ == old(self)@,
    {
        let orders = random_orders(self.grid.len());
        self.carve_with(&orders);
    }

    /// Carves the maze with the orders that `seed` gives: the same seed on a
    /// grid of the same size gives the same maze, as long as the library is
    /// built with the same version of `rand`. On a maze that has been carved
    /// before, nothing changes.
    pub fn recursive_backtracker_seeded(&mut self, seed: u64)
        requires
            old(self).wf(),
        ensures
            final(self).wf(),
            final(self)@.perfect(),
            final(self)@.width == old(self)@.width,
            final(self)@.height == old(self)@.height,
            final(self)@ == carved(
                old(self)@,
                seeded_table(seed, old(self)@.width * old(self)@.height),
            ),
    {
        let orders = seeded_orders(seed, self.grid.len());
        self.carve_with(&orders);
    }

    /// Carves the maze by a depth-first walk from the corner `(0, 0)` that
    /// tries the sides of each tile in the order that `orders` holds for it,
    /// the tiles counted row by row. On a maze that has been carved before,
    /// nothing changes.
    pub fn carve_with(&mut self, orders: &Vec<Vec<u8>>)
        requires
            old(self).wf(),
            are_orders(table(orders@), old(self)@.width * old(self)@.height),
        ensures
            final(self)@ == carved(old(self)@, table(orders@)),
            final(self).wf(),
            final(self)@.perfect(),
            final(self)@.width == old(self)@.width,
            final(self)@.height == old(self)@.height,
    {
        proof {
            lemma_full_tile();
            if self@.untouched() {
                lemma_untouched(self@);
                assert(self@.tile(0, 0) == FULL);
            } else {
                assert(self@.visited(0, 0));
            }
        }
        if self.is_not_visited(0, 0) {
            self.tile_visit(0, 0, orders);
        }
    }

    /// Whether a wall stands on the north side of the tile at `(x, y)`.
    pub fn has_north(&self, x: usize, y: usize) -> (wall: bool)
        requires
            self@.contains(x as int, y as int),
        ensures
            wall == self@.wall(x as int, y as int, NORTH),
    {
        proof {
            use_type_invariant(self);
        }
        self.get_tile(x, y) & NORTH != 0
    }

    /// Whether a wall stands on the south side of the tile at `(x, y)`.
    pub fn has_south(&self, x: usize, y: usize) -> (wall: bool)
        requires
            self@.contains(x as int, y as int),
        ensures
            wall == self@.wall(x as int, y as int, SOUTH),
    {
        proof {
            use_type_invariant(self);
        }
        self.get_tile(x, y) & SOUTH != 0
    }

    /// Whether a wall stands on the west side of the tile at `(x, y)`.
    pub fn has_west(&self, x: usize, y: usize) -> (wall: bool)
        requires
            self@.contains(x as int, y as int),
        ensures
            wall == self@.wall(x as int, y as int, WEST),
    {
        proof {
            use_type_invariant(self);
        }
        self.get_tile(x, y) & WEST != 0
    }

    /// Whether a wall stands on the east side of the tile at `(x, y)`.
    pub fn has_east(&self, x: usize, y: usize) -> (wall: bool)
        requires
            self@.contains(x as int, y as int),
        ensures
            wall == self@.wall(x as int, y as int, EAST),
    {
        proof {
            use_type_invariant(self);
        }
        self.get_tile(x, y) & EAST != 0
    }

    /// Whether a wall stands on the given side of the tile at `(x, y)`; a
    /// position outside the grid is reported as such.
    pub fn has_wall(&self, x: usize, y: usize, side: Direction) -> (wall: Result<bool, MazeError>)
        ensures
            self@.contains(x as int, y as int) ==> wall == Ok::<bool, MazeError>(
                self@.wall(x as int, y as int, side.bit()),
            ),
            !self@.contains(x as int, y as int) ==> wall == Err::<bool, MazeError>(
                MazeError::OutOfBounds,
            ),
    {
        if x < self.width && y < self.height {
            Ok(self.get_tile(x, y) & side.mask() != 0)
        } else {
            Err(MazeError::OutOfBounds)
        }
    }

    /// The tile at `(x, y)`: its four wall bits and its visited bit.
    pub fn get_tile(&self, x: usize, y: usize) -> (tile: u8)
        requires
            self@.contains(x as int, y as int),
        ensures
            tile == self@.tile(x as int, y as int),
    {
        self.grid[self.index_of(x, y)]
    }

    /// How many tiles the maze has from west to east.
    pub fn get_width(&self) -> (width: usize)
        ensures
            width == self@.width,
            width >= 1,
    {
        proof {
            use_type_invariant(self);
        }
        self.width
    }

    /// How many tiles the maze has from north to south.
    pub fn get_height(&self) -> (height: usize)
        ensures
            height == self@.height,
            height >= 1,
    {
        proof {
            use_type_invariant(self);
        }
        self.height
    }

    /// Where the tile at `(x, y)` stands among the tiles, row by row.
    fn index_of(&self, x: usize, y: usize) -> (i: usize)
        requires
            self@.contains(x as int, y as int),
        ensures
            i == self@.index(x as int, y as int),
            i < self@.tiles.len(),
            i < self@.width * self@.height,
    {
        proof {
            use_type_invariant(self);
            lemma_index_in_range(self@, x as int, y as int);
            assert(self.grid.len() == self.grid@.len());
            assert(self.width * y >= 0) by (nonlinear_arith);
        }
        self.width * y + x
    }

    /// Whether the walk has yet to enter the tile at `(x, y)`.
    fn is_not_visited(&self, x: usize, y: usize) -> (unvisited: bool)
        requires
            self@.contains(x as int, y as int),
        ensures
            unvisited == !self@.visited(x as int, y as int),
    {
        self.get_tile(x, y) & VISITED == 0
    }

    /// Takes down the wall `wall` of the tile at `(x, y)`.
    fn break_wall(&mut self, x: usize, y: usize, wall: u8)
        requires
            old(self)@.contains(x as int, y as int),
        ensures
            final(self)@ == old(self)@.without(x as int, y as int, wall),
    {
        proof {
            use_type_invariant(&*self);
            lemma_with_tile(self@, x as int, y as int, without_wall(self@.tile(x as int, y as int), wall));
        }
        let i = self.index_of(x, y);
        let tile = self.grid[i];
        self.grid[i] = tile & !wall;
    }

    /// Marks the tile at `(x, y)` as visited.
    fn enter(&mut self, x: usize, y: usize)
        requires
            old(self)@.contains(x as int, y as int),
        ensures
            final(self)@ == old(self)@.enter(x as int, y as int),
    {
        proof {
            use_type_invariant(&*self);
            lemma_with_tile(self@, x as int, y as int, entered(self@.tile(x as int, y as int)));
        }
        let i = self.index_of(x, y);
        let tile = self.grid[i];
        self.grid[i] = tile | VISITED;
    }

    /// The position beyond the side `wall` of `(x, y)`, if the grid has one there.
    fn neighbor(&self, x: usize, y: usize, wall: u8) -> (beyond: Option<(usize, usize)>)
        requires
            self@.contains(x as int, y as int),
            is_side(wall),
        ensures
            match beyond {
                Some(n) => (n.0 as int, n.1 as int) == beside(x as int, y as int, wall)
                    && self@.contains(n.0 as int, n.1 as int),
                None => !self@.contains(
                    beside(x as int, y as int, wall).0,
                    beside(x as int, y as int, wall).1,
                ),
            },
    {
        if wall == NORTH {
            if y > 0 {
                Some((x, y - 1))
            } else {
                None
            }
        } else if wall == SOUTH {
            if y < self.height - 1 {
                Some((x, y + 1))
            } else {
                None
            }
        } else if wall == WEST {
            if x > 0 {
                Some((x - 1, y))
            } else {
                None
            }
        } else {
            if x < self.width - 1 {
                Some((x + 1, y))
            } else {
                None
            }
        }
    }

    /// Walks depth-first from `(x, y)` over the tiles that have not been
    /// visited, and opens a passage to every tile it enters; the sides of
    /// each tile are tried in the order that `orders` holds for it. The way
    /// back is kept on a trail of its own, so the walk goes as deep as the
    /// grid is large without leaning on the call stack. The walk takes walls
    /// down and never sets one up, and it leaves the facets in agreement. On
    /// a grid that nothing has touched it leaves a perfect maze; where every
    /// tile is visited it changes nothing.
    pub fn tile_visit(&mut self, x: usize, y: usize, orders: &Vec<Vec<u8>>)
        requires
            old(self)@.underway(),
            old(self)@.contains(x as int, y as int),
            are_orders(table(orders@), old(self)@.width * old(self)@.height),
        ensures
            final(self)@ == Walk::finished(old(self)@, table(orders@), x as int, y as int).grid,
            final(self)@.underway(),
            old(self)@.opens_into(final(self)@),
            final(self)@.visited(x as int, y as int),
            old(self)@.untouched() ==> final(self)@.perfect(),
            old(self)@.all_visited() ==> final(self)@ == old(self)@,
            old(self).wf() ==> final(self).wf(),
    {
        let ghost start = self@;
        let ghost tab = table(orders@);
        let ghost sx = x as int;
        let ghost sy = y as int;
        let ghost begun = Walk::begin(start, sx, sy);
        self.enter(x, y);
        let mut trail: Vec<Frame> = Vec::new();
        trail.push(Frame { x, y, tried: 0 });
        let ghost mut steps: nat = 0;
        proof {
            lemma_begin_safe(start, tab, sx, sy);
            lemma_opens_on(begun.grid, begun.grid, begun.grid);
            if start.untouched() {
                lemma_begin_inv(start, tab, sx, sy);
            }
            assert(walk_of(self@, trail@).trail =~= begun.trail);
        }
        while trail.len() > 0
            invariant
                tab == table(orders@),
                begun == Walk::begin(start, sx, sy),
                walk_of(self@, trail@) == begun.run(tab, steps),
                walk_of(self@, trail@).safe(tab),
                begun.grid.opens_into(self@),
                start.untouched() ==> walk_of(self@, trail@).inv(tab, sx, sy),
            decreases
                    self@.unvisited_count(),
                    trail.len(),
                    (if trail.len() > 0 {
                        4 - trail[trail.len() - 1].tried
                    } else {
                        0
                    }),
        {
            let ghost before = walk_of(self@, trail@);
            let last = trail.len() - 1;
            let top = trail[last];
            proof {
                assert(before.trail[last as int] == top@);
                lemma_step_safe(before, tab);
                lemma_opens_on(begun.grid, before.grid, before.step(tab).grid);
                if start.untouched() {
                    lemma_step_inv(before, tab, sx, sy);
                }
            }
            if top.tried >= 4 {
                trail.pop();
                proof {
                    assert(walk_of(self@, trail@).trail =~= before.step(tab).trail);
                }
            } else {
                let wall = orders[self.index_of(top.x, top.y)][top.tried];
                assert(wall == tab[self@.index(top.x as int, top.y as int)][top.tried as int]);
                trail[last] = Frame { x: top.x, y: top.y, tried: top.tried + 1 };
                let beyond = self.neighbor(top.x, top.y, wall);
                if let Some(n) = beyond {
                    if self.is_not_visited(n.0, n.1) {
                        let back = opposite_wall(wall);
                        self.break_wall(top.x, top.y, wall);
                        self.break_wall(n.0, n.1, back);
                        self.enter(n.0, n.1);
                        trail.push(Frame { x: n.0, y: n.1, tried: 0 });
                    }
                }
                proof {
                    assert(walk_of(self@, trail@).trail =~= before.step(tab).trail);
                    assert(walk_of(self@, trail@).grid == before.step(tab).grid);
                }
            }
            proof {
                steps = steps + 1;
            }
        }
        proof {
            lemma_finished(start, tab, sx, sy, steps);
            lemma_opens_on(start, begun.grid, self@);
            if start.untouched() {
                lemma_done(walk_of(self@, trail@), tab, sx, sy);
                lemma_spans_from_any(self@, sx, sy, 0, 0);
            }
            if start.all_visited() {
                lemma_nothing_left(start, tab, sx, sy, steps);
            }
        }
    }
}

} // verus!
