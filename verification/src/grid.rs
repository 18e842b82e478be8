//! The mathematical model of a maze: a rectangle of tiles, the walls between
//! them, and what it means for the passages to form a spanning tree.

use crate::tile::{
    entered, has_wall, is_side, is_visited, lemma_entered, lemma_without_wall, opposite, walled_in,
    without_wall, EAST, FULL, NORTH, SOUTH, VISITED, WEST,
};
use vstd::prelude::*;

verus! {

/// A maze as a value: its size and its tiles, row by row.
pub struct Grid {
    pub width: int,
    pub height: int,
    pub tiles: Seq<u8>,
}

/// The position next to `(x, y)` on the side `mask`.
pub open spec fn beside(x: int, y: int, mask: u8) -> (int, int) {
    if mask == NORTH {
        (x, y - 1)
    } else if mask == SOUTH {
        (x, y + 1)
    } else if mask == WEST {
        (x - 1, y)
    } else {
        (x + 1, y)
    }
}

/// How many tiles of `tiles` have a bit of `mask` set.
pub open spec fn count_set(tiles: Seq<u8>, mask: u8) -> nat
    decreases tiles.len(),
{
    if tiles.len() == 0 {
        0
    } else {
        count_set(tiles.drop_last(), mask) + if tiles.last() & mask != 0 {
            1nat
        } else {
            0nat
        }
    }
}

/// How many tiles of `tiles` have every bit of `mask` clear.
pub open spec fn count_clear(tiles: Seq<u8>, mask: u8) -> int {
    tiles.len() - count_set(tiles, mask)
}

impl Grid {
    /// The size is positive and there is one tile for every position.
    pub open spec fn shaped(self) -> bool {
        &&& self.width >= 1
        &&& self.height >= 1
        &&& self.tiles.len() == self.width * self.height
    }

    /// `(x, y)` is a position of the grid.
    pub open spec fn contains(self, x: int, y: int) -> bool {
        0 <= x < self.width && 0 <= y < self.height
    }

    /// Where the tile at `(x, y)` stands in `tiles`.
    pub open spec fn index(self, x: int, y: int) -> int {
        self.width * y + x
    }

    /// The tile at `(x, y)`.
    pub open spec fn tile(self, x: int, y: int) -> u8 {
        self.tiles[self.index(x, y)]
    }

    /// The tile at `(x, y)` has a wall on the side `mask`.
    pub open spec fn wall(self, x: int, y: int, mask: u8) -> bool {
        has_wall(self.tile(x, y), mask)
    }

    /// The walk has entered the tile at `(x, y)`.
    pub open spec fn visited(self, x: int, y: int) -> bool {
        is_visited(self.tile(x, y))
    }

    /// The grid with the tile at `(x, y)` replaced by `tile`.
    pub open spec fn with_tile(self, x: int, y: int, tile: u8) -> Grid {
        Grid { tiles: self.tiles.update(self.index(x, y), tile), ..self }
    }

    /// The grid with the wall `mask` of the tile at `(x, y)` taken down.
    pub open spec fn without(self, x: int, y: int, mask: u8) -> Grid {
        self.with_tile(x, y, without_wall(self.tile(x, y), mask))
    }

    /// The grid with the tile at `(x, y)` marked as visited.
    pub open spec fn enter(self, x: int, y: int) -> Grid {
        self.with_tile(x, y, entered(self.tile(x, y)))
    }

    /// The grid of the given size in which every wall stands and no tile is visited.
    pub open spec fn fresh(width: int, height: int) -> Grid {
        Grid { width, height, tiles: Seq::new((width * height) as nat, |i: int| FULL) }
    }

    /// Every tile has all its walls and none is visited.
    pub open spec fn untouched(self) -> bool {
        forall|i: int| 0 <= i < self.tiles.len() ==> #[trigger] self.tiles[i] == FULL
    }

    /// The two tiles that share the facet `mask` of `(x, y)` agree on whether
    /// a wall stands there; on the rim of the grid the wall stands.
    pub open spec fn facet_agrees(self, x: int, y: int, mask: u8) -> bool {
        let n = beside(x, y, mask);
        if self.contains(n.0, n.1) {
            self.wall(x, y, mask) == self.wall(n.0, n.1, opposite(mask))
        } else {
            self.wall(x, y, mask)
        }
    }

    /// Every facet of every tile agrees with the tile on its other side, and
    /// the rim is closed.
    pub open spec fn consistent(self) -> bool {
        forall|x: int, y: int, mask: u8|
            self.contains(x, y) && is_side(mask) ==> #[trigger] self.facet_agrees(x, y, mask)
    }

    /// How many tiles are marked as visited.
    pub open spec fn visited_count(self) -> nat {
        count_set(self.tiles, VISITED)
    }

    /// How many pairs of adjacent tiles have no wall between them. In a
    /// consistent grid every such pair has a western and an eastern tile, or
    /// a northern and a southern one, so the pair is counted once: at its
    /// western tile by the missing east wall, or at its northern tile by the
    /// missing south wall.
    pub open spec fn passages(self) -> int {
        count_clear(self.tiles, EAST) + count_clear(self.tiles, SOUTH)
    }

    /// The grid after the walk has gone from `(x, y)` through the side
    /// `mask`: the wall is down on both of its faces and the tile beyond it is
    /// marked as visited.
    pub open spec fn open_passage(self, x: int, y: int, mask: u8) -> Grid {
        let n = beside(x, y, mask);
        self.without(x, y, mask).without(n.0, n.1, opposite(mask)).enter(n.0, n.1)
    }

    /// `later` has the size of this grid, and it has no wall and no unvisited
    /// tile where this grid has none.
    pub open spec fn opens_into(self, later: Grid) -> bool {
        &&& later.width == self.width
        &&& later.height == self.height
        &&& forall|x: int, y: int, mask: u8|
            self.contains(x, y) && is_side(mask) && !self.wall(x, y, mask) ==> !#[trigger] later.wall(
                x,
                y,
                mask,
            )
        &&& forall|x: int, y: int|
            self.contains(x, y) && self.visited(x, y) ==> #[trigger] later.visited(x, y)
    }

    /// How many tiles are not marked as visited.
    pub open spec fn unvisited_count(self) -> int {
        self.tiles.len() - self.visited_count()
    }

    /// Every tile is marked as visited.
    pub open spec fn all_visited(self) -> bool {
        forall|x: int, y: int| self.contains(x, y) ==> #[trigger] self.visited(x, y)
    }
}

/// The tile of a position of the grid is one of `tiles`.
pub proof fn lemma_index_in_range(g: Grid, x: int, y: int)
    requires
        g.shaped(),
        g.contains(x, y),
    ensures
        0 <= g.index(x, y) < g.tiles.len(),
        g.index(x, y) < g.width * g.height,
{
    let w = g.width;
    let h = g.height;
    assert(0 <= w * y && w * y + w <= w * h) by (nonlinear_arith)
        requires
            w >= 1,
            0 <= y < h,
    ;
}

/// Two positions of the grid share their tile only if they are the same.
pub proof fn lemma_index_distinct(g: Grid, x1: int, y1: int, x2: int, y2: int)
    requires
        g.shaped(),
        g.contains(x1, y1),
        g.contains(x2, y2),
        x1 != x2 || y1 != y2,
    ensures
        g.index(x1, y1) != g.index(x2, y2),
{
    let w = g.width;
    if y1 < y2 {
        assert(w * y1 + w <= w * y2) by (nonlinear_arith)
            requires
                w >= 1,
                y1 < y2,
        ;
    } else if y2 < y1 {
        assert(w * y2 + w <= w * y1) by (nonlinear_arith)
            requires
                w >= 1,
                y2 < y1,
        ;
    }
}

/// Every tile of `tiles` is the tile of a position of the grid.
pub proof fn lemma_position_of(g: Grid, i: int) -> (p: (int, int))
    requires
        g.shaped(),
        0 <= i < g.tiles.len(),
    ensures
        g.contains(p.0, p.1),
        g.index(p.0, p.1) == i,
{
    let w = g.width;
    let h = g.height;
    let x = i % w;
    let y = i / w;
    vstd::arithmetic::div_mod::lemma_fundamental_div_mod(i, w);
    vstd::arithmetic::div_mod::lemma_mod_bound(i, w);
    assert(0 <= y < h) by (nonlinear_arith)
        requires
            w >= 1,
            0 <= i < w * h,
            i == w * y + x,
            0 <= x < w,
    ;
    (x, y)
}

/// Replacing one tile changes that tile and no other.
pub proof fn lemma_with_tile(g: Grid, x: int, y: int, tile: u8)
    requires
        g.shaped(),
        g.contains(x, y),
    ensures
        g.with_tile(x, y, tile).shaped(),
        g.with_tile(x, y, tile).width == g.width,
        g.with_tile(x, y, tile).height == g.height,
        g.with_tile(x, y, tile).tile(x, y) == tile,
        forall|a: int, b: int|
            g.contains(a, b) && (a != x || b != y) ==> #[trigger] g.with_tile(x, y, tile).tile(a, b)
                == g.tile(a, b),
{
    lemma_index_in_range(g, x, y);
    let r = g.with_tile(x, y, tile);
    assert forall|a: int, b: int| g.contains(a, b) && (a != x || b != y) implies #[trigger] r.tile(
        a,
        b,
    ) == g.tile(a, b) by {
        lemma_index_in_range(g, a, b);
        lemma_index_distinct(g, a, b, x, y);
    }
}

/// Replacing one tile moves the count of a bit by what the old and the new
/// tile say of that bit.
pub proof fn lemma_count_update(tiles: Seq<u8>, i: int, tile: u8, mask: u8)
    requires
        0 <= i < tiles.len(),
    ensures
        count_set(tiles.update(i, tile), mask) + (if tiles[i] & mask != 0 {
            1int
        } else {
            0int
        }) == count_set(tiles, mask) + (if tile & mask != 0 {
            1int
        } else {
            0int
        }),
    decreases tiles.len(),
{
    let changed = tiles.update(i, tile);
    if i == tiles.len() - 1 {
        assert(changed.drop_last() =~= tiles.drop_last());
    } else {
        lemma_count_update(tiles.drop_last(), i, tile, mask);
        assert(changed.drop_last() =~= tiles.drop_last().update(i, tile));
    }
}

/// No more tiles have a bit set than there are tiles.
pub proof fn lemma_count_bound(tiles: Seq<u8>, mask: u8)
    ensures
        count_set(tiles, mask) <= tiles.len(),
    decreases tiles.len(),
{
    if tiles.len() > 0 {
        lemma_count_bound(tiles.drop_last(), mask);
    }
}

/// Where every tile has the bit set, the count is the number of tiles.
pub proof fn lemma_count_all_set(tiles: Seq<u8>, mask: u8)
    requires
        forall|i: int| 0 <= i < tiles.len() ==> #[trigger] tiles[i] & mask != 0,
    ensures
        count_set(tiles, mask) == tiles.len(),
    decreases tiles.len(),
{
    if tiles.len() > 0 {
        let front = tiles.drop_last();
        assert forall|i: int| 0 <= i < front.len() implies #[trigger] front[i] & mask != 0 by {
            assert(front[i] == tiles[i]);
        }
        lemma_count_all_set(front, mask);
    }
}

/// Where no tile has the bit set, the count is zero.
pub proof fn lemma_count_none_set(tiles: Seq<u8>, mask: u8)
    requires
        forall|i: int| 0 <= i < tiles.len() ==> #[trigger] tiles[i] & mask == 0,
    ensures
        count_set(tiles, mask) == 0,
    decreases tiles.len(),
{
    if tiles.len() > 0 {
        let front = tiles.drop_last();
        assert forall|i: int| 0 <= i < front.len() implies #[trigger] front[i] & mask == 0 by {
            assert(front[i] == tiles[i]);
        }
        lemma_count_none_set(front, mask);
    }
}

/// The tile next to a position is another position, and stepping back from
/// it through the opposite side returns.
pub proof fn lemma_beside(x: int, y: int, mask: u8)
    requires
        is_side(mask),
    ensures
        beside(x, y, mask) != (x, y),
        is_side(opposite(mask)),
        opposite(opposite(mask)) == mask,
        opposite(mask) != mask,
        beside(beside(x, y, mask).0, beside(x, y, mask).1, opposite(mask)) == (x, y),
{
}

/// What opening a passage changes: one wall on each of its two faces, and
/// the visited mark of the tile beyond it. Every other bit of the grid stays,
/// the facets still agree, and there is one more visited tile and one more
/// passage.
pub proof fn lemma_open_passage(g: Grid, x: int, y: int, mask: u8)
    requires
        g.shaped(),
        g.consistent(),
        g.contains(x, y),
        is_side(mask),
        g.contains(beside(x, y, mask).0, beside(x, y, mask).1),
        !g.visited(beside(x, y, mask).0, beside(x, y, mask).1),
        walled_in(g.tile(beside(x, y, mask).0, beside(x, y, mask).1)),
    ensures
        g.open_passage(x, y, mask).shaped(),
        g.open_passage(x, y, mask).width == g.width,
        g.open_passage(x, y, mask).height == g.height,
        forall|a: int, b: int|
            g.contains(a, b) ==> #[trigger] g.open_passage(x, y, mask).visited(a, b) == (g.visited(
                a,
                b,
            ) || (a, b) == beside(x, y, mask)),
        forall|a: int, b: int, k: u8|
            g.contains(a, b) && is_side(k) ==> #[trigger] g.open_passage(x, y, mask).wall(a, b, k)
                == (g.wall(a, b, k) && !(a == x && b == y && k == mask) && !((a, b) == beside(
                x,
                y,
                mask,
            ) && k == opposite(mask))),
        forall|a: int, b: int|
            g.contains(a, b) && (a, b) != (x, y) && (a, b) != beside(x, y, mask)
                ==> #[trigger] g.open_passage(x, y, mask).tile(a, b) == g.tile(a, b),
        g.open_passage(x, y, mask).consistent(),
        g.opens_into(g.open_passage(x, y, mask)),
        g.open_passage(x, y, mask).visited_count() == g.visited_count() + 1,
        g.open_passage(x, y, mask).passages() == g.passages() + 1,
{
    let n = beside(x, y, mask);
    let back = opposite(mask);
    lemma_beside(x, y, mask);
    let g1 = g.without(x, y, mask);
    let g2 = g1.without(n.0, n.1, back);
    let g3 = g2.enter(n.0, n.1);
    assert(g3 == g.open_passage(x, y, mask));
    let t_here = g.tile(x, y);
    let t_there = g.tile(n.0, n.1);
    lemma_with_tile(g, x, y, without_wall(t_here, mask));
    assert(g1.tile(n.0, n.1) == t_there);
    lemma_with_tile(g1, n.0, n.1, without_wall(t_there, back));
    assert(g2.tile(x, y) == g1.tile(x, y));
    lemma_with_tile(g2, n.0, n.1, entered(without_wall(t_there, back)));
    assert(g3.tile(x, y) == g2.tile(x, y));
    lemma_without_wall(t_here, mask);
    lemma_without_wall(t_there, back);
    lemma_entered(without_wall(t_there, back));
    assert(g3.tile(x, y) == without_wall(t_here, mask));
    assert(g3.tile(n.0, n.1) == entered(without_wall(t_there, back)));
    assert forall|a: int, b: int|
        g.contains(a, b) && (a, b) != (x, y) && (a, b) != n implies #[trigger] g3.tile(a, b)
        == g.tile(a, b) by {
        assert(g1.tile(a, b) == g.tile(a, b));
        assert(g2.tile(a, b) == g1.tile(a, b));
    }
    assert forall|a: int, b: int| g.contains(a, b) implies #[trigger] g3.visited(a, b) == (
    g.visited(a, b) || (a, b) == n) by {
        if (a, b) == (x, y) {
        } else if (a, b) == n {
        } else {
            assert(g3.tile(a, b) == g.tile(a, b));
        }
    }
    assert forall|a: int, b: int, k: u8| g.contains(a, b) && is_side(k) implies #[trigger] g3.wall(
        a,
        b,
        k,
    ) == (g.wall(a, b, k) && !(a == x && b == y && k == mask) && !((a, b) == n && k == back)) by {
        if (a, b) == (x, y) {
        } else if (a, b) == n {
        } else {
            assert(g3.tile(a, b) == g.tile(a, b));
        }
    }
    assert(g.facet_agrees(x, y, mask));
    assert(g.wall(x, y, mask));
    assert forall|a: int, b: int, k: u8| g3.contains(a, b) && is_side(k) implies #[trigger] g3.facet_agrees(
        a,
        b,
        k,
    ) by {
        let m = beside(a, b, k);
        lemma_beside(a, b, k);
        assert(g.facet_agrees(a, b, k));
        if g.contains(m.0, m.1) {
            assert(g3.wall(m.0, m.1, opposite(k)) == (g.wall(m.0, m.1, opposite(k)) && !(m.0 == x
                && m.1 == y && opposite(k) == mask) && !(m == n && opposite(k) == back)));
        }
        assert(g3.wall(a, b, k) == (g.wall(a, b, k) && !(a == x && b == y && k == mask) && !((a, b)
            == n && k == back)));
    }
    let i_here = g.index(x, y);
    let i_there = g.index(n.0, n.1);
    lemma_index_in_range(g, x, y);
    lemma_index_in_range(g, n.0, n.1);
    lemma_index_distinct(g, x, y, n.0, n.1);
    let s0 = g.tiles;
    let s1 = g1.tiles;
    let s2 = g2.tiles;
    let s3 = g3.tiles;
    assert(s1 == s0.update(i_here, without_wall(t_here, mask)));
    assert(s2 == s1.update(i_there, without_wall(t_there, back)));
    assert(s3 == s2.update(i_there, entered(without_wall(t_there, back))));
    assert(s1[i_there] == t_there);
    assert(s2[i_there] == without_wall(t_there, back));
    lemma_count_update(s0, i_here, without_wall(t_here, mask), VISITED);
    lemma_count_update(s1, i_there, without_wall(t_there, back), VISITED);
    lemma_count_update(s2, i_there, entered(without_wall(t_there, back)), VISITED);
    lemma_count_update(s0, i_here, without_wall(t_here, mask), EAST);
    lemma_count_update(s1, i_there, without_wall(t_there, back), EAST);
    lemma_count_update(s2, i_there, entered(without_wall(t_there, back)), EAST);
    lemma_count_update(s0, i_here, without_wall(t_here, mask), SOUTH);
    lemma_count_update(s1, i_there, without_wall(t_there, back), SOUTH);
    lemma_count_update(s2, i_there, entered(without_wall(t_there, back)), SOUTH);
}

} // verus!
