//! What can be relied on in a carved maze, and at every moment of the walk
//! that carves it.

use crate::grid::{count_set, lemma_count_all_set, lemma_index_in_range, lemma_position_of, Grid};
use crate::path::lemma_linked_back;
use crate::shuffle::seeded_table;
use crate::tile::{walled_in, EAST, NORTH, SOUTH, WEST};
use crate::walk::{are_orders, carved, lemma_begin_safe, lemma_run_safe, Walk};
use vstd::prelude::*;

verus! {

/// In a consistent grid the two tiles on either side of a facet agree on
/// whether a wall stands there, and a wall stands all along the rim.
pub proof fn lemma_facets_agree(g: Grid, x: int, y: int)
    requires
        g.consistent(),
        g.contains(x, y),
    ensures
        g.contains(x + 1, y) ==> g.wall(x, y, EAST) == g.wall(x + 1, y, WEST),
        g.contains(x, y + 1) ==> g.wall(x, y, SOUTH) == g.wall(x, y + 1, NORTH),
        x == 0 ==> g.wall(x, y, WEST),
        y == 0 ==> g.wall(x, y, NORTH),
        x == g.width - 1 ==> g.wall(x, y, EAST),
        y == g.height - 1 ==> g.wall(x, y, SOUTH),
{
    assert(g.facet_agrees(x, y, NORTH));
    assert(g.facet_agrees(x, y, SOUTH));
    assert(g.facet_agrees(x, y, WEST));
    assert(g.facet_agrees(x, y, EAST));
}

/// The facets agree at every moment of a walk, not only when it is done,
/// wherever the walk sets out and whatever state of carving it finds: a
/// grid that nothing has touched, one that a walk has left half carved, or a
/// finished maze.
pub proof fn lemma_walk_keeps_facets(
    grid: Grid,
    orders: Seq<Seq<u8>>,
    x: int,
    y: int,
    steps: nat,
)
    requires
        grid.underway(),
        grid.contains(x, y),
        are_orders(orders, grid.width * grid.height),
    ensures
        Walk::begin(grid, x, y).run(orders, steps).grid.consistent(),
        Walk::begin(grid, x, y).run(orders, steps).grid.underway(),
{
    lemma_begin_safe(grid, orders, x, y);
    lemma_run_safe(Walk::begin(grid, x, y), orders, steps);
}

/// In a consistent grid every walk can be walked back.
pub proof fn lemma_connected_back(g: Grid, a: (int, int), b: (int, int))
    requires
        g.consistent(),
        g.connected(a, b),
    ensures
        g.connected(b, a),
{
    let way = choose|way: Seq<(int, int)>| #[trigger] g.leads(way, a, b);
    let n = way.len() as int;
    let back = Seq::new(way.len(), |i: int| way[n - 1 - i]);
    assert forall|i: int| 0 <= i < back.len() - 1 implies g.linked(
        #[trigger] back[i],
        back[i + 1],
    ) by {
        assert(g.linked(way[n - 2 - i], way[n - 2 - i + 1]));
        lemma_linked_back(g, way[n - 2 - i], way[n - 1 - i]);
    }
    if n >= 2 {
        assert(g.linked(way[n - 2], way[n - 2 + 1]));
    }
    assert(g.leads(back, b, a));
}

/// Two walks, the second from where the first ends, make one.
pub proof fn lemma_connected_join(g: Grid, a: (int, int), b: (int, int), c: (int, int))
    requires
        g.connected(a, b),
        g.connected(b, c),
    ensures
        g.connected(a, c),
{
    let first = choose|way: Seq<(int, int)>| #[trigger] g.leads(way, a, b);
    let second = choose|way: Seq<(int, int)>| #[trigger] g.leads(way, b, c);
    let whole = first + second.drop_first();
    assert forall|i: int| 0 <= i < whole.len() - 1 implies g.linked(
        #[trigger] whole[i],
        whole[i + 1],
    ) by {
        if i < first.len() - 1 {
            assert(g.linked(first[i], first[i + 1]));
        } else {
            let j = i - (first.len() - 1);
            assert(g.linked(second[j], second[j + 1]));
        }
    }
    assert(g.leads(whole, a, c));
}

/// Where a walker can get from one tile to every tile, a walker can get
/// from every tile to every tile.
pub proof fn lemma_spans_from_any(g: Grid, x: int, y: int, a: int, b: int)
    requires
        g.consistent(),
        g.spans_from(x, y),
        g.contains(a, b),
    ensures
        g.spans_from(a, b),
{
    assert(g.connected((x, y), (a, b)));
    lemma_connected_back(g, (x, y), (a, b));
    assert forall|c: int, d: int| g.contains(c, d) implies #[trigger] g.connected((a, b), (c, d)) by {
        assert(g.connected((x, y), (c, d)));
        lemma_connected_join(g, (a, b), (x, y), (c, d));
    }
}

/// In a perfect maze a walker can get from every tile to every other.
pub proof fn lemma_all_connected(g: Grid, a: (int, int), b: (int, int))
    requires
        g.perfect(),
        g.contains(a.0, a.1),
        g.contains(b.0, b.1),
    ensures
        g.connected(a, b),
{
    assert(g.connected((0, 0), (a.0, a.1)));
    assert(g.connected((0, 0), (b.0, b.1)));
    lemma_connected_back(g, (0, 0), a);
    lemma_connected_join(g, a, (0, 0), b);
}

/// A walk that passes a tile twice can be cut short: between the same two
/// tiles there is a walk that passes no tile twice.
pub proof fn lemma_straightened(g: Grid, way: Seq<(int, int)>) -> (short: Seq<(int, int)>)
    requires
        g.is_path(way),
    ensures
        g.is_path(short),
        short.no_duplicates(),
        short.first() == way.first(),
        short.last() == way.last(),
    decreases way.len(),
{
    if way.no_duplicates() {
        way
    } else {
        assert(exists|i: int, j: int|
            0 <= i < way.len() && 0 <= j < way.len() && i < j && way[i] == way[j]) by {
            let (a, b) = choose|a: int, b: int|
                0 <= a < way.len() && 0 <= b < way.len() && a != b && way[a] == way[b];
            if a < b {
                assert(0 <= a < way.len() && 0 <= b < way.len() && a < b && way[a] == way[b]);
            } else {
                assert(0 <= b < way.len() && 0 <= a < way.len() && b < a && way[b] == way[a]);
            }
        }
        let (i, j) = choose|i: int, j: int|
            0 <= i < way.len() && 0 <= j < way.len() && i < j && way[i] == way[j];
        let cut = way.subrange(0, i) + way.subrange(j, way.len() as int);
        assert forall|k: int| 0 <= k < cut.len() - 1 implies g.linked(#[trigger] cut[k], cut[k + 1]) by {
            if k < i - 1 {
                assert(g.linked(way[k], way[k + 1]));
            } else if k == i - 1 {
                assert(g.linked(way[k], way[k + 1]));
                assert(cut[k + 1] == way[j]);
            } else {
                assert(g.linked(way[k - i + j], way[k - i + j + 1]));
            }
        }
        assert(cut[0] == way[0]);
        assert(cut.last() == way.last());
        lemma_straightened(g, cut)
    }
}

/// In a perfect maze there is exactly one walk between two tiles that
/// passes no tile twice: the walk returned leads from `a` to `b`, and every
/// other such walk is this one.
pub proof fn lemma_exactly_one_way(g: Grid, a: (int, int), b: (int, int)) -> (way: Seq<(int, int)>)
    requires
        g.perfect(),
        g.contains(a.0, a.1),
        g.contains(b.0, b.1),
    ensures
        g.leads(way, a, b),
        way.no_duplicates(),
        forall|other: Seq<(int, int)>|
            #[trigger] g.leads(other, a, b) && other.no_duplicates() ==> other == way,
{
    lemma_all_connected(g, a, b);
    let any = choose|any: Seq<(int, int)>| #[trigger] g.leads(any, a, b);
    let way = lemma_straightened(g, any);
    assert(g.is_path(way));
    way
}

/// A perfect maze of one tile has no passage, and all four walls of its
/// tile stand.
pub proof fn lemma_single_tile(g: Grid)
    requires
        g.perfect(),
        g.width == 1,
        g.height == 1,
    ensures
        g.passages() == 0,
        walled_in(g.tile(0, 0)),
{
    lemma_facets_agree(g, 0, 0);
}

/// Where one tile alone has the bit set, no other tile has it.
proof fn lemma_count_one(tiles: Seq<u8>, mask: u8, j: int, i: int)
    requires
        count_set(tiles, mask) == 1,
        0 <= j < tiles.len(),
        tiles[j] & mask != 0,
        0 <= i < tiles.len(),
        i != j,
    ensures
        tiles[i] & mask == 0,
    decreases tiles.len(),
{
    let front = tiles.drop_last();
    let end = tiles.len() - 1;
    if j == end {
        if i < end {
            lemma_count_zero(front, mask, i);
        }
    } else if tiles[end] & mask != 0 {
        lemma_count_zero(front, mask, j);
    } else if i < end {
        lemma_count_one(front, mask, j, i);
    }
}

/// Where no tile is counted, no tile has the bit set.
proof fn lemma_count_zero(tiles: Seq<u8>, mask: u8, i: int)
    requires
        count_set(tiles, mask) == 0,
        0 <= i < tiles.len(),
    ensures
        tiles[i] & mask == 0,
    decreases tiles.len(),
{
    if i < tiles.len() - 1 {
        lemma_count_zero(tiles.drop_last(), mask, i);
    }
}

/// A perfect maze that is one tile wide is a straight corridor from north
/// to south: the walls stand on its west and east, and between every two
/// tiles that follow each other there is none.
pub proof fn lemma_corridor_down(g: Grid, y: int)
    requires
        g.perfect(),
        g.width == 1,
        0 <= y < g.height,
    ensures
        g.wall(0, y, WEST),
        g.wall(0, y, EAST),
        g.wall(0, y, NORTH) == (y == 0),
        g.wall(0, y, SOUTH) == (y == g.height - 1),
{
    let h = g.height;
    lemma_facets_agree(g, 0, y);
    assert forall|i: int| 0 <= i < g.tiles.len() implies #[trigger] g.tiles[i] & EAST != 0 by {
        let p = lemma_position_of(g, i);
        lemma_facets_agree(g, p.0, p.1);
    }
    lemma_count_all_set(g.tiles, EAST);
    assert(g.width * g.height == h) by (nonlinear_arith)
        requires
            g.width == 1,
            g.height == h,
    ;
    assert(count_set(g.tiles, SOUTH) == 1);
    lemma_index_in_range(g, 0, h - 1);
    lemma_index_in_range(g, 0, y);
    lemma_facets_agree(g, 0, h - 1);
    if y < h - 1 {
        lemma_count_one(g.tiles, SOUTH, g.index(0, h - 1), g.index(0, y));
    }
    if y > 0 {
        lemma_index_in_range(g, 0, y - 1);
        lemma_facets_agree(g, 0, y - 1);
        lemma_count_one(g.tiles, SOUTH, g.index(0, h - 1), g.index(0, y - 1));
    }
}

/// A perfect maze that is one tile high is a straight corridor from west
/// to east: the walls stand on its north and south, and between every two
/// tiles that follow each other there is none.
pub proof fn lemma_corridor_across(g: Grid, x: int)
    requires
        g.perfect(),
        g.height == 1,
        0 <= x < g.width,
    ensures
        g.wall(x, 0, NORTH),
        g.wall(x, 0, SOUTH),
        g.wall(x, 0, WEST) == (x == 0),
        g.wall(x, 0, EAST) == (x == g.width - 1),
{
    let w = g.width;
    lemma_facets_agree(g, x, 0);
    assert forall|i: int| 0 <= i < g.tiles.len() implies #[trigger] g.tiles[i] & SOUTH != 0 by {
        let p = lemma_position_of(g, i);
        lemma_facets_agree(g, p.0, p.1);
    }
    lemma_count_all_set(g.tiles, SOUTH);
    assert(g.width * g.height == w) by (nonlinear_arith)
        requires
            g.height == 1,
            g.width == w,
    ;
    assert(count_set(g.tiles, EAST) == 1);
    lemma_index_in_range(g, w - 1, 0);
    lemma_index_in_range(g, x, 0);
    lemma_facets_agree(g, w - 1, 0);
    if x < w - 1 {
        lemma_count_one(g.tiles, EAST, g.index(w - 1, 0), g.index(x, 0));
    }
    if x > 0 {
        lemma_index_in_range(g, x - 1, 0);
        lemma_facets_agree(g, x - 1, 0);
        lemma_count_one(g.tiles, EAST, g.index(w - 1, 0), g.index(x - 1, 0));
    }
}

/// Carving is a function of the grid and the seed: two mazes carved with
/// the same seed into untouched grids of the same size are the same, bit
/// for bit.
pub proof fn lemma_same_seed_same_maze(width: int, height: int, seed: u64, a: Grid, b: Grid)
    requires
        a == carved(Grid::fresh(width, height), seeded_table(seed, width * height)),
        b == carved(Grid::fresh(width, height), seeded_table(seed, width * height)),
    ensures
        a.tiles == b.tiles,
        a == b,
{
}

} // verus!
