//! The depth-first walk that carves a maze, as a machine that takes one
//! step at a time, and the proof that it leaves a spanning tree behind.

use crate::grid::{
    beside, lemma_count_all_set, lemma_count_bound, lemma_count_none_set, lemma_count_update,
    lemma_index_in_range, lemma_open_passage, lemma_position_of, lemma_with_tile, Grid,
};
use crate::path::{lemma_connected_grows, lemma_connected_self, lemma_connected_step};
use crate::tree::{lemma_open_passage_one_way, lemma_walled_one_way};
use crate::tile::{
    entered, is_side, lemma_entered, lemma_entered_again, lemma_full_tile, opposite, walled_in,
    EAST, FULL, NORTH, SOUTH, VISITED, WEST,
};
use vstd::prelude::*;

verus! {

/// A tile on the way of the walk, and how many of its sides the walk has
/// tried from there.
pub struct Visit {
    pub x: int,
    pub y: int,
    pub tried: int,
}

/// The walk at one moment: the grid as carved so far, and the way from the
/// start to the tile on which the walk stands, which is the last of `trail`.
pub struct Walk {
    pub grid: Grid,
    pub trail: Seq<Visit>,
}

/// `order` names each of the four sides once.
pub open spec fn is_order(order: Seq<u8>) -> bool {
    &&& order.len() == 4
    &&& forall|j: int| 0 <= j < 4 ==> is_side(#[trigger] order[j])
    &&& order.contains(NORTH)
    &&& order.contains(SOUTH)
    &&& order.contains(WEST)
    &&& order.contains(EAST)
}

/// `orders` holds, for every tile of a grid of `tiles` tiles, the order in
/// which the walk tries the sides of that tile.
pub open spec fn are_orders(orders: Seq<Seq<u8>>, tiles: int) -> bool {
    &&& orders.len() == tiles
    &&& forall|i: int| 0 <= i < orders.len() ==> is_order(#[trigger] orders[i])
}

impl Grid {
    /// Beyond the side `mask` of `(x, y)` there is nothing left to visit: the
    /// grid ends there, or the tile beyond is visited.
    pub open spec fn settled(self, x: int, y: int, mask: u8) -> bool {
        let n = beside(x, y, mask);
        !self.contains(n.0, n.1) || self.visited(n.0, n.1)
    }

    /// Nothing is left to visit on any side of `(x, y)`.
    pub open spec fn closed(self, x: int, y: int) -> bool {
        &&& self.settled(x, y, NORTH)
        &&& self.settled(x, y, SOUTH)
        &&& self.settled(x, y, WEST)
        &&& self.settled(x, y, EAST)
    }

    /// The tile at `(x, y)` is visited, or all its walls stand.
    pub open spec fn visited_or_walled(self, x: int, y: int) -> bool {
        self.visited(x, y) || walled_in(self.tile(x, y))
    }

    /// The grid is as a walk may find it at any moment, before it sets
    /// out, on its way or when it is done: the facets agree, and a tile that
    /// has not been visited has all its walls.
    pub open spec fn underway(self) -> bool {
        &&& self.shaped()
        &&& self.consistent()
        &&& forall|x: int, y: int| self.contains(x, y) ==> #[trigger] self.visited_or_walled(x, y)
    }
}

impl Walk {
    /// The walk as it sets out from `(x, y)`.
    pub open spec fn begin(grid: Grid, x: int, y: int) -> Walk {
        Walk { grid: grid.enter(x, y), trail: seq![Visit { x, y, tried: 0 }] }
    }

    /// The walk has returned to its start and left it.
    pub open spec fn done(self) -> bool {
        self.trail.len() == 0
    }

    /// The walk one step on. On the tile where it stands it takes the next
    /// side of that tile's order. If an unvisited tile lies beyond, it opens
    /// the passage and moves there; if not, it stays. With no side left it
    /// goes back to the tile it came from.
    pub open spec fn step(self, orders: Seq<Seq<u8>>) -> Walk {
        if self.trail.len() == 0 {
            self
        } else {
            let top = self.trail.last();
            if top.tried >= 4 {
                Walk { grid: self.grid, trail: self.trail.drop_last() }
            } else {
                let mask = orders[self.grid.index(top.x, top.y)][top.tried];
                let n = beside(top.x, top.y, mask);
                let stayed = self.trail.update(
                    self.trail.len() - 1,
                    Visit { tried: top.tried + 1, ..top },
                );
                if self.grid.contains(n.0, n.1) && !self.grid.visited(n.0, n.1) {
                    Walk {
                        grid: self.grid.open_passage(top.x, top.y, mask),
                        trail: stayed.push(Visit { x: n.0, y: n.1, tried: 0 }),
                    }
                } else {
                    Walk { grid: self.grid, trail: stayed }
                }
            }
        }
    }

    /// The walk `steps` steps on.
    pub open spec fn run(self, orders: Seq<Seq<u8>>, steps: nat) -> Walk
        decreases steps,
    {
        if steps == 0 {
            self
        } else {
            self.run(orders, (steps - 1) as nat).step(orders)
        }
    }

    /// The walk from `(x, y)` on `grid` at the moment it is done.
    pub open spec fn finished(grid: Grid, orders: Seq<Seq<u8>>, x: int, y: int) -> Walk {
        let w = Walk::begin(grid, x, y);
        w.run(orders, choose|steps: nat| w.run(orders, steps).done())
    }

    /// The tile of `visit` is a visited tile of the grid, and nothing is left
    /// to visit beyond the sides that the walk has tried from it.
    pub open spec fn visit_ok(self, orders: Seq<Seq<u8>>, visit: Visit) -> bool {
        &&& self.grid.contains(visit.x, visit.y)
        &&& self.grid.visited(visit.x, visit.y)
        &&& 0 <= visit.tried <= 4
        &&& forall|j: int|
            0 <= j < visit.tried ==> self.grid.settled(
                visit.x,
                visit.y,
                #[trigger] orders[self.grid.index(visit.x, visit.y)][j],
            )
    }

    /// What holds of a walk at every moment, wherever it set out and
    /// whatever the grid held then: the grid is as a walk may find it, and
    /// every tile of the trail is a visited tile of the grid.
    pub open spec fn safe(self, orders: Seq<Seq<u8>>) -> bool {
        &&& self.grid.underway()
        &&& are_orders(orders, self.grid.width * self.grid.height)
        &&& forall|k: int|
            0 <= k < self.trail.len() ==> {
                &&& self.grid.contains((#[trigger] self.trail[k]).x, self.trail[k].y)
                &&& self.grid.visited(self.trail[k].x, self.trail[k].y)
                &&& 0 <= self.trail[k].tried <= 4
            }
    }

    /// `(x, y)` is a tile of the trail.
    pub open spec fn on_trail(self, x: int, y: int) -> bool {
        exists|k: int|
            0 <= k < self.trail.len() && (#[trigger] self.trail[k]).x == x && self.trail[k].y == y
    }

    /// The walk is through with `(x, y)`, or will come back to it.
    pub open spec fn accounted(self, x: int, y: int) -> bool {
        self.grid.closed(x, y) || self.on_trail(x, y)
    }

    /// What holds of a walk from `(sx, sy)` at every moment.
    pub open spec fn inv(self, orders: Seq<Seq<u8>>, sx: int, sy: int) -> bool {
        &&& self.grid.shaped()
        &&& are_orders(orders, self.grid.width * self.grid.height)
        &&& self.grid.consistent()
        &&& forall|x: int, y: int|
            self.grid.contains(x, y) ==> #[trigger] self.grid.visited_or_walled(x, y)
        &&& forall|k: int|
            0 <= k < self.trail.len() ==> self.visit_ok(orders, #[trigger] self.trail[k])
        &&& forall|x: int, y: int|
            self.grid.contains(x, y) && self.grid.visited(x, y) ==> #[trigger] self.accounted(x, y)
        &&& forall|x: int, y: int|
            self.grid.contains(x, y) && self.grid.visited(x, y) ==> #[trigger] self.grid.connected(
                (sx, sy),
                (x, y),
            )
        &&& self.grid.contains(sx, sy)
        &&& self.grid.visited(sx, sy)
        &&& self.grid.passages() + 1 == self.grid.visited_count()
        &&& self.grid.one_way()
    }
}

/// The maze that a walk from the corner `(0, 0)` carves into `grid` when it
/// tries the sides of each tile in the order that `orders` gives for it. A
/// grid whose corner is visited has been carved, and stays as it is.
pub open spec fn carved(grid: Grid, orders: Seq<Seq<u8>>) -> Grid {
    if grid.visited(0, 0) {
        grid
    } else {
        Walk::finished(grid, orders, 0, 0).grid
    }
}

/// An order leaves no side out.
pub proof fn lemma_order_covers(g: Grid, x: int, y: int, order: Seq<u8>)
    requires
        is_order(order),
        forall|j: int| 0 <= j < 4 ==> g.settled(x, y, #[trigger] order[j]),
    ensures
        g.closed(x, y),
{
    let jn = choose|j: int| 0 <= j < order.len() && order[j] == NORTH;
    let js = choose|j: int| 0 <= j < order.len() && order[j] == SOUTH;
    let jw = choose|j: int| 0 <= j < order.len() && order[j] == WEST;
    let je = choose|j: int| 0 <= j < order.len() && order[j] == EAST;
    assert(g.settled(x, y, order[jn]));
    assert(g.settled(x, y, order[js]));
    assert(g.settled(x, y, order[jw]));
    assert(g.settled(x, y, order[je]));
}

/// What is settled stays settled when the grid opens further.
pub proof fn lemma_settled_grows(g: Grid, later: Grid, x: int, y: int, mask: u8)
    requires
        g.opens_into(later),
        g.settled(x, y, mask),
    ensures
        later.settled(x, y, mask),
{
    let n = beside(x, y, mask);
    if g.contains(n.0, n.1) {
        assert(later.visited(n.0, n.1));
    }
}

/// In a grid that nothing has touched, every facet agrees.
pub proof fn lemma_untouched(g: Grid)
    requires
        g.shaped(),
        g.untouched(),
    ensures
        g.consistent(),
        forall|x: int, y: int| g.contains(x, y) ==> #[trigger] g.tile(x, y) == FULL,
        g.visited_count() == 0,
        g.passages() == 0,
{
    lemma_full_tile();
    assert forall|x: int, y: int| g.contains(x, y) implies #[trigger] g.tile(x, y) == FULL by {
        lemma_index_in_range(g, x, y);
    }
    assert forall|x: int, y: int, mask: u8| g.contains(x, y) && is_side(mask) implies #[trigger] g.facet_agrees(
        x,
        y,
        mask,
    ) by {
        let n = beside(x, y, mask);
        assert(g.tile(x, y) == FULL);
        if g.contains(n.0, n.1) {
            assert(g.tile(n.0, n.1) == FULL);
        }
    }
    assert forall|i: int| 0 <= i < g.tiles.len() implies #[trigger] g.tiles[i] & VISITED == 0 by {
        assert(g.tiles[i] == FULL);
    }
    lemma_count_none_set(g.tiles, VISITED);
    assert forall|i: int| 0 <= i < g.tiles.len() implies #[trigger] g.tiles[i] & EAST != 0 by {
        assert(g.tiles[i] == FULL);
    }
    lemma_count_all_set(g.tiles, EAST);
    assert forall|i: int| 0 <= i < g.tiles.len() implies #[trigger] g.tiles[i] & SOUTH != 0 by {
        assert(g.tiles[i] == FULL);
    }
    lemma_count_all_set(g.tiles, SOUTH);
}

/// A walk that sets out on an untouched grid is in order.
pub proof fn lemma_begin_inv(grid: Grid, orders: Seq<Seq<u8>>, sx: int, sy: int)
    requires
        grid.shaped(),
        grid.untouched(),
        grid.contains(sx, sy),
        are_orders(orders, grid.width * grid.height),
    ensures
        Walk::begin(grid, sx, sy).inv(orders, sx, sy),
        Walk::begin(grid, sx, sy).grid.width == grid.width,
        Walk::begin(grid, sx, sy).grid.height == grid.height,
        Walk::begin(grid, sx, sy).grid.visited_count() == 1,
{
    let w = Walk::begin(grid, sx, sy);
    let g = w.grid;
    lemma_untouched(grid);
    lemma_full_tile();
    lemma_entered(FULL);
    lemma_with_tile(grid, sx, sy, entered(grid.tile(sx, sy)));
    lemma_index_in_range(grid, sx, sy);
    assert(grid.tile(sx, sy) == FULL);
    assert forall|x: int, y: int| g.contains(x, y) implies #[trigger] g.visited_or_walled(x, y) by {
        if x == sx && y == sy {
        } else {
            assert(g.tile(x, y) == grid.tile(x, y));
        }
    }
    assert forall|x: int, y: int, mask: u8| g.contains(x, y) && is_side(mask) implies #[trigger] g.facet_agrees(
        x,
        y,
        mask,
    ) by {
        let n = beside(x, y, mask);
        assert(walled_in(g.tile(x, y))) by {
            if x == sx && y == sy {
            } else {
                assert(g.tile(x, y) == grid.tile(x, y));
            }
        }
        if g.contains(n.0, n.1) {
            assert(walled_in(g.tile(n.0, n.1))) by {
                if n.0 == sx && n.1 == sy {
                } else {
                    assert(g.tile(n.0, n.1) == grid.tile(n.0, n.1));
                }
            }
        }
    }
    assert forall|x: int, y: int| g.contains(x, y) && g.visited(x, y) implies x == sx && y
        == sy by {
        if x != sx || y != sy {
            assert(g.tile(x, y) == grid.tile(x, y));
        }
    }
    assert(g.all_walled()) by {
        assert forall|x: int, y: int| g.contains(x, y) implies walled_in(#[trigger] g.tile(x, y)) by {
            if x != sx || y != sy {
                assert(g.tile(x, y) == grid.tile(x, y));
            }
        }
    }
    lemma_walled_one_way(g);
    assert(w.trail[0].x == sx && w.trail[0].y == sy);
    assert(w.on_trail(sx, sy));
    assert(w.visit_ok(orders, w.trail[0]));
    lemma_connected_self(g, (sx, sy));
    lemma_count_update(grid.tiles, grid.index(sx, sy), entered(FULL), VISITED);
    lemma_count_update(grid.tiles, grid.index(sx, sy), entered(FULL), EAST);
    lemma_count_update(grid.tiles, grid.index(sx, sy), entered(FULL), SOUTH);
}

/// Going back from a tile with no side left keeps the walk in order.
proof fn lemma_step_back(w: Walk, orders: Seq<Seq<u8>>, sx: int, sy: int)
    requires
        w.inv(orders, sx, sy),
        w.trail.len() > 0,
        w.trail.last().tried >= 4,
    ensures
        w.step(orders).inv(orders, sx, sy),
{
    let r = w.step(orders);
    let last = w.trail.len() - 1;
    let top = w.trail[last];
    assert(w.visit_ok(orders, top));
    lemma_index_in_range(w.grid, top.x, top.y);
    let order = orders[w.grid.index(top.x, top.y)];
    assert(is_order(order));
    lemma_order_covers(w.grid, top.x, top.y, order);
    assert forall|k: int| 0 <= k < r.trail.len() implies r.visit_ok(
        orders,
        #[trigger] r.trail[k],
    ) by {
        assert(w.visit_ok(orders, w.trail[k]));
    }
    assert forall|x: int, y: int|
        r.grid.contains(x, y) && r.grid.visited(x, y) implies #[trigger] r.accounted(x, y) by {
        assert(w.accounted(x, y));
        if !w.grid.closed(x, y) {
            let k = choose|k: int|
                0 <= k < w.trail.len() && (#[trigger] w.trail[k]).x == x && w.trail[k].y == y;
            assert(k != last);
            assert(r.trail[k].x == x && r.trail[k].y == y);
        }
    }
}

/// Trying a side beyond which nothing is left to visit keeps the walk in order.
proof fn lemma_step_stay(w: Walk, orders: Seq<Seq<u8>>, sx: int, sy: int)
    requires
        w.inv(orders, sx, sy),
        w.trail.len() > 0,
        w.trail.last().tried < 4,
        w.grid.settled(
            w.trail.last().x,
            w.trail.last().y,
            orders[w.grid.index(w.trail.last().x, w.trail.last().y)][w.trail.last().tried],
        ),
    ensures
        w.step(orders).inv(orders, sx, sy),
{
    let r = w.step(orders);
    let last = w.trail.len() - 1;
    let top = w.trail[last];
    assert(w.visit_ok(orders, top));
    assert forall|k: int| 0 <= k < r.trail.len() implies r.visit_ok(
        orders,
        #[trigger] r.trail[k],
    ) by {
        assert(w.visit_ok(orders, w.trail[k]));
    }
    assert forall|x: int, y: int|
        r.grid.contains(x, y) && r.grid.visited(x, y) implies #[trigger] r.accounted(x, y) by {
        assert(w.accounted(x, y));
        if !w.grid.closed(x, y) {
            let k = choose|k: int|
                0 <= k < w.trail.len() && (#[trigger] w.trail[k]).x == x && w.trail[k].y == y;
            assert(r.trail[k].x == x && r.trail[k].y == y);
        }
    }
}

/// Opening a passage to an unvisited tile and moving there keeps the walk in order.
proof fn lemma_step_ahead(w: Walk, orders: Seq<Seq<u8>>, sx: int, sy: int)
    requires
        w.inv(orders, sx, sy),
        w.trail.len() > 0,
        w.trail.last().tried < 4,
        !w.grid.settled(
            w.trail.last().x,
            w.trail.last().y,
            orders[w.grid.index(w.trail.last().x, w.trail.last().y)][w.trail.last().tried],
        ),
    ensures
        w.step(orders).inv(orders, sx, sy),
        w.step(orders).grid.visited_count() == w.grid.visited_count() + 1,
{
    let r = w.step(orders);
    let g = w.grid;
    let last = w.trail.len() - 1;
    let top = w.trail[last];
    assert(w.visit_ok(orders, top));
    lemma_index_in_range(g, top.x, top.y);
    let order = orders[g.index(top.x, top.y)];
    assert(is_order(order));
    let mask = order[top.tried];
    assert(is_side(mask));
    let n = beside(top.x, top.y, mask);
    assert(g.visited_or_walled(n.0, n.1));
    lemma_open_passage(g, top.x, top.y, mask);
    lemma_open_passage_one_way(g, top.x, top.y, mask);
    let h = g.open_passage(top.x, top.y, mask);
    assert(r.grid == h);
    assert(r.trail.len() == last + 2);
    assert(r.trail[last + 1] == Visit { x: n.0, y: n.1, tried: 0 });
    assert forall|x: int, y: int| h.contains(x, y) implies #[trigger] h.visited_or_walled(
        x,
        y,
    ) by {
        assert(h.visited(x, y) == (g.visited(x, y) || (x, y) == n));
        if !h.visited(x, y) {
            assert(g.visited_or_walled(x, y));
            assert(h.tile(x, y) == g.tile(x, y));
        }
    }
    assert forall|k: int| 0 <= k < r.trail.len() implies r.visit_ok(
        orders,
        #[trigger] r.trail[k],
    ) by {
        let v = r.trail[k];
        if k == last + 1 {
            assert(h.visited(n.0, n.1));
        } else {
            let u = w.trail[k];
            assert(w.visit_ok(orders, u));
            assert(v.x == u.x && v.y == u.y);
            assert(h.visited(v.x, v.y));
            assert forall|j: int| 0 <= j < v.tried implies h.settled(
                v.x,
                v.y,
                #[trigger] orders[h.index(v.x, v.y)][j],
            ) by {
                if k == last && j == top.tried {
                    assert(h.visited(n.0, n.1));
                } else {
                    lemma_settled_grows(g, h, u.x, u.y, orders[g.index(u.x, u.y)][j]);
                }
            }
        }
    }
    assert forall|x: int, y: int|
        h.contains(x, y) && h.visited(x, y) implies #[trigger] r.accounted(x, y) by {
        if (x, y) == n {
            assert(r.trail[last + 1].x == x && r.trail[last + 1].y == y);
        } else {
            assert(g.visited(x, y));
            assert(w.accounted(x, y));
            if g.closed(x, y) {
                lemma_settled_grows(g, h, x, y, NORTH);
                lemma_settled_grows(g, h, x, y, SOUTH);
                lemma_settled_grows(g, h, x, y, WEST);
                lemma_settled_grows(g, h, x, y, EAST);
            } else {
                let k = choose|k: int|
                    0 <= k < w.trail.len() && (#[trigger] w.trail[k]).x == x && w.trail[k].y == y;
                assert(r.trail[k].x == x && r.trail[k].y == y);
            }
        }
    }
    assert forall|x: int, y: int|
        h.contains(x, y) && h.visited(x, y) implies #[trigger] h.connected((sx, sy), (x, y)) by {
        if (x, y) == n {
            assert(g.connected((sx, sy), (top.x, top.y)));
            lemma_connected_grows(g, h, (sx, sy), (top.x, top.y));
            assert(!h.wall(top.x, top.y, mask));
            assert(h.linked_by((top.x, top.y), n, mask));
            assert(h.linked((top.x, top.y), n));
            lemma_connected_step(h, (sx, sy), (top.x, top.y), n);
        } else {
            assert(g.visited(x, y));
            assert(g.connected((sx, sy), (x, y)));
            lemma_connected_grows(g, h, (sx, sy), (x, y));
        }
    }
    assert(h.visited(sx, sy));
}

/// Every step keeps the walk in order.
pub proof fn lemma_step_inv(w: Walk, orders: Seq<Seq<u8>>, sx: int, sy: int)
    requires
        w.inv(orders, sx, sy),
    ensures
        w.step(orders).inv(orders, sx, sy),
{
    if w.trail.len() > 0 {
        let top = w.trail.last();
        if top.tried >= 4 {
            lemma_step_back(w, orders, sx, sy);
        } else if w.grid.settled(top.x, top.y, orders[w.grid.index(top.x, top.y)][top.tried]) {
            lemma_step_stay(w, orders, sx, sy);
        } else {
            lemma_step_ahead(w, orders, sx, sy);
        }
    }
}

/// Where nothing is left to visit next to any visited tile, every tile is visited.
pub proof fn lemma_closed_everywhere(g: Grid, sx: int, sy: int, x: int, y: int)
    requires
        g.contains(sx, sy),
        g.visited(sx, sy),
        forall|a: int, b: int| g.contains(a, b) && g.visited(a, b) ==> #[trigger] g.closed(a, b),
        g.contains(x, y),
    ensures
        g.visited(x, y),
    decreases (if x > sx {
            x - sx
        } else {
            sx - x
        }) + (if y > sy {
            y - sy
        } else {
            sy - y
        }),
{
    if x > sx {
        lemma_closed_everywhere(g, sx, sy, x - 1, y);
        assert(g.closed(x - 1, y));
        assert(g.settled(x - 1, y, EAST));
    } else if x < sx {
        lemma_closed_everywhere(g, sx, sy, x + 1, y);
        assert(g.closed(x + 1, y));
        assert(g.settled(x + 1, y, WEST));
    } else if y > sy {
        lemma_closed_everywhere(g, sx, sy, x, y - 1);
        assert(g.closed(x, y - 1));
        assert(g.settled(x, y - 1, SOUTH));
    } else if y < sy {
        lemma_closed_everywhere(g, sx, sy, x, y + 1);
        assert(g.closed(x, y + 1));
        assert(g.settled(x, y + 1, NORTH));
    }
}

/// A walk that is done has visited every tile, has connected each to the
/// start, and has opened one passage less than there are tiles.
pub proof fn lemma_done(w: Walk, orders: Seq<Seq<u8>>, sx: int, sy: int)
    requires
        w.inv(orders, sx, sy),
        w.done(),
    ensures
        w.grid.all_visited(),
        w.grid.spans_from(sx, sy),
        w.grid.visited_count() == w.grid.width * w.grid.height,
        w.grid.passages() == w.grid.width * w.grid.height - 1,
{
    let g = w.grid;
    assert forall|a: int, b: int| g.contains(a, b) && g.visited(a, b) implies #[trigger] g.closed(
        a,
        b,
    ) by {
        assert(w.accounted(a, b));
    }
    assert forall|x: int, y: int| g.contains(x, y) implies #[trigger] g.visited(x, y) by {
        lemma_closed_everywhere(g, sx, sy, x, y);
    }
    assert forall|i: int| 0 <= i < g.tiles.len() implies #[trigger] g.tiles[i] & VISITED != 0 by {
        let p = lemma_position_of(g, i);
        assert(g.visited(p.0, p.1));
    }
    lemma_count_all_set(g.tiles, VISITED);
}

/// A grid opens into itself, and what a grid opens into opens further.
pub proof fn lemma_opens_on(a: Grid, b: Grid, c: Grid)
    requires
        a.opens_into(b),
        b.opens_into(c),
    ensures
        a.opens_into(a),
        a.opens_into(c),
{
    assert forall|x: int, y: int, mask: u8|
        a.contains(x, y) && is_side(mask) && !a.wall(x, y, mask) implies !#[trigger] c.wall(
        x,
        y,
        mask,
    ) by {
        assert(!b.wall(x, y, mask));
    }
    assert forall|x: int, y: int| a.contains(x, y) && a.visited(x, y) implies #[trigger] c.visited(
        x,
        y,
    ) by {
        assert(b.visited(x, y));
    }
}

/// A walk that is in order is safe.
pub proof fn lemma_inv_safe(w: Walk, orders: Seq<Seq<u8>>, sx: int, sy: int)
    requires
        w.inv(orders, sx, sy),
    ensures
        w.safe(orders),
{
    assert forall|k: int| 0 <= k < w.trail.len() implies {
        &&& w.grid.contains((#[trigger] w.trail[k]).x, w.trail[k].y)
        &&& w.grid.visited(w.trail[k].x, w.trail[k].y)
        &&& 0 <= w.trail[k].tried <= 4
    } by {
        assert(w.visit_ok(orders, w.trail[k]));
    }
}

/// A grid that nothing has touched is as a walk may find it.
pub proof fn lemma_untouched_underway(g: Grid)
    requires
        g.shaped(),
        g.untouched(),
    ensures
        g.underway(),
{
    lemma_untouched(g);
    lemma_full_tile();
    assert forall|x: int, y: int| g.contains(x, y) implies #[trigger] g.visited_or_walled(x, y) by {
        assert(g.tile(x, y) == FULL);
    }
}

/// A walk may set out from any tile of a grid that is as a walk may find
/// it. Setting out takes no wall down.
pub proof fn lemma_begin_safe(grid: Grid, orders: Seq<Seq<u8>>, x: int, y: int)
    requires
        grid.underway(),
        grid.contains(x, y),
        are_orders(orders, grid.width * grid.height),
    ensures
        Walk::begin(grid, x, y).safe(orders),
        grid.opens_into(Walk::begin(grid, x, y).grid),
        Walk::begin(grid, x, y).grid.visited(x, y),
        Walk::begin(grid, x, y).grid.tiles.len() == grid.tiles.len(),
{
    let w = Walk::begin(grid, x, y);
    let g = w.grid;
    lemma_entered(grid.tile(x, y));
    lemma_with_tile(grid, x, y, entered(grid.tile(x, y)));
    assert forall|a: int, b: int, k: u8| grid.contains(a, b) && is_side(k) implies g.wall(a, b, k)
        == grid.wall(a, b, k) by {
        if a != x || b != y {
            assert(g.tile(a, b) == grid.tile(a, b));
        }
    }
    assert forall|a: int, b: int| grid.contains(a, b) && grid.visited(a, b) implies #[trigger] g.visited(
        a,
        b,
    ) by {
        if a != x || b != y {
            assert(g.tile(a, b) == grid.tile(a, b));
        }
    }
    assert forall|a: int, b: int, k: u8| g.contains(a, b) && is_side(k) implies #[trigger] g.facet_agrees(
        a,
        b,
        k,
    ) by {
        let n = beside(a, b, k);
        assert(grid.facet_agrees(a, b, k));
        assert(g.wall(a, b, k) == grid.wall(a, b, k));
        if g.contains(n.0, n.1) {
            assert(g.wall(n.0, n.1, opposite(k)) == grid.wall(n.0, n.1, opposite(k)));
        }
    }
    assert forall|a: int, b: int| g.contains(a, b) implies #[trigger] g.visited_or_walled(a, b) by {
        assert(grid.visited_or_walled(a, b));
        if a != x || b != y {
            assert(g.tile(a, b) == grid.tile(a, b));
        }
    }
    assert(w.trail[0] == Visit { x, y, tried: 0 });
}

/// Every step keeps the walk safe and takes walls down only, and every
/// step of a walk that is not done brings it nearer to its end: it visits a
/// tile, or goes back, or has one side less to try where it stands.
pub proof fn lemma_step_safe(w: Walk, orders: Seq<Seq<u8>>)
    requires
        w.safe(orders),
    ensures
        w.step(orders).safe(orders),
        w.grid.opens_into(w.step(orders).grid),
        w.step(orders).grid.tiles.len() == w.grid.tiles.len(),
        w.grid.unvisited_count() >= 0,
        w.step(orders).grid.unvisited_count() >= 0,
        !w.done() ==> w.step(orders).grid.unvisited_count() < w.grid.unvisited_count() || (w.step(
            orders,
        ).grid.unvisited_count() == w.grid.unvisited_count() && (w.step(orders).trail.len()
            < w.trail.len() || (w.step(orders).trail.len() == w.trail.len() && 4 - w.step(
            orders,
        ).trail.last().tried < 4 - w.trail.last().tried))),
{
    let g = w.grid;
    let r = w.step(orders);
    lemma_count_bound(g.tiles, VISITED);
    lemma_opens_on(g, g, g);
    if w.trail.len() > 0 {
        let last = w.trail.len() - 1;
        let top = w.trail[last];
        assert(g.contains(top.x, top.y) && g.visited(top.x, top.y) && 0 <= top.tried <= 4);
        if top.tried >= 4 {
            assert forall|k: int| 0 <= k < r.trail.len() implies {
                &&& r.grid.contains((#[trigger] r.trail[k]).x, r.trail[k].y)
                &&& r.grid.visited(r.trail[k].x, r.trail[k].y)
                &&& 0 <= r.trail[k].tried <= 4
            } by {
                assert(r.trail[k] == w.trail[k]);
            }
        } else {
            lemma_index_in_range(g, top.x, top.y);
            let order = orders[g.index(top.x, top.y)];
            assert(is_order(order));
            let mask = order[top.tried];
            assert(is_side(mask));
            let n = beside(top.x, top.y, mask);
            if g.contains(n.0, n.1) && !g.visited(n.0, n.1) {
                assert(g.visited_or_walled(n.0, n.1));
                lemma_open_passage(g, top.x, top.y, mask);
                let h = g.open_passage(top.x, top.y, mask);
                assert(r.grid == h);
                lemma_count_bound(h.tiles, VISITED);
                assert forall|x: int, y: int| h.contains(x, y) implies #[trigger] h.visited_or_walled(
                    x,
                    y,
                ) by {
                    assert(h.visited(x, y) == (g.visited(x, y) || (x, y) == n));
                    if !h.visited(x, y) {
                        assert(g.visited_or_walled(x, y));
                        assert(h.tile(x, y) == g.tile(x, y));
                    }
                }
                assert forall|k: int| 0 <= k < r.trail.len() implies {
                    &&& r.grid.contains((#[trigger] r.trail[k]).x, r.trail[k].y)
                    &&& r.grid.visited(r.trail[k].x, r.trail[k].y)
                    &&& 0 <= r.trail[k].tried <= 4
                } by {
                    if k == last + 1 {
                        assert(h.visited(n.0, n.1));
                    } else {
                        assert(r.trail[k].x == w.trail[k].x && r.trail[k].y == w.trail[k].y);
                        assert(h.visited(w.trail[k].x, w.trail[k].y));
                    }
                }
            } else {
                assert forall|k: int| 0 <= k < r.trail.len() implies {
                    &&& r.grid.contains((#[trigger] r.trail[k]).x, r.trail[k].y)
                    &&& r.grid.visited(r.trail[k].x, r.trail[k].y)
                    &&& 0 <= r.trail[k].tried <= 4
                } by {
                    assert(r.trail[k].x == w.trail[k].x && r.trail[k].y == w.trail[k].y);
                }
            }
        }
    }
}

/// A safe walk stays safe however far it runs, and takes walls down only:
/// at every moment the facets agree.
pub proof fn lemma_run_safe(w: Walk, orders: Seq<Seq<u8>>, steps: nat)
    requires
        w.safe(orders),
    ensures
        w.run(orders, steps).safe(orders),
        w.grid.opens_into(w.run(orders, steps).grid),
    decreases steps,
{
    if steps > 0 {
        let before = w.run(orders, (steps - 1) as nat);
        lemma_run_safe(w, orders, (steps - 1) as nat);
        lemma_step_safe(before, orders);
        lemma_opens_on(w.grid, before.grid, before.step(orders).grid);
    } else {
        lemma_opens_on(w.grid, w.grid, w.grid);
    }
}

/// A walk that is in order stays in order however far it runs.
pub proof fn lemma_run_inv(w: Walk, orders: Seq<Seq<u8>>, sx: int, sy: int, steps: nat)
    requires
        w.inv(orders, sx, sy),
    ensures
        w.run(orders, steps).inv(orders, sx, sy),
    decreases steps,
{
    if steps > 0 {
        lemma_run_inv(w, orders, sx, sy, (steps - 1) as nat);
        lemma_step_inv(w.run(orders, (steps - 1) as nat), orders, sx, sy);
    }
}

/// To take a step and then run is to run and then take a step.
pub proof fn lemma_run_shift(w: Walk, orders: Seq<Seq<u8>>, steps: nat)
    ensures
        w.step(orders).run(orders, steps) == w.run(orders, steps + 1),
    decreases steps,
{
    if steps > 0 {
        lemma_run_shift(w, orders, (steps - 1) as nat);
    } else {
        assert(w.run(orders, 1) == w.run(orders, 0).step(orders));
    }
}

/// A walk that is done stays as it is.
pub proof fn lemma_run_rests(w: Walk, orders: Seq<Seq<u8>>, steps: nat, more: nat)
    requires
        w.run(orders, steps).done(),
        steps <= more,
    ensures
        w.run(orders, more) == w.run(orders, steps),
    decreases more,
{
    if steps < more {
        lemma_run_rests(w, orders, steps, (more - 1) as nat);
    }
}

/// A walk over a grid in which every tile is visited changes nothing.
pub proof fn lemma_nothing_left(grid: Grid, orders: Seq<Seq<u8>>, x: int, y: int, steps: nat)
    requires
        grid.shaped(),
        grid.all_visited(),
        grid.contains(x, y),
    ensures
        Walk::begin(grid, x, y).run(orders, steps).grid == grid,
    decreases steps,
{
    let w = Walk::begin(grid, x, y);
    if steps == 0 {
        lemma_index_in_range(grid, x, y);
        assert(grid.visited(x, y));
        lemma_entered_again(grid.tile(x, y));
        assert(w.grid.tiles =~= grid.tiles);
    } else {
        let before = w.run(orders, (steps - 1) as nat);
        lemma_nothing_left(grid, orders, x, y, (steps - 1) as nat);
        if before.trail.len() > 0 && before.trail.last().tried < 4 {
            let top = before.trail.last();
            let n = beside(top.x, top.y, orders[grid.index(top.x, top.y)][top.tried]);
            if grid.contains(n.0, n.1) {
                assert(grid.visited(n.0, n.1));
            }
        }
    }
}

/// Every safe walk comes to an end.
pub proof fn lemma_run_ends(w: Walk, orders: Seq<Seq<u8>>) -> (steps: nat)
    requires
        w.safe(orders),
    ensures
        w.run(orders, steps).done(),
    decreases
            w.grid.unvisited_count(),
            w.trail.len(),
            (if w.trail.len() > 0 {
                4 - w.trail.last().tried
            } else {
                0
            }),
{
    if w.done() {
        0
    } else {
        lemma_step_safe(w, orders);
        let next = w.step(orders);
        let rest = lemma_run_ends(next, orders);
        lemma_run_shift(w, orders, rest);
        rest + 1
    }
}

/// The moment at which the walk is done decides the grid it leaves: every
/// run that ends with the walk done ends with the finished walk.
pub proof fn lemma_finished(grid: Grid, orders: Seq<Seq<u8>>, x: int, y: int, steps: nat)
    requires
        Walk::begin(grid, x, y).run(orders, steps).done(),
    ensures
        Walk::begin(grid, x, y).run(orders, steps) == Walk::finished(grid, orders, x, y),
{
    let w = Walk::begin(grid, x, y);
    let chosen = choose|n: nat| w.run(orders, n).done();
    if chosen <= steps {
        lemma_run_rests(w, orders, chosen, steps);
    } else {
        lemma_run_rests(w, orders, steps, chosen);
    }
}

/// Carving an untouched grid gives a perfect maze, whatever the orders are
/// in which the sides are tried: every tile can be reached from the corner
/// `(0, 0)`, there is one passage less than there are tiles, no two walks
/// that pass no tile twice join the same two tiles, and every facet agrees
/// with the tile on its other side.
pub proof fn lemma_carved_perfect(grid: Grid, orders: Seq<Seq<u8>>)
    requires
        grid.shaped(),
        grid.untouched(),
        are_orders(orders, grid.width * grid.height),
    ensures
        carved(grid, orders).perfect(),
        carved(grid, orders).width == grid.width,
        carved(grid, orders).height == grid.height,
{
    lemma_untouched(grid);
    lemma_full_tile();
    assert(grid.tile(0, 0) == FULL);
    let w = Walk::begin(grid, 0, 0);
    lemma_begin_inv(grid, orders, 0, 0);
    lemma_inv_safe(w, orders, 0, 0);
    let steps = lemma_run_ends(w, orders);
    lemma_finished(grid, orders, 0, 0, steps);
    lemma_run_inv(w, orders, 0, 0, steps);
    lemma_done(w.run(orders, steps), orders, 0, 0);
    lemma_run_size(w, orders, steps);
}

/// No step changes the size of the grid.
pub proof fn lemma_run_size(w: Walk, orders: Seq<Seq<u8>>, steps: nat)
    ensures
        w.run(orders, steps).grid.width == w.grid.width,
        w.run(orders, steps).grid.height == w.grid.height,
    decreases steps,
{
    if steps > 0 {
        lemma_run_size(w, orders, (steps - 1) as nat);
    }
}

} // verus!
