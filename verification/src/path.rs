//! Ways through a maze: which tiles a walker can reach from which.

use crate::grid::{beside, Grid};
use crate::tile::{EAST, NORTH, SOUTH, WEST};
use vstd::prelude::*;

verus! {

impl Grid {
    /// A walker on `a` can step onto `b` through the side `mask`: `b` lies
    /// on that side of `a`, and no wall of `a` stands there.
    pub open spec fn linked_by(self, a: (int, int), b: (int, int), mask: u8) -> bool {
        b == beside(a.0, a.1, mask) && !self.wall(a.0, a.1, mask)
    }

    /// A walker on `a` can step onto `b`: both are positions of the grid,
    /// they are adjacent, and no wall of `a` stands between them.
    pub open spec fn linked(self, a: (int, int), b: (int, int)) -> bool {
        &&& self.contains(a.0, a.1)
        &&& self.contains(b.0, b.1)
        &&& (self.linked_by(a, b, NORTH) || self.linked_by(a, b, SOUTH) || self.linked_by(
            a,
            b,
            WEST,
        ) || self.linked_by(a, b, EAST))
    }

    /// `way` is a walk through the grid: it starts on a position of the
    /// grid, and each of its steps goes through a missing wall.
    pub open spec fn is_path(self, way: Seq<(int, int)>) -> bool {
        &&& way.len() >= 1
        &&& self.contains(way[0].0, way[0].1)
        &&& forall|i: int| 0 <= i < way.len() - 1 ==> self.linked(#[trigger] way[i], way[i + 1])
    }

    /// `way` is a walk through the grid from `a` to `b`.
    pub open spec fn leads(self, way: Seq<(int, int)>, a: (int, int), b: (int, int)) -> bool {
        self.is_path(way) && way.first() == a && way.last() == b
    }

    /// A walker can get from `a` to `b`.
    pub open spec fn connected(self, a: (int, int), b: (int, int)) -> bool {
        exists|way: Seq<(int, int)>| #[trigger] self.leads(way, a, b)
    }

    /// A walker can get from `(x, y)` to every position of the grid.
    pub open spec fn spans_from(self, x: int, y: int) -> bool {
        forall|a: int, b: int| self.contains(a, b) ==> #[trigger] self.connected((x, y), (a, b))
    }

    /// The maze is perfect: its facets agree and its rim is closed, the walk
    /// has visited every tile, a walker can get from the corner `(0, 0)` to
    /// every tile, there is one passage less than there are tiles, and the
    /// passages hold no cycle.
    pub open spec fn perfect(self) -> bool {
        &&& self.shaped()
        &&& self.consistent()
        &&& self.all_visited()
        &&& self.spans_from(0, 0)
        &&& self.passages() == self.width * self.height - 1
        &&& self.one_way()
    }
}

/// Every position is connected to itself.
pub proof fn lemma_connected_self(g: Grid, a: (int, int))
    requires
        g.contains(a.0, a.1),
    ensures
        g.connected(a, a),
{
    assert(g.leads(seq![a], a, a));
}

/// A walk can be made one step longer.
pub proof fn lemma_connected_step(g: Grid, a: (int, int), b: (int, int), c: (int, int))
    requires
        g.connected(a, b),
        g.linked(b, c),
    ensures
        g.connected(a, c),
{
    let way = choose|way: Seq<(int, int)>| #[trigger] g.leads(way, a, b);
    let longer = way.push(c);
    assert forall|i: int| 0 <= i < longer.len() - 1 implies g.linked(
        #[trigger] longer[i],
        longer[i + 1],
    ) by {
        if i < way.len() - 1 {
            assert(g.linked(way[i], way[i + 1]));
        }
    }
    assert(g.leads(longer, a, c));
}

/// Taking walls down cuts no walk.
pub proof fn lemma_connected_grows(g: Grid, later: Grid, a: (int, int), b: (int, int))
    requires
        g.opens_into(later),
        g.connected(a, b),
    ensures
        later.connected(a, b),
{
    let way = choose|way: Seq<(int, int)>| #[trigger] g.leads(way, a, b);
    assert forall|i: int| 0 <= i < way.len() - 1 implies later.linked(
        #[trigger] way[i],
        way[i + 1],
    ) by {
        let p = way[i];
        let q = way[i + 1];
        assert(g.linked(p, q));
        if g.linked_by(p, q, NORTH) {
            assert(!later.wall(p.0, p.1, NORTH));
        } else if g.linked_by(p, q, SOUTH) {
            assert(!later.wall(p.0, p.1, SOUTH));
        } else if g.linked_by(p, q, WEST) {
            assert(!later.wall(p.0, p.1, WEST));
        } else {
            assert(!later.wall(p.0, p.1, EAST));
        }
    }
    assert(later.leads(way, a, b));
}

/// In a consistent grid a step can be taken back.
pub proof fn lemma_linked_back(g: Grid, a: (int, int), b: (int, int))
    requires
        g.consistent(),
        g.linked(a, b),
    ensures
        g.linked(b, a),
{
    if g.linked_by(a, b, NORTH) {
        assert(g.facet_agrees(a.0, a.1, NORTH));
        assert(g.linked_by(b, a, SOUTH));
    } else if g.linked_by(a, b, SOUTH) {
        assert(g.facet_agrees(a.0, a.1, SOUTH));
        assert(g.linked_by(b, a, NORTH));
    } else if g.linked_by(a, b, WEST) {
        assert(g.facet_agrees(a.0, a.1, WEST));
        assert(g.linked_by(b, a, EAST));
    } else {
        assert(g.facet_agrees(a.0, a.1, EAST));
        assert(g.linked_by(b, a, WEST));
    }
}

} // verus!
