//! No two ways: why the passages of a carved maze hold no cycle.

use crate::grid::{beside, lemma_beside, lemma_open_passage, Grid};
use crate::tile::{is_side, opposite, walled_in, EAST, NORTH, SOUTH, WEST};
use vstd::prelude::*;

verus! {

impl Grid {
    /// A passage can be opened from `(x, y)` through the side `mask`: the
    /// grid is consistent, and beyond that side lies a tile that has not
    /// been visited and has all its walls.
    pub open spec fn can_open(self, x: int, y: int, mask: u8) -> bool {
        let n = beside(x, y, mask);
        &&& self.shaped()
        &&& self.consistent()
        &&& self.contains(x, y)
        &&& is_side(mask)
        &&& self.contains(n.0, n.1)
        &&& !self.visited(n.0, n.1)
        &&& walled_in(self.tile(n.0, n.1))
    }

    /// Between two tiles there is at most one walk that passes no tile
    /// twice. A cycle would give two.
    pub open spec fn one_way(self) -> bool {
        forall|p: Seq<(int, int)>, q: Seq<(int, int)>|
            #![trigger self.is_path(p), self.is_path(q)]
            self.is_path(p) && self.is_path(q) && p.no_duplicates() && q.no_duplicates()
                && p.first() == q.first() && p.last() == q.last() ==> p == q
    }

    /// No wall of the grid is down.
    pub open spec fn all_walled(self) -> bool {
        forall|x: int, y: int| self.contains(x, y) ==> walled_in(#[trigger] self.tile(x, y))
    }
}

/// Where no wall is down, a walk has nowhere to go.
pub proof fn lemma_walled_one_way(g: Grid)
    requires
        g.all_walled(),
    ensures
        g.one_way(),
{
    assert forall|p: Seq<(int, int)>, q: Seq<(int, int)>|
        g.is_path(p) && g.is_path(q) && p.no_duplicates() && q.no_duplicates() && p.first()
            == q.first() && p.last() == q.last() implies p == q by {
        if p.len() >= 2 {
            assert(g.linked(p[0], p[1]));
            assert(walled_in(g.tile(p[0].0, p[0].1)));
        }
        if q.len() >= 2 {
            assert(g.linked(q[0], q[1]));
            assert(walled_in(g.tile(q[0].0, q[0].1)));
        }
        assert(p =~= q);
    }
}

/// A step through the side `k` after a passage was opened is a step that
/// could be taken before, or a step through the new passage.
proof fn lemma_link_by_after(
    g: Grid,
    x: int,
    y: int,
    mask: u8,
    a: (int, int),
    b: (int, int),
    k: u8,
)
    requires
        g.can_open(x, y, mask),
        is_side(k),
        g.contains(a.0, a.1),
        g.contains(b.0, b.1),
    ensures
        g.linked_by(a, b, k) ==> a != beside(x, y, mask) && b != beside(x, y, mask),
        g.open_passage(x, y, mask).linked_by(a, b, k) ==> g.linked_by(a, b, k) || (a == (x, y)
            && b == beside(x, y, mask)) || (a == beside(x, y, mask) && b == (x, y)),
{
    let n = beside(x, y, mask);
    let h = g.open_passage(x, y, mask);
    lemma_open_passage(g, x, y, mask);
    lemma_beside(x, y, mask);
    lemma_beside(a.0, a.1, k);
    if g.linked_by(a, b, k) {
        if b == n {
            assert(g.facet_agrees(a.0, a.1, k));
        }
    }
    if h.linked_by(a, b, k) {
        assert(h.wall(a.0, a.1, k) == (g.wall(a.0, a.1, k) && !(a.0 == x && a.1 == y && k == mask)
            && !((a.0, a.1) == n && k == opposite(mask))));
    }
}

/// A step after a passage was opened is a step that could be taken before,
/// or a step through the new passage; and before, no step led to the tile
/// beyond it or away from it.
pub proof fn lemma_link_after(g: Grid, x: int, y: int, mask: u8, a: (int, int), b: (int, int))
    requires
        g.can_open(x, y, mask),
    ensures
        g.linked(a, b) ==> a != beside(x, y, mask) && b != beside(x, y, mask),
        g.open_passage(x, y, mask).linked(a, b) ==> g.linked(a, b) || (a == (x, y) && b == beside(
            x,
            y,
            mask,
        )) || (a == beside(x, y, mask) && b == (x, y)),
{
    lemma_open_passage(g, x, y, mask);
    if g.contains(a.0, a.1) && g.contains(b.0, b.1) {
        lemma_link_by_after(g, x, y, mask, a, b, NORTH);
        lemma_link_by_after(g, x, y, mask, a, b, SOUTH);
        lemma_link_by_after(g, x, y, mask, a, b, WEST);
        lemma_link_by_after(g, x, y, mask, a, b, EAST);
    }
}

/// A walk that keeps off the tile beyond a new passage could be walked
/// before the passage was opened.
proof fn lemma_path_before(g: Grid, x: int, y: int, mask: u8, way: Seq<(int, int)>)
    requires
        g.can_open(x, y, mask),
        g.open_passage(x, y, mask).is_path(way),
        forall|i: int| 0 <= i < way.len() ==> way[i] != beside(x, y, mask),
    ensures
        g.is_path(way),
{
    lemma_open_passage(g, x, y, mask);
    let h = g.open_passage(x, y, mask);
    assert forall|i: int| 0 <= i < way.len() - 1 implies g.linked(#[trigger] way[i], way[i + 1]) by {
        assert(h.linked(way[i], way[i + 1]));
        lemma_link_after(g, x, y, mask, way[i], way[i + 1]);
    }
}

/// The tile beyond a new passage has one way out, so a walk that passes no
/// tile twice can only start or end there.
proof fn lemma_beyond_at_end(g: Grid, x: int, y: int, mask: u8, way: Seq<(int, int)>, i: int)
    requires
        g.can_open(x, y, mask),
        g.open_passage(x, y, mask).is_path(way),
        way.no_duplicates(),
        0 <= i < way.len(),
        way[i] == beside(x, y, mask),
    ensures
        i == 0 || i == way.len() - 1,
        i > 0 ==> way[i - 1] == (x, y),
        i < way.len() - 1 ==> way[i + 1] == (x, y),
{
    let h = g.open_passage(x, y, mask);
    if i > 0 {
        assert(h.linked(way[i - 1], way[i - 1 + 1]));
        lemma_link_after(g, x, y, mask, way[i - 1], way[i]);
    }
    if i < way.len() - 1 {
        assert(h.linked(way[i], way[i + 1]));
        lemma_link_after(g, x, y, mask, way[i], way[i + 1]);
    }
}

/// A walk without its first tile is a walk, and passes no tile twice if the
/// whole did not.
proof fn lemma_path_tail(g: Grid, way: Seq<(int, int)>)
    requires
        g.is_path(way),
        way.len() >= 2,
    ensures
        g.is_path(way.drop_first()),
        way.no_duplicates() ==> way.drop_first().no_duplicates(),
{
    let tail = way.drop_first();
    assert(g.linked(way[0], way[1]));
    assert forall|i: int| 0 <= i < tail.len() - 1 implies g.linked(#[trigger] tail[i], tail[i + 1]) by {
        assert(g.linked(way[i + 1], way[i + 1 + 1]));
    }
    if way.no_duplicates() {
        assert forall|i: int, j: int| 0 <= i < tail.len() && 0 <= j < tail.len() && i != j implies tail[i]
            != tail[j] by {
            assert(way[i + 1] != way[j + 1]);
        }
    }
}

/// A walk without its last tile is a walk, and passes no tile twice if the
/// whole did not.
proof fn lemma_path_front(g: Grid, way: Seq<(int, int)>)
    requires
        g.is_path(way),
        way.len() >= 2,
    ensures
        g.is_path(way.drop_last()),
        way.no_duplicates() ==> way.drop_last().no_duplicates(),
{
    let front = way.drop_last();
    assert forall|i: int| 0 <= i < front.len() - 1 implies g.linked(
        #[trigger] front[i],
        front[i + 1],
    ) by {
        assert(g.linked(way[i], way[i + 1]));
    }
    if way.no_duplicates() {
        assert forall|i: int, j: int|
            0 <= i < front.len() && 0 <= j < front.len() && i != j implies front[i]
            != front[j] by {
            assert(way[i] != way[j]);
        }
    }
}

/// Two walks after a passage was opened, between the same tiles and neither
/// passing a tile twice, are the same walk, if that held before.
proof fn lemma_same_way_after(
    g: Grid,
    x: int,
    y: int,
    mask: u8,
    p: Seq<(int, int)>,
    q: Seq<(int, int)>,
)
    requires
        g.can_open(x, y, mask),
        g.one_way(),
        g.open_passage(x, y, mask).is_path(p),
        g.open_passage(x, y, mask).is_path(q),
        p.no_duplicates(),
        q.no_duplicates(),
        p.first() == q.first(),
        p.last() == q.last(),
    ensures
        p == q,
{
    let n = beside(x, y, mask);
    let h = g.open_passage(x, y, mask);
    let a = p.first();
    let b = p.last();
    if a != n && b != n {
        assert forall|i: int| 0 <= i < p.len() implies p[i] != n by {
            if p[i] == n {
                lemma_beyond_at_end(g, x, y, mask, p, i);
            }
        }
        assert forall|i: int| 0 <= i < q.len() implies q[i] != n by {
            if q[i] == n {
                lemma_beyond_at_end(g, x, y, mask, q, i);
            }
        }
        lemma_path_before(g, x, y, mask, p);
        lemma_path_before(g, x, y, mask, q);
    } else if a == n && b == n {
        assert(p.len() == 1) by {
            if p.len() > 1 {
                assert(p[0] != p[p.len() - 1]);
            }
        }
        assert(q.len() == 1) by {
            if q.len() > 1 {
                assert(q[0] != q[q.len() - 1]);
            }
        }
        assert(p =~= q);
    } else if a == n {
        assert(p.len() >= 2 && q.len() >= 2);
        let pt = p.drop_first();
        let qt = q.drop_first();
        lemma_path_tail(h, p);
        lemma_path_tail(h, q);
        lemma_beyond_at_end(g, x, y, mask, p, 0);
        lemma_beyond_at_end(g, x, y, mask, q, 0);
        assert forall|i: int| 0 <= i < pt.len() implies pt[i] != n by {
            assert(p[i + 1] != p[0]);
        }
        assert forall|i: int| 0 <= i < qt.len() implies qt[i] != n by {
            assert(q[i + 1] != q[0]);
        }
        lemma_path_before(g, x, y, mask, pt);
        lemma_path_before(g, x, y, mask, qt);
        assert(pt.first() == qt.first());
        assert(pt.last() == qt.last());
        assert(pt == qt);
        assert(p =~= seq![n] + pt);
        assert(q =~= seq![n] + qt);
    } else {
        assert(p.len() >= 2 && q.len() >= 2);
        let pf = p.drop_last();
        let qf = q.drop_last();
        lemma_path_front(h, p);
        lemma_path_front(h, q);
        lemma_beyond_at_end(g, x, y, mask, p, p.len() - 1);
        lemma_beyond_at_end(g, x, y, mask, q, q.len() - 1);
        assert forall|i: int| 0 <= i < pf.len() implies pf[i] != n by {
            assert(p[i] != p[p.len() - 1]);
        }
        assert forall|i: int| 0 <= i < qf.len() implies qf[i] != n by {
            assert(q[i] != q[q.len() - 1]);
        }
        lemma_path_before(g, x, y, mask, pf);
        lemma_path_before(g, x, y, mask, qf);
        assert(pf.first() == qf.first());
        assert(pf.last() == qf.last());
        assert(pf == qf);
        assert(p =~= pf.push(n));
        assert(q =~= qf.push(n));
    }
}

/// Opening a passage to a tile that has all its walls makes no second way.
pub proof fn lemma_open_passage_one_way(g: Grid, x: int, y: int, mask: u8)
    requires
        g.can_open(x, y, mask),
        g.one_way(),
    ensures
        g.open_passage(x, y, mask).one_way(),
{
    let h = g.open_passage(x, y, mask);
    assert forall|p: Seq<(int, int)>, q: Seq<(int, int)>|
        h.is_path(p) && h.is_path(q) && p.no_duplicates() && q.no_duplicates() && p.first()
            == q.first() && p.last() == q.last() implies p == q by {
        lemma_same_way_after(g, x, y, mask, p, q);
    }
}

} // verus!
