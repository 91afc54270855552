//! Minimum-cost paths across the hexadecimal grid: entering a cell costs its
//! value, and Dijkstra's search finds a cheapest walk from the top-left
//! corner to the bottom-right one.
use crate::hexpath::{neighbor_cells, Grid};
use vstd::prelude::*;

verus! {

/// The largest `width + height` searched: it keeps every cost within 32 bits.
pub const MAX_SIDE_SUM: usize = 16_000_000;

/// Two cells share a side.
pub open spec fn adjacent(a: (usize, usize), b: (usize, usize)) -> bool {
    (a.0 == b.0 && (a.1 + 1 == b.1 || b.1 + 1 == a.1)) || (a.1 == b.1 && (a.0 + 1 == b.0 || b.0 + 1
        == a.0))
}

impl Grid {
    /// The cell lies inside the grid.
    pub open spec fn contains(&self, c: (usize, usize)) -> bool {
        c.0 < self.width && c.1 < self.height
    }

    /// The value of a cell, as the cost of entering it.
    pub open spec fn value(&self, c: (usize, usize)) -> int {
        self.cell(c.0 as int, c.1 as int) as int
    }

    /// The bottom-right corner.
    pub open spec fn end(&self) -> (usize, usize) {
        ((self.width - 1) as usize, (self.height - 1) as usize)
    }

    /// A walk from the top-left corner: cells inside the grid, each next to
    /// the one before.
    pub open spec fn is_walk(&self, p: Seq<(usize, usize)>) -> bool {
        &&& p.len() >= 1
        &&& p[0] == (0usize, 0usize)
        &&& forall|i: int| 0 <= i < p.len() ==> #[trigger] self.contains(p[i])
        &&& forall|i: int| 0 <= i < p.len() - 1 ==> #[trigger] adjacent(p[i], p[i + 1])
    }

    /// The cost of a walk: the values of every cell it enters after the
    /// first.
    pub open spec fn walk_cost(&self, p: Seq<(usize, usize)>) -> int
        decreases p.len(),
    {
        if p.len() <= 1 {
            0
        } else {
            self.value(p[1]) + self.walk_cost(p.skip(1))
        }
    }
}

/// A walk through the grid and its cost.
#[derive(Debug)]
pub struct PathResult {
    pub path: Vec<(usize, usize)>,
    pub total_cost: u32,
}

proof fn lemma_walk_cost_push(g: &Grid, p: Seq<(usize, usize)>, c: (usize, usize))
    requires
        p.len() >= 1,
    ensures
        g.walk_cost(p.push(c)) == g.walk_cost(p) + g.value(c),
    decreases p.len(),
{
    let q = p.push(c);
    assert(q[1] == if p.len() == 1 { c } else { p[1] });
    if p.len() == 1 {
        assert(q.skip(1) =~= seq![c]);
        assert(g.walk_cost(seq![c]) == 0);
    } else {
        lemma_walk_cost_push(g, p.skip(1), c);
        assert(q.skip(1) =~= p.skip(1).push(c));
    }
}

proof fn lemma_walk_cost_bounds(g: &Grid, p: Seq<(usize, usize)>)
    requires
        p.len() >= 1,
    ensures
        0 <= g.walk_cost(p) <= 255 * (p.len() - 1),
    decreases p.len(),
{
    if p.len() > 1 {
        lemma_walk_cost_bounds(g, p.skip(1));
    }
}

/// Right along the top row, then down: a walk to `c` of `c.0 + c.1` steps.
spec fn straight_walk(c: (usize, usize)) -> Seq<(usize, usize)> {
    Seq::new(
        (c.0 + c.1 + 1) as nat,
        |i: int|
            if i <= c.0 {
                (i as usize, 0usize)
            } else {
                (c.0, (i - c.0) as usize)
            },
    )
}

proof fn lemma_straight_walk(g: &Grid, c: (usize, usize))
    requires
        g.contains(c),
    ensures
        g.is_walk(straight_walk(c)),
        straight_walk(c).last() == c,
        g.walk_cost(straight_walk(c)) <= 255 * (c.0 + c.1),
{
    let p = straight_walk(c);
    assert forall|i: int| 0 <= i < p.len() - 1 implies #[trigger] adjacent(p[i], p[i + 1]) by {}
    assert forall|i: int| 0 <= i < p.len() implies #[trigger] g.contains(p[i]) by {}
    lemma_walk_cost_bounds(g, p);
}

/// The position of a cell in row-major storage.
pub open spec fn flat(w: usize, c: (usize, usize)) -> int {
    c.1 * w + c.0
}

proof fn lemma_flat_in_range(g: &Grid, c: (usize, usize))
    requires
        g.contains(c),
    ensures
        0 <= flat(g.width, c) < g.width * g.height,
{
    let w = g.width as int;
    let h = g.height as int;
    let x = c.0 as int;
    let y = c.1 as int;
    assert(0 <= y * w + x < w * h) by (nonlinear_arith)
        requires
            0 <= x < w,
            0 <= y < h,
    ;
}

proof fn lemma_flat_injective(g: &Grid, a: (usize, usize), b: (usize, usize))
    requires
        g.contains(a),
        g.contains(b),
        flat(g.width, a) == flat(g.width, b),
    ensures
        a == b,
{
    let w = g.width as int;
    let (xa, ya, xb, yb) = (a.0 as int, a.1 as int, b.0 as int, b.1 as int);
    assert(ya == yb) by (nonlinear_arith)
        requires
            0 <= xa < w,
            0 <= xb < w,
            0 <= ya,
            0 <= yb,
            ya * w + xa == yb * w + xb,
    {
        if ya < yb {
            assert(ya * w + w <= yb * w);
        } else if yb < ya {
            assert(yb * w + w <= ya * w);
        }
    }
}

proof fn lemma_neighbor_cells(g: &Grid, v: (usize, usize))
    requires
        g.contains(v),
    ensures
        forall|i: int|
            0 <= i < neighbor_cells(v.0, v.1, g.width, g.height).len() ==> g.contains(
                #[trigger] neighbor_cells(v.0, v.1, g.width, g.height)[i],
            ) && adjacent(v, neighbor_cells(v.0, v.1, g.width, g.height)[i]),
        forall|u: (usize, usize)|
            g.contains(u) && #[trigger] adjacent(v, u) ==> neighbor_cells(
                v.0,
                v.1,
                g.width,
                g.height,
            ).contains(u),
{
    let ns = neighbor_cells(v.0, v.1, g.width, g.height);
    let (x, y, w, h) = (v.0, v.1, g.width, g.height);
    let l = if x > 0 { seq![((x - 1) as usize, y)] } else { Seq::<(usize, usize)>::empty() };
    let r = if x + 1 < w { seq![((x + 1) as usize, y)] } else { Seq::<(usize, usize)>::empty() };
    let up = if y > 0 { seq![(x, (y - 1) as usize)] } else { Seq::<(usize, usize)>::empty() };
    let dn = if y + 1 < h { seq![(x, (y + 1) as usize)] } else { Seq::<(usize, usize)>::empty() };
    assert(ns == l + r + up + dn);
    assert forall|u: (usize, usize)| g.contains(u) && #[trigger] adjacent(v, u) implies ns.contains(
        u,
    ) by {
        if u.1 == y && u.0 + 1 == x {
            assert(ns[0] == u);
        } else if u.1 == y && x + 1 == u.0 {
            assert(ns[l.len() as int] == u);
        } else if u.0 == x && u.1 + 1 == y {
            assert(ns[(l.len() + r.len()) as int] == u);
        } else {
            assert(ns[(l.len() + r.len() + up.len()) as int] == u);
        }
    }
}

/// The tentative cost recorded for a cell.
pub open spec fn dist_of(g: &Grid, dist: Seq<u32>, c: (usize, usize)) -> int {
    dist[flat(g.width, c)] as int
}

/// The queue holds an entry of this cost for this cell.
pub open spec fn queued(heap: Seq<(u32, usize, usize)>, cost: int, c: (usize, usize)) -> bool {
    exists|i: int| 0 <= i < heap.len() && heap[i].0 == cost && heap[i].1 == c.0 && heap[i].2 == c.1
}

/// What holds between steps of the search. `done` holds the cells settled
/// so far, `order` when each was settled; the neighbours of `open` may still
/// be short of their bound, except those in `covered`.
#[verifier::opaque]
pub open spec fn search_inv(
    g: &Grid,
    dist: Seq<u32>,
    parent: Seq<Option<(usize, usize)>>,
    heap: Seq<(u32, usize, usize)>,
    done: Set<(usize, usize)>,
    order: Map<(usize, usize), nat>,
    count: nat,
    open: Option<(usize, usize)>,
    covered: Set<(usize, usize)>,
) -> bool {
    &&& dist.len() == g.width * g.height
    &&& parent.len() == g.width * g.height
    &&& forall|i: int|
        0 <= i < heap.len() ==> g.contains((#[trigger] heap[i].1, heap[i].2)) && heap[i].0
            >= dist_of(g, dist, (heap[i].1, heap[i].2)) && heap[i].0 < u32::MAX
    &&& forall|c: (usize, usize)|
        g.contains(c) && !done.contains(c) && #[trigger] dist_of(g, dist, c) < u32::MAX ==> queued(
            heap,
            dist_of(g, dist, c),
            c,
        )
    &&& forall|c: (usize, usize)|
        #[trigger] done.contains(c) ==> g.contains(c) && dist_of(g, dist, c) <= 255 * (c.0 + c.1)
            && order.dom().contains(c) && order[c] < count
    &&& forall|p: Seq<(usize, usize)>|
        #[trigger] g.is_walk(p) && done.contains(p.last()) ==> g.walk_cost(p) >= dist_of(
            g,
            dist,
            p.last(),
        )
    &&& forall|u: (usize, usize), v: (usize, usize)|
        done.contains(u) && g.contains(v) && #[trigger] adjacent(u, v) && (open != Some(u)
            || covered.contains(v)) ==> dist_of(g, dist, v) <= dist_of(g, dist, u) + g.value(v)
    &&& forall|u: (usize, usize), i: int|
        #[trigger] done.contains(u) && 0 <= i < heap.len() ==> dist_of(g, dist, u) <= (
        #[trigger] heap[i]).0
    &&& dist_of(g, dist, (0usize, 0usize)) == 0
    &&& forall|v: (usize, usize)|
        g.contains(v) && v != (0usize, 0usize) && #[trigger] dist_of(g, dist, v) < u32::MAX ==> {
            &&& parent[flat(g.width, v)] is Some
            &&& done.contains(parent[flat(g.width, v)]->0)
            &&& adjacent(parent[flat(g.width, v)]->0, v)
            &&& dist_of(g, dist, v) == dist_of(g, dist, parent[flat(g.width, v)]->0) + g.value(v)
            &&& done.contains(v) ==> order[parent[flat(g.width, v)]->0] < order[v]
        }
    &&& !done.contains(g.end())
}

/// Every walk either ends at a settled cell or costs at least some queued
/// entry.
proof fn lemma_reach(
    g: &Grid,
    dist: Seq<u32>,
    parent: Seq<Option<(usize, usize)>>,
    heap: Seq<(u32, usize, usize)>,
    done: Set<(usize, usize)>,
    order: Map<(usize, usize), nat>,
    count: nat,
    p: Seq<(usize, usize)>,
)
    requires
        g.wf(),
        g.width >= 1,
        g.height >= 1,
        g.width + g.height <= MAX_SIDE_SUM,
        search_inv(g, dist, parent, heap, done, order, count, None, Set::empty()),
        g.is_walk(p),
    ensures
        done.contains(p.last()) || exists|i: int| 0 <= i < heap.len() && heap[i].0 <= g.walk_cost(p),
    decreases p.len(),
{
    reveal(search_inv);
    lemma_walk_cost_bounds(g, p);
    if p.len() == 1 {
        assert(p.last() == (0usize, 0usize));
        if !done.contains(p.last()) {
            assert(dist_of(g, dist, p.last()) < u32::MAX);
            assert(queued(heap, 0, p.last()));
        }
    } else {
        let q = p.drop_last();
        let v = p.last();
        let u = q.last();
        assert(g.is_walk(q)) by {
            assert forall|i: int| 0 <= i < q.len() implies #[trigger] g.contains(q[i]) by {
                assert(g.contains(p[i]));
            }
            assert forall|i: int| 0 <= i < q.len() - 1 implies #[trigger] adjacent(q[i], q[i + 1]) by {
                assert(adjacent(p[i], p[i + 1]));
            }
        }
        lemma_reach(g, dist, parent, heap, done, order, count, q);
        assert(q.push(v) =~= p);
        lemma_walk_cost_push(g, q, v);
        if done.contains(u) && !done.contains(v) {
            let k = p.len() - 2;
            assert(adjacent(p[k], p[k + 1]));
            assert(g.contains(p[k + 1]));
            assert(u == p[k] && v == p[k + 1]);
            assert(dist_of(g, dist, v) <= dist_of(g, dist, u) + g.value(v));
            assert(g.walk_cost(q) >= dist_of(g, dist, u));
            assert(dist_of(g, dist, v) < u32::MAX);
            assert(queued(heap, dist_of(g, dist, v), v));
        }
    }
}

/// `s` back to front.
pub open spec fn reversed(s: Seq<(usize, usize)>) -> Seq<(usize, usize)> {
    Seq::new(s.len(), |j: int| s[s.len() - 1 - j])
}

/// Cells inside the grid, each next to the one before, ending at the far
/// corner.
pub open spec fn chain_to_end(g: &Grid, f: Seq<(usize, usize)>) -> bool {
    &&& f.len() >= 1
    &&& f.last() == g.end()
    &&& forall|i: int| 0 <= i < f.len() ==> #[trigger] g.contains(f[i])
    &&& forall|i: int| 0 <= i < f.len() - 1 ==> #[trigger] adjacent(f[i], f[i + 1])
}

spec fn settle_rank(done: Set<(usize, usize)>, order: Map<(usize, usize), nat>, count: nat, c: (
    usize,
    usize,
)) -> nat {
    if done.contains(c) {
        order[c]
    } else {
        count
    }
}

proof fn lemma_chain_extend(g: &Grid, f: Seq<(usize, usize)>, u: (usize, usize))
    requires
        chain_to_end(g, f),
        g.contains(u),
        adjacent(u, f[0]),
    ensures
        chain_to_end(g, seq![u] + f),
        g.walk_cost(seq![u] + f) == g.value(f[0]) + g.walk_cost(f),
{
    let f2 = seq![u] + f;
    assert(f2.skip(1) =~= f);
    assert forall|k: int| 0 <= k < f2.len() implies #[trigger] g.contains(f2[k]) by {
        if k > 0 {
            assert(f2[k] == f[k - 1]);
        }
    }
    assert forall|k: int| 0 <= k < f2.len() - 1 implies #[trigger] adjacent(f2[k], f2[k + 1]) by {
        if k > 0 {
            assert(f2[k] == f[k - 1] && f2[k + 1] == f[k]);
            assert(adjacent(f[k - 1], f[k - 1 + 1]));
        }
    }
}

/// The parent links of a search: every reached cell but the start points
/// to a settled neighbour, its cost is that neighbour's plus its own value,
/// and a settled cell points to one settled before it.
pub open spec fn linked(
    g: &Grid,
    dist: Seq<u32>,
    parent: Seq<Option<(usize, usize)>>,
    done: Set<(usize, usize)>,
    order: Map<(usize, usize), nat>,
    count: nat,
    reached: Set<(usize, usize)>,
) -> bool {
    &&& forall|c: (usize, usize)|
        #[trigger] done.contains(c) ==> reached.contains(c) && order.dom().contains(c) && order[c]
            < count
    &&& forall|v: (usize, usize)|
        #[trigger] reached.contains(v) ==> g.contains(v) && (v != (0usize, 0usize) ==> {
            &&& parent[flat(g.width, v)] is Some
            &&& done.contains(parent[flat(g.width, v)]->0)
            &&& adjacent(parent[flat(g.width, v)]->0, v)
            &&& dist_of(g, dist, v) == dist_of(g, dist, parent[flat(g.width, v)]->0) + g.value(v)
            &&& done.contains(v) ==> order[parent[flat(g.width, v)]->0] < order[v]
        })
}

/// Follows the parent links back from the far corner to the start and
/// returns that walk, start first, with the cost recorded for the far
/// corner.
fn reconstruct_path(
    grid: &Grid,
    parent: &Vec<Option<(usize, usize)>>,
    dist: &Vec<u32>,
    Ghost(done): Ghost<Set<(usize, usize)>>,
    Ghost(order): Ghost<Map<(usize, usize), nat>>,
    Ghost(count): Ghost<nat>,
    Ghost(reached): Ghost<Set<(usize, usize)>>,
) -> (r: PathResult)
    requires
        grid.wf(),
        grid.width >= 1,
        grid.height >= 1,
        grid.width * grid.height <= usize::MAX,
        dist@.len() == grid.width * grid.height,
        parent@.len() == grid.width * grid.height,
        reached.contains(grid.end()),
        linked(grid, dist@, parent@, done, order, count, reached),
        dist_of(grid, dist@, (0usize, 0usize)) == 0,
    ensures
        grid.is_walk(r.path@),
        r.path@.last() == grid.end(),
        r.path@.no_duplicates(),
        r.total_cost == dist_of(grid, dist@, grid.end()),
        grid.walk_cost(r.path@) == r.total_cost,
{
    let w = grid.width;
    let h = grid.height;
    let mut rev: Vec<(usize, usize)> = Vec::new();
    let mut cur: (usize, usize) = (w - 1, h - 1);
    proof {
        assert(reversed(rev@.push(cur)) =~= seq![cur]);
        assert(grid.walk_cost(seq![cur]) == 0);
    }
    while cur.0 != 0 || cur.1 != 0
        invariant
            w == grid.width,
            h == grid.height,
            grid.wf(),
            grid.width * grid.height <= usize::MAX,
            parent@.len() == grid.width * grid.height,
            reached.contains(cur),
            linked(grid, dist@, parent@, done, order, count, reached),
            chain_to_end(grid, reversed(rev@.push(cur))),
            forall|i: int, j: int|
                0 <= i < j < reversed(rev@.push(cur)).len() ==> settle_rank(
                    done,
                    order,
                    count,
                    #[trigger] reversed(rev@.push(cur))[i],
                ) < settle_rank(done, order, count, #[trigger] reversed(rev@.push(cur))[j]),
            grid.walk_cost(reversed(rev@.push(cur))) + dist_of(grid, dist@, cur) == dist_of(
                grid,
                dist@,
                grid.end(),
            ),
        decreases settle_rank(done, order, count, cur),
    {
        proof {
            lemma_flat_in_range(grid, cur);
        }
        let i = cur.1 * w + cur.0;
        let ghost f = reversed(rev@.push(cur));
        let ghost old_cur = cur;
        rev.push(cur);
        match parent[i] {
            Some(p) => {
                cur = p;
            },
            None => {},
        }
        proof {
            let f2 = reversed(rev@.push(cur));
            assert(f2 =~= seq![cur] + f);
            assert(f[0] == old_cur);
            lemma_chain_extend(grid, f, cur);
            assert forall|i: int, j: int| 0 <= i < j < f2.len() implies settle_rank(
                done,
                order,
                count,
                #[trigger] f2[i],
            ) < settle_rank(done, order, count, #[trigger] f2[j]) by {
                if i == 0 {
                    assert(f2[j] == f[j - 1]);
                    if j > 1 {
                        assert(settle_rank(done, order, count, f[0]) < settle_rank(
                            done,
                            order,
                            count,
                            f[j - 1],
                        ));
                    }
                } else {
                    assert(f2[i] == f[i - 1] && f2[j] == f[j - 1]);
                }
            }
        }
    }
    rev.push(cur);
    let ghost fwd = reversed(rev@);
    let mut path: Vec<(usize, usize)> = Vec::new();
    let mut j: usize = rev.len();
    while j > 0
        invariant
            j <= rev@.len(),
            fwd == reversed(rev@),
            path@ == fwd.take(rev@.len() - j),
        decreases j,
    {
        j = j - 1;
        path.push(rev[j]);
        assert(path@ =~= fwd.take(rev@.len() - j));
    }
    proof {
        assert(path@ =~= fwd);
        assert(fwd[0] == (0usize, 0usize));
        assert forall|i: int, j: int| 0 <= i < fwd.len() && 0 <= j < fwd.len() && i != j implies fwd[i]
            != fwd[j] by {
            if i < j {
                assert(settle_rank(done, order, count, fwd[i]) < settle_rank(done, order, count, fwd[j]));
            } else {
                assert(settle_rank(done, order, count, fwd[j]) < settle_rank(done, order, count, fwd[i]));
            }
        }
        lemma_flat_in_range(grid, grid.end());
    }
    let total_cost = dist[(h - 1) * w + (w - 1)];
    PathResult { path, total_cost }
}

/// The sum of the recorded costs; it falls whenever one of them does.
spec fn total(s: Seq<u32>) -> nat
    decreases s.len(),
{
    if s.len() == 0 {
        0
    } else {
        total(s.drop_last()) + s.last() as nat
    }
}

proof fn lemma_total_lower(s: Seq<u32>, i: int, v: u32)
    requires
        0 <= i < s.len(),
        v < s[i],
    ensures
        total(s.update(i, v)) < total(s),
    decreases s.len(),
{
    let t = s.update(i, v);
    if i == s.len() - 1 {
        assert(t.drop_last() =~= s.drop_last());
    } else {
        lemma_total_lower(s.drop_last(), i, v);
        assert(t.drop_last() =~= s.drop_last().update(i, v));
    }
}

/// The queue after taking out entry `k`, the last entry taking its place.
spec fn removed(h: Seq<(u32, usize, usize)>, k: int) -> Seq<(u32, usize, usize)> {
    h.update(k, h.last()).drop_last()
}

proof fn lemma_removed_keeps(h: Seq<(u32, usize, usize)>, k: int, cost: int, c: (usize, usize))
    requires
        0 <= k < h.len(),
        queued(h, cost, c),
        !(h[k].0 == cost && h[k].1 == c.0 && h[k].2 == c.1),
    ensures
        queued(removed(h, k), cost, c),
{
    let i = choose|i: int| 0 <= i < h.len() && h[i].0 == cost && h[i].1 == c.0 && h[i].2 == c.1;
    let r = removed(h, k);
    if i == h.len() - 1 {
        assert(r[k] == h[i]);
    } else {
        assert(r[i] == h[i]);
    }
}

proof fn lemma_removed_entries(h: Seq<(u32, usize, usize)>, k: int)
    requires
        0 <= k < h.len(),
    ensures
        forall|i: int|
            0 <= i < removed(h, k).len() ==> exists|j: int|
                0 <= j < h.len() && j != k && #[trigger] removed(h, k)[i] == h[j],
{
    let r = removed(h, k);
    assert forall|i: int| 0 <= i < r.len() implies exists|j: int|
        0 <= j < h.len() && j != k && #[trigger] r[i] == h[j] by {
        if i == k {
            assert(r[i] == h[h.len() - 1]);
        } else {
            assert(r[i] == h[i]);
        }
    }
}

proof fn lemma_init(g: &Grid, dist: Seq<u32>, parent: Seq<Option<(usize, usize)>>, heap: Seq<(u32, usize, usize)>)
    requires
        g.wf(),
        g.width >= 1,
        g.height >= 1,
        dist.len() == g.width * g.height,
        parent.len() == g.width * g.height,
        dist[0] == 0,
        forall|i: int| 0 < i < dist.len() ==> #[trigger] dist[i] == u32::MAX,
        heap == seq![(0u32, 0usize, 0usize)],
    ensures
        search_inv(g, dist, parent, heap, Set::empty(), Map::empty(), 0, None, Set::empty()),
{
    reveal(search_inv);
    assert(g.end() != (0usize, 0usize) || !Set::<(usize, usize)>::empty().contains(g.end()));
    assert forall|c: (usize, usize)| g.contains(c) && #[trigger] dist_of(g, dist, c) < u32::MAX implies c
        == (0usize, 0usize) by {
        lemma_flat_in_range(g, c);
        lemma_flat_injective(g, c, (0usize, 0usize));
    }
    assert(queued(heap, 0, (0usize, 0usize))) by {
        assert(heap[0] == (0u32, 0usize, 0usize));
    }
}

proof fn lemma_stale(
    g: &Grid,
    dist: Seq<u32>,
    parent: Seq<Option<(usize, usize)>>,
    h: Seq<(u32, usize, usize)>,
    done: Set<(usize, usize)>,
    order: Map<(usize, usize), nat>,
    count: nat,
    k: int,
)
    requires
        search_inv(g, dist, parent, h, done, order, count, None, Set::empty()),
        0 <= k < h.len(),
        h[k].0 > dist_of(g, dist, (h[k].1, h[k].2)),
    ensures
        search_inv(g, dist, parent, removed(h, k), done, order, count, None, Set::empty()),
{
    reveal(search_inv);
    let r = removed(h, k);
    lemma_removed_entries(h, k);
    assert forall|i: int| 0 <= i < r.len() implies g.contains((#[trigger] r[i].1, r[i].2)) && r[i].0
        >= dist_of(g, dist, (r[i].1, r[i].2)) && r[i].0 < u32::MAX by {
        let j = choose|j: int| 0 <= j < h.len() && j != k && r[i] == h[j];
        assert(g.contains((h[j].1, h[j].2)));
    }
    assert forall|c: (usize, usize)|
        g.contains(c) && !done.contains(c) && #[trigger] dist_of(g, dist, c) < u32::MAX implies queued(
        r,
        dist_of(g, dist, c),
        c,
    ) by {
        lemma_removed_keeps(h, k, dist_of(g, dist, c), c);
    }
    assert forall|u: (usize, usize), i: int|
        #[trigger] done.contains(u) && 0 <= i < r.len() implies dist_of(g, dist, u) <= (
    #[trigger] r[i]).0 by {
        let j = choose|j: int| 0 <= j < h.len() && j != k && r[i] == h[j];
        assert(dist_of(g, dist, u) <= h[j].0);
    }
}

spec fn settled_order(done: Set<(usize, usize)>, order: Map<(usize, usize), nat>, count: nat, v: (
    usize,
    usize,
)) -> Map<(usize, usize), nat> {
    if done.contains(v) {
        order
    } else {
        order.insert(v, count)
    }
}

spec fn settled_count(done: Set<(usize, usize)>, count: nat, v: (usize, usize)) -> nat {
    if done.contains(v) {
        count
    } else {
        count + 1
    }
}

/// Taking out the cheapest entry, when it is current, settles its cell.
proof fn lemma_settle(
    g: &Grid,
    dist: Seq<u32>,
    parent: Seq<Option<(usize, usize)>>,
    h: Seq<(u32, usize, usize)>,
    done: Set<(usize, usize)>,
    order: Map<(usize, usize), nat>,
    count: nat,
    k: int,
)
    requires
        g.wf(),
        g.width >= 1,
        g.height >= 1,
        g.width + g.height <= MAX_SIDE_SUM,
        search_inv(g, dist, parent, h, done, order, count, None, Set::empty()),
        0 <= k < h.len(),
        forall|t: int| 0 <= t < h.len() ==> h[k].0 <= #[trigger] h[t].0,
        h[k].0 == dist_of(g, dist, (h[k].1, h[k].2)),
        (h[k].1, h[k].2) != g.end(),
    ensures
        ({
            let v = (h[k].1, h[k].2);
            &&& search_inv(
                g,
                dist,
                parent,
                removed(h, k),
                done.insert(v),
                settled_order(done, order, count, v),
                settled_count(done, count, v),
                Some(v),
                Set::empty(),
            )
            &&& forall|u: (usize, usize)|
                #[trigger] done.insert(v).contains(u) ==> dist_of(g, dist, u) <= h[k].0
        }),
{
    reveal(search_inv);
    let v = (h[k].1, h[k].2);
    let r = removed(h, k);
    let done2 = done.insert(v);
    let order2 = settled_order(done, order, count, v);
    let count2 = settled_count(done, count, v);
    lemma_removed_entries(h, k);
    assert forall|p: Seq<(usize, usize)>|
        #[trigger] g.is_walk(p) && done2.contains(p.last()) implies g.walk_cost(p) >= dist_of(
        g,
        dist,
        p.last(),
    ) by {
        if p.last() == v && !done.contains(v) {
            lemma_reach(g, dist, parent, h, done, order, count, p);
        }
    }
    lemma_straight_walk(g, v);
    assert(g.is_walk(straight_walk(v)));
    assert(dist_of(g, dist, v) <= 255 * (v.0 + v.1));
    assert forall|i: int| 0 <= i < r.len() implies g.contains((#[trigger] r[i].1, r[i].2)) && r[i].0
        >= dist_of(g, dist, (r[i].1, r[i].2)) && r[i].0 < u32::MAX by {
        let j = choose|j: int| 0 <= j < h.len() && j != k && r[i] == h[j];
        assert(g.contains((h[j].1, h[j].2)));
    }
    assert forall|c: (usize, usize)|
        g.contains(c) && !done2.contains(c) && #[trigger] dist_of(g, dist, c) < u32::MAX implies queued(
        r,
        dist_of(g, dist, c),
        c,
    ) by {
        lemma_removed_keeps(h, k, dist_of(g, dist, c), c);
    }
    assert forall|u: (usize, usize), i: int|
        #[trigger] done2.contains(u) && 0 <= i < r.len() implies dist_of(g, dist, u) <= (
    #[trigger] r[i]).0 by {
        let j = choose|j: int| 0 <= j < h.len() && j != k && r[i] == h[j];
        assert(h[k].0 <= h[j].0);
        if u != v {
            assert(dist_of(g, dist, u) <= h[k].0);
        }
    }
    assert forall|u: (usize, usize)| #[trigger] done2.contains(u) implies dist_of(g, dist, u) <= h[k].0 by {
        if u != v {
            assert(dist_of(g, dist, u) <= h[k].0);
        }
    }
    assert forall|c: (usize, usize)| #[trigger] done2.contains(c) implies g.contains(c) && dist_of(
        g,
        dist,
        c,
    ) <= 255 * (c.0 + c.1) && order2.dom().contains(c) && order2[c] < count2 by {
        if c != v {
            assert(done.contains(c));
        }
    }
    assert forall|x: (usize, usize)|
        g.contains(x) && x != (0usize, 0usize) && #[trigger] dist_of(g, dist, x) < u32::MAX implies {
        &&& parent[flat(g.width, x)] is Some
        &&& done2.contains(parent[flat(g.width, x)]->0)
        &&& adjacent(parent[flat(g.width, x)]->0, x)
        &&& dist_of(g, dist, x) == dist_of(g, dist, parent[flat(g.width, x)]->0) + g.value(x)
        &&& done2.contains(x) ==> order2[parent[flat(g.width, x)]->0] < order2[x]
    } by {
        let u = parent[flat(g.width, x)]->0;
        assert(done.contains(u));
        if x == v && !done.contains(v) {
            assert(order2[u] == order[u]);
        } else if done.contains(x) {
            assert(order2[u] == order[u]);
            assert(order2[x] == order[x]);
        }
    }
}

/// Lowering a neighbour's cost through the settled cell `v`.
proof fn lemma_relax(
    g: &Grid,
    dist: Seq<u32>,
    parent: Seq<Option<(usize, usize)>>,
    h: Seq<(u32, usize, usize)>,
    done: Set<(usize, usize)>,
    order: Map<(usize, usize), nat>,
    count: nat,
    v: (usize, usize),
    covered: Set<(usize, usize)>,
    nb: (usize, usize),
    new_cost: u32,
)
    requires
        g.wf(),
        search_inv(g, dist, parent, h, done, order, count, Some(v), covered),
        done.contains(v),
        forall|u: (usize, usize)| #[trigger] done.contains(u) ==> dist_of(g, dist, u) <= dist_of(g, dist, v),
        g.contains(nb),
        adjacent(v, nb),
        new_cost == dist_of(g, dist, v) + g.value(nb),
        new_cost < dist_of(g, dist, nb),
    ensures
        search_inv(
            g,
            dist.update(flat(g.width, nb), new_cost),
            parent.update(flat(g.width, nb), Some(v)),
            h.push((new_cost, nb.0, nb.1)),
            done,
            order,
            count,
            Some(v),
            covered.insert(nb),
        ),
        forall|u: (usize, usize)|
            #[trigger] done.contains(u) ==> dist_of(g, dist.update(flat(g.width, nb), new_cost), u)
                == dist_of(g, dist, u),
{
    reveal(search_inv);
    let i = flat(g.width, nb);
    let dist2 = dist.update(i, new_cost);
    let parent2 = parent.update(i, Some(v));
    let h2 = h.push((new_cost, nb.0, nb.1));
    let cov2 = covered.insert(nb);
    lemma_flat_in_range(g, nb);
    assert(!done.contains(nb));
    assert forall|c: (usize, usize)| g.contains(c) && c != nb implies #[trigger] dist_of(g, dist2, c)
        == dist_of(g, dist, c) && parent2[flat(g.width, c)] == parent[flat(g.width, c)] by {
        lemma_flat_in_range(g, c);
        if flat(g.width, c) == i {
            lemma_flat_injective(g, c, nb);
        }
    }
    assert(dist_of(g, dist2, nb) == new_cost);
    assert forall|j: int| 0 <= j < h2.len() implies g.contains((#[trigger] h2[j].1, h2[j].2)) && h2[j].0
        >= dist_of(g, dist2, (h2[j].1, h2[j].2)) && h2[j].0 < u32::MAX by {
        if j < h.len() {
            assert(h2[j] == h[j]);
            assert(g.contains((h[j].1, h[j].2)));
        }
    }
    assert forall|c: (usize, usize)|
        g.contains(c) && !done.contains(c) && #[trigger] dist_of(g, dist2, c) < u32::MAX implies queued(
        h2,
        dist_of(g, dist2, c),
        c,
    ) by {
        if c == nb {
            assert(h2[h.len() as int] == (new_cost, nb.0, nb.1));
        } else {
            assert(dist_of(g, dist2, c) == dist_of(g, dist, c));
            let j = choose|j: int|
                0 <= j < h.len() && h[j].0 == dist_of(g, dist, c) && h[j].1 == c.0 && h[j].2 == c.1;
            assert(h2[j] == h[j]);
        }
    }
    assert forall|c: (usize, usize)| #[trigger] done.contains(c) implies g.contains(c) && dist_of(
        g,
        dist2,
        c,
    ) <= 255 * (c.0 + c.1) && order.dom().contains(c) && order[c] < count by {
        assert(dist_of(g, dist2, c) == dist_of(g, dist, c));
    }
    assert forall|p: Seq<(usize, usize)>|
        #[trigger] g.is_walk(p) && done.contains(p.last()) implies g.walk_cost(p) >= dist_of(
        g,
        dist2,
        p.last(),
    ) by {
        assert(g.contains(p[p.len() - 1]));
        assert(dist_of(g, dist2, p.last()) == dist_of(g, dist, p.last()));
    }
    assert forall|u: (usize, usize), w: (usize, usize)|
        done.contains(u) && g.contains(w) && #[trigger] adjacent(u, w) && (Some(v) != Some(u)
            || cov2.contains(w)) implies dist_of(g, dist2, w) <= dist_of(g, dist2, u) + g.value(w) by {
        assert(dist_of(g, dist2, u) == dist_of(g, dist, u));
        if w != nb {
            assert(dist_of(g, dist2, w) == dist_of(g, dist, w));
        }
    }
    assert forall|u: (usize, usize), j: int|
        #[trigger] done.contains(u) && 0 <= j < h2.len() implies dist_of(g, dist2, u) <= (
    #[trigger] h2[j]).0 by {
        assert(dist_of(g, dist2, u) == dist_of(g, dist, u));
        if j < h.len() {
            assert(h2[j] == h[j]);
        }
    }
    assert(nb != (0usize, 0usize));
    assert(dist_of(g, dist2, (0usize, 0usize)) == 0);
    assert forall|x: (usize, usize)|
        g.contains(x) && x != (0usize, 0usize) && #[trigger] dist_of(g, dist2, x) < u32::MAX implies {
        &&& parent2[flat(g.width, x)] is Some
        &&& done.contains(parent2[flat(g.width, x)]->0)
        &&& adjacent(parent2[flat(g.width, x)]->0, x)
        &&& dist_of(g, dist2, x) == dist_of(g, dist2, parent2[flat(g.width, x)]->0) + g.value(x)
        &&& done.contains(x) ==> order[parent2[flat(g.width, x)]->0] < order[x]
    } by {
        if x != nb {
            assert(dist_of(g, dist2, x) == dist_of(g, dist, x));
            let u = parent[flat(g.width, x)]->0;
            assert(g.contains(u));
            assert(dist_of(g, dist2, u) == dist_of(g, dist, u));
        } else {
            assert(dist_of(g, dist2, v) == dist_of(g, dist, v));
        }
    }
}

proof fn lemma_inv_shape(
    g: &Grid,
    dist: Seq<u32>,
    parent: Seq<Option<(usize, usize)>>,
    h: Seq<(u32, usize, usize)>,
    done: Set<(usize, usize)>,
    order: Map<(usize, usize), nat>,
    count: nat,
    open: Option<(usize, usize)>,
    covered: Set<(usize, usize)>,
)
    requires
        search_inv(g, dist, parent, h, done, order, count, open, covered),
    ensures
        dist.len() == g.width * g.height,
        parent.len() == g.width * g.height,
        forall|i: int|
            0 <= i < h.len() ==> g.contains((#[trigger] h[i].1, h[i].2)) && h[i].0 < u32::MAX
                && h[i].0 >= dist_of(g, dist, (h[i].1, h[i].2)),
        forall|c: (usize, usize)|
            #[trigger] done.contains(c) ==> g.contains(c) && dist_of(g, dist, c) <= 255 * (c.0
                + c.1) && order.dom().contains(c) && order[c] < count,
        !done.contains(g.end()),
        dist_of(g, dist, (0usize, 0usize)) == 0,
        forall|v: (usize, usize)|
            g.contains(v) && v != (0usize, 0usize) && #[trigger] dist_of(g, dist, v) < u32::MAX ==> {
                &&& parent[flat(g.width, v)] is Some
                &&& done.contains(parent[flat(g.width, v)]->0)
                &&& adjacent(parent[flat(g.width, v)]->0, v)
                &&& dist_of(g, dist, v) == dist_of(g, dist, parent[flat(g.width, v)]->0) + g.value(
                    v,
                )
                &&& done.contains(v) ==> order[parent[flat(g.width, v)]->0] < order[v]
            },
{
    reveal(search_inv);
}

proof fn lemma_keep(
    g: &Grid,
    dist: Seq<u32>,
    parent: Seq<Option<(usize, usize)>>,
    h: Seq<(u32, usize, usize)>,
    done: Set<(usize, usize)>,
    order: Map<(usize, usize), nat>,
    count: nat,
    v: (usize, usize),
    covered: Set<(usize, usize)>,
    nb: (usize, usize),
)
    requires
        search_inv(g, dist, parent, h, done, order, count, Some(v), covered),
        dist_of(g, dist, nb) <= dist_of(g, dist, v) + g.value(nb),
    ensures
        search_inv(g, dist, parent, h, done, order, count, Some(v), covered.insert(nb)),
{
    reveal(search_inv);
}

proof fn lemma_close(
    g: &Grid,
    dist: Seq<u32>,
    parent: Seq<Option<(usize, usize)>>,
    h: Seq<(u32, usize, usize)>,
    done: Set<(usize, usize)>,
    order: Map<(usize, usize), nat>,
    count: nat,
    v: (usize, usize),
    covered: Set<(usize, usize)>,
)
    requires
        search_inv(g, dist, parent, h, done, order, count, Some(v), covered),
        forall|w: (usize, usize)| g.contains(w) && #[trigger] adjacent(v, w) ==> covered.contains(w),
    ensures
        search_inv(g, dist, parent, h, done, order, count, None, Set::empty()),
{
    reveal(search_inv);
}

/// A cheapest walk from the top-left corner to the bottom-right one, found
/// by Dijkstra's search: the queue is scanned for its smallest `(cost, x,
/// y)` entry, stale entries are skipped, and the search stops when the far
/// corner comes out of the queue.
#[verifier::rlimit(40)]
pub fn dijkstra_min(grid: &Grid) -> (r: Option<PathResult>)
    requires
        grid.wf(),
        grid.width >= 1,
        grid.height >= 1,
        grid.width + grid.height <= MAX_SIDE_SUM,
        grid.width * grid.height <= usize::MAX,
    ensures
        r is Some,
        grid.is_walk(r->Some_0.path@),
        r->Some_0.path@.last() == grid.end(),
        r->Some_0.path@.no_duplicates(),
        grid.walk_cost(r->Some_0.path@) == r->Some_0.total_cost,
        forall|p: Seq<(usize, usize)>|
            grid.is_walk(p) && p.last() == grid.end() ==> r->Some_0.total_cost <= #[trigger] grid.walk_cost(p),
{
    let w = grid.width;
    let h = grid.height;
    let n = w * h;
    let mut dist: Vec<u32> = Vec::new();
    let mut parent: Vec<Option<(usize, usize)>> = Vec::new();
    let mut i: usize = 0;
    while i < n
        invariant
            i <= n,
            dist@.len() == i,
            parent@.len() == i,
            forall|k: int| 0 <= k < i ==> #[trigger] dist@[k] == u32::MAX,
        decreases n - i,
    {
        dist.push(u32::MAX);
        parent.push(None);
        i = i + 1;
    }
    proof {
        lemma_flat_in_range(grid, (0usize, 0usize));
    }
    dist[0] = 0;
    let mut heap: Vec<(u32, usize, usize)> = Vec::new();
    heap.push((0, 0, 0));
    let ghost mut done: Set<(usize, usize)> = Set::empty();
    let ghost mut order: Map<(usize, usize), nat> = Map::empty();
    let ghost mut count: nat = 0;
    proof {
        assert(heap@ =~= seq![(0u32, 0usize, 0usize)]);
        lemma_init(grid, dist@, parent@, heap@);
    }
    loop
        invariant
            w == grid.width,
            h == grid.height,
            grid.wf(),
            w >= 1,
            h >= 1,
            w + h <= MAX_SIDE_SUM,
            w * h <= usize::MAX,
            search_inv(grid, dist@, parent@, heap@, done, order, count, None, Set::empty()),
        decreases total(dist@), heap@.len(),
    {
        proof {
            lemma_inv_shape(grid, dist@, parent@, heap@, done, order, count, None, Set::empty());
        }
        if heap.len() == 0 {
            proof {
                lemma_straight_walk(grid, grid.end());
                lemma_reach(grid, dist@, parent@, heap@, done, order, count, straight_walk(grid.end()));
            }
            return None;
        }
        let mut k: usize = 0;
        let mut j: usize = 1;
        while j < heap.len()
            invariant
                k < heap@.len(),
                1 <= j <= heap@.len(),
                forall|t: int| 0 <= t < j ==> heap@[k as int].0 <= #[trigger] heap@[t].0,
            decreases heap@.len() - j,
        {
            let a = heap[j];
            let b = heap[k];
            if a.0 < b.0 || (a.0 == b.0 && (a.1 < b.1 || (a.1 == b.1 && a.2 < b.2))) {
                k = j;
            }
            j = j + 1;
        }
        let (cost, x, y) = heap[k];
        let ghost h0 = heap@;
        let ghost total0 = total(dist@);
        heap.swap_remove(k);
        assert(heap@ == removed(h0, k as int));
        if x == w - 1 && y == h - 1 {
            proof {
                assert(grid.contains((x, y)));
                assert(h0[k as int].0 >= dist_of(grid, dist@, (x, y)));
                assert forall|p: Seq<(usize, usize)>|
                    grid.is_walk(p) && p.last() == grid.end() implies dist_of(grid, dist@, grid.end())
                    <= #[trigger] grid.walk_cost(p) by {
                    lemma_reach(grid, dist@, parent@, h0, done, order, count, p);
                }
            }
            let ghost reached = Set::new(
                |c: (usize, usize)| grid.contains(c) && dist_of(grid, dist@, c) < u32::MAX,
            );
            proof {
                assert(linked(grid, dist@, parent@, done, order, count, reached));
            }
            let r = reconstruct_path(
                grid,
                &parent,
                &dist,
                Ghost(done),
                Ghost(order),
                Ghost(count),
                Ghost(reached),
            );
            return Some(r);
        }
        proof {
            lemma_flat_in_range(grid, (x, y));
        }
        let vi = y * w + x;
        if cost > dist[vi] {
            proof {
                lemma_stale(grid, dist@, parent@, h0, done, order, count, k as int);
            }
            continue;
        }
        let ghost v = (x, y);
        proof {
            lemma_settle(grid, dist@, parent@, h0, done, order, count, k as int);
            order = settled_order(done, order, count, v);
            count = settled_count(done, count, v);
            done = done.insert(v);
        }
        let ghost mut covered: Set<(usize, usize)> = Set::empty();
        let nbrs = grid.neighbors(x, y);
        proof {
            lemma_neighbor_cells(grid, v);
        }
        let mut t: usize = 0;
        while t < nbrs.len()
            invariant
                w == grid.width,
                h == grid.height,
                grid.wf(),
                w + h <= MAX_SIDE_SUM,
                w * h <= usize::MAX,
                v == (x, y),
                grid.contains(v),
                t <= nbrs@.len(),
                nbrs@ == neighbor_cells(x, y, w, h),
                forall|i: int|
                    0 <= i < nbrs@.len() ==> grid.contains(#[trigger] nbrs@[i]) && adjacent(
                        v,
                        nbrs@[i],
                    ),
                forall|s: int| 0 <= s < t ==> covered.contains(#[trigger] nbrs@[s]),
                search_inv(grid, dist@, parent@, heap@, done, order, count, Some(v), covered),
                done.contains(v),
                dist_of(grid, dist@, v) == cost,
                forall|u: (usize, usize)| #[trigger] done.contains(u) ==> dist_of(grid, dist@, u) <= cost,
                total(dist@) <= total0,
                total(dist@) == total0 ==> heap@.len() < h0.len(),
            decreases nbrs@.len() - t,
        {
            let (nx, ny) = nbrs[t];
            let ghost nb = (nx, ny);
            proof {
                lemma_flat_in_range(grid, nb);
                lemma_inv_shape(grid, dist@, parent@, heap@, done, order, count, Some(v), covered);
                assert(cost <= 255 * (x + y));
            }
            let new_cost = cost + grid.get(nx, ny) as u32;
            let ni = ny * w + nx;
            if new_cost < dist[ni] {
                proof {
                    lemma_relax(grid, dist@, parent@, heap@, done, order, count, v, covered, nb, new_cost);
                    lemma_total_lower(dist@, ni as int, new_cost);
                    assert(nb != v);
                    if flat(w, nb) == flat(w, v) {
                        lemma_flat_injective(grid, nb, v);
                    }
                }
                dist[ni] = new_cost;
                parent[ni] = Some((x, y));
                heap.push((new_cost, nx, ny));
            } else {
                proof {
                    lemma_keep(grid, dist@, parent@, heap@, done, order, count, v, covered, nb);
                }
            }
            proof {
                covered = covered.insert(nb);
            }
            t = t + 1;
        }
        proof {
            assert forall|u: (usize, usize)| grid.contains(u) && #[trigger] adjacent(v, u) implies covered.contains(u) by {
                let s = choose|s: int| 0 <= s < nbrs@.len() && nbrs@[s] == u;
                assert(covered.contains(nbrs@[s]));
            }
            lemma_close(grid, dist@, parent@, heap@, done, order, count, v, covered);
        }
    }
}

/// The largest number of cells searched for an expensive walk: it keeps
/// every cost within 32 bits.
pub const MAX_CELLS: usize = 16_843_009;

/// How many flags are set.
spec fn count_true(s: Seq<bool>) -> nat
    decreases s.len(),
{
    if s.len() == 0 {
        0
    } else {
        count_true(s.drop_last()) + if s.last() {
            1nat
        } else {
            0nat
        }
    }
}

proof fn lemma_count_true_set(s: Seq<bool>, i: int)
    requires
        0 <= i < s.len(),
        !s[i],
    ensures
        count_true(s.update(i, true)) == count_true(s) + 1,
    decreases s.len(),
{
    let t = s.update(i, true);
    if i == s.len() - 1 {
        assert(t.drop_last() =~= s.drop_last());
    } else {
        lemma_count_true_set(s.drop_last(), i);
        assert(t.drop_last() =~= s.drop_last().update(i, true));
    }
}

proof fn lemma_count_true_len(s: Seq<bool>)
    ensures
        count_true(s) <= s.len(),
    decreases s.len(),
{
    if s.len() > 0 {
        lemma_count_true_len(s.drop_last());
    }
}

/// What holds between steps of the expensive-walk search: `done` mirrors
/// the visited flags, `order` says when each cell was visited, and every
/// cell with a parent was reached from a visited neighbour.
#[verifier::opaque]
spec fn greedy_inv(
    g: &Grid,
    dist: Seq<u32>,
    parent: Seq<Option<(usize, usize)>>,
    visited: Seq<bool>,
    heap: Seq<(u32, usize, usize)>,
    done: Set<(usize, usize)>,
    order: Map<(usize, usize), nat>,
    count: nat,
) -> bool {
    &&& dist.len() == g.width * g.height
    &&& parent.len() == g.width * g.height
    &&& visited.len() == g.width * g.height
    &&& count == count_true(visited)
    &&& forall|c: (usize, usize)|
        g.contains(c) ==> (visited[flat(g.width, c)] <==> #[trigger] done.contains(c))
    &&& forall|i: int|
        0 <= i < heap.len() ==> g.contains((#[trigger] heap[i].1, heap[i].2)) && heap[i].0
            <= dist_of(g, dist, (heap[i].1, heap[i].2)) && ((heap[i].1, heap[i].2) == (
            0usize,
            0usize,
        ) || parent[flat(g.width, (heap[i].1, heap[i].2))] is Some)
    &&& forall|c: (usize, usize)|
        g.contains(c) && !done.contains(c) && (c == (0usize, 0usize) || parent[flat(
            g.width,
            c,
        )] is Some) ==> queued(heap, #[trigger] dist_of(g, dist, c), c)
    &&& forall|c: (usize, usize)|
        g.contains(c) && c != (0usize, 0usize) && (#[trigger] parent[flat(g.width, c)]) is Some ==> {
            let u = parent[flat(g.width, c)]->0;
            &&& done.contains(u)
            &&& adjacent(u, c)
            &&& dist_of(g, dist, c) == dist_of(g, dist, u) + g.value(c)
            &&& done.contains(c) ==> order[u] < order[c]
            &&& dist_of(g, dist, c) <= 255 * (order[u] + 1)
        }
    &&& forall|c: (usize, usize)|
        #[trigger] done.contains(c) ==> g.contains(c) && order.dom().contains(c) && order[c] < count
            && dist_of(g, dist, c) <= 255 * order[c] && (c == (0usize, 0usize) || parent[flat(
            g.width,
            c,
        )] is Some)
    &&& dist_of(g, dist, (0usize, 0usize)) == 0
    &&& parent[flat(g.width, (0usize, 0usize))] is None
    &&& count == 0 ==> heap == seq![(0u32, 0usize, 0usize)]
    &&& count > 0 ==> done.contains((0usize, 0usize))
}

/// The cells a search has reached: the start, and every cell with a parent.
spec fn reached_cells(g: &Grid, parent: Seq<Option<(usize, usize)>>) -> Set<(usize, usize)> {
    Set::new(
        |c: (usize, usize)|
            g.contains(c) && (c == (0usize, 0usize) || parent[flat(g.width, c)] is Some),
    )
}

proof fn lemma_greedy_shape(
    g: &Grid,
    dist: Seq<u32>,
    parent: Seq<Option<(usize, usize)>>,
    visited: Seq<bool>,
    h: Seq<(u32, usize, usize)>,
    done: Set<(usize, usize)>,
    order: Map<(usize, usize), nat>,
    count: nat,
)
    requires
        greedy_inv(g, dist, parent, visited, h, done, order, count),
    ensures
        dist.len() == g.width * g.height,
        parent.len() == g.width * g.height,
        visited.len() == g.width * g.height,
        count == count_true(visited),
        forall|c: (usize, usize)|
            g.contains(c) ==> (visited[flat(g.width, c)] <==> #[trigger] done.contains(c)),
        forall|i: int|
            0 <= i < h.len() ==> g.contains((#[trigger] h[i].1, h[i].2)),
        forall|c: (usize, usize)|
            #[trigger] done.contains(c) ==> g.contains(c) && order.dom().contains(c) && order[c]
                < count && dist_of(g, dist, c) <= 255 * order[c],
        dist_of(g, dist, (0usize, 0usize)) == 0,
        linked(g, dist, parent, done, order, count, reached_cells(g, parent)),
{
    reveal(greedy_inv);
    let reached = reached_cells(g, parent);
    assert forall|v: (usize, usize)| #[trigger] reached.contains(v) implies g.contains(v) && (v != (
    0usize,
    0usize,
    ) ==> {
        &&& parent[flat(g.width, v)] is Some
        &&& done.contains(parent[flat(g.width, v)]->0)
        &&& adjacent(parent[flat(g.width, v)]->0, v)
        &&& dist_of(g, dist, v) == dist_of(g, dist, parent[flat(g.width, v)]->0) + g.value(v)
        &&& done.contains(v) ==> order[parent[flat(g.width, v)]->0] < order[v]
    }) by {
        if v != (0usize, 0usize) {
            assert(parent[flat(g.width, v)] is Some);
        }
    }
}

proof fn lemma_greedy_init(
    g: &Grid,
    dist: Seq<u32>,
    parent: Seq<Option<(usize, usize)>>,
    visited: Seq<bool>,
    heap: Seq<(u32, usize, usize)>,
)
    requires
        g.wf(),
        g.width >= 1,
        g.height >= 1,
        dist.len() == g.width * g.height,
        parent.len() == g.width * g.height,
        visited.len() == g.width * g.height,
        forall|i: int| 0 <= i < dist.len() ==> #[trigger] dist[i] == 0,
        forall|i: int| 0 <= i < parent.len() ==> #[trigger] parent[i] is None,
        forall|i: int| 0 <= i < visited.len() ==> !#[trigger] visited[i],
        heap == seq![(0u32, 0usize, 0usize)],
    ensures
        greedy_inv(g, dist, parent, visited, heap, Set::empty(), Map::empty(), 0),
{
    reveal(greedy_inv);
    lemma_flat_in_range(g, (0usize, 0usize));
    assert(count_true(visited) == 0) by {
        lemma_no_true(visited);
    }
    assert forall|c: (usize, usize)| g.contains(c) implies parent[flat(g.width, c)] is None
        && !visited[flat(g.width, c)] && dist_of(g, dist, c) == 0 by {
        lemma_flat_in_range(g, c);
    }
    assert(queued(heap, 0, (0usize, 0usize))) by {
        assert(heap[0] == (0u32, 0usize, 0usize));
    }
}

proof fn lemma_no_true(s: Seq<bool>)
    requires
        forall|i: int| 0 <= i < s.len() ==> !#[trigger] s[i],
    ensures
        count_true(s) == 0,
    decreases s.len(),
{
    if s.len() > 0 {
        lemma_no_true(s.drop_last());
    }
}

proof fn lemma_greedy_skip(
    g: &Grid,
    dist: Seq<u32>,
    parent: Seq<Option<(usize, usize)>>,
    visited: Seq<bool>,
    h: Seq<(u32, usize, usize)>,
    done: Set<(usize, usize)>,
    order: Map<(usize, usize), nat>,
    count: nat,
    k: int,
)
    requires
        greedy_inv(g, dist, parent, visited, h, done, order, count),
        0 <= k < h.len(),
        done.contains((h[k].1, h[k].2)),
    ensures
        greedy_inv(g, dist, parent, visited, removed(h, k), done, order, count),
{
    reveal(greedy_inv);
    let r = removed(h, k);
    lemma_removed_entries(h, k);
    assert forall|i: int| 0 <= i < r.len() implies g.contains((#[trigger] r[i].1, r[i].2)) && r[i].0
        <= dist_of(g, dist, (r[i].1, r[i].2)) && ((r[i].1, r[i].2) == (0usize, 0usize) || parent[flat(
        g.width,
        (r[i].1, r[i].2),
    )] is Some) by {
        let j = choose|j: int| 0 <= j < h.len() && j != k && r[i] == h[j];
        assert(g.contains((h[j].1, h[j].2)));
    }
    assert forall|c: (usize, usize)|
        g.contains(c) && !done.contains(c) && (c == (0usize, 0usize) || parent[flat(
            g.width,
            c,
        )] is Some) implies queued(r, #[trigger] dist_of(g, dist, c), c) by {
        lemma_removed_keeps(h, k, dist_of(g, dist, c), c);
    }
    assert(count > 0) by {
        if count == 0 {
            assert(h == seq![(0u32, 0usize, 0usize)]);
            assert(done.contains((0usize, 0usize)));
            assert(g.contains((0usize, 0usize)));
            assert(order[(0usize, 0usize)] < count);
        }
    }
}

/// Taking out the most expensive entry of an unvisited cell visits it.
proof fn lemma_greedy_visit(
    g: &Grid,
    dist: Seq<u32>,
    parent: Seq<Option<(usize, usize)>>,
    visited: Seq<bool>,
    h: Seq<(u32, usize, usize)>,
    done: Set<(usize, usize)>,
    order: Map<(usize, usize), nat>,
    count: nat,
    k: int,
)
    requires
        g.wf(),
        greedy_inv(g, dist, parent, visited, h, done, order, count),
        0 <= k < h.len(),
        forall|t: int| 0 <= t < h.len() ==> #[trigger] h[t].0 <= h[k].0,
        !done.contains((h[k].1, h[k].2)),
    ensures
        ({
            let v = (h[k].1, h[k].2);
            &&& h[k].0 == dist_of(g, dist, v)
            &&& dist_of(g, dist, v) <= 255 * count
            &&& !visited[flat(g.width, v)]
            &&& greedy_inv(
                g,
                dist,
                parent,
                visited.update(flat(g.width, v), true),
                removed(h, k),
                done.insert(v),
                order.insert(v, count),
                count + 1,
            )
        }),
{
    reveal(greedy_inv);
    let v = (h[k].1, h[k].2);
    let r = removed(h, k);
    let vis2 = visited.update(flat(g.width, v), true);
    let done2 = done.insert(v);
    let order2 = order.insert(v, count);
    lemma_flat_in_range(g, v);
    assert(g.contains(v));
    assert(queued(h, dist_of(g, dist, v), v));
    let j = choose|j: int|
        0 <= j < h.len() && h[j].0 == dist_of(g, dist, v) && h[j].1 == v.0 && h[j].2 == v.1;
    assert(h[j].0 <= h[k].0);
    assert(h[k].0 == dist_of(g, dist, v));
    lemma_count_true_set(visited, flat(g.width, v));
    if v != (0usize, 0usize) {
        let u = parent[flat(g.width, v)]->0;
        assert(parent[flat(g.width, v)] is Some);
        assert(order[u] < count);
    }
    assert forall|c: (usize, usize)| g.contains(c) implies (vis2[flat(g.width, c)] <==> #[trigger] done2.contains(c)) by {
        lemma_flat_in_range(g, c);
        if c != v && flat(g.width, c) == flat(g.width, v) {
            lemma_flat_injective(g, c, v);
        }
    }
    lemma_removed_entries(h, k);
    assert forall|i: int| 0 <= i < r.len() implies g.contains((#[trigger] r[i].1, r[i].2)) && r[i].0
        <= dist_of(g, dist, (r[i].1, r[i].2)) && ((r[i].1, r[i].2) == (0usize, 0usize) || parent[flat(
        g.width,
        (r[i].1, r[i].2),
    )] is Some) by {
        let j = choose|j: int| 0 <= j < h.len() && j != k && r[i] == h[j];
        assert(g.contains((h[j].1, h[j].2)));
    }
    assert forall|c: (usize, usize)|
        g.contains(c) && !done2.contains(c) && (c == (0usize, 0usize) || parent[flat(
            g.width,
            c,
        )] is Some) implies queued(r, #[trigger] dist_of(g, dist, c), c) by {
        lemma_removed_keeps(h, k, dist_of(g, dist, c), c);
    }
    assert forall|c: (usize, usize)|
        g.contains(c) && c != (0usize, 0usize) && (#[trigger] parent[flat(g.width, c)]) is Some implies {
        let u = parent[flat(g.width, c)]->0;
        &&& done2.contains(u)
        &&& adjacent(u, c)
        &&& dist_of(g, dist, c) == dist_of(g, dist, u) + g.value(c)
        &&& done2.contains(c) ==> order2[u] < order2[c]
        &&& dist_of(g, dist, c) <= 255 * (order2[u] + 1)
    } by {
        let u = parent[flat(g.width, c)]->0;
        assert(done.contains(u));
        assert(u != v);
        assert(order2[u] == order[u]);
        if c != v && done.contains(c) {
            assert(order2[c] == order[c]);
        }
    }
    assert forall|c: (usize, usize)| #[trigger] done2.contains(c) implies g.contains(c)
        && order2.dom().contains(c) && order2[c] < count + 1 && dist_of(g, dist, c) <= 255
        * order2[c] && (c == (0usize, 0usize) || parent[flat(g.width, c)] is Some) by {
        if c != v {
            assert(done.contains(c));
        }
    }
    if count == 0 {
        assert(h == seq![(0u32, 0usize, 0usize)]);
        assert(v == (0usize, 0usize));
    }
}

/// Raising an unvisited neighbour's cost through the visited cell `v`.
proof fn lemma_greedy_relax(
    g: &Grid,
    dist: Seq<u32>,
    parent: Seq<Option<(usize, usize)>>,
    visited: Seq<bool>,
    h: Seq<(u32, usize, usize)>,
    done: Set<(usize, usize)>,
    order: Map<(usize, usize), nat>,
    count: nat,
    v: (usize, usize),
    nb: (usize, usize),
    new_cost: u32,
)
    requires
        g.wf(),
        greedy_inv(g, dist, parent, visited, h, done, order, count),
        done.contains(v),
        g.contains(nb),
        adjacent(v, nb),
        !done.contains(nb),
        new_cost == dist_of(g, dist, v) + g.value(nb),
        new_cost > dist_of(g, dist, nb),
    ensures
        greedy_inv(
            g,
            dist.update(flat(g.width, nb), new_cost),
            parent.update(flat(g.width, nb), Some(v)),
            visited,
            h.push((new_cost, nb.0, nb.1)),
            done,
            order,
            count,
        ),
        forall|u: (usize, usize)|
            #[trigger] done.contains(u) ==> dist_of(g, dist.update(flat(g.width, nb), new_cost), u)
                == dist_of(g, dist, u),
{
    reveal(greedy_inv);
    let i = flat(g.width, nb);
    let dist2 = dist.update(i, new_cost);
    let parent2 = parent.update(i, Some(v));
    let h2 = h.push((new_cost, nb.0, nb.1));
    lemma_flat_in_range(g, nb);
    assert(count > 0);
    assert(nb != (0usize, 0usize));
    assert forall|c: (usize, usize)| g.contains(c) && c != nb implies #[trigger] dist_of(g, dist2, c)
        == dist_of(g, dist, c) && parent2[flat(g.width, c)] == parent[flat(g.width, c)] by {
        lemma_flat_in_range(g, c);
        if flat(g.width, c) == i {
            lemma_flat_injective(g, c, nb);
        }
    }
    assert(dist_of(g, dist2, nb) == new_cost);
    assert(dist_of(g, dist2, v) == dist_of(g, dist, v));
    assert forall|j: int| 0 <= j < h2.len() implies g.contains((#[trigger] h2[j].1, h2[j].2)) && h2[j].0
        <= dist_of(g, dist2, (h2[j].1, h2[j].2)) && ((h2[j].1, h2[j].2) == (0usize, 0usize)
        || parent2[flat(g.width, (h2[j].1, h2[j].2))] is Some) by {
        if j < h.len() {
            assert(h2[j] == h[j]);
            assert(g.contains((h[j].1, h[j].2)));
        }
    }
    assert forall|c: (usize, usize)|
        g.contains(c) && !done.contains(c) && (c == (0usize, 0usize) || parent2[flat(
            g.width,
            c,
        )] is Some) implies queued(h2, #[trigger] dist_of(g, dist2, c), c) by {
        if c == nb {
            assert(h2[h.len() as int] == (new_cost, nb.0, nb.1));
        } else {
            assert(dist_of(g, dist2, c) == dist_of(g, dist, c));
            assert(parent2[flat(g.width, c)] == parent[flat(g.width, c)]);
            assert(queued(h, dist_of(g, dist, c), c));
            let j = choose|j: int|
                0 <= j < h.len() && h[j].0 == dist_of(g, dist, c) && h[j].1 == c.0 && h[j].2 == c.1;
            assert(h2[j] == h[j]);
        }
    }
    assert forall|c: (usize, usize)|
        g.contains(c) && c != (0usize, 0usize) && (#[trigger] parent2[flat(g.width, c)]) is Some implies {
        let u = parent2[flat(g.width, c)]->0;
        &&& done.contains(u)
        &&& adjacent(u, c)
        &&& dist_of(g, dist2, c) == dist_of(g, dist2, u) + g.value(c)
        &&& done.contains(c) ==> order[u] < order[c]
        &&& dist_of(g, dist2, c) <= 255 * (order[u] + 1)
    } by {
        if c != nb {
            assert(dist_of(g, dist2, c) == dist_of(g, dist, c));
            assert(parent2[flat(g.width, c)] == parent[flat(g.width, c)]);
            let u = parent[flat(g.width, c)]->0;
            assert(done.contains(u));
            assert(g.contains(u));
            assert(dist_of(g, dist2, u) == dist_of(g, dist, u));
        }
    }
    assert forall|c: (usize, usize)| #[trigger] done.contains(c) implies g.contains(c)
        && order.dom().contains(c) && order[c] < count && dist_of(g, dist2, c) <= 255 * order[c] && (c
        == (0usize, 0usize) || parent2[flat(g.width, c)] is Some) by {
        assert(dist_of(g, dist2, c) == dist_of(g, dist, c));
    }
    assert forall|c: (usize, usize)| g.contains(c) implies (visited[flat(g.width, c)] <==> #[trigger] done.contains(c)) by {}
    assert(dist_of(g, dist2, (0usize, 0usize)) == 0);
    assert(parent2[flat(g.width, (0usize, 0usize))] is None);
}

/// An expensive walk from the top-left corner to the bottom-right one, found
/// greedily: the queue is scanned for its largest `(cost, x, y)` entry, each
/// cell is visited once, and an unvisited neighbour takes a new parent
/// whenever that raises its cost. The walk is not promised to be the most
/// expensive one, and the search gives up (`None`) when the far corner is
/// never queued, as happens when no step raises a cost.
#[verifier::rlimit(40)]
pub fn dijkstra_max(grid: &Grid) -> (r: Option<PathResult>)
    requires
        grid.wf(),
        grid.width >= 1,
        grid.height >= 1,
        grid.width * grid.height <= MAX_CELLS,
    ensures
        r is Some ==> {
            &&& grid.is_walk(r->Some_0.path@)
            &&& r->Some_0.path@.last() == grid.end()
            &&& r->Some_0.path@.no_duplicates()
            &&& grid.walk_cost(r->Some_0.path@) == r->Some_0.total_cost
        },
{
    let w = grid.width;
    let h = grid.height;
    let n = w * h;
    let mut dist: Vec<u32> = Vec::new();
    let mut parent: Vec<Option<(usize, usize)>> = Vec::new();
    let mut visited: Vec<bool> = Vec::new();
    let mut i: usize = 0;
    while i < n
        invariant
            i <= n,
            dist@.len() == i,
            parent@.len() == i,
            visited@.len() == i,
            forall|k: int| 0 <= k < i ==> #[trigger] dist@[k] == 0,
            forall|k: int| 0 <= k < i ==> #[trigger] parent@[k] is None,
            forall|k: int| 0 <= k < i ==> !#[trigger] visited@[k],
        decreases n - i,
    {
        dist.push(0);
        parent.push(None);
        visited.push(false);
        i = i + 1;
    }
    let mut heap: Vec<(u32, usize, usize)> = Vec::new();
    heap.push((0, 0, 0));
    let ghost mut done: Set<(usize, usize)> = Set::empty();
    let ghost mut order: Map<(usize, usize), nat> = Map::empty();
    let ghost mut count: nat = 0;
    proof {
        assert(heap@ =~= seq![(0u32, 0usize, 0usize)]);
        lemma_greedy_init(grid, dist@, parent@, visited@, heap@);
    }
    loop
        invariant
            w == grid.width,
            h == grid.height,
            n == w * h,
            grid.wf(),
            w >= 1,
            h >= 1,
            n <= MAX_CELLS,
            greedy_inv(grid, dist@, parent@, visited@, heap@, done, order, count),
        decreases n - count, heap@.len(),
    {
        proof {
            lemma_greedy_shape(grid, dist@, parent@, visited@, heap@, done, order, count);
            lemma_count_true_len(visited@);
        }
        if heap.len() == 0 {
            return None;
        }
        let mut k: usize = 0;
        let mut j: usize = 1;
        while j < heap.len()
            invariant
                k < heap@.len(),
                1 <= j <= heap@.len(),
                forall|t: int| 0 <= t < j ==> #[trigger] heap@[t].0 <= heap@[k as int].0,
            decreases heap@.len() - j,
        {
            let a = heap[j];
            let b = heap[k];
            if a.0 > b.0 || (a.0 == b.0 && (a.1 > b.1 || (a.1 == b.1 && a.2 > b.2))) {
                k = j;
            }
            j = j + 1;
        }
        let (cost, x, y) = heap[k];
        let ghost h0 = heap@;
        heap.swap_remove(k);
        assert(heap@ == removed(h0, k as int));
        proof {
            lemma_flat_in_range(grid, (x, y));
        }
        let vi = y * w + x;
        if visited[vi] {
            proof {
                lemma_greedy_skip(grid, dist@, parent@, visited@, h0, done, order, count, k as int);
            }
            continue;
        }
        let ghost v = (x, y);
        proof {
            lemma_greedy_visit(grid, dist@, parent@, visited@, h0, done, order, count, k as int);
            done = done.insert(v);
            order = order.insert(v, count);
            count = count + 1;
        }
        visited[vi] = true;
        if x == w - 1 && y == h - 1 {
            proof {
                lemma_greedy_shape(grid, dist@, parent@, visited@, heap@, done, order, count);
                assert(v == grid.end());
                assert(done.contains(grid.end()));
            }
            let r = reconstruct_path(
                grid,
                &parent,
                &dist,
                Ghost(done),
                Ghost(order),
                Ghost(count),
                Ghost(reached_cells(grid, parent@)),
            );
            return Some(r);
        }
        let nbrs = grid.neighbors(x, y);
        proof {
            lemma_neighbor_cells(grid, v);
            lemma_greedy_shape(grid, dist@, parent@, visited@, heap@, done, order, count);
            lemma_count_true_len(visited@);
        }
        let mut t: usize = 0;
        while t < nbrs.len()
            invariant
                w == grid.width,
                h == grid.height,
                n == w * h,
                grid.wf(),
                n <= MAX_CELLS,
                v == (x, y),
                grid.contains(v),
                t <= nbrs@.len(),
                nbrs@ == neighbor_cells(x, y, w, h),
                forall|i: int|
                    0 <= i < nbrs@.len() ==> grid.contains(#[trigger] nbrs@[i]) && adjacent(
                        v,
                        nbrs@[i],
                    ),
                greedy_inv(grid, dist@, parent@, visited@, heap@, done, order, count),
                done.contains(v),
                dist_of(grid, dist@, v) == cost,
                cost + 255 <= 255 * count,
                count <= n,
            decreases nbrs@.len() - t,
        {
            let (nx, ny) = nbrs[t];
            let ghost nb = (nx, ny);
            proof {
                lemma_flat_in_range(grid, nb);
                lemma_greedy_shape(grid, dist@, parent@, visited@, heap@, done, order, count);
            }
            let ni = ny * w + nx;
            if !visited[ni] {
                let new_cost = cost + grid.get(nx, ny) as u32;
                if new_cost > dist[ni] {
                    proof {
                        lemma_greedy_relax(grid, dist@, parent@, visited@, heap@, done, order, count, v, nb, new_cost);
                    }
                    dist[ni] = new_cost;
                    parent[ni] = Some((x, y));
                    heap.push((new_cost, nx, ny));
                }
            }
            t = t + 1;
        }
    }
}

} // verus!
