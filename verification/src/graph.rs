//! Depth-first search over a graph whose nodes are numbered: cycle detection.
use vstd::prelude::*;

verus! {

/// A graph on nodes `0..adj.len()`; `adj[u]` lists the successors of `u` in order.
pub struct IndexGraph {
    pub adj: Vec<Vec<usize>>,
}

impl IndexGraph {
    /// Every successor is a node.
    pub open spec fn wf(&self) -> bool {
        forall|u: int, q: int|
            0 <= u < self.adj.len() && 0 <= q < self.adj@[u].len() ==> #[trigger] self.adj@[u][q]
                < self.adj.len()
    }

    /// `u` has successor `v`.
    pub open spec fn edge(&self, u: int, v: int) -> bool {
        0 <= u < self.adj.len() && exists|q: int| 0 <= q < self.adj@[u].len() && self.adj@[u][q] == v
    }

    /// Consecutive elements of `p` are joined by edges.
    pub open spec fn is_path(&self, p: Seq<usize>) -> bool {
        &&& p.len() >= 1
        &&& forall|i: int| 0 <= i < p.len() ==> #[trigger] p[i] < self.adj.len()
        &&& forall|i: int| 0 <= i < p.len() - 1 ==> self.edge(#[trigger] p[i] as int, p[i + 1] as int)
    }

    /// A path whose last node leads back to its first.
    pub open spec fn is_cycle(&self, p: Seq<usize>) -> bool {
        self.is_path(p) && self.edge(p.last() as int, p[0] as int)
    }
}

/// Each white node (0) counts two, each gray node (1) one, each black node (2) none.
pub open spec fn potential(c: Seq<u8>) -> int
    decreases c.len(),
{
    if c.len() == 0 {
        0
    } else {
        potential(c.drop_last()) + (2 - c.last())
    }
}

proof fn lemma_potential(c: Seq<u8>, x: int, v: u8)
    requires
        0 <= x < c.len(),
    ensures
        potential(c.update(x, v)) == potential(c) - (2 - c[x]) + (2 - v),
    decreases c.len(),
{
    if x < c.len() - 1 {
        assert(c.update(x, v).drop_last() == c.drop_last().update(x, v));
        lemma_potential(c.drop_last(), x, v);
    } else {
        assert(c.update(x, v).drop_last() == c.drop_last());
    }
}

proof fn lemma_potential_nonneg(c: Seq<u8>)
    requires
        forall|i: int| 0 <= i < c.len() ==> c[i] <= 2,
    ensures
        potential(c) >= 0,
    decreases c.len(),
{
    if c.len() > 0 {
        lemma_potential_nonneg(c.drop_last());
    }
}

/// Along a path whose edges go to strictly smaller ranks, the last rank is
/// at most the first.
proof fn lemma_rank_path(g: &IndexGraph, rank: Seq<int>, p: Seq<usize>)
    requires
        g.is_path(p),
        rank.len() == g.adj.len(),
        forall|u: int, v: int| g.edge(u, v) ==> rank[v] < rank[u],
    ensures
        rank[p.last() as int] <= rank[p[0] as int],
    decreases p.len(),
{
    if p.len() > 1 {
        let p2 = p.drop_last();
        assert(g.is_path(p2)) by {
            assert forall|i: int| 0 <= i < p2.len() - 1 implies g.edge(#[trigger] p2[i] as int, p2[i + 1] as int) by {
                assert(p2[i] == p[i] && p2[i + 1] == p[i + 1]);
            }
        }
        lemma_rank_path(g, rank, p2);
        assert(g.edge(p[p.len() - 2] as int, p[p.len() - 1] as int));
    }
}

/// The colouring and the DFS stack fit together.
#[verifier::opaque]
pub open spec fn stack_ok(g: &IndexGraph, c: Seq<u8>, s: Seq<(usize, usize)>) -> bool {
    let n = g.adj.len();
    &&& forall|k: int| 0 <= k < s.len() ==> (#[trigger] s[k]).0 < n && s[k].1 <= g.adj@[s[k].0 as int].len()
    &&& forall|k1: int, k2: int| 0 <= k1 < s.len() && 0 <= k2 < s.len() && k1 != k2 ==> (#[trigger] s[k1]).0 != (#[trigger] s[k2]).0
    &&& forall|x: int| 0 <= x < n ==> (#[trigger] c[x] == 1 <==> exists|k: int| 0 <= k < s.len() && s[k].0 == x)
    &&& forall|k: int| 0 <= k < s.len() - 1 ==> (#[trigger] s[k]).1 >= 1 && g.adj@[s[k].0 as int][s[k].1 - 1] == s[k + 1].0
    &&& forall|k: int, q: int| 0 <= k < s.len() - 1 && 0 <= q < (#[trigger] s[k]).1 - 1 ==> c[#[trigger] g.adj@[s[k].0 as int][q] as int] == 2
    &&& s.len() > 0 ==> forall|q: int| 0 <= q < s.last().1 ==> c[#[trigger] g.adj@[s.last().0 as int][q] as int] == 2
}

/// Black nodes only lead to black nodes of smaller rank.
#[verifier::opaque]
pub open spec fn black_ok(g: &IndexGraph, c: Seq<u8>, rank: Seq<int>, next_rank: int) -> bool {
    let n = g.adj.len();
    &&& c.len() == n
    &&& rank.len() == n
    &&& forall|x: int| 0 <= x < n ==> #[trigger] c[x] <= 2
    &&& forall|x: int| 0 <= x < n && #[trigger] c[x] == 2 ==> rank[x] < next_rank
    &&& forall|u: int, q: int| 0 <= u < n && c[u] == 2 && 0 <= q < g.adj@[u].len() ==>
        c[#[trigger] g.adj@[u][q] as int] == 2 && rank[g.adj@[u][q] as int] < rank[u]
}

proof fn lemma_stack_top(g: &IndexGraph, c: Seq<u8>, s: Seq<(usize, usize)>)
    requires
        stack_ok(g, c, s),
        s.len() > 0,
        c.len() == g.adj.len(),
    ensures
        s.last().0 < g.adj.len(),
        s.last().1 <= g.adj@[s.last().0 as int].len(),
        c[s.last().0 as int] == 1,
        forall|q: int| 0 <= q < s.last().1 ==> c[#[trigger] g.adj@[s.last().0 as int][q] as int] == 2,
{
    reveal(stack_ok);
    assert(s[s.len() - 1] == s.last());
    assert(exists|k: int| 0 <= k < s.len() && s[k].0 == s.last().0);
}

proof fn lemma_stack_edge(g: &IndexGraph, c: Seq<u8>, s: Seq<(usize, usize)>, k: int)
    requires
        stack_ok(g, c, s),
        0 <= k < s.len() - 1,
    ensures
        g.edge(s[k].0 as int, s[k + 1].0 as int),
{
    reveal(stack_ok);
    assert(s[k].1 >= 1 && g.adj@[s[k].0 as int][s[k].1 - 1] == s[k + 1].0);
}

proof fn lemma_stack_gray_in_stack(g: &IndexGraph, c: Seq<u8>, s: Seq<(usize, usize)>, x: int)
    requires
        stack_ok(g, c, s),
        0 <= x < g.adj.len(),
        c[x] == 1,
    ensures
        exists|k: int| 0 <= k < s.len() && s[k].0 == x,
{
    reveal(stack_ok);
}

proof fn lemma_stack_empty(g: &IndexGraph, c: Seq<u8>, s: Seq<(usize, usize)>)
    requires
        stack_ok(g, c, s),
        s.len() == 0,
    ensures
        forall|x: int| 0 <= x < g.adj.len() ==> #[trigger] c[x] != 1,
{
    reveal(stack_ok);
}

proof fn lemma_stack_start(g: &IndexGraph, c: Seq<u8>, start: usize)
    requires
        start < g.adj.len(),
        c.len() == g.adj.len(),
        forall|x: int| 0 <= x < c.len() ==> #[trigger] c[x] != 1,
    ensures
        stack_ok(g, c.update(start as int, 1), seq![(start, 0usize)]),
{
    reveal(stack_ok);
    let s = seq![(start, 0usize)];
    let c2 = c.update(start as int, 1);
    assert forall|x: int| 0 <= x < g.adj.len() implies (#[trigger] c2[x] == 1 <==> exists|k: int|
        0 <= k < s.len() && s[k].0 == x) by {
        if x == start {
            assert(s[0].0 == x);
        }
    }
}

proof fn lemma_stack_push(
    g: &IndexGraph,
    c: Seq<u8>,
    s: Seq<(usize, usize)>,
    next_idx: int,
    p: usize,
)
    requires
        g.wf(),
        stack_ok(g, c, s),
        s.len() > 0,
        c.len() == g.adj.len(),
        0 <= next_idx < g.adj@[s.last().0 as int].len(),
        g.adj@[s.last().0 as int][next_idx] == p,
        c[p as int] == 0,
        forall|q: int| 0 <= q < next_idx ==> c[#[trigger] g.adj@[s.last().0 as int][q] as int] == 2,
    ensures
        stack_ok(
            g,
            c.update(p as int, 1),
            s.update(s.len() - 1, (s.last().0, (next_idx + 1) as usize)).push((p, 0usize)),
        ),
{
    reveal(stack_ok);
    let top = s.len() - 1;
    let node = s.last().0;
    let c2 = c.update(p as int, 1);
    let s2 = s.update(top, (node, (next_idx + 1) as usize)).push((p, 0usize));
    let n = g.adj.len();
    assert(s[top] == s.last());
    assert(p < n);
    assert forall|k: int| 0 <= k < s2.len() implies (#[trigger] s2[k]).0 < n && s2[k].1 <= g.adj@[s2[k].0 as int].len() by {
        if k < top {
            assert(s2[k] == s[k]);
        }
    }
    assert forall|k1: int, k2: int| 0 <= k1 < s2.len() && 0 <= k2 < s2.len() && k1 != k2 implies (#[trigger] s2[k1]).0
        != (#[trigger] s2[k2]).0 by {
        if k1 < s.len() && k2 < s.len() {
            assert(s2[k1].0 == s[k1].0 && s2[k2].0 == s[k2].0);
        } else if k1 < s.len() {
            assert(s2[k1].0 == s[k1].0);
            assert(exists|k: int| 0 <= k < s.len() && s[k].0 == s[k1].0);
            assert(c[s[k1].0 as int] == 1);
        } else {
            assert(s2[k2].0 == s[k2].0);
            assert(exists|k: int| 0 <= k < s.len() && s[k].0 == s[k2].0);
            assert(c[s[k2].0 as int] == 1);
        }
    }
    assert forall|x: int| 0 <= x < n implies (#[trigger] c2[x] == 1 <==> exists|k: int| 0 <= k < s2.len() && s2[k].0 == x) by {
        if x == p {
            assert(s2[s.len() as int].0 == x);
        } else {
            if c[x] == 1 {
                let k = choose|k: int| 0 <= k < s.len() && s[k].0 == x;
                assert(s2[k].0 == x);
            }
            if exists|k: int| 0 <= k < s2.len() && s2[k].0 == x {
                let k = choose|k: int| 0 <= k < s2.len() && s2[k].0 == x;
                assert(k < s.len());
                assert(s[k].0 == x);
            }
        }
    }
    assert forall|k: int| 0 <= k < s2.len() - 1 implies (#[trigger] s2[k]).1 >= 1 && g.adj@[s2[k].0 as int][s2[k].1 - 1]
        == s2[k + 1].0 by {
        if k < top {
            assert(s2[k] == s[k] && s2[k + 1].0 == s[k + 1].0);
        }
    }
    assert forall|k: int, q: int| 0 <= k < s2.len() - 1 && 0 <= q < (#[trigger] s2[k]).1 - 1 implies c2[
        #[trigger] g.adj@[s2[k].0 as int][q] as int] == 2 by {
        if k < top {
            assert(s2[k] == s[k]);
            assert(c[g.adj@[s[k].0 as int][q] as int] == 2);
        } else {
            assert(c[g.adj@[node as int][q] as int] == 2);
        }
    }
}

proof fn lemma_stack_pop(g: &IndexGraph, c: Seq<u8>, s: Seq<(usize, usize)>)
    requires
        g.wf(),
        stack_ok(g, c, s),
        s.len() > 0,
        c.len() == g.adj.len(),
        forall|q: int| 0 <= q < g.adj@[s.last().0 as int].len() ==> c[#[trigger] g.adj@[s.last().0 as int][q] as int] == 2,
    ensures
        stack_ok(g, c.update(s.last().0 as int, 2), s.drop_last()),
{
    reveal(stack_ok);
    let top = s.len() - 1;
    let node = s.last().0;
    let c2 = c.update(node as int, 2);
    let s2 = s.drop_last();
    let n = g.adj.len();
    assert(s[top] == s.last());
    assert forall|k: int| 0 <= k < s2.len() implies (#[trigger] s2[k]).0 < n && s2[k].1 <= g.adj@[s2[k].0 as int].len() by {
        assert(s2[k] == s[k]);
    }
    assert forall|k1: int, k2: int| 0 <= k1 < s2.len() && 0 <= k2 < s2.len() && k1 != k2 implies (#[trigger] s2[k1]).0
        != (#[trigger] s2[k2]).0 by {
        assert(s2[k1] == s[k1] && s2[k2] == s[k2]);
    }
    assert forall|x: int| 0 <= x < n implies (#[trigger] c2[x] == 1 <==> exists|k: int| 0 <= k < s2.len() && s2[k].0 == x) by {
        if x == node {
            if exists|k: int| 0 <= k < s2.len() && s2[k].0 == x {
                let k = choose|k: int| 0 <= k < s2.len() && s2[k].0 == x;
                assert(s[k].0 == s[top].0);
            }
        } else {
            if c[x] == 1 {
                let k = choose|k: int| 0 <= k < s.len() && s[k].0 == x;
                assert(k != top);
                assert(s2[k].0 == x);
            }
            if exists|k: int| 0 <= k < s2.len() && s2[k].0 == x {
                let k = choose|k: int| 0 <= k < s2.len() && s2[k].0 == x;
                assert(s[k].0 == x);
            }
        }
    }
    assert forall|k: int| 0 <= k < s2.len() - 1 implies (#[trigger] s2[k]).1 >= 1 && g.adj@[s2[k].0 as int][s2[k].1 - 1]
        == s2[k + 1].0 by {
        assert(s2[k] == s[k] && s2[k + 1] == s[k + 1]);
    }
    assert forall|k: int, q: int| 0 <= k < s2.len() - 1 && 0 <= q < (#[trigger] s2[k]).1 - 1 implies c2[
        #[trigger] g.adj@[s2[k].0 as int][q] as int] == 2 by {
        assert(s2[k] == s[k]);
        assert(c[g.adj@[s[k].0 as int][q] as int] == 2);
    }
    if s2.len() > 0 {
        let k = s2.len() - 1;
        assert(s2.last() == s[k]);
        assert forall|q: int| 0 <= q < s2.last().1 implies c2[#[trigger] g.adj@[s2.last().0 as int][q] as int] == 2 by {
            if q < s[k].1 - 1 {
                assert(c[g.adj@[s[k].0 as int][q] as int] == 2);
            } else {
                assert(g.adj@[s[k].0 as int][s[k].1 - 1] == s[k + 1].0);
                assert(s[k + 1] == s.last());
            }
        }
    }
}

proof fn lemma_black_gray(g: &IndexGraph, c: Seq<u8>, rank: Seq<int>, next_rank: int, x: int)
    requires
        g.wf(),
        black_ok(g, c, rank, next_rank),
        0 <= x < c.len(),
        c[x] == 0,
    ensures
        black_ok(g, c.update(x, 1), rank, next_rank),
{
    reveal(black_ok);
    let c2 = c.update(x, 1);
    assert forall|u: int, q: int| 0 <= u < g.adj.len() && c2[u] == 2 && 0 <= q < g.adj@[u].len() implies c2[
        #[trigger] g.adj@[u][q] as int] == 2 && rank[g.adj@[u][q] as int] < rank[u] by {
        assert(c[u] == 2);
        assert(c[g.adj@[u][q] as int] == 2);
    }
}

proof fn lemma_black_finish(g: &IndexGraph, c: Seq<u8>, rank: Seq<int>, next_rank: int, x: int)
    requires
        g.wf(),
        black_ok(g, c, rank, next_rank),
        0 <= x < c.len(),
        c[x] == 1,
        forall|q: int| 0 <= q < g.adj@[x].len() ==> c[#[trigger] g.adj@[x][q] as int] == 2,
    ensures
        black_ok(g, c.update(x, 2), rank.update(x, next_rank), next_rank + 1),
{
    reveal(black_ok);
    let c2 = c.update(x, 2);
    let r2 = rank.update(x, next_rank);
    assert forall|y: int| 0 <= y < g.adj.len() && #[trigger] c2[y] == 2 implies r2[y] < next_rank + 1 by {
        if y != x {
            assert(c[y] == 2);
        }
    }
    assert forall|u: int, q: int| 0 <= u < g.adj.len() && c2[u] == 2 && 0 <= q < g.adj@[u].len() implies c2[
        #[trigger] g.adj@[u][q] as int] == 2 && r2[g.adj@[u][q] as int] < r2[u] by {
        let v = g.adj@[u][q] as int;
        if u == x {
            assert(c[v] == 2);
            assert(v != x);
        } else {
            assert(c[u] == 2);
            assert(c[v] == 2);
            assert(v != x);
        }
    }
}

proof fn lemma_black_all(g: &IndexGraph, c: Seq<u8>, rank: Seq<int>, next_rank: int)
    requires
        black_ok(g, c, rank, next_rank),
        forall|x: int| 0 <= x < g.adj.len() ==> #[trigger] c[x] != 1,
        forall|x: int| 0 <= x < g.adj.len() ==> #[trigger] c[x] != 0,
    ensures
        !exists|p: Seq<usize>| g.is_cycle(p),
{
    reveal(black_ok);
    assert forall|u: int, v: int| g.edge(u, v) implies rank[v] < rank[u] by {
        let q = choose|q: int| 0 <= q < g.adj@[u].len() && g.adj@[u][q] == v;
        assert(c[u] != 0 && c[u] != 1 && c[u] <= 2);
        assert(c[g.adj@[u][q] as int] == 2);
    }
    if exists|p: Seq<usize>| g.is_cycle(p) {
        let p = choose|p: Seq<usize>| g.is_cycle(p);
        lemma_rank_path(g, rank, p);
    }
}

proof fn lemma_black_init(g: &IndexGraph, c: Seq<u8>, rank: Seq<int>)
    requires
        c.len() == g.adj.len(),
        rank.len() == g.adj.len(),
        forall|x: int| 0 <= x < c.len() ==> c[x] == 0,
    ensures
        black_ok(g, c, rank, 0),
{
    reveal(black_ok);
}

proof fn lemma_black_colors(g: &IndexGraph, c: Seq<u8>, rank: Seq<int>, next_rank: int)
    requires
        black_ok(g, c, rank, next_rank),
    ensures
        c.len() == g.adj.len(),
        rank.len() == g.adj.len(),
        forall|x: int| 0 <= x < c.len() ==> #[trigger] c[x] <= 2,
{
    reveal(black_ok);
}

/// A sequence of distinct numbers below `n` has at most `n` elements.
pub proof fn lemma_distinct_bounded(r: Seq<usize>, n: int)
    requires
        0 <= n,
        r.no_duplicates(),
        forall|i: int| 0 <= i < r.len() ==> #[trigger] r[i] < n,
    ensures
        r.len() <= n,
{
    let t = r.map_values(|x: usize| x as int);
    assert(t.no_duplicates()) by {
        assert forall|i: int, j: int| 0 <= i < t.len() && 0 <= j < t.len() && i != j implies t[i] != t[j] by {
            assert(r[i] != r[j]);
        }
    }
    t.unique_seq_to_set();
    vstd::set_lib::lemma_int_range(0, n);
    assert(t.to_set().subset_of(vstd::set_lib::set_int_range(0, n))) by {
        assert forall|x: int| t.to_set().contains(x) implies vstd::set_lib::set_int_range(0, n).contains(x) by {
            let i = choose|i: int| 0 <= i < t.len() && t[i] == x;
            assert(r[i] < n);
        }
    }
    vstd::set_lib::lemma_len_subset(t.to_set(), vstd::set_lib::set_int_range(0, n));
}

impl IndexGraph {
    /// The nodes of the stack from position `lo` to the top.
    pub open spec fn stack_nodes(s: Seq<(usize, usize)>, lo: int) -> Seq<usize> {
        Seq::new((s.len() - lo) as nat, |i: int| s[lo + i].0)
    }

    proof fn lemma_stack_path(&self, c: Seq<u8>, s: Seq<(usize, usize)>, lo: int)
        requires
            stack_ok(self, c, s),
            0 <= lo < s.len(),
        ensures
            self.is_path(Self::stack_nodes(s, lo)),
    {
        reveal(stack_ok);
        let w = Self::stack_nodes(s, lo);
        assert forall|i: int| 0 <= i < w.len() - 1 implies self.edge(#[trigger] w[i] as int, w[i + 1] as int) by {
            let k = lo + i;
            assert(s[k].1 >= 1 && self.adj@[s[k].0 as int][s[k].1 - 1] == s[k + 1].0);
        }
        assert forall|i: int| 0 <= i < w.len() implies #[trigger] w[i] < self.adj.len() by {
            assert(s[lo + i].0 < self.adj.len());
        }
    }

    proof fn lemma_path_push(&self, c: Seq<u8>, s: Seq<(usize, usize)>, lo: int, p: usize)
        requires
            stack_ok(self, c, s),
            0 <= lo < s.len(),
            p < self.adj.len(),
            self.edge(s.last().0 as int, p as int),
        ensures
            self.is_path(Self::stack_nodes(s, lo).push(p)),
    {
        let w = Self::stack_nodes(s, lo);
        let r = w.push(p);
        self.lemma_stack_path(c, s, lo);
        assert(w.last() == s.last().0);
        assert forall|i: int| 0 <= i < r.len() - 1 implies self.edge(#[trigger] r[i] as int, r[i + 1] as int) by {
            if i < r.len() - 2 {
                assert(w[i] == r[i] && w[i + 1] == r[i + 1]);
            } else {
                assert(r[i] == w.last());
            }
        }
        assert forall|i: int| 0 <= i < r.len() implies #[trigger] r[i] < self.adj.len() by {
            if i < r.len() - 1 {
                assert(w[i] == r[i]);
            }
        }
    }

    proof fn lemma_cycle_exists(&self, c: Seq<u8>, s: Seq<(usize, usize)>, p: usize)
        requires
            stack_ok(self, c, s),
            s.len() > 0,
            p < self.adj.len(),
            c[p as int] == 1,
            self.edge(s.last().0 as int, p as int),
        ensures
            exists|w: Seq<usize>| self.is_cycle(w),
    {
        lemma_stack_gray_in_stack(self, c, s, p as int);
        let x = choose|x: int| 0 <= x < s.len() && s[x].0 == p;
        let wc = Self::stack_nodes(s, x);
        self.lemma_stack_path(c, s, x);
        assert(wc[0] == p);
        assert(wc.last() == s.last().0);
        assert(self.is_cycle(wc));
    }

    proof fn lemma_cycle_close(&self, c: Seq<u8>, s: Seq<(usize, usize)>, lo: int, p: usize)
        requires
            stack_ok(self, c, s),
            0 <= lo < s.len(),
            p < self.adj.len(),
            c[p as int] == 1,
            s.last().0 != p,
            forall|k: int| lo <= k < s.len() - 1 ==> (#[trigger] s[k]).0 != p,
            lo == 0 || s[lo - 1].0 == p,
        ensures
            lo > 0,
            self.edge(p as int, s[lo].0 as int),
    {
        lemma_stack_gray_in_stack(self, c, s, p as int);
        let x = choose|x: int| 0 <= x < s.len() && s[x].0 == p;
        if lo == 0 {
            assert(s[s.len() - 1] == s.last());
            assert(x != s.len() - 1);
            assert(s[x].0 == p);
            assert(false);
        }
        lemma_stack_edge(self, c, s, lo - 1);
    }

    proof fn lemma_cycle_result(&self, c: Seq<u8>, s: Seq<(usize, usize)>, lo: int, p: usize)
        requires
            self.wf(),
            stack_ok(self, c, s),
            0 <= lo < s.len(),
            s.len() - 1 - lo <= 100,
            p < self.adj.len(),
            c[p as int] == 1,
            self.edge(s.last().0 as int, p as int),
            forall|k: int| lo <= k < s.len() - 1 ==> (#[trigger] s[k]).0 != p,
            s.len() - 1 - lo == 100 || lo == 0 || s[lo - 1].0 == p,
        ensures
            ({
                let r = Self::stack_nodes(s, lo).push(p);
                &&& self.is_path(r)
                &&& 2 <= r.len() <= 102
                &&& (r.len() < 102 && r[r.len() - 2] != r[r.len() - 1]) ==> self.is_cycle(r)
                &&& r[r.len() - 2] != r[r.len() - 1] ==> r.no_duplicates() && r.len() <= self.adj.len()
                &&& r.len() <= self.adj.len() + 1
            }),
            exists|w: Seq<usize>| self.is_cycle(w),
    {
        let w = Self::stack_nodes(s, lo);
        let r = w.push(p);
        self.lemma_path_push(c, s, lo, p);
        assert(w.no_duplicates()) by {
            reveal(stack_ok);
            assert forall|i: int, j: int| 0 <= i < w.len() && 0 <= j < w.len() && i != j implies w[i] != w[j] by {
                assert(s[lo + i].0 != s[lo + j].0);
            }
        }
        assert forall|i: int| 0 <= i < w.len() implies #[trigger] w[i] < self.adj.len() by {
            reveal(stack_ok);
            assert(s[lo + i].0 < self.adj.len());
        }
        lemma_distinct_bounded(w, self.adj.len() as int);
        if r[r.len() - 2] != r[r.len() - 1] {
            assert(w.last() == s.last().0);
            assert forall|i: int, j: int| 0 <= i < r.len() && 0 <= j < r.len() && i != j implies r[i] != r[j] by {
                if i < w.len() && j < w.len() {
                    assert(r[i] == w[i] && r[j] == w[j]);
                } else if i < w.len() {
                    assert(r[i] == w[i] && w[i] == s[lo + i].0);
                    if lo + i < s.len() - 1 {
                        assert(s[lo + i].0 != p);
                    }
                } else {
                    assert(r[j] == w[j] && w[j] == s[lo + j].0);
                    if lo + j < s.len() - 1 {
                        assert(s[lo + j].0 != p);
                    }
                }
            }
            assert forall|i: int| 0 <= i < r.len() implies #[trigger] r[i] < self.adj.len() by {
                if i < w.len() {
                    assert(r[i] == w[i]);
                }
            }
            lemma_distinct_bounded(r, self.adj.len() as int);
        }
        self.lemma_cycle_exists(c, s, p);
        if r.len() < 102 && r[r.len() - 2] != r[r.len() - 1] {
            assert(r[r.len() - 2] == w.last());
            assert(w.last() == s.last().0);
            self.lemma_cycle_close(c, s, lo, p);
            assert(r[0] == s[lo].0);
            assert(r.last() == p);
        }
    }

    /// The path from (at most 100 steps above) `p` down the stack to its top,
    /// followed by `p`, where the top of the stack has the edge to `p`.
    fn cycle_from_stack(&self, stack: &Vec<(usize, usize)>, p: usize, Ghost(c): Ghost<Seq<u8>>) -> (r: Vec<usize>)
        requires
            self.wf(),
            stack.len() > 0,
            stack_ok(self, c, stack@),
            p < self.adj.len(),
            c[p as int] == 1,
            self.edge(stack@.last().0 as int, p as int),
        ensures
            self.is_path(r@),
            2 <= r@.len() <= 102,
            (r@.len() < 102 && r@[r@.len() - 2] != r@[r@.len() - 1]) ==> self.is_cycle(r@),
            r@[r@.len() - 2] != r@[r@.len() - 1] ==> r@.no_duplicates() && r@.len() <= self.adj.len(),
            r@.len() <= self.adj.len() + 1,
            exists|w: Seq<usize>| self.is_cycle(w),
    {
        let top = stack.len() - 1;
        let mut lo = top;
        while top - lo < 100 && lo > 0 && stack[lo - 1].0 != p
            invariant
                lo <= top == stack.len() - 1,
                top - lo <= 100,
                forall|k: int| lo <= k < top ==> (#[trigger] stack@[k]).0 != p,
            decreases lo,
        {
            lo = lo - 1;
        }
        let mut r: Vec<usize> = Vec::new();
        let mut k = lo;
        while k <= top
            invariant
                lo <= k <= top + 1,
                top == stack.len() - 1,
                r@ == Self::stack_nodes(stack@, lo as int).take(k - lo),
            decreases top + 1 - k,
        {
            r.push(stack[k].0);
            assert(Self::stack_nodes(stack@, lo as int).take(k + 1 - lo) == Self::stack_nodes(stack@, lo as int).take(k - lo).push(stack@[k as int].0));
            k = k + 1;
        }
        assert(r@ == Self::stack_nodes(stack@, lo as int));
        r.push(p);
        proof {
            self.lemma_cycle_result(c, stack@, lo as int, p);
        }
        r
    }

    /// Searches the graph depth-first, starting from each node in turn, and
    /// reports the first edge found that leads back to a node still being
    /// explored, as the path from (at most 100 steps above) that node to it.
    pub fn find_cycle(&self) -> (r: Option<Vec<usize>>)
        requires
            self.wf(),
        ensures
            r is None <==> !exists|p: Seq<usize>| self.is_cycle(p),
            r matches Some(p) ==> {
                &&& self.is_path(p@)
                &&& 2 <= p@.len() <= 102
                &&& (p@.len() < 102 && p@[p@.len() - 2] != p@[p@.len() - 1]) ==> self.is_cycle(p@)
                &&& p@[p@.len() - 2] != p@[p@.len() - 1] ==> p@.no_duplicates() && p@.len() <= self.adj.len()
                &&& p@.len() <= self.adj.len() + 1
            },
    {
        let n = self.adj.len();
        let mut color: Vec<u8> = Vec::new();
        let mut i: usize = 0;
        while i < n
            invariant
                i <= n == self.adj.len(),
                color@.len() == i,
                forall|x: int| 0 <= x < i ==> color@[x] == 0,
            decreases n - i,
        {
            color.push(0);
            i = i + 1;
        }
        let ghost mut rank: Seq<int> = Seq::new(n as nat, |x: int| 0);
        let ghost mut next_rank: int = 0;
        proof {
            lemma_black_init(self, color@, rank);
        }
        let mut start: usize = 0;
        while start < n
            invariant
                start <= n == self.adj.len(),
                self.wf(),
                black_ok(self, color@, rank, next_rank),
                forall|x: int| 0 <= x < n ==> #[trigger] color@[x] != 1,
                forall|x: int| 0 <= x < start ==> #[trigger] color@[x] != 0,
            decreases n - start,
        {
            proof {
                lemma_black_colors(self, color@, rank, next_rank);
            }
            if color[start] == 0 {
                let mut stack: Vec<(usize, usize)> = Vec::new();
                stack.push((start, 0));
                proof {
                    lemma_stack_start(self, color@, start);
                    lemma_black_gray(self, color@, rank, next_rank, start as int);
                    assert(stack@ == seq![(start, 0usize)]);
                }
                color.set(start, 1);
                while stack.len() > 0
                    invariant
                        start < n == self.adj.len(),
                        self.wf(),
                        black_ok(self, color@, rank, next_rank),
                        stack_ok(self, color@, stack@),
                        color@[start as int] != 0,
                        forall|x: int| 0 <= x < start ==> #[trigger] color@[x] != 0,
                    decreases potential(color@),
                {
                    proof {
                        lemma_black_colors(self, color@, rank, next_rank);
                        lemma_potential_nonneg(color@);
                        lemma_stack_top(self, color@, stack@);
                    }
                    let top = stack.len() - 1;
                    let node = stack[top].0;
                    let idx = stack[top].1;
                    assert(stack@.last() == stack@[top as int]);
                    let ghost pot = potential(color@);
                    let mut next_idx = idx;
                    let mut pushed = false;
                    while next_idx < self.adj[node].len()
                        invariant_except_break
                            n == self.adj.len(),
                            self.wf(),
                            top == stack.len() - 1,
                            node == stack@.last().0,
                            node < n,
                            idx <= next_idx <= self.adj@[node as int].len(),
                            black_ok(self, color@, rank, next_rank),
                            stack_ok(self, color@, stack@),
                            potential(color@) == pot,
                            color@[start as int] != 0,
                            forall|x: int| 0 <= x < start ==> #[trigger] color@[x] != 0,
                            !pushed,
                            forall|q: int| 0 <= q < next_idx ==> color@[#[trigger] self.adj@[node as int][q] as int] == 2,
                        ensures
                            black_ok(self, color@, rank, next_rank),
                            stack_ok(self, color@, stack@),
                            color@[start as int] != 0,
                            forall|x: int| 0 <= x < start ==> #[trigger] color@[x] != 0,
                            pushed ==> potential(color@) < pot,
                            !pushed ==> next_idx == self.adj@[node as int].len() && potential(color@) == pot
                                && top == stack.len() - 1 && node == stack@.last().0
                                && forall|q: int| 0 <= q < next_idx ==> color@[#[trigger] self.adj@[node as int][q] as int] == 2,
                        decreases self.adj@[node as int].len() - next_idx,
                    {
                        let p = self.adj[node][next_idx];
                        proof {
                            lemma_black_colors(self, color@, rank, next_rank);
                        }
                        let pc = color[p];
                        if pc == 0 {
                            proof {
                                lemma_stack_push(self, color@, stack@, next_idx as int, p);
                                lemma_black_gray(self, color@, rank, next_rank, p as int);
                                lemma_potential(color@, p as int, 1);
                            }
                            stack.set(top, (node, next_idx + 1));
                            stack.push((p, 0));
                            color.set(p, 1);
                            pushed = true;
                            break;
                        } else if pc == 1 {
                            assert(self.edge(stack@.last().0 as int, p as int));
                            return Some(self.cycle_from_stack(&stack, p, Ghost(color@)));
                        }
                        next_idx = next_idx + 1;
                    }
                    if !pushed {
                        proof {
                            lemma_black_colors(self, color@, rank, next_rank);
                            lemma_stack_top(self, color@, stack@);
                            lemma_stack_pop(self, color@, stack@);
                            lemma_black_finish(self, color@, rank, next_rank, node as int);
                            lemma_potential(color@, node as int, 2);
                            rank = rank.update(node as int, next_rank);
                            next_rank = next_rank + 1;
                        }
                        color.set(node, 2);
                        stack.pop();
                    }
                    assert(potential(color@) < pot);
                    proof {
                        lemma_black_colors(self, color@, rank, next_rank);
                        lemma_potential_nonneg(color@);
                    }
                }
                proof {
                    lemma_stack_empty(self, color@, stack@);
                }
            }
            start = start + 1;
        }
        proof {
            lemma_black_all(self, color@, rank, next_rank);
        }
        None
    }
}

} // verus!
