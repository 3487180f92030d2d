//! Build order: the targets that a target needs, each after its prerequisites.
use vstd::prelude::*;
use crate::dag::{edge, has_cycle, is_cycle, is_path, Dag, DagNode, DagView, NodeView};

verus! {

broadcast use vstd::string::group_string_axioms;

/// How many targets are not yet in `visited`.
pub open spec fn unvisited(g: Map<Seq<char>, NodeView>, visited: Set<Seq<char>>) -> nat {
    g.dom().difference(visited).len()
}

/// Visiting a new target leaves one fewer to visit.
pub proof fn lemma_unvisited_insert(g: Map<Seq<char>, NodeView>, visited: Set<Seq<char>>, name: Seq<char>)
    requires
        g.dom().finite(),
        g.contains_key(name),
        !visited.contains(name),
    ensures
        unvisited(g, visited.insert(name)) < unvisited(g, visited),
{
    vstd::set_lib::lemma_len_difference(g.dom(), visited);
    assert(g.dom().difference(visited.insert(name)) =~= g.dom().difference(visited).remove(name));
    vstd::set::axiom_set_remove_len(g.dom().difference(visited), name);
}

/// Visiting more targets never leaves more to visit.
pub proof fn lemma_unvisited_subset(g: Map<Seq<char>, NodeView>, v1: Set<Seq<char>>, v2: Set<Seq<char>>)
    requires
        g.dom().finite(),
        v1.subset_of(v2),
    ensures
        unvisited(g, v2) <= unvisited(g, v1),
{
    vstd::set_lib::lemma_len_difference(g.dom(), v1);
    vstd::set_lib::lemma_len_subset(g.dom().difference(v2), g.dom().difference(v1));
}

/// Depth-first search from `name`: the targets visited afterwards, and the
/// newly reached names, each listed after the names it depends on.
pub open spec fn dfs_post(g: Map<Seq<char>, NodeView>, name: Seq<char>, visited: Set<Seq<char>>) -> (
    Set<Seq<char>>,
    Seq<Seq<char>>,
)
    decreases unvisited(g, visited), 0int,
    when g.dom().finite()
{
    if visited.contains(name) {
        (visited, seq![])
    } else if g.contains_key(name) {
        let v1 = visited.insert(name);
        proof {
            lemma_unvisited_insert(g, visited, name);
        }
        let r = dfs_list(g, g[name].prereqs, 0, v1);
        (r.0, r.1.push(name))
    } else {
        (visited.insert(name), seq![name])
    }
}

/// Depth-first search from `names[i]`, `names[i + 1]`, ... in turn.
pub open spec fn dfs_list(g: Map<Seq<char>, NodeView>, names: Seq<Seq<char>>, i: int, visited: Set<Seq<char>>) -> (
    Set<Seq<char>>,
    Seq<Seq<char>>,
)
    decreases unvisited(g, visited), names.len() + 1 - i,
    when g.dom().finite()
{
    if i < 0 || i >= names.len() {
        (visited, seq![])
    } else {
        let r1 = dfs_post(g, names[i], visited);
        let v2 = visited.union(r1.0);
        proof {
            lemma_unvisited_subset(g, visited, v2);
        }
        let r2 = dfs_list(g, names, i + 1, v2);
        (r2.0, r1.1 + r2.1)
    }
}

/// The search only ever adds to the visited set.
pub proof fn lemma_dfs_monotone(g: Map<Seq<char>, NodeView>, name: Seq<char>, visited: Set<Seq<char>>)
    requires
        g.dom().finite(),
    ensures
        visited.subset_of(dfs_post(g, name, visited).0),
    decreases unvisited(g, visited), 0int,
{
    if !visited.contains(name) && g.contains_key(name) {
        let v1 = visited.insert(name);
        lemma_unvisited_insert(g, visited, name);
        lemma_dfs_list_monotone(g, g[name].prereqs, 0, v1);
    }
}

/// The search over a list only ever adds to the visited set.
pub proof fn lemma_dfs_list_monotone(
    g: Map<Seq<char>, NodeView>,
    names: Seq<Seq<char>>,
    i: int,
    visited: Set<Seq<char>>,
)
    requires
        g.dom().finite(),
    ensures
        visited.subset_of(dfs_list(g, names, i, visited).0),
    decreases unvisited(g, visited), names.len() + 1 - i,
{
    if 0 <= i < names.len() {
        let r1 = dfs_post(g, names[i], visited);
        let v2 = visited.union(r1.0);
        lemma_unvisited_subset(g, visited, v2);
        lemma_dfs_list_monotone(g, names, i + 1, v2);
    }
}

/// Every name reached from a target of a closed graph is a target.
pub proof fn lemma_dfs_in_dom(v: DagView, name: Seq<char>, visited: Set<Seq<char>>)
    requires
        v.is_closed(),
        v.nodes.contains_key(name),
    ensures
        forall|j: int| 0 <= j < dfs_post(v.nodes, name, visited).1.len() ==> v.nodes.contains_key(
            #[trigger] dfs_post(v.nodes, name, visited).1[j],
        ),
    decreases unvisited(v.nodes, visited), 0int,
{
    let g = v.nodes;
    if !visited.contains(name) {
        let v1 = visited.insert(name);
        lemma_unvisited_insert(g, visited, name);
        lemma_dfs_list_in_dom(v, g[name].prereqs, 0, v1);
        let r = dfs_list(g, g[name].prereqs, 0, v1);
        assert forall|j: int| 0 <= j < r.1.push(name).len() implies v.nodes.contains_key(#[trigger] r.1.push(name)[j]) by {
            if j < r.1.len() {
                assert(r.1.push(name)[j] == r.1[j]);
            }
        }
    }
}

/// Every name reached from targets of a closed graph is a target.
pub proof fn lemma_dfs_list_in_dom(v: DagView, names: Seq<Seq<char>>, i: int, visited: Set<Seq<char>>)
    requires
        v.is_closed(),
        forall|j: int| 0 <= j < names.len() ==> v.nodes.contains_key(#[trigger] names[j]),
    ensures
        forall|j: int| 0 <= j < dfs_list(v.nodes, names, i, visited).1.len() ==> v.nodes.contains_key(
            #[trigger] dfs_list(v.nodes, names, i, visited).1[j],
        ),
    decreases unvisited(v.nodes, visited), names.len() + 1 - i,
{
    let g = v.nodes;
    if 0 <= i < names.len() {
        let r1 = dfs_post(g, names[i], visited);
        let v2 = visited.union(r1.0);
        lemma_unvisited_subset(g, visited, v2);
        lemma_dfs_in_dom(v, names[i], visited);
        lemma_dfs_list_in_dom(v, names, i + 1, v2);
        let r2 = dfs_list(g, names, i + 1, v2);
        assert forall|j: int| 0 <= j < (r1.1 + r2.1).len() implies v.nodes.contains_key(#[trigger] (r1.1 + r2.1)[j]) by {
            if j < r1.1.len() {
                assert((r1.1 + r2.1)[j] == r1.1[j]);
            } else {
                assert((r1.1 + r2.1)[j] == r2.1[j - r1.1.len()]);
            }
        }
    }
}

/// The targets to build for `target`, in build order: each after the
/// targets it depends on, each once; nothing when `target` is not a target.
pub open spec fn spec_order(v: DagView, target: Seq<char>) -> Seq<NodeView> {
    if v.nodes.contains_key(target) {
        dfs_post(v.nodes, target, Set::empty()).1.map_values(|n: Seq<char>| v.nodes[n])
    } else {
        seq![]
    }
}

/// There is a chain of one or more prerequisite steps from `a` to `b`.
pub open spec fn reaches_plus(g: Map<Seq<char>, NodeView>, a: Seq<char>, b: Seq<char>) -> bool {
    exists|p: Seq<Seq<char>>| is_path(g, p) && p.len() >= 2 && p[0] == a && p.last() == b
}

/// Every target in `d` has all its prerequisites in `d`.
pub open spec fn closed_set(g: Map<Seq<char>, NodeView>, d: Set<Seq<char>>) -> bool {
    forall|x: Seq<char>| #[trigger] d.contains(x) ==> g.contains_key(x) && forall|k: int|
        0 <= k < g[x].prereqs.len() ==> d.contains(#[trigger] g[x].prereqs[k])
}

/// Each prerequisite of each element of `out` is in `d` or comes earlier in `out`.
pub open spec fn ordered_after(g: Map<Seq<char>, NodeView>, d: Set<Seq<char>>, out: Seq<Seq<char>>) -> bool {
    forall|i: int, k: int|
        0 <= i < out.len() && 0 <= k < g[out[i]].prereqs.len() ==> d.contains(#[trigger] g[out[i]].prereqs[k])
            || exists|j: int| 0 <= j < i && out[j] == g[out[i]].prereqs[k]
}

proof fn lemma_edge_reaches(g: Map<Seq<char>, NodeView>, a: Seq<char>, k: int)
    requires
        g.contains_key(a),
        0 <= k < g[a].prereqs.len(),
        g.contains_key(g[a].prereqs[k]),
    ensures
        reaches_plus(g, a, g[a].prereqs[k]),
{
    let b = g[a].prereqs[k];
    let p = seq![a, b];
    assert(g[a].prereqs[k] == b);
    assert(g[a].prereqs.contains(b));
    assert(is_path(g, p));
    assert(p[0] == a && p.last() == b && p.len() >= 2);
}

proof fn lemma_reaches_extend(g: Map<Seq<char>, NodeView>, s: Seq<char>, a: Seq<char>, k: int)
    requires
        reaches_plus(g, s, a),
        g.contains_key(a),
        0 <= k < g[a].prereqs.len(),
        g.contains_key(g[a].prereqs[k]),
    ensures
        reaches_plus(g, s, g[a].prereqs[k]),
{
    let b = g[a].prereqs[k];
    let p = choose|p: Seq<Seq<char>>| is_path(g, p) && p.len() >= 2 && p[0] == s && p.last() == a;
    let q = p.push(b);
    assert(g[a].prereqs.contains(b));
    assert forall|i: int| 0 <= i < q.len() - 1 implies edge(g, #[trigger] q[i], q[i + 1]) by {
        if i < p.len() - 1 {
            assert(q[i] == p[i] && q[i + 1] == p[i + 1]);
        } else {
            assert(q[i] == a);
        }
    }
    assert forall|i: int| 0 <= i < q.len() implies g.contains_key(#[trigger] q[i]) by {
        if i < p.len() {
            assert(q[i] == p[i]);
        }
    }
    assert(is_path(g, q));
    assert(q[0] == s && q.last() == b && q.len() >= 2);
}

/// `b` is `a` or reached from `a` by a chain of prerequisites.
pub open spec fn reaches_star(g: Map<Seq<char>, NodeView>, a: Seq<char>, b: Seq<char>) -> bool {
    a == b || reaches_plus(g, a, b)
}

/// No target reached from `root` depends on itself.
pub open spec fn acyclic_from(g: Map<Seq<char>, NodeView>, root: Seq<char>) -> bool {
    forall|x: Seq<char>| #[trigger] reaches_star(g, root, x) ==> !reaches_plus(g, x, x)
}

/// A graph without cycles has none reached from any target.
pub proof fn lemma_acyclic_from(g: Map<Seq<char>, NodeView>, root: Seq<char>)
    requires
        !has_cycle(g),
    ensures
        acyclic_from(g, root),
{
    assert forall|x: Seq<char>| #[trigger] reaches_star(g, root, x) implies !reaches_plus(g, x, x) by {
        if reaches_plus(g, x, x) {
            lemma_reaches_self_cycle(g, x);
        }
    }
}

proof fn lemma_star_extend(g: Map<Seq<char>, NodeView>, s: Seq<char>, a: Seq<char>, k: int)
    requires
        reaches_star(g, s, a),
        g.contains_key(a),
        0 <= k < g[a].prereqs.len(),
        g.contains_key(g[a].prereqs[k]),
    ensures
        reaches_star(g, s, g[a].prereqs[k]),
{
    if s == a {
        lemma_edge_reaches(g, a, k);
    } else {
        lemma_reaches_extend(g, s, a, k);
    }
}

proof fn lemma_reaches_self_cycle(g: Map<Seq<char>, NodeView>, x: Seq<char>)
    requires
        reaches_plus(g, x, x),
    ensures
        has_cycle(g),
{
    let p = choose|p: Seq<Seq<char>>| is_path(g, p) && p.len() >= 2 && p[0] == x && p.last() == x;
    let c = p.drop_last();
    assert forall|i: int| 0 <= i < c.len() - 1 implies edge(g, #[trigger] c[i], c[i + 1]) by {
        assert(c[i] == p[i] && c[i + 1] == p[i + 1]);
    }
    assert forall|i: int| 0 <= i < c.len() implies g.contains_key(#[trigger] c[i]) by {
        assert(c[i] == p[i]);
    }
    assert(edge(g, p[p.len() - 2], p[p.len() - 1]));
    assert(is_cycle(g, c));
}

/// What one depth-first search keeps true in a graph without cycles, where
/// `done` holds the targets already listed and the rest of `visited` those
/// still being explored.
pub open spec fn search_ok(
    g: Map<Seq<char>, NodeView>,
    visited: Set<Seq<char>>,
    done: Set<Seq<char>>,
    r: (Set<Seq<char>>, Seq<Seq<char>>),
) -> bool {
    &&& r.0 == visited.union(r.1.to_set())
    &&& r.1.no_duplicates()
    &&& forall|i: int| 0 <= i < r.1.len() ==> !visited.contains(#[trigger] r.1[i])
    &&& forall|i: int| 0 <= i < r.1.len() ==> g.contains_key(#[trigger] r.1[i])
    &&& closed_set(g, done.union(r.1.to_set()))
    &&& ordered_after(g, done, r.1)
}

/// In a graph without cycles, the search from `name` lists new targets only,
/// each once and after its prerequisites, and leaves `name` listed.
pub proof fn lemma_dfs_ordered(
    v: DagView,
    root: Seq<char>,
    name: Seq<char>,
    visited: Set<Seq<char>>,
    done: Set<Seq<char>>,
)
    requires
        v.is_closed(),
        acyclic_from(v.nodes, root),
        reaches_star(v.nodes, root, name),
        v.nodes.contains_key(name),
        done.subset_of(visited),
        closed_set(v.nodes, done),
        forall|s: Seq<char>| #[trigger] visited.contains(s) && !done.contains(s) ==> reaches_plus(v.nodes, s, name),
    ensures
        search_ok(v.nodes, visited, done, dfs_post(v.nodes, name, visited)),
        done.union(dfs_post(v.nodes, name, visited).1.to_set()).contains(name),
    decreases unvisited(v.nodes, visited), 0int,
{
    let g = v.nodes;
    let r = dfs_post(g, name, visited);
    if visited.contains(name) {
        if !done.contains(name) {
            assert(reaches_star(g, root, name));
        }
        assert(r.1.to_set() =~= Set::<Seq<char>>::empty());
        assert(r.0 =~= visited.union(r.1.to_set()));
        assert(done.union(r.1.to_set()) =~= done);
    } else {
        let v1 = visited.insert(name);
        let ps = g[name].prereqs;
        lemma_unvisited_insert(g, visited, name);
        assert forall|s: Seq<char>, j: int| #[trigger] v1.contains(s) && !done.contains(s) && 0 <= j < ps.len()
            implies reaches_plus(g, s, #[trigger] ps[j]) by {
            assert(g.contains_key(ps[j]));
            if s == name {
                lemma_edge_reaches(g, name, j);
            } else {
                lemma_reaches_extend(g, s, name, j);
            }
        }
        assert forall|j: int| 0 <= j < ps.len() implies reaches_star(g, root, #[trigger] ps[j]) by {
            assert(g.contains_key(ps[j]));
            lemma_star_extend(g, root, name, j);
        }
        lemma_dfs_list_ordered(v, root, ps, 0, v1, done);
        let r1 = dfs_list(g, ps, 0, v1);
        assert(r == (r1.0, r1.1.push(name)));
        let out = r.1;
        assert(!r1.1.contains(name)) by {
            if r1.1.contains(name) {
                let i = choose|i: int| 0 <= i < r1.1.len() && r1.1[i] == name;
                assert(!v1.contains(r1.1[i]));
            }
        }
        assert(out.to_set() =~= r1.1.to_set().insert(name)) by {
            assert forall|x: Seq<char>| out.to_set().contains(x) <==> r1.1.to_set().insert(name).contains(x) by {
                if out.contains(x) {
                    let k = choose|k: int| 0 <= k < out.len() && out[k] == x;
                    if k < r1.1.len() {
                        assert(r1.1[k] == x);
                    }
                }
                if r1.1.contains(x) {
                    let k = choose|k: int| 0 <= k < r1.1.len() && r1.1[k] == x;
                    assert(out[k] == x);
                }
                if x == name {
                    assert(out[out.len() - 1] == x);
                }
            }
        }
        assert(r.0 =~= visited.union(out.to_set()));
        assert(out.no_duplicates()) by {
            assert forall|i: int, j: int| 0 <= i < out.len() && 0 <= j < out.len() && i != j implies out[i] != out[j] by {
                if i < r1.1.len() && j < r1.1.len() {
                    assert(out[i] == r1.1[i] && out[j] == r1.1[j]);
                } else if i < r1.1.len() {
                    assert(out[i] == r1.1[i]);
                    assert(r1.1.contains(out[i]));
                } else if j < r1.1.len() {
                    assert(out[j] == r1.1[j]);
                    assert(r1.1.contains(out[j]));
                }
            }
        }
        assert forall|i: int| 0 <= i < out.len() implies !visited.contains(#[trigger] out[i]) && g.contains_key(out[i]) by {
            if i < r1.1.len() {
                assert(out[i] == r1.1[i]);
            }
        }
        let d1 = done.union(r1.1.to_set());
        let d2 = done.union(out.to_set());
        assert(d2 =~= d1.insert(name));
        assert(closed_set(g, d2)) by {
            assert forall|x: Seq<char>| #[trigger] d2.contains(x) implies g.contains_key(x) && forall|k: int|
                0 <= k < g[x].prereqs.len() ==> d2.contains(#[trigger] g[x].prereqs[k]) by {
                if x == name {
                    assert forall|k: int| 0 <= k < g[x].prereqs.len() implies d2.contains(#[trigger] g[x].prereqs[k]) by {
                        assert(d1.contains(ps[k]));
                    }
                } else {
                    assert(d1.contains(x));
                }
            }
        }
        assert(ordered_after(g, done, out)) by {
            assert forall|i: int, k: int| 0 <= i < out.len() && 0 <= k < g[out[i]].prereqs.len() implies done.contains(
                #[trigger] g[out[i]].prereqs[k],
            ) || exists|j: int| 0 <= j < i && out[j] == g[out[i]].prereqs[k] by {
                if i < r1.1.len() {
                    assert(out[i] == r1.1[i]);
                    if !done.contains(g[out[i]].prereqs[k]) {
                        let j = choose|j: int| 0 <= j < i && r1.1[j] == g[r1.1[i]].prereqs[k];
                        assert(out[j] == r1.1[j]);
                    }
                } else {
                    assert(out[i] == name);
                    let x = ps[k];
                    assert(d1.contains(x));
                    if !done.contains(x) {
                        assert(r1.1.contains(x));
                        let j = choose|j: int| 0 <= j < r1.1.len() && r1.1[j] == x;
                        assert(out[j] == r1.1[j]);
                    }
                }
            }
        }
    }
}

/// The search over `names[i..]` keeps `search_ok` and lists each of them.
pub proof fn lemma_dfs_list_ordered(
    v: DagView,
    root: Seq<char>,
    names: Seq<Seq<char>>,
    i: int,
    visited: Set<Seq<char>>,
    done: Set<Seq<char>>,
)
    requires
        v.is_closed(),
        acyclic_from(v.nodes, root),
        forall|j: int| 0 <= j < names.len() ==> reaches_star(v.nodes, root, #[trigger] names[j]),
        0 <= i,
        forall|j: int| 0 <= j < names.len() ==> v.nodes.contains_key(#[trigger] names[j]),
        done.subset_of(visited),
        closed_set(v.nodes, done),
        forall|s: Seq<char>, j: int| #[trigger] visited.contains(s) && !done.contains(s) && i <= j < names.len()
            ==> reaches_plus(v.nodes, s, #[trigger] names[j]),
    ensures
        search_ok(v.nodes, visited, done, dfs_list(v.nodes, names, i, visited)),
        forall|j: int| i <= j < names.len() ==> done.union(dfs_list(v.nodes, names, i, visited).1.to_set()).contains(
            #[trigger] names[j],
        ),
    decreases unvisited(v.nodes, visited), names.len() + 1 - i,
{
    let g = v.nodes;
    let r = dfs_list(g, names, i, visited);
    if i >= names.len() {
        assert(r.1.to_set() =~= Set::<Seq<char>>::empty());
        assert(r.0 =~= visited.union(r.1.to_set()));
        assert(done.union(r.1.to_set()) =~= done);
    } else {
        assert forall|s: Seq<char>| #[trigger] visited.contains(s) && !done.contains(s) implies reaches_plus(g, s, names[i]) by {
            assert(visited.contains(s) && !done.contains(s) && i <= i < names.len());
        }
        assert(reaches_star(g, root, names[i]));
        lemma_dfs_ordered(v, root, names[i], visited, done);
        let r1 = dfs_post(g, names[i], visited);
        let v2 = visited.union(r1.0);
        assert(v2 =~= r1.0);
        let d1 = done.union(r1.1.to_set());
        lemma_unvisited_subset(g, visited, v2);
        assert(d1.subset_of(v2));
        assert forall|s: Seq<char>, j: int| #[trigger] v2.contains(s) && !d1.contains(s) && i + 1 <= j < names.len()
            implies reaches_plus(g, s, #[trigger] names[j]) by {
            assert(visited.contains(s) && !done.contains(s));
            assert(visited.contains(s) && !done.contains(s) && i <= j < names.len());
        }
        lemma_dfs_list_ordered(v, root, names, i + 1, v2, d1);
        let r2 = dfs_list(g, names, i + 1, v2);
        assert(r == (r2.0, r1.1 + r2.1));
        let out = r.1;
        let a = r1.1;
        let b = r2.1;
        assert(out.to_set() =~= a.to_set().union(b.to_set())) by {
            assert forall|x: Seq<char>| out.to_set().contains(x) <==> a.to_set().union(b.to_set()).contains(x) by {
                if out.contains(x) {
                    let k = choose|k: int| 0 <= k < out.len() && out[k] == x;
                    if k < a.len() {
                        assert(a[k] == x);
                    } else {
                        assert(b[k - a.len()] == x);
                    }
                }
                if a.contains(x) {
                    let k = choose|k: int| 0 <= k < a.len() && a[k] == x;
                    assert(out[k] == x);
                }
                if b.contains(x) {
                    let k = choose|k: int| 0 <= k < b.len() && b[k] == x;
                    assert(out[k + a.len()] == x);
                }
            }
        }
        assert(r.0 =~= visited.union(out.to_set()));
        assert(done.union(out.to_set()) =~= d1.union(b.to_set()));
        assert forall|k: int| 0 <= k < out.len() implies !visited.contains(#[trigger] out[k]) && g.contains_key(out[k]) by {
            if k < a.len() {
                assert(out[k] == a[k]);
            } else {
                assert(out[k] == b[k - a.len()]);
                assert(!v2.contains(b[k - a.len()]));
            }
        }
        assert(out.no_duplicates()) by {
            assert forall|x: int, y: int| 0 <= x < out.len() && 0 <= y < out.len() && x != y implies out[x] != out[y] by {
                if x < a.len() && y < a.len() {
                    assert(out[x] == a[x] && out[y] == a[y]);
                } else if x >= a.len() && y >= a.len() {
                    assert(out[x] == b[x - a.len()] && out[y] == b[y - a.len()]);
                } else if x < a.len() {
                    assert(out[x] == a[x]);
                    assert(out[y] == b[y - a.len()]);
                    assert(!v2.contains(b[y - a.len()]));
                    assert(r1.0.contains(a[x]));
                } else {
                    assert(out[y] == a[y]);
                    assert(out[x] == b[x - a.len()]);
                    assert(!v2.contains(b[x - a.len()]));
                    assert(r1.0.contains(a[y]));
                }
            }
        }
        assert(ordered_after(g, done, out)) by {
            assert forall|p: int, k: int| 0 <= p < out.len() && 0 <= k < g[out[p]].prereqs.len() implies done.contains(
                #[trigger] g[out[p]].prereqs[k],
            ) || exists|j: int| 0 <= j < p && out[j] == g[out[p]].prereqs[k] by {
                let x = g[out[p]].prereqs[k];
                if p < a.len() {
                    assert(out[p] == a[p]);
                    if !done.contains(x) {
                        let j = choose|j: int| 0 <= j < p && a[j] == x;
                        assert(out[j] == a[j]);
                    }
                } else {
                    let q = p - a.len();
                    assert(out[p] == b[q]);
                    if !done.contains(x) {
                        if d1.contains(x) {
                            assert(a.contains(x));
                            let j = choose|j: int| 0 <= j < a.len() && a[j] == x;
                            assert(out[j] == a[j]);
                        } else {
                            let j = choose|j: int| 0 <= j < q && b[j] == x;
                            assert(out[j + a.len()] == b[j]);
                        }
                    }
                }
            }
        }
        assert forall|j: int| i <= j < names.len() implies done.union(out.to_set()).contains(#[trigger] names[j]) by {
            if j == i {
                assert(d1.contains(names[i]));
            } else {
                assert(d1.union(b.to_set()).contains(names[j]));
            }
        }
    }
}

/// What one depth-first search from targets reached from `root` keeps true
/// in any graph: it lists new targets only, each once, all reached from
/// `root`, and their prerequisites end up visited.
pub open spec fn search_fresh(
    g: Map<Seq<char>, NodeView>,
    root: Seq<char>,
    visited: Set<Seq<char>>,
    r: (Set<Seq<char>>, Seq<Seq<char>>),
) -> bool {
    &&& r.0 == visited.union(r.1.to_set())
    &&& r.1.no_duplicates()
    &&& forall|i: int| 0 <= i < r.1.len() ==> !visited.contains(#[trigger] r.1[i])
    &&& forall|i: int| 0 <= i < r.1.len() ==> g.contains_key(#[trigger] r.1[i]) && reaches_star(g, root, r.1[i])
    &&& forall|i: int, k: int| 0 <= i < r.1.len() && 0 <= k < g[r.1[i]].prereqs.len() ==> r.0.contains(
        #[trigger] g[r.1[i]].prereqs[k],
    )
}

proof fn lemma_fresh_grow(
    g: Map<Seq<char>, NodeView>,
    root: Seq<char>,
    visited: Set<Seq<char>>,
    r: (Set<Seq<char>>, Seq<Seq<char>>),
    bigger: Set<Seq<char>>,
)
    requires
        search_fresh(g, root, visited, r),
        r.0.subset_of(bigger),
    ensures
        forall|i: int, k: int| 0 <= i < r.1.len() && 0 <= k < g[r.1[i]].prereqs.len() ==> bigger.contains(
            #[trigger] g[r.1[i]].prereqs[k],
        ),
{
}

/// In any closed graph, the search from `name` keeps `search_fresh`, ends
/// with `name` visited, and lists `name` last when it was not yet visited.
pub proof fn lemma_dfs_fresh(v: DagView, root: Seq<char>, name: Seq<char>, visited: Set<Seq<char>>)
    requires
        v.is_closed(),
        reaches_star(v.nodes, root, name),
        v.nodes.contains_key(name),
    ensures
        search_fresh(v.nodes, root, visited, dfs_post(v.nodes, name, visited)),
        dfs_post(v.nodes, name, visited).0.contains(name),
        !visited.contains(name) ==> dfs_post(v.nodes, name, visited).1.len() > 0 && dfs_post(
            v.nodes,
            name,
            visited,
        ).1.last() == name,
    decreases unvisited(v.nodes, visited), 0int,
{
    let g = v.nodes;
    let r = dfs_post(g, name, visited);
    if visited.contains(name) {
        assert(r.1.to_set() =~= Set::<Seq<char>>::empty());
        assert(r.0 =~= visited.union(r.1.to_set()));
    } else {
        let v1 = visited.insert(name);
        let ps = g[name].prereqs;
        lemma_unvisited_insert(g, visited, name);
        assert forall|j: int| 0 <= j < ps.len() implies reaches_star(g, root, #[trigger] ps[j]) by {
            assert(g.contains_key(ps[j]));
            lemma_star_extend(g, root, name, j);
        }
        lemma_dfs_list_fresh(v, root, ps, 0, v1);
        let r1 = dfs_list(g, ps, 0, v1);
        assert(r == (r1.0, r1.1.push(name)));
        let out = r.1;
        assert(!r1.1.contains(name)) by {
            if r1.1.contains(name) {
                let i = choose|i: int| 0 <= i < r1.1.len() && r1.1[i] == name;
                assert(!v1.contains(r1.1[i]));
            }
        }
        assert(out.to_set() =~= r1.1.to_set().insert(name)) by {
            assert forall|x: Seq<char>| out.to_set().contains(x) <==> r1.1.to_set().insert(name).contains(x) by {
                if out.contains(x) {
                    let k = choose|k: int| 0 <= k < out.len() && out[k] == x;
                    if k < r1.1.len() {
                        assert(r1.1[k] == x);
                    }
                }
                if r1.1.contains(x) {
                    let k = choose|k: int| 0 <= k < r1.1.len() && r1.1[k] == x;
                    assert(out[k] == x);
                }
                if x == name {
                    assert(out[out.len() - 1] == x);
                }
            }
        }
        assert(r.0 =~= visited.union(out.to_set()));
        assert(out.no_duplicates()) by {
            assert forall|i: int, j: int| 0 <= i < out.len() && 0 <= j < out.len() && i != j implies out[i] != out[j] by {
                if i < r1.1.len() && j < r1.1.len() {
                    assert(out[i] == r1.1[i] && out[j] == r1.1[j]);
                } else if i < r1.1.len() {
                    assert(out[i] == r1.1[i]);
                    assert(r1.1.contains(out[i]));
                } else if j < r1.1.len() {
                    assert(out[j] == r1.1[j]);
                    assert(r1.1.contains(out[j]));
                }
            }
        }
        assert forall|i: int| 0 <= i < out.len() implies !visited.contains(#[trigger] out[i]) && g.contains_key(out[i])
            && reaches_star(g, root, out[i]) by {
            if i < r1.1.len() {
                assert(out[i] == r1.1[i]);
            }
        }
        assert forall|i: int, k: int| 0 <= i < out.len() && 0 <= k < g[out[i]].prereqs.len() implies r.0.contains(
            #[trigger] g[out[i]].prereqs[k],
        ) by {
            if i < r1.1.len() {
                assert(out[i] == r1.1[i]);
            } else {
                assert(out[i] == name);
            }
        }
    }
}

/// In any closed graph, the search over `names[i..]` keeps `search_fresh`
/// and ends with each of them visited.
pub proof fn lemma_dfs_list_fresh(v: DagView, root: Seq<char>, names: Seq<Seq<char>>, i: int, visited: Set<Seq<char>>)
    requires
        v.is_closed(),
        0 <= i,
        forall|j: int| 0 <= j < names.len() ==> v.nodes.contains_key(#[trigger] names[j]),
        forall|j: int| 0 <= j < names.len() ==> reaches_star(v.nodes, root, #[trigger] names[j]),
    ensures
        search_fresh(v.nodes, root, visited, dfs_list(v.nodes, names, i, visited)),
        forall|j: int| i <= j < names.len() ==> dfs_list(v.nodes, names, i, visited).0.contains(#[trigger] names[j]),
    decreases unvisited(v.nodes, visited), names.len() + 1 - i,
{
    let g = v.nodes;
    let r = dfs_list(g, names, i, visited);
    if i >= names.len() {
        assert(r.1.to_set() =~= Set::<Seq<char>>::empty());
        assert(r.0 =~= visited.union(r.1.to_set()));
    } else {
        lemma_dfs_fresh(v, root, names[i], visited);
        let r1 = dfs_post(g, names[i], visited);
        let v2 = visited.union(r1.0);
        assert(v2 =~= r1.0);
        lemma_unvisited_subset(g, visited, v2);
        lemma_dfs_list_fresh(v, root, names, i + 1, v2);
        let r2 = dfs_list(g, names, i + 1, v2);
        assert(r == (r2.0, r1.1 + r2.1));
        lemma_dfs_list_monotone(g, names, i + 1, v2);
        lemma_fresh_grow(g, root, visited, r1, r2.0);
        let out = r.1;
        let a = r1.1;
        let b = r2.1;
        assert(out.to_set() =~= a.to_set().union(b.to_set())) by {
            assert forall|x: Seq<char>| out.to_set().contains(x) <==> a.to_set().union(b.to_set()).contains(x) by {
                if out.contains(x) {
                    let k = choose|k: int| 0 <= k < out.len() && out[k] == x;
                    if k < a.len() {
                        assert(a[k] == x);
                    } else {
                        assert(b[k - a.len()] == x);
                    }
                }
                if a.contains(x) {
                    let k = choose|k: int| 0 <= k < a.len() && a[k] == x;
                    assert(out[k] == x);
                }
                if b.contains(x) {
                    let k = choose|k: int| 0 <= k < b.len() && b[k] == x;
                    assert(out[k + a.len()] == x);
                }
            }
        }
        assert(r.0 =~= visited.union(out.to_set()));
        assert forall|k: int| 0 <= k < out.len() implies !visited.contains(#[trigger] out[k]) && g.contains_key(out[k])
            && reaches_star(g, root, out[k]) by {
            if k < a.len() {
                assert(out[k] == a[k]);
            } else {
                assert(out[k] == b[k - a.len()]);
                assert(!v2.contains(b[k - a.len()]));
            }
        }
        assert(out.no_duplicates()) by {
            assert forall|x: int, y: int| 0 <= x < out.len() && 0 <= y < out.len() && x != y implies out[x] != out[y] by {
                if x < a.len() && y < a.len() {
                    assert(out[x] == a[x] && out[y] == a[y]);
                } else if x >= a.len() && y >= a.len() {
                    assert(out[x] == b[x - a.len()] && out[y] == b[y - a.len()]);
                } else if x < a.len() {
                    assert(out[x] == a[x]);
                    assert(out[y] == b[y - a.len()]);
                    assert(!v2.contains(b[y - a.len()]));
                    assert(r1.0.contains(a[x]));
                } else {
                    assert(out[y] == a[y]);
                    assert(out[x] == b[x - a.len()]);
                    assert(!v2.contains(b[x - a.len()]));
                    assert(r1.0.contains(a[y]));
                }
            }
        }
        assert forall|p: int, k: int| 0 <= p < out.len() && 0 <= k < g[out[p]].prereqs.len() implies r.0.contains(
            #[trigger] g[out[p]].prereqs[k],
        ) by {
            if p < a.len() {
                assert(out[p] == a[p]);
            } else {
                assert(out[p] == b[p - a.len()]);
            }
        }
        assert forall|j: int| i <= j < names.len() implies r.0.contains(#[trigger] names[j]) by {
            if j == i {
                assert(r1.0.contains(names[i]));
            }
        }
    }
}

/// In any graph, the build order for a target lists it last, lists every
/// target at most once, and lists exactly the targets that it depends on
/// and itself.
pub proof fn lemma_order_lists_reach(v: DagView, target: Seq<char>)
    requires
        v.is_closed(),
        v.nodes.contains_key(target),
    ensures
        spec_order(v, target).len() > 0,
        spec_order(v, target).last().target == target,
        each_once(spec_order(v, target)),
        covers_reach(v.nodes, target, spec_order(v, target)),
        forall|j: int| 0 <= j < spec_order(v, target).len() ==> reaches_star(v.nodes, target, #[trigger] spec_order(v, target)[j].target),
{
    let g = v.nodes;
    let e = Set::<Seq<char>>::empty();
    lemma_dfs_fresh(v, target, target, e);
    let r = dfs_post(g, target, e);
    let names = r.1;
    let o = spec_order(v, target);
    assert(r.0 =~= names.to_set());
    assert forall|i: int| 0 <= i < o.len() implies (#[trigger] o[i]).target == names[i] by {
        assert(g.contains_key(names[i]));
    }
    assert(closed_set(g, names.to_set())) by {
        assert forall|x: Seq<char>| #[trigger] names.to_set().contains(x) implies g.contains_key(x) && forall|k: int|
            0 <= k < g[x].prereqs.len() ==> names.to_set().contains(#[trigger] g[x].prereqs[k]) by {
            let i = choose|i: int| 0 <= i < names.len() && names[i] == x;
            assert(g.contains_key(names[i]));
            assert forall|k: int| 0 <= k < g[x].prereqs.len() implies names.to_set().contains(#[trigger] g[x].prereqs[k]) by {
                assert(r.0.contains(g[names[i]].prereqs[k]));
            }
        }
    }
    assert forall|p: Seq<Seq<char>>| is_path(g, p) && p[0] == target implies exists|j: int|
        0 <= j < o.len() && (#[trigger] o[j]).target == #[trigger] p.last() by {
        lemma_path_in_closed(g, names.to_set(), p);
        let j = choose|j: int| 0 <= j < names.len() && names[j] == p.last();
        assert(o[j].target == names[j]);
    }
    assert forall|i: int, j: int| 0 <= i < o.len() && 0 <= j < o.len() && i != j implies (#[trigger] o[i]).target != (
    #[trigger] o[j]).target by {
        assert(o[i].target == names[i] && o[j].target == names[j]);
    }
}

/// `name` is the target of one of the first `i` entries of `o`.
pub open spec fn listed_before(o: Seq<NodeView>, i: int, name: Seq<char>) -> bool {
    exists|j: int| 0 <= j < i && (#[trigger] o[j]).target == name
}

/// Each target of `o` comes after every prerequisite of it.
pub open spec fn prereqs_first(o: Seq<NodeView>) -> bool {
    forall|i: int, k: int|
        0 <= i < o.len() && 0 <= k < o[i].prereqs.len() ==> listed_before(o, i, #[trigger] o[i].prereqs[k])
}

/// No target occurs twice in `o`.
pub open spec fn each_once(o: Seq<NodeView>) -> bool {
    forall|i: int, j: int| 0 <= i < o.len() && 0 <= j < o.len() && i != j ==> (#[trigger] o[i]).target != (
    #[trigger] o[j]).target
}

/// Every target at the end of a chain of prerequisites from `target` is in `o`.
pub open spec fn covers_reach(g: Map<Seq<char>, NodeView>, target: Seq<char>, o: Seq<NodeView>) -> bool {
    forall|p: Seq<Seq<char>>| is_path(g, p) && p[0] == target ==> exists|j: int|
        0 <= j < o.len() && (#[trigger] o[j]).target == #[trigger] p.last()
}

/// When no target that `target` depends on (or `target` itself) depends on
/// itself, the build order for `target` lists it last, every target at most
/// once, each after all of its prerequisites, and every target that
/// `target` depends on. A graph without cycles meets this for every target
/// (`lemma_acyclic_from`).
pub proof fn lemma_order_is_build_order(v: DagView, target: Seq<char>)
    requires
        v.is_closed(),
        acyclic_from(v.nodes, target),
        v.nodes.contains_key(target),
    ensures
        spec_order(v, target).len() > 0,
        spec_order(v, target).last().target == target,
        each_once(spec_order(v, target)),
        prereqs_first(spec_order(v, target)),
        covers_reach(v.nodes, target, spec_order(v, target)),
        forall|j: int| 0 <= j < spec_order(v, target).len() ==> reaches_star(v.nodes, target, #[trigger] spec_order(v, target)[j].target),
{
    let g = v.nodes;
    let e = Set::<Seq<char>>::empty();
    lemma_order_lists_reach(v, target);
    lemma_dfs_ordered(v, target, target, e, e);
    let names = dfs_post(g, target, e).1;
    let o = spec_order(v, target);
    assert(o == names.map_values(|n: Seq<char>| g[n]));
    assert(e.union(names.to_set()) =~= names.to_set());
    assert forall|i: int| 0 <= i < o.len() implies (#[trigger] o[i]).target == names[i] by {
        assert(g.contains_key(names[i]));
    }
    assert(names.contains(target));
    assert(!e.contains(target));
    assert(names.last() == target);
    assert(o.last().target == target);
    assert forall|i: int, k: int| 0 <= i < o.len() && 0 <= k < o[i].prereqs.len() implies listed_before(
        o,
        i,
        #[trigger] o[i].prereqs[k],
    ) by {
        assert(o[i] == g[names[i]]);
        assert(!e.contains(g[names[i]].prereqs[k]));
        let j = choose|j: int| 0 <= j < i && names[j] == g[names[i]].prereqs[k];
        assert(o[j].target == names[j]);
    }
    assert forall|p: Seq<Seq<char>>| is_path(g, p) && p[0] == target implies exists|j: int|
        0 <= j < o.len() && (#[trigger] o[j]).target == #[trigger] p.last() by {
        lemma_path_in_closed(g, names.to_set(), p);
        let j = choose|j: int| 0 <= j < names.len() && names[j] == p.last();
        assert(o[j].target == names[j]);
    }
    assert forall|i: int, j: int| 0 <= i < o.len() && 0 <= j < o.len() && i != j implies (#[trigger] o[i]).target != (
    #[trigger] o[j]).target by {
        assert(o[i].target == names[i] && o[j].target == names[j]);
    }
}

proof fn lemma_path_in_closed(g: Map<Seq<char>, NodeView>, d: Set<Seq<char>>, p: Seq<Seq<char>>)
    requires
        closed_set(g, d),
        is_path(g, p),
        d.contains(p[0]),
    ensures
        d.contains(p.last()),
    decreases p.len(),
{
    if p.len() > 1 {
        let q = p.drop_last();
        assert forall|i: int| 0 <= i < q.len() - 1 implies edge(g, #[trigger] q[i], q[i + 1]) by {
            assert(q[i] == p[i] && q[i + 1] == p[i + 1]);
        }
        assert forall|i: int| 0 <= i < q.len() implies g.contains_key(#[trigger] q[i]) by {
            assert(q[i] == p[i]);
        }
        lemma_path_in_closed(g, d, q);
        let a = p[p.len() - 2];
        assert(edge(g, a, p.last()));
        let k = choose|k: int| 0 <= k < g[a].prereqs.len() && g[a].prereqs[k] == p.last();
        assert(d.contains(g[a].prereqs[k]));
    }
}

/// The set of names held in `v`.
pub open spec fn name_set(v: Seq<String>) -> Set<Seq<char>> {
    Set::new(|k: Seq<char>| exists|i: int| 0 <= i < v.len() && v[i]@ == k)
}

fn contains_name(v: &Vec<String>, s: &String) -> (b: bool)
    ensures
        b == name_set(v@).contains(s@),
{
    let mut i: usize = 0;
    while i < v.len()
        invariant
            i <= v.len(),
            forall|j: int| 0 <= j < i ==> v@[j]@ != s@,
        decreases v.len() - i,
    {
        if v[i] == *s {
            return true;
        }
        i = i + 1;
    }
    false
}

impl Dag {
    /// Adds `name` and, depth-first, the targets it depends on that are not
    /// yet in `visited` to `out`, each after its prerequisites.
    pub fn _topo(&self, name: &String, visited: &mut Vec<String>, out: &mut Vec<String>) -> (r: Result<(), String>)
        requires
            self.wf(),
        ensures
            r is Ok,
            name_set(final(visited)@) == dfs_post(self@.nodes, name@, name_set(old(visited)@)).0,
            final(out).deep_view() == old(out).deep_view() + dfs_post(self@.nodes, name@, name_set(old(visited)@)).1,
        decreases unvisited(self@.nodes, name_set(old(visited)@)),
    {
        proof {
            self.lemma_wf_closed();
        }
        let ghost g = self@.nodes;
        let ghost v0 = name_set(visited@);
        if contains_name(visited, name) {
            assert(out.deep_view() =~= out.deep_view() + Seq::<Seq<char>>::empty());
            return Ok(());
        }
        let ghost vis_before = visited@;
        visited.push(name.clone());
        proof {
            assert forall|k: Seq<char>| #[trigger] name_set(visited@).contains(k) <==> v0.insert(name@).contains(k) by {
                if name_set(visited@).contains(k) {
                    let i = choose|i: int| 0 <= i < visited@.len() && visited@[i]@ == k;
                    if i < vis_before.len() {
                        assert(vis_before[i] == visited@[i]);
                    }
                }
                if v0.insert(name@).contains(k) {
                    if k == name@ {
                        assert(visited@[vis_before.len() as int]@ == k);
                    } else {
                        let i = choose|i: int| 0 <= i < vis_before.len() && vis_before[i]@ == k;
                        assert(visited@[i] == vis_before[i]);
                    }
                }
            }
            assert(name_set(visited@) =~= v0.insert(name@));
        }
        match self.node(name.as_str()) {
            Some(nd) => {
                let ghost ps = nd@.prereqs;
                let ghost v1 = v0.insert(name@);
                let ghost out0 = out.deep_view();
                proof {
                    lemma_unvisited_insert(g, v0, name@);
                }
                let mut q: usize = 0;
                while q < nd.prereqs.len()
                    invariant
                        self.wf(),
                        g == self@.nodes,
                        g.dom().finite(),
                        ps == nd@.prereqs,
                        q <= nd.prereqs.len(),
                        v1.subset_of(name_set(visited@)),
                        v0 == name_set(old(visited)@),
                        unvisited(g, v1) < unvisited(g, v0),
                        dfs_list(g, ps, 0, v1).0 == dfs_list(g, ps, q as int, name_set(visited@)).0,
                        dfs_list(g, ps, 0, v1).1 == out.deep_view().subrange(out0.len() as int, out.deep_view().len() as int)
                            + dfs_list(g, ps, q as int, name_set(visited@)).1,
                        out.deep_view().subrange(0, out0.len() as int) == out0,
                        out0.len() <= out.deep_view().len(),
                    decreases nd.prereqs.len() - q,
                {
                    let ghost cur = name_set(visited@);
                    let ghost before = out.deep_view();
                    proof {
                        lemma_unvisited_subset(g, v1, cur);
                        lemma_dfs_monotone(g, ps[q as int], cur);
                        assert(unvisited(g, name_set(visited@)) < unvisited(g, name_set(old(visited)@)));
                    }
                    let res = self._topo(&nd.prereqs[q], visited, out);
                    proof {
                        let r1 = dfs_post(g, ps[q as int], cur);
                        assert(cur.union(r1.0) =~= r1.0);
                        assert(out.deep_view().subrange(out0.len() as int, out.deep_view().len() as int) =~= before.subrange(
                            out0.len() as int,
                            before.len() as int,
                        ) + r1.1);
                        assert(out.deep_view().subrange(0, out0.len() as int) =~= before.subrange(0, out0.len() as int));
                    }
                    q = q + 1;
                }
                proof {
                    assert(out.deep_view().subrange(out0.len() as int, out.deep_view().len() as int) + Seq::<Seq<char>>::empty()
                        == out.deep_view().subrange(out0.len() as int, out.deep_view().len() as int));
                    assert(out0 + out.deep_view().subrange(out0.len() as int, out.deep_view().len() as int) =~= out.deep_view());
                }
                let ghost mid = out.deep_view();
                out.push(name.clone());
                assert(out.deep_view() =~= mid.push(name@));
            },
            None => {
                let ghost before = out.deep_view();
                out.push(name.clone());
                assert(out.deep_view() =~= before + seq![name@]);
            },
        }
        Ok(())
    }

    /// The targets to build for `target`, in build order; empty when `target`
    /// is not a target.
    pub fn order(&self, target: &str) -> (r: Result<Vec<&DagNode>, String>)
        requires
            self.wf(),
        ensures
            r matches Ok(v) && v@.len() == spec_order(self@, target@).len() && forall|i: int|
                0 <= i < v@.len() ==> (#[trigger] v@[i])@ == spec_order(self@, target@)[i],
    {
        proof {
            self.lemma_wf_closed();
        }
        let mut result: Vec<String> = Vec::new();
        let mut visited: Vec<String> = Vec::new();
        let t = target.to_string();
        if !self.contains_node(target) {
            return Ok(Vec::new());
        }
        assert(name_set(visited@) =~= Set::<Seq<char>>::empty());
        let _ = self._topo(&t, &mut visited, &mut result);
        assert(result.deep_view() =~= dfs_post(self@.nodes, target@, Set::empty()).1);
        let ghost names = dfs_post(self@.nodes, target@, Set::empty()).1;
        proof {
            lemma_dfs_in_dom(self@, target@, Set::empty());
        }
        let mut nodes: Vec<&DagNode> = Vec::new();
        let mut k: usize = 0;
        while k < result.len()
            invariant
                self.wf(),
                self@.nodes.contains_key(target@),
                names == result.deep_view(),
                names == dfs_post(self@.nodes, target@, Set::empty()).1,
                forall|j: int| 0 <= j < names.len() ==> self@.nodes.contains_key(#[trigger] names[j]),
                k <= result.len(),
                nodes@.len() == k,
                forall|j: int| 0 <= j < k ==> (#[trigger] nodes@[j])@ == spec_order(self@, target@)[j],
            decreases result.len() - k,
        {
            assert(result@[k as int]@ == names[k as int]);
            match self.node(result[k].as_str()) {
                Some(nd) => {
                    nodes.push(nd);
                },
                None => {
                    assert(false);
                },
            }
            k = k + 1;
        }
        Ok(nodes)
    }
}

} // verus!
