//! The dependency graph: targets, their prerequisites and recipes.
use vstd::prelude::*;
use crate::assoc::{
    lemma_seq_to_map_dom, lemma_seq_to_map_update, lemma_seq_to_map_value, lemma_unique_push, seq_to_map,
    unique_keys,
};
use crate::graph::IndexGraph;
use crate::text::{chars_of, concat_chars, string_of};
use crate::vars::{pair_views, VarTable};

verus! {

broadcast use vstd::string::group_string_axioms;

/// A target as plain values.
pub struct NodeView {
    pub target: Seq<char>,
    pub prereqs: Seq<Seq<char>>,
    pub recipes: Seq<Seq<char>>,
    pub is_phony: bool,
}

/// A target of the makefile with its prerequisites and recipe lines.
pub struct DagNode {
    pub target: String,
    pub prereqs: Vec<String>,
    pub recipes: Vec<String>,
    pub is_phony: bool,
}

impl View for DagNode {
    type V = NodeView;

    open spec fn view(&self) -> NodeView {
        NodeView {
            target: self.target@,
            prereqs: self.prereqs.deep_view(),
            recipes: self.recipes.deep_view(),
            is_phony: self.is_phony,
        }
    }
}

/// A fresh target with no prerequisites and no recipe.
pub open spec fn empty_node(target: Seq<char>, is_phony: bool) -> NodeView {
    NodeView { target, prereqs: seq![], recipes: seq![], is_phony }
}

/// `s` begins with a dot.
pub open spec fn starts_with_dot(s: Seq<char>) -> bool {
    s.len() > 0 && s[0] == '.'
}

/// The name `.PHONY`.
pub open spec fn phony_name() -> Seq<char> {
    seq!['.', 'P', 'H', 'O', 'N', 'Y']
}

/// The name `.SUFFIXES`.
pub open spec fn suffixes_name() -> Seq<char> {
    seq!['.', 'S', 'U', 'F', 'F', 'I', 'X', 'E', 'S']
}

impl DagNode {
    /// A target with no prerequisites and no recipe.
    pub fn new(target: String, is_phony: bool) -> (n: Self)
        ensures
            n@ == empty_node(target@, is_phony),
    {
        let n = DagNode { target, prereqs: Vec::new(), recipes: Vec::new(), is_phony };
        assert(n@.prereqs =~= Seq::<Seq<char>>::empty());
        assert(n@.recipes =~= Seq::<Seq<char>>::empty());
        n
    }
}

/// Whether a target must be rebuilt: it is phony, it does not exist
/// (modification time 0), or a prerequisite does not exist or is newer.
pub open spec fn spec_needs_rebuild(is_phony: bool, target_mtime: u64, prereq_mtimes: Seq<u64>) -> bool {
    is_phony || target_mtime == 0 || exists|i: int|
        0 <= i < prereq_mtimes.len() && (prereq_mtimes[i] == 0 || prereq_mtimes[i] > target_mtime)
}

/// The staleness rule: a phony target is always rebuilt, and so is a
/// missing target or one with a missing or newer prerequisite; an existing,
/// non-phony target whose prerequisites all exist and are no newer is not.
pub proof fn lemma_rebuild_rule(is_phony: bool, target_mtime: u64, prereq_mtimes: Seq<u64>)
    ensures
        is_phony ==> spec_needs_rebuild(is_phony, target_mtime, prereq_mtimes),
        target_mtime == 0 ==> spec_needs_rebuild(is_phony, target_mtime, prereq_mtimes),
        (exists|i: int|
            0 <= i < prereq_mtimes.len() && (#[trigger] prereq_mtimes[i] == 0 || prereq_mtimes[i] > target_mtime))
            ==> spec_needs_rebuild(is_phony, target_mtime, prereq_mtimes),
        !is_phony && target_mtime > 0 && (forall|i: int|
            0 <= i < prereq_mtimes.len() ==> 0 < #[trigger] prereq_mtimes[i] <= target_mtime) ==> !spec_needs_rebuild(
            is_phony,
            target_mtime,
            prereq_mtimes,
        ),
{
}

impl DagNode {
    /// Whether this target must be rebuilt, given the modification times (in
    /// seconds, 0 for a missing file) of the target and of each prerequisite.
    pub fn needs_rebuild(&self, target_mtime: u64, prereq_mtimes: &Vec<u64>) -> (b: bool)
        requires
            prereq_mtimes.len() == self.prereqs.len(),
        ensures
            b == spec_needs_rebuild(self.is_phony, target_mtime, prereq_mtimes@),
            self.is_phony ==> b,
            target_mtime == 0 ==> b,
            !self.is_phony && target_mtime > 0 && (forall|i: int|
                0 <= i < prereq_mtimes.len() ==> 0 < #[trigger] prereq_mtimes@[i] <= target_mtime) ==> !b,
    {
        if self.is_phony {
            return true;
        }
        if target_mtime == 0 {
            return true;
        }
        let mut i: usize = 0;
        while i < prereq_mtimes.len()
            invariant
                i <= prereq_mtimes.len(),
                forall|j: int| 0 <= j < i ==> !(prereq_mtimes@[j] == 0 || prereq_mtimes@[j] > target_mtime),
            decreases prereq_mtimes.len() - i,
        {
            let m = prereq_mtimes[i];
            if m == 0 || m > target_mtime {
                return true;
            }
            i = i + 1;
        }
        false
    }
}

/// The graph as plain values.
pub struct DagView {
    pub nodes: Map<Seq<char>, NodeView>,
    pub variables: Map<Seq<char>, Seq<char>>,
    pub default_target: Option<Seq<char>>,
}

impl DagView {
    /// Adds an empty target `name` unless it is there already.
    pub open spec fn ensure_node(self, name: Seq<char>, is_phony: bool) -> DagView {
        if self.nodes.contains_key(name) {
            self
        } else {
            DagView { nodes: self.nodes.insert(name, empty_node(name, is_phony)), ..self }
        }
    }

    /// Appends `p` to the prerequisites of the existing target `t`.
    pub open spec fn push_prereq(self, t: Seq<char>, p: Seq<char>) -> DagView {
        let n = self.nodes[t];
        DagView { nodes: self.nodes.insert(t, NodeView { prereqs: n.prereqs.push(p), ..n }), ..self }
    }

    /// Appends `r` to the recipe lines of the existing target `t`.
    pub open spec fn push_recipe(self, t: Seq<char>, r: Seq<char>) -> DagView {
        let n = self.nodes[t];
        DagView { nodes: self.nodes.insert(t, NodeView { recipes: n.recipes.push(r), ..n }), ..self }
    }

    /// Makes `t` the default target unless there is one already.
    pub open spec fn set_default(self, t: Seq<char>) -> DagView {
        if self.default_target is None {
            DagView { default_target: Some(t), ..self }
        } else {
            self
        }
    }

    /// Sets variable `name` to `value`.
    pub open spec fn set_variable(self, name: Seq<char>, value: Seq<char>) -> DagView {
        DagView { variables: self.variables.insert(name, value), ..self }
    }

    /// Assigns `value` to variable `name` with operator `op`: `?` sets it only
    /// when it is not set, `+` appends to a nonempty value after a space, and
    /// `=` or `:` set it.
    pub open spec fn assign(self, name: Seq<char>, op: char, value: Seq<char>) -> DagView {
        if op == '?' && self.variables.contains_key(name) {
            self
        } else if op == '+' && self.variables.contains_key(name) && self.variables[name].len() > 0 {
            self.set_variable(name, self.variables[name] + seq![' '] + value)
        } else {
            self.set_variable(name, value)
        }
    }

    /// Makes `t` depend on `p`; both become targets, and the first ordinary
    /// target that gets a prerequisite becomes the default target.
    pub open spec fn add_prereq(self, t: Seq<char>, p: Seq<char>) -> DagView {
        let v = self.ensure_node(t, false).ensure_node(p, false).push_prereq(t, p);
        if v.default_target is None && !starts_with_dot(t) && t != phony_name() && t
            != suffixes_name() {
            v.set_default(t)
        } else {
            v
        }
    }

    /// Adds the recipe line `r` to target `t`, which becomes a target.
    pub open spec fn add_recipe(self, t: Seq<char>, r: Seq<char>) -> DagView {
        self.ensure_node(t, false).push_recipe(t, r)
    }

    /// Marks the existing target `t` phony; does nothing for an unknown name.
    pub open spec fn mark_phony(self, t: Seq<char>) -> DagView {
        if self.nodes.contains_key(t) {
            let n = self.nodes[t];
            DagView { nodes: self.nodes.insert(t, NodeView { is_phony: true, ..n }), ..self }
        } else {
            self
        }
    }

    /// Every prerequisite of a target is itself a target, and each target
    /// is stored under its own name.
    pub open spec fn is_closed(self) -> bool {
        &&& self.nodes.dom().finite()
        &&& forall|t: Seq<char>| #[trigger] self.nodes.contains_key(t) ==> self.nodes[t].target == t
        &&& forall|t: Seq<char>, i: int|
            self.nodes.contains_key(t) && 0 <= i < self.nodes[t].prereqs.len()
                ==> self.nodes.contains_key(#[trigger] self.nodes[t].prereqs[i])
    }
}

/// `d` with each pair of `ps` set as a variable, in order.
pub open spec fn set_all(d: DagView, ps: Seq<(Seq<char>, Seq<char>)>) -> DagView
    decreases ps.len(),
{
    if ps.len() == 0 {
        d
    } else {
        set_all(d, ps.drop_last()).set_variable(ps.last().0, ps.last().1)
    }
}

/// `d` with each pair of `ps` whose name is already a variable set, in order.
pub open spec fn set_defined(d: DagView, ps: Seq<(Seq<char>, Seq<char>)>) -> DagView
    decreases ps.len(),
{
    if ps.len() == 0 {
        d
    } else {
        let d1 = set_defined(d, ps.drop_last());
        if d1.variables.contains_key(ps.last().0) {
            d1.set_variable(ps.last().0, ps.last().1)
        } else {
            d1
        }
    }
}

/// Target `a` has `b` among its prerequisites.
pub open spec fn edge(g: Map<Seq<char>, NodeView>, a: Seq<char>, b: Seq<char>) -> bool {
    g.contains_key(a) && g[a].prereqs.contains(b)
}

/// A nonempty sequence of targets, each a prerequisite of the one before.
pub open spec fn is_path(g: Map<Seq<char>, NodeView>, p: Seq<Seq<char>>) -> bool {
    &&& p.len() >= 1
    &&& forall|i: int| 0 <= i < p.len() ==> g.contains_key(#[trigger] p[i])
    &&& forall|i: int| 0 <= i < p.len() - 1 ==> edge(g, #[trigger] p[i], p[i + 1])
}

/// A path whose last target depends on its first.
pub open spec fn is_cycle(g: Map<Seq<char>, NodeView>, p: Seq<Seq<char>>) -> bool {
    is_path(g, p) && edge(g, p.last(), p[0])
}

/// Some target depends on itself, directly or through others.
pub open spec fn has_cycle(g: Map<Seq<char>, NodeView>) -> bool {
    exists|p: Seq<Seq<char>>| is_cycle(g, p)
}

/// The dependency graph together with the variables of the makefile.
pub struct Dag {
    nodes: Vec<DagNode>,
    variables: VarTable,
    default_target: Option<String>,
}

impl Dag {
    /// The targets as (name, target) pairs, in the order they were added.
    pub closed spec fn entries(&self) -> Seq<(Seq<char>, NodeView)> {
        self.nodes@.map_values(|n: DagNode| (n.target@, n@))
    }

    /// Targets are stored once each and the graph is closed.
    pub closed spec fn wf(&self) -> bool {
        &&& unique_keys(self.entries())
        &&& self.variables.wf()
        &&& self@.is_closed()
    }

    /// An empty graph.
    pub fn new() -> (d: Self)
        ensures
            d.wf(),
            d@.nodes == Map::<Seq<char>, NodeView>::empty(),
            d@.variables == Map::<Seq<char>, Seq<char>>::empty(),
            d@.default_target is None,
    {
        let d = Dag { nodes: Vec::new(), variables: VarTable::new(), default_target: None };
        assert(d.entries() =~= Seq::<(Seq<char>, NodeView)>::empty());
        proof {
            lemma_seq_to_map_dom(d.entries());
        }
        d
    }

    /// A well-formed graph is closed under prerequisites.
    pub proof fn lemma_wf_closed(&self)
        requires
            self.wf(),
        ensures
            self@.is_closed(),
    {
    }

    proof fn lemma_entry(&self, i: int)
        requires
            unique_keys(self.entries()),
            0 <= i < self.nodes.len(),
        ensures
            self@.nodes.contains_key(self.nodes@[i].target@),
            self@.nodes[self.nodes@[i].target@] == self.nodes@[i]@,
    {
        assert(self.entries()[i] == (self.nodes@[i].target@, self.nodes@[i]@));
        lemma_seq_to_map_value(self.entries(), i);
    }

    proof fn lemma_dom(&self)
        ensures
            self@.nodes.dom().finite(),
            forall|k: Seq<char>| #[trigger]
                self@.nodes.contains_key(k) <==> exists|i: int|
                    0 <= i < self.nodes.len() && self.nodes@[i].target@ == k,
    {
        lemma_seq_to_map_dom(self.entries());
        assert forall|k: Seq<char>| #[trigger] self@.nodes.contains_key(k) <==> exists|i: int|
            0 <= i < self.nodes.len() && self.nodes@[i].target@ == k by {
            if self@.nodes.contains_key(k) {
                let i = choose|i: int| 0 <= i < self.entries().len() && self.entries()[i].0 == k;
                assert(self.nodes@[i].target@ == k);
            }
            if exists|i: int| 0 <= i < self.nodes.len() && self.nodes@[i].target@ == k {
                let i = choose|i: int| 0 <= i < self.nodes.len() && self.nodes@[i].target@ == k;
                assert(self.entries()[i].0 == k);
            }
        }
    }

    /// The position of target `key`, if it is a target.
    fn index_of(&self, key: &String) -> (r: Option<usize>)
        requires
            self.wf(),
        ensures
            match r {
                Some(i) => i < self.nodes.len() && self.nodes@[i as int].target@ == key@
                    && self@.nodes.contains_key(key@) && self@.nodes[key@] == self.nodes@[i as int]@,
                None => !self@.nodes.contains_key(key@),
            },
    {
        proof {
            self.lemma_dom();
        }
        let mut i: usize = 0;
        while i < self.nodes.len()
            invariant
                self.wf(),
                i <= self.nodes.len(),
                forall|j: int| 0 <= j < i ==> self.nodes@[j].target@ != key@,
            decreases self.nodes.len() - i,
        {
            if self.nodes[i].target == *key {
                proof {
                    self.lemma_entry(i as int);
                }
                return Some(i);
            }
            i = i + 1;
        }
        None
    }

    /// Adds an empty target `target` unless it exists; an existing target keeps
    /// its phony flag. Returns the target.
    pub fn ensure_node(&mut self, target: &str, is_phony: bool) -> (r: &DagNode)
        requires
            old(self).wf(),
        ensures
            final(self).wf(),
            final(self)@ == old(self)@.ensure_node(target@, is_phony),
            final(self)@.nodes.contains_key(target@),
            r@ == final(self)@.nodes[target@],
    {
        let key = target.to_string();
        let i = self.ensure_index(key, is_phony);
        proof {
            self.lemma_entry(i as int);
        }
        &self.nodes[i]
    }

    fn ensure_index(&mut self, key: String, is_phony: bool) -> (i: usize)
        requires
            old(self).wf(),
        ensures
            final(self).wf(),
            final(self)@ == old(self)@.ensure_node(key@, is_phony),
            i < final(self).nodes.len(),
            final(self).nodes@[i as int].target@ == key@,
            final(self)@.nodes.contains_key(key@),
    {
        match self.index_of(&key) {
            Some(i) => i,
            None => {
                let ghost old_entries = self.entries();
                let node = DagNode::new(key, is_phony);
                let ghost p = (node.target@, node@);
                proof {
                    self.lemma_dom();
                    assert forall|j: int| 0 <= j < old_entries.len() implies old_entries[j].0 != p.0 by {
                        assert(old_entries[j].0 == self.nodes@[j].target@);
                    }
                    lemma_unique_push(old_entries, p);
                }
                self.nodes.push(node);
                assert(self.entries() =~= old_entries.push(p));
                proof {
                    lemma_seq_to_map_dom(self.entries());
                    let v = self@;
                    assert(v.nodes =~= old(self)@.nodes.insert(key@, empty_node(key@, is_phony)));
                }
                self.nodes.len() - 1
            },
        }
    }
}

impl Dag {
    proof fn lemma_replace_node(&self, new: &Self, i: int)
        requires
            self.wf(),
            0 <= i < self.nodes.len(),
            new.nodes@ == self.nodes@.update(i, new.nodes@[i]),
            new.nodes@[i].target@ == self.nodes@[i].target@,
            new.variables == self.variables,
            new.default_target == self.default_target,
        ensures
            unique_keys(new.entries()),
            new.variables.wf(),
            new@.nodes == self@.nodes.insert(self.nodes@[i].target@, new.nodes@[i]@),
            new@.variables == self@.variables,
            new@.default_target == self@.default_target,
    {
        let p = (new.nodes@[i].target@, new.nodes@[i]@);
        assert(self.entries()[i].0 == self.nodes@[i].target@);
        lemma_seq_to_map_update(self.entries(), i, p);
        assert(new.entries() =~= self.entries().update(i, p));
    }

    /// Makes `target` depend on `prereq`. Both become targets; the first target
    /// that gets a prerequisite and does not begin with a dot becomes the
    /// default target.
    pub fn add_prereq(&mut self, target: &str, prereq: &str)
        requires
            old(self).wf(),
        ensures
            final(self).wf(),
            final(self)@ == old(self)@.add_prereq(target@, prereq@),
    {
        let t = target.to_string();
        let p = prereq.to_string();
        self.ensure_index(t.clone(), false);
        self.ensure_index(p.clone(), false);
        let i = self.ensure_index(t, false);
        let ghost before = *self;
        let ghost pv = p@;
        proof {
            before.lemma_entry(i as int);
        }
        self.nodes[i].prereqs.push(p);
        proof {
            assert(self.nodes@[i as int].prereqs.deep_view() =~= before.nodes@[i as int].prereqs.deep_view().push(pv));
            assert(self.nodes@ =~= before.nodes@.update(i as int, self.nodes@[i as int]));
            before.lemma_replace_node(self, i as int);
            assert(self@.nodes =~= before@.push_prereq(target@, prereq@).nodes);
            lemma_seq_to_map_dom(self.entries());
            assert forall|k: Seq<char>| #[trigger] self@.nodes.contains_key(k) implies self@.nodes[k].target == k by {
                if k != target@ {
                    assert(before@.nodes.contains_key(k));
                }
            }
            assert forall|k: Seq<char>, j: int|
                self@.nodes.contains_key(k) && 0 <= j < self@.nodes[k].prereqs.len()
                    implies self@.nodes.contains_key(#[trigger] self@.nodes[k].prereqs[j]) by {
                if k != target@ || j < before@.nodes[k].prereqs.len() {
                    assert(before@.nodes.contains_key(k));
                    assert(before@.nodes[k].prereqs[j] == self@.nodes[k].prereqs[j]);
                }
            }
        }
        let tc = chars_of(target);
        if self.default_target.is_none() && !(tc.len() > 0 && tc[0] == '.') {
            assert(phony_name()[0] == '.' && suffixes_name()[0] == '.');
            self.default_target = Some(target.to_string());
        }
    }
}

impl Dag {
    /// Adds the recipe line `recipe` to `target`, which becomes a target.
    pub fn add_recipe(&mut self, target: &str, recipe: &str)
        requires
            old(self).wf(),
        ensures
            final(self).wf(),
            final(self)@ == old(self)@.add_recipe(target@, recipe@),
    {
        let t = target.to_string();
        let r = recipe.to_string();
        let i = self.ensure_index(t, false);
        let ghost before = *self;
        let ghost rv = r@;
        proof {
            before.lemma_entry(i as int);
        }
        self.nodes[i].recipes.push(r);
        proof {
            assert(self.nodes@[i as int].recipes.deep_view() =~= before.nodes@[i as int].recipes.deep_view().push(rv));
            assert(self.nodes@ =~= before.nodes@.update(i as int, self.nodes@[i as int]));
            before.lemma_replace_node(self, i as int);
            assert(self@.nodes =~= before@.push_recipe(target@, recipe@).nodes);
            lemma_seq_to_map_dom(self.entries());
            assert forall|k: Seq<char>| #[trigger] self@.nodes.contains_key(k) implies self@.nodes[k].target == k by {
                if k != target@ {
                    assert(before@.nodes.contains_key(k));
                }
            }
            assert forall|k: Seq<char>, j: int|
                self@.nodes.contains_key(k) && 0 <= j < self@.nodes[k].prereqs.len()
                    implies self@.nodes.contains_key(#[trigger] self@.nodes[k].prereqs[j]) by {
                assert(before@.nodes.contains_key(k));
                assert(before@.nodes[k].prereqs[j] == self@.nodes[k].prereqs[j]);
            }
        }
    }

    /// Marks the existing target `target` phony; does nothing for an unknown name.
    pub fn mark_phony(&mut self, target: &str)
        requires
            old(self).wf(),
        ensures
            final(self).wf(),
            final(self)@ == old(self)@.mark_phony(target@),
    {
        let t = target.to_string();
        match self.index_of(&t) {
            None => {},
            Some(i) => {
                let ghost before = *self;
                proof {
                    before.lemma_entry(i as int);
                }
                self.nodes[i].is_phony = true;
                proof {
                    assert(self.nodes@ =~= before.nodes@.update(i as int, self.nodes@[i as int]));
                    before.lemma_replace_node(self, i as int);
                    assert(self@.nodes =~= before@.mark_phony(target@).nodes);
                    lemma_seq_to_map_dom(self.entries());
                    assert forall|k: Seq<char>| #[trigger] self@.nodes.contains_key(k) implies self@.nodes[k].target == k by {
                        assert(before@.nodes.contains_key(k));
                    }
                    assert forall|k: Seq<char>, j: int|
                        self@.nodes.contains_key(k) && 0 <= j < self@.nodes[k].prereqs.len()
                            implies self@.nodes.contains_key(#[trigger] self@.nodes[k].prereqs[j]) by {
                        assert(before@.nodes.contains_key(k));
                        assert(before@.nodes[k].prereqs[j] == self@.nodes[k].prereqs[j]);
                    }
                }
            },
        }
    }

    /// Makes `target` the default target unless there is one already.
    pub fn set_default(&mut self, target: &str)
        requires
            old(self).wf(),
        ensures
            final(self).wf(),
            final(self)@ == old(self)@.set_default(target@),
    {
        if self.default_target.is_none() {
            self.default_target = Some(target.to_string());
        }
    }

    /// Sets variable `name` to `value`.
    pub fn set_variable(&mut self, name: &str, value: String)
        requires
            old(self).wf(),
        ensures
            final(self).wf(),
            final(self)@ == old(self)@.set_variable(name@, value@),
    {
        self.variables.insert(name.to_string(), value);
    }

    /// Assigns `value` to variable `name` with operator `op` (`=`, `:`, `?`
    /// or `+`), as `DagView::assign` says.
    pub fn assign(&mut self, name: &str, op: char, value: String)
        requires
            old(self).wf(),
        ensures
            final(self).wf(),
            final(self)@ == old(self)@.assign(name@, op, value@),
    {
        let current = match self.variable(name) {
            Some(v) => Some(v.clone()),
            None => None,
        };
        if op == '?' && current.is_some() {
            return;
        }
        match current {
            Some(old_value) => if op == '+' && chars_of(old_value.as_str()).len() > 0 {
                let sep = vec![' '];
                assert(sep@ =~= seq![' ']);
                let joined = string_of(&concat_chars(&concat_chars(&chars_of(old_value.as_str()), &sep), &chars_of(value.as_str())));
                self.set_variable(name, joined);
            } else {
                self.set_variable(name, value);
            },
            None => {
                self.set_variable(name, value);
            },
        }
    }

    /// Sets each `NAME=value` pair of `ps`, in order, so that they override
    /// the makefile's assignments.
    pub fn apply_overrides(&mut self, ps: &Vec<(String, String)>)
        requires
            old(self).wf(),
        ensures
            final(self).wf(),
            final(self)@ == set_all(old(self)@, pair_views(ps@)),
    {
        let mut k: usize = 0;
        while k < ps.len()
            invariant
                k <= ps.len(),
                self.wf(),
                self@ == set_all(old(self)@, pair_views(ps@).take(k as int)),
            decreases ps.len() - k,
        {
            assert(pair_views(ps@).take(k + 1).drop_last() == pair_views(ps@).take(k as int));
            assert(pair_views(ps@).take(k + 1).last() == (ps@[k as int].0@, ps@[k as int].1@));
            self.set_variable(ps[k].0.as_str(), ps[k].1.clone());
            k = k + 1;
        }
        assert(pair_views(ps@).take(ps.len() as int) == pair_views(ps@));
    }

    /// Sets each pair of `ps` (the environment) whose name is already a
    /// variable, in order, so that the environment overrides the makefile.
    pub fn apply_environment(&mut self, ps: &Vec<(String, String)>)
        requires
            old(self).wf(),
        ensures
            final(self).wf(),
            final(self)@ == set_defined(old(self)@, pair_views(ps@)),
    {
        let mut k: usize = 0;
        while k < ps.len()
            invariant
                k <= ps.len(),
                self.wf(),
                self@ == set_defined(old(self)@, pair_views(ps@).take(k as int)),
            decreases ps.len() - k,
        {
            assert(pair_views(ps@).take(k + 1).drop_last() == pair_views(ps@).take(k as int));
            assert(pair_views(ps@).take(k + 1).last() == (ps@[k as int].0@, ps@[k as int].1@));
            if self.variable(ps[k].0.as_str()).is_some() {
                self.set_variable(ps[k].0.as_str(), ps[k].1.clone());
            }
            k = k + 1;
        }
        assert(pair_views(ps@).take(ps.len() as int) == pair_views(ps@));
    }

    /// Every target, each once.
    pub fn targets(&self) -> (r: Vec<&DagNode>)
        requires
            self.wf(),
        ensures
            forall|i: int| 0 <= i < r.len() ==> self@.nodes.contains_key(#[trigger] r@[i].target@) && self@.nodes[r@[i].target@]
                == r@[i]@,
            forall|k: Seq<char>| #[trigger] self@.nodes.contains_key(k) ==> exists|i: int| 0 <= i < r.len() && r@[i].target@ == k,
            forall|i: int, j: int| 0 <= i < r.len() && 0 <= j < r.len() && i != j ==> r@[i].target@ != r@[j].target@,
    {
        proof {
            self.lemma_dom();
        }
        let mut r: Vec<&DagNode> = Vec::new();
        let mut k: usize = 0;
        while k < self.nodes.len()
            invariant
                self.wf(),
                k <= self.nodes.len(),
                r.len() == k,
                forall|i: int| 0 <= i < k ==> #[trigger] r@[i] == &self.nodes@[i],
            decreases self.nodes.len() - k,
        {
            r.push(&self.nodes[k]);
            k = k + 1;
        }
        proof {
            assert forall|i: int| 0 <= i < r.len() implies self@.nodes.contains_key(#[trigger] r@[i].target@) && self@.nodes[r@[i].target@]
                == r@[i]@ by {
                self.lemma_entry(i);
            }
            assert forall|k: Seq<char>| #[trigger] self@.nodes.contains_key(k) implies exists|i: int| 0 <= i < r.len() && r@[i].target@ == k by {
                let i = choose|i: int| 0 <= i < self.nodes.len() && self.nodes@[i].target@ == k;
                assert(r@[i].target@ == k);
            }
            assert forall|i: int, j: int| 0 <= i < r.len() && 0 <= j < r.len() && i != j implies r@[i].target@ != r@[j].target@ by {
                if r@[i].target@ == r@[j].target@ {
                    self.lemma_unique_index(i, j);
                }
            }
        }
        r
    }

    /// The target `name`, if there is one.
    pub fn node(&self, name: &str) -> (r: Option<&DagNode>)
        requires
            self.wf(),
        ensures
            match r {
                Some(n) => self@.nodes.contains_key(name@) && n@ == self@.nodes[name@],
                None => !self@.nodes.contains_key(name@),
            },
    {
        let key = name.to_string();
        match self.index_of(&key) {
            Some(i) => Some(&self.nodes[i]),
            None => None,
        }
    }

    /// Whether `name` is a target.
    pub fn contains_node(&self, name: &str) -> (b: bool)
        requires
            self.wf(),
        ensures
            b == self@.nodes.contains_key(name@),
    {
        let key = name.to_string();
        self.index_of(&key).is_some()
    }

    /// The value of variable `name`, if it is set.
    pub fn variable(&self, name: &str) -> (r: Option<&String>)
        requires
            self.wf(),
        ensures
            match r {
                Some(v) => self@.variables.contains_key(name@) && v@ == self@.variables[name@],
                None => !self@.variables.contains_key(name@),
            },
    {
        self.variables.get(name)
    }

    /// The variables of the makefile.
    pub fn variables(&self) -> (t: &VarTable)
        requires
            self.wf(),
        ensures
            t.wf(),
            t@ == self@.variables,
    {
        &self.variables
    }

    /// The default target, if there is one.
    pub fn default_target(&self) -> (r: Option<&String>)
        ensures
            match r {
                Some(t) => self@.default_target == Some(t@),
                None => self@.default_target is None,
            },
    {
        match &self.default_target {
            Some(t) => Some(t),
            None => None,
        }
    }
}

impl Dag {
    /// The target names of the positions in `p`.
    pub closed spec fn names_of(&self, p: Seq<usize>) -> Seq<Seq<char>> {
        p.map_values(|i: usize| self.nodes@[i as int].target@)
    }

    /// `g` numbers the targets by their position and lists their prerequisites
    /// by position.
    pub closed spec fn indexes(&self, g: IndexGraph) -> bool {
        &&& g.adj.len() == self.nodes.len()
        &&& forall|i: int| 0 <= i < self.nodes.len() ==> (#[trigger] g.adj@[i]).len() == self.nodes@[i].prereqs.len()
        &&& forall|i: int, q: int| 0 <= i < self.nodes.len() && 0 <= q < g.adj@[i].len() ==> {
            &&& #[trigger] g.adj@[i][q] < self.nodes.len()
            &&& self.nodes@[g.adj@[i][q] as int].target@ == self.nodes@[i].prereqs@[q]@
        }
    }

    proof fn lemma_dom_len(&self)
        requires
            self.wf(),
        ensures
            self@.nodes.dom().len() == self.nodes.len(),
    {
        self.lemma_dom();
        let ks = self.nodes@.map_values(|n: DagNode| n.target@);
        assert(ks.no_duplicates()) by {
            assert forall|i: int, j: int| 0 <= i < ks.len() && 0 <= j < ks.len() && i != j implies ks[i] != ks[j] by {
                if ks[i] == ks[j] {
                    self.lemma_unique_index(i, j);
                }
            }
        }
        assert(ks.to_set() =~= self@.nodes.dom()) by {
            assert forall|k: Seq<char>| ks.to_set().contains(k) <==> self@.nodes.dom().contains(k) by {
                if ks.to_set().contains(k) {
                    let i = choose|i: int| 0 <= i < ks.len() && ks[i] == k;
                    assert(self.nodes@[i].target@ == k);
                }
                if self@.nodes.dom().contains(k) {
                    let i = choose|i: int| 0 <= i < self.nodes.len() && self.nodes@[i].target@ == k;
                    assert(ks[i] == k);
                }
            }
        }
        ks.unique_seq_to_set();
    }

    proof fn lemma_unique_index(&self, i: int, j: int)
        requires
            self.wf(),
            0 <= i < self.nodes.len(),
            0 <= j < self.nodes.len(),
            self.nodes@[i].target@ == self.nodes@[j].target@,
        ensures
            i == j,
    {
        assert(self.entries()[i].0 == self.nodes@[i].target@);
        assert(self.entries()[j].0 == self.nodes@[j].target@);
    }

    fn index_graph(&self) -> (g: IndexGraph)
        requires
            self.wf(),
        ensures
            g.wf(),
            self.indexes(g),
    {
        let n = self.nodes.len();
        let mut adj: Vec<Vec<usize>> = Vec::new();
        let mut i: usize = 0;
        while i < n
            invariant
                self.wf(),
                n == self.nodes.len(),
                i <= n,
                adj.len() == i,
                forall|u: int| 0 <= u < i ==> (#[trigger] adj@[u]).len() == self.nodes@[u].prereqs.len(),
                forall|u: int, q: int| 0 <= u < i && 0 <= q < adj@[u].len() ==> {
                    &&& #[trigger] adj@[u][q] < n
                    &&& self.nodes@[adj@[u][q] as int].target@ == self.nodes@[u].prereqs@[q]@
                },
            decreases n - i,
        {
            let mut row: Vec<usize> = Vec::new();
            let mut q: usize = 0;
            proof {
                self.lemma_entry(i as int);
            }
            while q < self.nodes[i].prereqs.len()
                invariant
                    self.wf(),
                    n == self.nodes.len(),
                    i < n,
                    q <= self.nodes@[i as int].prereqs.len(),
                    row.len() == q,
                    self@.nodes.contains_key(self.nodes@[i as int].target@),
                    self@.nodes[self.nodes@[i as int].target@] == self.nodes@[i as int]@,
                    forall|k: int| 0 <= k < q ==> {
                        &&& #[trigger] row@[k] < n
                        &&& self.nodes@[row@[k] as int].target@ == self.nodes@[i as int].prereqs@[k]@
                    },
                decreases self.nodes@[i as int].prereqs.len() - q,
            {
                let ghost t = self.nodes@[i as int].target@;
                assert(self@.nodes[t].prereqs[q as int] == self.nodes@[i as int].prereqs@[q as int]@);
                let j = self.index_of(&self.nodes[i].prereqs[q]);
                match j {
                    Some(j) => {
                        row.push(j);
                    },
                    None => {
                        assert(false);
                        return IndexGraph { adj };
                    },
                }
                q = q + 1;
            }
            adj.push(row);
            i = i + 1;
        }
        IndexGraph { adj }
    }

    proof fn lemma_index_path(&self, g: IndexGraph, p: Seq<usize>)
        requires
            self.wf(),
            self.indexes(g),
            g.is_path(p),
        ensures
            is_path(self@.nodes, self.names_of(p)),
            g.is_cycle(p) ==> is_cycle(self@.nodes, self.names_of(p)),
    {
        let w = self.names_of(p);
        assert forall|i: int| 0 <= i < w.len() implies self@.nodes.contains_key(#[trigger] w[i]) by {
            assert(p[i] < g.adj.len());
            self.lemma_entry(p[i] as int);
        }
        assert forall|u: int, v: int| #[trigger] g.edge(u, v) implies edge(
            self@.nodes,
            self.nodes@[u].target@,
            self.nodes@[v].target@,
        ) by {
            let q = choose|q: int| 0 <= q < g.adj@[u].len() && g.adj@[u][q] == v;
            self.lemma_entry(u);
            assert(self@.nodes[self.nodes@[u].target@].prereqs[q] == self.nodes@[v].target@);
        }
        assert forall|i: int| 0 <= i < w.len() - 1 implies edge(self@.nodes, #[trigger] w[i], w[i + 1]) by {
            assert(g.edge(p[i] as int, p[i + 1] as int));
        }
        if g.is_cycle(p) {
            assert(g.edge(p.last() as int, p[0] as int));
            assert(w.last() == self.nodes@[p.last() as int].target@);
        }
    }

    proof fn lemma_cycle_index(&self, g: IndexGraph, c: Seq<Seq<char>>)
        requires
            self.wf(),
            self.indexes(g),
            is_cycle(self@.nodes, c),
        ensures
            exists|p: Seq<usize>| g.is_cycle(p),
    {
        self.lemma_dom();
        let idx = |k: Seq<char>| choose|i: int| 0 <= i < self.nodes.len() && self.nodes@[i].target@ == k;
        let p = Seq::new(c.len(), |j: int| idx(c[j]) as usize);
        assert forall|j: int| 0 <= j < c.len() implies #[trigger] p[j] < g.adj.len() && self.nodes@[p[j] as int].target@
            == c[j] by {
            assert(self@.nodes.contains_key(c[j]));
        }
        assert forall|j: int, k: int| 0 <= j < c.len() && 0 <= k < c.len() && edge(self@.nodes, c[j], c[k]) implies g.edge(
            #[trigger] p[j] as int,
            #[trigger] p[k] as int,
        ) by {
            let u = p[j] as int;
            self.lemma_entry(u);
            let q = choose|q: int| 0 <= q < self@.nodes[c[j]].prereqs.len() && self@.nodes[c[j]].prereqs[q] == c[k];
            assert(self.nodes@[u].prereqs@[q]@ == c[k]);
            let v = g.adj@[u][q];
            self.lemma_unique_index(v as int, p[k] as int);
        }
        assert forall|j: int| 0 <= j < p.len() - 1 implies g.edge(#[trigger] p[j] as int, p[j + 1] as int) by {
            assert(edge(self@.nodes, c[j], c[j + 1]));
        }
        assert(edge(self@.nodes, c[c.len() - 1], c[0]));
        assert(g.edge(p.last() as int, p[0] as int));
        assert(g.is_cycle(p));
    }

    /// Looks for a target that depends on itself. Returns `None` exactly when
    /// there is none; otherwise a chain of targets, each a prerequisite of the
    /// one before, whose last step leads back to a target still being
    /// explored. Unless the chain was cut at 100 steps or ends in a target
    /// listed as its own prerequisite, the last target depends on the first.
    /// Unless it ends in such a target, no target occurs in it twice, so it
    /// is no longer than the number of targets.
    pub fn detect_cycle(&self) -> (r: Option<Vec<String>>)
        requires
            self.wf(),
        ensures
            r is None <==> !has_cycle(self@.nodes),
            r matches Some(c) ==> {
                let p = c.deep_view();
                &&& is_path(self@.nodes, p)
                &&& 2 <= p.len() <= 102
                &&& (p.len() < 102 && p[p.len() - 2] != p[p.len() - 1]) ==> is_cycle(self@.nodes, p)
                &&& p[p.len() - 2] != p[p.len() - 1] ==> p.no_duplicates() && p.len() <= self@.nodes.dom().len()
                &&& p.len() <= self@.nodes.dom().len() + 1
            },
    {
        let g = self.index_graph();
        let found = g.find_cycle();
        match found {
            None => {
                proof {
                    if has_cycle(self@.nodes) {
                        let c = choose|c: Seq<Seq<char>>| is_cycle(self@.nodes, c);
                        self.lemma_cycle_index(g, c);
                    }
                }
                None
            },
            Some(p) => {
                let mut names: Vec<String> = Vec::new();
                let mut k: usize = 0;
                while k < p.len()
                    invariant
                        self.wf(),
                        self.indexes(g),
                        g.is_path(p@),
                        k <= p.len(),
                        names.deep_view() == self.names_of(p@).take(k as int),
                    decreases p.len() - k,
                {
                    assert(p@[k as int] < g.adj.len());
                    let name = self.nodes[p[k]].target.clone();
                    let ghost before = names.deep_view();
                    assert(name@ == self.names_of(p@)[k as int]);
                    names.push(name);
                    assert(names.deep_view() =~= before.push(self.names_of(p@)[k as int]));
                    assert(names.deep_view() =~= self.names_of(p@).take(k + 1));
                    k = k + 1;
                }
                proof {
                    assert(names.deep_view() =~= self.names_of(p@));
                    self.lemma_index_path(g, p@);
                    let w = self.names_of(p@);
                    let m = p@.len();
                    if w[m - 2] != w[m - 1] {
                        assert(p@[m - 2] != p@[m - 1]);
                        assert forall|a: int, b: int| 0 <= a < m && 0 <= b < m && a != b implies w[a] != w[b] by {
                            assert(p@[a] != p@[b]);
                            assert(p@[a] < g.adj.len() && p@[b] < g.adj.len());
                            if w[a] == w[b] {
                                self.lemma_unique_index(p@[a] as int, p@[b] as int);
                            }
                        }
                    }
                    self.lemma_dom_len();
                    let c = choose|c: Seq<usize>| g.is_cycle(c);
                    self.lemma_index_path(g, c);
                    assert(is_cycle(self@.nodes, self.names_of(c)));
                }
                Some(names)
            },
        }
    }
}

/// Why no target can be built.
pub enum TargetError {
    /// The requested name is not a target.
    NoRule(String),
    /// No target was requested and the makefile has no default target.
    NoDefault,
}

impl Dag {
    /// The target to build: the requested one, which must be a target, or
    /// else the default target.
    pub fn build_target(&self, requested: &Option<String>) -> (r: Result<String, TargetError>)
        requires
            self.wf(),
        ensures
            match requested {
                Some(t) => if self@.nodes.contains_key(t@) {
                    r matches Ok(s) && s@ == t@
                } else {
                    r matches Err(TargetError::NoRule(n)) && n@ == t@
                },
                None => match self@.default_target {
                    Some(d) => r matches Ok(s) && s@ == d,
                    None => r matches Err(TargetError::NoDefault),
                },
            },
    {
        match requested {
            Some(t) => if self.contains_node(t.as_str()) {
                Ok(t.clone())
            } else {
                Err(TargetError::NoRule(t.clone()))
            },
            None => match self.default_target() {
                Some(d) => Ok(d.clone()),
                None => Err(TargetError::NoDefault),
            },
        }
    }
}

impl View for Dag {
    type V = DagView;

    closed spec fn view(&self) -> DagView {
        DagView {
            nodes: seq_to_map(self.entries()),
            variables: self.variables@,
            default_target: match self.default_target {
                Some(s) => Some(s@),
                None => None,
            },
        }
    }
}

} // verus!
