//! Reading a makefile into the dependency graph.
use vstd::prelude::*;
use crate::dag::{phony_name, starts_with_dot, suffixes_name, Dag, DagView};
use crate::text::{
    chars_of, concat_chars, copy_range, find_char, find_from, first_index, has_char, lines, same_chars, split_lines,
    split_words, split_ws, string_of, trim, trim_chars, trim_end, trim_start, views, is_ws, lemma_find_from,
    lemma_trim_after_trim_end, lemma_trim_end_concat, lemma_trim_end_prefix, lemma_trim_start_nonws,
};

verus! {

broadcast use vstd::string::group_string_axioms;

/// What the reader carries from one line to the next.
pub struct ParseState {
    /// The graph built so far.
    pub dag: DagView,
    /// The target that recipe lines currently belong to (empty: none).
    pub cur: Seq<char>,
    /// The names listed as prerequisites of `.PHONY`.
    pub phony: Seq<Seq<char>>,
    /// A recipe line continued with a backslash, not yet complete.
    pub pending: Option<Seq<char>>,
}

/// Adds the pending recipe line, trimmed, to the current target; drops it
/// when there is no current target or it is blank.
pub open spec fn flush(st: ParseState) -> ParseState {
    match st.pending {
        Some(cmd) => if st.cur.len() > 0 && trim(cmd).len() > 0 {
            ParseState { dag: st.dag.add_recipe(st.cur, trim(cmd)), pending: None, ..st }
        } else {
            ParseState { pending: None, ..st }
        },
        None => st,
    }
}

/// A line that begins with a tab: a recipe line of the current target. A
/// trailing backslash continues it on the next recipe line, joined by a
/// newline.
pub open spec fn recipe_line(st: ParseState, raw: Seq<char>) -> ParseState {
    let t = trim(raw);
    if t.len() > 0 && st.cur.len() > 0 {
        let prev = match st.pending {
            Some(p) => p,
            None => seq![],
        };
        if t.last() == '\\' {
            ParseState { pending: Some(prev + t.drop_last() + seq!['\n']), ..st }
        } else {
            ParseState { dag: st.dag.add_recipe(st.cur, prev + t), pending: None, ..st }
        }
    } else {
        st
    }
}

/// The operator character that ends `lhs`, the text before an `=`: `:`,
/// `?` or `+`.
pub open spec fn is_op_char(c: char) -> bool {
    c == ':' || c == '?' || c == '+'
}

/// `NAME = value`, `NAME := value`, `NAME ?= value` or `NAME += value`: a
/// name without spaces, then an operator written right before the first
/// `=` (`a : = b` has no operator, and its name `a :` holds a space). Gives the
/// name, the operator (`=`, `:`, `?` or `+`) and the trimmed value.
pub open spec fn assignment(t: Seq<char>) -> Option<(Seq<char>, char, Seq<char>)> {
    match first_index(t, '=') {
        Some(eq) => {
            let before = t.subrange(0, eq);
            let rhs = trim(t.subrange(eq + 1, t.len() as int));
            let op = if before.len() > 0 && is_op_char(before.last()) {
                before.last()
            } else {
                '='
            };
            let name = if op == '=' {
                trim(before)
            } else {
                trim(before.drop_last())
            };
            if name.len() > 0 && !name.contains(' ') && !name.contains('=') {
                Some((name, op, rhs))
            } else {
                None
            }
        },
        None => None,
    }
}

/// Marks each of `names` as a phony target, adding those that are new.
pub open spec fn ensure_phonies(d: DagView, names: Seq<Seq<char>>) -> DagView
    decreases names.len(),
{
    if names.len() == 0 {
        d
    } else {
        ensure_phonies(d, names.drop_last()).ensure_node(names.last(), true)
    }
}

/// Makes `t` depend on each of `names` in turn.
pub open spec fn add_prereqs(d: DagView, t: Seq<char>, names: Seq<Seq<char>>) -> DagView
    decreases names.len(),
{
    if names.len() == 0 {
        d
    } else {
        add_prereqs(d, t, names.drop_last()).add_prereq(t, names.last())
    }
}

/// A rule `target: prerequisites`, where `after` is the text after the colon.
pub open spec fn rule(st: ParseState, target: Seq<char>, after: Seq<char>) -> ParseState {
    let is_phony = target == phony_name();
    let d1 = st.dag.ensure_node(target, is_phony);
    let words = split_ws(trim(after));
    if is_phony {
        ParseState { dag: ensure_phonies(d1, words), cur: target, phony: st.phony + words, ..st }
    } else {
        let d2 = if target != suffixes_name() && !starts_with_dot(target) && d1.default_target is None {
            d1.set_default(target)
        } else {
            d1
        };
        ParseState { dag: add_prereqs(d2, target, words), cur: target, ..st }
    }
}

/// A trimmed line that is neither blank, a comment nor a recipe line.
pub open spec fn other_line(st: ParseState, t: Seq<char>) -> ParseState {
    match assignment(t) {
        Some((name, op, value)) => ParseState { dag: st.dag.assign(name, op, value), cur: seq![], ..st },
        None => match first_index(t, ':') {
            Some(colon) => {
                let after = t.subrange(colon + 1, t.len() as int);
                if after.len() > 0 && after[0] == '=' {
                    ParseState { cur: seq![], ..st }
                } else {
                    rule(st, trim(t.subrange(0, colon)), after)
                }
            },
            None => st,
        },
    }
}

/// One line of the makefile.
pub open spec fn step(st: ParseState, raw: Seq<char>) -> ParseState {
    if raw.len() > 0 && raw[0] == '\t' {
        recipe_line(st, raw)
    } else {
        let st1 = flush(st);
        let t = trim(raw);
        if t.len() == 0 || t[0] == '#' {
            st1
        } else {
            other_line(st1, t)
        }
    }
}

/// The lines of the makefile, one after another.
pub open spec fn parse_lines(st: ParseState, ls: Seq<Seq<char>>) -> ParseState
    decreases ls.len(),
{
    if ls.len() == 0 {
        st
    } else {
        step(parse_lines(st, ls.drop_last()), ls.last())
    }
}

/// Marks each existing target among `names` phony.
pub open spec fn mark_all(d: DagView, names: Seq<Seq<char>>) -> DagView
    decreases names.len(),
{
    if names.len() == 0 {
        d
    } else {
        mark_all(d, names.drop_last()).mark_phony(names.last())
    }
}

/// The graph after reading `content` into `d`.
pub open spec fn spec_parse_makefile(d: DagView, content: Seq<char>) -> DagView {
    let st = flush(
        parse_lines(ParseState { dag: d, cur: seq![], phony: seq![], pending: None }, lines(content)),
    );
    mark_all(st.dag, st.phony)
}

/// `a` is a prefix of `b`.
pub open spec fn is_prefix<A>(a: Seq<A>, b: Seq<A>) -> bool {
    a.len() <= b.len() && forall|i: int| 0 <= i < a.len() ==> a[i] == b[i]
}

/// `b` grows `a`: it has every target of `a`, whose prerequisites and recipe
/// lines it extends and whose phony flag it keeps, every variable of `a`,
/// and, when `a` has a default target, the same one.
pub open spec fn keeps(a: DagView, b: DagView) -> bool {
    &&& a.nodes.dom().subset_of(b.nodes.dom())
    &&& forall|k: Seq<char>| #[trigger] a.nodes.contains_key(k) ==> {
        &&& is_prefix(a.nodes[k].prereqs, b.nodes[k].prereqs)
        &&& is_prefix(a.nodes[k].recipes, b.nodes[k].recipes)
        &&& (a.nodes[k].is_phony ==> b.nodes[k].is_phony)
    }
    &&& a.variables.dom().subset_of(b.variables.dom())
    &&& a.default_target is Some ==> b.default_target == a.default_target
}

proof fn lemma_keeps_trans(a: DagView, b: DagView, c: DagView)
    requires
        keeps(a, b),
        keeps(b, c),
    ensures
        keeps(a, c),
{
    assert forall|k: Seq<char>| #[trigger] a.nodes.contains_key(k) implies {
        &&& is_prefix(a.nodes[k].prereqs, c.nodes[k].prereqs)
        &&& is_prefix(a.nodes[k].recipes, c.nodes[k].recipes)
        &&& (a.nodes[k].is_phony ==> c.nodes[k].is_phony)
    } by {
        assert(b.nodes.contains_key(k));
    }
}

proof fn lemma_keeps_ops(d: DagView, t: Seq<char>, p: Seq<char>, is_phony: bool)
    ensures
        keeps(d, d.ensure_node(t, is_phony)),
        keeps(d, d.add_prereq(t, p)),
        keeps(d, d.add_recipe(t, p)),
        keeps(d, d.set_variable(t, p)),
        forall|op: char| keeps(d, #[trigger] d.assign(t, op, p)),
        keeps(d, d.mark_phony(t)),
        keeps(d, d.set_default(t)),
{
    let d1 = d.ensure_node(t, false);
    let d2 = d1.ensure_node(p, false);
    assert(d2.nodes.contains_key(t));
    assert(d2.push_prereq(t, p).nodes.dom() =~= d2.nodes.dom());
    assert(d1.push_recipe(t, p).nodes.dom() =~= d1.nodes.dom());
}

proof fn lemma_keeps_phonies(d: DagView, names: Seq<Seq<char>>)
    ensures
        keeps(d, ensure_phonies(d, names)),
    decreases names.len(),
{
    if names.len() > 0 {
        let d1 = ensure_phonies(d, names.drop_last());
        lemma_keeps_phonies(d, names.drop_last());
        lemma_keeps_ops(d1, names.last(), names.last(), true);
    }
}

proof fn lemma_keeps_prereqs(d: DagView, t: Seq<char>, names: Seq<Seq<char>>)
    ensures
        keeps(d, add_prereqs(d, t, names)),
    decreases names.len(),
{
    if names.len() > 0 {
        let d1 = add_prereqs(d, t, names.drop_last());
        lemma_keeps_prereqs(d, t, names.drop_last());
        lemma_keeps_ops(d1, t, names.last(), false);
    }
}

proof fn lemma_keeps_marks(d: DagView, names: Seq<Seq<char>>)
    ensures
        keeps(d, mark_all(d, names)),
    decreases names.len(),
{
    if names.len() > 0 {
        let d1 = mark_all(d, names.drop_last());
        lemma_keeps_marks(d, names.drop_last());
        lemma_keeps_ops(d1, names.last(), names.last(), true);
    }
}

proof fn lemma_keeps_flush(st: ParseState)
    ensures
        keeps(st.dag, flush(st).dag),
{
    if let Some(cmd) = st.pending {
        lemma_keeps_ops(st.dag, st.cur, trim(cmd), false);
    }
}

proof fn lemma_keeps_step(st: ParseState, raw: Seq<char>)
    ensures
        keeps(st.dag, step(st, raw).dag),
{
    if raw.len() > 0 && raw[0] == '\t' {
        let t = trim(raw);
        let prev = match st.pending {
            Some(p) => p,
            None => seq![],
        };
        lemma_keeps_ops(st.dag, st.cur, prev + t, false);
    } else {
        let st1 = flush(st);
        lemma_keeps_flush(st);
        let t = trim(raw);
        if !(t.len() == 0 || t[0] == '#') {
            match assignment(t) {
                Some((name, op, value)) => {
                    lemma_keeps_ops(st1.dag, name, value, false);
                    assert(keeps(st1.dag, st1.dag.assign(name, op, value)));
                },
                None => {
                    if let Some(colon) = first_index(t, ':') {
                        let target = trim(t.subrange(0, colon));
                        let after = t.subrange(colon + 1, t.len() as int);
                        let is_phony = target == phony_name();
                        let d1 = st1.dag.ensure_node(target, is_phony);
                        let words = split_ws(trim(after));
                        lemma_keeps_ops(st1.dag, target, target, is_phony);
                        if is_phony {
                            lemma_keeps_phonies(d1, words);
                        } else {
                            let d2 = if target != suffixes_name() && !starts_with_dot(target) && d1.default_target is None {
                                d1.set_default(target)
                            } else {
                                d1
                            };
                            lemma_keeps_ops(d1, target, target, false);
                            lemma_keeps_prereqs(d2, target, words);
                        }
                    }
                },
            }
        }
    }
}

proof fn lemma_keeps_lines(st: ParseState, ls: Seq<Seq<char>>)
    ensures
        keeps(st.dag, parse_lines(st, ls).dag),
    decreases ls.len(),
{
    if ls.len() > 0 {
        lemma_keeps_lines(st, ls.drop_last());
        lemma_keeps_step(parse_lines(st, ls.drop_last()), ls.last());
    }
}

/// Reading a makefile into a graph only grows it: every target already there
/// stays, with its prerequisites and recipe lines extended and its phony
/// flag kept; every variable stays set; and a default target, once there is
/// one, stays the default target.
pub proof fn lemma_parse_keeps(d: DagView, content: Seq<char>)
    ensures
        keeps(d, spec_parse_makefile(d, content)),
{
    let init = ParseState { dag: d, cur: seq![], phony: seq![], pending: None };
    let st = parse_lines(init, lines(content));
    lemma_keeps_lines(init, lines(content));
    lemma_keeps_flush(st);
    lemma_keeps_marks(flush(st).dag, flush(st).phony);
    lemma_keeps_trans(d, st.dag, flush(st).dag);
    lemma_keeps_trans(d, flush(st).dag, mark_all(flush(st).dag, flush(st).phony));
}

/// The target that line `raw` would make the default target: the target of
/// a rule line whose name does not begin with a dot.
pub open spec fn line_default(raw: Seq<char>) -> Option<Seq<char>> {
    let t = trim(raw);
    if raw.len() > 0 && raw[0] == '\t' {
        None
    } else if t.len() == 0 || t[0] == '#' || assignment(t) is Some {
        None
    } else {
        match first_index(t, ':') {
            Some(colon) => {
                let after = t.subrange(colon + 1, t.len() as int);
                let target = trim(t.subrange(0, colon));
                if after.len() > 0 && after[0] == '=' {
                    None
                } else if target == phony_name() || target == suffixes_name() || starts_with_dot(target) {
                    None
                } else {
                    Some(target)
                }
            },
            None => None,
        }
    }
}

/// The target of the first line among `ls` that makes one the default.
pub open spec fn first_default(ls: Seq<Seq<char>>) -> Option<Seq<char>>
    decreases ls.len(),
{
    if ls.len() == 0 {
        None
    } else if first_default(ls.drop_last()) is Some {
        first_default(ls.drop_last())
    } else {
        line_default(ls.last())
    }
}

proof fn lemma_prereqs_no_default(d: DagView, t: Seq<char>, names: Seq<Seq<char>>)
    requires
        d.default_target is None,
        starts_with_dot(t),
    ensures
        add_prereqs(d, t, names).default_target is None,
    decreases names.len(),
{
    if names.len() > 0 {
        lemma_prereqs_no_default(d, t, names.drop_last());
    }
}

proof fn lemma_phonies_default(d: DagView, names: Seq<Seq<char>>)
    ensures
        ensure_phonies(d, names).default_target == d.default_target,
    decreases names.len(),
{
    if names.len() > 0 {
        lemma_phonies_default(d, names.drop_last());
    }
}

proof fn lemma_step_default(st: ParseState, raw: Seq<char>)
    ensures
        st.dag.default_target is None ==> step(st, raw).dag.default_target == line_default(raw),
{
    lemma_keeps_step(st, raw);
    if st.dag.default_target is None && !(raw.len() > 0 && raw[0] == '\t') {
        let st1 = flush(st);
        lemma_keeps_flush(st);
        assert(st1.dag.default_target is None);
        let t = trim(raw);
        if !(t.len() == 0 || t[0] == '#') && assignment(t) is None {
            if let Some(colon) = first_index(t, ':') {
                let after = t.subrange(colon + 1, t.len() as int);
                let target = trim(t.subrange(0, colon));
                if !(after.len() > 0 && after[0] == '=') {
                    let is_phony = target == phony_name();
                    let d1 = st1.dag.ensure_node(target, is_phony);
                    let words = split_ws(trim(after));
                    if is_phony {
                        lemma_phonies_default(d1, words);
                    } else if target != suffixes_name() && !starts_with_dot(target) {
                        lemma_keeps_prereqs(d1.set_default(target), target, words);
                    } else {
                        assert(starts_with_dot(target)) by {
                            assert(suffixes_name()[0] == '.');
                        }
                        lemma_prereqs_no_default(d1, target, words);
                    }
                }
            }
        }
    }
}

proof fn lemma_lines_default(st: ParseState, ls: Seq<Seq<char>>)
    requires
        st.dag.default_target is None,
    ensures
        parse_lines(st, ls).dag.default_target == first_default(ls),
    decreases ls.len(),
{
    if ls.len() > 0 {
        lemma_lines_default(st, ls.drop_last());
        let prev = parse_lines(st, ls.drop_last());
        lemma_step_default(prev, ls.last());
        lemma_keeps_step(prev, ls.last());
    }
}

/// Reading a makefile into a graph without a default target makes the
/// target of its first rule line whose target does not begin with a dot the
/// default target, and leaves none when there is no such line.
pub proof fn lemma_default_is_first_rule(d: DagView, content: Seq<char>)
    requires
        d.default_target is None,
    ensures
        spec_parse_makefile(d, content).default_target == first_default(lines(content)),
{
    let init = ParseState { dag: d, cur: seq![], phony: seq![], pending: None };
    let st = parse_lines(init, lines(content));
    lemma_lines_default(init, lines(content));
    lemma_keeps_flush(st);
    lemma_keeps_marks(flush(st).dag, flush(st).phony);
    if st.dag.default_target is None {
        assert(flush(st).dag.default_target is None);
        lemma_marks_default(flush(st).dag, flush(st).phony);
    }
}

proof fn lemma_marks_default(d: DagView, names: Seq<Seq<char>>)
    ensures
        mark_all(d, names).default_target == d.default_target,
    decreases names.len(),
{
    if names.len() > 0 {
        lemma_marks_default(d, names.drop_last());
    }
}

/// Reading lines `a` and then lines `b` is reading `a + b`.
pub proof fn lemma_parse_lines_append(st: ParseState, a: Seq<Seq<char>>, b: Seq<Seq<char>>)
    ensures
        parse_lines(st, a + b) == parse_lines(parse_lines(st, a), b),
    decreases b.len(),
{
    if b.len() == 0 {
        assert(a + b =~= a);
    } else {
        assert((a + b).drop_last() =~= a + b.drop_last());
        assert((a + b).last() == b.last());
        lemma_parse_lines_append(st, a, b.drop_last());
    }
}

/// A comment line (one whose trimmed text begins with `#`, not led by a
/// tab) changes nothing when no continued recipe line is pending: reading
/// `before`, the comment and `after` gives what reading `before` and
/// `after` gives. In particular the rule above the comment keeps the recipe
/// lines that follow it.
pub proof fn lemma_comment_line_is_neutral(
    st: ParseState,
    before: Seq<Seq<char>>,
    comment: Seq<char>,
    after: Seq<Seq<char>>,
)
    requires
        !(comment.len() > 0 && comment[0] == '\t'),
        trim(comment).len() > 0,
        trim(comment)[0] == '#',
        parse_lines(st, before).pending is None,
    ensures
        parse_lines(st, before.push(comment) + after) == parse_lines(st, before + after),
{
    let mid = parse_lines(st, before);
    assert(before.push(comment).drop_last() =~= before);
    assert(parse_lines(st, before.push(comment)) == step(mid, comment));
    assert(step(mid, comment) == mid);
    lemma_parse_lines_append(st, before.push(comment), after);
    lemma_parse_lines_append(st, before, after);
}

/// An assignment line `n=v`, where `n` begins with neither whitespace nor
/// `#`, holds no `=`, does not end in `:`, `?` or `+`, and trims to a name
/// without spaces, sets variable `trim(n)` to the whole of `v` trimmed (an
/// `=` in `v` included), keeps every other variable, and leaves no current
/// rule.
pub proof fn lemma_assignment_sets_whole_value(st: ParseState, n: Seq<char>, v: Seq<char>)
    requires
        n.len() > 0,
        !is_ws(n[0]),
        n[0] != '#',
        !n.contains('='),
        !is_op_char(n.last()),
        !trim(n).contains(' '),
    ensures
        step(st, n + seq!['='] + v).dag.variables == st.dag.variables.insert(trim(n), trim(v)),
        step(st, n + seq!['='] + v).cur == Seq::<char>::empty(),
{
    let line = n + seq!['='] + v;
    let ne = n + seq!['='];
    assert(line =~= ne + v);
    assert(line[0] == n[0]);
    lemma_trim_start_nonws(line);
    lemma_trim_end_concat(ne, v);
    let t = trim(line);
    assert(t == ne + trim_end(v));
    assert(t[0] == n[0]);
    // the first '=' of t is the one after n
    lemma_find_from(t, '=', 0);
    assert forall|k: int| 0 <= k < n.len() implies t[k] != '=' by {
        assert(t[k] == n[k]);
        if n[k] == '=' {
            assert(n.contains('='));
        }
    }
    assert(t[n.len() as int] == '=');
    assert(first_index(t, '=') == Some(n.len() as int)) by {
        let f = find_from(t, '=', 0);
        if f < n.len() {
            assert(t[f] != '=');
        }
        if f > n.len() {
            assert(t[n.len() as int] != '=');
        }
    }
    assert(t.subrange(0, n.len() as int) =~= n);
    assert(t.subrange(n.len() + 1int, t.len() as int) =~= trim_end(v));
    lemma_trim_after_trim_end(v);
    // the name is trim(n): nonempty and without '='
    lemma_trim_start_nonws(n);
    lemma_trim_end_concat(seq![n[0]], n.drop_first());
    assert(seq![n[0]] + n.drop_first() =~= n);
    lemma_trim_end_prefix(n);
    assert(!trim(n).contains('=')) by {
        if trim(n).contains('=') {
            let k = choose|k: int| 0 <= k < trim(n).len() && trim(n)[k] == '=';
            assert(n[k] == '=');
            assert(n.contains('='));
        }
    }
    assert(assignment(t) == Some((trim(n), '=', trim(v))));
    let st1 = flush(st);
    assert(st1.dag.variables == st.dag.variables);
}

/// The pending recipe as plain values.
pub open spec fn opt_view(o: Option<Vec<char>>) -> Option<Seq<char>> {
    match o {
        Some(v) => Some(v@),
        None => None,
    }
}

/// The reader's state as plain values.
pub open spec fn state_of(d: DagView, cur: Seq<char>, phony: Seq<Vec<char>>, pending: Option<Vec<char>>) -> ParseState {
    ParseState { dag: d, cur, phony: views(phony), pending: opt_view(pending) }
}

fn phony_chars() -> (v: Vec<char>)
    ensures
        v@ == phony_name(),
{
    let v = vec!['.', 'P', 'H', 'O', 'N', 'Y'];
    assert(v@ =~= phony_name());
    v
}

fn suffixes_chars() -> (v: Vec<char>)
    ensures
        v@ == suffixes_name(),
{
    let v = vec!['.', 'S', 'U', 'F', 'F', 'I', 'X', 'E', 'S'];
    assert(v@ =~= suffixes_name());
    v
}

fn flush_pending(dag: &mut Dag, cur: &Vec<char>, pending: &mut Option<Vec<char>>)
    requires
        old(dag).wf(),
    ensures
        final(dag).wf(),
        final(dag)@ == flush(ParseState { dag: old(dag)@, cur: cur@, phony: seq![], pending: opt_view(*old(pending)) }).dag,
        *final(pending) is None,
{
    match pending.take() {
        Some(cmd) => {
            let t = trim_chars(&cmd);
            if cur.len() > 0 && t.len() > 0 {
                let c = string_of(cur);
                let r = string_of(&t);
                dag.add_recipe(c.as_str(), r.as_str());
            }
        },
        None => {},
    }
}

fn read_recipe_line(dag: &mut Dag, cur: &Vec<char>, pending: &mut Option<Vec<char>>, raw: &Vec<char>)
    requires
        old(dag).wf(),
    ensures
        final(dag).wf(),
        final(dag)@ == recipe_line(ParseState { dag: old(dag)@, cur: cur@, phony: seq![], pending: opt_view(*old(pending)) }, raw@).dag,
        opt_view(*final(pending)) == recipe_line(ParseState { dag: old(dag)@, cur: cur@, phony: seq![], pending: opt_view(*old(pending)) }, raw@).pending,
{
    let t = trim_chars(raw);
    if t.len() > 0 && cur.len() > 0 {
        let prev = match pending.take() {
            Some(p) => p,
            None => Vec::new(),
        };
        if t[t.len() - 1] == '\\' {
            let body = copy_range(&t, 0, t.len() - 1);
            let mut joined = concat_chars(&prev, &body);
            joined.push('\n');
            assert(joined@ =~= prev@ + t@.drop_last() + seq!['\n']);
            *pending = Some(joined);
        } else {
            let cmd = concat_chars(&prev, &t);
            let c = string_of(cur);
            let r = string_of(&cmd);
            dag.add_recipe(c.as_str(), r.as_str());
            *pending = None;
        }
    }
}

fn add_phonies(dag: &mut Dag, phony: &mut Vec<Vec<char>>, words: &Vec<Vec<char>>)
    requires
        old(dag).wf(),
    ensures
        final(dag).wf(),
        final(dag)@ == ensure_phonies(old(dag)@, views(words@)),
        views(final(phony)@) == views(old(phony)@) + views(words@),
{
    let mut k: usize = 0;
    while k < words.len()
        invariant
            k <= words.len(),
            dag.wf(),
            dag@ == ensure_phonies(old(dag)@, views(words@).take(k as int)),
            views(phony@) == views(old(phony)@) + views(words@).take(k as int),
        decreases words.len() - k,
    {
        let name = string_of(&words[k]);
        dag.ensure_node(name.as_str(), true);
        let ghost before = phony@;
        phony.push(copy_range(&words[k], 0, words[k].len()));
        proof {
            assert(words@[k as int]@.subrange(0, words@[k as int]@.len() as int) == words@[k as int]@);
            assert(views(words@).take(k + 1).drop_last() == views(words@).take(k as int));
            assert(views(phony@) == views(before).push(words@[k as int]@));
            assert(views(words@).take(k + 1) == views(words@).take(k as int).push(words@[k as int]@));
            assert(views(old(phony)@) + views(words@).take(k + 1) == (views(old(phony)@) + views(words@).take(k as int)).push(words@[k as int]@));
        }
        k = k + 1;
    }
    assert(views(words@).take(words.len() as int) == views(words@));
}

fn add_prereq_words(dag: &mut Dag, target: &str, words: &Vec<Vec<char>>)
    requires
        old(dag).wf(),
    ensures
        final(dag).wf(),
        final(dag)@ == add_prereqs(old(dag)@, target@, views(words@)),
{
    let mut k: usize = 0;
    while k < words.len()
        invariant
            k <= words.len(),
            dag.wf(),
            dag@ == add_prereqs(old(dag)@, target@, views(words@).take(k as int)),
        decreases words.len() - k,
    {
        let name = string_of(&words[k]);
        dag.add_prereq(target, name.as_str());
        assert(views(words@).take(k + 1).drop_last() == views(words@).take(k as int));
        k = k + 1;
    }
    assert(views(words@).take(words.len() as int) == views(words@));
}

fn read_rule(dag: &mut Dag, cur: &mut Vec<char>, phony: &mut Vec<Vec<char>>, target: Vec<char>, after: &Vec<char>)
    requires
        old(dag).wf(),
    ensures
        final(dag).wf(),
        state_of(final(dag)@, final(cur)@, final(phony)@, None) == rule(
            state_of(old(dag)@, old(cur)@, old(phony)@, None),
            target@,
            after@,
        ),
{
    let t = string_of(&target);
    let pn = phony_chars();
    let is_phony = same_chars(&target, &pn);
    dag.ensure_node(t.as_str(), is_phony);
    let prereqs_part = trim_chars(after);
    let words = split_words(&prereqs_part);
    if is_phony {
        add_phonies(dag, phony, &words);
    } else {
        let sn = suffixes_chars();
        if !same_chars(&target, &sn) && !(target.len() > 0 && target[0] == '.') && dag.default_target().is_none() {
            dag.set_default(t.as_str());
        }
        if prereqs_part.len() > 0 {
            add_prereq_words(dag, t.as_str(), &words);
        } else {
            assert(views(words@) =~= Seq::<Seq<char>>::empty());
        }
    }
    *cur = target;
}

fn read_other_line(dag: &mut Dag, cur: &mut Vec<char>, phony: &mut Vec<Vec<char>>, t: &Vec<char>)
    requires
        old(dag).wf(),
    ensures
        final(dag).wf(),
        state_of(final(dag)@, final(cur)@, final(phony)@, None) == other_line(
            state_of(old(dag)@, old(cur)@, old(phony)@, None),
            t@,
        ),
{
    match find_char(t, '=') {
        Some(eq) => {
            let before = copy_range(t, 0, eq);
            let rhs = trim_chars(&copy_range(t, eq + 1, t.len()));
            let n = before.len();
            let op = if n > 0 && (before[n - 1] == ':' || before[n - 1] == '?' || before[n - 1] == '+') {
                before[n - 1]
            } else {
                '='
            };
            let name = if op == '=' {
                trim_chars(&before)
            } else {
                trim_chars(&copy_range(&before, 0, n - 1))
            };
            if name.len() > 0 && !has_char(&name, ' ') && !has_char(&name, '=') {
                let name = string_of(&name);
                let value = string_of(&rhs);
                dag.assign(name.as_str(), op, value);
                *cur = Vec::new();
                assert(cur@ =~= Seq::<char>::empty());
                return;
            }
        },
        None => {},
    }
    match find_char(t, ':') {
        Some(colon) => {
            let after = copy_range(t, colon + 1, t.len());
            if after.len() > 0 && after[0] == '=' {
                *cur = Vec::new();
                assert(cur@ =~= Seq::<char>::empty());
                return;
            }
            let target = trim_chars(&copy_range(t, 0, colon));
            read_rule(dag, cur, phony, target, &after);
        },
        None => {},
    }
}

/// Reads the makefile text `content` into `dag`: variable assignments,
/// rules with their prerequisites, tab-indented recipe lines (a trailing
/// backslash continues one on the next line) and `.PHONY` declarations.
/// Variable assignments are read with `=`, `:=`, `?=` and `+=`; comment
/// lines and blank lines are skipped.
pub fn parse_makefile(content: &str, dag: &mut Dag) -> (r: Result<(), String>)
    requires
        old(dag).wf(),
    ensures
        r is Ok,
        final(dag).wf(),
        final(dag)@ == spec_parse_makefile(old(dag)@, content@),
{
    let chars = chars_of(content);
    let ls = split_lines(&chars);
    let ghost init = ParseState { dag: dag@, cur: seq![], phony: seq![], pending: None };
    let mut cur: Vec<char> = Vec::new();
    let mut phony: Vec<Vec<char>> = Vec::new();
    let mut pending: Option<Vec<char>> = None;
    let mut i: usize = 0;
    assert(views(phony@) =~= Seq::<Seq<char>>::empty());
    assert(views(ls@).take(0) =~= Seq::<Seq<char>>::empty());
    while i < ls.len()
        invariant
            i <= ls.len(),
            dag.wf(),
            views(ls@) == lines(content@),
            state_of(dag@, cur@, phony@, pending) == parse_lines(init, views(ls@).take(i as int)),
        decreases ls.len() - i,
    {
        let raw = &ls[i];
        let ghost st = state_of(dag@, cur@, phony@, pending);
        assert(views(ls@).take(i + 1).drop_last() == views(ls@).take(i as int));
        assert(views(ls@)[i as int] == raw@);
        if raw.len() > 0 && raw[0] == '\t' {
            read_recipe_line(dag, &cur, &mut pending, raw);
        } else {
            flush_pending(dag, &cur, &mut pending);
            let t = trim_chars(raw);
            if t.len() == 0 || t[0] == '#' {
            } else {
                read_other_line(dag, &mut cur, &mut phony, &t);
            }
        }
        assert(state_of(dag@, cur@, phony@, pending) == step(st, raw@));
        i = i + 1;
    }
    assert(views(ls@).take(ls.len() as int) == views(ls@));
    flush_pending(dag, &cur, &mut pending);
    let ghost st = flush(state_of(dag@, cur@, phony@, pending));
    let mut k: usize = 0;
    while k < phony.len()
        invariant
            k <= phony.len(),
            dag.wf(),
            st.phony == views(phony@),
            dag@ == mark_all(st.dag, views(phony@).take(k as int)),
        decreases phony.len() - k,
    {
        let name = string_of(&phony[k]);
        dag.mark_phony(name.as_str());
        assert(views(phony@).take(k + 1).drop_last() == views(phony@).take(k as int));
        k = k + 1;
    }
    assert(views(phony@).take(phony.len() as int) == views(phony@));
    Ok(())
}

} // verus!
