//! Running the recipes of the targets in build order, as a state machine:
//! the library decides, the caller performs the outside work (checking
//! modification times, resolving shell and wildcard calls, printing and
//! running commands) and reports back.
use vstd::prelude::*;
use crate::dag::{DagNode, NodeView};
use crate::expand::{count_outside, expand_segments, render, render_segments, seg_views, spec_segments, SegView, Segment};
use crate::text::{chars_of, copy_range, string_of};
use crate::vars::VarTable;

verus! {

broadcast use vstd::string::group_string_axioms;

/// Runs recipes: stop at the first failure unless `keep_going`; with
/// `dry_run`, print the commands without running them (but those marked
/// `+`); with `ignore_errors`, failing commands are not errors; with
/// `silent`, echo nothing; with `touch`, touch the targets to rebuild instead
/// of running their recipes; with `question`, run nothing and only tell
/// whether everything is up to date.
pub struct Executor {
    pub keep_going: bool,
    pub dry_run: bool,
    pub errors: usize,
    pub variables: VarTable,
    pub ignore_errors: bool,
    pub silent: bool,
    pub touch: bool,
    pub question: bool,
}

/// The executor as plain values.
pub struct ExecView {
    pub keep_going: bool,
    pub dry_run: bool,
    pub errors: usize,
    pub variables: Map<Seq<char>, Seq<char>>,
    pub ignore_errors: bool,
    pub silent: bool,
    pub touch: bool,
    pub question: bool,
}

impl View for Executor {
    type V = ExecView;

    open spec fn view(&self) -> ExecView {
        ExecView {
            keep_going: self.keep_going,
            dry_run: self.dry_run,
            errors: self.errors,
            variables: self.variables@,
            ignore_errors: self.ignore_errors,
            silent: self.silent,
            touch: self.touch,
            question: self.question,
        }
    }
}

/// Where a run stands.
#[derive(Clone, Copy, PartialEq, Eq, Structural)]
pub enum Phase {
    /// About to look at target `node`.
    Next,
    /// Waiting to hear whether target `node` must be rebuilt.
    Checking,
    /// Waiting for the results of the outside calls in recipe line `recipe`.
    Resolving,
    /// Waiting for the exit status of recipe line `recipe`.
    Running,
    /// Waiting for the failure of target `node` to be reported.
    Failing,
    /// Waiting for target `node` to be touched.
    Touching,
    /// The run is over.
    Finished,
}

/// The position of a run.
#[derive(Clone, Copy, PartialEq, Eq, Structural)]
pub struct RunState {
    pub node: usize,
    pub recipe: usize,
    pub built: bool,
    pub phase: Phase,
}

/// What the caller reports back.
pub enum Event {
    /// Go on (at the start, and after a failure was reported).
    Continue,
    /// Whether the target asked about must be rebuilt.
    Rebuild(bool),
    /// The results of the outside calls asked for, in order.
    Resolved(Vec<String>),
    /// The exit status of the command (0 when it was not run).
    Exited(i32),
}

/// An event as plain values.
pub enum EventView {
    Continue,
    Rebuild(bool),
    Resolved(Seq<Seq<char>>),
    Exited(i32),
}

impl View for Event {
    type V = EventView;

    open spec fn view(&self) -> EventView {
        match self {
            Event::Continue => EventView::Continue,
            Event::Rebuild(b) => EventView::Rebuild(*b),
            Event::Resolved(v) => EventView::Resolved(v.deep_view()),
            Event::Exited(c) => EventView::Exited(*c),
        }
    }
}

/// What the caller must do next.
pub enum Action {
    /// Find out whether target number `0` must be rebuilt; answer `Rebuild`.
    Check(usize),
    /// Resolve the wildcard and shell calls among these segments, in order;
    /// answer `Resolved`.
    Resolve(Vec<Segment>),
    /// Print `text` when `echo`; run it when `execute`; answer `Exited`.
    Run { text: String, echo: bool, execute: bool },
    /// Report that a command of `target` failed with `code`; answer `Continue`.
    Fail { target: String, code: i32 },
    /// Touch the file `target` instead of running its recipe; answer `Continue`.
    Touch { target: String },
    /// The run is over and succeeded when `ok`; when `nothing_for` names a
    /// target, nothing had to be done for it.
    Finish { ok: bool, nothing_for: Option<String> },
}

/// An action as plain values.
pub enum ActionView {
    Check(usize),
    Resolve(Seq<SegView>),
    Run { text: Seq<char>, echo: bool, execute: bool },
    Fail { target: Seq<char>, code: i32 },
    Touch { target: Seq<char> },
    Finish { ok: bool, nothing_for: Option<Seq<char>> },
}

impl View for Action {
    type V = ActionView;

    open spec fn view(&self) -> ActionView {
        match self {
            Action::Check(i) => ActionView::Check(*i),
            Action::Resolve(s) => ActionView::Resolve(seg_views(s@)),
            Action::Run { text, echo, execute } => ActionView::Run { text: text@, echo: *echo, execute: *execute },
            Action::Fail { target, code } => ActionView::Fail { target: target@, code: *code },
            Action::Touch { target } => ActionView::Touch { target: target@ },
            Action::Finish { ok, nothing_for } => ActionView::Finish {
                ok: *ok,
                nothing_for: match nothing_for {
                    Some(t) => Some(t@),
                    None => None,
                },
            },
        }
    }
}

/// A character of the prefix of a recipe line: `@` (silent), `-` (ignore
/// errors) or `+` (always run).
pub open spec fn is_prefix_char(c: char) -> bool {
    c == '@' || c == '-' || c == '+'
}

/// The end of the run of prefix characters that starts at `i`.
pub open spec fn prefix_end(line: Seq<char>, i: int) -> int
    decreases line.len() - i,
{
    if 0 <= i < line.len() && is_prefix_char(line[i]) {
        prefix_end(line, i + 1)
    } else {
        i
    }
}

/// Bounds of `prefix_end`.
pub proof fn lemma_prefix_end(line: Seq<char>, i: int)
    requires
        0 <= i <= line.len(),
    ensures
        i <= prefix_end(line, i) <= line.len(),
        forall|k: int| i <= k < prefix_end(line, i) ==> is_prefix_char(#[trigger] line[k]),
    decreases line.len() - i,
{
    if i < line.len() && is_prefix_char(line[i]) {
        lemma_prefix_end(line, i + 1);
    }
}

/// The prefix characters at the start of a recipe line.
pub open spec fn prefix_of(line: Seq<char>) -> Seq<char> {
    line.subrange(0, prefix_end(line, 0))
}

/// A recipe line is echoed unless its prefix holds `@`.
pub open spec fn echo_of(line: Seq<char>) -> bool {
    !prefix_of(line).contains('@')
}

/// A failure of a recipe line whose prefix holds `-` is ignored.
pub open spec fn ignores_error(line: Seq<char>) -> bool {
    prefix_of(line).contains('-')
}

/// A recipe line whose prefix holds `+` runs even in a dry run.
pub open spec fn always_runs(line: Seq<char>) -> bool {
    prefix_of(line).contains('+')
}

/// The command of a recipe line: what follows its prefix.
pub open spec fn command_of(line: Seq<char>) -> Seq<char> {
    line.subrange(prefix_end(line, 0), line.len() as int)
}

/// Recipe line `r` of target `i` is run as a command (not only printed).
pub open spec fn executes(e: ExecView, nodes: Seq<NodeView>, i: int, r: int) -> bool {
    !e.dry_run || always_runs(nodes[i].recipes[r])
}

/// Exit status `code` of recipe line `r` of target `i` is an error.
pub open spec fn fails_with(e: ExecView, nodes: Seq<NodeView>, i: int, r: int, code: i32) -> bool {
    executes(e, nodes, i, r) && code != 0 && !e.ignore_errors && !ignores_error(nodes[i].recipes[r])
}

/// Whether the run so far has succeeded: no error, and (asking only whether
/// everything is up to date) nothing needed rebuilding.
pub open spec fn run_succeeded(e: ExecView, st: RunState) -> bool {
    e.errors == 0 && !(e.question && st.built)
}

/// The exit status that an event reports (0 for any other event).
pub open spec fn code_of(ev: EventView) -> i32 {
    match ev {
        EventView::Exited(c) => c,
        _ => 0,
    }
}

/// The views of the targets to run.
pub open spec fn node_views(nodes: Seq<&DagNode>) -> Seq<NodeView> {
    nodes.map_values(|n: &DagNode| n@)
}

/// Recipe line `r` of target `i` can be read.
pub open spec fn line_ok(e: ExecView, nodes: Seq<NodeView>, i: int, r: int) -> bool {
    spec_segments(command_of(nodes[i].recipes[r]), nodes[i], e.variables) is Some
}

/// The recipe line that this step starts, if it starts one, can be read.
pub open spec fn step_reads_ok(e: ExecView, nodes: Seq<NodeView>, st: RunState, ev: EventView) -> bool {
    let i = st.node as int;
    let r = st.recipe as int;
    match st.phase {
        Phase::Checking => (ev matches EventView::Rebuild(b) && b && nodes[i].recipes.len() > 0 && !e.question
            && !e.touch) ==> line_ok(e, nodes, i, 0),
        Phase::Running => (!fails_with(e, nodes, i, r, code_of(ev)) && r + 1 < nodes[i].recipes.len()) ==> line_ok(
            e,
            nodes,
            i,
            r + 1,
        ),
        _ => true,
    }
}

/// The segments of recipe line `r` of target `i`.
pub open spec fn segs_of(e: ExecView, nodes: Seq<NodeView>, i: int, r: int) -> Seq<SegView> {
    spec_segments(command_of(nodes[i].recipes[r]), nodes[i], e.variables)->0
}

/// The state and action once target `i` is next.
pub open spec fn next_from(e: ExecView, nodes: Seq<NodeView>, st: RunState, i: int) -> (ExecView, RunState, ActionView) {
    if i >= nodes.len() {
        (
            e,
            RunState { node: i as usize, recipe: 0, phase: Phase::Finished, ..st },
            ActionView::Finish {
                ok: run_succeeded(e, st),
                nothing_for: if !st.built && nodes.len() > 0 && !e.question {
                    Some(nodes[0].target)
                } else {
                    None
                },
            },
        )
    } else {
        (e, RunState { node: i as usize, recipe: 0, phase: Phase::Checking, ..st }, ActionView::Check(i as usize))
    }
}

/// The state and action that start recipe line `r` of target `i`.
pub open spec fn start_recipe(e: ExecView, nodes: Seq<NodeView>, st: RunState, i: int, r: int) -> (
    ExecView,
    RunState,
    ActionView,
) {
    let segs = segs_of(e, nodes, i, r);
    let st2 = RunState { node: i as usize, recipe: r as usize, ..st };
    if count_outside(segs) > 0 {
        (e, RunState { phase: Phase::Resolving, ..st2 }, ActionView::Resolve(segs))
    } else {
        (
            e,
            RunState { phase: Phase::Running, ..st2 },
            ActionView::Run {
                text: render(segs, seq![]),
                echo: echo_of(nodes[i].recipes[r]) && !e.silent,
                execute: executes(e, nodes, i, r),
            },
        )
    }
}

/// One step of a run: the event that answers the last action leads to a new
/// state and the next action.
pub open spec fn spec_step(e: ExecView, nodes: Seq<NodeView>, st: RunState, ev: EventView) -> (
    ExecView,
    RunState,
    ActionView,
) {
    let i = st.node as int;
    let r = st.recipe as int;
    match st.phase {
        Phase::Next => next_from(e, nodes, st, i),
        Phase::Checking => match ev {
            EventView::Rebuild(b) => if !b || nodes[i].recipes.len() == 0 {
                next_from(e, nodes, st, i + 1)
            } else if e.question {
                (
                    e,
                    RunState { built: true, phase: Phase::Finished, ..st },
                    ActionView::Finish { ok: false, nothing_for: None },
                )
            } else if e.touch {
                (e, RunState { built: true, phase: Phase::Touching, ..st }, ActionView::Touch { target: nodes[i].target })
            } else {
                start_recipe(e, nodes, RunState { built: true, ..st }, i, 0)
            },
            _ => (e, st, ActionView::Check(st.node)),
        },
        Phase::Resolving => match ev {
            EventView::Resolved(outs) => (
                e,
                RunState { phase: Phase::Running, ..st },
                ActionView::Run {
                    text: render(segs_of(e, nodes, i, r), outs),
                    echo: echo_of(nodes[i].recipes[r]) && !e.silent,
                    execute: executes(e, nodes, i, r),
                },
            ),
            _ => (e, st, ActionView::Resolve(segs_of(e, nodes, i, r))),
        },
        Phase::Running => {
            let code = code_of(ev);
            if fails_with(e, nodes, i, r, code) {
                (
                    ExecView { errors: (e.errors + 1) as usize, ..e },
                    RunState { phase: Phase::Failing, ..st },
                    ActionView::Fail { target: nodes[i].target, code },
                )
            } else if r + 1 < nodes[i].recipes.len() {
                start_recipe(e, nodes, st, i, r + 1)
            } else {
                next_from(e, nodes, st, i + 1)
            }
        },
        Phase::Failing => if e.keep_going {
            next_from(e, nodes, st, i + 1)
        } else {
            (e, RunState { phase: Phase::Finished, ..st }, ActionView::Finish { ok: false, nothing_for: None })
        },
        Phase::Touching => next_from(e, nodes, st, i + 1),
        Phase::Finished => (e, st, ActionView::Finish { ok: run_succeeded(e, st), nothing_for: None }),
    }
}

/// A consistent position: the target and recipe line being worked on exist,
/// and at most one error was counted per target passed.
pub open spec fn run_ok(e: ExecView, nodes: Seq<NodeView>, st: RunState) -> bool {
    &&& st.node <= nodes.len()
    &&& (st.phase is Checking || st.phase is Resolving || st.phase is Running || st.phase is Failing
        || st.phase is Touching) ==> st.node < nodes.len()
    &&& (st.phase is Resolving || st.phase is Running) ==> st.recipe < nodes[st.node as int].recipes.len()
        && line_ok(e, nodes, st.node as int, st.recipe as int)
    &&& (st.phase is Next || st.phase is Checking || st.phase is Resolving || st.phase is Running
        || st.phase is Touching) ==> e.errors <= st.node
    &&& (e.question || e.touch) ==> !(st.phase is Resolving || st.phase is Running || st.phase is Failing)
    &&& st.phase is Failing ==> 0 < e.errors <= st.node + 1
    &&& st.phase is Finished && !(e.errors == 0) ==> e.errors > 0
}

/// Without `keep_going`, a reported failure ends the run: the next step
/// finishes it unsuccessfully, and every step after that changes nothing.
pub proof fn lemma_failure_ends_run(
    e: ExecView,
    nodes: Seq<NodeView>,
    st: RunState,
    ev1: EventView,
    ev2: EventView,
)
    requires
        run_ok(e, nodes, st),
        st.phase is Failing,
        !e.keep_going,
    ensures
        ({
            let (e1, st1, a1) = spec_step(e, nodes, st, ev1);
            &&& e1 == e
            &&& st1.phase is Finished
            &&& a1 == ActionView::Finish { ok: false, nothing_for: None }
            &&& spec_step(e1, nodes, st1, ev2) == (e1, st1, ActionView::Finish { ok: false, nothing_for: None })
        }),
{
}

/// With `keep_going`, a reported failure moves the run on to the next
/// target, and the run can no longer succeed.
pub proof fn lemma_keep_going_moves_on(e: ExecView, nodes: Seq<NodeView>, st: RunState, ev: EventView)
    requires
        run_ok(e, nodes, st),
        nodes.len() <= usize::MAX,
        st.phase is Failing,
        e.keep_going,
    ensures
        ({
            let (e1, st1, a1) = spec_step(e, nodes, st, ev);
            &&& e1 == e
            &&& st1.node == st.node + 1
            &&& (st.node + 1 < nodes.len() ==> a1 == ActionView::Check((st.node + 1) as usize))
            &&& (st.node + 1 >= nodes.len() ==> (a1 matches ActionView::Finish { ok, .. } && !ok))
        }),
{
}

/// The state and actions after answering the actions of a run with the
/// events `evs` in turn.
pub open spec fn run_steps(e: ExecView, nodes: Seq<NodeView>, st: RunState, evs: Seq<EventView>) -> (
    ExecView,
    RunState,
    Seq<ActionView>,
)
    decreases evs.len(),
{
    if evs.len() == 0 {
        (e, st, seq![])
    } else {
        let prev = run_steps(e, nodes, st, evs.drop_last());
        let next = spec_step(prev.0, nodes, prev.1, evs.last());
        (next.0, next.1, prev.2.push(next.2))
    }
}

/// No recipe line of any target is marked `+`.
pub open spec fn no_always_lines(nodes: Seq<NodeView>) -> bool {
    forall|i: int, r: int| 0 <= i < nodes.len() && 0 <= r < nodes[i].recipes.len() ==> !always_runs(
        #[trigger] nodes[i].recipes[r],
    )
}

/// A position that the run can be in.
pub open spec fn position_ok(e: ExecView, nodes: Seq<NodeView>, st: RunState) -> bool {
    &&& st.node <= nodes.len()
    &&& (st.phase is Checking || st.phase is Resolving || st.phase is Running || st.phase is Failing
        || st.phase is Touching) ==> st.node < nodes.len()
    &&& (st.phase is Resolving || st.phase is Running) ==> st.recipe < nodes[st.node as int].recipes.len()
    &&& (e.keep_going && !e.question && st.phase is Finished) ==> st.node == nodes.len()
    &&& st.phase is Failing ==> e.errors > 0
}

/// How many of `acts` report a failure.
pub open spec fn count_fails(acts: Seq<ActionView>) -> nat
    decreases acts.len(),
{
    if acts.len() == 0 {
        0
    } else {
        count_fails(acts.drop_last()) + if acts.last() is Fail {
            1nat
        } else {
            0nat
        }
    }
}

/// One step keeps a possible position and the settings of the run, and a
/// `Finish` action leaves the run finished.
pub proof fn lemma_step_position(e: ExecView, nodes: Seq<NodeView>, st: RunState, ev: EventView)
    requires
        nodes.len() <= usize::MAX,
        position_ok(e, nodes, st),
        e.errors < usize::MAX,
    ensures
        position_ok(spec_step(e, nodes, st, ev).0, nodes, spec_step(e, nodes, st, ev).1),
        spec_step(e, nodes, st, ev).0 == (ExecView { errors: spec_step(e, nodes, st, ev).0.errors, ..e }),
        spec_step(e, nodes, st, ev).0.errors == e.errors + if spec_step(e, nodes, st, ev).2 is Fail {
            1int
        } else {
            0int
        },
        !e.question ==> (spec_step(e, nodes, st, ev).2 matches ActionView::Finish { ok, .. } ==> ok == (
        spec_step(e, nodes, st, ev).0.errors == 0)),
        spec_step(e, nodes, st, ev).2 is Finish ==> spec_step(e, nodes, st, ev).1.phase is Finished,
        e.dry_run && no_always_lines(nodes) ==> {
            &&& spec_step(e, nodes, st, ev).0.errors == e.errors
            &&& !(spec_step(e, nodes, st, ev).2 is Fail)
            &&& !(spec_step(e, nodes, st, ev).2 matches ActionView::Run { execute, .. } && execute)
        },
{
    if e.dry_run && no_always_lines(nodes) {
        let i = st.node as int;
        let r = st.recipe as int;
        if st.phase is Running {
            assert(!always_runs(nodes[i].recipes[r]));
        }
        if st.phase is Resolving {
            assert(!always_runs(nodes[i].recipes[r]));
        }
        if st.phase is Checking {
            if nodes[i].recipes.len() > 0 {
                assert(!always_runs(nodes[i].recipes[0]));
            }
        }
        if st.phase is Running && r + 1 < nodes[i].recipes.len() {
            assert(!always_runs(nodes[i].recipes[r + 1]));
        }
    }
}

/// Over any run, the error count grows by one for each failure reported,
/// and (unless only asking whether everything is up to date) the run is
/// answered as a success exactly when no error was counted before it and
/// no failure was reported up to then.
pub proof fn lemma_run_counts(e: ExecView, nodes: Seq<NodeView>, st: RunState, evs: Seq<EventView>)
    requires
        nodes.len() <= usize::MAX,
        position_ok(e, nodes, st),
        e.errors + evs.len() < usize::MAX,
    ensures
        ({
            let (e2, st2, acts) = run_steps(e, nodes, st, evs);
            &&& acts.len() == evs.len()
            &&& e2 == (ExecView { errors: e2.errors, ..e })
            &&& position_ok(e2, nodes, st2)
            &&& count_fails(acts) <= acts.len()
            &&& e2.errors == e.errors + count_fails(acts)
            &&& forall|k: int|
                0 <= k < acts.len() && !e.question ==> ((#[trigger] acts[k]) matches ActionView::Finish { ok, .. } ==> ok
                    == (e.errors + count_fails(acts.take(k)) == 0))
        }),
    decreases evs.len(),
{
    if evs.len() > 0 {
        lemma_run_counts(e, nodes, st, evs.drop_last());
        let prev = run_steps(e, nodes, st, evs.drop_last());
        lemma_step_position(prev.0, nodes, prev.1, evs.last());
        let acts = run_steps(e, nodes, st, evs).2;
        assert(acts.drop_last() == prev.2);
        assert(acts.take(acts.len() - 1) == prev.2);
        assert forall|k: int|
            0 <= k < acts.len() && !e.question implies ((#[trigger] acts[k]) matches ActionView::Finish { ok, .. } ==> ok
                == (e.errors + count_fails(acts.take(k)) == 0)) by {
            if k < acts.len() - 1 {
                assert(acts[k] == prev.2[k]);
                assert(acts.take(k) == prev.2.take(k));
            }
        }
    }
}

/// Target `j` was asked about among `acts`.
pub open spec fn checked(acts: Seq<ActionView>, j: int) -> bool {
    exists|k: int| 0 <= k < acts.len() && #[trigger] acts[k] == ActionView::Check(j as usize)
}

/// Every target before the current one was asked about, the current one too
/// while it is worked on, a run that finished without an error (or keeping
/// going) did so past the last target, and a run answered `Finish` is over.
pub open spec fn visits_ok(e: ExecView, nodes: Seq<NodeView>, st: RunState, acts: Seq<ActionView>) -> bool {
    &&& forall|j: int| 0 <= j < st.node ==> #[trigger] checked(acts, j)
    &&& (st.phase is Checking || st.phase is Resolving || st.phase is Running || st.phase is Failing
        || st.phase is Touching) ==> checked(acts, st.node as int)
    &&& (st.phase is Finished && !e.question && (e.keep_going || e.errors == 0)) ==> st.node == nodes.len()
    &&& (exists|k: int| 0 <= k < acts.len() && #[trigger] acts[k] is Finish) ==> st.phase is Finished
}

proof fn lemma_checked_push(acts: Seq<ActionView>, a: ActionView, j: int)
    requires
        checked(acts, j),
    ensures
        checked(acts.push(a), j),
{
    let k = choose|k: int| 0 <= k < acts.len() && #[trigger] acts[k] == ActionView::Check(j as usize);
    assert(acts.push(a)[k] == acts[k]);
}

proof fn lemma_step_visits(e: ExecView, nodes: Seq<NodeView>, st: RunState, acts: Seq<ActionView>, ev: EventView)
    requires
        nodes.len() <= usize::MAX,
        position_ok(e, nodes, st),
        e.errors < usize::MAX,
        visits_ok(e, nodes, st, acts),
    ensures
        visits_ok(spec_step(e, nodes, st, ev).0, nodes, spec_step(e, nodes, st, ev).1, acts.push(spec_step(e, nodes, st, ev).2)),
{
    let (e2, st2, a) = spec_step(e, nodes, st, ev);
    let acts2 = acts.push(a);
    lemma_step_position(e, nodes, st, ev);
    assert forall|j: int| #[trigger] checked(acts, j) implies checked(acts2, j) by {
        lemma_checked_push(acts, a, j);
    }
    if a is Check {
        assert(acts2[acts.len() as int] == a);
    }
    if st2.node <= st.node {
        assert forall|j: int| 0 <= j < st2.node implies #[trigger] checked(acts2, j) by {
            assert(checked(acts, j));
        }
    }
    if st2.node == st.node + 1 {
        assert forall|j: int| 0 <= j < st2.node implies #[trigger] checked(acts2, j) by {
            if j < st.node {
                assert(checked(acts, j));
            } else {
                assert(checked(acts, st.node as int));
            }
        }
    }
    assert forall|k: int| 0 <= k < acts2.len() && #[trigger] acts2[k] is Finish implies st2.phase is Finished by {
        if k < acts.len() {
            assert(acts2[k] == acts[k]);
        }
    }
    if a == ActionView::Check(st2.node) {
        assert(acts2[acts.len() as int] == ActionView::Check((st2.node as int) as usize));
        assert(checked(acts2, st2.node as int));
    }
    assert(forall|j: int| 0 <= j < st2.node ==> #[trigger] checked(acts2, j));
    assert((st2.phase is Checking || st2.phase is Resolving || st2.phase is Running || st2.phase is Failing
        || st2.phase is Touching) ==> checked(acts2, st2.node as int));
    assert((st2.phase is Finished && !e2.question && (e2.keep_going || e2.errors == 0)) ==> st2.node == nodes.len());
}

proof fn lemma_run_visits(e: ExecView, nodes: Seq<NodeView>, st: RunState, evs: Seq<EventView>)
    requires
        nodes.len() <= usize::MAX,
        position_ok(e, nodes, st),
        e.errors + evs.len() < usize::MAX,
        visits_ok(e, nodes, st, seq![]),
    ensures
        visits_ok(run_steps(e, nodes, st, evs).0, nodes, run_steps(e, nodes, st, evs).1, run_steps(e, nodes, st, evs).2),
    decreases evs.len(),
{
    if evs.len() > 0 {
        lemma_run_visits(e, nodes, st, evs.drop_last());
        lemma_run_counts(e, nodes, st, evs.drop_last());
        let prev = run_steps(e, nodes, st, evs.drop_last());
        lemma_step_visits(prev.0, nodes, prev.1, prev.2, evs.last());
    }
}

/// A run started afresh, with no error yet, asks about every target before
/// the one it stands at, in order of the build; and once it is answered
/// `Finish` without a failure reported (or while keeping going), and not
/// only asking whether everything is up to date, it has asked about every
/// target: a successful command never ends the run early.
pub proof fn lemma_run_checks_every_target(e: ExecView, nodes: Seq<NodeView>, evs: Seq<EventView>)
    requires
        nodes.len() <= usize::MAX,
        e.errors == 0,
        evs.len() < usize::MAX,
    ensures
        ({
            let st0 = RunState { node: 0, recipe: 0, built: false, phase: Phase::Next };
            let (e2, st2, acts) = run_steps(e, nodes, st0, evs);
            &&& forall|j: int| 0 <= j < st2.node ==> #[trigger] checked(acts, j)
            &&& ((exists|k: int| 0 <= k < acts.len() && #[trigger] acts[k] is Finish) && !e.question && (e.keep_going
                || count_fails(acts) == 0)) ==> st2.node == nodes.len() && forall|j: int|
                0 <= j < nodes.len() ==> #[trigger] checked(acts, j)
        }),
{
    let st0 = RunState { node: 0, recipe: 0, built: false, phase: Phase::Next };
    assert(position_ok(e, nodes, st0));
    assert(visits_ok(e, nodes, st0, seq![]));
    lemma_run_visits(e, nodes, st0, evs);
    lemma_run_counts(e, nodes, st0, evs);
}

/// A dry run of targets without `+` lines runs no command and counts no
/// error, whatever the events.
pub proof fn lemma_dry_run_runs_nothing(e: ExecView, nodes: Seq<NodeView>, st: RunState, evs: Seq<EventView>)
    requires
        e.dry_run,
        no_always_lines(nodes),
        nodes.len() <= usize::MAX,
        position_ok(e, nodes, st),
        e.errors < usize::MAX,
    ensures
        run_steps(e, nodes, st, evs).0 == e,
        position_ok(e, nodes, run_steps(e, nodes, st, evs).1),
        forall|k: int| 0 <= k < run_steps(e, nodes, st, evs).2.len() ==> {
            &&& !(#[trigger] run_steps(e, nodes, st, evs).2[k] is Fail)
            &&& !(run_steps(e, nodes, st, evs).2[k] matches ActionView::Run { execute, .. } && execute)
        },
    decreases evs.len(),
{
    if evs.len() > 0 {
        lemma_dry_run_runs_nothing(e, nodes, st, evs.drop_last());
        let prev = run_steps(e, nodes, st, evs.drop_last());
        lemma_step_position(prev.0, nodes, prev.1, evs.last());
        let acts = run_steps(e, nodes, st, evs).2;
        assert forall|k: int| 0 <= k < acts.len() implies {
            &&& !(#[trigger] acts[k] is Fail)
            &&& !(acts[k] matches ActionView::Run { execute, .. } && execute)
        } by {
            if k < acts.len() - 1 {
                assert(acts[k] == prev.2[k]);
            }
        }
    }
}

/// With `keep_going` (and not only asking whether everything is up to
/// date), a run that has finished has gone through every target: failures
/// do not stop it early.
pub proof fn lemma_keep_going_passes_all(e: ExecView, nodes: Seq<NodeView>, st: RunState, evs: Seq<EventView>)
    requires
        e.keep_going,
        !e.question,
        nodes.len() <= usize::MAX,
        position_ok(e, nodes, st),
        !(st.phase is Finished),
        e.errors + evs.len() < usize::MAX,
    ensures
        position_ok(run_steps(e, nodes, st, evs).0, nodes, run_steps(e, nodes, st, evs).1),
        run_steps(e, nodes, st, evs).0.keep_going && !run_steps(e, nodes, st, evs).0.question,
        (exists|k: int| 0 <= k < run_steps(e, nodes, st, evs).2.len() && #[trigger] run_steps(e, nodes, st, evs).2[k] is Finish)
            ==> run_steps(e, nodes, st, evs).1.phase is Finished && run_steps(e, nodes, st, evs).1.node == nodes.len(),
    decreases evs.len(),
{
    if evs.len() > 0 {
        lemma_keep_going_passes_all(e, nodes, st, evs.drop_last());
        lemma_run_counts(e, nodes, st, evs.drop_last());
        let prev = run_steps(e, nodes, st, evs.drop_last());
        lemma_step_position(prev.0, nodes, prev.1, evs.last());
        let acts = run_steps(e, nodes, st, evs).2;
        if exists|k: int| 0 <= k < acts.len() && #[trigger] acts[k] is Finish {
            let k = choose|k: int| 0 <= k < acts.len() && #[trigger] acts[k] is Finish;
            if k < acts.len() - 1 {
                assert(acts[k] == prev.2[k]);
            }
        }
    }
}

impl RunState {
    /// The position before the first step.
    pub fn new() -> (st: Self)
        ensures
            st == (RunState { node: 0, recipe: 0, built: false, phase: Phase::Next }),
    {
        RunState { node: 0, recipe: 0, built: false, phase: Phase::Next }
    }
}

impl Executor {
    /// An executor with no errors yet.
    pub fn new(keep_going: bool, dry_run: bool, variables: VarTable) -> (e: Self)
        ensures
            e.keep_going == keep_going,
            e.dry_run == dry_run,
            e.errors == 0,
            e.variables == variables,
            !e.ignore_errors && !e.silent && !e.touch && !e.question,
    {
        Executor { keep_going, dry_run, errors: 0, variables, ignore_errors: false, silent: false, touch: false, question: false }
    }
}

proof fn lemma_push_contains(s: Seq<char>, x: char, c: char)
    ensures
        s.push(x).contains(c) <==> (s.contains(c) || x == c),
{
    if s.push(x).contains(c) {
        let j = choose|j: int| 0 <= j < s.push(x).len() && s.push(x)[j] == c;
        if j < s.len() {
            assert(s[j] == c);
        }
    }
    if s.contains(c) {
        let j = choose|j: int| 0 <= j < s.len() && s[j] == c;
        assert(s.push(x)[j] == c);
    }
    if x == c {
        assert(s.push(x)[s.len() as int] == c);
    }
}

/// The parts of a recipe line: whether it is echoed, whether its failure is
/// ignored, whether it always runs, and its command.
fn recipe_parts(line: &String) -> (r: (bool, bool, bool, String))
    ensures
        r.0 == echo_of(line@),
        r.1 == ignores_error(line@),
        r.2 == always_runs(line@),
        r.3@ == command_of(line@),
{
    let c = chars_of(line.as_str());
    proof {
        lemma_prefix_end(c@, 0);
    }
    let mut k: usize = 0;
    let mut at = false;
    let mut minus = false;
    let mut plus = false;
    assert(c@.take(0) =~= Seq::<char>::empty());
    while k < c.len() && (c[k] == '@' || c[k] == '-' || c[k] == '+')
        invariant
            k <= c.len(),
            prefix_end(c@, 0) == prefix_end(c@, k as int),
            at == c@.take(k as int).contains('@'),
            minus == c@.take(k as int).contains('-'),
            plus == c@.take(k as int).contains('+'),
        decreases c.len() - k,
    {
        assert(c@.take(k + 1) == c@.take(k as int).push(c@[k as int]));
        proof {
            lemma_push_contains(c@.take(k as int), c@[k as int], '@');
            lemma_push_contains(c@.take(k as int), c@[k as int], '-');
            lemma_push_contains(c@.take(k as int), c@[k as int], '+');
        }
        if c[k] == '@' {
            at = true;
        } else if c[k] == '-' {
            minus = true;
        } else {
            plus = true;
        }
        k = k + 1;
    }
    assert(prefix_of(line@) == c@.take(k as int));
    let rest = copy_range(&c, k, c.len());
    (!at, minus, plus, string_of(&rest))
}

impl Executor {
    fn next_action(&self, nodes: &[&DagNode], st: &mut RunState, i: usize) -> (a: Action)
        requires
            i <= nodes.len(),
        ensures
            (self@, *final(st), a@) == next_from(self@, node_views(nodes@), *old(st), i as int),
    {
        if i >= nodes.len() {
            let nothing_for = if !st.built && nodes.len() > 0 && !self.question {
                Some(nodes[0].target.clone())
            } else {
                None
            };
            let ok = self.errors == 0 && !(self.question && st.built);
            *st = RunState { node: i, recipe: 0, phase: Phase::Finished, ..*st };
            Action::Finish { ok, nothing_for }
        } else {
            *st = RunState { node: i, recipe: 0, phase: Phase::Checking, ..*st };
            Action::Check(i)
        }
    }

    fn segments(&self, nodes: &[&DagNode], i: usize, r: usize) -> (segs: Vec<Segment>)
        requires
            self.variables.wf(),
            i < nodes.len(),
            r < nodes@[i as int].recipes.len(),
            line_ok(self@, node_views(nodes@), i as int, r as int),
        ensures
            seg_views(segs@) == segs_of(self@, node_views(nodes@), i as int, r as int),
    {
        let nd = nodes[i];
        let (_, _, _, cmd) = recipe_parts(&nd.recipes[r]);
        assert(node_views(nodes@)[i as int] == nd@);
        assert(nd@.recipes[r as int] == nd.recipes@[r as int]@);
        match expand_segments(cmd.as_str(), nd, &self.variables) {
            Some(segs) => segs,
            None => Vec::new(),
        }
    }

    fn start_recipe(&self, nodes: &[&DagNode], st: &mut RunState, i: usize, r: usize) -> (a: Action)
        requires
            self.variables.wf(),
            i < nodes.len(),
            r < nodes@[i as int].recipes.len(),
            line_ok(self@, node_views(nodes@), i as int, r as int),
        ensures
            (self@, *final(st), a@) == start_recipe(self@, node_views(nodes@), *old(st), i as int, r as int),
    {
        let segs = self.segments(nodes, i, r);
        let nd = nodes[i];
        let (echo, _, always, _) = recipe_parts(&nd.recipes[r]);
        assert(node_views(nodes@)[i as int] == nd@);
        assert(nd@.recipes[r as int] == nd.recipes@[r as int]@);
        let mut k: usize = 0;
        let mut outside = false;
        while k < segs.len()
            invariant
                k <= segs.len(),
                outside == (count_outside(seg_views(segs@).take(k as int)) > 0),
            decreases segs.len() - k,
        {
            assert(seg_views(segs@).take(k + 1).drop_last() == seg_views(segs@).take(k as int));
            match &segs[k] {
                Segment::Text(_) => {},
                _ => {
                    outside = true;
                },
            }
            k = k + 1;
        }
        assert(seg_views(segs@).take(segs.len() as int) == seg_views(segs@));
        if outside {
            *st = RunState { node: i, recipe: r, phase: Phase::Resolving, ..*st };
            Action::Resolve(segs)
        } else {
            let none: Vec<String> = Vec::new();
            assert(none.deep_view() =~= Seq::<Seq<char>>::empty());
            let text = render_segments(&segs, &none);
            *st = RunState { node: i, recipe: r, phase: Phase::Running, ..*st };
            Action::Run { text, echo: echo && !self.silent, execute: !self.dry_run || always }
        }
    }

    /// One step of a run over `nodes` (the targets in build order): takes the
    /// answer to the last action and gives the next action.
    pub fn step(&mut self, nodes: &[&DagNode], st: &mut RunState, ev: Event) -> (a: Action)
        requires
            old(self).variables.wf(),
            run_ok(old(self)@, node_views(nodes@), *old(st)),
            step_reads_ok(old(self)@, node_views(nodes@), *old(st), ev@),
        ensures
            (final(self)@, *final(st), a@) == spec_step(old(self)@, node_views(nodes@), *old(st), ev@),
            final(self).variables == old(self).variables,
            run_ok(final(self)@, node_views(nodes@), *final(st)),
            old(self).dry_run && (a@ matches ActionView::Run { execute, .. } && execute) ==> always_runs(
                node_views(nodes@)[final(st).node as int].recipes[final(st).recipe as int],
            ),
            final(self).errors == old(self).errors + (if a@ is Fail { 1int } else { 0int }),
            old(self).question || old(self).touch ==> !(a@ is Run || a@ is Resolve || a@ is Fail),
            a@ matches ActionView::Finish { ok, .. } ==> ok == run_succeeded(final(self)@, *final(st)),
    {
        let i = st.node;
        let r = st.recipe;
        assert(node_views(nodes@).len() == nodes@.len());
        if i < nodes.len() {
            assert(node_views(nodes@)[i as int] == nodes@[i as int]@);
        }
        match st.phase {
            Phase::Next => self.next_action(nodes, st, i),
            Phase::Checking => match ev {
                Event::Rebuild(b) => {
                    assert(node_views(nodes@)[i as int] == nodes@[i as int]@);
                    if !b || nodes[i].recipes.len() == 0 {
                        self.next_action(nodes, st, i + 1)
                    } else if self.question {
                        st.built = true;
                        st.phase = Phase::Finished;
                        Action::Finish { ok: false, nothing_for: None }
                    } else if self.touch {
                        st.built = true;
                        st.phase = Phase::Touching;
                        Action::Touch { target: nodes[i].target.clone() }
                    } else {
                        st.built = true;
                        self.start_recipe(nodes, st, i, 0)
                    }
                },
                _ => Action::Check(i),
            },
            Phase::Resolving => {
                let segs = self.segments(nodes, i, r);
                match ev {
                    Event::Resolved(outs) => {
                        let text = render_segments(&segs, &outs);
                        let (echo, _, always, _) = recipe_parts(&nodes[i].recipes[r]);
                        assert(node_views(nodes@)[i as int] == nodes@[i as int]@);
                        assert(nodes@[i as int]@.recipes[r as int] == nodes@[i as int].recipes@[r as int]@);
                        st.phase = Phase::Running;
                        Action::Run { text, echo: echo && !self.silent, execute: !self.dry_run || always }
                    },
                    _ => Action::Resolve(segs),
                }
            },
            Phase::Running => {
                let code = match ev {
                    Event::Exited(c) => c,
                    _ => 0,
                };
                assert(node_views(nodes@)[i as int] == nodes@[i as int]@);
                assert(nodes@[i as int]@.recipes.len() == nodes@[i as int].recipes@.len());
                let n = nodes[i].recipes.len();
                let (_, ignore, always, _) = recipe_parts(&nodes[i].recipes[r]);
                assert(nodes@[i as int]@.recipes[r as int] == nodes@[i as int].recipes@[r as int]@);
                if (!self.dry_run || always) && code != 0 && !self.ignore_errors && !ignore {
                    self.errors = self.errors + 1;
                    st.phase = Phase::Failing;
                    Action::Fail { target: nodes[i].target.clone(), code }
                } else if r + 1 < n {
                    self.start_recipe(nodes, st, i, r + 1)
                } else {
                    self.next_action(nodes, st, i + 1)
                }
            },
            Phase::Failing => if self.keep_going {
                self.next_action(nodes, st, i + 1)
            } else {
                st.phase = Phase::Finished;
                Action::Finish { ok: false, nothing_for: None }
            },
            Phase::Touching => self.next_action(nodes, st, i + 1),
            Phase::Finished => Action::Finish { ok: self.errors == 0 && !(self.question && st.built), nothing_for: None },
        }
    }

    /// Whether recipe line `r` of target `i` can be read.
    fn line_readable(&self, nodes: &[&DagNode], i: usize, r: usize) -> (b: bool)
        requires
            self.variables.wf(),
            i < nodes.len(),
            r < nodes@[i as int].recipes.len(),
        ensures
            b == line_ok(self@, node_views(nodes@), i as int, r as int),
    {
        let nd = nodes[i];
        let (_, _, _, cmd) = recipe_parts(&nd.recipes[r]);
        assert(node_views(nodes@)[i as int] == nd@);
        assert(nd@.recipes[r as int] == nd.recipes@[r as int]@);
        expand_segments(cmd.as_str(), nd, &self.variables).is_some()
    }

    /// Whether the recipe line that a step with event `ev` would start can be
    /// read.
    pub fn step_readable(&self, nodes: &[&DagNode], st: &RunState, ev: &Event) -> (b: bool)
        requires
            self.variables.wf(),
            run_ok(self@, node_views(nodes@), *st),
        ensures
            b == step_reads_ok(self@, node_views(nodes@), *st, ev@),
    {
        let i = st.node;
        let r = st.recipe;
        assert(node_views(nodes@).len() == nodes@.len());
        match st.phase {
            Phase::Checking => {
                assert(node_views(nodes@)[i as int] == nodes@[i as int]@);
                match ev {
                    Event::Rebuild(b) => if *b && nodes[i].recipes.len() > 0 && !self.question && !self.touch {
                        self.line_readable(nodes, i, 0)
                    } else {
                        true
                    },
                    _ => true,
                }
            },
            Phase::Running => {
                assert(node_views(nodes@)[i as int] == nodes@[i as int]@);
                assert(nodes@[i as int]@.recipes.len() == nodes@[i as int].recipes@.len());
                assert(st.phase is Running);
                assert(r < nodes@[i as int].recipes.len());
                let code = match ev {
                    Event::Exited(c) => *c,
                    _ => 0,
                };
                let (_, ignore, always, _) = recipe_parts(&nodes[i].recipes[r]);
                assert(nodes@[i as int]@.recipes[r as int] == nodes@[i as int].recipes@[r as int]@);
                let fails = (!self.dry_run || always) && code != 0 && !self.ignore_errors && !ignore;
                if !fails && r + 1 < nodes[i].recipes.len() {
                    self.line_readable(nodes, i, r + 1)
                } else {
                    true
                }
            },
            _ => true,
        }
    }

    /// One step of a run like `step`, or `None` (with nothing changed) when
    /// the recipe line this step would start cannot be read.
    pub fn try_step(&mut self, nodes: &[&DagNode], st: &mut RunState, ev: Event) -> (a: Option<Action>)
        requires
            old(self).variables.wf(),
            run_ok(old(self)@, node_views(nodes@), *old(st)),
        ensures
            a is None <==> !step_reads_ok(old(self)@, node_views(nodes@), *old(st), ev@),
            a is None ==> *final(self) == *old(self) && *final(st) == *old(st),
            a matches Some(act) ==> (final(self)@, *final(st), act@) == spec_step(old(self)@, node_views(nodes@), *old(st), ev@),
            final(self).variables.wf(),
            run_ok(final(self)@, node_views(nodes@), *final(st)),
    {
        if self.step_readable(nodes, st, &ev) {
            Some(self.step(nodes, st, ev))
        } else {
            None
        }
    }
}

} // verus!
