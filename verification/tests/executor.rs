use mkultra::dag::DagNode;
use mkultra::executor::{Action, Event, Executor, RunState};
use mkultra::vars::VarTable;

/// Drives a run; commands "succeed" unless their text is in `failing`.
fn drive(exec: &mut Executor, nodes: &[&DagNode], failing: &[&str]) -> (bool, Vec<String>, Vec<String>) {
    let mut st = RunState::new();
    let mut ev = Event::Continue;
    let mut printed = Vec::new();
    let mut ran = Vec::new();
    for _ in 0..1000 {
        match exec.step(nodes, &mut st, ev) {
            Action::Check(i) => {
                let n = nodes[i];
                ev = Event::Rebuild(n.needs_rebuild(0, &vec![0; n.prereqs.len()]));
            },
            Action::Resolve(segs) => {
                ev = Event::Resolved(vec!["R".to_string(); segs.len()]);
            },
            Action::Run { text, echo, execute } => {
                if echo {
                    printed.push(text.clone());
                }
                let code = if execute {
                    ran.push(text.clone());
                    if failing.contains(&text.as_str()) { 1 } else { 0 }
                } else {
                    0
                };
                ev = Event::Exited(code);
            },
            Action::Fail { .. } => {
                ev = Event::Continue;
            },
            Action::Touch { target } => {
                ran.push(format!("touch {target}"));
                ev = Event::Continue;
            },
            Action::Finish { ok, .. } => return (ok, printed, ran),
        }
    }
    panic!("the run did not finish");
}

#[test]
fn test_executor_dry_run() {
    let mut node = DagNode::new("all".to_string(), true);
    node.recipes.push("echo hello".to_string());
    node.recipes.push("@echo silent".to_string());

    let mut exec = Executor::new(false, true, VarTable::new());
    let (ok, printed, ran) = drive(&mut exec, &[&node], &[]);
    assert!(ok);
    assert_eq!(exec.errors, 0);
    assert_eq!(printed, vec!["echo hello"]);
    assert!(ran.is_empty());
}

#[test]
fn test_executor_dry_run_no_at() {
    let mut node = DagNode::new("all".to_string(), true);
    node.recipes.push("@echo silent".to_string());

    let mut exec = Executor::new(false, true, VarTable::new());
    let (ok, printed, _) = drive(&mut exec, &[&node], &[]);
    assert!(ok);
    assert!(printed.is_empty());
}

#[test]
fn failure_stops_without_keep_going() {
    let mut a = DagNode::new("a".to_string(), true);
    a.recipes.push("false".to_string());
    a.recipes.push("never".to_string());
    let mut b = DagNode::new("b".to_string(), true);
    b.recipes.push("echo b".to_string());
    let mut exec = Executor::new(false, false, VarTable::new());
    let (ok, _, ran) = drive(&mut exec, &[&a, &b], &["false"]);
    assert!(!ok);
    assert_eq!(exec.errors, 1);
    assert_eq!(ran, vec!["false"]);
}

#[test]
fn failure_continues_with_keep_going() {
    let mut a = DagNode::new("a".to_string(), true);
    a.recipes.push("false".to_string());
    a.recipes.push("never".to_string());
    let mut b = DagNode::new("b".to_string(), true);
    b.recipes.push("echo b".to_string());
    let mut exec = Executor::new(true, false, VarTable::new());
    let (ok, _, ran) = drive(&mut exec, &[&a, &b], &["false"]);
    assert!(!ok);
    assert_eq!(exec.errors, 1);
    assert_eq!(ran, vec!["false", "echo b"]);
}

#[test]
fn nothing_to_do_names_the_first_target() {
    let a = DagNode::new("a".to_string(), true);
    let mut exec = Executor::new(false, false, VarTable::new());
    let mut st = RunState::new();
    let mut ev = Event::Continue;
    loop {
        match exec.step(&[&a], &mut st, ev) {
            Action::Check(_) => ev = Event::Rebuild(true),
            Action::Finish { ok, nothing_for } => {
                assert!(ok);
                assert_eq!(nothing_for.as_deref(), Some("a"));
                break;
            },
            _ => panic!("a target without recipes runs nothing"),
        }
    }
}

#[test]
fn recipes_are_expanded_with_outside_results() {
    let mut a = DagNode::new("out".to_string(), true);
    a.recipes.push("@echo $@ $(shell,pwd)".to_string());
    let mut exec = Executor::new(false, false, VarTable::new());
    let mut st = RunState::new();
    assert!(matches!(exec.step(&[&a], &mut st, Event::Continue), Action::Check(0)));
    assert!(matches!(exec.step(&[&a], &mut st, Event::Rebuild(true)), Action::Resolve(_)));
    match exec.step(&[&a], &mut st, Event::Resolved(vec!["/tmp".to_string()])) {
        Action::Run { text, echo, execute } => {
            assert_eq!(text, "echo out /tmp");
            assert!(!echo);
            assert!(execute);
        },
        _ => panic!("the command comes next"),
    }
    assert!(matches!(exec.step(&[&a], &mut st, Event::Exited(0)), Action::Finish { ok: true, nothing_for: None }));
}

#[test]
fn recipe_prefixes_and_modes() {
    let mut node = DagNode::new("all".to_string(), true);
    node.recipes.push("-false".to_string());
    node.recipes.push("@+echo always".to_string());
    node.recipes.push("echo last".to_string());
    let mut exec = Executor::new(false, false, VarTable::new());
    let (ok, printed, ran) = drive(&mut exec, &[&node], &["false"]);
    assert!(ok);
    assert_eq!(printed, vec!["false", "echo last"]);
    assert_eq!(ran, vec!["false", "echo always", "echo last"]);

    let mut dry = Executor::new(false, true, VarTable::new());
    let (ok, printed, ran) = drive(&mut dry, &[&node], &[]);
    assert!(ok);
    assert_eq!(printed, vec!["false", "echo last"]);
    assert_eq!(ran, vec!["echo always"]);

    let mut quiet = Executor::new(false, false, VarTable::new());
    quiet.silent = true;
    quiet.ignore_errors = true;
    let mut bad = DagNode::new("b".to_string(), true);
    bad.recipes.push("false".to_string());
    let (ok, printed, ran) = drive(&mut quiet, &[&bad], &["false"]);
    assert!(ok);
    assert!(printed.is_empty());
    assert_eq!(ran, vec!["false"]);
}

#[test]
fn touch_and_question_modes() {
    let mut node = DagNode::new("all".to_string(), true);
    node.recipes.push("echo hi".to_string());
    let mut t = Executor::new(false, false, VarTable::new());
    t.touch = true;
    let (ok, printed, ran) = drive(&mut t, &[&node], &[]);
    assert!(ok);
    assert!(printed.is_empty());
    assert_eq!(ran, vec!["touch all"]);

    let mut q = Executor::new(false, false, VarTable::new());
    q.question = true;
    let (ok, printed, ran) = drive(&mut q, &[&node], &[]);
    assert!(!ok);
    assert!(printed.is_empty() && ran.is_empty());

    let up_to_date = DagNode::new("file".to_string(), false);
    let mut q2 = Executor::new(false, false, VarTable::new());
    q2.question = true;
    let mut st = RunState::new();
    let mut ev = Event::Continue;
    loop {
        match q2.step(&[&up_to_date], &mut st, ev) {
            Action::Check(_) => ev = Event::Rebuild(false),
            Action::Finish { ok, nothing_for } => {
                assert!(ok);
                assert!(nothing_for.is_none());
                break;
            },
            _ => panic!("nothing runs in question mode"),
        }
    }
}

#[test]
fn unreadable_line_of_up_to_date_target_is_no_obstacle() {
    let mut node = DagNode::new("t".to_string(), false);
    node.recipes.push("$(a(b)\u{e9})".to_string());
    let mut exec = Executor::new(false, false, VarTable::new());
    let mut st = RunState::new();
    assert!(matches!(exec.try_step(&[&node], &mut st, Event::Continue), Some(Action::Check(0))));
    assert!(exec.try_step(&[&node], &mut st, Event::Rebuild(true)).is_none());
    match exec.try_step(&[&node], &mut st, Event::Rebuild(false)) {
        Some(Action::Finish { ok, .. }) => assert!(ok),
        _ => panic!("an up-to-date target needs no expansion"),
    }
}
