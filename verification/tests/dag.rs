use mkultra::dag::{Dag, DagNode};

#[test]
fn test_dag_simple() {
    let mut dag = Dag::new();
    dag.add_prereq("all", "output.txt");
    dag.add_recipe("all", "echo done");
    dag.add_prereq("output.txt", "input.txt");
    dag.add_recipe("output.txt", "cat input.txt > output.txt");

    assert!(dag.contains_node("all"));
    assert!(dag.contains_node("output.txt"));
    assert!(dag.contains_node("input.txt"));
    assert_eq!(dag.node("all").unwrap().prereqs, vec!["output.txt"]);
}

#[test]
fn test_dag_no_cycle() {
    let mut dag = Dag::new();
    dag.add_prereq("a", "b");
    dag.add_prereq("b", "c");
    assert!(dag.detect_cycle().is_none());
}

#[test]
fn test_dag_cycle_detected() {
    let mut dag = Dag::new();
    dag.add_prereq("a", "b");
    dag.add_prereq("b", "c");
    dag.add_prereq("c", "a");
    let cycle = dag.detect_cycle();
    assert!(cycle.is_some());
    let cycle = cycle.unwrap();
    assert!(cycle.contains(&"a".to_string()));
    assert!(cycle.contains(&"b".to_string()));
    assert!(cycle.contains(&"c".to_string()));
}

#[test]
fn test_dag_default_target() {
    let mut dag = Dag::new();
    dag.add_prereq("all", "output.txt");
    dag.add_prereq("output.txt", "input.txt");
    assert_eq!(dag.default_target().map(|s| s.as_str()), Some("all"));
}

#[test]
fn test_dag_default_skips_phony_dotfiles() {
    let mut dag = Dag::new();
    dag.ensure_node(".PHONY", true);
    dag.ensure_node(".SUFFIXES", false);
    dag.add_prereq("build", "main.o");
    assert_eq!(dag.default_target().map(|s| s.as_str()), Some("build"));
}

#[test]
fn test_dag_topo_order() {
    let mut dag = Dag::new();
    dag.add_prereq("all", "b");
    dag.add_prereq("b", "c");
    dag.add_prereq("c", "d");
    let order = dag.order("all").unwrap();
    let names: Vec<&str> = order.iter().map(|n| n.target.as_str()).collect();
    assert_eq!(names, vec!["d", "c", "b", "all"]);
}

#[test]
fn test_dag_topo_order_diamond() {
    let mut dag = Dag::new();
    dag.add_prereq("all", "left");
    dag.add_prereq("all", "right");
    dag.add_prereq("left", "base");
    dag.add_prereq("right", "base");
    let order = dag.order("all").unwrap();
    let names: Vec<&str> = order.iter().map(|n| n.target.as_str()).collect();
    assert_eq!(names[0], "base");
    assert_eq!(names.last().copied(), Some("all"));
    assert_eq!(names.len(), 4);
}

#[test]
fn test_no_cycles_single_node() {
    let mut dag = Dag::new();
    dag.add_prereq("a", "b");
    assert!(dag.detect_cycle().is_none());
}

#[test]
fn test_self_cycle() {
    let mut dag = Dag::new();
    dag.add_prereq("a", "a");
    let cycle = dag.detect_cycle();
    assert!(cycle.is_some());
}

#[test]
fn test_dag_disconnected_components_no_cycle() {
    let mut dag = Dag::new();
    dag.add_prereq("a", "b");
    dag.add_prereq("c", "d");
    assert!(dag.detect_cycle().is_none());
}

#[test]
fn test_topo_missing_prereq_still_works() {
    let mut dag = Dag::new();
    dag.add_prereq("all", "phantom");
    let order = dag.order("all").unwrap();
    assert_eq!(order.len(), 2);
    assert_eq!(order[0].target, "phantom");
    assert_eq!(order[1].target, "all");
}

#[test]
fn test_phony_always_rebuilds() {
    let node = DagNode::new("clean".to_string(), true);
    assert!(node.needs_rebuild(0, &vec![]));
}

#[test]
fn test_missing_target_rebuilds() {
    let node = DagNode::new("nonexistent".to_string(), false);
    assert!(node.needs_rebuild(0, &vec![]));
}

#[test]
fn test_missing_prereq_rebuilds() {
    let mut node = DagNode::new("target".to_string(), false);
    node.prereqs.push("nonexistent_prereq".to_string());
    assert!(node.needs_rebuild(0, &vec![0]));
}

#[test]
fn rebuild_by_modification_times() {
    let mut node = DagNode::new("out".to_string(), false);
    node.prereqs.push("a".to_string());
    node.prereqs.push("b".to_string());
    assert!(!node.needs_rebuild(100, &vec![50, 100]));
    assert!(node.needs_rebuild(100, &vec![50, 101]));
    assert!(node.needs_rebuild(100, &vec![0, 10]));
    let leaf = DagNode::new("src".to_string(), false);
    assert!(!leaf.needs_rebuild(5, &vec![]));
}

#[test]
fn cycle_is_a_chain_closed_by_its_last_step() {
    let mut dag = Dag::new();
    dag.add_prereq("a", "b");
    dag.add_prereq("b", "c");
    dag.add_prereq("c", "a");
    let cycle = dag.detect_cycle().unwrap();
    assert_eq!(cycle, vec!["b", "c", "a"]);
    for w in cycle.windows(2) {
        assert!(dag.node(&w[0]).unwrap().prereqs.contains(&w[1]));
    }
    let last = cycle.last().unwrap();
    assert!(dag.node(last).unwrap().prereqs.contains(&cycle[0]));
}

#[test]
fn self_cycle_below_the_start_keeps_the_path_to_it() {
    let mut dag = Dag::new();
    dag.add_prereq("b", "a");
    dag.add_prereq("a", "a");
    assert_eq!(dag.detect_cycle().unwrap(), vec!["b", "a", "a"]);
}

#[test]
fn long_cycle_is_cut_after_a_hundred_steps() {
    let mut dag = Dag::new();
    let names: Vec<String> = (0..150).map(|i| format!("n{}", i)).collect();
    for i in 0..150 {
        dag.add_prereq(&names[i], &names[(i + 1) % 150]);
    }
    let cycle = dag.detect_cycle().unwrap();
    assert_eq!(cycle.len(), 102);
    assert_eq!(cycle.last().unwrap(), "n0");
}

#[test]
fn order_of_unknown_target_is_empty() {
    let mut dag = Dag::new();
    dag.add_prereq("a", "b");
    assert!(dag.order("zzz").unwrap().is_empty());
}

#[test]
fn order_visits_shared_prerequisite_once_and_in_listed_order() {
    let mut dag = Dag::new();
    dag.add_prereq("all", "x");
    dag.add_prereq("all", "y");
    dag.add_prereq("x", "z");
    dag.add_prereq("y", "z");
    dag.add_prereq("y", "w");
    let names: Vec<String> = dag.order("all").unwrap().iter().map(|n| n.target.clone()).collect();
    assert_eq!(names, vec!["z", "x", "w", "y", "all"]);
}

#[test]
fn order_with_cycle_terminates() {
    let mut dag = Dag::new();
    dag.add_prereq("a", "b");
    dag.add_prereq("b", "a");
    let names: Vec<String> = dag.order("a").unwrap().iter().map(|n| n.target.clone()).collect();
    assert_eq!(names, vec!["b", "a"]);
}

#[test]
fn ensure_node_keeps_existing_flag() {
    let mut dag = Dag::new();
    dag.ensure_node("x", false);
    dag.ensure_node("x", true);
    assert!(!dag.node("x").unwrap().is_phony);
    dag.mark_phony("x");
    assert!(dag.node("x").unwrap().is_phony);
    dag.mark_phony("unknown");
    assert!(!dag.contains_node("unknown"));
}

#[test]
fn set_default_keeps_first() {
    let mut dag = Dag::new();
    dag.set_default("one");
    dag.set_default("two");
    assert_eq!(dag.default_target().map(|s| s.as_str()), Some("one"));
}

#[test]
fn dotted_target_is_not_default() {
    let mut dag = Dag::new();
    dag.add_prereq(".hidden", "x");
    assert!(dag.default_target().is_none());
    dag.add_prereq("real", "x");
    assert_eq!(dag.default_target().map(|s| s.as_str()), Some("real"));
}

#[test]
fn set_variable_replaces() {
    let mut dag = Dag::new();
    dag.set_variable("CC", "gcc".to_string());
    dag.set_variable("CC", "clang".to_string());
    assert_eq!(dag.variable("CC").map(|s| s.as_str()), Some("clang"));
    assert!(dag.variable("LD").is_none());
}

#[test]
fn order_is_a_build_order() {
    let mut dag = Dag::new();
    let edges = [
        ("app", "lib"),
        ("app", "main.o"),
        ("lib", "a.o"),
        ("lib", "b.o"),
        ("main.o", "main.c"),
        ("main.o", "defs.h"),
        ("a.o", "a.c"),
        ("a.o", "defs.h"),
        ("b.o", "b.c"),
        ("tests", "lib"),
    ];
    for (t, p) in edges {
        dag.add_prereq(t, p);
    }
    assert!(dag.detect_cycle().is_none());
    let order: Vec<String> = dag.order("app").unwrap().iter().map(|n| n.target.clone()).collect();
    assert_eq!(order.last().map(|s| s.as_str()), Some("app"));
    for (i, name) in order.iter().enumerate() {
        assert_eq!(order.iter().filter(|n| *n == name).count(), 1);
        for p in &dag.node(name).unwrap().prereqs {
            let j = order.iter().position(|n| n == p).unwrap();
            assert!(j < i);
        }
    }
    assert!(!order.contains(&"tests".to_string()));
    assert_eq!(order.len(), 9);
}

#[test]
fn overrides_environment_and_listing() {
    let mut dag = Dag::new();
    dag.set_variable("CC", "gcc".to_string());
    dag.add_prereq("all", "x");
    dag.apply_environment(&vec![("CC".to_string(), "cc".to_string()), ("HOME".to_string(), "/h".to_string())]);
    assert_eq!(dag.variable("CC").map(|s| s.as_str()), Some("cc"));
    assert!(dag.variable("HOME").is_none());
    dag.apply_overrides(&vec![("CC".to_string(), "clang".to_string()), ("NEW".to_string(), "1".to_string())]);
    assert_eq!(dag.variable("CC").map(|s| s.as_str()), Some("clang"));
    assert_eq!(dag.variable("NEW").map(|s| s.as_str()), Some("1"));
    let mut names: Vec<String> = dag.targets().iter().map(|n| n.target.clone()).collect();
    names.sort();
    assert_eq!(names, vec!["all", "x"]);
    let mut vars = dag.variables().pairs_list();
    vars.sort();
    assert_eq!(vars, vec![("CC".to_string(), "clang".to_string()), ("NEW".to_string(), "1".to_string())]);
}

#[test]
fn cycle_chain_has_distinct_targets() {
    let mut dag = Dag::new();
    dag.add_prereq("a", "b");
    dag.add_prereq("b", "c");
    dag.add_prereq("c", "a");
    let c = dag.detect_cycle().unwrap();
    assert_eq!(c.len(), 3);
    for name in ["a", "b", "c"] {
        assert_eq!(c.iter().filter(|n| n.as_str() == name).count(), 1);
    }
    for i in 0..3 {
        let next = &c[(i + 1) % 3];
        assert!(dag.node(&c[i]).unwrap().prereqs.contains(next));
    }
}

#[test]
fn ensure_node_returns_the_target() {
    let mut dag = Dag::new();
    dag.add_prereq("x", "y");
    let n = dag.ensure_node("x", true);
    assert_eq!(n.target, "x");
    assert_eq!(n.prereqs, vec!["y"]);
    assert!(!n.is_phony);
    let m = dag.ensure_node("z", true);
    assert!(m.is_phony && m.prereqs.is_empty() && m.recipes.is_empty());
}

#[test]
fn order_in_graph_with_unreachable_cycle() {
    let mut dag = Dag::new();
    dag.add_prereq("all", "a");
    dag.add_prereq("a", "b");
    dag.add_prereq("other", "loop");
    dag.add_prereq("loop", "other");
    assert!(dag.detect_cycle().is_some());
    let names: Vec<String> = dag.order("all").unwrap().iter().map(|n| n.target.clone()).collect();
    assert_eq!(names, vec!["b", "a", "all"]);
}
