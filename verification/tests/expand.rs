use mkultra::dag::DagNode;
use mkultra::expand::{
    expand_function, expand_segments, expand_vars, parse_function_call, parse_simple_var, render_segments,
    try_expand_vars, AutoVar, Segment,
};
use mkultra::expand::{first_occurrences, join_strings, newer_prereqs};
use mkultra::functions::{
    pattern_dir, shell_command, shell_output_words, single_spaced, wildcard_request, wildcard_result, GlobPattern,
    WildcardRequest,
};
use mkultra::vars::VarTable;

fn no_outside() -> Vec<String> {
    Vec::new()
}

#[test]
fn test_expand_at_target() {
    let node = DagNode::new("output.txt".to_string(), false);
    assert_eq!(expand_vars("$@", &node, &VarTable::new(), &no_outside()), "output.txt");
}

#[test]
fn test_expand_less_first_prereq() {
    let mut node = DagNode::new("out".to_string(), false);
    node.prereqs.push("first.o".to_string());
    node.prereqs.push("second.o".to_string());
    assert_eq!(expand_vars("$<", &node, &VarTable::new(), &no_outside()), "first.o");
}

#[test]
fn test_expand_hat_all_prereqs() {
    let mut node = DagNode::new("out".to_string(), false);
    node.prereqs.push("a.o".to_string());
    node.prereqs.push("b.o".to_string());
    assert_eq!(expand_vars("$^", &node, &VarTable::new(), &no_outside()), "a.o b.o");
}

#[test]
fn test_expand_dollar_sign() {
    let node = DagNode::new("x".to_string(), false);
    assert_eq!(expand_vars("$$", &node, &VarTable::new(), &no_outside()), "$");
}

#[test]
fn test_expand_mixed() {
    let mut node = DagNode::new("hello".to_string(), false);
    node.prereqs.push("hello.o".to_string());
    assert_eq!(expand_vars("gcc -o $@ $<", &node, &VarTable::new(), &no_outside()), "gcc -o hello hello.o");
}

#[test]
fn test_expand_unknown_var_passes_through() {
    let node = DagNode::new("x".to_string(), false);
    assert_eq!(expand_vars("$X", &node, &VarTable::new(), &no_outside()), "");
    assert_eq!(expand_vars("$(XXX)", &node, &VarTable::new(), &no_outside()), "");
    assert_eq!(expand_vars("$$", &node, &VarTable::new(), &no_outside()), "$");
}

#[test]
fn test_expand_trailing_dollar() {
    let node = DagNode::new("x".to_string(), false);
    assert_eq!(expand_vars("foo$", &node, &VarTable::new(), &no_outside()), "foo$");
}

#[test]
fn test_expand_combined_vars() {
    let mut node = DagNode::new("out".to_string(), false);
    node.prereqs.push("a".to_string());
    node.prereqs.push("b".to_string());
    assert_eq!(expand_vars("@=$@ <=$<", &node, &VarTable::new(), &no_outside()), "@=out <=a");
    assert_eq!(expand_vars("^=$^", &node, &VarTable::new(), &no_outside()), "^=a b");
}

#[test]
fn test_expand_variable_lookup() {
    let mut vars = VarTable::new();
    vars.insert("CC".to_string(), "gcc".to_string());
    vars.insert("CFLAGS".to_string(), "-Wall".to_string());
    let node = DagNode::new("x".into(), false);
    assert_eq!(expand_vars("$(CC) $(CFLAGS)", &node, &vars, &no_outside()), "gcc -Wall");
}

#[test]
fn test_expand_multiple_vars() {
    let mut vars = VarTable::new();
    vars.insert("A".to_string(), "1".to_string());
    vars.insert("B".to_string(), "2".to_string());
    vars.insert("C".to_string(), "3".to_string());
    let node = DagNode::new("x".into(), false);
    assert_eq!(expand_vars("$(A) $(B) $(C)", &node, &vars, &no_outside()), "1 2 3");
}

#[test]
fn test_expand_var_in_var() {
    let mut vars = VarTable::new();
    vars.insert("A".to_string(), "B".to_string());
    vars.insert("B".to_string(), "value".to_string());
    let node = DagNode::new("x".into(), false);
    assert_eq!(expand_vars("$(A)", &node, &vars, &no_outside()), "B");
}

#[test]
fn test_expand_var_with_special_chars() {
    let mut vars = VarTable::new();
    vars.insert("FLAGS".to_string(), "-Wall -O2".to_string());
    let node = DagNode::new("x".into(), false);
    assert_eq!(expand_vars("gcc $(FLAGS)", &node, &vars, &no_outside()), "gcc -Wall -O2");
}

#[test]
fn test_expand_wildcard_no_pattern() {
    let node = DagNode::new("x".into(), false);
    let vars = VarTable::new();
    let segs = expand_function("wildcard", "Makefile", &node, &vars).unwrap();
    assert_eq!(render_segments(&segs, &no_outside()), "Makefile");
}

#[test]
fn test_expand_shell() {
    let node = DagNode::new("x".into(), false);
    let vars = VarTable::new();
    let segs = expand_function("shell", "echo hello", &node, &vars).unwrap();
    let command = match &segs[..] {
        [Segment::Shell(args)] => shell_command(args),
        _ => panic!("shell is an outside call"),
    };
    assert_eq!(command, "echo hello");
    let result = shell_output_words(b"hello\n");
    assert_eq!(result, "hello");
}

#[test]
fn test_expand_shell_with_args() {
    let node = DagNode::new("x".into(), false);
    let vars = VarTable::new();
    let segs = expand_function("shell", "echo 1 2 3", &node, &vars).unwrap();
    let command = match &segs[..] {
        [Segment::Shell(args)] => shell_command(args),
        _ => panic!("shell is an outside call"),
    };
    assert_eq!(command, "echo 1 2 3");
    let result = shell_output_words(b"1 2 3\n");
    assert_eq!(result, "1 2 3");
}

#[test]
fn shell_output_collapses_whitespace() {
    assert_eq!(shell_output_words(b"  a\n\tb  c \n\n"), "a b c");
    assert_eq!(shell_output_words(b""), "");
    assert_eq!(shell_output_words(b"x\xffy"), "x\u{fffd}y");
    assert_eq!(shell_command("  ls -l \t"), "ls -l");
}

#[test]
fn outside_calls_take_their_results_in_order() {
    let node = DagNode::new("t".into(), false);
    let vars = VarTable::new();
    let cmd = "cc $(wildcard,*.c) -o $@ $(shell,date)!";
    let segs = expand_segments(cmd, &node, &vars).unwrap();
    let outside: Vec<&Segment> = segs.iter().filter(|s| !matches!(s, Segment::Text(_))).collect();
    assert_eq!(outside.len(), 2);
    assert!(matches!(outside[0], Segment::Wildcard(a) if a == "*.c"));
    assert!(matches!(outside[1], Segment::Shell(a) if a == "date"));
    let results = vec!["a.c b.c".to_string(), "today".to_string()];
    assert_eq!(render_segments(&segs, &results), "cc a.c b.c -o t today!");
    assert_eq!(expand_vars(cmd, &node, &vars, &results), "cc a.c b.c -o t today!");
    assert_eq!(expand_vars(cmd, &node, &vars, &no_outside()), "cc  -o t !");
    let spaced = expand_segments("$(shell date -u) $(wildcard src/*.c)", &node, &vars).unwrap();
    assert_eq!(spaced.len(), 3);
    assert!(matches!(&spaced[0], Segment::Shell(a) if a == "date -u"));
    assert!(matches!(&spaced[1], Segment::Text(t) if t == " "));
    assert!(matches!(&spaced[2], Segment::Wildcard(a) if a == "src/*.c"));
}

#[test]
fn function_call_split_rules() {
    let c: Vec<char> = "(name(args))".chars().collect();
    let r = parse_function_call(&c, 0).unwrap();
    assert_eq!((r.0.as_str(), r.1.as_str(), r.2), ("name", "args", 13));
    let c: Vec<char> = "$(f,a,b) rest".chars().collect();
    let r = parse_function_call(&c, 1).unwrap();
    assert_eq!((r.0.as_str(), r.1.as_str(), r.2), ("f", "a,b", 8));
    let c: Vec<char> = "$(plain) rest".chars().collect();
    let r = parse_function_call(&c, 1).unwrap();
    assert_eq!((r.0.as_str(), r.1.as_str(), r.2), ("plain", "", 8));
    let c: Vec<char> = "$(open".chars().collect();
    assert!(parse_function_call(&c, 1).is_none());
    let c: Vec<char> = "$(wildcard *.c)".chars().collect();
    let r = parse_function_call(&c, 1).unwrap();
    assert_eq!((r.0.as_str(), r.1.as_str(), r.2), ("wildcard", "*.c", 15));
    let c: Vec<char> = "$(shell echo a(b))".chars().collect();
    let r = parse_function_call(&c, 1).unwrap();
    assert_eq!((r.0.as_str(), r.1.as_str(), r.2), ("shell", "echo a(b)", 18));
}

#[test]
fn simple_var_name_length() {
    let c: Vec<char> = "$ABC_1+x".chars().collect();
    let (name, consumed) = parse_simple_var(&c, 1).unwrap();
    assert_eq!(name, "ABC_1");
    assert_eq!(consumed, 6);
    assert!(parse_simple_var(&c, 6).is_none());
}

#[test]
fn unclosed_call_keeps_dollar() {
    let node = DagNode::new("x".into(), false);
    let mut vars = VarTable::new();
    vars.insert("A".to_string(), "1".to_string());
    assert_eq!(expand_vars("$(A", &node, &vars, &no_outside()), "$(A");
    assert_eq!(expand_vars("a$%b", &node, &vars, &no_outside()), "a$%b");
    assert_eq!(expand_vars("$A.o", &node, &vars, &no_outside()), "1.o");
}

#[test]
fn auto_vars_of_node_without_prereqs() {
    let node = DagNode::new("solo".into(), false);
    assert!(matches!(AutoVar::from_char('<'), Some(AutoVar::FirstPrereq)));
    assert!(AutoVar::from_char('x').is_none());
    assert_eq!(AutoVar::FirstPrereq.expand(&node), "");
    assert_eq!(AutoVar::AllPrereqs.expand(&node), "");
    assert_eq!(AutoVar::Target.expand(&node), "solo");
}

#[test]
fn unreadable_call_is_reported() {
    let node = DagNode::new("x".into(), false);
    let vars = VarTable::new();
    assert!(try_expand_vars("$(a(b)\u{e9})", &node, &vars, &no_outside()).is_none());
    assert_eq!(try_expand_vars("$(a(b)e)", &node, &vars, &no_outside()).as_deref(), Some(""));
}

#[test]
fn wildcard_requests() {
    assert!(matches!(wildcard_request("  main.c "), WildcardRequest::Literal(s) if s == "main.c"));
    assert!(matches!(wildcard_request("a/***"), WildcardRequest::Invalid));
    match wildcard_request(" src/*.c ") {
        WildcardRequest::Scan { dir, pattern } => {
            assert_eq!(dir, "src");
            let paths = vec!["src/a.c".to_string(), "src/b.h".to_string(), "src/c.c".to_string()];
            assert_eq!(wildcard_result(&pattern, &paths), "src/a.c src/c.c");
        },
        _ => panic!("a valid pattern is scanned"),
    }
    match wildcard_request("*.o") {
        WildcardRequest::Scan { dir, pattern } => {
            assert_eq!(dir, ".");
            assert!(pattern.matches("./x.o"));
        },
        _ => panic!("a valid pattern is scanned"),
    }
    assert!(GlobPattern::new("[").is_none());
}

#[test]
fn pattern_directories() {
    assert_eq!(pattern_dir("src/*.c"), "src");
    assert_eq!(pattern_dir("a/b/c?.h"), "a/b");
    assert_eq!(pattern_dir("*.o"), ".");
    assert_eq!(pattern_dir("/x"), "");
}

#[test]
fn words_are_single_spaced() {
    assert_eq!(single_spaced("  one\ttwo\n three  "), "one two three");
    assert_eq!(single_spaced("   "), "");
    assert_eq!(join_strings(&vec!["a".to_string(), "".to_string(), "b".to_string()]), "a  b");
    assert_eq!(join_strings(&Vec::new()), "");
}

#[test]
fn plain_text_expands_to_itself() {
    let mut node = DagNode::new("t".to_string(), false);
    node.prereqs.push("p".to_string());
    let mut vars = VarTable::new();
    vars.insert("CC".to_string(), "gcc".to_string());
    let outside = vec!["ignored".to_string()];
    for line in ["gcc -c main.c -o main.o", "", "echo (done), @ < ^ # %"] {
        assert_eq!(expand_vars(line, &node, &vars, &outside), line);
    }
}

#[test]
fn braces_and_automatic_variables() {
    let mut node = DagNode::new("out".to_string(), false);
    for p in ["a", "b", "a"] {
        node.prereqs.push(p.to_string());
    }
    let mut vars = VarTable::new();
    vars.insert("CC".to_string(), "gcc".to_string());
    assert_eq!(expand_vars("${CC}", &node, &vars, &no_outside()), "gcc");
    assert_eq!(expand_vars("${NONE}x", &node, &vars, &no_outside()), "x");
    assert_eq!(expand_vars("${CC", &node, &vars, &no_outside()), "${CC");
    assert_eq!(expand_vars("$^", &node, &vars, &no_outside()), "a b");
    assert_eq!(expand_vars("$+", &node, &vars, &no_outside()), "a b a");
    assert_eq!(AutoVar::AllPrereqs.expand(&node), "a b");
    assert_eq!(AutoVar::AllPrereqsKept.expand(&node), "a b a");
    assert!(matches!(AutoVar::from_char('+'), Some(AutoVar::AllPrereqsKept)));
    let ws: Vec<String> = ["x", "y", "x", "z", "y"].iter().map(|s| s.to_string()).collect();
    assert_eq!(first_occurrences(&ws), vec!["x", "y", "z"]);
}

#[test]
fn literal_wildcard_needs_no_listing() {
    let node = DagNode::new("x".into(), false);
    let vars = VarTable::new();
    assert_eq!(expand_vars("$(wildcard  a.c b.c )", &node, &vars, &no_outside()), "a.c b.c");
    assert!(matches!(&expand_function("wildcard", "*.c", &node, &vars).unwrap()[..], [Segment::Wildcard(a)] if a == "*.c"));
    assert!(matches!(&expand_function("shell", "ls", &node, &vars).unwrap()[..], [Segment::Shell(a)] if a == "ls"));
}

#[test]
fn substitution_references() {
    let node = DagNode::new("x".into(), false);
    let mut vars = VarTable::new();
    vars.insert("SRCS".to_string(), " main.c  util.c readme ".to_string());
    assert_eq!(expand_vars("$(SRCS:.c=.o)", &node, &vars, &no_outside()), "main.o util.o readme");
    assert_eq!(expand_vars("$(SRCS:=.bak)", &node, &vars, &no_outside()), "main.c.bak util.c.bak readme.bak");
    assert_eq!(expand_vars("$(NONE:.c=.o)|", &node, &vars, &no_outside()), "|");
    assert_eq!(expand_vars("$(SRCS:.c)", &node, &vars, &no_outside()), "");
}

#[test]
fn newer_prerequisites() {
    let mut node = DagNode::new("out".to_string(), false);
    for p in ["a", "b", "c"] {
        node.prereqs.push(p.to_string());
    }
    assert_eq!(newer_prereqs(&node, 100, &vec![50, 150, 0]), "b c");
    assert_eq!(newer_prereqs(&node, 0, &vec![1, 2, 3]), "a b c");
    assert_eq!(newer_prereqs(&node, 100, &vec![1, 2, 3]), "");
    let segs = expand_segments("cp $? dir", &node, &VarTable::new()).unwrap();
    assert!(matches!(&segs[1], Segment::Newer));
    assert_eq!(render_segments(&segs, &vec!["b c".to_string()]), "cp b c dir");
}

#[test]
fn variable_values_are_expanded_and_cycles_stop() {
    let mut node = DagNode::new("prog".into(), false);
    node.prereqs.push("main.o".to_string());
    let mut vars = VarTable::new();
    vars.insert("CFLAGS".to_string(), "-O2 $(EXTRA)".to_string());
    vars.insert("EXTRA".to_string(), "-g ${MORE}".to_string());
    vars.insert("MORE".to_string(), "-Wall".to_string());
    vars.insert("SELF".to_string(), "a $(SELF) b".to_string());
    vars.insert("PING".to_string(), "ping $(PONG)".to_string());
    vars.insert("PONG".to_string(), "pong $(PING)".to_string());
    vars.insert("LINK".to_string(), "cc -o $@ $^ $(shell pkg-config --libs x)".to_string());
    assert_eq!(expand_vars("$(CFLAGS)", &node, &vars, &no_outside()), "-O2 -g -Wall");
    assert_eq!(expand_vars("$(SELF)", &node, &vars, &no_outside()), "a  b");
    assert_eq!(expand_vars("$(PING)", &node, &vars, &no_outside()), "ping pong ");
    assert_eq!(expand_vars("$(LINK)", &node, &vars, &vec!["-lx".to_string()]), "cc -o prog main.o -lx");
    let segs = expand_function("CFLAGS", "", &node, &vars).unwrap();
    assert_eq!(render_segments(&segs, &no_outside()), "-O2 -g -Wall");
}
