use mkultra::dag::Dag;
use mkultra::parser::parse_makefile;

#[test]
fn test_parse_simple_rule() {
    let content = "all: output\n\techo done\n";
    let mut dag = Dag::new();
    parse_makefile(content, &mut dag).unwrap();
    assert!(dag.contains_node("all"));
    assert_eq!(dag.node("all").unwrap().prereqs, vec!["output"]);
    assert_eq!(dag.node("all").unwrap().recipes, vec!["echo done"]);
}

#[test]
fn test_parse_multiple_prereqs() {
    let content = "program: main.o utils.o\n\tcat $^ > program\n";
    let mut dag = Dag::new();
    parse_makefile(content, &mut dag).unwrap();
    let prereqs = &dag.node("program").unwrap().prereqs;
    assert_eq!(prereqs.len(), 2);
    assert!(prereqs.contains(&"main.o".to_string()));
    assert!(prereqs.contains(&"utils.o".to_string()));
}

#[test]
fn test_parse_phony() {
    let content = ".PHONY: all clean\nall: output\n\tcat output\nclean:\n\trm -f output\n";
    let mut dag = Dag::new();
    parse_makefile(content, &mut dag).unwrap();
    assert!(dag.node(".PHONY").unwrap().is_phony);
    assert!(dag.node("all").unwrap().is_phony);
    assert!(dag.node("clean").unwrap().is_phony);
}

#[test]
fn test_parse_comments_skipped() {
    let content = "# this is a comment\nall: output\n\techo\n";
    let mut dag = Dag::new();
    parse_makefile(content, &mut dag).unwrap();
    assert!(!dag.contains_node("# this is a comment"));
    assert!(dag.contains_node("all"));
}

#[test]
fn test_parse_variable_assignment_ignored() {
    let content = "CC = gcc\nall: main.o\n\t$(CC) -o all main.o\n";
    let mut dag = Dag::new();
    parse_makefile(content, &mut dag).unwrap();
    assert!(!dag.contains_node("CC = gcc"));
    assert!(dag.contains_node("all"));
}

#[test]
fn test_parse_empty_lines_reset_current_target() {
    let content = "a: b\n\techo a\n\nb:\n\techo b\n";
    let mut dag = Dag::new();
    parse_makefile(content, &mut dag).unwrap();
    assert_eq!(dag.node("a").unwrap().recipes, vec!["echo a"]);
    assert_eq!(dag.node("b").unwrap().recipes, vec!["echo b"]);
}

#[test]
fn test_parse_no_recipe_target() {
    let content = "all: deps\n";
    let mut dag = Dag::new();
    parse_makefile(content, &mut dag).unwrap();
    assert!(dag.node("all").unwrap().recipes.is_empty());
}

#[test]
fn test_parse_backslash_continuation() {
    let content = "all: foo\n\t@if [ -f foo ]; then \\\n\t\techo yes; \\\n\telse \\\n\t\techo no; \\\n\tfi\n";
    let mut dag = Dag::new();
    parse_makefile(content, &mut dag).unwrap();
    let recipe = &dag.node("all").unwrap().recipes[0];
    assert!(recipe.contains("if [ -f foo ]; then"));
    assert!(recipe.contains("echo yes;"));
    assert!(recipe.contains("echo no;"));
    assert!(recipe.contains("fi"));
}

#[test]
fn test_parse_backslash_continuation_multiple() {
    let content = "all: foo\n\tcmd1 \\\n\tcmd2 \\\n\tcmd3\n";
    let mut dag = Dag::new();
    parse_makefile(content, &mut dag).unwrap();
    let recipe = &dag.node("all").unwrap().recipes[0];
    assert!(recipe.contains("cmd1"));
    assert!(recipe.contains("cmd2"));
    assert!(recipe.contains("cmd3"));
}

#[test]
fn test_parse_backslash_continuation_then_empty_line() {
    let content = "all: foo\n\tcmd1 \\\n\tcmd2\n\nother:\n\techo other\n";
    let mut dag = Dag::new();
    parse_makefile(content, &mut dag).unwrap();
    assert_eq!(dag.node("all").unwrap().recipes.len(), 1);
    assert!(dag.node("all").unwrap().recipes[0].contains("cmd1"));
    assert!(dag.node("all").unwrap().recipes[0].contains("cmd2"));
    assert_eq!(dag.node("other").unwrap().recipes.len(), 1);
}

#[test]
fn test_parse_single_recipe_no_continuation() {
    let content = "all: foo\n\techo single line\n";
    let mut dag = Dag::new();
    parse_makefile(content, &mut dag).unwrap();
    assert_eq!(dag.node("all").unwrap().recipes.len(), 1);
    assert_eq!(dag.node("all").unwrap().recipes[0], "echo single line");
}

#[test]
fn test_parse_multiple_recipes_no_continuation() {
    let content = "all: foo\n\techo line1\n\techo line2\n\techo line3\n";
    let mut dag = Dag::new();
    parse_makefile(content, &mut dag).unwrap();
    assert_eq!(dag.node("all").unwrap().recipes.len(), 3);
}

#[test]
fn test_parse_continuation_then_new_recipe() {
    let content = "all: foo\n\tcmd1 \\\n\tcmd2\n\tcmd3\n";
    let mut dag = Dag::new();
    parse_makefile(content, &mut dag).unwrap();
    assert_eq!(dag.node("all").unwrap().recipes.len(), 2);
    assert!(dag.node("all").unwrap().recipes[0].contains("cmd1"));
    assert!(dag.node("all").unwrap().recipes[0].contains("cmd2"));
    assert_eq!(dag.node("all").unwrap().recipes[1], "cmd3");
}

#[test]
fn test_parse_continuation_preserves_spaces() {
    let content = "all: foo\n\t@echo   spaces   here \\\n\t     more spaces\n";
    let mut dag = Dag::new();
    parse_makefile(content, &mut dag).unwrap();
    let recipe = &dag.node("all").unwrap().recipes[0];
    assert!(recipe.contains("spaces"));
}

#[test]
fn test_parse_empty_lines_dont_break_recipes() {
    let content = "all: foo\n\techo start\n\n\techo middle\n\techo end\n";
    let mut dag = Dag::new();
    parse_makefile(content, &mut dag).unwrap();
    assert_eq!(dag.node("all").unwrap().recipes.len(), 3);
    assert_eq!(dag.node("all").unwrap().recipes[0], "echo start");
    assert_eq!(dag.node("all").unwrap().recipes[1], "echo middle");
    assert_eq!(dag.node("all").unwrap().recipes[2], "echo end");
}

#[test]
fn test_parse_makefile_real_world_style() {
    let content = "\
CC = gcc
CFLAGS = -Wall -O2

all: app

app: main.o utils.o
\t$(CC) $(CFLAGS) -o $@ $^\n\
\nclean:\n\trm -f app *.o\n\n.PHONY: all clean\n";
    let mut dag = Dag::new();
    parse_makefile(content, &mut dag).unwrap();
    assert_eq!(dag.variable("CC").map(|s| s.as_str()), Some("gcc"));
    assert!(dag.contains_node("all"));
    assert!(dag.contains_node("clean"));
    assert!(dag.node("clean").unwrap().is_phony);
}

#[test]
fn test_parse_variables() {
    let content = "CC = gcc\nCFLAGS = -Wall\nall: main.o\n\t$(CC) $(CFLAGS) -o $@ $<\n";
    let mut dag = Dag::new();
    parse_makefile(content, &mut dag).unwrap();
    assert_eq!(dag.variable("CC").map(|s| s.as_str()), Some("gcc"));
    assert_eq!(dag.variable("CFLAGS").map(|s| s.as_str()), Some("-Wall"));
}

#[test]
fn test_parse_variables_with_auto_vars() {
    let content = "CC = gcc\nall: main.o\n\t$(CC) -o $@ $<\n";
    let mut dag = Dag::new();
    parse_makefile(content, &mut dag).unwrap();
    let node = dag.node("all").unwrap();
    assert_eq!(node.recipes.len(), 1);
    assert_eq!(node.prereqs, vec!["main.o"]);
}

#[test]
fn test_parse_real_world_makefile() {
    let content = "\
CC = gcc
CFLAGS = -Wall -O2
TARGET = app

all: $(TARGET)

$(TARGET): main.o utils.o
\t$(CC) $(CFLAGS) -o $@ $^

main.o: main.c
\t$(CC) $(CFLAGS) -c $< -o $@

utils.o: utils.c
\t$(CC) $(CFLAGS) -c $< -o $@

clean:
\trm -f $(TARGET) *.o
";
    let mut dag = Dag::new();
    parse_makefile(content, &mut dag).unwrap();
    assert_eq!(dag.variable("CC").map(|s| s.as_str()), Some("gcc"));
    assert_eq!(dag.variable("CFLAGS").map(|s| s.as_str()), Some("-Wall -O2"));
    assert!(dag.contains_node("all"));
    assert!(dag.contains_node("clean"));
    assert_eq!(dag.node("$(TARGET)").unwrap().prereqs, vec!["main.o", "utils.o"]);
}

#[test]
fn continuation_joins_with_newlines() {
    let mut dag = Dag::new();
    parse_makefile("all:\n\tcmd1 \\\n\tcmd2\n", &mut dag).unwrap();
    assert_eq!(dag.node("all").unwrap().recipes, vec!["cmd1 \ncmd2"]);
}

#[test]
fn pending_continuation_is_flushed_trimmed() {
    let mut dag = Dag::new();
    parse_makefile("all:\n\tcmd1 \\\nx = 1\n", &mut dag).unwrap();
    assert_eq!(dag.node("all").unwrap().recipes, vec!["cmd1"]);
    let mut dag2 = Dag::new();
    parse_makefile("all:\n\tcmd1 \\", &mut dag2).unwrap();
    assert_eq!(dag2.node("all").unwrap().recipes, vec!["cmd1"]);
}

#[test]
fn assignment_clears_current_target() {
    let mut dag = Dag::new();
    parse_makefile("all:\nX = 1\n\techo lost\n", &mut dag).unwrap();
    assert!(dag.node("all").unwrap().recipes.is_empty());
    assert_eq!(dag.variable("X").map(|s| s.as_str()), Some("1"));
}

#[test]
fn assignment_operators() {
    let mut dag = Dag::new();
    parse_makefile("CC := gcc\nall:\n", &mut dag).unwrap();
    assert_eq!(dag.variable("CC").map(|s| s.as_str()), Some("gcc"));
    assert!(!dag.contains_node("CC"));
    let mut dag2 = Dag::new();
    let text = "X:=1\nA?=b\nA ?= c\nF = -O2\nF += -Wall\nG += g\nE =\nE += e\n";
    parse_makefile(text, &mut dag2).unwrap();
    assert_eq!(dag2.variable("X").map(|s| s.as_str()), Some("1"));
    assert_eq!(dag2.variable("A").map(|s| s.as_str()), Some("b"));
    assert!(dag2.variable("A?").is_none());
    assert_eq!(dag2.variable("F").map(|s| s.as_str()), Some("-O2 -Wall"));
    assert_eq!(dag2.variable("G").map(|s| s.as_str()), Some("g"));
    assert_eq!(dag2.variable("E").map(|s| s.as_str()), Some("e"));
    let mut dag3 = Dag::new();
    parse_makefile("X ::= 1\n", &mut dag3).unwrap();
    assert!(dag3.variable("X").is_none());
}

#[test]
fn crlf_lines_and_first_rule_default() {
    let mut dag = Dag::new();
    parse_makefile(".PHONY: x\r\nfirst: a b\r\n\techo 1\r\nsecond:\r\n", &mut dag).unwrap();
    assert_eq!(dag.default_target().map(|s| s.as_str()), Some("first"));
    assert_eq!(dag.node("first").unwrap().prereqs, vec!["a", "b"]);
    assert_eq!(dag.node("first").unwrap().recipes, vec!["echo 1"]);
    assert!(dag.node("x").unwrap().is_phony);
    assert!(dag.contains_node("second"));
}

#[test]
fn recipe_before_any_rule_is_dropped() {
    let mut dag = Dag::new();
    parse_makefile("\techo orphan\nall:\n", &mut dag).unwrap();
    assert!(dag.node("all").unwrap().recipes.is_empty());
}

#[test]
fn phony_declared_after_rule_marks_existing_target() {
    let mut dag = Dag::new();
    parse_makefile("clean:\n\trm x\n.PHONY: clean\n", &mut dag).unwrap();
    assert!(dag.node("clean").unwrap().is_phony);
    assert_eq!(dag.default_target().map(|s| s.as_str()), Some("clean"));
}

#[test]
fn reading_more_keeps_targets_and_default() {
    let mut dag = Dag::new();
    parse_makefile("first: a\n\techo first\n", &mut dag).unwrap();
    parse_makefile("second: b\n.PHONY: first\nX = 1\n", &mut dag).unwrap();
    assert_eq!(dag.default_target().map(|s| s.as_str()), Some("first"));
    for name in ["first", "a", "second", "b"] {
        assert!(dag.contains_node(name));
    }
    assert!(dag.node("first").unwrap().is_phony);
}

#[test]
fn default_is_first_ordinary_rule() {
    let mut dag = Dag::new();
    parse_makefile(".PHONY: all\n\tignored\nX = 1\n.hidden: a\nall: b\nlater: c\n", &mut dag).unwrap();
    assert_eq!(dag.default_target().map(|s| s.as_str()), Some("all"));
    let mut none = Dag::new();
    parse_makefile("X = 1\n.SUFFIXES: .c\n# all: b\n", &mut none).unwrap();
    assert!(none.default_target().is_none());
}

#[test]
fn operator_must_touch_the_equals_sign() {
    let mut dag = Dag::new();
    parse_makefile("a : = b\nc + = d\ne := f\n", &mut dag).unwrap();
    assert!(dag.contains_node("a"));
    assert_eq!(dag.node("a").unwrap().prereqs, vec!["=", "b"]);
    assert_eq!(dag.default_target().map(|s| s.as_str()), Some("a"));
    assert!(dag.variable("a").is_none());
    assert!(dag.variable("c").is_none());
    assert!(!dag.contains_node("c"));
    assert_eq!(dag.variable("e").map(|s| s.as_str()), Some("f"));
}
