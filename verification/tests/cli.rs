use mkultra::cli::{parse_args, parse_usize, CliArgs};

fn parse_args_vec(args: &[&str]) -> Result<CliArgs, String> {
    let argv: Vec<String> = args.iter().map(|s| s.to_string()).collect();
    parse_args(&argv)
}

#[test]
fn test_parse_args_empty() {
    let args = parse_args_vec(&[] as &[&str]);
    assert!(args.is_ok());
    let args = args.unwrap();
    assert!(args.target.is_none());
    assert!(args.makefile.is_none());
    assert!(!args.keep_going);
    assert!(!args.dry_run);
}

#[test]
fn test_parse_args_target() {
    let args = parse_args_vec(&["all"]).unwrap();
    assert_eq!(args.target.as_deref(), Some("all"));
}

#[test]
fn test_parse_args_f() {
    let args = parse_args_vec(&["-f", "CustomMakefile"]).unwrap();
    assert_eq!(args.makefile.as_deref(), Some("CustomMakefile"));
}

#[test]
fn test_parse_args_k() {
    let args = parse_args_vec(&["-k"]).unwrap();
    assert!(args.keep_going);
}

#[test]
fn test_parse_args_n() {
    let args = parse_args_vec(&["-n"]).unwrap();
    assert!(args.dry_run);
}

#[test]
fn test_parse_args_j() {
    let args = parse_args_vec(&["-j", "4"]).unwrap();
    assert_eq!(args.jobs, Some(4));
}

#[test]
fn test_parse_args_combined() {
    let args = parse_args_vec(&["build", "-f", "Makefile.test", "-j", "2", "-k", "-n"]).unwrap();
    assert_eq!(args.target.as_deref(), Some("build"));
    assert_eq!(args.makefile.as_deref(), Some("Makefile.test"));
    assert_eq!(args.jobs, Some(2));
    assert!(args.keep_going);
    assert!(args.dry_run);
}

#[test]
fn test_parse_args_unknown_option() {
    let err = parse_args_vec(&["--unknown"]).unwrap_err();
    assert!(err.contains("unknown option"));
}

#[test]
fn test_parse_args_help() {
    let args = parse_args_vec(&["-h"]).unwrap();
    assert!(args.help);
}

#[test]
fn parse_args_missing_values() {
    assert_eq!(parse_args_vec(&["-f"]).err().unwrap(), "-f requires an argument");
    assert_eq!(parse_args_vec(&["-j"]).err().unwrap(), "-j requires an argument");
    assert_eq!(parse_args_vec(&["-j", "x"]).err().unwrap(), "invalid -j value");
    assert_eq!(parse_args_vec(&["-x"]).err().unwrap(), "unknown option: -x");
}

#[test]
fn parse_args_later_option_wins() {
    let args = parse_args_vec(&["a", "b", "--help", "-f", "x", "-f", "y"]).unwrap();
    assert_eq!(args.target.as_deref(), Some("b"));
    assert_eq!(args.makefile.as_deref(), Some("y"));
    assert!(args.help);
}

#[test]
fn parse_usize_like_std() {
    for s in ["0", "4", "+7", "", "+", "-1", "12a", "18446744073709551615", "18446744073709551616", "007"] {
        assert_eq!(parse_usize(s), s.parse::<usize>().ok(), "input {:?}", s);
    }
}

#[test]
fn overrides_and_flag_groups() {
    let a = parse_args_vec(&["CC=clang", "all", "X=", "-kn", "-S", "-eipqrst", "--version"]).unwrap();
    assert_eq!(a.target.as_deref(), Some("all"));
    assert_eq!(a.overrides, vec![("CC".to_string(), "clang".to_string()), ("X".to_string(), String::new())]);
    assert!(!a.keep_going);
    assert!(a.dry_run && a.env_override && a.ignore_errors && a.print_db && a.question && a.silent && a.touch);
    assert!(a.version);
    let b = parse_args_vec(&["=x"]).unwrap();
    assert_eq!(b.target.as_deref(), Some("=x"));
    assert!(b.overrides.is_empty());
    assert_eq!(parse_args_vec(&["-kx"]).err().unwrap(), "unknown option: -kx");
    let c = parse_args_vec(&["-S", "-k"]).unwrap();
    assert!(c.keep_going);
}
