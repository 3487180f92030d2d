//! Command-line options.
use vstd::prelude::*;
use crate::vars::pair_views;
use crate::text::{chars_of, copy_range, find_char, find_from, first_index, lemma_find_from, string_of};

verus! {

broadcast use vstd::string::group_string_axioms;

/// The options of one invocation.
#[derive(Debug)]
pub struct CliArgs {
    pub target: Option<String>,
    pub makefile: Option<String>,
    pub jobs: Option<usize>,
    pub keep_going: bool,
    pub dry_run: bool,
    pub help: bool,
    /// `-e`: environment variables override makefile assignments.
    pub env_override: bool,
    /// `-i`: failing commands do not count as errors.
    pub ignore_errors: bool,
    /// `-p`: print the rules and variables.
    pub print_db: bool,
    /// `-q`: only ask whether the target is up to date.
    pub question: bool,
    /// `-s`: do not echo commands.
    pub silent: bool,
    /// `-t`: touch targets instead of running recipes.
    pub touch: bool,
    /// `--version`.
    pub version: bool,
    /// `NAME=value` arguments, in order.
    pub overrides: Vec<(String, String)>,
}

/// The options as plain values.
pub struct CliView {
    pub target: Option<Seq<char>>,
    pub makefile: Option<Seq<char>>,
    pub jobs: Option<usize>,
    pub keep_going: bool,
    pub dry_run: bool,
    pub help: bool,
    pub env_override: bool,
    pub ignore_errors: bool,
    pub print_db: bool,
    pub question: bool,
    pub silent: bool,
    pub touch: bool,
    pub version: bool,
    pub overrides: Seq<(Seq<char>, Seq<char>)>,
}

/// The plain value of an optional string.
pub open spec fn opt_str(o: Option<String>) -> Option<Seq<char>> {
    match o {
        Some(s) => Some(s@),
        None => None,
    }
}

impl View for CliArgs {
    type V = CliView;

    open spec fn view(&self) -> CliView {
        CliView {
            target: opt_str(self.target),
            makefile: opt_str(self.makefile),
            jobs: self.jobs,
            keep_going: self.keep_going,
            dry_run: self.dry_run,
            help: self.help,
            env_override: self.env_override,
            ignore_errors: self.ignore_errors,
            print_db: self.print_db,
            question: self.question,
            silent: self.silent,
            touch: self.touch,
            version: self.version,
            overrides: pair_views(self.overrides@),
        }
    }
}

/// No options given.
pub open spec fn default_cli() -> CliView {
    CliView {
        target: None,
        makefile: None,
        jobs: None,
        keep_going: false,
        dry_run: false,
        help: false,
        env_override: false,
        ignore_errors: false,
        print_db: false,
        question: false,
        silent: false,
        touch: false,
        version: false,
        overrides: seq![],
    }
}

impl CliArgs {
    /// No options given.
    pub fn new() -> (a: Self)
        ensures
            a@ == default_cli(),
    {
        let a = CliArgs {
            target: None,
            makefile: None,
            jobs: None,
            keep_going: false,
            dry_run: false,
            help: false,
            env_override: false,
            ignore_errors: false,
            print_db: false,
            question: false,
            silent: false,
            touch: false,
            version: false,
            overrides: Vec::new(),
        };
        assert(a@.overrides =~= Seq::<(Seq<char>, Seq<char>)>::empty());
        a
    }
}

/// A decimal digit.
pub open spec fn is_digit(c: char) -> bool {
    '0' <= c && c <= '9'
}

/// The number that the decimal digits `s` spell.
pub open spec fn decimal_value(s: Seq<char>) -> int
    decreases s.len(),
{
    if s.len() == 0 {
        0
    } else {
        decimal_value(s.drop_last()) * 10 + (s.last() as int - '0' as int)
    }
}

/// The digits of a number written with an optional leading `+`.
pub open spec fn usize_digits(s: Seq<char>) -> Seq<char> {
    if s.len() > 0 && s[0] == '+' {
        s.drop_first()
    } else {
        s
    }
}

/// Every character of `s` is a decimal digit.
pub open spec fn all_digits(s: Seq<char>) -> bool {
    forall|i: int| 0 <= i < s.len() ==> is_digit(#[trigger] s[i])
}

/// `usize::from_str`: an optional `+`, then one or more decimal digits whose
/// value fits in a `usize`.
pub open spec fn parse_usize_spec(s: Seq<char>) -> Option<usize> {
    if usize_digits(s).len() > 0 && all_digits(usize_digits(s)) && decimal_value(usize_digits(s)) <= usize::MAX {
        Some(decimal_value(usize_digits(s)) as usize)
    } else {
        None
    }
}

proof fn lemma_decimal_monotone(s: Seq<char>, k: int)
    requires
        0 <= k <= s.len(),
        all_digits(s),
    ensures
        0 <= decimal_value(s.take(k)) <= decimal_value(s),
    decreases s.len(),
{
    if s.len() > 0 {
        if k == s.len() {
            assert(s.take(k) == s);
            lemma_decimal_monotone(s.drop_last(), s.len() - 1);
            assert(s.drop_last().take(s.len() - 1) == s.drop_last());
        } else {
            lemma_decimal_monotone(s.drop_last(), k);
            assert(s.drop_last().take(k) == s.take(k));
            lemma_decimal_monotone(s.drop_last(), s.len() - 1);
            assert(s.drop_last().take(s.len() - 1) == s.drop_last());
        }
    }
}

/// Reads a `usize` written in decimal, as `usize::from_str` does.
pub fn parse_usize(s: &str) -> (r: Option<usize>)
    ensures
        r == parse_usize_spec(s@),
{
    let c = chars_of(s);
    let start: usize = if c.len() > 0 && c[0] == '+' {
        1
    } else {
        0
    };
    let ghost digits = usize_digits(c@);
    assert(digits == c@.skip(start as int));
    if start >= c.len() {
        return None;
    }
    let mut value: usize = 0;
    let mut i: usize = start;
    while i < c.len()
        invariant
            start <= i <= c.len(),
            c@ == s@,
            digits == usize_digits(c@),
            digits == c@.skip(start as int),
            forall|j: int| 0 <= j < i - start ==> is_digit(#[trigger] digits[j]),
            value as int == decimal_value(digits.take(i - start)),
        decreases c.len() - i,
    {
        let ch = c[i];
        assert(digits[i - start] == ch);
        if !(ch >= '0' && ch <= '9') {
            assert(!is_digit(digits[i - start]));
            assert(!all_digits(digits));
            return None;
        }
        let d = (ch as u32 - '0' as u32) as usize;
        assert(digits.take(i + 1 - start).drop_last() == digits.take(i - start));
        if value > (usize::MAX - d) / 10 {
            proof {
                assert(decimal_value(digits.take(i + 1 - start)) == value * 10 + d) by (nonlinear_arith)
                    requires
                        decimal_value(digits.take(i + 1 - start)) == decimal_value(digits.take(i - start)) * 10 + d,
                        value as int == decimal_value(digits.take(i - start));
                assert(value * 10 + d > usize::MAX) by (nonlinear_arith)
                    requires
                        value > (usize::MAX - d) / 10,
                        d <= 9;
                if all_digits(digits) {
                    lemma_decimal_monotone(digits, i + 1 - start);
                }
            }
            return None;
        }
        proof {
            assert(value * 10 + d <= usize::MAX) by (nonlinear_arith)
                requires
                    value <= (usize::MAX - d) / 10,
                    d <= 9;
        }
        value = value * 10 + d;
        i = i + 1;
    }
    assert(digits.take(c.len() - start) == digits);
    Some(value)
}

/// A letter of the single-letter flags `-e -i -k -S -n -p -q -r -s -t`.
pub open spec fn flag_char(c: char) -> bool {
    c == 'e' || c == 'i' || c == 'k' || c == 'S' || c == 'n' || c == 'p' || c == 'q' || c == 'r' || c == 's' || c
        == 't'
}

/// The options after flag letter `c`; `-S` cancels `-k`, `-r` changes nothing.
pub open spec fn apply_flag(acc: CliView, c: char) -> CliView {
    if c == 'e' {
        CliView { env_override: true, ..acc }
    } else if c == 'i' {
        CliView { ignore_errors: true, ..acc }
    } else if c == 'k' {
        CliView { keep_going: true, ..acc }
    } else if c == 'S' {
        CliView { keep_going: false, ..acc }
    } else if c == 'n' {
        CliView { dry_run: true, ..acc }
    } else if c == 'p' {
        CliView { print_db: true, ..acc }
    } else if c == 'q' {
        CliView { question: true, ..acc }
    } else if c == 's' {
        CliView { silent: true, ..acc }
    } else if c == 't' {
        CliView { touch: true, ..acc }
    } else {
        acc
    }
}

/// The options after the flag letters `fs`, in order.
pub open spec fn apply_flags(acc: CliView, fs: Seq<char>) -> CliView
    decreases fs.len(),
{
    if fs.len() == 0 {
        acc
    } else {
        apply_flag(apply_flags(acc, fs.drop_last()), fs.last())
    }
}

/// `a` is a group of flag letters after a `-`, such as `-kn`.
pub open spec fn is_flag_group(a: Seq<char>) -> bool {
    a.len() >= 2 && a[0] == '-' && forall|k: int| 1 <= k < a.len() ==> flag_char(#[trigger] a[k])
}

/// The result of reading `args[i..]` into `acc`.
pub open spec fn args_from(args: Seq<Seq<char>>, i: int, acc: CliView) -> Result<CliView, Seq<char>>
    decreases args.len() - i,
{
    if i < 0 || i >= args.len() {
        Ok(acc)
    } else {
        let a = args[i];
        if a == "-f"@ {
            if i + 1 >= args.len() {
                Err("-f requires an argument"@)
            } else {
                args_from(args, i + 2, CliView { makefile: Some(args[i + 1]), ..acc })
            }
        } else if a == "-j"@ {
            if i + 1 >= args.len() {
                Err("-j requires an argument"@)
            } else {
                match parse_usize_spec(args[i + 1]) {
                    Some(n) => args_from(args, i + 2, CliView { jobs: Some(n), ..acc }),
                    None => Err("invalid -j value"@),
                }
            }
        } else if a == "-h"@ || a == "--help"@ {
            args_from(args, i + 1, CliView { help: true, ..acc })
        } else if a == "--version"@ {
            args_from(args, i + 1, CliView { version: true, ..acc })
        } else if is_flag_group(a) {
            args_from(args, i + 1, apply_flags(acc, a.drop_first()))
        } else if a.len() > 0 && a[0] == '-' {
            Err("unknown option: "@ + a)
        } else if first_index(a, '=') matches Some(k) && k > 0 {
            let k = first_index(a, '=')->0;
            args_from(
                args,
                i + 1,
                CliView { overrides: acc.overrides.push((a.subrange(0, k), a.subrange(k + 1, a.len() as int))), ..acc },
            )
        } else {
            args_from(args, i + 1, CliView { target: Some(a), ..acc })
        }
    }
}

/// An argument that is no option and has an `=` after its first character
/// adds exactly one override `(name, value)`, where `name` holds no `=` and
/// `name`, `=` and `value` spell the whole argument (so the value keeps any
/// later `=`), and reading goes on with the next argument.
pub proof fn lemma_override_argument(args: Seq<Seq<char>>, i: int, acc: CliView)
    requires
        0 <= i < args.len(),
        args[i].len() > 0,
        args[i][0] != '-',
        args[i][0] != '=',
        args[i].contains('='),
    ensures
        exists|name: Seq<char>, value: Seq<char>|
            #![trigger name + seq!['='] + value]
            name + seq!['='] + value == args[i] && !name.contains('=') && name.len() > 0 && args_from(args, i, acc)
                == args_from(args, i + 1, CliView { overrides: acc.overrides.push((name, value)), ..acc }),
{
    let a = args[i];
    lemma_find_from(a, '=', 0);
    let k = find_from(a, '=', 0);
    assert(k < a.len()) by {
        let j = choose|j: int| 0 <= j < a.len() && a[j] == '=';
        if k >= a.len() {
            assert(a[j] != '=');
        }
    }
    assert(k > 0) by {
        if k == 0 {
            assert(a[0] == '=');
        }
    }
    let name = a.subrange(0, k);
    let value = a.subrange(k + 1, a.len() as int);
    assert(name + seq!['='] + value =~= a);
    assert(!name.contains('=')) by {
        if name.contains('=') {
            let j = choose|j: int| 0 <= j < name.len() && name[j] == '=';
            assert(a[j] != '=');
        }
    }
    assert(a != "-f"@ && a != "-j"@ && a != "-h"@ && a != "--help"@ && a != "--version"@) by {
        reveal_strlit("-f");
        reveal_strlit("-j");
        reveal_strlit("-h");
        reveal_strlit("--help");
        reveal_strlit("--version");
    }
    assert(!is_flag_group(a));
    assert(args_from(args, i, acc) == args_from(args, i + 1, CliView { overrides: acc.overrides.push((name, value)), ..acc }));
}

fn flag_group(c: &Vec<char>) -> (b: bool)
    ensures
        b == is_flag_group(c@),
{
    if c.len() < 2 || c[0] != '-' {
        return false;
    }
    let mut k: usize = 1;
    while k < c.len()
        invariant
            1 <= k <= c.len(),
            forall|j: int| 1 <= j < k ==> flag_char(#[trigger] c@[j]),
        decreases c.len() - k,
    {
        let x = c[k];
        if !(x == 'e' || x == 'i' || x == 'k' || x == 'S' || x == 'n' || x == 'p' || x == 'q' || x == 'r' || x == 's'
            || x == 't') {
            return false;
        }
        k = k + 1;
    }
    true
}

fn set_flag(result: &mut CliArgs, x: char)
    ensures
        final(result)@ == apply_flag(old(result)@, x),
{
    if x == 'e' {
        result.env_override = true;
    } else if x == 'i' {
        result.ignore_errors = true;
    } else if x == 'k' {
        result.keep_going = true;
    } else if x == 'S' {
        result.keep_going = false;
    } else if x == 'n' {
        result.dry_run = true;
    } else if x == 'p' {
        result.print_db = true;
    } else if x == 'q' {
        result.question = true;
    } else if x == 's' {
        result.silent = true;
    } else if x == 't' {
        result.touch = true;
    }
}

fn apply_flag_letters(result: &mut CliArgs, c: &Vec<char>)
    requires
        c.len() >= 1,
    ensures
        final(result)@ == apply_flags(old(result)@, c@.drop_first()),
{
    let ghost fs = c@.drop_first();
    let mut k: usize = 1;
    assert(fs.take(0) =~= Seq::<char>::empty());
    while k < c.len()
        invariant
            1 <= k <= c.len(),
            fs == c@.drop_first(),
            result@ == apply_flags(old(result)@, fs.take(k - 1)),
        decreases c.len() - k,
    {
        let x = c[k];
        assert(fs.take(k as int).drop_last() == fs.take(k - 1));
        assert(fs.take(k as int).last() == x);
        set_flag(result, x);
        k = k + 1;
    }
    assert(fs.take(c.len() - 1) == fs);
}

/// Reads the command-line arguments (without the program name): a target,
/// `NAME=value` overrides, `-f FILE`, `-j N`, `-h`/`--help`, `--version` and
/// groups of the flags `-e -i -k -S -n -p -q -r -s -t` (such as `-kn`); a
/// later option of a kind replaces an earlier one.
#[verifier::rlimit(50)]
pub fn parse_args(argv: &Vec<String>) -> (r: Result<CliArgs, String>)
    ensures
        match r {
            Ok(a) => args_from(argv.deep_view(), 0, default_cli()) == Ok::<CliView, Seq<char>>(a@),
            Err(e) => args_from(argv.deep_view(), 0, default_cli()) == Err::<CliView, Seq<char>>(e@),
        },
{
    let mut result = CliArgs::new();
    let mut i: usize = 0;
    let ghost args = argv.deep_view();
    while i < argv.len()
        invariant
            args == argv.deep_view(),
            i <= argv.len(),
            args_from(args, 0, default_cli()) == args_from(args, i as int, result@),
        decreases argv.len() - i,
    {
        let a = &argv[i];
        assert(args[i as int] == a@);
        if *a == "-f".to_string() {
            i = i + 1;
            if i >= argv.len() {
                return Err("-f requires an argument".to_string());
            }
            result.makefile = Some(argv[i].clone());
        } else if *a == "-j".to_string() {
            i = i + 1;
            if i >= argv.len() {
                return Err("-j requires an argument".to_string());
            }
            match parse_usize(argv[i].as_str()) {
                Some(n) => {
                    result.jobs = Some(n);
                },
                None => {
                    return Err("invalid -j value".to_string());
                },
            }
        } else if *a == "-h".to_string() || *a == "--help".to_string() {
            result.help = true;
        } else if *a == "--version".to_string() {
            result.version = true;
        } else {
            let c = chars_of(a.as_str());
            if flag_group(&c) {
                apply_flag_letters(&mut result, &c);
            } else if c.len() > 0 && c[0] == '-' {
                let mut e = "unknown option: ".to_string();
                e.append(a.as_str());
                return Err(e);
            } else {
                match find_char(&c, '=') {
                    Some(k) if k > 0 => {
                        let name = string_of(&copy_range(&c, 0, k));
                        let value = string_of(&copy_range(&c, k + 1, c.len()));
                        let ghost before = result@;
                        result.overrides.push((name, value));
                        assert(result@.overrides =~= before.overrides.push((c@.subrange(0, k as int), c@.subrange(k + 1, c@.len() as int))));
                    },
                    _ => {
                        result.target = Some(a.clone());
                    },
                }
            }
        }
        i = i + 1;
    }
    Ok(result)
}

} // verus!
