//! Expansion of recipe lines: `$@`, `$<`, `$^`, `$+`, `$?`, `$$`, `$NAME`,
//! `$(NAME)`, `${NAME}`, substitution references `$(NAME:from=to)` and the
//! functions `$(wildcard ...)` and `$(shell ...)`.
use vstd::prelude::*;
use crate::dag::{DagNode, NodeView};
use crate::text::{chars_of, concat_chars, copy_range, find_char, find_from, first_index, has_char, lemma_find_from, string_of, split_words, split_ws, trim, trim_chars, views};
use crate::vars::VarTable;

verus! {

broadcast use vstd::string::group_string_axioms;

/// The value of `char::is_alphanumeric` (Unicode `Alphabetic` or `Numeric`).
pub uninterp spec fn is_alnum(c: char) -> bool;

/// `char::is_alphanumeric`.
#[verifier::external_body]
fn char_is_alphanumeric(c: char) -> (b: bool)
    ensures
        b == is_alnum(c),
{
    c.is_alphanumeric()
}

/// An ASCII letter or digit.
pub open spec fn is_ascii_alnum(c: char) -> bool {
    ('a' <= c && c <= 'z') || ('A' <= c && c <= 'Z') || ('0' <= c && c <= '9')
}

/// `char::is_alphanumeric`: among ASCII characters exactly the letters and
/// digits (the only ASCII characters that are Unicode `Alphabetic` or
/// `Numeric`); for other characters, `is_alnum`.
pub open spec fn alphanumeric(c: char) -> bool {
    if '\u{80}' > c {
        is_ascii_alnum(c)
    } else {
        is_alnum(c)
    }
}

/// A character that may appear in a plain variable name.
pub open spec fn is_name_char(c: char) -> bool {
    alphanumeric(c) || c == '_'
}

fn name_char(c: char) -> (b: bool)
    ensures
        b == is_name_char(c),
{
    let alnum = if '\u{80}' > c {
        ('a' <= c && c <= 'z') || ('A' <= c && c <= 'Z') || ('0' <= c && c <= '9')
    } else {
        char_is_alphanumeric(c)
    };
    alnum || c == '_'
}

/// The automatic variables.
pub enum AutoVar {
    /// `$@`: the target.
    Target,
    /// `$<`: the first prerequisite.
    FirstPrereq,
    /// `$^`: the prerequisites, each once (at its first place), separated by spaces.
    AllPrereqs,
    /// `$+`: all prerequisites in order, repeats kept, separated by spaces.
    AllPrereqsKept,
}

/// The automatic variable that `c` names after a `$`.
pub open spec fn auto_var_of(c: char) -> Option<AutoVar> {
    if c == '@' {
        Some(AutoVar::Target)
    } else if c == '<' {
        Some(AutoVar::FirstPrereq)
    } else if c == '^' {
        Some(AutoVar::AllPrereqs)
    } else if c == '+' {
        Some(AutoVar::AllPrereqsKept)
    } else {
        None
    }
}

/// `ws` with every repeat of an earlier word left out.
pub open spec fn dedup(ws: Seq<Seq<char>>) -> Seq<Seq<char>>
    decreases ws.len(),
{
    if ws.len() == 0 {
        seq![]
    } else if ws.drop_last().contains(ws.last()) {
        dedup(ws.drop_last())
    } else {
        dedup(ws.drop_last()).push(ws.last())
    }
}

/// The words of `ws` joined by `sep`.
pub open spec fn join(ws: Seq<Seq<char>>, sep: Seq<char>) -> Seq<char>
    decreases ws.len(),
{
    if ws.len() == 0 {
        seq![]
    } else if ws.len() == 1 {
        ws[0]
    } else {
        join(ws.drop_last(), sep) + sep + ws.last()
    }
}

/// What an automatic variable stands for in the rule of `node`.
pub open spec fn auto_value(v: AutoVar, node: NodeView) -> Seq<char> {
    match v {
        AutoVar::Target => node.target,
        AutoVar::FirstPrereq => if node.prereqs.len() > 0 {
            node.prereqs[0]
        } else {
            seq![]
        },
        AutoVar::AllPrereqs => join(dedup(node.prereqs), seq![' ']),
        AutoVar::AllPrereqsKept => join(node.prereqs, seq![' ']),
    }
}

/// The words of `ws` separated by single spaces.
pub fn join_strings(ws: &Vec<String>) -> (r: String)
    ensures
        r@ == join(ws.deep_view(), seq![' ']),
{
    let mut out: Vec<char> = Vec::new();
    let mut k: usize = 0;
    while k < ws.len()
        invariant
            k <= ws.len(),
            out@ == join(ws.deep_view().take(k as int), seq![' ']),
        decreases ws.len() - k,
    {
        let w = chars_of(ws[k].as_str());
        if k > 0 {
            out.push(' ');
        }
        let mut j: usize = 0;
        let ghost base = out@;
        while j < w.len()
            invariant
                j <= w.len(),
                out@ == base + w@.take(j as int),
            decreases w.len() - j,
        {
            out.push(w[j]);
            assert(w@.take(j + 1) == w@.take(j as int).push(w@[j as int]));
            j = j + 1;
        }
        proof {
            let t = ws.deep_view().take(k + 1);
            assert(t.drop_last() == ws.deep_view().take(k as int));
            assert(t.last() == w@);
            assert(w@.take(w@.len() as int) == w@);
            if k == 0 {
                assert(out@ == w@);
            }
        }
        k = k + 1;
    }
    assert(ws.deep_view().take(ws.len() as int) == ws.deep_view());
    string_of(&out)
}

/// The words of `ws`, each once, at its first place.
pub fn first_occurrences(ws: &Vec<String>) -> (r: Vec<String>)
    ensures
        r.deep_view() == dedup(ws.deep_view()),
{
    let mut r: Vec<String> = Vec::new();
    let mut k: usize = 0;
    while k < ws.len()
        invariant
            k <= ws.len(),
            r.deep_view() == dedup(ws.deep_view().take(k as int)),
        decreases ws.len() - k,
    {
        let ghost t = ws.deep_view().take(k + 1);
        assert(t.drop_last() == ws.deep_view().take(k as int));
        assert(t.last() == ws@[k as int]@);
        let mut seen = false;
        let mut j: usize = 0;
        while j < k
            invariant
                j <= k < ws.len(),
                !seen ==> forall|m: int| 0 <= m < j ==> ws@[m]@ != ws@[k as int]@,
                seen ==> ws.deep_view().take(k as int).contains(ws@[k as int]@),
            decreases k - j,
        {
            if ws[j] == ws[k] {
                assert(ws.deep_view().take(k as int)[j as int] == ws@[k as int]@);
                seen = true;
            }
            j = j + 1;
        }
        if !seen {
            assert(!ws.deep_view().take(k as int).contains(ws@[k as int]@)) by {
                if ws.deep_view().take(k as int).contains(ws@[k as int]@) {
                    let m = choose|m: int| 0 <= m < k && ws.deep_view().take(k as int)[m] == ws@[k as int]@;
                    assert(ws.deep_view().take(k as int)[m] == ws@[m]@);
                }
            }
            let ghost before = r.deep_view();
            r.push(ws[k].clone());
            assert(r.deep_view() =~= before.push(ws@[k as int]@));
        }
        k = k + 1;
    }
    assert(ws.deep_view().take(ws.len() as int) == ws.deep_view());
    r
}

impl AutoVar {
    /// The automatic variable that `c` names after a `$`, if any.
    pub fn from_char(c: char) -> (r: Option<Self>)
        ensures
            r == auto_var_of(c),
    {
        if c == '@' {
            Some(AutoVar::Target)
        } else if c == '<' {
            Some(AutoVar::FirstPrereq)
        } else if c == '^' {
            Some(AutoVar::AllPrereqs)
        } else if c == '+' {
            Some(AutoVar::AllPrereqsKept)
        } else {
            None
        }
    }

    /// What this variable stands for in the rule of `node`.
    pub fn expand(&self, node: &DagNode) -> (r: String)
        ensures
            r@ == auto_value(*self, node@),
    {
        match self {
            AutoVar::Target => node.target.clone(),
            AutoVar::FirstPrereq => if node.prereqs.len() > 0 {
                node.prereqs[0].clone()
            } else {
                String::new()
            },
            AutoVar::AllPrereqs => join_strings(&first_occurrences(&node.prereqs)),
            AutoVar::AllPrereqsKept => join_strings(&node.prereqs),
        }
    }
}

/// The end of the run of name characters that starts at `i`.
pub open spec fn name_end(s: Seq<char>, i: int) -> int
    decreases s.len() - i,
{
    if 0 <= i < s.len() && is_name_char(s[i]) {
        name_end(s, i + 1)
    } else {
        i
    }
}

/// Bounds of `name_end`.
pub proof fn lemma_name_end(s: Seq<char>, i: int)
    requires
        0 <= i <= s.len(),
    ensures
        i <= name_end(s, i) <= s.len(),
        0 <= i < s.len() && is_name_char(s[i]) ==> i < name_end(s, i),
    decreases s.len() - i,
{
    if i < s.len() && is_name_char(s[i]) {
        lemma_name_end(s, i + 1);
    }
}

/// A plain variable reference whose name starts at `start`: the name and how
/// many characters the reference takes, counting the `$` before it.
pub open spec fn simple_var(s: Seq<char>, start: int) -> Option<(Seq<char>, int)> {
    let end = name_end(s, start);
    if end > start {
        Some((s.subrange(start, end), 1 + end - start))
    } else {
        None
    }
}

/// Reads a variable name made of alphanumeric characters and underscores
/// starting at `start`; returns it with its length plus one (for the `$`).
pub fn parse_simple_var(chars: &[char], start: usize) -> (r: Option<(String, usize)>)
    requires
        start <= chars.len(),
        start > 0 || chars.len() < usize::MAX,
    ensures
        match r {
            Some((name, consumed)) => simple_var(chars@, start as int) == Some((name@, consumed as int)),
            None => simple_var(chars@, start as int) is None,
        },
{
    let mut end = start;
    while end < chars.len() && name_char(chars[end])
        invariant
            start <= end <= chars.len(),
            name_end(chars@, start as int) == name_end(chars@, end as int),
        decreases chars.len() - end,
    {
        end = end + 1;
    }
    if end > start {
        let name = string_of(&copy_range(chars, start, end));
        Some((name, end - start + 1))
    } else {
        None
    }
}

/// The position just after the parenthesis that closes `depth` open ones,
/// scanning from `i`; -1 if there is none.
pub open spec fn close_pos(s: Seq<char>, i: int, depth: nat) -> int
    decreases s.len() - i,
{
    if depth == 0 {
        i
    } else if i < 0 || i >= s.len() {
        -1
    } else if s[i] == '(' {
        close_pos(s, i + 1, depth + 1)
    } else if s[i] == ')' {
        close_pos(s, i + 1, (depth - 1) as nat)
    } else {
        close_pos(s, i + 1, depth)
    }
}

/// Bounds of `close_pos`.
pub proof fn lemma_close_pos(s: Seq<char>, i: int, depth: nat)
    requires
        0 <= i <= s.len(),
    ensures
        close_pos(s, i, depth) == -1 || (i <= close_pos(s, i, depth) <= s.len()),
        depth > 0 && close_pos(s, i, depth) != -1 ==> i < close_pos(s, i, depth),
    decreases s.len() - i,
{
    if depth > 0 && i < s.len() {
        if s[i] == '(' {
            lemma_close_pos(s, i + 1, depth + 1);
        } else if s[i] == ')' {
            lemma_close_pos(s, i + 1, (depth - 1) as nat);
        } else {
            lemma_close_pos(s, i + 1, depth);
        }
    }
}

/// The text between the parenthesis at `start` and the one that closes it,
/// with the position just after the closing one.
pub open spec fn call_body(s: Seq<char>, start: int) -> Option<(Seq<char>, int)> {
    let end = close_pos(s, start + 1, 1);
    if end < 0 {
        None
    } else {
        Some((s.subrange(start + 1, end - 1), end))
    }
}

/// Splitting `name(args)` (with no space in the call) drops the last
/// character of the arguments by its byte length in UTF-8, which fails when
/// that character takes more than one byte.
pub open spec fn split_fails(full: Seq<char>) -> bool {
    first_index(full, ' ') is None && match first_index(full, '(') {
        Some(k) => {
            let a = full.subrange(k + 1, full.len() as int);
            a.len() > 0 && a.last() >= '\u{80}'
        },
        None => false,
    }
}

/// A function call's text split into name and arguments: at the first space
/// (`$(shell echo hi)`), else at the first `(` (dropping the last
/// character), else at the first `,`, else no arguments.
pub open spec fn split_call(full: Seq<char>) -> (Seq<char>, Seq<char>) {
    if first_index(full, ' ') is Some {
        let k = first_index(full, ' ')->0;
        (full.subrange(0, k), full.subrange(k + 1, full.len() as int))
    } else {
        split_call_plain(full)
    }
}

/// A call without a space split at the first `(` (dropping the last
/// character), else at the first `,`, else with no arguments.
pub open spec fn split_call_plain(full: Seq<char>) -> (Seq<char>, Seq<char>) {
    match first_index(full, '(') {
        Some(k) => {
            let a = full.subrange(k + 1, full.len() as int);
            (full.subrange(0, k), if a.len() > 0 {
                a.drop_last()
            } else {
                a
            })
        },
        None => match first_index(full, ',') {
            Some(k) => (full.subrange(0, k), full.subrange(k + 1, full.len() as int)),
            None => (full, seq![]),
        },
    }
}

/// Reading the call at `start` would fail.
pub open spec fn call_fails(s: Seq<char>, start: int) -> bool {
    match call_body(s, start) {
        Some((full, end)) => split_fails(full),
        None => false,
    }
}

/// The call whose `(` is at `start`: name, arguments and how many characters
/// it takes counting the `$` before it; `None` when it is not closed.
pub open spec fn function_call(s: Seq<char>, start: int) -> Option<(Seq<char>, Seq<char>, int)> {
    match call_body(s, start) {
        Some((full, end)) => Some((split_call(full).0, split_call(full).1, end - start + 1)),
        None => None,
    }
}

/// The reference `${name}` whose `{` is at `start`: the name and the
/// position after the closing `}`; `None` when it is not closed.
pub open spec fn brace_ref(s: Seq<char>, start: int) -> Option<(Seq<char>, int)> {
    let e = find_from(s, '}', start + 1);
    if e < s.len() {
        Some((s.subrange(start + 1, e), e + 1))
    } else {
        None
    }
}

fn brace_end(chars: &[char], start: usize) -> (r: Option<usize>)
    requires
        start < chars.len(),
    ensures
        match r {
            Some(e) => brace_ref(chars@, start as int) == Some((chars@.subrange(start + 1, e as int), e + 1)) && start < e < chars.len(),
            None => brace_ref(chars@, start as int) is None,
        },
{
    proof {
        lemma_find_from(chars@, '}', start + 1);
    }
    let mut e = start + 1;
    while e < chars.len() && chars[e] != '}'
        invariant
            start < e <= chars.len(),
            find_from(chars@, '}', start + 1) == find_from(chars@, '}', e as int),
        decreases chars.len() - e,
    {
        e = e + 1;
    }
    if e < chars.len() {
        Some(e)
    } else {
        None
    }
}

/// How many more `(` than `)` there are in `s[lo..hi]`.
pub open spec fn paren_depth(s: Seq<char>, lo: int, hi: int) -> int
    decreases hi - lo,
{
    if hi <= lo {
        0
    } else {
        paren_depth(s, lo, hi - 1) + if s[hi - 1] == '(' {
            1int
        } else if s[hi - 1] == ')' {
            -1int
        } else {
            0int
        }
    }
}

proof fn lemma_close_pos_depth(s: Seq<char>, start: int, i: int, d: nat)
    requires
        0 <= start < i <= s.len(),
        d > 0,
        paren_depth(s, start, i) == d,
        forall|m: int| start < m <= i ==> paren_depth(s, start, m) > 0,
    ensures
        close_pos(s, i, d) == -1 ==> forall|m: int| start < m <= s.len() ==> paren_depth(s, start, m) > 0,
        close_pos(s, i, d) != -1 ==> i < close_pos(s, i, d) <= s.len() && paren_depth(s, start, close_pos(s, i, d)) == 0
            && forall|m: int| start < m < close_pos(s, i, d) ==> paren_depth(s, start, m) > 0,
    decreases s.len() - i,
{
    if i < s.len() {
        let nd: int = if s[i] == '(' {
            d + 1int
        } else if s[i] == ')' {
            d - 1int
        } else {
            d as int
        };
        assert(paren_depth(s, start, i + 1) == nd);
        if nd > 0 {
            lemma_close_pos_depth(s, start, i + 1, nd as nat);
        }
    }
}

/// A function call whose `(` is at `start` ends at the first `)` that
/// closes every parenthesis opened since `start`; there is none exactly when
/// the call is not closed.
pub proof fn lemma_call_balanced(s: Seq<char>, start: int)
    requires
        0 <= start < s.len(),
        s[start] == '(',
    ensures
        function_call(s, start) matches Some((n, a, c)) ==> {
            &&& start + 2 <= start + c - 1 <= s.len()
            &&& s[start + c - 2] == ')'
            &&& paren_depth(s, start, start + c - 1) == 0
            &&& forall|m: int| start < m < start + c - 1 ==> paren_depth(s, start, m) > 0
        },
        function_call(s, start) is None ==> forall|m: int| start < m <= s.len() ==> paren_depth(s, start, m) > 0,
{
    assert(paren_depth(s, start, start) == 0);
    assert(paren_depth(s, start, start + 1) == 1);
    lemma_close_pos_depth(s, start, start + 1, 1);
    let e = close_pos(s, start + 1, 1);
    if e != -1 {
        assert(paren_depth(s, start, e) == paren_depth(s, start, e - 1) + if s[e - 1] == '(' {
            1int
        } else if s[e - 1] == ')' {
            -1int
        } else {
            0int
        });
        if e - 1 > start {
            assert(paren_depth(s, start, e - 1) > 0);
        }
    }
}

fn close_paren(chars: &[char], start: usize) -> (r: Option<usize>)
    requires
        start < usize::MAX,
    ensures
        match r {
            Some(end) => close_pos(chars@, start + 1, 1) == end as int && start + 2 <= end <= chars.len(),
            None => close_pos(chars@, start + 1, 1) == -1,
        },
{
    let mut depth: usize = 1;
    let mut i = start + 1;
    if i > chars.len() {
        return None;
    }
    while i < chars.len() && depth > 0
        invariant
            start + 1 <= i <= chars.len(),
            depth <= i - start,
            close_pos(chars@, start + 1, 1) == close_pos(chars@, i as int, depth as nat),
            depth == 0 ==> i >= start + 2,
        decreases chars.len() - i,
    {
        if chars[i] == '(' {
            depth = depth + 1;
        } else if chars[i] == ')' {
            depth = depth - 1;
        }
        i = i + 1;
    }
    if depth == 0 {
        Some(i)
    } else {
        None
    }
}

/// Whether reading the call at `start` would fail.
pub fn call_would_fail(chars: &[char], start: usize) -> (b: bool)
    requires
        start < usize::MAX,
    ensures
        b == call_fails(chars@, start as int),
{
    match close_paren(chars, start) {
        Some(end) => {
            let full = copy_range(chars, start + 1, end - 1);
            if find_char(&full, ' ').is_some() {
                return false;
            }
            match find_char(&full, '(') {
                Some(k) => {
                    let n = full.len();
                    let a = copy_range(&full, k + 1, n);
                    a.len() > 0 && a[a.len() - 1] >= '\u{80}'
                },
                None => false,
            }
        },
        None => false,
    }
}

/// Reads the function call whose `(` is at `start`: up to the matching `)`,
/// split into name and arguments at the first space, else at the first `(`
/// (dropping the last character), else at the first `,`. Returns the name, the arguments and
/// the number of characters taken counting the `$` before the call.
pub fn parse_function_call(chars: &[char], start: usize) -> (r: Option<(String, String, usize)>)
    requires
        start < usize::MAX,
        start > 0 || chars.len() < usize::MAX,
        !call_fails(chars@, start as int),
    ensures
        match r {
            Some((name, args, consumed)) => function_call(chars@, start as int) == Some(
                (name@, args@, consumed as int),
            ),
            None => function_call(chars@, start as int) is None,
        },
{
    match close_paren(chars, start) {
        Some(end) => {
            let full = copy_range(chars, start + 1, end - 1);
            let consumed = end - start + 1;
            match find_char(&full, ' ') {
                Some(k) => {
                    let n = full.len();
                    let name = copy_range(&full, 0, k);
                    let a = copy_range(&full, k + 1, n);
                    return Some((string_of(&name), string_of(&a), consumed));
                },
                None => {},
            }
            match find_char(&full, '(') {
                Some(k) => {
                    let n = full.len();
                    let name = copy_range(&full, 0, k);
                    let mut a = copy_range(&full, k + 1, n);
                    if a.len() > 0 {
                        a.pop();
                    }
                    Some((string_of(&name), string_of(&a), consumed))
                },
                None => match find_char(&full, ',') {
                    Some(k) => {
                        let n = full.len();
                        let name = copy_range(&full, 0, k);
                        let a = copy_range(&full, k + 1, n);
                        Some((string_of(&name), string_of(&a), consumed))
                    },
                    None => Some((string_of(&full), String::new(), consumed)),
                },
            }
        },
        None => None,
    }
}

/// A piece of an expanded recipe line: text, or a call whose result comes
/// from outside (running a shell command, listing a directory, reading
/// modification times).
pub enum Segment {
    Text(String),
    Shell(String),
    Wildcard(String),
    /// `$?`: the prerequisites newer than the target, which depend on the
    /// files' modification times (see `newer_prereqs`).
    Newer,
}

/// A segment as plain values.
pub enum SegView {
    Text(Seq<char>),
    Shell(Seq<char>),
    Wildcard(Seq<char>),
    Newer,
}

impl View for Segment {
    type V = SegView;

    open spec fn view(&self) -> SegView {
        match self {
            Segment::Text(t) => SegView::Text(t@),
            Segment::Shell(a) => SegView::Shell(a@),
            Segment::Wildcard(a) => SegView::Wildcard(a@),
            Segment::Newer => SegView::Newer,
        }
    }
}

/// The views of a sequence of segments.
pub open spec fn seg_views(s: Seq<Segment>) -> Seq<SegView> {
    s.map_values(|x: Segment| x@)
}

/// The name `wildcard`.
pub open spec fn wildcard_name() -> Seq<char> {
    seq!['w', 'i', 'l', 'd', 'c', 'a', 'r', 'd']
}

/// The name `shell`.
pub open spec fn shell_name() -> Seq<char> {
    seq!['s', 'h', 'e', 'l', 'l']
}

/// The value of variable `name`; empty when it is not set.
pub open spec fn lookup(vars: Map<Seq<char>, Seq<char>>, name: Seq<char>) -> Seq<char> {
    if vars.contains_key(name) {
        vars[name]
    } else {
        seq![]
    }
}

/// What `$(name args)` stands for when it is a function or a substitution
/// reference: a wildcard pattern without `*` or `?` stands for itself,
/// trimmed; another wildcard or a shell call is left for outside
/// resolution; `$(VAR:from=to)` is the value of `VAR` with the suffixes
/// replaced. `None` when `name` is a plain variable.
pub open spec fn call_piece(name: Seq<char>, args: Seq<char>, vars: Map<Seq<char>, Seq<char>>) -> Option<SegView> {
    if name == wildcard_name() {
        if !trim(args).contains('*') && !trim(args).contains('?') {
            Some(SegView::Text(trim(args)))
        } else {
            Some(SegView::Wildcard(args))
        }
    } else if name == shell_name() {
        Some(SegView::Shell(args))
    } else if subst_ref(name) is Some {
        let (var, from, to) = subst_ref(name)->0;
        Some(SegView::Text(subst_words(lookup(vars, var), from, to)))
    } else {
        None
    }
}

/// What the call of `name` with `args` stands for: the function's piece, or
/// else the expanded value of variable `name`.
pub open spec fn function_segs(name: Seq<char>, args: Seq<char>, node: NodeView, vars: Map<Seq<char>, Seq<char>>) -> Option<
    Seq<SegView>,
> {
    match call_piece(name, args, vars) {
        Some(p) => Some(seq![p]),
        None => var_segs(name, node, vars),
    }
}

/// The value of variable `name`, itself expanded with `name` left unset
/// (so that a variable that refers to itself, directly or through others,
/// stops there); nothing when it is not set. `None` when reading a
/// function call in it fails.
pub open spec fn var_segs(name: Seq<char>, node: NodeView, vars: Map<Seq<char>, Seq<char>>) -> Option<Seq<SegView>>
    decreases vars.dom().len(), 0int, 0int,
{
    if vars.contains_key(name) {
        if vars.remove(name).dom().len() < vars.dom().len() {
            scan(vars[name], 0, node, vars.remove(name), seq![])
        } else {
            None
        }
    } else {
        Some(seq![])
    }
}

/// A prerequisite with modification time `m` is newer than a target with
/// modification time `t` (0 for a missing file).
pub open spec fn is_newer(t: u64, m: u64) -> bool {
    t == 0 || m == 0 || m > t
}

/// The prerequisites `ps` newer than the target, given the modification
/// times `ms` of the prerequisites and `t` of the target.
pub open spec fn newer_list(ps: Seq<Seq<char>>, t: u64, ms: Seq<u64>) -> Seq<Seq<char>>
    decreases ps.len(),
{
    if ps.len() == 0 {
        seq![]
    } else if is_newer(t, ms[ps.len() - 1]) {
        newer_list(ps.drop_last(), t, ms).push(ps.last())
    } else {
        newer_list(ps.drop_last(), t, ms)
    }
}

/// What `$?` stands for in the rule of `node`: the prerequisites newer than
/// the target (all of them when the target is missing), separated by
/// spaces, given the modification times of the target and of each
/// prerequisite (0 for a missing file).
pub fn newer_prereqs(node: &DagNode, target_mtime: u64, prereq_mtimes: &Vec<u64>) -> (r: String)
    requires
        prereq_mtimes.len() == node.prereqs.len(),
    ensures
        r@ == join(newer_list(node@.prereqs, target_mtime, prereq_mtimes@), seq![' ']),
{
    let mut found: Vec<String> = Vec::new();
    let mut k: usize = 0;
    while k < node.prereqs.len()
        invariant
            k <= node.prereqs.len(),
            prereq_mtimes.len() == node.prereqs.len(),
            found.deep_view() == newer_list(node@.prereqs.take(k as int), target_mtime, prereq_mtimes@),
        decreases node.prereqs.len() - k,
    {
        assert(node@.prereqs.take(k + 1).drop_last() == node@.prereqs.take(k as int));
        assert(node@.prereqs.take(k + 1).last() == node.prereqs@[k as int]@);
        let m = prereq_mtimes[k];
        if target_mtime == 0 || m == 0 || m > target_mtime {
            let ghost before = found.deep_view();
            found.push(node.prereqs[k].clone());
            assert(found.deep_view() =~= before.push(node.prereqs@[k as int]@));
        }
        k = k + 1;
    }
    assert(node@.prereqs.take(node.prereqs.len() as int) == node@.prereqs);
    join_strings(&found)
}

/// A substitution reference `VAR:from=to`: the variable, the suffix to
/// replace and its replacement.
pub open spec fn subst_ref(name: Seq<char>) -> Option<(Seq<char>, Seq<char>, Seq<char>)> {
    match first_index(name, ':') {
        Some(k) => {
            let rest = name.subrange(k + 1, name.len() as int);
            match first_index(rest, '=') {
                Some(e) => Some((name.subrange(0, k), rest.subrange(0, e), rest.subrange(e + 1, rest.len() as int))),
                None => None,
            }
        },
        None => None,
    }
}

/// `w` with its suffix `from` replaced by `to`; unchanged when it does not
/// end in `from`.
pub open spec fn replace_suffix(w: Seq<char>, from: Seq<char>, to: Seq<char>) -> Seq<char> {
    if from.len() <= w.len() && w.subrange(w.len() - from.len(), w.len() as int) == from {
        w.subrange(0, w.len() - from.len()) + to
    } else {
        w
    }
}

/// The words of `value`, each with suffix `from` replaced by `to`, separated
/// by single spaces.
pub open spec fn subst_words(value: Seq<char>, from: Seq<char>, to: Seq<char>) -> Seq<char> {
    join(split_ws(value).map_values(|w: Seq<char>| replace_suffix(w, from, to)), seq![' '])
}

fn replace_suffix_exec(w: &Vec<char>, from: &Vec<char>, to: &Vec<char>) -> (r: String)
    ensures
        r@ == replace_suffix(w@, from@, to@),
{
    if from.len() > w.len() {
        return string_of(w);
    }
    let start = w.len() - from.len();
    let mut k: usize = 0;
    while k < from.len()
        invariant
            start + from.len() == w.len(),
            k <= from.len(),
            forall|j: int| 0 <= j < k ==> w@[start + j] == from@[j],
        decreases from.len() - k,
    {
        if w[start + k] != from[k] {
            assert(w@.subrange(start as int, w.len() as int)[k as int] != from@[k as int]);
            return string_of(w);
        }
        k = k + 1;
    }
    assert(w@.subrange(start as int, w.len() as int) =~= from@);
    string_of(&concat_chars(&copy_range(w, 0, start), to))
}

fn subst_words_exec(value: &str, from: &Vec<char>, to: &Vec<char>) -> (r: String)
    ensures
        r@ == subst_words(value@, from@, to@),
{
    let words = split_words(&chars_of(value));
    let ghost ws = views(words@);
    let ghost mapped = ws.map_values(|w: Seq<char>| replace_suffix(w, from@, to@));
    let mut out: Vec<String> = Vec::new();
    let mut k: usize = 0;
    while k < words.len()
        invariant
            k <= words.len(),
            ws == views(words@),
            mapped == ws.map_values(|w: Seq<char>| replace_suffix(w, from@, to@)),
            out.deep_view() == mapped.take(k as int),
        decreases words.len() - k,
    {
        let ghost before = out.deep_view();
        out.push(replace_suffix_exec(&words[k], from, to));
        assert(ws[k as int] == words@[k as int]@);
        assert(out.deep_view() =~= before.push(mapped[k as int]));
        assert(mapped.take(k + 1) == mapped.take(k as int).push(mapped[k as int]));
        k = k + 1;
    }
    assert(mapped.take(words.len() as int) == mapped);
    join_strings(&out)
}

fn lookup_var(variables: &VarTable, name: &str) -> (r: String)
    requires
        variables.wf(),
    ensures
        r@ == lookup(variables@, name@),
{
    match variables.get(name) {
        Some(v) => v.clone(),
        None => String::new(),
    }
}

fn call_piece_exec(name: &str, args: &str, variables: &VarTable) -> (r: Option<Segment>)
    requires
        variables.wf(),
    ensures
        match r {
            Some(p) => call_piece(name@, args@, variables@) == Some(p@),
            None => call_piece(name@, args@, variables@) is None,
        },
{
    let n = name.to_string();
    let w = string_of(&vec!['w', 'i', 'l', 'd', 'c', 'a', 'r', 'd']);
    let sh = string_of(&vec!['s', 'h', 'e', 'l', 'l']);
    assert(w@ =~= wildcard_name());
    assert(sh@ =~= shell_name());
    if n == w {
        let p = trim_chars(&chars_of(args));
        if !has_char(&p, '*') && !has_char(&p, '?') {
            Some(Segment::Text(string_of(&p)))
        } else {
            Some(Segment::Wildcard(args.to_string()))
        }
    } else if n == sh {
        Some(Segment::Shell(args.to_string()))
    } else {
        let nc = chars_of(name);
        match find_char(&nc, ':') {
            Some(k) => {
                let rest = copy_range(&nc, k + 1, nc.len());
                match find_char(&rest, '=') {
                    Some(e) => {
                        let var = string_of(&copy_range(&nc, 0, k));
                        let from = copy_range(&rest, 0, e);
                        let to = copy_range(&rest, e + 1, rest.len());
                        let value = lookup_var(variables, var.as_str());
                        return Some(Segment::Text(subst_words_exec(value.as_str(), &from, &to)));
                    },
                    None => {},
                }
            },
            None => {},
        }
        None
    }
}

/// What the call of function `name` with `args` stands for: a literal
/// wildcard pattern's own text, a wildcard or shell call for outside
/// resolution, a substitution reference's text, or else the expanded value
/// of variable `name`. `None` when reading a function call in that value
/// fails.
pub fn expand_function(name: &str, args: &str, node: &DagNode, variables: &VarTable) -> (r: Option<Vec<Segment>>)
    requires
        variables.wf(),
    ensures
        match r {
            Some(v) => function_segs(name@, args@, node@, variables@) == Some(seg_views(v@)),
            None => function_segs(name@, args@, node@, variables@) is None,
        },
    decreases variables@.dom().len(), 1int,
{
    match call_piece_exec(name, args, variables) {
        Some(p) => {
            let v = vec![p];
            assert(seg_views(v@) =~= seq![v@[0]@]);
            Some(v)
        },
        None => var_segments(name, node, variables),
    }
}

fn var_segments(name: &str, node: &DagNode, variables: &VarTable) -> (r: Option<Vec<Segment>>)
    requires
        variables.wf(),
    ensures
        match r {
            Some(v) => var_segs(name@, node@, variables@) == Some(seg_views(v@)),
            None => var_segs(name@, node@, variables@) is None,
        },
    decreases variables@.dom().len(), 0int,
{
    match variables.get(name) {
        None => {
            let v: Vec<Segment> = Vec::new();
            assert(seg_views(v@) =~= Seq::<SegView>::empty());
            Some(v)
        },
        Some(value) => {
            let value = value.clone();
            let mut inner = variables.copied();
            inner.remove(name);
            proof {
                variables.lemma_finite();
                vstd::set::axiom_set_remove_len(variables@.dom(), name@);
                assert(variables@.remove(name@).dom() == variables@.dom().remove(name@));
            }
            expand_segments(value.as_str(), node, &inner)
        },
    }
}

/// The pieces that start at position `i` of a recipe line and the position
/// after them; `None` where reading a function call there fails.
pub open spec fn piece_at(c: Seq<char>, i: int, node: NodeView, vars: Map<Seq<char>, Seq<char>>) -> Option<(Seq<SegView>, int)>
    decreases vars.dom().len(), c.len() - i, 0int,
{
    if i < 0 || i >= c.len() {
        None
    } else if c[i] != '$' {
        Some((seq![SegView::Text(seq![c[i]])], i + 1))
    } else if i + 1 >= c.len() {
        Some((seq![SegView::Text(seq!['$'])], i + 1))
    } else {
        let nx = c[i + 1];
        if nx == '$' {
            Some((seq![SegView::Text(seq!['$'])], i + 2))
        } else if nx == '(' && call_fails(c, i + 1) {
            None
        } else if nx == '(' && function_call(c, i + 1) is Some {
            let (name, args, consumed) = function_call(c, i + 1)->0;
            match call_piece(name, args, vars) {
                Some(p) => Some((seq![p], i + consumed)),
                None => match var_segs(name, node, vars) {
                    Some(ps) => Some((ps, i + consumed)),
                    None => None,
                },
            }
        } else if nx == '?' {
            Some((seq![SegView::Newer], i + 2))
        } else if nx == '{' && brace_ref(c, i + 1) is Some {
            let (name, j) = brace_ref(c, i + 1)->0;
            match var_segs(name, node, vars) {
                Some(ps) => Some((ps, j)),
                None => None,
            }
        } else if auto_var_of(nx) is Some {
            Some((seq![SegView::Text(auto_value(auto_var_of(nx)->0, node))], i + 2))
        } else if is_name_char(nx) && simple_var(c, i + 1) is Some {
            let (name, consumed) = simple_var(c, i + 1)->0;
            match var_segs(name, node, vars) {
                Some(ps) => Some((ps, i + consumed)),
                None => None,
            }
        } else {
            Some((seq![SegView::Text(seq!['$'])], i + 1))
        }
    }
}

/// Each piece moves forward and stays within the line.
pub proof fn lemma_piece_advances(c: Seq<char>, i: int, node: NodeView, vars: Map<Seq<char>, Seq<char>>)
    requires
        0 <= i < c.len(),
    ensures
        piece_at(c, i, node, vars) matches Some((p, j)) ==> i < j <= c.len(),
{
    if c[i] == '$' && i + 1 < c.len() {
        lemma_close_pos(c, i + 2, 1);
        lemma_name_end(c, i + 1);
        lemma_find_from(c, '}', i + 2);
    }
}

/// `segs` with piece `p` added, text joining text before it.
pub open spec fn push_piece(segs: Seq<SegView>, p: SegView) -> Seq<SegView> {
    match p {
        SegView::Text(t) => if segs.len() > 0 && segs.last() is Text {
            segs.drop_last().push(SegView::Text(segs.last()->Text_0 + t))
        } else {
            segs.push(p)
        },
        _ => segs.push(p),
    }
}

/// `segs` with the pieces `ps` added in turn.
pub open spec fn push_all(segs: Seq<SegView>, ps: Seq<SegView>) -> Seq<SegView>
    decreases ps.len(),
{
    if ps.len() == 0 {
        segs
    } else {
        push_piece(push_all(segs, ps.drop_last()), ps.last())
    }
}

/// The pieces of `c` from position `i` on, added to `acc`; `None` when
/// reading fails somewhere.
pub open spec fn scan(c: Seq<char>, i: int, node: NodeView, vars: Map<Seq<char>, Seq<char>>, acc: Seq<SegView>) -> Option<
    Seq<SegView>,
>
    decreases vars.dom().len(), c.len() - i, 1int,
{
    if i < 0 || i >= c.len() {
        Some(acc)
    } else {
        match piece_at(c, i, node, vars) {
            None => None,
            Some((ps, j)) => if i < j <= c.len() {
                scan(c, j, node, vars, push_all(acc, ps))
            } else {
                None
            },
        }
    }
}

/// The segments of recipe line `c` in the rule of `node`; `None` when
/// reading a function call fails.
pub open spec fn spec_segments(c: Seq<char>, node: NodeView, vars: Map<Seq<char>, Seq<char>>) -> Option<Seq<SegView>> {
    scan(c, 0, node, vars, seq![])
}

/// How many segments before position `k` need outside results.
pub open spec fn count_outside(segs: Seq<SegView>) -> nat
    decreases segs.len(),
{
    if segs.len() == 0 {
        0
    } else {
        count_outside(segs.drop_last()) + if segs.last() is Text {
            0nat
        } else {
            1nat
        }
    }
}

/// The text of segment `p`, the `k`-th outside result standing for a call
/// (empty when there are fewer results).
pub open spec fn piece_text(p: SegView, outs: Seq<Seq<char>>, k: int) -> Seq<char> {
    match p {
        SegView::Text(t) => t,
        _ => if 0 <= k < outs.len() {
            outs[k]
        } else {
            seq![]
        },
    }
}

/// The text of the segments, with the outside results in order standing for
/// the calls.
pub open spec fn render(segs: Seq<SegView>, outs: Seq<Seq<char>>) -> Seq<char>
    decreases segs.len(),
{
    if segs.len() == 0 {
        seq![]
    } else {
        render(segs.drop_last(), outs) + piece_text(segs.last(), outs, count_outside(segs.drop_last()) as int)
    }
}

proof fn lemma_render_push_text(acc: Seq<SegView>, t: Seq<char>, outs: Seq<Seq<char>>)
    ensures
        render(push_piece(acc, SegView::Text(t)), outs) == render(acc, outs) + t,
{
    let p = SegView::Text(t);
    if acc.len() > 0 && acc.last() is Text {
        let x = acc.drop_last();
        let q = SegView::Text(acc.last()->Text_0 + t);
        assert(x.push(q).drop_last() =~= x);
        assert(render(x.push(q), outs) == render(x, outs) + (acc.last()->Text_0 + t));
        assert(render(acc, outs) == render(x, outs) + acc.last()->Text_0);
        assert(render(x, outs) + (acc.last()->Text_0 + t) =~= render(x, outs) + acc.last()->Text_0 + t);
    } else {
        assert(acc.push(p).drop_last() =~= acc);
    }
}

proof fn lemma_scan_plain(
    c: Seq<char>,
    i: int,
    node: NodeView,
    vars: Map<Seq<char>, Seq<char>>,
    acc: Seq<SegView>,
    outs: Seq<Seq<char>>,
)
    requires
        0 <= i <= c.len(),
        forall|j: int| i <= j < c.len() ==> c[j] != '$',
    ensures
        scan(c, i, node, vars, acc) is Some,
        render(scan(c, i, node, vars, acc)->0, outs) == render(acc, outs) + c.subrange(i, c.len() as int),
    decreases c.len() - i,
{
    if i < c.len() {
        let acc2 = push_piece(acc, SegView::Text(seq![c[i]]));
        assert(seq![SegView::Text(seq![c[i]])].drop_last() =~= Seq::<SegView>::empty());
        assert(push_all(acc, Seq::<SegView>::empty()) == acc);
        assert(push_all(acc, seq![SegView::Text(seq![c[i]])]) == acc2);
        assert(piece_at(c, i, node, vars) == Some((seq![SegView::Text(seq![c[i]])], i + 1)));
        lemma_render_push_text(acc, seq![c[i]], outs);
        lemma_scan_plain(c, i + 1, node, vars, acc2, outs);
        assert(render(acc, outs) + seq![c[i]] + c.subrange(i + 1, c.len() as int) =~= render(acc, outs) + c.subrange(
            i,
            c.len() as int,
        ));
    } else {
        assert(render(acc, outs) + c.subrange(i, c.len() as int) =~= render(acc, outs));
    }
}

/// A recipe line without `$` expands to itself, whatever the variables and
/// outside results.
pub proof fn lemma_plain_text_unchanged(
    c: Seq<char>,
    node: NodeView,
    vars: Map<Seq<char>, Seq<char>>,
    outs: Seq<Seq<char>>,
)
    requires
        !c.contains('$'),
    ensures
        spec_segments(c, node, vars) is Some,
        render(spec_segments(c, node, vars)->0, outs) == c,
{
    assert forall|j: int| 0 <= j < c.len() implies c[j] != '$' by {
        if c[j] == '$' {
            assert(c.contains('$'));
        }
    }
    lemma_scan_plain(c, 0, node, vars, seq![], outs);
    assert(render(seq![], outs) + c.subrange(0, c.len() as int) =~= c);
}

fn single(c: char) -> (s: String)
    ensures
        s@ == seq![c],
{
    let v = vec![c];
    assert(v@ =~= seq![c]);
    string_of(&v)
}

fn one(p: Segment) -> (v: Vec<Segment>)
    ensures
        seg_views(v@) == seq![p@],
{
    let v = vec![p];
    assert(seg_views(v@) =~= seq![v@[0]@]);
    v
}

fn piece(c: &Vec<char>, i: usize, node: &DagNode, variables: &VarTable) -> (r: Option<(Vec<Segment>, usize)>)
    requires
        variables.wf(),
        i < c.len(),
    ensures
        match r {
            Some((p, j)) => piece_at(c@, i as int, node@, variables@) == Some((seg_views(p@), j as int)),
            None => piece_at(c@, i as int, node@, variables@) is None,
        },
    decreases variables@.dom().len(), 2int,
{
    proof {
        lemma_piece_advances(c@, i as int, node@, variables@);
    }
    if c[i] != '$' {
        return Some((one(Segment::Text(single(c[i]))), i + 1));
    }
    if i + 1 >= c.len() {
        return Some((one(Segment::Text(single('$'))), i + 1));
    }
    let nx = c[i + 1];
    if nx == '$' {
        return Some((one(Segment::Text(single('$'))), i + 2));
    }
    if nx == '(' {
        if call_would_fail(c, i + 1) {
            return None;
        }
        match parse_function_call(c, i + 1) {
            Some((name, args, consumed)) => {
                return match expand_function(name.as_str(), args.as_str(), node, variables) {
                    Some(v) => Some((v, i + consumed)),
                    None => None,
                };
            },
            None => {},
        }
    }
    if nx == '?' {
        return Some((one(Segment::Newer), i + 2));
    }
    if nx == '{' {
        match brace_end(c, i + 1) {
            Some(e) => {
                let name = string_of(&copy_range(c, i + 2, e));
                return match var_segments(name.as_str(), node, variables) {
                    Some(v) => Some((v, e + 1)),
                    None => None,
                };
            },
            None => {},
        }
    }
    match AutoVar::from_char(nx) {
        Some(v) => {
            return Some((one(Segment::Text(v.expand(node))), i + 2));
        },
        None => {},
    }
    if name_char(nx) {
        match parse_simple_var(c, i + 1) {
            Some((name, consumed)) => {
                return match var_segments(name.as_str(), node, variables) {
                    Some(v) => Some((v, i + consumed)),
                    None => None,
                };
            },
            None => {},
        }
    }
    Some((one(Segment::Text(single('$'))), i + 1))
}

fn append_all(segs: &mut Vec<Segment>, ps: Vec<Segment>)
    ensures
        seg_views(final(segs)@) == push_all(seg_views(old(segs)@), seg_views(ps@)),
{
    let ghost base = seg_views(segs@);
    let ghost orig = seg_views(ps@);
    let mut rest = ps;
    let mut k: usize = 0;
    let n = rest.len();
    assert(orig.take(0) =~= Seq::<SegView>::empty());
    assert(seg_views(rest@) =~= orig.subrange(0, n as int));
    while rest.len() > 0
        invariant
            n == orig.len(),
            k + rest.len() == n,
            seg_views(rest@) == orig.subrange(k as int, n as int),
            seg_views(segs@) == push_all(base, orig.take(k as int)),
        decreases rest.len(),
    {
        let ghost before = rest@;
        assert(seg_views(before)[0] == before[0]@);
        assert(orig.subrange(k as int, n as int)[0] == orig[k as int]);
        let p = rest.remove(0);
        assert(p@ == orig[k as int]);
        assert forall|t: int| 0 <= t < rest.len() implies seg_views(rest@)[t] == orig.subrange(k + 1, n as int)[t] by {
            assert(rest@[t] == before[t + 1]);
            assert(seg_views(before)[t + 1] == orig.subrange(k as int, n as int)[t + 1]);
        }
        assert(seg_views(rest@) =~= orig.subrange(k + 1, n as int));
        assert(orig.take(k + 1).drop_last() =~= orig.take(k as int));
        assert(orig.take(k + 1).last() == orig[k as int]);
        append_piece(segs, p);
        k = k + 1;
    }
    assert(orig.take(n as int) =~= orig);
}

fn append_piece(segs: &mut Vec<Segment>, p: Segment)
    ensures
        seg_views(final(segs)@) == push_piece(seg_views(old(segs)@), p@),
{
    let ghost old_views = seg_views(segs@);
    match p {
        Segment::Text(t) => {
            let n = segs.len();
            if n > 0 {
                match segs.pop() {
                    Some(Segment::Text(prev)) => {
                        let joined = string_of(&concat_chars(&chars_of(prev.as_str()), &chars_of(t.as_str())));
                        segs.push(Segment::Text(joined));
                        assert(seg_views(segs@) =~= old_views.drop_last().push(SegView::Text(prev@ + t@)));
                    },
                    Some(other) => {
                        segs.push(other);
                        let ghost mid = segs@;
                        segs.push(Segment::Text(t));
                        assert(mid =~= old(segs)@);
                        assert(seg_views(segs@) =~= old_views.push(SegView::Text(t@)));
                    },
                    None => {
                        segs.push(Segment::Text(t));
                    },
                }
            } else {
                segs.push(Segment::Text(t));
                assert(seg_views(segs@) =~= old_views.push(SegView::Text(t@)));
            }
        },
        other => {
            segs.push(other);
            assert(seg_views(segs@) =~= old_views.push(other@));
        },
    }
}

/// The segments of recipe line `cmd` in the rule of `node`: text with the
/// automatic variables, `$$` and variables replaced (a variable's value
/// itself expanded, without the variables already being expanded), and the
/// wildcard, shell and `$?` pieces left for outside resolution. `None` when reading a function
/// call fails (arguments after a nested `(` that end in a character of more
/// than one byte).
pub fn expand_segments(cmd: &str, node: &DagNode, variables: &VarTable) -> (r: Option<Vec<Segment>>)
    requires
        variables.wf(),
    ensures
        match r {
            Some(v) => spec_segments(cmd@, node@, variables@) == Some(seg_views(v@)),
            None => spec_segments(cmd@, node@, variables@) is None,
        },
    decreases variables@.dom().len(), 3int,
{
    let c = chars_of(cmd);
    let mut segs: Vec<Segment> = Vec::new();
    let mut i: usize = 0;
    assert(seg_views(segs@) =~= Seq::<SegView>::empty());
    while i < c.len()
        invariant
            variables.wf(),
            c@ == cmd@,
            i <= c.len(),
            spec_segments(c@, node@, variables@) == scan(c@, i as int, node@, variables@, seg_views(segs@)),
        decreases c.len() - i,
    {
        match piece(&c, i, node, variables) {
            None => {
                return None;
            },
            Some((p, j)) => {
                proof {
                    lemma_piece_advances(c@, i as int, node@, variables@);
                }
                append_all(&mut segs, p);
                i = j;
            },
        }
    }
    Some(segs)
}

/// The text of the segments, with `outside[k]` standing for the `k`-th
/// wildcard or shell call (empty when `outside` has fewer entries).
pub fn render_segments(segs: &Vec<Segment>, outside: &Vec<String>) -> (r: String)
    ensures
        r@ == render(seg_views(segs@), outside.deep_view()),
{
    let mut out: Vec<char> = Vec::new();
    let mut k: usize = 0;
    let mut used: usize = 0;
    while k < segs.len()
        invariant
            k <= segs.len(),
            used <= k,
            used == count_outside(seg_views(segs@).take(k as int)),
            out@ == render(seg_views(segs@).take(k as int), outside.deep_view()),
        decreases segs.len() - k,
    {
        let ghost t = seg_views(segs@).take(k + 1);
        assert(t.drop_last() == seg_views(segs@).take(k as int));
        assert(t.last() == segs@[k as int]@);
        let piece_chars = match &segs[k] {
            Segment::Text(text) => chars_of(text.as_str()),
            _ => {
                let c = if used < outside.len() {
                    chars_of(outside[used].as_str())
                } else {
                    Vec::new()
                };
                used = used + 1;
                c
            },
        };
        out = concat_chars(&out, &piece_chars);
        k = k + 1;
    }
    assert(seg_views(segs@).take(segs.len() as int) == seg_views(segs@));
    string_of(&out)
}

/// Expands recipe line `cmd` in the rule of `node`, with `outside[k]` the
/// result of the `k`-th wildcard or shell call in it.
pub fn expand_vars(cmd: &str, node: &DagNode, variables: &VarTable, outside: &Vec<String>) -> (r: String)
    requires
        variables.wf(),
        spec_segments(cmd@, node@, variables@) is Some,
    ensures
        r@ == render(spec_segments(cmd@, node@, variables@)->0, outside.deep_view()),
{
    match expand_segments(cmd, node, variables) {
        Some(segs) => render_segments(&segs, outside),
        None => String::new(),
    }
}

/// Expands recipe line `cmd` like `expand_vars`; `None` when reading a
/// function call in it fails.
pub fn try_expand_vars(cmd: &str, node: &DagNode, variables: &VarTable, outside: &Vec<String>) -> (r: Option<String>)
    requires
        variables.wf(),
    ensures
        r is Some <==> spec_segments(cmd@, node@, variables@) is Some,
        r matches Some(s) ==> s@ == render(spec_segments(cmd@, node@, variables@)->0, outside.deep_view()),
{
    match expand_segments(cmd, node, variables) {
        Some(_) => Some(expand_vars(cmd, node, variables, outside)),
        None => None,
    }
}

} // verus!
