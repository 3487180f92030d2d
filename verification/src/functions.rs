//! The outside-facing functions of recipe lines: `$(wildcard ...)` and
//! `$(shell ...)`. The directory listing and the command run outside the
//! library; choosing, matching and formatting happen here.
use vstd::prelude::*;
use crate::expand::{join, join_strings};
use crate::text::{chars_of, copy_range, has_char, split_words, split_ws, string_of, trim, trim_chars, views};

verus! {

broadcast use vstd::string::group_string_axioms;

#[verifier::external_type_specification]
#[verifier::external_body]
pub struct ExGlobPattern(glob::Pattern);

#[verifier::external_type_specification]
#[verifier::external_body]
pub struct ExGlobPatternError(glob::PatternError);

/// Whether `glob::Pattern::new` accepts `pattern`. The glob crate reads path
/// separators as the target platform does (`/` on Unix), so this is taken
/// for the platform the crate is built for.
pub uninterp spec fn glob_valid(pattern: Seq<char>) -> bool;

/// Whether the glob pattern `pattern` matches `path` with the default match
/// options (`glob::Pattern::matches`), on the platform the crate is built for.
pub uninterp spec fn glob_matches(pattern: Seq<char>, path: Seq<char>) -> bool;

/// `String::from_utf8_lossy`: the text of `bytes`, with each invalid UTF-8
/// sequence replaced by U+FFFD.
pub uninterp spec fn utf8_lossy(bytes: Seq<u8>) -> Seq<char>;

/// `glob::Pattern::new`: compiles `pattern`; it fails exactly on the patterns
/// that `glob_valid` rejects. Its result depends on the text alone.
#[verifier::external_body]
fn glob_compile(pattern: &str) -> (r: Result<glob::Pattern, glob::PatternError>)
    ensures
        r is Ok <==> glob_valid(pattern@),
{
    glob::Pattern::new(pattern)
}

/// A compiled glob pattern together with its text.
pub struct GlobPattern {
    source: String,
    compiled: glob::Pattern,
}

impl View for GlobPattern {
    type V = Seq<char>;

    closed spec fn view(&self) -> Seq<char> {
        self.source@
    }
}

/// `glob::Pattern::matches` on the pattern compiled from `pattern`'s text,
/// which only `GlobPattern::new` builds: whether `path` matches it.
#[verifier::external_body]
fn glob_match(pattern: &GlobPattern, path: &str) -> (b: bool)
    ensures
        b == glob_matches(pattern@, path@),
{
    pattern.compiled.matches(path)
}

/// Every byte of `bytes` is below 0x80 (ASCII).
pub open spec fn all_ascii(bytes: Seq<u8>) -> bool {
    forall|i: int| 0 <= i < bytes.len() ==> #[trigger] bytes[i] < 0x80
}

/// The characters that ASCII bytes stand for.
pub open spec fn ascii_chars(bytes: Seq<u8>) -> Seq<char> {
    bytes.map_values(|b: u8| b as char)
}

/// `String::from_utf8_lossy`, turned into an owned `String`: the text is
/// `utf8_lossy` of the bytes, and (ASCII being valid UTF-8, which is kept as
/// it is) bytes all below 0x80 give the characters with those codes.
#[verifier::external_body]
fn decode_lossy(bytes: &[u8]) -> (s: String)
    ensures
        s@ == utf8_lossy(bytes@),
        all_ascii(bytes@) ==> s@ == ascii_chars(bytes@),
{
    String::from_utf8_lossy(bytes).into_owned()
}

impl GlobPattern {
    /// Compiles `pattern`; `None` when it is not a valid glob pattern.
    pub fn new(pattern: &str) -> (r: Option<Self>)
        ensures
            r is Some <==> glob_valid(pattern@),
            r matches Some(p) ==> p@ == pattern@,
    {
        match glob_compile(pattern) {
            Ok(compiled) => Some(GlobPattern { source: pattern.to_string(), compiled }),
            Err(_) => None,
        }
    }

    /// Whether `path` matches this pattern.
    pub fn matches(&self, path: &str) -> (b: bool)
        ensures
            b == glob_matches(self@, path@),
    {
        glob_match(self, path)
    }
}

/// What `$(wildcard pattern)` needs.
pub enum WildcardRequest {
    /// No `*` or `?`: the pattern itself is the result.
    Literal(String),
    /// Not a valid glob pattern: the result is empty.
    Invalid,
    /// The result is the files directly in `dir` whose paths match `pattern`.
    Scan { dir: String, pattern: GlobPattern },
}

/// The part of `p` before its last `/`, or `.` when there is none.
pub open spec fn dir_of(p: Seq<char>) -> Seq<char> {
    if p.contains('/') {
        let k = choose|k: int| 0 <= k < p.len() && p[k] == '/' && forall|j: int| k < j < p.len() ==> p[j] != '/';
        p.subrange(0, k)
    } else {
        seq!['.']
    }
}

/// The directory part of pattern `p`: what comes before its last `/`, or
/// `.` when it has none.
pub fn pattern_dir(p: &str) -> (r: String)
    ensures
        r@ == dir_of(p@),
{
    let p = chars_of(p);
    let mut k = p.len();
    while k > 0 && p[k - 1] != '/'
        invariant
            k <= p.len(),
            forall|j: int| k <= j < p.len() ==> p@[j] != '/',
        decreases k,
    {
        k = k - 1;
    }
    if k > 0 {
        proof {
            let w = choose|w: int| 0 <= w < p@.len() && p@[w] == '/' && forall|j: int| w < j < p@.len() ==> p@[j] != '/';
            assert(p@[k - 1] == '/');
            if w < k - 1 {
                assert(p@[k - 1] != '/');
            }
            if w > k - 1 {
                assert(p@[w] != '/');
            }
        }
        string_of(&copy_range(&p, 0, k - 1))
    } else {
        proof {
            assert forall|j: int| 0 <= j < p@.len() implies p@[j] != '/' by {}
            assert(!p@.contains('/'));
        }
        let d = vec!['.'];
        assert(d@ =~= seq!['.']);
        string_of(&d)
    }
}

/// What `$(wildcard ...)` needs, as plain values.
pub enum WildcardPlan {
    Literal(Seq<char>),
    Invalid,
    Scan { dir: Seq<char>, pattern: Seq<char> },
}

impl View for WildcardRequest {
    type V = WildcardPlan;

    open spec fn view(&self) -> WildcardPlan {
        match self {
            WildcardRequest::Literal(s) => WildcardPlan::Literal(s@),
            WildcardRequest::Invalid => WildcardPlan::Invalid,
            WildcardRequest::Scan { dir, pattern } => WildcardPlan::Scan { dir: dir@, pattern: pattern@ },
        }
    }
}

/// `$(wildcard args)`: the trimmed pattern as it stands when it holds no `*`
/// or `?`; otherwise, when it is a valid glob pattern, a scan of the
/// directory before its last `/` against it.
pub open spec fn spec_wildcard_request(args: Seq<char>) -> WildcardPlan {
    let p = trim(args);
    if !p.contains('*') && !p.contains('?') {
        WildcardPlan::Literal(p)
    } else if !glob_valid(p) {
        WildcardPlan::Invalid
    } else {
        WildcardPlan::Scan { dir: dir_of(p), pattern: p }
    }
}

/// What `$(wildcard args)` needs: the literal result, nothing, or a scan of
/// one directory against the trimmed pattern.
pub fn wildcard_request(args: &str) -> (r: WildcardRequest)
    ensures
        r@ == spec_wildcard_request(args@),
{
    let p = trim_chars(&chars_of(args));
    let text = string_of(&p);
    if !has_char(&p, '*') && !has_char(&p, '?') {
        return WildcardRequest::Literal(text);
    }
    match GlobPattern::new(text.as_str()) {
        None => WildcardRequest::Invalid,
        Some(pattern) => {
            let dir = pattern_dir(text.as_str());
            WildcardRequest::Scan { dir, pattern }
        }
    }
}

/// The paths among `paths` that match `pattern`, in order.
pub open spec fn matching(pattern: Seq<char>, paths: Seq<Seq<char>>) -> Seq<Seq<char>>
    decreases paths.len(),
{
    if paths.len() == 0 {
        seq![]
    } else if glob_matches(pattern, paths.last()) {
        matching(pattern, paths.drop_last()).push(paths.last())
    } else {
        matching(pattern, paths.drop_last())
    }
}

/// The result of `$(wildcard ...)` given the files found: the paths that
/// match, in the order given, separated by spaces.
pub fn wildcard_result(pattern: &GlobPattern, paths: &Vec<String>) -> (r: String)
    ensures
        r@ == join(matching(pattern@, paths.deep_view()), seq![' ']),
{
    let mut found: Vec<String> = Vec::new();
    let mut k: usize = 0;
    while k < paths.len()
        invariant
            k <= paths.len(),
            found.deep_view() == matching(pattern@, paths.deep_view().take(k as int)),
        decreases paths.len() - k,
    {
        assert(paths.deep_view().take(k + 1).drop_last() == paths.deep_view().take(k as int));
        if pattern.matches(paths[k].as_str()) {
            let ghost before = found.deep_view();
            found.push(paths[k].clone());
            assert(found.deep_view() =~= before.push(paths@[k as int]@));
        }
        k = k + 1;
    }
    assert(paths.deep_view().take(paths.len() as int) == paths.deep_view());
    join_strings(&found)
}

/// The command that `$(shell args)` runs: `args` trimmed.
pub fn shell_command(args: &str) -> (r: String)
    ensures
        r@ == trim(args@),
{
    string_of(&trim_chars(&chars_of(args)))
}

/// The result of `$(shell ...)` given what the command printed: its words,
/// separated by single spaces.
pub fn shell_output_words(stdout: &[u8]) -> (r: String)
    ensures
        r@ == join(split_ws(utf8_lossy(stdout@)), seq![' ']),
        all_ascii(stdout@) ==> r@ == join(split_ws(ascii_chars(stdout@)), seq![' ']),
{
    let text = decode_lossy(stdout);
    single_spaced(text.as_str())
}

/// The words of `text`, separated by single spaces.
pub fn single_spaced(text: &str) -> (r: String)
    ensures
        r@ == join(split_ws(text@), seq![' ']),
{
    let words = split_words(&chars_of(text));
    let mut strs: Vec<String> = Vec::new();
    let mut k: usize = 0;
    while k < words.len()
        invariant
            k <= words.len(),
            strs.deep_view() == views(words@).take(k as int),
        decreases words.len() - k,
    {
        let ghost before = strs.deep_view();
        strs.push(string_of(&words[k]));
        assert(strs.deep_view() =~= before.push(words@[k as int]@));
        assert(views(words@).take(k + 1) == views(words@).take(k as int).push(words@[k as int]@));
        k = k + 1;
    }
    assert(views(words@).take(words.len() as int) == views(words@));
    join_strings(&strs)
}

} // verus!
