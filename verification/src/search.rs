//! Searching the index: plain substrings, wildcards and regular expressions.
use crate::index;
use crate::index::{basename, IndexEntry};
use crate::text;
use vstd::prelude::*;
use vstd::string::*;

verus! {

/// `glob::Pattern`, a compiled wildcard pattern.
#[verifier::external_type_specification]
#[verifier::external_body]
pub struct ExGlobPattern(glob::Pattern);

/// `regex::Regex`, a compiled regular expression.
#[verifier::external_type_specification]
#[verifier::external_body]
pub struct ExRegex(regex::Regex);

/// The texts that a compiled wildcard pattern matches.
pub uninterp spec fn glob_matched(pat: glob::Pattern) -> Set<Seq<char>>;

/// The texts that a compiled regular expression matches.
pub uninterp spec fn regex_matched(re: regex::Regex) -> Set<Seq<char>>;

/// What `glob::Pattern::new` makes of a pattern on a machine where `separators` separate path
/// components and are, if `alike`, taken for one another: the texts it matches, or the error
/// message.
pub uninterp spec fn glob_compiled(
    pattern: Seq<char>,
    separators: Set<char>,
    alike: bool,
) -> Result<Set<Seq<char>>, Seq<char>>;

/// What `regex::Regex::new` says of a pattern, on all machines together: nothing where the pattern
/// is accepted, else the error message. Machines differ because of the limit on the compiled
/// size.
pub uninterp spec fn regex_verdicts(pattern: Seq<char>) -> Set<Option<Seq<char>>>;

/// What `regex::RegexBuilder::build` says of a pattern when told to ignore letter case, on all
/// machines together.
pub uninterp spec fn regex_verdicts_ignoring_case(pattern: Seq<char>) -> Set<Option<Seq<char>>>;

/// The texts in which `regex::Regex::new` lets a regular expression match.
pub uninterp spec fn regex_language(pattern: Seq<char>) -> Set<Seq<char>>;

/// The texts in which a regular expression matches when `regex::RegexBuilder` is told to
/// ignore letter case.
pub uninterp spec fn regex_language_ignoring_case(pattern: Seq<char>) -> Set<Seq<char>>;

/// Whether these may separate path components: a slash, a backslash, or both.
pub open spec fn path_separators(separators: Set<char>) -> bool {
    forall|c: char| separators.contains(c) ==> c == '/' || c == '\\'
}

/// A pattern without path separators and without `**`. What other patterns mean depends on
/// which characters separate path components on the machine.
pub open spec fn portable(pattern: Seq<char>) -> bool {
    &&& !pattern.contains('/')
    &&& !pattern.contains('\\')
    &&& !text::occurs_in(pattern, seq!['*', '*'])
}

/// A pattern without slashes and without `**`. What such a pattern makes of texts without slashes
/// does not depend on the machine.
pub open spec fn slash_free(pattern: Seq<char>) -> bool {
    &&& !pattern.contains('/')
    &&& !text::occurs_in(pattern, seq!['*', '*'])
}

/// Whether two outcomes are the same as far as texts without slashes go.
pub open spec fn same_without_slashes(
    a: Result<Set<Seq<char>>, Seq<char>>,
    b: Result<Set<Seq<char>>, Seq<char>>,
) -> bool {
    match a {
        Ok(texts) => b matches Ok(others) && forall|t: Seq<char>|
            !t.contains('/') ==> (#[trigger] texts.contains(t) <==> others.contains(t)),
        Err(message) => b == Err::<Set<Seq<char>>, Seq<char>>(message),
    }
}

/// A pattern without `[` and without `**`.
pub open spec fn simple(pattern: Seq<char>) -> bool {
    &&& !pattern.contains('[')
    &&& !text::occurs_in(pattern, seq!['*', '*'])
}

/// `text` is what `pattern` describes, where `?` stands for any one character, `*` for any
/// run of characters, and every other character for itself.
pub open spec fn wild(pattern: Seq<char>, text: Seq<char>) -> bool
    decreases pattern.len(), text.len(),
{
    if pattern.len() == 0 {
        text.len() == 0
    } else if pattern[0] == '*' {
        wild(pattern.drop_first(), text) || (text.len() > 0 && wild(pattern, text.drop_first()))
    } else {
        text.len() > 0 && (pattern[0] == '?' || pattern[0] == text[0]) && wild(
            pattern.drop_first(),
            text.drop_first(),
        )
    }
}

/// `text` with a backslash for each slash.
pub open spec fn unified(text: Seq<char>) -> Seq<char> {
    text::replaced_char(text, '/', '\\')
}

/// Like [`wild`], where slash and backslash stand for one another.
pub open spec fn wild_path(pattern: Seq<char>, text: Seq<char>) -> bool {
    wild(unified(pattern), unified(text))
}

/// A wildcard pattern that compiles to exactly what it describes, character by character.
pub open spec fn wild_outcome(pattern: Seq<char>) -> Result<Set<Seq<char>>, Seq<char>> {
    Ok(Set::new(|text: Seq<char>| wild(pattern, text)))
}

/// A wildcard pattern that compiles to exactly what it describes, where slash and backslash
/// stand for one another.
pub open spec fn wild_path_outcome(pattern: Seq<char>) -> Result<Set<Seq<char>>, Seq<char>> {
    Ok(Set::new(|text: Seq<char>| wild_path(pattern, text)))
}

/// What an attempt to compile a wildcard pattern gave: the texts it matches, or the message.
pub open spec fn glob_outcome(out: Result<glob::Pattern, String>) -> Result<
    Set<Seq<char>>,
    Seq<char>,
> {
    match out {
        Ok(p) => Ok(glob_matched(p)),
        Err(m) => Err(m@),
    }
}

/// Whether this is what some machine makes of a pattern.
pub open spec fn read_on_some_machine(
    outcome: Result<Set<Seq<char>>, Seq<char>>,
    pattern: Seq<char>,
) -> bool {
    exists|separators: Set<char>, alike: bool|
        path_separators(separators) && outcome == #[trigger] glob_compiled(
            pattern,
            separators,
            alike,
        )
}

/// `glob::Pattern::new` with its error turned into the message.
///
/// What comes out depends on the pattern and on the path separators of the machine. For a
/// portable pattern it is as if there were none, and for one without slashes and `**` that holds
/// as far as texts without slashes go. A pattern without `[` and `**` is always accepted, and
/// matches what it describes: where the separators are not taken for one another, as [`wild`]
/// says, and elsewhere as [`wild_path`] says. Which machine it is is left unsaid.
#[verifier::external_body]
fn compile_glob(pattern: &str) -> (out: Result<glob::Pattern, String>)
    ensures
        read_on_some_machine(glob_outcome(out), pattern@),
        portable(pattern@) ==> glob_outcome(out) == glob_compiled(pattern@, Set::empty(), false),
        slash_free(pattern@) ==> same_without_slashes(
            glob_outcome(out),
            glob_compiled(pattern@, Set::empty(), false),
        ),
        simple(pattern@) ==> glob_outcome(out) == wild_outcome(pattern@) || glob_outcome(out)
            == wild_path_outcome(pattern@),
{
    match glob::Pattern::new(pattern) {
        Ok(p) => Ok(p),
        Err(e) => Err(e.to_string()),
    }
}

/// `glob::Pattern::matches`: whether the pattern matches the whole text.
#[verifier::external_body]
fn glob_matches(pat: &glob::Pattern, text: &str) -> (yes: bool)
    ensures
        yes == glob_matched(*pat).contains(text@),
{
    pat.matches(text)
}

/// Length of the longest word that is known to be small enough for a regular expression.
pub const WORD_LIMIT: usize = 1000;

/// A regular expression that is made of ASCII letters and digits alone, and is not long.
pub open spec fn is_word(pattern: Seq<char>) -> bool {
    &&& pattern.len() <= WORD_LIMIT
    &&& forall|i: int| 0 <= i < pattern.len() ==> is_letter_or_digit(#[trigger] pattern[i])
}

/// An ASCII letter or digit.
pub open spec fn is_letter_or_digit(c: char) -> bool {
    ('a' <= c && c <= 'z') || ('A' <= c && c <= 'Z') || ('0' <= c && c <= '9')
}

/// Whether these are the texts in which a word occurs.
pub open spec fn finds_word(texts: Set<Seq<char>>, word: Seq<char>) -> bool {
    forall|t: Seq<char>| #[trigger] texts.contains(t) <==> text::occurs_in(t, word)
}

/// Whether, of ASCII texts, these hold the ones in which a word occurs, in whatever letter case.
pub open spec fn finds_word_in_any_case(texts: Set<Seq<char>>, word: Seq<char>) -> bool {
    forall|t: Seq<char>|
        vstd::utf8::is_ascii_chars(t) ==> (#[trigger] texts.contains(t) <==> text::occurs_in(
            text::ascii_lowercase(t),
            text::ascii_lowercase(word),
        ))
}

/// A caret and a word behind it.
pub open spec fn is_first_word(pattern: Seq<char>) -> bool {
    pattern.len() > 0 && pattern[0] == '^' && is_word(pattern.drop_first())
}

/// Whether these are the texts that begin with a word.
pub open spec fn finds_first_word(texts: Set<Seq<char>>, word: Seq<char>) -> bool {
    forall|t: Seq<char>| #[trigger] texts.contains(t) <==> word.is_prefix_of(t)
}

/// Whether, of ASCII texts, these hold the ones that begin with a word, in whatever letter case.
pub open spec fn finds_first_word_in_any_case(texts: Set<Seq<char>>, word: Seq<char>) -> bool {
    forall|t: Seq<char>|
        vstd::utf8::is_ascii_chars(t) ==> (#[trigger] texts.contains(t) <==> text::ascii_lowercase(
            word,
        ).is_prefix_of(text::ascii_lowercase(t)))
}

/// The verdict on a regular expression: nothing if it was compiled, else the error message.
pub open spec fn regex_verdict(out: Result<regex::Regex, String>) -> Option<Seq<char>> {
    match out {
        Ok(_) => None,
        Err(m) => Some(m@),
    }
}

/// `regex::Regex::new` with its error turned into the message. Whether the pattern is accepted,
/// and if not why, depends on the pattern and, by the limit on the compiled size, on the machine;
/// what a compiled expression matches depends on the pattern alone. A word always compiles and
/// matches where it occurs, and one behind a caret matches where a text begins with it. Which
/// machine it is is left unsaid.
#[verifier::external_body]
fn compile_regex(pattern: &str) -> (out: Result<regex::Regex, String>)
    ensures
        regex_verdicts(pattern@).contains(regex_verdict(out)),
        out matches Ok(re) ==> regex_matched(re) == regex_language(pattern@),
        is_word(pattern@) || is_first_word(pattern@) ==> out is Ok,
        is_word(pattern@) ==> (out matches Ok(re) ==> finds_word(regex_matched(re), pattern@)),
        is_first_word(pattern@) ==> (out matches Ok(re) ==> finds_first_word(
            regex_matched(re),
            pattern@.drop_first(),
        )),
{
    match regex::Regex::new(pattern) {
        Ok(re) => Ok(re),
        Err(e) => Err(e.to_string()),
    }
}

/// `regex::RegexBuilder::build` with letter case ignored, its error turned into the message.
/// Whether the pattern is accepted depends on pattern and machine, as for [`compile_regex`]; what
/// a compiled expression matches depends on the pattern alone. A word always compiles and matches
/// an ASCII text where it occurs, and one behind a caret where the text begins with it, in
/// whatever letter case. Which machine it is is left unsaid.
#[verifier::external_body]
fn compile_regex_ignoring_case(pattern: &str) -> (out: Result<regex::Regex, String>)
    ensures
        regex_verdicts_ignoring_case(pattern@).contains(regex_verdict(out)),
        out matches Ok(re) ==> regex_matched(re) == regex_language_ignoring_case(pattern@),
        is_word(pattern@) || is_first_word(pattern@) ==> out is Ok,
        is_word(pattern@) ==> (out matches Ok(re) ==> finds_word_in_any_case(
            regex_matched(re),
            pattern@,
        )),
        is_first_word(pattern@) ==> (out matches Ok(re) ==> finds_first_word_in_any_case(
            regex_matched(re),
            pattern@.drop_first(),
        )),
{
    match regex::RegexBuilder::new(pattern).case_insensitive(true).build() {
        Ok(re) => Ok(re),
        Err(e) => Err(e.to_string()),
    }
}

/// `regex::Regex::is_match`: whether the expression matches somewhere in the text.
#[verifier::external_body]
fn regex_matches(re: &regex::Regex, text: &str) -> (yes: bool)
    ensures
        yes == regex_matched(*re).contains(text@),
{
    re.is_match(text)
}

// ---------------------------------------------------------------------------------------
// Matchers
// ---------------------------------------------------------------------------------------

/// A kind of entry to search for.
#[derive(Clone, Copy, PartialEq, Eq, Structural)]
pub enum EntryKind {
    File,
    Dir,
}

/// How to search.
pub struct SearchOptions {
    /// Whether letter case counts.
    pub case_sensitive: bool,
    /// Whether the pattern is a regular expression.
    pub use_regex: bool,
    /// The only kind of entry to look at, if any.
    pub entry_kind: Option<EntryKind>,
    /// Whether the full path is matched in place of the file name.
    pub full_path: bool,
    /// How many entries to find at most; 0 for no limit.
    pub limit: usize,
}

/// A pattern made ready for matching.
pub enum Matcher {
    Substring { needle: String },
    Wildcard { pat: glob::Pattern },
    Regex { re: regex::Regex },
}

/// Why a pattern cannot be used.
#[derive(Debug)]
pub enum PatternError {
    /// The wildcard pattern is malformed.
    Wildcard(String),
    /// The regular expression is malformed or too large.
    Regex(String),
}

impl PatternError {
    /// The message for the user.
    pub open spec fn text(self) -> Seq<char> {
        match self {
            PatternError::Wildcard(m) => "通配符模式无效："@ + m@,
            PatternError::Regex(m) => m@,
        }
    }

    /// The message for the user.
    pub fn message(&self) -> (out: String)
        ensures
            out@ == self.text(),
            *self matches PatternError::Wildcard(m) ==> out@ == "通配符模式无效："@ + m@,
            *self matches PatternError::Regex(m) ==> out@ == m@,
    {
        match self {
            PatternError::Wildcard(m) => {
                let mut out = "通配符模式无效：".to_owned();
                out.append(m.as_str());
                out
            },
            PatternError::Regex(m) => m.clone(),
        }
    }
}

impl Matcher {
    /// Whether the matcher matches this text.
    pub open spec fn accepts(self, text: Seq<char>) -> bool {
        match self {
            Matcher::Substring { needle } => text::occurs_in(text, needle@),
            Matcher::Wildcard { pat } => glob_matched(pat).contains(text),
            Matcher::Regex { re } => regex_matched(re).contains(text),
        }
    }

    /// Whether the matcher matches this text. Where letter case does not count, the caller
    /// hands in lower case.
    pub fn matches(&self, target: &str) -> (yes: bool)
        ensures
            yes == self.accepts(target@),
    {
        match self {
            Matcher::Substring { needle } => text::contains_text(target, needle.as_str()),
            Matcher::Wildcard { pat } => glob_matches(pat, target),
            Matcher::Regex { re } => regex_matches(re, target),
        }
    }
}

/// `text` as it is compared: in lower case, unless letter case counts.
pub open spec fn folded(text: Seq<char>, case_sensitive: bool) -> Seq<char> {
    if case_sensitive {
        text
    } else {
        text::lowercase(text)
    }
}

/// `text` as it is compared: in lower case, unless letter case counts.
fn fold(text: &str, case_sensitive: bool) -> (out: String)
    ensures
        out@ == folded(text@, case_sensitive),
{
    if case_sensitive {
        text.to_owned()
    } else {
        text::to_lowercase(text)
    }
}

/// Whether a pattern holds a wildcard.
pub open spec fn has_wildcard(pattern: Seq<char>) -> bool {
    pattern.contains('*') || pattern.contains('?')
}

/// The matcher for a compiled regular expression, or the error.
pub fn regex_matcher(compiled: Result<regex::Regex, String>) -> (out: Result<Matcher, PatternError>)
    ensures
        out == match compiled {
            Ok(re) => Ok::<Matcher, PatternError>(Matcher::Regex { re }),
            Err(m) => Err::<Matcher, PatternError>(PatternError::Regex(m)),
        },
{
    match compiled {
        Ok(re) => Ok(Matcher::Regex { re }),
        Err(m) => Err(PatternError::Regex(m)),
    }
}

/// The matcher for a compiled wildcard pattern, or the error.
pub fn wildcard_matcher(compiled: Result<glob::Pattern, String>) -> (out: Result<
    Matcher,
    PatternError,
>)
    ensures
        out == match compiled {
            Ok(pat) => Ok::<Matcher, PatternError>(Matcher::Wildcard { pat }),
            Err(m) => Err::<Matcher, PatternError>(PatternError::Wildcard(m)),
        },
{
    match compiled {
        Ok(pat) => Ok(Matcher::Wildcard { pat }),
        Err(m) => Err(PatternError::Wildcard(m)),
    }
}

/// What a pattern that is no regular expression asks for: the texts to be found, or the error
/// message. A pattern with `*` or `?` is a wildcard pattern, which is read by the rules of the
/// machine for path separators; any other is searched for as it stands.
pub open spec fn wanted(
    pattern: Seq<char>,
    case_sensitive: bool,
    separators: Set<char>,
    alike: bool,
) -> Result<Set<Seq<char>>, Seq<char>> {
    let source = folded(pattern, case_sensitive);
    if has_wildcard(pattern) {
        glob_compiled(source, separators, alike)
    } else {
        Ok(Set::new(|t: Seq<char>| text::occurs_in(t, source)))
    }
}

/// The verdict on a pattern: nothing if there is a matcher for it, else the message.
pub open spec fn verdict(out: Result<Matcher, PatternError>) -> Option<Seq<char>> {
    match out {
        Ok(_) => None,
        Err(PatternError::Wildcard(m)) => Some(m@),
        Err(PatternError::Regex(m)) => Some(m@),
    }
}

/// Whether a matcher accepts exactly these texts.
pub open spec fn accepts_just(m: Matcher, texts: Set<Seq<char>>) -> bool {
    forall|t: Seq<char>| #[trigger] m.accepts(t) <==> texts.contains(t)
}

/// Whether what was made of a pattern is what it asks for.
pub open spec fn serves(
    out: Result<Matcher, PatternError>,
    wanted: Result<Set<Seq<char>>, Seq<char>>,
) -> bool {
    match wanted {
        Ok(texts) => out matches Ok(m) && accepts_just(m, texts),
        Err(message) => out matches Err(PatternError::Wildcard(m)) && m@ == message,
    }
}

/// Like [`serves`], as far as texts without slashes go.
pub open spec fn serves_without_slashes(
    out: Result<Matcher, PatternError>,
    wanted: Result<Set<Seq<char>>, Seq<char>>,
) -> bool {
    match wanted {
        Ok(texts) => out matches Ok(m) && forall|t: Seq<char>|
            !t.contains('/') ==> (#[trigger] m.accepts(t) <==> texts.contains(t)),
        Err(message) => out matches Err(PatternError::Wildcard(m)) && m@ == message,
    }
}

/// What holds of a matcher for a pattern that is no regular expression, whichever machine made
/// it.
pub open spec fn fits(m: Matcher, pattern: Seq<char>, case_sensitive: bool) -> bool {
    let source = folded(pattern, case_sensitive);
    if has_wildcard(pattern) {
        &&& portable(source) ==> serves(Ok(m), wanted(pattern, case_sensitive, Set::empty(), false))
        &&& slash_free(source) ==> serves_without_slashes(
            Ok(m),
            wanted(pattern, case_sensitive, Set::empty(), false),
        )
        &&& simple(source) ==> forall|t: Seq<char>|
            (wild(source, t) ==> #[trigger] m.accepts(t)) && (m.accepts(t) ==> wild_path(source, t))
    } else {
        m matches Matcher::Substring { needle } && needle@ == source
    }
}

/// Makes a pattern ready for matching. Unless it is to be a regular expression, a pattern with
/// `*` or `?` is a wildcard pattern, and any other is searched for as it stands.
///
/// A wildcard pattern without `[` and `**` matches what it describes; whether a slash in it may
/// stand for a backslash and the other way round depends on the machine.
pub fn build_matcher(pattern: &str, opts: &SearchOptions) -> (out: Result<Matcher, PatternError>)
    ensures
        opts.use_regex ==> match out {
            Ok(m) => m matches Matcher::Regex { re } && regex_matched(re) == if opts.case_sensitive {
                regex_language(pattern@)
            } else {
                regex_language_ignoring_case(pattern@)
            },
            Err(e) => e is Regex,
        },
        opts.use_regex ==> (if opts.case_sensitive {
            regex_verdicts(pattern@)
        } else {
            regex_verdicts_ignoring_case(pattern@)
        }).contains(verdict(out)),
        opts.use_regex && is_first_word(pattern@) ==> (out matches Ok(m) && if opts.case_sensitive {
            forall|t: Seq<char>| #[trigger]
                m.accepts(t) <==> pattern@.drop_first().is_prefix_of(t)
        } else {
            forall|t: Seq<char>|
                vstd::utf8::is_ascii_chars(t) ==> (#[trigger] m.accepts(t)
                    <==> text::ascii_lowercase(pattern@.drop_first()).is_prefix_of(
                    text::ascii_lowercase(t),
                ))
        }),
        opts.use_regex && is_word(pattern@) ==> (out matches Ok(m) && if opts.case_sensitive {
            forall|t: Seq<char>| #[trigger] m.accepts(t) <==> text::occurs_in(t, pattern@)
        } else {
            forall|t: Seq<char>|
                vstd::utf8::is_ascii_chars(t) ==> (#[trigger] m.accepts(t) <==> text::occurs_in(
                    text::ascii_lowercase(t),
                    text::ascii_lowercase(pattern@),
                ))
        }),
        !opts.use_regex ==> exists|separators: Set<char>, alike: bool|
            path_separators(separators) && serves(
                out,
                #[trigger] wanted(pattern@, opts.case_sensitive, separators, alike),
            ),
        !opts.use_regex && has_wildcard(pattern@) ==> {
            let source = folded(pattern@, opts.case_sensitive);
            &&& match out {
                Ok(m) => m is Wildcard,
                Err(e) => e is Wildcard,
            }
            &&& simple(source) ==> (out matches Ok(m) && {
                ||| forall|t: Seq<char>| #[trigger] m.accepts(t) <==> wild(source, t)
                ||| forall|t: Seq<char>| #[trigger] m.accepts(t) <==> wild_path(source, t)
            })
            &&& simple(source) ==> (out matches Ok(m) && forall|t: Seq<char>|
                (wild(source, t) ==> #[trigger] m.accepts(t)) && (m.accepts(t) ==> wild_path(
                    source,
                    t,
                )))
            &&& portable(source) && simple(source) ==> (out matches Ok(m) && forall|
                t: Seq<char>,
            | #[trigger]
                m.accepts(t) <==> wild(source, t))
            &&& portable(source) ==> serves(
                out,
                wanted(pattern@, opts.case_sensitive, Set::empty(), false),
            )
            &&& slash_free(source) ==> serves_without_slashes(
                out,
                wanted(pattern@, opts.case_sensitive, Set::empty(), false),
            )
        },
        !opts.use_regex && !has_wildcard(pattern@) ==> (out matches Ok(Matcher::Substring { needle })
            && needle@ == folded(pattern@, opts.case_sensitive)),
        !opts.use_regex ==> (out matches Ok(m) ==> fits(m, pattern@, opts.case_sensitive)),
        // A pattern in which no character is a star or a question mark is searched for as it
        // stands; any other is a wildcard pattern.
        !opts.use_regex && (forall|i: int|
            0 <= i < pattern@.len() ==> #[trigger] pattern@[i] != '*' && pattern@[i] != '?') ==> (
        out matches Ok(m) && forall|t: Seq<char>| #[trigger]
            m.accepts(t) <==> exists|at: int|
                0 <= at <= t.len() - folded(pattern@, opts.case_sensitive).len()
                    && #[trigger] t.subrange(
                    at,
                    at + folded(pattern@, opts.case_sensitive).len(),
                ) == folded(pattern@, opts.case_sensitive)),
        !opts.use_regex && (exists|i: int|
            0 <= i < pattern@.len() && (#[trigger] pattern@[i] == '*' || pattern@[i] == '?')) ==> (
        match out {
            Ok(m) => m is Wildcard,
            Err(e) => e is Wildcard,
        }),
{
    if opts.use_regex {
        let compiled = if opts.case_sensitive {
            compile_regex(pattern)
        } else {
            compile_regex_ignoring_case(pattern)
        };
        return regex_matcher(compiled);
    }
    let source = fold(pattern, opts.case_sensitive);
    if text::contains_char(pattern, '*') || text::contains_char(pattern, '?') {
        let compiled = compile_glob(source.as_str());
        let out = wildcard_matcher(compiled);
        proof {
            let cs = opts.case_sensitive;
            let (separators, alike) = choose|separators: Set<char>, alike: bool|
                path_separators(separators) && glob_outcome(compiled) == #[trigger] glob_compiled(
                    source@,
                    separators,
                    alike,
                );
            assert(serves(out, wanted(pattern@, cs, separators, alike)));
            wild_reads(source@);
            if simple(source@) {
                let m = out->Ok_0;
                let found = glob_matched(compiled->Ok_0);
                assert(forall|t: Seq<char>| #[trigger] m.accepts(t) <==> found.contains(t));
                if glob_outcome(compiled) == wild_outcome(source@) {
                    assert(forall|t: Seq<char>| #[trigger] m.accepts(t) <==> wild(source@, t));
                } else {
                    assert(forall|t: Seq<char>| #[trigger] m.accepts(t) <==> wild_path(source@, t));
                }
            }
        }
        return out;
    }
    assert(path_separators(Set::empty()));
    let out: Result<Matcher, PatternError> = Ok(Matcher::Substring { needle: source });
    assert(serves(out, wanted(pattern@, opts.case_sensitive, Set::empty(), false)));
    proof {
        let low = folded(pattern@, opts.case_sensitive);
        let m = out->Ok_0;
        assert forall|t: Seq<char>| #[trigger] m.accepts(t) <==> exists|at: int|
            0 <= at <= t.len() - low.len() && #[trigger] t.subrange(at, at + low.len()) == low by {
            if m.accepts(t) {
                let at = choose|at: int| text::occurs_at(t, low, at);
                assert(t.subrange(at, at + low.len()) == low);
            }
            if exists|at: int|
                0 <= at <= t.len() - low.len() && #[trigger] t.subrange(at, at + low.len())
                    == low {
                let at = choose|at: int|
                    0 <= at <= t.len() - low.len() && #[trigger] t.subrange(at, at + low.len())
                        == low;
                assert(text::occurs_at(t, low, at));
            }
        }
    }
    out
}

/// What a pattern describes character by character it also describes where slash and backslash
/// stand for one another; without either of them there is no difference.
proof fn wild_reads(pattern: Seq<char>)
    ensures
        forall|t: Seq<char>| #[trigger] wild(pattern, t) ==> wild_path(pattern, t),
        portable(pattern) ==> forall|t: Seq<char>| #[trigger]
            wild_path(pattern, t) <==> wild(pattern, t),
{
    assert forall|t: Seq<char>| #[trigger] wild(pattern, t) implies wild_path(pattern, t) by {
        separators_may_be_alike(pattern, t);
    }
    if portable(pattern) {
        assert forall|t: Seq<char>| #[trigger] wild_path(pattern, t) <==> wild(pattern, t) by {
            separators_may_be_alike(pattern, t);
        }
    }
}

/// What a pattern describes character by character it also describes where slash and backslash
/// stand for one another. A pattern without either of them describes no more then than before.
pub proof fn separators_may_be_alike(pattern: Seq<char>, t: Seq<char>)
    ensures
        wild(pattern, t) ==> wild_path(pattern, t),
        !pattern.contains('/') && !pattern.contains('\\') ==> (wild_path(pattern, t) <==> wild(
            pattern,
            t,
        )),
    decreases pattern.len(), t.len(),
{
    let p = unified(pattern);
    let u = unified(t);
    if pattern.len() > 0 {
        let rest = pattern.drop_first();
        assert(pattern.contains(pattern[0]));
        assert forall|c: char| rest.contains(c) implies pattern.contains(c) by {
            let k = choose|k: int| 0 <= k < rest.len() && rest[k] == c;
            assert(pattern[k + 1] == c);
        }
        assert(unified(rest) == p.drop_first());
        if t.len() > 0 {
            assert(unified(t.drop_first()) == u.drop_first());
        }
        if pattern[0] == '*' {
            separators_may_be_alike(rest, t);
            if t.len() > 0 {
                separators_may_be_alike(pattern, t.drop_first());
            }
        } else if t.len() > 0 {
            separators_may_be_alike(rest, t.drop_first());
        }
    }
}

// ---------------------------------------------------------------------------------------
// Searching
// ---------------------------------------------------------------------------------------

/// Figures of a search.
#[derive(Debug, Clone, Copy)]
pub struct SearchStats {
    /// Number of entries found.
    pub shown: usize,
    /// Number of entries of the right kind that were looked at.
    pub total_scanned: usize,
    /// Whether the search ended at the limit.
    pub truncated: bool,
}

/// Whether an entry is of the kind searched for.
pub open spec fn of_kind(e: index::EntryView, opts: SearchOptions) -> bool {
    match opts.entry_kind {
        None => true,
        Some(EntryKind::File) => !e.is_dir,
        Some(EntryKind::Dir) => e.is_dir,
    }
}

/// The text of an entry that is matched.
pub open spec fn target_of(e: index::EntryView, opts: SearchOptions) -> Seq<char> {
    folded(
        if opts.full_path {
            e.path
        } else {
            index::name_of(e.path)
        },
        opts.case_sensitive,
    )
}

/// Whether the search finds an entry.
pub open spec fn is_hit(e: index::EntryView, matcher: Matcher, opts: SearchOptions) -> bool {
    of_kind(e, opts) && matcher.accepts(target_of(e, opts))
}

/// All entries that match, in the order of the index.
pub open spec fn all_hits(
    entries: Seq<index::EntryView>,
    matcher: Matcher,
    opts: SearchOptions,
) -> Seq<index::EntryView> {
    entries.filter(|e: index::EntryView| is_hit(e, matcher, opts))
}

/// The entries of the right kind.
pub open spec fn all_of_kind(
    entries: Seq<index::EntryView>,
    opts: SearchOptions,
) -> Seq<index::EntryView> {
    entries.filter(|e: index::EntryView| of_kind(e, opts))
}

/// Whether the limit is reached within these entries.
pub open spec fn limit_reached(
    entries: Seq<index::EntryView>,
    matcher: Matcher,
    opts: SearchOptions,
) -> bool {
    opts.limit > 0 && all_hits(entries, matcher, opts).len() >= opts.limit
}

/// How many entries the search looks at: all, or those up to the one that reaches the limit.
pub open spec fn reach(
    entries: Seq<index::EntryView>,
    matcher: Matcher,
    opts: SearchOptions,
) -> int
    decreases entries.len(),
{
    if entries.len() > 0 && limit_reached(entries.drop_last(), matcher, opts) {
        reach(entries.drop_last(), matcher, opts)
    } else {
        entries.len() as int
    }
}

/// The first entries that match, as many as the limit allows.
pub open spec fn first_hits(
    entries: Seq<index::EntryView>,
    matcher: Matcher,
    opts: SearchOptions,
) -> Seq<index::EntryView> {
    let hits = all_hits(entries, matcher, opts);
    if limit_reached(entries, matcher, opts) {
        hits.take(opts.limit as int)
    } else {
        hits
    }
}

/// The text of an entry that is matched.
fn target_text(e: &IndexEntry, opts: &SearchOptions) -> (out: String)
    ensures
        out@ == target_of(e@, *opts),
{
    if opts.full_path {
        fold(e.path.as_str(), opts.case_sensitive)
    } else {
        fold(basename(e.path.as_str()), opts.case_sensitive)
    }
}

/// One more entry behind those looked at.
proof fn one_more(
    front: Seq<index::EntryView>,
    e: index::EntryView,
    matcher: Matcher,
    opts: SearchOptions,
)
    ensures
        all_hits(front.push(e), matcher, opts) == if is_hit(e, matcher, opts) {
            all_hits(front, matcher, opts).push(e)
        } else {
            all_hits(front, matcher, opts)
        },
        all_of_kind(front.push(e), opts) == if of_kind(e, opts) {
            all_of_kind(front, opts).push(e)
        } else {
            all_of_kind(front, opts)
        },
{
    crate::seqs::filter_push(front, e, |x: index::EntryView| is_hit(x, matcher, opts));
    crate::seqs::filter_push(front, e, |x: index::EntryView| of_kind(x, opts));
}

/// Once the limit is reached, further entries change nothing.
proof fn reach_stays(
    entries: Seq<index::EntryView>,
    n: int,
    matcher: Matcher,
    opts: SearchOptions,
)
    requires
        0 < n <= entries.len(),
        limit_reached(entries.take(n), matcher, opts),
        !limit_reached(entries.take(n - 1), matcher, opts),
    ensures
        limit_reached(entries, matcher, opts),
        reach(entries, matcher, opts) == n,
        all_hits(entries.take(n), matcher, opts).len() == opts.limit,
        first_hits(entries, matcher, opts) == all_hits(entries.take(n), matcher, opts),
    decreases entries.len() - n,
{
    assert(entries.take(n) == entries.take(n - 1).push(entries[n - 1]));
    one_more(entries.take(n - 1), entries[n - 1], matcher, opts);
    let found = all_hits(entries.take(n), matcher, opts);
    if n == entries.len() {
        assert(entries.take(n) == entries);
        assert(entries.drop_last() == entries.take(n - 1));
        assert(found.take(opts.limit as int) == found);
    } else {
        let front = entries.drop_last();
        assert(front.take(n) == entries.take(n));
        assert(front.take(n - 1) == entries.take(n - 1));
        reach_stays(front, n, matcher, opts);
        assert(front.push(entries.last()) == entries);
        one_more(front, entries.last(), matcher, opts);
        let limit = opts.limit as int;
        assert(all_hits(entries, matcher, opts).take(limit) == all_hits(front, matcher, opts).take(
            limit,
        ));
    }
}

/// Searches the entries in order. Gives the paths found and the figures of the search.
pub fn run_search(index: &[IndexEntry], matcher: &Matcher, opts: &SearchOptions) -> (out: (
    Vec<String>,
    SearchStats,
))
    ensures
        ({
            let entries = index::entries_view(index@);
            let looked_at = entries.take(reach(entries, *matcher, *opts));
            let found = first_hits(entries, *matcher, *opts);
            &&& out.0@.len() == found.len()
            &&& forall|i: int| 0 <= i < found.len() ==> (#[trigger] out.0@[i])@ == found[i].path
            &&& out.1.shown == found.len()
            &&& out.1.total_scanned == all_of_kind(looked_at, *opts).len()
            &&& out.1.truncated == limit_reached(entries, *matcher, *opts)
        }),
{
    let ghost entries = index::entries_view(index@);
    let mut paths: Vec<String> = Vec::new();
    let mut total_scanned: usize = 0;
    proof {
        reveal(Seq::filter);
        assert(entries.take(0).len() == 0);
    }
    for i in 0..index.len()
        invariant
            entries == index::entries_view(index@),
            !limit_reached(entries.take(i as int), *matcher, *opts),
            paths@.len() == all_hits(entries.take(i as int), *matcher, *opts).len(),
            forall|k: int|
                0 <= k < paths@.len() ==> (#[trigger] paths@[k])@ == all_hits(
                    entries.take(i as int),
                    *matcher,
                    *opts,
                )[k].path,
            total_scanned == all_of_kind(entries.take(i as int), *opts).len(),
            total_scanned <= i,
            paths@.len() <= i,
    {
        let e = &index[i];
        proof {
            assert(entries[i as int] == e@);
            assert(entries.take(i + 1) == entries.take(i as int).push(e@));
            one_more(entries.take(i as int), e@, *matcher, *opts);
        }
        let kind_fits = match opts.entry_kind {
            None => true,
            Some(EntryKind::File) => !e.is_dir,
            Some(EntryKind::Dir) => e.is_dir,
        };
        if kind_fits {
            let target = target_text(e, opts);
            total_scanned = total_scanned + 1;
            if matcher.matches(target.as_str()) {
                paths.push(e.path.clone());
                if opts.limit > 0 && paths.len() >= opts.limit {
                    proof {
                        reach_stays(entries, i + 1, *matcher, *opts);
                    }
                    let shown: usize = paths.len();
                    return (paths, SearchStats { shown, total_scanned, truncated: true });
                }
            }
        }
    }
    proof {
        assert(entries.take(entries.len() as int) == entries);
        nothing_cut(entries, *matcher, *opts);
    }
    let shown: usize = paths.len();
    (paths, SearchStats { shown, total_scanned, truncated: false })
}

/// A search that stays below its limit looks at every entry.
proof fn nothing_cut(entries: Seq<index::EntryView>, matcher: Matcher, opts: SearchOptions)
    requires
        !limit_reached(entries, matcher, opts),
    ensures
        reach(entries, matcher, opts) == entries.len(),
{
    if entries.len() > 0 {
        let front = entries.drop_last();
        assert(front.push(entries.last()) == entries);
        one_more(front, entries.last(), matcher, opts);
    }
}

// ---------------------------------------------------------------------------------------
// Laws
// ---------------------------------------------------------------------------------------

/// A pattern in which no character is a star or a question mark asks for the texts in which it
/// occurs, in lower case unless letter case counts; no other character makes it a wildcard
/// pattern, whatever the machine.
pub proof fn plain_pattern_asks_for_its_occurrences(
    pattern: Seq<char>,
    case_sensitive: bool,
    separators: Set<char>,
    alike: bool,
    m: Matcher,
    t: Seq<char>,
)
    requires
        forall|i: int|
            0 <= i < pattern.len() ==> #[trigger] pattern[i] != '*' && pattern[i] != '?',
        serves(Ok(m), wanted(pattern, case_sensitive, separators, alike)),
    ensures
        m.accepts(t) <==> exists|at: int|
            0 <= at <= t.len() - folded(pattern, case_sensitive).len() && #[trigger] t.subrange(
                at,
                at + folded(pattern, case_sensitive).len(),
            ) == folded(pattern, case_sensitive),
        fits(m, pattern, case_sensitive) ==> m is Substring,
{
    let low = folded(pattern, case_sensitive);
    assert(!has_wildcard(pattern));
    if m.accepts(t) {
        assert(text::occurs_in(t, low));
        let at = choose|at: int| text::occurs_at(t, low, at);
        assert(t.subrange(at, at + low.len()) == low);
    }
    if exists|at: int|
        0 <= at <= t.len() - low.len() && #[trigger] t.subrange(at, at + low.len()) == low {
        let at = choose|at: int|
            0 <= at <= t.len() - low.len() && #[trigger] t.subrange(at, at + low.len()) == low;
        assert(text::occurs_at(t, low, at));
        assert(text::occurs_in(t, low));
    }
}

/// What is compared: the text itself where letter case counts, else its lower case; that of ASCII
/// text has each capital letter replaced by the small one and every other character as it is.
pub proof fn folding_changes_capitals_only(t: Seq<char>)
    ensures
        folded(t, true) == t,
        folded(t, false) == text::lowercase(t),
        vstd::utf8::is_ascii_chars(t) ==> folded(t, false).len() == t.len() && forall|i: int|
            0 <= i < t.len() ==> ('A' <= #[trigger] t[i] <= 'Z' && folded(t, false)[i] as u32
                == t[i] as u32 + 32) || (!('A' <= t[i] <= 'Z') && folded(t, false)[i] == t[i]),
{
    if vstd::utf8::is_ascii_chars(t) {
        assert forall|i: int| 0 <= i < t.len() implies ('A' <= #[trigger] t[i] <= 'Z' && folded(
            t,
            false,
        )[i] as u32 == t[i] as u32 + 32) || (!('A' <= t[i] <= 'Z') && folded(t, false)[i]
            == t[i]) by {
            if 'A' <= t[i] <= 'Z' {
                let u = ((t[i] as u32) + 32) as u32;
                vstd::utf8::char_u32_cast(u as char, u);
            }
        }
    }
}

/// A question mark stands for exactly one character, whichever it is.
pub proof fn question_mark_matches_one_character(rest: Seq<char>, t: Seq<char>)
    ensures
        wild(seq!['?'] + rest, t) <==> t.len() > 0 && wild(rest, t.drop_first()),
{
    assert((seq!['?'] + rest).drop_first() == rest);
}

/// The empty pattern describes the empty text alone.
pub proof fn empty_pattern_matches_nothing_else(t: Seq<char>)
    ensures
        wild(seq![], t) <==> t.len() == 0,
{
}

/// A search looks at the file name, the part behind the last backslash, or at the full path if
/// that is asked for; without regard to letter case, at its lower case.
pub proof fn search_looks_at_name_or_path(
    dir: Seq<char>,
    name: Seq<char>,
    is_dir: bool,
    opts: SearchOptions,
)
    requires
        !name.contains('\\'),
    ensures
        target_of(index::EntryView { path: dir.push('\\') + name, is_dir }, opts) == folded(
            if opts.full_path {
                dir.push('\\') + name
            } else {
                name
            },
            opts.case_sensitive,
        ),
        target_of(index::EntryView { path: name, is_dir }, opts) == folded(
            name,
            opts.case_sensitive,
        ),
{
    index::name_follows_the_last_separator(dir, name);
}

/// Whether an entry may be found at all, by its kind.
pub open spec fn wanted_kind(is_dir: bool, kind: Option<EntryKind>) -> bool {
    ||| kind is None
    ||| kind == Some(EntryKind::Dir) && is_dir
    ||| kind == Some(EntryKind::File) && !is_dir
}

/// A search finds, in the order of the index, all entries of the kind asked for whose text is
/// accepted; with a limit, the first so many of them. It is cut short if and only if the limit is
/// reached.
pub proof fn search_finds_all_that_match(
    entries: Seq<index::EntryView>,
    matcher: Matcher,
    opts: SearchOptions,
)
    ensures
        ({
            let all = entries.filter(
                |e: index::EntryView|
                    wanted_kind(e.is_dir, opts.entry_kind) && matcher.accepts(target_of(e, opts)),
            );
            &&& opts.limit == 0 ==> first_hits(entries, matcher, opts) == all
            &&& opts.limit > 0 && all.len() < opts.limit ==> first_hits(entries, matcher, opts)
                == all
            &&& opts.limit > 0 && all.len() >= opts.limit ==> first_hits(entries, matcher, opts)
                == all.take(opts.limit as int)
            &&& limit_reached(entries, matcher, opts) <==> opts.limit > 0 && all.len() >= opts.limit
        }),
{
    crate::seqs::filter_same(
        entries,
        |e: index::EntryView| is_hit(e, matcher, opts),
        |e: index::EntryView|
            wanted_kind(e.is_dir, opts.entry_kind) && matcher.accepts(target_of(e, opts)),
    );
}

/// A search that is not cut short looks at every entry; one that is stops at the entry that
/// reaches the limit. Only entries of the kind asked for are counted.
pub proof fn search_stops_at_its_limit(
    entries: Seq<index::EntryView>,
    matcher: Matcher,
    opts: SearchOptions,
)
    ensures
        ({
            let n = reach(entries, matcher, opts);
            &&& 0 <= n <= entries.len()
            &&& !limit_reached(entries, matcher, opts) ==> n == entries.len()
            &&& limit_reached(entries, matcher, opts) ==> n > 0 && first_hits(
                entries.take(n),
                matcher,
                opts,
            ) == first_hits(entries, matcher, opts) && !limit_reached(
                entries.take(n - 1),
                matcher,
                opts,
            )
            &&& all_of_kind(entries.take(n), opts) == entries.take(n).filter(
                |e: index::EntryView| wanted_kind(e.is_dir, opts.entry_kind),
            )
        }),
    decreases entries.len(),
{
    let n = reach(entries, matcher, opts);
    reveal(Seq::filter);
    if entries.len() > 0 && limit_reached(entries.drop_last(), matcher, opts) {
        let front = entries.drop_last();
        search_stops_at_its_limit(front, matcher, opts);
        assert(front.take(n) == entries.take(n));
        assert(front.take(n - 1) == entries.take(n - 1));
        limit_stays_reached(front, n, matcher, opts);
        reach_stays(entries, n, matcher, opts);
        assert(all_hits(entries.take(n), matcher, opts).take(opts.limit as int) == all_hits(
            entries.take(n),
            matcher,
            opts,
        ));
    } else {
        assert(entries.take(n) == entries);
        if entries.len() > 0 {
            assert(entries.take(n - 1) == entries.drop_last());
        }
    }
    crate::seqs::filter_same(
        entries.take(n),
        |e: index::EntryView| of_kind(e, opts),
        |e: index::EntryView| wanted_kind(e.is_dir, opts.entry_kind),
    );
}

/// Where a search stops, its limit is reached.
proof fn limit_stays_reached(
    entries: Seq<index::EntryView>,
    n: int,
    matcher: Matcher,
    opts: SearchOptions,
)
    requires
        limit_reached(entries, matcher, opts),
        0 < n <= entries.len(),
        first_hits(entries.take(n), matcher, opts) == first_hits(entries, matcher, opts),
    ensures
        limit_reached(entries.take(n), matcher, opts),
{
}

/// A search never gives more than its limit, unless that is 0; what it gives is the beginning
/// of all that matches, and all of it if the limit was not reached.
pub proof fn limit_is_kept(
    entries: Seq<index::EntryView>,
    matcher: Matcher,
    opts: SearchOptions,
)
    ensures
        opts.limit > 0 ==> first_hits(entries, matcher, opts).len() <= opts.limit,
        first_hits(entries, matcher, opts).is_prefix_of(all_hits(entries, matcher, opts)),
        opts.limit == 0 || all_hits(entries, matcher, opts).len() < opts.limit ==> first_hits(
            entries,
            matcher,
            opts,
        ) == all_hits(entries, matcher, opts),
{
}

/// Everything found stands in the index, is of the kind searched for and matches; without a
/// limit, everything of that sort is found.
pub proof fn hits_match(entries: Seq<index::EntryView>, matcher: Matcher, opts: SearchOptions)
    ensures
        forall|i: int|
            0 <= i < first_hits(entries, matcher, opts).len() ==> {
                let e = #[trigger] first_hits(entries, matcher, opts)[i];
                entries.contains(e) && is_hit(e, matcher, opts)
            },
        opts.limit == 0 ==> forall|i: int|
            0 <= i < entries.len() && is_hit(#[trigger] entries[i], matcher, opts) ==> first_hits(
                entries,
                matcher,
                opts,
            ).contains(entries[i]),
{
    crate::seqs::filter_keeps(entries, |e: index::EntryView| is_hit(e, matcher, opts));
    let hits = all_hits(entries, matcher, opts);
    assert forall|i: int| 0 <= i < first_hits(entries, matcher, opts).len() implies ({
        let e = #[trigger] first_hits(entries, matcher, opts)[i];
        entries.contains(e) && is_hit(e, matcher, opts)
    }) by {
        assert(first_hits(entries, matcher, opts)[i] == hits[i]);
    }
}

/// Characters that are no wildcards stand for themselves.
pub proof fn literal_characters_match_themselves(front: Seq<char>, rest: Seq<char>, t: Seq<char>)
    requires
        !has_wildcard(front),
    ensures
        wild(front + rest, t) <==> front.is_prefix_of(t) && wild(rest, t.skip(front.len() as int)),
    decreases front.len(),
{
    if front.len() == 0 {
        assert(front + rest == rest);
        assert(t.skip(0) == t);
    } else {
        let tail = front.drop_first();
        assert(front.contains(front[0]));
        assert forall|c: char| tail.contains(c) implies front.contains(c) by {
            let k = choose|k: int| 0 <= k < tail.len() && tail[k] == c;
            assert(front[k + 1] == c);
        }
        assert((front + rest).drop_first() == tail + rest);
        if t.len() > 0 {
            let u = t.drop_first();
            literal_characters_match_themselves(tail, rest, u);
            if front.len() <= t.len() {
                assert(u.skip(tail.len() as int) == t.skip(front.len() as int));
            }
            if front[0] == t[0] && tail.is_prefix_of(u) {
                assert forall|i: int| 0 <= i < front.len() implies front[i] == t[i] by {
                    if i > 0 {
                        assert(tail[i - 1] == u[i - 1]);
                    }
                }
            }
            if front.is_prefix_of(t) {
                assert forall|i: int| 0 <= i < tail.len() implies tail[i] == u[i] by {
                    assert(front[i + 1] == t[i + 1]);
                }
                assert(front[0] == t[0]);
            }
        }
    }
}

/// A star stands for any run of characters, the empty one included.
pub proof fn star_matches_any_run(rest: Seq<char>, t: Seq<char>)
    ensures
        wild(seq!['*'] + rest, t) <==> exists|k: int|
            0 <= k <= t.len() && #[trigger] wild(rest, t.skip(k)),
    decreases t.len(),
{
    let pattern = seq!['*'] + rest;
    assert(pattern.drop_first() == rest);
    assert(t.skip(0) == t);
    assert(wild(rest, t.skip(0)) == wild(rest, t));
    assert(pattern[0] == '*');
    if t.len() > 0 {
        let u = t.drop_first();
        star_matches_any_run(rest, u);
        if exists|k: int| 0 <= k <= u.len() && #[trigger] wild(rest, u.skip(k)) {
            let k = choose|k: int| 0 <= k <= u.len() && #[trigger] wild(rest, u.skip(k));
            assert(u.skip(k) == t.skip(k + 1));
            assert(wild(rest, t.skip(k + 1)));
        }
        if exists|k: int| 0 <= k <= t.len() && #[trigger] wild(rest, t.skip(k)) {
            let k = choose|k: int| 0 <= k <= t.len() && #[trigger] wild(rest, t.skip(k));
            if k > 0 {
                assert(u.skip(k - 1) == t.skip(k));
                assert(wild(rest, u.skip(k - 1)));
            }
        }
    }
}

/// A plain pattern between two stars matches exactly the texts in which the pattern alone is
/// found.
pub proof fn stars_around_find_parts(part: Seq<char>, t: Seq<char>)
    requires
        !has_wildcard(part),
    ensures
        wild(seq!['*'] + part + seq!['*'], t) <==> text::occurs_in(t, part),
{
    let rest = part + seq!['*'];
    assert(seq!['*'] + part + seq!['*'] == seq!['*'] + rest);
    star_matches_any_run(rest, t);
    assert forall|k: int| 0 <= k <= t.len() implies (#[trigger] wild(rest, t.skip(k))
        <==> text::occurs_at(t, part, k)) by {
        let u = t.skip(k);
        literal_characters_match_themselves(part, seq!['*'], u);
        if part.is_prefix_of(u) {
            let v = u.skip(part.len() as int);
            star_matches_any_run(Seq::empty(), v);
            assert(seq!['*'] + Seq::<char>::empty() == seq!['*']);
            assert(v.skip(v.len() as int).len() == 0);
            assert(wild(Seq::empty(), v.skip(v.len() as int)));
            assert(t.subrange(k, k + part.len()) == part);
        }
        if text::occurs_at(t, part, k) {
            assert forall|i: int| 0 <= i < part.len() implies part[i] == u[i] by {
                assert(t.subrange(k, k + part.len())[i] == t[k + i]);
            }
        }
    }
    if text::occurs_in(t, part) {
        let k = choose|at: int| text::occurs_at(t, part, at);
        assert(wild(rest, t.skip(k)));
    }
}

/// Unless letter case counts, patterns that differ only in the case of ASCII letters find the
/// same entries and give the same figures, with wildcards or without: `m` and `k` are what one
/// machine makes of `p` and `q`.
pub proof fn letter_case_of_pattern_is_ignored(
    p: Seq<char>,
    q: Seq<char>,
    opts: SearchOptions,
    separators: Set<char>,
    alike: bool,
    m: Matcher,
    k: Matcher,
    entries: Seq<index::EntryView>,
)
    requires
        !opts.case_sensitive,
        text::ascii_lowercase(p) == text::ascii_lowercase(q),
        serves(Ok(m), wanted(p, opts.case_sensitive, separators, alike)),
        serves(Ok(k), wanted(q, opts.case_sensitive, separators, alike)),
    ensures
        wanted(p, opts.case_sensitive, separators, alike) == wanted(
            q,
            opts.case_sensitive,
            separators,
            alike,
        ),
        first_hits(entries, m, opts) == first_hits(entries, k, opts),
        reach(entries, m, opts) == reach(entries, k, opts),
        limit_reached(entries, m, opts) == limit_reached(entries, k, opts),
{
    text::lowercase_ignores_ascii_case(p, q);
    text::ascii_case_keeps_others(p, q, '*');
    text::ascii_case_keeps_others(p, q, '?');
    assert(forall|t: Seq<char>| #[trigger] m.accepts(t) <==> k.accepts(t));
    searches_alike(entries, m, k, opts);
}

/// Whether every machine reads a pattern, in lower case unless letter case counts, alike as far
/// as these entries go: the pattern is portable, or it has no `**` and slashes occur neither in
/// it nor in what is matched.
pub open spec fn read_alike(
    source: Seq<char>,
    entries: Seq<index::EntryView>,
    opts: SearchOptions,
) -> bool {
    ||| portable(source)
    ||| {
        &&& slash_free(source)
        &&& forall|i: int|
            0 <= i < entries.len() ==> !target_of(#[trigger] entries[i], opts).contains('/')
    }
}

/// Unless letter case counts, patterns that differ only in the case of ASCII letters find the
/// same entries and give the same figures, whichever machines made the matchers `m` and `k` of
/// them, as long as machines read the pattern alike.
pub proof fn letter_case_is_ignored_on_all_machines(
    p: Seq<char>,
    q: Seq<char>,
    opts: SearchOptions,
    m: Matcher,
    k: Matcher,
    entries: Seq<index::EntryView>,
)
    requires
        !opts.case_sensitive,
        text::ascii_lowercase(p) == text::ascii_lowercase(q),
        has_wildcard(p) ==> read_alike(folded(p, opts.case_sensitive), entries, opts),
        fits(m, p, opts.case_sensitive),
        fits(k, q, opts.case_sensitive),
    ensures
        first_hits(entries, m, opts) == first_hits(entries, k, opts),
        reach(entries, m, opts) == reach(entries, k, opts),
        limit_reached(entries, m, opts) == limit_reached(entries, k, opts),
{
    text::lowercase_ignores_ascii_case(p, q);
    text::ascii_case_keeps_others(p, q, '*');
    text::ascii_case_keeps_others(p, q, '?');
    let source = folded(p, opts.case_sensitive);
    assert forall|i: int| 0 <= i < entries.len() implies is_hit(#[trigger] entries[i], m, opts)
        == is_hit(entries[i], k, opts) by {
        let t = target_of(entries[i], opts);
        if has_wildcard(p) {
            if portable(source) {
                assert(m.accepts(t) <==> k.accepts(t));
            } else {
                assert(!t.contains('/'));
                assert(m.accepts(t) <==> k.accepts(t));
            }
        }
    }
    searches_alike(entries, m, k, opts);
}

/// Matchers that accept the same of the entries find the same.
proof fn searches_alike(
    entries: Seq<index::EntryView>,
    m: Matcher,
    k: Matcher,
    opts: SearchOptions,
)
    requires
        forall|i: int|
            0 <= i < entries.len() ==> is_hit(#[trigger] entries[i], m, opts) == is_hit(
                entries[i],
                k,
                opts,
            ),
    ensures
        first_hits(entries, m, opts) == first_hits(entries, k, opts),
        reach(entries, m, opts) == reach(entries, k, opts),
        limit_reached(entries, m, opts) == limit_reached(entries, k, opts),
    decreases entries.len(),
{
    crate::seqs::filter_same(
        entries,
        |e: index::EntryView| is_hit(e, m, opts),
        |e: index::EntryView| is_hit(e, k, opts),
    );
    if entries.len() > 0 {
        let front = entries.drop_last();
        assert forall|i: int| 0 <= i < front.len() implies is_hit(#[trigger] front[i], m, opts)
            == is_hit(front[i], k, opts) by {
            assert(front[i] == entries[i]);
        }
        searches_alike(front, m, k, opts);
    }
}

/// Unless letter case counts, a plain ASCII pattern finds a file by any part of its name, in
/// whatever case either is written.
pub proof fn ascii_case_is_ignored(name: Seq<char>, pattern: Seq<char>)
    requires
        vstd::utf8::is_ascii_chars(name),
        vstd::utf8::is_ascii_chars(pattern),
        text::occurs_in(name, pattern),
    ensures
        text::occurs_in(folded(name, false), folded(pattern, false)),
        folded(text::ascii_lowercase(pattern), false) == folded(pattern, false),
{
    let at = choose|at: int| text::occurs_at(name, pattern, at);
    let low = text::ascii_lowercase(name);
    assert(low.subrange(at, at + pattern.len()) == text::ascii_lowercase(
        name.subrange(at, at + pattern.len()),
    ));
    assert(text::occurs_at(low, text::ascii_lowercase(pattern), at));
    text::ascii_lowercase_is_ascii(pattern);
    text::ascii_lowercase_twice(pattern);
}

} // verus!
