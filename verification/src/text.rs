//! Text operations on characters, shared by every other module.
use vstd::prelude::*;
use vstd::string::*;

verus! {

/// `String::push` appends one character to the end of the string.
pub assume_specification[ String::push ](s: &mut String, c: char)
    ensures
        final(s)@ == old(s)@.push(c),
;

/// The characters of `s`, in order.
pub fn chars_of(s: &str) -> (out: Vec<char>)
    ensures
        out@ == s@,
{
    let mut out: Vec<char> = Vec::new();
    for c in it: s.chars()
        invariant
            it.seq() == s@,
            out@ == s@.take(it.index() as int),
    {
        out.push(c);
    }
    out
}

/// The string made of the given characters.
pub fn string_of(chars: &[char]) -> (out: String)
    ensures
        out@ == chars@,
{
    let mut out = String::new();
    for i in 0..chars.len()
        invariant
            out@ == chars@.take(i as int),
    {
        out.push(chars[i]);
    }
    out
}

/// Whether two strings hold the same characters.
pub fn same_text(a: &str, b: &str) -> (same: bool)
    ensures
        same == (a@ == b@),
{
    let mut left = a.chars();
    let mut right = b.chars();
    let ghost mut n: int = 0;
    loop
        invariant
            0 <= n <= a@.len(),
            n <= b@.len(),
            vstd::std_specs::iter::IteratorSpec::remaining(&left) == a@.skip(n),
            vstd::std_specs::iter::IteratorSpec::remaining(&right) == b@.skip(n),
            a@.take(n) == b@.take(n),
        decreases a@.len() - n,
    {
        let x = left.next();
        let y = right.next();
        match (x, y) {
            (Some(c), Some(d)) => {
                if c != d {
                    return false;
                }
                proof {
                    assert(a@.take(n + 1) == a@.take(n).push(c));
                    assert(b@.take(n + 1) == b@.take(n).push(d));
                    n = n + 1;
                }
            },
            (None, None) => {
                assert(a@ == a@.take(n));
                assert(b@ == b@.take(n));
                return true;
            },
            _ => {
                return false;
            },
        }
    }
}

/// Whether `a` stands before `b`, or is the same, in the order of their characters.
pub open spec fn lex_le(a: Seq<char>, b: Seq<char>) -> bool
    decreases a.len(),
{
    if a.len() == 0 {
        true
    } else if b.len() == 0 {
        false
    } else if a[0] == b[0] {
        lex_le(a.drop_first(), b.drop_first())
    } else {
        a[0] < b[0]
    }
}

/// Any two texts can be compared.
pub proof fn lex_total(a: Seq<char>, b: Seq<char>)
    ensures
        lex_le(a, b) || lex_le(b, a),
    decreases a.len(),
{
    if a.len() > 0 && b.len() > 0 && a[0] == b[0] {
        lex_total(a.drop_first(), b.drop_first());
    }
}

/// The order of texts passes on.
pub proof fn lex_transitive(a: Seq<char>, b: Seq<char>, c: Seq<char>)
    requires
        lex_le(a, b),
        lex_le(b, c),
    ensures
        lex_le(a, c),
    decreases a.len(),
{
    if a.len() > 0 && a[0] == b[0] && b[0] == c[0] {
        lex_transitive(a.drop_first(), b.drop_first(), c.drop_first());
    }
}

/// Only a text itself stands neither before nor behind it.
pub proof fn lex_antisymmetric(a: Seq<char>, b: Seq<char>)
    requires
        lex_le(a, b),
        lex_le(b, a),
    ensures
        a == b,
    decreases a.len(),
{
    if a.len() > 0 {
        lex_antisymmetric(a.drop_first(), b.drop_first());
        assert(a == seq![a[0]] + a.drop_first());
        assert(b == seq![b[0]] + b.drop_first());
    } else {
        assert(b.len() == 0);
        assert(a == b);
    }
}

/// Whether `a` stands before `b`, or is the same, in the order of their characters.
pub fn stands_before(a: &str, b: &str) -> (yes: bool)
    ensures
        yes == lex_le(a@, b@),
{
    let mut left = a.chars();
    let mut right = b.chars();
    let ghost mut n: int = 0;
    assert(a@.skip(0) == a@);
    assert(b@.skip(0) == b@);
    loop
        invariant
            0 <= n <= a@.len(),
            n <= b@.len(),
            vstd::std_specs::iter::IteratorSpec::remaining(&left) == a@.skip(n),
            vstd::std_specs::iter::IteratorSpec::remaining(&right) == b@.skip(n),
            lex_le(a@, b@) == lex_le(a@.skip(n), b@.skip(n)),
        decreases a@.len() - n,
    {
        match left.next() {
            None => {
                return true;
            },
            Some(c) => match right.next() {
                None => {
                    return false;
                },
                Some(d) => {
                    if c != d {
                        return c < d;
                    }
                    proof {
                        assert(a@.skip(n).drop_first() == a@.skip(n + 1));
                        assert(b@.skip(n).drop_first() == b@.skip(n + 1));
                        n = n + 1;
                    }
                },
            },
        }
    }
}

// ---------------------------------------------------------------------------------------
// Prefixes, substrings and single characters
// ---------------------------------------------------------------------------------------

/// `part` occurs in `whole` starting at position `at`.
pub open spec fn occurs_at(whole: Seq<char>, part: Seq<char>, at: int) -> bool {
    &&& 0 <= at
    &&& at + part.len() <= whole.len()
    &&& whole.subrange(at, at + part.len()) == part
}

/// `part` occurs somewhere in `whole`.
pub open spec fn occurs_in(whole: Seq<char>, part: Seq<char>) -> bool {
    exists|at: int| occurs_at(whole, part, at)
}

/// Whether `text` begins with `prefix`.
pub fn starts_with(text: &str, prefix: &str) -> (yes: bool)
    ensures
        yes == prefix@.is_prefix_of(text@),
{
    let mut left = text.chars();
    let mut right = prefix.chars();
    let ghost mut n: int = 0;
    loop
        invariant
            0 <= n <= text@.len(),
            n <= prefix@.len(),
            vstd::std_specs::iter::IteratorSpec::remaining(&left) == text@.skip(n),
            vstd::std_specs::iter::IteratorSpec::remaining(&right) == prefix@.skip(n),
            text@.take(n) == prefix@.take(n),
        decreases prefix@.len() - n,
    {
        match right.next() {
            None => {
                assert(prefix@ == prefix@.take(n));
                return true;
            },
            Some(d) => match left.next() {
                None => {
                    return false;
                },
                Some(c) => {
                    if c != d {
                        assert(text@[n] != prefix@[n]);
                        return false;
                    }
                    proof {
                        assert(text@.take(n + 1) == text@.take(n).push(c));
                        assert(prefix@.take(n + 1) == prefix@.take(n).push(d));
                        n = n + 1;
                    }
                },
            },
        }
    }
}

/// What is left of `text` after `prefix`, if it begins with it.
pub fn strip_prefix<'a>(text: &'a str, prefix: &str) -> (rest: Option<&'a str>)
    ensures
        rest is Some <==> prefix@.is_prefix_of(text@),
        rest matches Some(r) ==> r@ == text@.skip(prefix@.len() as int),
{
    if starts_with(text, prefix) {
        let from: usize = prefix.unicode_len();
        let to: usize = text.unicode_len();
        Some(text.substring_char(from, to))
    } else {
        None
    }
}

/// Whether `part` stands in `whole` at position `at`.
fn found_at(whole: &Vec<char>, part: &Vec<char>, at: usize) -> (yes: bool)
    requires
        at + part@.len() <= whole@.len(),
    ensures
        yes == occurs_at(whole@, part@, at as int),
{
    let ghost window = whole@.subrange(at as int, at + part@.len());
    let whole_len: usize = whole.len();
    for i in 0..part.len()
        invariant
            whole_len == whole@.len(),
            at + part@.len() <= whole_len,
            window == whole@.subrange(at as int, at + part@.len()),
            window.take(i as int) == part@.take(i as int),
    {
        if whole[at + i] != part[i] {
            assert(window[i as int] != part@[i as int]);
            return false;
        }
        assert(window.take(i + 1) == window.take(i as int).push(whole@[at + i]));
        assert(part@.take(i + 1) == part@.take(i as int).push(part@[i as int]));
    }
    assert(window.take(part@.len() as int) == window);
    assert(part@.take(part@.len() as int) == part@);
    true
}

/// Whether `part` occurs in `whole`.
pub fn contains_text(whole: &str, part: &str) -> (yes: bool)
    ensures
        yes == occurs_in(whole@, part@),
{
    let w = chars_of(whole);
    let p = chars_of(part);
    if p.len() > w.len() {
        return false;
    }
    let last: usize = w.len() - p.len();
    let mut at: usize = 0;
    while at <= last
        invariant
            w@ == whole@,
            p@ == part@,
            last == w@.len() - p@.len(),
            at <= last + 1,
            forall|k: int| 0 <= k < at ==> !occurs_at(w@, p@, k),
        decreases last + 1 - at,
    {
        if found_at(&w, &p, at) {
            return true;
        }
        if at == last {
            return false;
        }
        at = at + 1;
    }
    false
}

/// Whether the character `c` occurs in `text`.
pub fn contains_char(text: &str, c: char) -> (yes: bool)
    ensures
        yes == text@.contains(c),
{
    for x in it: text.chars()
        invariant
            it.seq() == text@,
            forall|k: int| 0 <= k < it.index() ==> text@[k] != c,
    {
        if x == c {
            assert(text@[it.index() as int] == c);
            return true;
        }
    }
    false
}

/// Position of the first `c` in `text`.
pub fn find_char(text: &str, c: char) -> (at: Option<usize>)
    ensures
        match at {
            Some(i) => text@.index_of_first(c) == Some(i as int),
            None => text@.index_of_first(c) is None,
        },
        at matches Some(i) ==> i < text@.len() && text@[i as int] == c,
        at is None ==> !text@.contains(c),
{
    let v = chars_of(text);
    proof {
        text@.index_of_first_ensures(c);
    }
    for i in 0..v.len()
        invariant
            v@ == text@,
            forall|k: int| 0 <= k < i ==> v@[k] != c,
    {
        if v[i] == c {
            proof {
                text@.index_of_first_ensures(c);
                assert(text@.contains(c));
            }
            return Some(i);
        }
    }
    None
}

/// Position of the last `c` in `text`.
pub fn rfind_char(text: &str, c: char) -> (at: Option<usize>)
    ensures
        match at {
            Some(i) => text@.index_of_last(c) == Some(i as int),
            None => text@.index_of_last(c) is None,
        },
        at matches Some(i) ==> i < text@.len() && text@[i as int] == c,
        at is None ==> !text@.contains(c),
{
    let v = chars_of(text);
    proof {
        text@.index_of_last_ensures(c);
    }
    let mut i: usize = v.len();
    while i > 0
        invariant
            v@ == text@,
            i <= v@.len(),
            forall|k: int| i <= k < v@.len() ==> v@[k] != c,
        decreases i,
    {
        i = i - 1;
        if v[i] == c {
            proof {
                text@.index_of_last_ensures(c);
                assert(text@.contains(c));
            }
            return Some(i);
        }
    }
    None
}

/// `text` with every `from` turned into `to`.
pub open spec fn replaced_char(text: Seq<char>, from: char, to: char) -> Seq<char> {
    text.map_values(|c: char| if c == from { to } else { c })
}

/// `text` with every `from` turned into `to`.
pub fn replace_char(text: &str, from: char, to: char) -> (out: String)
    ensures
        out@ == replaced_char(text@, from, to),
{
    let mut out = String::new();
    for c in it: text.chars()
        invariant
            it.seq() == text@,
            out@ == replaced_char(text@, from, to).take(it.index() as int),
    {
        if c == from {
            out.push(to);
        } else {
            out.push(c);
        }
    }
    out
}

/// Whether the last character of `text` is `c`.
pub fn ends_with_char(text: &str, c: char) -> (yes: bool)
    ensures
        yes == (text@.len() > 0 && text@.last() == c),
{
    let n: usize = text.unicode_len();
    n > 0 && text.get_char(n - 1) == c
}

// ---------------------------------------------------------------------------------------
// Trimming
// ---------------------------------------------------------------------------------------

/// The characters with the Unicode property `White_Space`.
pub open spec fn is_white(c: char) -> bool {
    let u = c as u32;
    ||| 0x9 <= u <= 0xd
    ||| u == 0x20
    ||| u == 0x85
    ||| u == 0xa0
    ||| u == 0x1680
    ||| 0x2000 <= u <= 0x200a
    ||| u == 0x2028
    ||| u == 0x2029
    ||| u == 0x202f
    ||| u == 0x205f
    ||| u == 0x3000
}

/// Whether `c` is white space.
pub fn white(c: char) -> (yes: bool)
    ensures
        yes == is_white(c),
{
    let u: u32 = c as u32;
    (0x9 <= u && u <= 0xd) || u == 0x20 || u == 0x85 || u == 0xa0 || u == 0x1680 || (0x2000 <= u
        && u <= 0x200a) || u == 0x2028 || u == 0x2029 || u == 0x202f || u == 0x205f || u == 0x3000
}

/// A class of characters to trim.
#[derive(Clone, Copy)]
pub enum Class {
    /// Exactly this character.
    Only(char),
    /// Any white space.
    White,
}

impl Class {
    /// Whether `c` belongs to the class.
    pub open spec fn holds(self, c: char) -> bool {
        match self {
            Class::Only(x) => c == x,
            Class::White => is_white(c),
        }
    }

    /// Whether `c` belongs to the class.
    pub fn has(self, c: char) -> (yes: bool)
        ensures
            yes == self.holds(c),
    {
        match self {
            Class::Only(x) => c == x,
            Class::White => white(c),
        }
    }
}

/// `text` without the longest run of `class` characters at its end.
pub open spec fn trimmed_end(text: Seq<char>, class: Class) -> Seq<char>
    decreases text.len(),
{
    if text.len() > 0 && class.holds(text.last()) {
        trimmed_end(text.drop_last(), class)
    } else {
        text
    }
}

/// Trimming the end leaves a prefix that does not end in a `class` character.
pub proof fn trimmed_end_is_prefix(text: Seq<char>, class: Class)
    ensures
        trimmed_end(text, class).is_prefix_of(text),
        trimmed_end(text, class).len() > 0 ==> !class.holds(trimmed_end(text, class).last()),
    decreases text.len(),
{
    if text.len() > 0 && class.holds(text.last()) {
        trimmed_end_is_prefix(text.drop_last(), class);
    }
}

/// `text` without the longest run of `class` characters at its start.
pub open spec fn trimmed_start(text: Seq<char>, class: Class) -> Seq<char>
    decreases text.len(),
{
    if text.len() > 0 && class.holds(text.first()) {
        trimmed_start(text.drop_first(), class)
    } else {
        text
    }
}

/// `text` without the `class` characters at both its ends.
pub open spec fn trimmed(text: Seq<char>, class: Class) -> Seq<char> {
    trimmed_start(trimmed_end(text, class), class)
}

/// `text` without the longest run of `class` characters at its end.
pub fn trim_end<'a>(text: &'a str, class: Class) -> (out: &'a str)
    ensures
        out@ == trimmed_end(text@, class),
{
    let v = chars_of(text);
    let mut n: usize = v.len();
    assert(text@.take(n as int) == text@);
    while n > 0 && class.has(v[n - 1])
        invariant
            v@ == text@,
            n <= v@.len(),
            trimmed_end(text@.take(n as int), class) == trimmed_end(text@, class),
        decreases n,
    {
        assert(text@.take(n as int).drop_last() == text@.take(n - 1));
        n = n - 1;
    }
    assert(text@.take(n as int) == text@.subrange(0, n as int));
    text.substring_char(0, n)
}

/// `text` without the longest run of `class` characters at its start.
pub fn trim_start<'a>(text: &'a str, class: Class) -> (out: &'a str)
    ensures
        out@ == trimmed_start(text@, class),
{
    let v = chars_of(text);
    let len: usize = v.len();
    let mut n: usize = 0;
    assert(text@.skip(0) == text@);
    while n < len && class.has(v[n])
        invariant
            v@ == text@,
            len == v@.len(),
            n <= len,
            trimmed_start(text@.skip(n as int), class) == trimmed_start(text@, class),
        decreases len - n,
    {
        assert(text@.skip(n as int).drop_first() == text@.skip(n + 1));
        n = n + 1;
    }
    text.substring_char(n, len)
}

/// `text` without the `class` characters at both its ends.
pub fn trim<'a>(text: &'a str, class: Class) -> (out: &'a str)
    ensures
        out@ == trimmed(text@, class),
{
    trim_start(trim_end(text, class), class)
}

/// A text that neither begins nor ends with white space.
pub open spec fn snug(text: Seq<char>) -> bool {
    text.len() > 0 ==> !is_white(text.first()) && !is_white(text.last())
}

/// White space behind a text that does not end in it is trimmed away.
pub proof fn trim_end_drops_tail(text: Seq<char>, tail: Seq<char>)
    requires
        text.len() > 0 ==> !is_white(text.last()),
        forall|i: int| 0 <= i < tail.len() ==> is_white(#[trigger] tail[i]),
    ensures
        trimmed_end(text + tail, Class::White) == text,
    decreases tail.len(),
{
    if tail.len() == 0 {
        assert(text + tail == text);
    } else {
        assert((text + tail).last() == tail[tail.len() - 1]);
        assert((text + tail).drop_last() == text + tail.drop_last());
        trim_end_drops_tail(text, tail.drop_last());
    }
}

/// A snug text between spaces comes out of trimming as it is.
pub proof fn trim_finds_snug(text: Seq<char>)
    requires
        snug(text),
    ensures
        trimmed(text, Class::White) == text,
        trimmed(seq![' '] + text, Class::White) == text,
{
    let spaced = seq![' '] + text;
    if text.len() > 0 {
        assert(spaced.last() == text.last());
        assert(spaced.drop_first() == text);
    } else {
        assert(spaced.drop_last() == text);
        assert(trimmed_end(text, Class::White) == text);
        assert(trimmed_end(spaced, Class::White) == trimmed_end(spaced.drop_last(), Class::White));
    }
}

/// The bytes of two texts one after the other.
pub proof fn encode_concat(a: Seq<char>, b: Seq<char>)
    ensures
        vstd::utf8::encode_utf8(a + b) == vstd::utf8::encode_utf8(a) + vstd::utf8::encode_utf8(b),
    decreases a.len(),
{
    if a.len() == 0 {
        assert(a + b == b);
        assert(vstd::utf8::encode_utf8(a) + vstd::utf8::encode_utf8(b)
            == vstd::utf8::encode_utf8(b));
    } else {
        encode_concat(a.drop_first(), b);
        assert((a + b).drop_first() == a.drop_first() + b);
        assert(vstd::utf8::encode_utf8(a + b) == vstd::utf8::encode_utf8(a)
            + vstd::utf8::encode_utf8(b));
    }
}

// ---------------------------------------------------------------------------------------
// Letter case
// ---------------------------------------------------------------------------------------

/// `c` with `A` to `Z` turned into `a` to `z`.
pub open spec fn ascii_lower(c: char) -> char {
    if 'A' <= c && c <= 'Z' {
        ((c as u32) + 32) as char
    } else {
        c
    }
}

/// `text` with `A` to `Z` turned into `a` to `z`.
pub open spec fn ascii_lowercase(text: Seq<char>) -> Seq<char> {
    text.map_values(|c: char| ascii_lower(c))
}

/// `c` with `A` to `Z` turned into `a` to `z`.
fn ascii_lower_char(c: char) -> (out: char)
    ensures
        out == ascii_lower(c),
{
    if 'A' <= c && c <= 'Z' {
        ((c as u8) + 32) as char
    } else {
        c
    }
}

/// `text` with `A` to `Z` turned into `a` to `z`.
pub fn to_ascii_lowercase(text: &str) -> (out: String)
    ensures
        out@ == ascii_lowercase(text@),
{
    let mut out = String::new();
    for c in it: text.chars()
        invariant
            it.seq() == text@,
            out@ == ascii_lowercase(text@).take(it.index() as int),
    {
        out.push(ascii_lower_char(c));
    }
    out
}

/// Whether two texts differ at most in the case of ASCII letters.
pub fn eq_ignore_ascii_case(a: &str, b: &str) -> (same: bool)
    ensures
        same == (ascii_lowercase(a@) == ascii_lowercase(b@)),
{
    let left = to_ascii_lowercase(a);
    let right = to_ascii_lowercase(b);
    same_text(left.as_str(), right.as_str())
}

/// Lowering ASCII letters twice is the same as once.
pub proof fn ascii_lowercase_twice(text: Seq<char>)
    ensures
        ascii_lowercase(ascii_lowercase(text)) == ascii_lowercase(text),
{
    let once = ascii_lowercase(text);
    assert forall|i: int| 0 <= i < text.len() implies ascii_lower(once[i]) == once[i] by {
        ascii_lower_is_low(text[i]);
    }
    assert(ascii_lowercase(once) == once);
}

/// A lowered letter is no capital, and is ASCII if the letter was.
proof fn ascii_lower_is_low(c: char)
    ensures
        ascii_lower(ascii_lower(c)) == ascii_lower(c),
        (c as u32) < 128 ==> (ascii_lower(c) as u32) < 128,
{
    if 'A' <= c && c <= 'Z' {
        let u = ((c as u32) + 32) as u32;
        vstd::utf8::char_u32_cast(u as char, u);
    }
}

/// Lowering ASCII letters keeps a text ASCII.
pub proof fn ascii_lowercase_is_ascii(text: Seq<char>)
    requires
        vstd::utf8::is_ascii_chars(text),
    ensures
        vstd::utf8::is_ascii_chars(ascii_lowercase(text)),
{
    let low = ascii_lowercase(text);
    assert forall|i: int| 0 <= i < low.len() implies '\0' <= #[trigger] low[i] <= '\u{7f}' by {
        assert('\0' <= text[i] <= '\u{7f}');
        ascii_lower_is_low(text[i]);
    }
}

/// What `str::to_lowercase` makes of a text that holds characters beyond ASCII.
pub uninterp spec fn unicode_lowercase(text: Seq<char>) -> Seq<char>;

/// `text` in lower case: ASCII text letter by letter, other text by the Unicode rules, for which
/// the case of its ASCII letters makes no difference.
pub open spec fn lowercase(text: Seq<char>) -> Seq<char> {
    if vstd::utf8::is_ascii_chars(text) {
        ascii_lowercase(text)
    } else {
        unicode_lowercase(ascii_lowercase(text))
    }
}

/// Texts that differ only in the case of ASCII letters have the same lower case.
pub proof fn lowercase_ignores_ascii_case(a: Seq<char>, b: Seq<char>)
    requires
        ascii_lowercase(a) == ascii_lowercase(b),
    ensures
        lowercase(a) == lowercase(b),
{
    if vstd::utf8::is_ascii_chars(a) {
        ascii_case_keeps_ascii(a, b);
    }
    if vstd::utf8::is_ascii_chars(b) {
        ascii_case_keeps_ascii(b, a);
    }
}

/// Texts that differ only in the case of ASCII letters hold the same characters of other kinds.
pub proof fn ascii_case_keeps_others(a: Seq<char>, b: Seq<char>, c: char)
    requires
        ascii_lowercase(a) == ascii_lowercase(b),
        (c as u32) < 'A' as u32,
    ensures
        a.contains(c) == b.contains(c),
{
    assert(a.len() == ascii_lowercase(a).len() && b.len() == ascii_lowercase(b).len());
    assert forall|i: int| 0 <= i < a.len() implies (a[i] == c <==> b[i] == c) by {
        assert(ascii_lowercase(a)[i] == ascii_lower(a[i]));
        assert(ascii_lowercase(b)[i] == ascii_lower(b[i]));
        ascii_lower_keeps_low(a[i], c);
        ascii_lower_keeps_low(b[i], c);
    }
    if a.contains(c) {
        let i = choose|i: int| 0 <= i < a.len() && a[i] == c;
        assert(b[i] == c);
    }
    if b.contains(c) {
        let i = choose|i: int| 0 <= i < b.len() && b[i] == c;
        assert(a[i] == c);
    }
}

/// A character in front of the letters is the lower case of itself alone.
pub proof fn ascii_lower_keeps_low(x: char, c: char)
    requires
        (c as u32) < 'A' as u32,
    ensures
        ascii_lower(x) == c <==> x == c,
{
    if 'A' <= x && x <= 'Z' {
        let u = ((x as u32) + 32) as u32;
        vstd::utf8::char_u32_cast(u as char, u);
    }
}

/// A text that differs from an ASCII one only in the case of ASCII letters is ASCII too.
proof fn ascii_case_keeps_ascii(a: Seq<char>, b: Seq<char>)
    requires
        ascii_lowercase(a) == ascii_lowercase(b),
        vstd::utf8::is_ascii_chars(a),
    ensures
        vstd::utf8::is_ascii_chars(b),
{
    ascii_lowercase_is_ascii(a);
    assert(a.len() == ascii_lowercase(a).len() && b.len() == ascii_lowercase(b).len());
    assert forall|i: int| 0 <= i < b.len() implies '\0' <= #[trigger] b[i] <= '\u{7f}' by {
        assert('\0' <= ascii_lowercase(a)[i] <= '\u{7f}');
        assert(ascii_lowercase(b)[i] == ascii_lower(b[i]));
    }
}

/// `str::to_lowercase`: ASCII text has its letters `A` to `Z` lowered and nothing else
/// changed; the lower case of other text depends on the text alone, and comes out the same if
/// the letters `A` to `Z` in it were lowered before.
#[verifier::external_body]
pub(crate) fn to_lowercase(text: &str) -> (out: String)
    ensures
        vstd::utf8::is_ascii_chars(text@) ==> out@ == ascii_lowercase(text@),
        !vstd::utf8::is_ascii_chars(text@) ==> out@ == unicode_lowercase(text@),
        !vstd::utf8::is_ascii_chars(text@) ==> out@ == unicode_lowercase(ascii_lowercase(text@)),
{
    text.to_lowercase()
}

// ---------------------------------------------------------------------------------------
// Numbers and columns
// ---------------------------------------------------------------------------------------

/// The digit for `d`, `0` to `9` and then `A` to `F`.
pub open spec fn digit(d: nat) -> char {
    if d < 10 {
        (48 + d) as char
    } else {
        (55 + d) as char
    }
}

/// `n` written in base `base`, most significant digit first, without leading zeros.
pub open spec fn digits(n: nat, base: nat) -> Seq<char>
    decreases n,
{
    if base < 2 || n < base {
        seq![digit(n)]
    } else {
        proof {
            assert(n / base < n) by (nonlinear_arith)
                requires
                    n >= base,
                    base >= 2,
            ;
        }
        digits(n / base, base).push(digit(n % base))
    }
}

/// `n` in decimal.
pub open spec fn decimal(n: nat) -> Seq<char> {
    digits(n, 10)
}

/// A decimal number is made of the characters `0` to `9`.
pub proof fn decimal_has_digits_only(n: nat)
    ensures
        forall|i: int| 0 <= i < decimal(n).len() ==> '0' <= #[trigger] decimal(n)[i] <= '9',
    decreases n,
{
    let d = n % 10;
    assert('0' <= digit(d) <= '9') by {
        vstd::utf8::char_u32_cast(digit(d), (48 + d) as u32);
    }
    let all = decimal(n);
    if n >= 10 {
        decimal_has_digits_only(n / 10);
        assert(all == decimal(n / 10).push(digit(d)));
        assert forall|i: int| 0 <= i < all.len() implies '0' <= #[trigger] all[i] <= '9' by {
            if i < all.len() - 1 {
                assert(all[i] == decimal(n / 10)[i]);
            }
        }
    } else {
        assert(all == seq![digit(d)]);
    }
}

/// The number that decimal digits stand for.
pub open spec fn decimal_value(s: Seq<char>) -> nat
    decreases s.len(),
{
    if s.len() == 0 {
        0
    } else {
        10 * decimal_value(s.drop_last()) + (s.last() as nat - 48) as nat
    }
}

/// Reading a decimal number back gives the number.
pub proof fn decimal_is_read_back(n: nat)
    ensures
        decimal_value(decimal(n)) == n,
    decreases n,
{
    let d = n % 10;
    vstd::utf8::char_u32_cast(digit(d), (48 + d) as u32);
    assert(digit(d) as nat == 48 + d);
    if n >= 10 {
        decimal_is_read_back(n / 10);
        assert(decimal(n) == decimal(n / 10).push(digit(d)));
        assert(decimal(n).drop_last() == decimal(n / 10));
    } else {
        assert(decimal(n) == seq![digit(d)]);
        assert(decimal(n).drop_last() == Seq::<char>::empty());
        assert(decimal_value(Seq::<char>::empty()) == 0);
    }
}

/// `n` in decimal, with a minus sign if it is negative.
pub open spec fn signed_decimal(n: int) -> Seq<char> {
    if n < 0 {
        seq!['-'] + decimal((-n) as nat)
    } else {
        decimal(n as nat)
    }
}

/// Appends `n` in base `base`.
pub fn push_digits(out: &mut String, n: u64, base: u64)
    requires
        2 <= base <= 16,
    ensures
        final(out)@ == old(out)@ + digits(n as nat, base as nat),
    decreases n,
{
    if n >= base {
        assert(n / base < n) by (nonlinear_arith)
            requires
                n >= base,
                base >= 2,
        ;
        push_digits(out, n / base, base);
    }
    let d: u64 = n % base;
    let c: char = if d < 10 {
        (48 + d as u8) as char
    } else {
        (55 + d as u8) as char
    };
    out.push(c);
    proof {
        if n < base {
            vstd::arithmetic::div_mod::lemma_small_mod(n as nat, base as nat);
        }
    }
    assert(out@ == old(out)@ + digits(n as nat, base as nat));
}

/// Appends `n` in decimal.
pub fn push_decimal(out: &mut String, n: u64)
    ensures
        final(out)@ == old(out)@ + decimal(n as nat),
{
    push_digits(out, n, 10);
}

/// Appends `n` in decimal, with a minus sign if it is negative.
pub fn push_signed(out: &mut String, n: i64)
    ensures
        final(out)@ == old(out)@ + signed_decimal(n as int),
{
    if n < 0 {
        out.push('-');
        push_decimal(out, (-(n as i128)) as u64);
        assert(out@ == old(out)@ + signed_decimal(n as int));
    } else {
        push_decimal(out, n as u64);
    }
}

/// `count` spaces.
pub open spec fn spaces(count: int) -> Seq<char> {
    Seq::new(
        if count > 0 {
            count as nat
        } else {
            0
        },
        |i: int| ' ',
    )
}

/// `text` followed by as many spaces as it lacks to `width`.
pub open spec fn padded_right(text: Seq<char>, width: nat) -> Seq<char> {
    text + spaces(width - text.len())
}

/// `text` preceded by as many spaces as it lacks to `width`.
pub open spec fn padded_left(text: Seq<char>, width: nat) -> Seq<char> {
    spaces(width - text.len()) + text
}

/// Appends as many spaces as `len` lacks to `width`.
fn push_spaces(out: &mut String, len: usize, width: usize)
    ensures
        final(out)@ == old(out)@ + spaces(width - len),
{
    let ghost before = out@;
    let mut n: usize = len;
    assert(before + spaces(0) == before);
    while n < width
        invariant
            len <= n,
            n <= width || n == len,
            out@ == before + spaces(n - len),
        decreases width - n,
    {
        out.push(' ');
        n = n + 1;
        assert(out@ == before + spaces(n - len));
    }
    assert(spaces(width - len) == spaces(n - len));
}

/// Appends `text`, then as many spaces as it lacks to `width`.
pub fn push_padded_right(out: &mut String, text: &str, width: usize)
    ensures
        final(out)@ == old(out)@ + padded_right(text@, width as nat),
{
    out.append(text);
    push_spaces(out, text.unicode_len(), width);
    assert(out@ == old(out)@ + padded_right(text@, width as nat));
}

/// Appends as many spaces as `text` lacks to `width`, then `text`.
pub fn push_padded_left(out: &mut String, text: &str, width: usize)
    ensures
        final(out)@ == old(out)@ + padded_left(text@, width as nat),
{
    push_spaces(out, text.unicode_len(), width);
    out.append(text);
    assert(out@ == old(out)@ + padded_left(text@, width as nat));
}

// ---------------------------------------------------------------------------------------
// Laws
// ---------------------------------------------------------------------------------------

/// Among ASCII characters, white space is the space and the characters from tab to carriage
/// return.
pub proof fn ascii_white_space(c: char)
    requires
        c as u32 <= 0x7f,
    ensures
        is_white(c) <==> c == ' ' || ('\t' <= c && c <= '\r'),
        Class::White.holds(c) <==> c == ' ' || ('\t' <= c && c <= '\r'),
        forall|x: char| Class::Only(x).holds(c) <==> c == x,
{
}

/// Trimming the end takes away characters of the class, all that stand at the end, and nothing
/// else.
pub proof fn trimming_the_end_takes_the_class_only(text: Seq<char>, class: Class)
    ensures
        trimmed_end(text, class).len() <= text.len(),
        trimmed_end(text, class) == text.take(trimmed_end(text, class).len() as int),
        forall|i: int|
            trimmed_end(text, class).len() <= i < text.len() ==> class.holds(#[trigger] text[i]),
        trimmed_end(text, class).len() > 0 ==> !class.holds(
            text[trimmed_end(text, class).len() - 1],
        ),
    decreases text.len(),
{
    if text.len() > 0 && class.holds(text.last()) {
        trimming_the_end_takes_the_class_only(text.drop_last(), class);
        let n = trimmed_end(text, class).len() as int;
        assert(text.drop_last().take(n) == text.take(n));
        assert forall|i: int| n <= i < text.len() implies class.holds(#[trigger] text[i]) by {
            if i < text.len() - 1 {
                assert(text.drop_last()[i] == text[i]);
            }
        }
    } else {
        assert(text.take(text.len() as int) == text);
    }
}

/// Trimming the start takes away characters of the class, all that stand at the start, and
/// nothing else.
pub proof fn trimming_the_start_takes_the_class_only(text: Seq<char>, class: Class)
    ensures
        trimmed_start(text, class).len() <= text.len(),
        trimmed_start(text, class) == text.skip(text.len() - trimmed_start(text, class).len()),
        forall|i: int|
            0 <= i < text.len() - trimmed_start(text, class).len() ==> class.holds(
                #[trigger] text[i],
            ),
        trimmed_start(text, class).len() > 0 ==> !class.holds(
            text[text.len() - trimmed_start(text, class).len()],
        ),
    decreases text.len(),
{
    if text.len() > 0 && class.holds(text.first()) {
        let rest = text.drop_first();
        trimming_the_start_takes_the_class_only(rest, class);
        let n = trimmed_start(text, class).len();
        assert(rest.skip(rest.len() - n) == text.skip(text.len() - n));
        assert forall|i: int| 0 <= i < text.len() - n implies class.holds(#[trigger] text[i]) by {
            if i > 0 {
                assert(rest[i - 1] == text[i]);
            }
        }
    } else {
        assert(text.skip(0) == text);
    }
}

/// What trimming both ends leaves begins and ends with characters outside the class, and all that
/// was taken belongs to the class.
pub proof fn trimming_takes_the_class_only(text: Seq<char>, class: Class)
    ensures
        ({
            let left = trimmed(text, class);
            let end = trimmed_end(text, class).len();
            &&& left.len() <= end <= text.len()
            &&& left == text.subrange(end - left.len(), end as int)
            &&& forall|i: int|
                0 <= i < end - left.len() || end <= i < text.len() ==> class.holds(
                    #[trigger] text[i],
                )
            &&& left.len() > 0 ==> !class.holds(left.first()) && !class.holds(left.last())
        }),
{
    trimming_the_end_takes_the_class_only(text, class);
    let front = trimmed_end(text, class);
    trimming_the_start_takes_the_class_only(front, class);
    let left = trimmed(text, class);
    let k = front.len() - left.len();
    assert(left == text.subrange(k, front.len() as int));
    assert forall|i: int| 0 <= i < k implies class.holds(#[trigger] text[i]) by {
        assert(front[i] == text[i]);
    }
    if left.len() > 0 {
        assert(left.last() == text[front.len() - 1]);
        assert(left.first() == front[k]);
    }
}

/// Texts are ordered by the first place where they differ; a text comes before its
/// continuations.
pub proof fn order_is_told_by_the_first_difference(
    front: Seq<char>,
    a: char,
    b: char,
    rest_a: Seq<char>,
    rest_b: Seq<char>,
)
    ensures
        (a as u32) < b as u32 ==> lex_le(front + seq![a] + rest_a, front + seq![b] + rest_b),
        a as u32 > b as u32 ==> !lex_le(front + seq![a] + rest_a, front + seq![b] + rest_b),
        lex_le(front, front + rest_a),
        lex_le(front + rest_a, front) ==> rest_a.len() == 0,
    decreases front.len(),
{
    let x = front + seq![a] + rest_a;
    let y = front + seq![b] + rest_b;
    let z = front + rest_a;
    if front.len() > 0 {
        let tail = front.drop_first();
        order_is_told_by_the_first_difference(tail, a, b, rest_a, rest_b);
        assert(x.drop_first() == tail + seq![a] + rest_a);
        assert(y.drop_first() == tail + seq![b] + rest_b);
        assert(z.drop_first() == tail + rest_a);
        assert(x[0] == front[0] && y[0] == front[0] && z[0] == front[0]);
    } else {
        assert(x[0] == a && y[0] == b);
    }
}

/// Replacing a character replaces each of its occurrences and keeps everything else in place.
pub proof fn replacing_changes_one_character_only(text: Seq<char>, from: char, to: char)
    ensures
        replaced_char(text, from, to).len() == text.len(),
        forall|i: int|
            0 <= i < text.len() ==> #[trigger] replaced_char(text, from, to)[i] == if text[i]
                == from {
                to
            } else {
                text[i]
            },
{
}

/// Decimal digits are those of the number: one digit up to 9, and for anything larger the digits
/// of its tenth followed by what is left.
pub proof fn decimal_digits(n: nat, d: nat)
    requires
        d < 10,
    ensures
        decimal(d).len() == 1 && decimal(d)[0] as u32 == 48 + d,
        n > 0 ==> decimal(10 * n + d) == decimal(n) + decimal(d),
{
    vstd::utf8::char_u32_cast(digit(d), (48 + d) as u32);
    assert(decimal(d) == seq![digit(d)]);
    if n > 0 {
        let m: nat = 10 * n + d;
        assert(m / 10 == n && m % 10 == d);
        assert(decimal(m) == decimal(n).push(digit(d)));
        assert(decimal(m) == decimal(n) + decimal(d));
    }
}

/// Beyond ASCII, white space is made of the next-line character and of the space characters of
/// Unicode, such as the no-break space and the ideographic space.
pub proof fn white_space_beyond_ascii(c: char)
    requires
        c as u32 > 0x7f,
    ensures
        is_white(c) <==> seq![
            '\u{85}',
            '\u{a0}',
            '\u{1680}',
            '\u{2000}',
            '\u{2001}',
            '\u{2002}',
            '\u{2003}',
            '\u{2004}',
            '\u{2005}',
            '\u{2006}',
            '\u{2007}',
            '\u{2008}',
            '\u{2009}',
            '\u{200a}',
            '\u{2028}',
            '\u{2029}',
            '\u{202f}',
            '\u{205f}',
            '\u{3000}',
        ].contains(c),
{
    let all = seq![
        '\u{85}',
        '\u{a0}',
        '\u{1680}',
        '\u{2000}',
        '\u{2001}',
        '\u{2002}',
        '\u{2003}',
        '\u{2004}',
        '\u{2005}',
        '\u{2006}',
        '\u{2007}',
        '\u{2008}',
        '\u{2009}',
        '\u{200a}',
        '\u{2028}',
        '\u{2029}',
        '\u{202f}',
        '\u{205f}',
        '\u{3000}',
    ];
    if is_white(c) {
        let u = c as u32;
        let k: int = if u == 0x85 {
            0
        } else if u == 0xa0 {
            1
        } else if u == 0x1680 {
            2
        } else if u <= 0x200a {
            3 + (u - 0x2000)
        } else if u == 0x2028 {
            14
        } else if u == 0x2029 {
            15
        } else if u == 0x202f {
            16
        } else if u == 0x205f {
            17
        } else {
            18
        };
        assert(all[k] == c);
    }
}

/// The number that a digit stands for: `0` to `9`, then `A` to `F`.
pub open spec fn digit_value(c: char) -> int {
    if c <= '9' {
        c as int - '0' as int
    } else {
        10 + (c as int - 'A' as int)
    }
}

/// The number that digits stand for, the most significant first.
pub open spec fn value_of(s: Seq<char>, base: int) -> int
    decreases s.len(),
{
    if s.len() == 0 {
        0
    } else {
        base * value_of(s.drop_last(), base) + digit_value(s.last())
    }
}

/// A number is written so that it can be read back, with no digit beyond the base and no zero in
/// front.
pub proof fn written_number_is_read_back(n: nat, base: nat)
    requires
        2 <= base <= 16,
    ensures
        value_of(digits(n, base), base as int) == n,
        digits(n, base).len() > 0,
        forall|i: int|
            0 <= i < digits(n, base).len() ==> 0 <= digit_value(#[trigger] digits(n, base)[i])
                < base,
        digits(n, base)[0] == '0' ==> n == 0,
    decreases n,
{
    let d = n % base;
    let c = digit(d);
    let all = digits(n, base);
    assert(d < base) by (nonlinear_arith)
        requires
            d == n % base,
            base >= 2,
    ;
    vstd::utf8::char_u32_cast(
        c,
        if d < 10 {
            (48 + d) as u32
        } else {
            (55 + d) as u32
        },
    );
    assert(digit_value(c) == d);
    if n < base {
        vstd::arithmetic::div_mod::lemma_small_mod(n, base);
        assert(all == seq![c]);
        assert(all.drop_last() == Seq::<char>::empty());
        assert(value_of(all.drop_last(), base as int) == 0);
        assert(base * 0 == 0) by (nonlinear_arith);
        assert(n != 0 ==> c != '0');
    } else {
        let front = digits(n / base, base);
        assert(n / base < n && n / base > 0) by (nonlinear_arith)
            requires
                n >= base,
                base >= 2,
        ;
        written_number_is_read_back(n / base, base);
        assert(all == front.push(c));
        assert(all.drop_last() == front);
        vstd::arithmetic::div_mod::lemma_fundamental_div_mod(n as int, base as int);
        assert(all[0] == front[0]);
        assert forall|i: int| 0 <= i < all.len() implies 0 <= digit_value(#[trigger] all[i])
            < base by {
            if i < front.len() {
                assert(all[i] == front[i]);
            }
        }
    }
}

/// A signed number is written as its size in decimal, behind a minus sign if it is negative and
/// only then.
pub proof fn sign_is_written_in_front(n: int)
    ensures
        n >= 0 ==> value_of(signed_decimal(n), 10) == n && signed_decimal(n)[0] != '-',
        n < 0 ==> signed_decimal(n)[0] == '-' && value_of(signed_decimal(n).skip(1), 10) == -n,
{
    if n < 0 {
        written_number_is_read_back((-n) as nat, 10);
        assert(signed_decimal(n).skip(1) == decimal((-n) as nat));
    } else {
        written_number_is_read_back(n as nat, 10);
        assert(0 <= digit_value(decimal(n as nat)[0]) < 10);
    }
}

/// Whether `cell` is `width` wide, or as wide as `text` where that is wider, and holds `text` at
/// its left end and otherwise spaces.
pub open spec fn stands_left(cell: Seq<char>, text: Seq<char>, width: int) -> bool {
    &&& cell.len() == if text.len() > width {
        text.len() as int
    } else {
        width
    }
    &&& text.is_prefix_of(cell)
    &&& forall|i: int| text.len() <= i < cell.len() ==> #[trigger] cell[i] == ' '
}

/// Whether `cell` is `width` wide, or as wide as `text` where that is wider, and holds `text` at
/// its right end and otherwise spaces.
pub open spec fn stands_right(cell: Seq<char>, text: Seq<char>, width: int) -> bool {
    &&& cell.len() == if text.len() > width {
        text.len() as int
    } else {
        width
    }
    &&& text.is_suffix_of(cell)
    &&& forall|i: int| 0 <= i < cell.len() - text.len() ==> #[trigger] cell[i] == ' '
}

/// Padding fills a column and cuts nothing.
pub proof fn padding_fills_the_column(text: Seq<char>, width: nat)
    ensures
        stands_left(padded_right(text, width), text, width as int),
        stands_right(padded_left(text, width), text, width as int),
{
    let left = padded_right(text, width);
    let right = padded_left(text, width);
    assert(left.subrange(0, text.len() as int) == text);
    assert(right.subrange(right.len() - text.len(), right.len() as int) == text);
}

} // verus!
