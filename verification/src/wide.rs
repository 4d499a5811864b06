//! UTF-16 text as the Windows API exchanges it.
use vstd::prelude::*;

verus! {

/// `char::from_u32`: the character with that code, or `None` if the code is no Unicode
/// scalar value.
pub assume_specification[ char::from_u32 ](i: u32) -> (c: Option<char>)
    ensures
        c is Some <==> (i <= 0xd7ff || 0xe000 <= i <= 0x10ffff),
        c matches Some(x) ==> x as u32 == i,
;

/// The UTF-16 code units of one character.
pub open spec fn units(c: char) -> Seq<u16> {
    let u = c as u32;
    if u < 0x10000 {
        seq![u as u16]
    } else {
        seq![(0xd800 + (u - 0x10000) / 0x400) as u16, (0xdc00 + (u - 0x10000) % 0x400) as u16]
    }
}

/// The UTF-16 code units of a text.
pub open spec fn encode_utf16(text: Seq<char>) -> Seq<u16>
    decreases text.len(),
{
    if text.len() == 0 {
        seq![]
    } else {
        units(text[0]) + encode_utf16(text.drop_first())
    }
}

/// A unit that may open a surrogate pair.
pub open spec fn is_high(u: u16) -> bool {
    0xd800 <= u <= 0xdbff
}

/// A unit that may close a surrogate pair.
pub open spec fn is_low(u: u16) -> bool {
    0xdc00 <= u <= 0xdfff
}

/// The character that a surrogate pair stands for.
pub open spec fn joined(high: u16, low: u16) -> char {
    ((0x10000 + (high - 0xd800) * 0x400 + (low - 0xdc00)) as u32) as char
}

/// The text that UTF-16 code units stand for, each unpaired surrogate read as U+FFFD.
pub open spec fn decode_utf16(s: Seq<u16>) -> Seq<char>
    decreases s.len(),
{
    if s.len() == 0 {
        seq![]
    } else if !is_high(s[0]) && !is_low(s[0]) {
        seq![(s[0] as u32) as char] + decode_utf16(s.skip(1))
    } else if is_high(s[0]) && s.len() > 1 && is_low(s[1]) {
        seq![joined(s[0], s[1])] + decode_utf16(s.skip(2))
    } else {
        seq!['\u{fffd}'] + decode_utf16(s.skip(1))
    }
}

/// The units before the first zero, or all of them if there is no zero.
pub open spec fn before_nul(s: Seq<u16>) -> Seq<u16>
    decreases s.len(),
{
    if s.len() == 0 || s[0] == 0 {
        seq![]
    } else {
        seq![s[0]] + before_nul(s.drop_first())
    }
}

/// The UTF-16 code units of `s`, followed by a zero unit.
pub fn to_wide(s: &str) -> (out: Vec<u16>)
    ensures
        out@ == encode_utf16(s@).push(0),
{
    let mut out: Vec<u16> = Vec::new();
    assert(s@.skip(0) == s@);
    for c in it: s.chars()
        invariant
            it.seq() == s@,
            out@ + encode_utf16(s@.skip(it.index() as int)) == encode_utf16(s@),
    {
        let ghost rest = s@.skip(it.index() as int);
        let ghost before = out@;
        let u: u32 = c as u32;
        if u < 0x10000 {
            out.push(u as u16);
        } else {
            let v: u32 = u - 0x10000;
            out.push((0xd800 + v / 0x400) as u16);
            out.push((0xdc00 + v % 0x400) as u16);
        }
        assert(rest[0] == c);
        assert(rest.drop_first() == s@.skip(it.index() + 1));
        assert(out@ == before + units(c));
        assert(before + (units(c) + encode_utf16(rest.drop_first())) == out@ + encode_utf16(
            rest.drop_first(),
        ));
    }
    assert(out@ == encode_utf16(s@));
    out.push(0);
    out
}

/// The text that the units stand for, each unpaired surrogate read as U+FFFD.
pub fn from_utf16_lossy(s: &[u16]) -> (out: String)
    ensures
        out@ == decode_utf16(s@),
{
    let mut out = String::new();
    let mut i: usize = 0;
    assert(s@.skip(0) == s@);
    while i < s.len()
        invariant
            i <= s@.len(),
            out@ + decode_utf16(s@.skip(i as int)) == decode_utf16(s@),
        decreases s@.len() - i,
    {
        let ghost rest = s@.skip(i as int);
        let ghost before = out@;
        let a: u16 = s[i];
        let mut c: char = '\u{fffd}';
        let mut step: usize = 1;
        if a < 0xd800 || a > 0xdfff {
            if let Some(x) = char::from_u32(a as u32) {
                c = x;
            }
            proof {
                vstd::utf8::char_is_scalar(c);
                vstd::utf8::char_u32_cast(c, a as u32);
            }
        } else if a <= 0xdbff && i + 1 < s.len() && 0xdc00 <= s[i + 1] && s[i + 1] <= 0xdfff {
            let b: u16 = s[i + 1];
            let code: u32 = 0x10000 + (a as u32 - 0xd800) * 0x400 + (b as u32 - 0xdc00);
            if let Some(x) = char::from_u32(code) {
                c = x;
            }
            step = 2;
            proof {
                vstd::utf8::char_u32_cast(c, code);
            }
        }
        out.push(c);
        assert(rest.skip(step as int) == s@.skip(i + step));
        assert(decode_utf16(rest) == seq![c] + decode_utf16(rest.skip(step as int)));
        assert(before + (seq![c] + decode_utf16(rest.skip(step as int))) == out@ + decode_utf16(
            rest.skip(step as int),
        ));
        i = i + step;
    }
    assert(s@.skip(s@.len() as int).len() == 0);
    out
}

/// Number of units before the first zero.
pub fn nul_position(s: &[u16]) -> (n: usize)
    ensures
        n <= s@.len(),
        s@.take(n as int) == before_nul(s@),
{
    let mut n: usize = 0;
    assert(s@.skip(0) == s@);
    assert(s@.take(0) + before_nul(s@) == before_nul(s@));
    while n < s.len() && s[n] != 0
        invariant
            n <= s@.len(),
            s@.take(n as int) + before_nul(s@.skip(n as int)) == before_nul(s@),
        decreases s@.len() - n,
    {
        let ghost rest = s@.skip(n as int);
        assert(rest.drop_first() == s@.skip(n + 1));
        assert(s@.take(n as int) + (seq![rest[0]] + before_nul(rest.drop_first())) == s@.take(n + 1)
            + before_nul(rest.drop_first()));
        n = n + 1;
    }
    assert(before_nul(s@.skip(n as int)) == Seq::<u16>::empty());
    assert(s@.take(n as int) + Seq::<u16>::empty() == s@.take(n as int));
    n
}

/// The text up to the first zero unit, or the whole text if there is none.
pub fn from_wide(s: &[u16]) -> (out: String)
    ensures
        out@ == decode_utf16(before_nul(s@)),
{
    let n: usize = nul_position(s);
    from_utf16_lossy(vstd::slice::slice_subrange(s, 0, n))
}

/// Decoding the UTF-16 code units of a text gives the text back.
pub proof fn decode_undoes_encode(text: Seq<char>)
    ensures
        decode_utf16(encode_utf16(text)) == text,
    decreases text.len(),
{
    if text.len() > 0 {
        let c = text[0];
        let rest = text.drop_first();
        let all = encode_utf16(text);
        decode_undoes_encode(rest);
        let u = c as u32;
        vstd::utf8::char_is_scalar(c);
        vstd::utf8::char_u32_cast(c, u);
        if u < 0x10000 {
            assert(all.skip(1) == encode_utf16(rest));
            assert(all[0] as u32 == u);
        } else {
            assert(all.skip(2) == encode_utf16(rest));
            assert(0x10000 + (all[0] - 0xd800) * 0x400 + (all[1] - 0xdc00) == u);
        }
        assert(seq![c] + rest == text);
    } else {
        assert(decode_utf16(encode_utf16(text)) == text);
    }
}

/// No unit of a text without the zero character is zero.
pub proof fn units_before_nul(text: Seq<char>, tail: Seq<u16>)
    requires
        !text.contains('\0'),
    ensures
        before_nul(encode_utf16(text) + seq![0u16] + tail) == encode_utf16(text),
    decreases text.len(),
{
    let all = encode_utf16(text) + seq![0u16] + tail;
    if text.len() > 0 {
        let c = text[0];
        let rest = text.drop_first();
        assert(text.contains(c));
        assert forall|x: char| rest.contains(x) implies text.contains(x) by {
            let k = choose|k: int| 0 <= k < rest.len() && rest[k] == x;
            assert(text[k + 1] == x);
        }
        assert(!rest.contains('\0'));
        units_before_nul(rest, tail);
        let after = encode_utf16(rest) + seq![0u16] + tail;
        vstd::utf8::char_is_scalar(c);
        vstd::utf8::char_u32_cast(c, c as u32);
        if (c as u32) < 0x10000 {
            assert(all.drop_first() == after);
            assert(c as u32 != '\0' as u32);
            assert(all[0] != 0);
        } else {
            assert(all.drop_first().drop_first() == after);
            assert(all[0] != 0);
            assert(all.drop_first()[0] == all[1]);
            assert(before_nul(all.drop_first()) == seq![all[1]] + before_nul(after));
            assert(before_nul(all) == seq![all[0]] + before_nul(all.drop_first()));
        }
        assert(before_nul(all) == encode_utf16(text));
    } else {
        assert(all[0] == 0);
        assert(encode_utf16(text) == before_nul(all));
    }
}

/// Reading back what [`to_wide`] wrote gives the text, provided it holds no zero character;
/// whatever follows the terminating zero is ignored.
pub proof fn wide_round_trip(text: Seq<char>, tail: Seq<u16>)
    requires
        !text.contains('\0'),
    ensures
        decode_utf16(before_nul(encode_utf16(text).push(0) + tail)) == text,
{
    units_before_nul(text, tail);
    assert(encode_utf16(text) + seq![0u16] + tail == encode_utf16(text).push(0) + tail);
    decode_undoes_encode(text);
}

/// Units are read one by one: a unit outside the surrogates is the character with its number, a
/// high surrogate and the low one behind it are one character beyond the first 65536, and any
/// other surrogate is read as the replacement character.
pub proof fn units_are_read_one_by_one(a: u16, b: u16, rest: Seq<u16>)
    ensures
        decode_utf16(seq![]) == Seq::<char>::empty(),
        a < 0xd800 || a > 0xdfff ==> {
            &&& decode_utf16(seq![a] + rest)[0] as u32 == a
            &&& decode_utf16(seq![a] + rest).skip(1) == decode_utf16(rest)
        },
        0xd800 <= a <= 0xdbff && 0xdc00 <= b <= 0xdfff ==> {
            &&& decode_utf16(seq![a, b] + rest)[0] as u32 == 0x1_0000 + 0x400 * (a - 0xd800) + (b
                - 0xdc00)
            &&& decode_utf16(seq![a, b] + rest).skip(1) == decode_utf16(rest)
        },
        0xd800 <= a <= 0xdfff && (a >= 0xdc00 || rest.len() == 0 || rest[0] < 0xdc00 || rest[0]
            > 0xdfff) ==> decode_utf16(seq![a] + rest) == seq!['\u{fffd}'] + decode_utf16(rest),
{
    let one = seq![a] + rest;
    let two = seq![a, b] + rest;
    assert(one.skip(1) == rest);
    assert(two.skip(2) == rest);
    assert(one.len() > 1 ==> one[1] == rest[0]);
    if a < 0xd800 || a > 0xdfff {
        vstd::utf8::char_u32_cast((a as u32) as char, a as u32);
        assert(decode_utf16(one) == seq![(a as u32) as char] + decode_utf16(rest));
        assert(decode_utf16(one).skip(1) == decode_utf16(rest));
    }
    if 0xd800 <= a <= 0xdbff && 0xdc00 <= b <= 0xdfff {
        let code = (0x1_0000 + 0x400 * (a - 0xd800) + (b - 0xdc00)) as u32;
        vstd::utf8::char_u32_cast(code as char, code);
        assert(decode_utf16(two) == seq![code as char] + decode_utf16(rest));
        assert(decode_utf16(two).skip(1) == decode_utf16(rest));
    }
    assert(decode_utf16(seq![]) == Seq::<char>::empty());
}

/// A text ends at the first zero unit, wherever that stands.
pub proof fn text_ends_at_the_first_zero(units: Seq<u16>)
    ensures
        before_nul(units).len() <= units.len(),
        before_nul(units) == units.take(before_nul(units).len() as int),
        forall|i: int| 0 <= i < before_nul(units).len() ==> #[trigger] units[i] != 0,
        before_nul(units).len() < units.len() ==> units[before_nul(units).len() as int] == 0,
    decreases units.len(),
{
    if units.len() > 0 && units[0] != 0 {
        let rest = units.drop_first();
        text_ends_at_the_first_zero(rest);
        let n = before_nul(rest).len() as int;
        assert(before_nul(units) == seq![units[0]] + before_nul(rest));
        assert(before_nul(units) == units.take(n + 1));
        assert forall|i: int| 0 <= i < n + 1 implies #[trigger] units[i] != 0 by {
            if i > 0 {
                assert(rest[i - 1] == units[i]);
            }
        }
        if n + 1 < units.len() {
            assert(rest[n] == units[n + 1]);
        }
    } else {
        assert(before_nul(units) == units.take(0));
    }
}

} // verus!
