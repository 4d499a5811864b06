//! Turning device paths such as `\Device\HarddiskVolume3\x` into drive and network paths.
use crate::sort;
use crate::sort::Ordered;
use crate::text;
use crate::wide;
use vstd::prelude::*;
use vstd::string::*;

verus! {

/// A device and the drive it is known as.
pub struct Mapping {
    /// Path of the device, in lower case.
    device: String,
    /// Name of the drive, such as `C:`.
    dos: String,
}

/// Maps device paths to drive and network paths.
pub struct DosPathMapper {
    pairs: Vec<Mapping>,
}

// ---------------------------------------------------------------------------------------
// Model
// ---------------------------------------------------------------------------------------

/// What a [`Mapping`] stands for.
#[verifier::ext_equal]
pub struct MappingView {
    pub device: Seq<char>,
    pub dos: Seq<char>,
}

impl View for Mapping {
    type V = MappingView;

    closed spec fn view(&self) -> MappingView {
        MappingView { device: self.device@, dos: self.dos@ }
    }
}

/// The mappings that a sequence of [`Mapping`] stands for.
pub open spec fn mappings_view(pairs: Seq<Mapping>) -> Seq<MappingView> {
    pairs.map_values(|m: Mapping| m@)
}

impl View for DosPathMapper {
    type V = Seq<MappingView>;

    closed spec fn view(&self) -> Seq<MappingView> {
        mappings_view(self.pairs@)
    }
}

/// Number of bytes of a text.
pub open spec fn byte_len(text: Seq<char>) -> nat {
    vstd::utf8::encode_utf8(text).len()
}

/// The mappings made of device paths and drives: the device path in lower case.
pub open spec fn lowered(pairs: Seq<(String, String)>) -> Seq<MappingView> {
    pairs.map_values(
        |p: (String, String)| MappingView { device: text::lowercase(p.0@), dos: p.1@ },
    )
}

/// Longer device paths come first.
pub open spec fn longest_first(pairs: Seq<MappingView>) -> bool {
    forall|i: int, j: int|
        0 <= i < j < pairs.len() ==> byte_len((#[trigger] pairs[i]).device) >= byte_len(
            (#[trigger] pairs[j]).device,
        )
}

/// The mappings whose device path has `n` bytes.
pub open spec fn of_length(pairs: Seq<MappingView>, n: nat) -> Seq<MappingView> {
    pairs.filter(|m: MappingView| byte_len(m.device) == n)
}

/// Whether a path is complete as it stands: it holds nothing, or it ends in a backslash, so that
/// whatever follows it begins a component of its own.
pub open spec fn is_closed(path: Seq<char>) -> bool {
    path.len() == 0 || path.last() == '\\'
}

/// Whether a name lies on a device: it begins with the device path, and the device path does not
/// end inside a component of the name.
pub open spec fn lies_on(lower: Seq<char>, device: Seq<char>) -> bool {
    &&& device.is_prefix_of(lower)
    &&& is_closed(device) || lower.len() == device.len() || lower[device.len() as int] == '\\'
}

/// The first mapping on whose device the name `lower` lies.
pub open spec fn first_device(pairs: Seq<MappingView>, lower: Seq<char>) -> Option<int>
    decreases pairs.len(),
{
    if pairs.len() == 0 {
        None
    } else {
        match first_device(pairs.drop_last(), lower) {
            Some(i) => Some(i),
            None => if lies_on(lower, pairs.last().device) {
                Some(pairs.len() - 1)
            } else {
                None
            },
        }
    }
}

/// The device of the network redirector.
pub open spec fn lanman() -> Seq<char> {
    "\\device\\lanmanredirector"@
}

/// The device of the provider for network paths.
pub open spec fn mup() -> Seq<char> {
    "\\device\\mup"@
}

/// How many bytes of a name stand for the device, if the device is known.
pub open spec fn device_bytes(pairs: Seq<MappingView>, name: Seq<char>) -> Option<nat> {
    let lower = text::lowercase(name);
    match first_device(pairs, lower) {
        Some(i) => Some(byte_len(pairs[i].device)),
        None => if lanman().is_prefix_of(lower) {
            Some(byte_len(lanman()))
        } else if mup().is_prefix_of(lower) {
            Some(byte_len(mup()))
        } else {
            None
        },
    }
}

/// Whether the name can be cut behind its device. A letter whose lower case takes more or
/// fewer bytes, in front of the cut, can make that impossible.
pub open spec fn cuttable(pairs: Seq<MappingView>, name: Seq<char>) -> bool {
    device_bytes(pairs, name) matches Some(n) ==> vstd::utf8::is_char_boundary(
        vstd::utf8::encode_utf8(name),
        n as int,
    )
}

/// The part of `name` behind its first `n` bytes.
pub open spec fn behind(name: Seq<char>, n: nat) -> Seq<char> {
    let bytes = vstd::utf8::encode_utf8(name);
    vstd::utf8::decode_utf8(bytes.subrange(n as int, bytes.len() as int))
}

/// The network path in what follows the redirector's device: all behind the session part,
/// which ends at the next backslash.
pub open spec fn redirected(rest: Seq<char>) -> Option<Seq<char>> {
    let path = text::trimmed_start(rest, text::Class::Only('\\'));
    match path.index_of_first('\\') {
        Some(p) => Some("\\\\"@ + path.skip(p + 1)),
        None => None,
    }
}

/// The network path in what follows the provider's device.
pub open spec fn provided(rest: Seq<char>) -> Option<Seq<char>> {
    let path = text::trimmed_start(rest, text::Class::Only('\\'));
    if path.len() == 0 {
        None
    } else {
        Some("\\\\"@ + path)
    }
}

/// The drive or network path for a device path. Letter case of the device does not count.
pub open spec fn mapped(pairs: Seq<MappingView>, name: Seq<char>) -> Option<Seq<char>> {
    let lower = text::lowercase(name);
    match first_device(pairs, lower) {
        Some(i) => Some(pairs[i].dos + behind(name, byte_len(pairs[i].device))),
        None => if lanman().is_prefix_of(lower) {
            redirected(behind(name, byte_len(lanman())))
        } else if mup().is_prefix_of(lower) {
            provided(behind(name, byte_len(mup())))
        } else {
            None
        },
    }
}

// ---------------------------------------------------------------------------------------
// The mapper
// ---------------------------------------------------------------------------------------

impl Ordered for Mapping {
    open spec fn le(self, other: Mapping) -> bool {
        byte_len(self@.device) >= byte_len(other@.device)
    }

    proof fn le_total(a: Mapping, b: Mapping) {
    }

    proof fn le_transitive(a: Mapping, b: Mapping, c: Mapping) {
    }

    fn may_precede(&self, other: &Mapping) -> (yes: bool) {
        self.device.as_str().as_bytes().len() >= other.device.as_str().as_bytes().len()
    }
}

/// Sorting mappings sorts what they stand for.
proof fn sorting_shows(sorted: Seq<Mapping>, pairs: Seq<Mapping>, n: nat)
    requires
        sort::stable(sorted, pairs),
    ensures
        of_length(mappings_view(sorted), n) == of_length(mappings_view(pairs), n),
{
    let has = |m: MappingView| byte_len(m.device) == n;
    let look = |m: Mapping| m@;
    let has_too = |m: Mapping| byte_len(m@.device) == n;
    crate::seqs::filter_map(sorted, look, has_too, has);
    crate::seqs::filter_map(pairs, look, has_too, has);
    crate::seqs::filter_keeps(sorted, has_too);
    crate::seqs::filter_keeps(pairs, has_too);
    let one = if sorted.filter(has_too).len() > 0 {
        sorted.filter(has_too)[0]
    } else {
        pairs.filter(has_too)[0]
    };
    if sorted.filter(has_too).len() > 0 || pairs.filter(has_too).len() > 0 {
        assert(has_too(one));
        let f = sort::ranks_with(one);
        assert(sorted.filter(f) == pairs.filter(f));
        crate::seqs::filter_same(sorted, f, has_too);
        crate::seqs::filter_same(pairs, f, has_too);
    } else {
        assert(sorted.filter(has_too) == pairs.filter(has_too));
    }
}

impl DosPathMapper {
    /// A mapper for these device paths and drives. Longer device paths are tried first.
    pub fn from_pairs(pairs: Vec<(String, String)>) -> (out: DosPathMapper)
        ensures
            longest_first(out@),
            out@.len() == pairs@.len(),
            forall|n: nat| #[trigger] of_length(out@, n) == of_length(lowered(pairs@), n),
    {
        let mut all: Vec<Mapping> = Vec::new();
        for i in 0..pairs.len()
            invariant
                mappings_view(all@) == lowered(pairs@).take(i as int),
        {
            let ghost before = all@;
            let one = Mapping {
                device: text::to_lowercase(pairs[i].0.as_str()),
                dos: pairs[i].1.clone(),
            };
            all.push(one);
            assert(mappings_view(all@) == mappings_view(before).push(one@));
            assert(one@ == lowered(pairs@)[i as int]);
        }
        assert(lowered(pairs@).take(pairs@.len() as int) == lowered(pairs@));
        let sorted = sort::sort(all);
        proof {
            let shown = mappings_view(sorted@);
            assert forall|i: int, j: int| 0 <= i < j < shown.len() implies byte_len(
                (#[trigger] shown[i]).device,
            ) >= byte_len((#[trigger] shown[j]).device) by {
                assert(sorted@[i].le(sorted@[j]));
            }
            assert forall|n: nat| #[trigger] of_length(shown, n) == of_length(
                lowered(pairs@),
                n,
            ) by {
                sorting_shows(sorted@, all@, n);
            }
            assert(mappings_view(all@).len() == all@.len());
        }
        DosPathMapper { pairs: sorted }
    }

    /// Position of the first mapping on whose device the name `lower` lies. The device path has
    /// to end where a component of the name ends, so that `HarddiskVolume1` does not take what
    /// belongs to `HarddiskVolume10`.
    fn find_device(&self, lower: &str) -> (at: Option<usize>)
        ensures
            match at {
                Some(i) => i < self.pairs@.len() && first_device(self@, lower@) == Some(i as int),
                None => first_device(self@, lower@) is None,
            },
    {
        for i in 0..self.pairs.len()
            invariant
                first_device(self@.take(i as int), lower@) is None,
        {
            assert(self@.take(i + 1).drop_last() == self@.take(i as int));
            assert(self@.take(i + 1).last() == self.pairs@[i as int]@);
            if on_device(lower, self.pairs[i].device.as_str()) {
                proof {
                    first_device_stays(self@, lower@, i + 1);
                }
                return Some(i);
            }
        }
        assert(self@.take(self@.len() as int) == self@);
        None
    }

    /// The drive or network path for a device path, or `None` if there is none; the caller then
    /// shows the device path itself.
    pub fn map(&self, name: &str) -> (out: Option<String>)
        requires
            cuttable(self@, name@),
        ensures
            match out {
                Some(path) => mapped(self@, name@) == Some(path@),
                None => mapped(self@, name@) is None,
            },
    {
        let lower_text = text::to_lowercase(name);
        let lower = lower_text.as_str();
        if let Some(i) = self.find_device(lower) {
            let rest = text_behind(name, self.pairs[i].device.as_str().as_bytes().len());
            let mut out = self.pairs[i].dos.clone();
            out.append(rest);
            return Some(out);
        }
        let redirector = "\\device\\lanmanredirector";
        if text::starts_with(lower, redirector) {
            let rest = text_behind(name, redirector.as_bytes().len());
            let path = text::trim_start(rest, text::Class::Only('\\'));
            return match text::find_char(path, '\\') {
                Some(p) => {
                    let n: usize = path.unicode_len();
                    let mut out = "\\\\".to_owned();
                    let share = path.substring_char(p + 1, n);
                    assert(share@ == path@.skip(p + 1));
                    out.append(share);
                    Some(out)
                },
                None => None,
            };
        }
        let provider = "\\device\\mup";
        if text::starts_with(lower, provider) {
            let rest = text_behind(name, provider.as_bytes().len());
            let path = text::trim_start(rest, text::Class::Only('\\'));
            if path.is_empty() {
                return None;
            }
            let mut out = "\\\\".to_owned();
            out.append(path);
            return Some(out);
        }
        None
    }

    /// How many bytes of a name stand for the device.
    fn device_part(&self, name: &str) -> (out: Option<usize>)
        ensures
            match out {
                Some(n) => device_bytes(self@, name@) == Some(n as nat),
                None => device_bytes(self@, name@) is None,
            },
    {
        let lower_text = text::to_lowercase(name);
        let lower = lower_text.as_str();
        if let Some(i) = self.find_device(lower) {
            return Some(self.pairs[i].device.as_str().as_bytes().len());
        }
        let redirector = "\\device\\lanmanredirector";
        if text::starts_with(lower, redirector) {
            return Some(redirector.as_bytes().len());
        }
        let provider = "\\device\\mup";
        if text::starts_with(lower, provider) {
            return Some(provider.as_bytes().len());
        }
        None
    }

    /// Like [`DosPathMapper::map`], for any name: `Err` if the name cannot be cut behind its
    /// device.
    pub fn try_map(&self, name: &str) -> (out: Result<Option<String>, ()>)
        ensures
            out is Ok <==> cuttable(self@, name@),
            out matches Ok(Some(path)) ==> mapped(self@, name@) == Some(path@),
            out matches Ok(None) ==> mapped(self@, name@) is None,
    {
        if let Some(n) = self.device_part(name) {
            if !name.is_char_boundary(n) {
                return Err(());
            }
        }
        Ok(self.map(name))
    }
}

/// Whether a name lies on a device.
fn on_device(lower: &str, device: &str) -> (yes: bool)
    ensures
        yes == lies_on(lower@, device@),
{
    match text::strip_prefix(lower, device) {
        Some(rest) => {
            let n: usize = rest.unicode_len();
            device.is_empty() || text::ends_with_char(device, '\\') || n == 0 || rest.get_char(0)
                == '\\'
        },
        None => false,
    }
}

/// Whatever follows a mapping that is found, it stays the first.
proof fn first_device_stays(pairs: Seq<MappingView>, lower: Seq<char>, n: int)
    requires
        0 <= n <= pairs.len(),
        first_device(pairs.take(n), lower) is Some,
    ensures
        first_device(pairs, lower) == first_device(pairs.take(n), lower),
    decreases pairs.len() - n,
{
    if n < pairs.len() {
        assert(pairs.take(n + 1).drop_last() == pairs.take(n));
        first_device_stays(pairs, lower, n + 1);
    } else {
        assert(pairs.take(n) == pairs);
    }
}

/// The part of `name` behind its first `n` bytes.
fn text_behind(name: &str, n: usize) -> (out: &str)
    requires
        vstd::utf8::is_char_boundary(vstd::utf8::encode_utf8(name@), n as int),
    ensures
        out@ == behind(name@, n as nat),
{
    let (front, out) = name.split_at(n);
    proof {
        vstd::utf8::encode_utf8_decode_utf8(out@);
    }
    out
}

// ---------------------------------------------------------------------------------------
// The drives of the system
// ---------------------------------------------------------------------------------------

/// The texts in `units` that are closed by a zero unit, in order. What follows the last zero
/// is left out.
pub open spec fn zero_closed(units: Seq<u16>) -> Seq<Seq<char>>
    decreases units.len(),
{
    let one = wide::before_nul(units);
    if one.len() >= units.len() {
        seq![]
    } else {
        seq![wide::decode_utf16(one)] + zero_closed(units.skip(one.len() as int + 1))
    }
}

/// The drives that the system lists: `n` units of `buf`, each drive closed by a zero unit. None
/// if the list was empty or did not fit.
pub fn drive_strings(buf: &[u16], n: usize) -> (out: Vec<String>)
    ensures
        out@.map_values(|s: String| s@) == if n == 0 || n > buf@.len() {
            seq![]
        } else {
            zero_closed(buf@.take(n as int))
        },
{
    let ghost look = |s: String| s@;
    let mut out: Vec<String> = Vec::new();
    if n == 0 || n > buf.len() {
        assert(out@.map_values(look) == Seq::<Seq<char>>::empty());
        return out;
    }
    let ghost all = buf@.take(n as int);
    let mut i: usize = 0;
    assert(all.skip(0) == all);
    assert(out@.map_values(look) + zero_closed(all) == zero_closed(all));
    while i < n
        invariant
            i <= n <= buf@.len(),
            all == buf@.take(n as int),
            look == (|s: String| s@),
            out@.map_values(look) + zero_closed(all.skip(i as int)) == zero_closed(all),
        ensures
            out@.map_values(look) == zero_closed(all),
        decreases n - i,
    {
        let rest = vstd::slice::slice_subrange(buf, i, n);
        assert(rest@ == all.skip(i as int));
        let len: usize = wide::nul_position(rest);
        if len == rest.len() {
            assert(wide::before_nul(rest@).len() == rest@.len());
            assert(out@.map_values(look) + Seq::<Seq<char>>::empty() == out@.map_values(look));
            break ;
        }
        let ghost before = out@;
        let drive = wide::from_utf16_lossy(vstd::slice::slice_subrange(rest, 0, len));
        assert(rest@.subrange(0, len as int) == rest@.take(len as int));
        out.push(drive);
        assert(out@.map_values(look) == before.map_values(look).push(drive@));
        assert(all.skip(i as int).skip(len + 1) == all.skip(i + len + 1));
        assert(before.map_values(look) + (seq![drive@] + zero_closed(all.skip(i + len + 1)))
            == out@.map_values(look) + zero_closed(all.skip(i + len + 1)));
        i = i + len + 1;
        assert(i == n ==> out@.map_values(look) == zero_closed(all)) by {
            if i == n {
                assert(all.skip(i as int).len() == 0);
                assert(out@.map_values(look) + Seq::<Seq<char>>::empty() == out@.map_values(look));
            }
        }
    }
    out
}

/// The name of a drive without its backslash: `C:` for `C:\`. `None` if it has fewer than two
/// bytes.
pub fn drive_name(drive: &str) -> (out: Option<String>)
    requires
        byte_len(drive@) < 2 || vstd::utf8::is_char_boundary(
            vstd::utf8::encode_utf8(drive@),
            2,
        ),
    ensures
        out is Some <==> byte_len(drive@) >= 2,
        out matches Some(name) ==> vstd::utf8::encode_utf8(name@) == vstd::utf8::encode_utf8(
            drive@,
        ).take(2),
{
    if drive.as_bytes().len() < 2 {
        return None;
    }
    let (name, rest) = drive.split_at(2);
    assert(vstd::utf8::encode_utf8(name@) == vstd::utf8::encode_utf8(drive@).take(2));
    Some(name.to_owned())
}

/// The pair of device path and drive for the answer of the system on a drive: the first `n`
/// units of `target`. `None` if there was no answer or it names no device.
pub fn device_pair(target: &[u16], n: usize, drive: &str) -> (out: Option<(String, String)>)
    requires
        n <= target@.len(),
    ensures
        ({
            let device = wide::decode_utf16(wide::before_nul(target@.take(n as int)));
            &&& out is Some <==> n > 0 && "\\Device\\"@.is_prefix_of(device)
            &&& out matches Some(pair) ==> pair.0@ == device && pair.1@ == drive@
        }),
{
    if n == 0 {
        return None;
    }
    let answer = vstd::slice::slice_subrange(target, 0, n);
    assert(answer@ == target@.take(n as int));
    let device = wide::from_wide(answer);
    if text::starts_with(device.as_str(), "\\Device\\") {
        Some((device, drive.to_owned()))
    } else {
        None
    }
}

// ---------------------------------------------------------------------------------------
// Laws
// ---------------------------------------------------------------------------------------

/// The name lies on the device of the mapping that is found, and on none before it.
pub proof fn first_device_is_first(pairs: Seq<MappingView>, lower: Seq<char>)
    ensures
        match first_device(pairs, lower) {
            Some(i) => {
                &&& 0 <= i < pairs.len()
                &&& lies_on(lower, pairs[i].device)
                &&& forall|j: int| 0 <= j < i ==> !lies_on(lower, (#[trigger] pairs[j]).device)
            },
            None => forall|j: int|
                0 <= j < pairs.len() ==> !lies_on(lower, (#[trigger] pairs[j]).device),
        },
    decreases pairs.len(),
{
    if pairs.len() > 0 {
        let front = pairs.drop_last();
        first_device_is_first(front, lower);
        assert forall|j: int| 0 <= j < front.len() implies front[j] == #[trigger] pairs[j] by {}
    }
}

/// Of all devices that a name lies on, the one with the longest path decides.
pub proof fn longest_device_wins(pairs: Seq<MappingView>, lower: Seq<char>, j: int)
    requires
        longest_first(pairs),
        0 <= j < pairs.len(),
        lies_on(lower, pairs[j].device),
    ensures
        first_device(pairs, lower) matches Some(i) && byte_len(pairs[i].device) >= byte_len(
            pairs[j].device,
        ),
{
    first_device_is_first(pairs, lower);
}

/// A device whose path merely begins the name of another is never taken for it: a name that
/// goes on with anything but a backslash, in the component that the device path ends with, does
/// not lie on the device, whatever else is known.
pub proof fn device_is_not_mistaken(
    pairs: Seq<MappingView>,
    device: Seq<char>,
    c: char,
    rest: Seq<char>,
)
    requires
        !is_closed(device),
        c != '\\',
    ensures
        first_device(pairs, device.push(c) + rest) matches Some(i) ==> pairs[i].device != device,
{
    let lower = device.push(c) + rest;
    first_device_is_first(pairs, lower);
    assert(lower[device.len() as int] == c);
}

/// An ASCII name can always be cut behind its device, and what follows the device stays as it
/// is.
pub proof fn ascii_names_are_cuttable(pairs: Seq<MappingView>, name: Seq<char>)
    requires
        vstd::utf8::is_ascii_chars(name),
    ensures
        cuttable(pairs, name),
        first_device(pairs, text::lowercase(name)) matches Some(i) ==> mapped(pairs, name) == Some(
            pairs[i].dos + name.skip(pairs[i].device.len() as int),
        ),
{
    let lower = text::lowercase(name);
    text::ascii_lowercase_is_ascii(name);
    first_device_is_first(pairs, lower);
    reveal_strlit("\\device\\lanmanredirector");
    reveal_strlit("\\device\\mup");
    if let Some(i) = first_device(pairs, lower) {
        ascii_cut(name, lower, pairs[i].device);
    } else if lanman().is_prefix_of(lower) {
        ascii_cut(name, lower, lanman());
    } else if mup().is_prefix_of(lower) {
        ascii_cut(name, lower, mup());
    }
}

/// Cutting an ASCII name behind a prefix of its lower case.
proof fn ascii_cut(name: Seq<char>, lower: Seq<char>, prefix: Seq<char>)
    requires
        vstd::utf8::is_ascii_chars(name),
        vstd::utf8::is_ascii_chars(lower),
        lower.len() == name.len(),
        prefix.is_prefix_of(lower),
    ensures
        byte_len(prefix) == prefix.len(),
        vstd::utf8::is_char_boundary(vstd::utf8::encode_utf8(name), prefix.len() as int),
        behind(name, prefix.len()) == name.skip(prefix.len() as int),
{
    let n = prefix.len() as int;
    let bytes = vstd::utf8::encode_utf8(name);
    assert forall|i: int| 0 <= i < prefix.len() implies '\0' <= #[trigger] prefix[i] <= '\u{7f}' by {
        assert(prefix[i] == lower[i]);
    }
    vstd::utf8::is_ascii_chars_encode_utf8(prefix);
    vstd::utf8::is_ascii_chars_encode_utf8(name);
    let front = name.take(n);
    let rest = name.skip(n);
    assert(front + rest == name);
    text::encode_concat(front, rest);
    vstd::utf8::is_ascii_chars_encode_utf8(front);
    assert(bytes.subrange(n, bytes.len() as int) == vstd::utf8::encode_utf8(rest));
    vstd::utf8::encode_utf8_decode_utf8(rest);
    vstd::utf8::encode_utf8_valid_utf8(name);
    boundary_between(front, rest);
}

/// The place between two texts is a character boundary.
proof fn boundary_between(front: Seq<char>, rest: Seq<char>)
    ensures
        vstd::utf8::is_char_boundary(
            vstd::utf8::encode_utf8(front + rest),
            vstd::utf8::encode_utf8(front).len() as int,
        ),
    decreases front.len(),
{
    let bytes = vstd::utf8::encode_utf8(front + rest);
    text::encode_concat(front, rest);
    vstd::utf8::encode_utf8_valid_utf8(front + rest);
    if front.len() == 0 {
        vstd::utf8::is_char_boundary_start_end_of_seq(bytes);
    } else {
        let tail = front.drop_first();
        boundary_between(tail, rest);
        assert((front + rest).drop_first() == tail + rest);
        vstd::utf8::encode_utf8_first_scalar(front + rest);
        assert(vstd::utf8::pop_first_scalar(bytes) == vstd::utf8::encode_utf8(tail + rest));
    }
}

/// Of the mappings whose device path begins a name, the one with the longest path decides: the
/// device gives way to its drive, in whatever letter case it is written, and what follows it
/// stays as it is.
pub proof fn device_path_becomes_drive_path(
    pairs: Seq<MappingView>,
    j: int,
    device: Seq<char>,
    rest: Seq<char>,
)
    requires
        longest_first(pairs),
        vstd::utf8::is_ascii_chars(device + rest),
        rest.len() == 0 || rest[0] == '\\',
        0 <= j < pairs.len(),
        text::ascii_lowercase(device) == pairs[j].device,
        forall|k: int|
            0 <= k < pairs.len() && (#[trigger] pairs[k]).device.is_prefix_of(
                text::ascii_lowercase(device + rest),
            ) ==> pairs[k] == pairs[j] || pairs[k].device.len() < device.len(),
    ensures
        mapped(pairs, device + rest) == Some(pairs[j].dos + rest),
{
    let name = device + rest;
    let lower = text::ascii_lowercase(name);
    text::ascii_lowercase_is_ascii(name);
    ascii_names_are_cuttable(pairs, name);
    first_device_is_first(pairs, lower);
    assert(pairs[j].device.is_prefix_of(lower)) by {
        assert(lower.take(device.len() as int) == text::ascii_lowercase(device));
    }
    if rest.len() > 0 {
        assert(lower[device.len() as int] == text::ascii_lower(rest[0]));
    }
    assert(lies_on(lower, pairs[j].device));
    longest_device_wins(pairs, lower, j);
    let i = first_device(pairs, lower)->0;
    ascii_cut(name, lower, pairs[i].device);
    ascii_cut(name, lower, pairs[j].device);
    assert(pairs[i] == pairs[j]);
    assert(name.skip(device.len() as int) == rest);
}

/// A mapper made of devices and drives turns a path on one of the devices into one on its drive,
/// unless another device with a longer path is meant.
pub proof fn given_device_becomes_its_drive(
    pairs: Seq<(String, String)>,
    made: Seq<MappingView>,
    i: int,
    device: Seq<char>,
    rest: Seq<char>,
)
    requires
        longest_first(made),
        forall|n: nat| #[trigger] of_length(made, n) == of_length(lowered(pairs), n),
        vstd::utf8::is_ascii_chars(device + rest),
        rest.len() == 0 || rest[0] == '\\',
        0 <= i < pairs.len(),
        text::ascii_lowercase(device) == text::ascii_lowercase(pairs[i].0@),
        forall|k: int|
            0 <= k < pairs.len() && k != i && text::lowercase(
                (#[trigger] pairs[k]).0@,
            ).is_prefix_of(text::ascii_lowercase(device + rest)) ==> text::lowercase(
                pairs[k].0@,
            ).len() < device.len(),
    ensures
        mapped(made, device + rest) == Some(pairs[i].1@ + rest),
{
    let all = lowered(pairs);
    let one = MappingView { device: text::ascii_lowercase(device), dos: pairs[i].1@ };
    assert forall|x: int| 0 <= x < device.len() implies '\0' <= #[trigger] device[x] <= '\u{7f}' by {
        assert((device + rest)[x] == device[x]);
    }
    text::lowercase_ignores_ascii_case(device, pairs[i].0@);
    assert(all[i] == one);
    let has = |m: MappingView| byte_len(m.device) == byte_len(one.device);
    crate::seqs::filter_keeps(all, has);
    crate::seqs::filter_keeps(made, has);
    assert(has(all[i]));
    assert(of_length(made, byte_len(one.device)) == of_length(all, byte_len(one.device)));
    assert(made.contains(one)) by {
        let k = choose|k: int| 0 <= k < all.filter(has).len() && all.filter(has)[k] == one;
        assert(made.filter(has)[k] == one);
    }
    let j = choose|j: int| 0 <= j < made.len() && made[j] == one;
    assert forall|k: int|
        0 <= k < made.len() && (#[trigger] made[k]).device.is_prefix_of(
            text::ascii_lowercase(device + rest),
        ) implies made[k] == made[j] || made[k].device.len() < device.len() by {
        let n = byte_len(made[k].device);
        let alike = |m: MappingView| byte_len(m.device) == n;
        crate::seqs::filter_keeps(made, alike);
        crate::seqs::filter_keeps(all, alike);
        assert(of_length(made, n) == of_length(all, n));
        assert(alike(made[k]));
        assert(made.filter(alike).contains(made[k]));
        assert(all.contains(made[k])) by {
            let x = choose|x: int|
                0 <= x < made.filter(alike).len() && made.filter(alike)[x] == made[k];
            assert(all.filter(alike)[x] == made[k]);
        }
        let y = choose|y: int| 0 <= y < all.len() && all[y] == made[k];
        if y != i {
            assert(all[y].device == text::lowercase(pairs[y].0@));
        }
    }
    device_path_becomes_drive_path(made, j, device, rest);
}

/// Backslashes in front of anything else are trimmed away.
proof fn slashes_in_front_are_trimmed(slashes: Seq<char>, rest: Seq<char>)
    requires
        forall|i: int| 0 <= i < slashes.len() ==> #[trigger] slashes[i] == '\\',
        rest.len() > 0 ==> rest[0] != '\\',
    ensures
        text::trimmed_start(slashes + rest, text::Class::Only('\\')) == rest,
    decreases slashes.len(),
{
    let all = slashes + rest;
    if slashes.len() > 0 {
        assert(all.first() == slashes[0]);
        assert(all.drop_first() == slashes.drop_first() + rest);
        slashes_in_front_are_trimmed(slashes.drop_first(), rest);
    } else {
        assert(all == rest);
    }
}

/// What an ASCII name on a network device leads to.
proof fn network_device_is_taken_off(
    pairs: Seq<MappingView>,
    device: Seq<char>,
    rest: Seq<char>,
    redirector: bool,
)
    requires
        vstd::utf8::is_ascii_chars(device + rest),
        text::ascii_lowercase(device) == if redirector {
            "\\device\\lanmanredirector"@
        } else {
            "\\device\\mup"@
        },
        forall|k: int|
            0 <= k < pairs.len() ==> !(#[trigger] pairs[k]).device.is_prefix_of(
                text::ascii_lowercase(device + rest),
            ),
    ensures
        mapped(pairs, device + rest) == if redirector {
            redirected(rest)
        } else {
            provided(rest)
        },
{
    let name = device + rest;
    let lower = text::ascii_lowercase(name);
    text::ascii_lowercase_is_ascii(name);
    first_device_is_first(pairs, lower);
    reveal_strlit("\\device\\lanmanredirector");
    reveal_strlit("\\device\\mup");
    let prefix = text::ascii_lowercase(device);
    assert(prefix.is_prefix_of(lower)) by {
        assert(lower.take(device.len() as int) == prefix);
    }
    if !redirector {
        assert(lower[8] == prefix[8]);
    }
    ascii_cut(name, lower, prefix);
    assert(name.skip(device.len() as int) == rest);
}

/// A path on the device of the network redirector becomes a network path: the session, which is
/// the first component behind the device, is left out. A session alone leads nowhere.
pub proof fn redirector_path_becomes_network_path(
    pairs: Seq<MappingView>,
    device: Seq<char>,
    slashes: Seq<char>,
    session: Seq<char>,
    share: Seq<char>,
)
    requires
        vstd::utf8::is_ascii_chars(device + (slashes + (session + seq!['\\'] + share))),
        text::ascii_lowercase(device) == "\\device\\lanmanredirector"@,
        forall|i: int| 0 <= i < slashes.len() ==> #[trigger] slashes[i] == '\\',
        session.len() > 0,
        !session.contains('\\'),
        forall|k: int|
            0 <= k < pairs.len() ==> !(#[trigger] pairs[k]).device.is_prefix_of(
                text::ascii_lowercase(device + (slashes + (session + seq!['\\'] + share))),
            ),
    ensures
        mapped(pairs, device + (slashes + (session + seq!['\\'] + share))) == Some(
            seq!['\\', '\\'] + share,
        ),
        mapped(pairs, device + (slashes + session)) is None,
{
    let path = session + seq!['\\'] + share;
    let whole = device + (slashes + path);
    let short = device + (slashes + session);
    reveal_strlit("\\\\");
    assert("\\\\"@ == seq!['\\', '\\']);
    assert(session.contains(session[0]));
    network_device_is_taken_off(pairs, device, slashes + path, true);
    slashes_in_front_are_trimmed(slashes, path);
    path.index_of_first_ensures('\\');
    assert(path[session.len() as int] == '\\');
    assert(path.contains('\\'));
    let p = path.index_of_first('\\')->0;
    if p < session.len() {
        assert(session[p] == path[p]);
    }
    assert(p == session.len());
    assert(path.skip(p + 1) == share);
    let low = text::ascii_lowercase(short);
    assert(low == text::ascii_lowercase(whole).take(short.len() as int));
    assert forall|k: int| 0 <= k < pairs.len() implies !(
    #[trigger] pairs[k]).device.is_prefix_of(low) by {
        let d = pairs[k].device;
        if d.is_prefix_of(low) {
            assert(d =~= text::ascii_lowercase(whole).take(d.len() as int));
        }
    }
    assert forall|i: int| 0 <= i < short.len() implies '\0' <= #[trigger] short[i] <= '\u{7f}' by {
        assert(whole[i] == short[i]);
    }
    network_device_is_taken_off(pairs, device, slashes + session, true);
    slashes_in_front_are_trimmed(slashes, session);
    session.index_of_first_ensures('\\');
}

/// A path on the device of the provider for network paths becomes a network path; the device
/// alone leads nowhere.
pub proof fn provider_path_becomes_network_path(
    pairs: Seq<MappingView>,
    device: Seq<char>,
    slashes: Seq<char>,
    path: Seq<char>,
)
    requires
        vstd::utf8::is_ascii_chars(device + (slashes + path)),
        text::ascii_lowercase(device) == "\\device\\mup"@,
        forall|i: int| 0 <= i < slashes.len() ==> #[trigger] slashes[i] == '\\',
        path.len() > 0 ==> path[0] != '\\',
        forall|k: int|
            0 <= k < pairs.len() ==> !(#[trigger] pairs[k]).device.is_prefix_of(
                text::ascii_lowercase(device + (slashes + path)),
            ),
    ensures
        mapped(pairs, device + (slashes + path)) == if path.len() > 0 {
            Some(seq!['\\', '\\'] + path)
        } else {
            None
        },
{
    reveal_strlit("\\\\");
    assert("\\\\"@ == seq!['\\', '\\']);
    network_device_is_taken_off(pairs, device, slashes + path, false);
    slashes_in_front_are_trimmed(slashes, path);
}

/// A name that begins with no known device and with none of the network devices is not mapped.
pub proof fn unknown_device_is_not_mapped(pairs: Seq<MappingView>, name: Seq<char>)
    requires
        forall|k: int|
            0 <= k < pairs.len() ==> !(#[trigger] pairs[k]).device.is_prefix_of(
                text::lowercase(name),
            ),
        !"\\device\\lanmanredirector"@.is_prefix_of(text::lowercase(name)),
        !"\\device\\mup"@.is_prefix_of(text::lowercase(name)),
    ensures
        mapped(pairs, name) is None,
        cuttable(pairs, name),
{
    first_device_is_first(pairs, text::lowercase(name));
}

/// Texts one after the other, each closed by a zero unit.
pub open spec fn closed_by_zero(texts: Seq<Seq<char>>) -> Seq<u16>
    decreases texts.len(),
{
    if texts.len() == 0 {
        seq![]
    } else {
        wide::encode_utf16(texts[0]) + seq![0u16] + closed_by_zero(texts.drop_first())
    }
}

/// All drives of a list are read from it, in order, and nothing else is: what follows the last
/// zero is no drive.
pub proof fn listed_drives_are_read_back(drives: Seq<Seq<char>>, tail: Seq<u16>)
    requires
        forall|i: int| 0 <= i < drives.len() ==> !(#[trigger] drives[i]).contains('\0'),
        !tail.contains(0),
    ensures
        zero_closed(closed_by_zero(drives) + tail) == drives,
    decreases drives.len(),
{
    let all = closed_by_zero(drives) + tail;
    if drives.len() > 0 {
        let rest = drives.drop_first();
        let behind = closed_by_zero(rest) + tail;
        let one = wide::encode_utf16(drives[0]);
        assert forall|i: int| 0 <= i < rest.len() implies !(#[trigger] rest[i]).contains(
            '\0',
        ) by {
            assert(rest[i] == drives[i + 1]);
        }
        listed_drives_are_read_back(rest, tail);
        assert(all == one + seq![0u16] + behind);
        wide::units_before_nul(drives[0], behind);
        wide::decode_undoes_encode(drives[0]);
        assert(all.skip(one.len() as int + 1) == behind);
        assert(seq![drives[0]] + rest == drives);
    } else {
        assert(all == tail);
        without_zero_all_is_kept(tail);
    }
}

/// Where there is no zero unit, all units are taken.
proof fn without_zero_all_is_kept(units: Seq<u16>)
    requires
        !units.contains(0),
    ensures
        wide::before_nul(units) == units,
    decreases units.len(),
{
    if units.len() > 0 {
        let rest = units.drop_first();
        assert(units.contains(units[0]));
        assert forall|x: u16| rest.contains(x) implies units.contains(x) by {
            let k = choose|k: int| 0 <= k < rest.len() && rest[k] == x;
            assert(units[k + 1] == x);
        }
        without_zero_all_is_kept(rest);
        assert(seq![units[0]] + rest == units);
    }
}

} // verus!
