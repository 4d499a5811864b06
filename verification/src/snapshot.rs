//! The table of all open handles of the system, as one call of the system fills it.
use crate::text;
use vstd::prelude::*;
use vstd::string::*;

verus! {

/// System status: the call succeeded.
pub const STATUS_SUCCESS: u32 = 0;

/// System status: the buffer was too small.
pub const STATUS_INFO_LENGTH_MISMATCH: u32 = 0xc000_0004;

/// System status: the caller may not do this.
pub const STATUS_ACCESS_DENIED: u32 = 0xc000_0022;

/// Bytes in front of the first entry: the number of entries and a reserved word.
pub const HEADER_BYTES: u64 = 16;

/// Bytes of one entry.
pub const ENTRY_BYTES: u64 = 40;

/// Bytes of the first buffer.
pub const FIRST_BYTES: u64 = 0x100_0000;

/// How often the table is asked for at most.
pub const MAX_ATTEMPTS: u32 = 8;

/// One open handle.
#[derive(Clone, Copy, Debug)]
pub struct HandleEntryEx {
    pub object: u64,
    pub pid: u64,
    pub handle: u64,
    pub access: u32,
    pub back_trace_index: u16,
    pub type_index: u16,
    pub attributes: u32,
}

/// The handle table at one moment.
pub struct HandleSnapshot {
    storage: Vec<u64>,
    count: usize,
}

/// The entry that starts at word `at`: object, process and handle take a word each; access,
/// trace index and type index share one, from its low end; the attributes open the last.
pub open spec fn entry_at(words: Seq<u64>, at: int) -> HandleEntryEx {
    HandleEntryEx {
        object: words[at],
        pid: words[at + 1],
        handle: words[at + 2],
        access: (words[at + 3] % 0x1_0000_0000) as u32,
        back_trace_index: (words[at + 3] / 0x1_0000_0000 % 0x1_0000) as u16,
        type_index: (words[at + 3] / 0x1_0000_0000_0000) as u16,
        attributes: (words[at + 4] % 0x1_0000_0000) as u32,
    }
}

/// The first `count` entries behind the header.
pub open spec fn entries_in(words: Seq<u64>, count: nat) -> Seq<HandleEntryEx> {
    Seq::new(count, |i: int| entry_at(words, 2 + 5 * i))
}

/// Whether the words have room for the header and `count` entries.
pub open spec fn has_room(words: Seq<u64>, count: int) -> bool {
    HEADER_BYTES + count * ENTRY_BYTES <= words.len() * 8
}

impl HandleSnapshot {
    /// The storage has room for the entries.
    #[verifier::type_invariant]
    spec fn inv(self) -> bool {
        self.storage@.len() >= 2 + 5 * self.count
    }

    /// The entries. The reserved word of the header and the spare words behind the last entry
    /// are no part of them.
    pub closed spec fn table(self) -> Seq<HandleEntryEx> {
        entries_in(self.storage@, self.count as nat)
    }

    /// Number of entries.
    pub fn total(&self) -> (out: usize)
        ensures
            out == self.table().len(),
    {
        self.count
    }

    /// One entry.
    pub fn entry(&self, i: usize) -> (out: HandleEntryEx)
        requires
            i < self.table().len(),
        ensures
            out == self.table()[i as int],
    {
        proof {
            use_type_invariant(self);
        }
        assert(self.storage.len() >= 2 + 5 * self.count);
        let at: usize = 2 + 5 * i;
        let packed: u64 = self.storage[at + 3];
        HandleEntryEx {
            object: self.storage[at],
            pid: self.storage[at + 1],
            handle: self.storage[at + 2],
            access: (packed % 0x1_0000_0000) as u32,
            back_trace_index: (packed / 0x1_0000_0000 % 0x1_0000) as u16,
            type_index: (packed / 0x1_0000_0000_0000) as u16,
            attributes: (self.storage[at + 4] % 0x1_0000_0000) as u32,
        }
    }

    /// All entries, in order.
    pub fn entries(&self) -> (out: Vec<HandleEntryEx>)
        ensures
            out@ == self.table(),
    {
        let mut out: Vec<HandleEntryEx> = Vec::new();
        for i in 0..self.count
            invariant
                out@ == self.table().take(i as int),
        {
            out.push(self.entry(i));
        }
        out
    }
}

// ---------------------------------------------------------------------------------------
// Taking a snapshot
// ---------------------------------------------------------------------------------------

/// The attempts to take a snapshot: handles come and go while the system fills the buffer, so
/// its size is a guess that may have to be corrected.
#[derive(Debug, Clone, Copy)]
pub struct SnapshotPlan {
    /// Bytes of the next buffer.
    pub bytes: u64,
    /// Attempts that were made.
    pub attempt: u32,
}

/// What one attempt led to.
pub enum SnapshotStep {
    /// The snapshot.
    Taken(HandleSnapshot),
    /// Try again with a buffer of the new size.
    Again,
    /// Give up; the text says why.
    Failed(String),
}

/// `n` rounded up to a multiple of 64 KiB.
pub open spec fn rounded_up(n: int) -> int {
    (n + 0xffff) / 0x1_0000 * 0x1_0000
}

/// Bytes of the next buffer after a failed attempt with `bytes` bytes.
pub open spec fn next_bytes(bytes: u64, status: u32, first_word: u64, needed: u32) -> int {
    if status == STATUS_SUCCESS {
        HEADER_BYTES + first_word * ENTRY_BYTES + 0x1_0000
    } else {
        let doubled = bytes * 2;
        let asked = needed + 0x1_0000;
        rounded_up(
            if doubled >= asked {
                doubled
            } else {
                asked
            },
        )
    }
}

/// Whether the attempts go on after this status.
pub open spec fn retries(status: u32, words: Seq<u64>) -> bool {
    (status == STATUS_SUCCESS && !has_room(words, words[0] as int)) || status
        == STATUS_INFO_LENGTH_MISMATCH
}

/// Whether the next buffer size can be told in 64 bits.
pub open spec fn sizes_fit(bytes: u64, status: u32, words: Seq<u64>, needed: u32) -> bool {
    &&& status == STATUS_SUCCESS ==> HEADER_BYTES + words[0] * ENTRY_BYTES + 0x1_0000 <= u64::MAX
    &&& status == STATUS_INFO_LENGTH_MISMATCH ==> bytes * 2 + 0xffff <= u64::MAX
}

/// Eight hexadecimal digits.
pub open spec fn hex8(n: u32) -> Seq<char> {
    let short = text::digits(n as nat, 16);
    Seq::new((8 - short.len()) as nat, |i: int| '0') + short
}

/// Why the system did not fill the table.
pub open spec fn failure_text(status: u32) -> Seq<char> {
    "NtQuerySystemInformation 失败: NTSTATUS 0x"@ + hex8(status) + if status
        == STATUS_ACCESS_DENIED {
        "（拒绝访问，请尝试以管理员运行）"@
    } else {
        ""@
    }
}

/// A 32-bit number has at most eight hexadecimal digits.
pub proof fn hex_digits_are_few(n: nat, len: nat)
    requires
        n < pow16(len),
        len > 0,
    ensures
        text::digits(n, 16).len() <= len,
    decreases len,
{
    if n >= 16 {
        if len == 1 {
            assert(pow16(1) == 16 * pow16(0));
        } else {
            assert(n / 16 < pow16((len - 1) as nat));
            hex_digits_are_few(n / 16, (len - 1) as nat);
        }
    }
}

/// 16 to the power of `n`.
pub open spec fn pow16(n: nat) -> nat
    decreases n,
{
    if n == 0 {
        1
    } else {
        16 * pow16((n - 1) as nat)
    }
}

/// Appends eight hexadecimal digits.
fn push_hex8(out: &mut String, n: u32)
    ensures
        final(out)@ == old(out)@ + hex8(n),
{
    let mut short = String::new();
    text::push_digits(&mut short, n as u64, 16);
    proof {
        reveal_with_fuel(pow16, 9);
        hex_digits_are_few(n as nat, 8);
        assert(short@ == text::digits(n as nat, 16));
    }
    let len: usize = short.as_str().unicode_len();
    let ghost before = out@;
    assert(before + Seq::new(0, |k: int| '0') == before);
    for i in 0..8 - len
        invariant
            out@ == before + Seq::new(i as nat, |k: int| '0'),
    {
        out.push('0');
        assert(out@ == before + Seq::new((i + 1) as nat, |k: int| '0'));
    }
    out.append(short.as_str());
    assert(out@ == before + hex8(n));
}

impl SnapshotPlan {
    /// A plan with no attempt made: it starts large, so that most tables fit at once.
    pub fn new() -> (out: SnapshotPlan)
        ensures
            out.bytes == FIRST_BYTES,
            out.bytes == 16 * 1024 * 1024,
            out.attempt == 0,
    {
        SnapshotPlan { bytes: FIRST_BYTES, attempt: 0 }
    }

    /// Number of 64-bit words of the next buffer.
    pub fn words(&self) -> (out: u64)
        ensures
            out == self.bytes / 8,
    {
        self.bytes / 8
    }

    /// Whether the outcome of an attempt can be handled: the size of the next buffer fits into
    /// 64 bits.
    pub fn can_step(&self, status: u32, needed: u32, storage: &Vec<u64>) -> (yes: bool)
        requires
            storage@.len() > 0,
        ensures
            yes == sizes_fit(self.bytes, status, storage@, needed),
    {
        if status == STATUS_SUCCESS {
            let count: u64 = storage[0];
            assert(count * ENTRY_BYTES <= u64::MAX * ENTRY_BYTES);
            HEADER_BYTES as u128 + count as u128 * ENTRY_BYTES as u128 + 0x1_0000
                <= u64::MAX as u128
        } else if status == STATUS_INFO_LENGTH_MISMATCH {
            self.bytes as u128 * 2 + 0xffff <= u64::MAX as u128
        } else {
            true
        }
    }

    /// Judges one attempt: the system was handed `storage`, returned `status` and asked for
    /// `needed` bytes.
    pub fn step(&mut self, status: u32, needed: u32, storage: Vec<u64>) -> (out: SnapshotStep)
        requires
            storage@.len() > 0,
            old(self).attempt < MAX_ATTEMPTS,
            sizes_fit(old(self).bytes, status, storage@, needed),
        ensures
            !retries(status, storage@) ==> *final(self) == *old(self),
            retries(status, storage@) ==> {
                &&& final(self).attempt == old(self).attempt + 1
                &&& final(self).bytes == next_bytes(old(self).bytes, status, storage@[0], needed)
            },
            match out {
                SnapshotStep::Taken(s) => {
                    &&& status == STATUS_SUCCESS
                    &&& has_room(storage@, storage@[0] as int)
                    &&& s.table() == entries_in(storage@, storage@[0] as nat)
                },
                SnapshotStep::Again => retries(status, storage@) && old(self).attempt + 1
                    < MAX_ATTEMPTS,
                SnapshotStep::Failed(m) => if retries(status, storage@) {
                    old(self).attempt + 1 >= MAX_ATTEMPTS && m@
                        == "句柄表快照多次重试仍不稳定，请稍后重试"@
                } else {
                    status != STATUS_SUCCESS && m@ == failure_text(status)
                },
            },
            out is Taken <==> status == 0 && 16 + 40 * storage@[0] <= 8 * storage@.len(),
            out is Again <==> retries(status, storage@) && old(self).attempt < 7,
    {
        if status == STATUS_SUCCESS {
            let count: u64 = storage[0];
            let room: u128 = storage.len() as u128 * 8;
            if HEADER_BYTES as u128 + count as u128 * ENTRY_BYTES as u128 <= room {
                assert(storage.len() >= 2 + 5 * count);
                return SnapshotStep::Taken(HandleSnapshot { count: count as usize, storage });
            }
            self.bytes = HEADER_BYTES + count * ENTRY_BYTES + 0x1_0000;
        } else if status == STATUS_INFO_LENGTH_MISMATCH {
            let doubled: u64 = self.bytes * 2;
            let asked: u64 = needed as u64 + 0x1_0000;
            let want: u64 = if doubled >= asked {
                doubled
            } else {
                asked
            };
            self.bytes = (want + 0xffff) / 0x1_0000 * 0x1_0000;
        } else {
            let mut m = "NtQuerySystemInformation 失败: NTSTATUS 0x".to_owned();
            push_hex8(&mut m, status);
            if status == STATUS_ACCESS_DENIED {
                m.append("（拒绝访问，请尝试以管理员运行）");
            } else {
                m.append("");
            }
            return SnapshotStep::Failed(m);
        }
        self.attempt = self.attempt + 1;
        if self.attempt >= MAX_ATTEMPTS {
            return SnapshotStep::Failed(
                "句柄表快照多次重试仍不稳定，请稍后重试".to_owned(),
            );
        }
        SnapshotStep::Again
    }
}

// ---------------------------------------------------------------------------------------
// The type of file handles
// ---------------------------------------------------------------------------------------

/// The first entry of this process with this handle.
pub open spec fn find_handle(entries: Seq<HandleEntryEx>, pid: u64, handle: u64) -> Option<
    HandleEntryEx,
>
    decreases entries.len(),
{
    if entries.len() == 0 {
        None
    } else if entries[0].pid == pid && entries[0].handle == handle {
        Some(entries[0])
    } else {
        find_handle(entries.drop_first(), pid, handle)
    }
}

/// The type index of file handles, told by a handle that is known to be one: `handle` of the
/// process `pid`, opened before the snapshot was taken.
pub fn type_index_in(snap: &HandleSnapshot, pid: u64, handle: u64) -> (out: Result<u16, String>)
    ensures
        match find_handle(snap.table(), pid, handle) {
            Some(e) => out == Ok::<u16, String>(e.type_index),
            None => out matches Err(m) && m@ == "校准句柄未出现在快照中"@,
        },
{
    let n: usize = snap.total();
    assert(snap.table().skip(0) == snap.table());
    for i in 0..n
        invariant
            n == snap.table().len(),
            find_handle(snap.table().skip(i as int), pid, handle) == find_handle(
                snap.table(),
                pid,
                handle,
            ),
    {
        let e = snap.entry(i);
        assert(snap.table().skip(i as int)[0] == e);
        assert(snap.table().skip(i as int).drop_first() == snap.table().skip(i + 1));
        if e.pid == pid && e.handle == handle {
            return Ok(e.type_index);
        }
    }
    assert(snap.table().skip(n as int).len() == 0);
    Err("校准句柄未出现在快照中".to_owned())
}

// ---------------------------------------------------------------------------------------
// Laws
// ---------------------------------------------------------------------------------------

/// A retry always asks for a larger buffer.
pub proof fn retry_grows(bytes: u64, status: u32, words: Seq<u64>, needed: u32)
    requires
        words.len() == bytes / 8,
        words.len() > 0,
        retries(status, words),
    ensures
        next_bytes(bytes, status, words[0], needed) > bytes,
{
    if status != STATUS_SUCCESS {
        let doubled = bytes * 2;
        assert(rounded_up(doubled) >= doubled);
    }
}

/// The next buffer has room for what the system asked for, and 64 KiB more for handles that
/// come up meanwhile.
pub proof fn retry_meets_demand(bytes: u64, first_word: u64, needed: u32)
    ensures
        next_bytes(bytes, STATUS_INFO_LENGTH_MISMATCH, first_word, needed) >= needed + 0x1_0000,
        next_bytes(bytes, STATUS_SUCCESS, first_word, needed) >= HEADER_BYTES + first_word
            * ENTRY_BYTES + 0x1_0000,
{
}

/// The five words of an entry as the system lays them out: access, trace index and type index in
/// one word, the access lowest; the attributes below a spare half.
pub open spec fn entry_words(e: HandleEntryEx, spare: u32) -> Seq<u64> {
    seq![
        e.object,
        e.pid,
        e.handle,
        (e.access + e.back_trace_index * 0x1_0000_0000 + e.type_index * 0x1_0000_0000_0000) as u64,
        (e.attributes + spare * 0x1_0000_0000) as u64,
    ]
}

/// A table that the system wrote is read back entry by entry, from behind its two header words
/// on, and takes exactly five words for each.
pub proof fn table_is_read_back(words: Seq<u64>, entries: Seq<HandleEntryEx>, spare: Seq<u32>)
    requires
        words.len() >= 2 + 5 * entries.len(),
        forall|i: int|
            0 <= i < entries.len() ==> words.subrange(2 + 5 * i, 7 + 5 * i) == entry_words(
                #[trigger] entries[i],
                spare[i],
            ),
    ensures
        entries_in(words, entries.len()) == entries,
        forall|n: int| #[trigger] has_room(words, n) <==> words.len() >= 2 + 5 * n,
{
    let out = entries_in(words, entries.len());
    assert forall|i: int| 0 <= i < entries.len() implies out[i] == #[trigger] entries[i] by {
        let e = entries[i];
        let at = 2 + 5 * i;
        let part = words.subrange(at, at + 5);
        assert(part == entry_words(e, spare[i]));
        assert(part[0] == words[at] && part[1] == words[at + 1] && part[2] == words[at + 2]);
        assert(part[3] == words[at + 3] && part[4] == words[at + 4]);
        let low = e.access as int;
        let mid = e.back_trace_index as int;
        let high = e.type_index as int;
        let packed = low + mid * 0x1_0000_0000 + high * 0x1_0000_0000_0000;
        assert(packed / 0x1_0000_0000 == mid + high * 0x1_0000);
    }
    assert(out == entries);
}

/// The handle that tells the type is the first one of that process with that value, wherever in
/// the table it stands; it is missed only if there is none.
pub proof fn handle_is_found_by_process_and_value(
    entries: Seq<HandleEntryEx>,
    pid: u64,
    handle: u64,
)
    ensures
        match find_handle(entries, pid, handle) {
            Some(e) => exists|i: int|
                {
                    &&& 0 <= i < entries.len()
                    &&& #[trigger] entries[i] == e
                    &&& e.pid == pid && e.handle == handle
                    &&& forall|j: int|
                        0 <= j < i ==> (#[trigger] entries[j]).pid != pid || entries[j].handle
                            != handle
                },
            None => forall|j: int|
                0 <= j < entries.len() ==> (#[trigger] entries[j]).pid != pid || entries[j].handle
                    != handle,
        },
    decreases entries.len(),
{
    if entries.len() > 0 && !(entries[0].pid == pid && entries[0].handle == handle) {
        let rest = entries.drop_first();
        handle_is_found_by_process_and_value(rest, pid, handle);
        assert forall|j: int| 0 < j < entries.len() implies rest[j - 1] == #[trigger] entries[j] by {
        }
        if let Some(e) = find_handle(rest, pid, handle) {
            let i = choose|i: int|
                {
                    &&& 0 <= i < rest.len()
                    &&& #[trigger] rest[i] == e
                    &&& forall|j: int|
                        0 <= j < i ==> (#[trigger] rest[j]).pid != pid || rest[j].handle != handle
                };
            assert(entries[i + 1] == e);
            assert forall|j: int| 0 <= j < i + 1 implies (#[trigger] entries[j]).pid != pid
                || entries[j].handle != handle by {
                if j > 0 {
                    assert(rest[j - 1] == entries[j]);
                }
            }
        }
    }
}

/// An attempt is repeated if the system says that the buffer is too small, or if the table that
/// it wrote does not fit into the buffer; after any other answer it is not.
pub proof fn only_small_buffers_are_retried(status: u32, words: Seq<u64>)
    ensures
        retries(status, words) <==> status == 0xc000_0004 || (status == 0 && 16 + 40 * words[0] > 8
            * words.len()),
{
}

/// A buffer that was too small gives way to one at least twice as large, with room for what the
/// system asked for and 64 KiB more, in whole portions of 64 KiB and none more than it takes; a
/// table that did not fit gives way to one with room for it and 64 KiB more.
pub proof fn next_buffer_is_as_large_as_needed(bytes: u64, first_word: u64, needed: u32)
    ensures
        ({
            let next = next_bytes(bytes, 0xc000_0004, first_word, needed);
            &&& next % 0x1_0000 == 0
            &&& next >= 2 * bytes && next >= needed + 0x1_0000
            &&& next - 0x1_0000 < 2 * bytes || next - 0x1_0000 < needed + 0x1_0000
        }),
        next_bytes(bytes, 0, first_word, needed) == 16 + 40 * first_word + 0x1_0000,
{
}

/// A status is shown in eight hexadecimal digits that can be read back.
pub proof fn status_is_shown_in_hexadecimal(status: u32)
    ensures
        hex8(status).len() == 8,
        text::value_of(hex8(status), 16) == status,
{
    reveal_with_fuel(pow16, 9);
    hex_digits_are_few(status as nat, 8);
    text::written_number_is_read_back(status as nat, 16);
    let short = text::digits(status as nat, 16);
    zeros_in_front_count_nothing((8 - short.len()) as nat, short);
}

/// Zeros in front of a number leave its value as it is.
proof fn zeros_in_front_count_nothing(n: nat, s: Seq<char>)
    ensures
        text::value_of(Seq::new(n, |i: int| '0') + s, 16) == text::value_of(s, 16),
    decreases n + s.len(),
{
    let zeros = Seq::new(n, |i: int| '0');
    let all = zeros + s;
    if s.len() > 0 {
        assert(all.drop_last() == zeros + s.drop_last());
        zeros_in_front_count_nothing(n, s.drop_last());
    } else if n > 0 {
        let fewer = Seq::new((n - 1) as nat, |i: int| '0');
        assert(all.drop_last() == fewer + s);
        zeros_in_front_count_nothing((n - 1) as nat, s);
    } else {
        assert(all == s);
    }
}

/// A failure is reported with the status; a hint is added only where access was denied.
pub proof fn failure_tells_the_status(status: u32)
    ensures
        failure_text(status) == "NtQuerySystemInformation 失败: NTSTATUS 0x"@ + hex8(status)
            + if status == 0xc000_0022 {
            "（拒绝访问，请尝试以管理员运行）"@
        } else {
            ""@
        },
{
}

/// Every attempt can be judged as long as the numbers in it are not astronomical: a buffer of
/// less than 2^62 bytes and a table of less than 2^58 entries.
pub proof fn ordinary_attempts_can_be_judged(bytes: u64, status: u32, words: Seq<u64>, needed: u32)
    requires
        bytes < 0x4000_0000_0000_0000,
        words[0] < 0x400_0000_0000_0000,
    ensures
        sizes_fit(bytes, status, words, needed),
{
}

} // verus!
