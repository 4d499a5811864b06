//! The byte formats of the change journal: read requests, replies and records.
use crate::wide;
use vstd::prelude::*;

verus! {

/// State of the change journal of a volume.
#[derive(Debug, Clone, Copy)]
pub struct JournalInfo {
    /// Identity of the journal.
    pub journal_id: u64,
    /// Position of the oldest record.
    pub first_usn: i64,
    /// Position that the next record will get.
    pub next_usn: i64,
    /// Smallest position that can still be read.
    pub lowest_valid_usn: i64,
}

/// One journal record.
pub struct UsnRecord {
    /// Reference number of the file or directory.
    pub file_ref: u64,
    /// Reference number of its directory.
    pub parent_ref: u64,
    /// What happened, one bit for each kind of change.
    pub reason: u32,
    /// File attributes.
    pub file_attrs: u32,
    /// Name within the directory.
    pub name: String,
}

/// What a [`UsnRecord`] stands for.
#[verifier::ext_equal]
pub struct RecordView {
    pub file_ref: u64,
    pub parent_ref: u64,
    pub reason: u32,
    pub file_attrs: u32,
    pub name: Seq<char>,
}

impl View for UsnRecord {
    type V = RecordView;

    open spec fn view(&self) -> RecordView {
        RecordView {
            file_ref: self.file_ref,
            parent_ref: self.parent_ref,
            reason: self.reason,
            file_attrs: self.file_attrs,
            name: self.name@,
        }
    }
}

/// The records that a sequence of [`UsnRecord`] stands for.
pub open spec fn records_view(records: Seq<UsnRecord>) -> Seq<RecordView> {
    records.map_values(|r: UsnRecord| r@)
}

// ---------------------------------------------------------------------------------------
// Little-endian numbers
// ---------------------------------------------------------------------------------------

/// The number that `count` bytes at `at` stand for, least significant byte first.
pub open spec fn le(s: Seq<u8>, at: int, count: nat) -> nat
    decreases count,
{
    if count == 0 {
        0
    } else {
        s[at] as nat + 256 * le(s, at + 1, (count - 1) as nat)
    }
}

/// The lowest `count` bytes of `n`, least significant byte first.
pub open spec fn le_bytes(n: nat, count: nat) -> Seq<u8>
    decreases count,
{
    if count == 0 {
        seq![]
    } else {
        seq![(n % 256) as u8] + le_bytes(n / 256, (count - 1) as nat)
    }
}

/// 256 to the power of `count`.
pub open spec fn byte_range(count: nat) -> nat
    decreases count,
{
    if count == 0 {
        1
    } else {
        256 * byte_range((count - 1) as nat)
    }
}

/// The two's-complement reading of an unsigned 64-bit number.
pub open spec fn signed(n: nat) -> int {
    if n < 0x8000_0000_0000_0000 {
        n as int
    } else {
        n - 0x1_0000_0000_0000_0000
    }
}

/// The two's-complement writing of a signed 64-bit number.
pub open spec fn unsigned(n: i64) -> nat {
    if n >= 0 {
        n as nat
    } else {
        (n + 0x1_0000_0000_0000_0000) as nat
    }
}

/// There are `count` lowest bytes.
pub proof fn le_bytes_len(n: nat, count: nat)
    ensures
        le_bytes(n, count).len() == count,
    decreases count,
{
    if count > 0 {
        le_bytes_len(n / 256, (count - 1) as nat);
    }
}

/// Reading back the bytes of a number gives the number, wherever they stand.
pub proof fn le_undoes_le_bytes(n: nat, count: nat, before: Seq<u8>, after: Seq<u8>)
    requires
        n < byte_range(count),
    ensures
        le(before + le_bytes(n, count) + after, before.len() as int, count) == n,
    decreases count,
{
    let all = before + le_bytes(n, count) + after;
    if count > 0 {
        let rest = (count - 1) as nat;
        le_bytes_len(n, count);
        assert(byte_range(count) == 256 * byte_range(rest));
        assert(n / 256 < byte_range(rest));
        let next = before.push((n % 256) as u8);
        le_undoes_le_bytes(n / 256, rest, next, after);
        assert(next + le_bytes(n / 256, rest) + after == all);
        assert(all[before.len() as int] == (n % 256) as u8);
    }
}

/// The 16-bit number at `at`.
fn le_u16(s: &[u8], at: usize) -> (n: u16)
    requires
        at + 2 <= s.len(),
    ensures
        n == le(s@, at as int, 2),
{
    proof {
        reveal_with_fuel(le, 3);
    }
    s[at] as u16 + 256 * (s[at + 1] as u16)
}

/// The 32-bit number at `at`.
fn le_u32(s: &[u8], at: usize) -> (n: u32)
    requires
        at + 4 <= s.len(),
    ensures
        n == le(s@, at as int, 4),
{
    proof {
        reveal_with_fuel(le, 5);
    }
    s[at] as u32 + 256 * (s[at + 1] as u32 + 256 * (s[at + 2] as u32 + 256 * (s[at + 3] as u32)))
}

/// The 64-bit number at `at`.
fn le_u64(s: &[u8], at: usize) -> (n: u64)
    requires
        at + 8 <= s.len(),
    ensures
        n == le(s@, at as int, 8),
{
    let low: u32 = le_u32(s, at);
    let high: u32 = le_u32(s, at + 4);
    proof {
        reveal_with_fuel(le, 9);
    }
    low as u64 + 0x1_0000_0000 * (high as u64)
}

/// The signed 64-bit number at `at`.
fn le_i64(s: &[u8], at: usize) -> (n: i64)
    requires
        at + 8 <= s.len(),
    ensures
        n == signed(le(s@, at as int, 8)),
{
    let u: u64 = le_u64(s, at);
    if u < 0x8000_0000_0000_0000 {
        u as i64
    } else {
        -((u64::MAX - u) as i64) - 1
    }
}

/// Appends the lowest `count` bytes of `n`.
fn push_le(out: &mut Vec<u8>, n: u64, count: usize)
    ensures
        final(out)@ == old(out)@ + le_bytes(n as nat, count as nat),
    decreases count,
{
    if count > 0 {
        out.push((n % 256) as u8);
        push_le(out, n / 256, count - 1);
        assert(out@ == old(out)@ + le_bytes(n as nat, count as nat));
    } else {
        assert(out@ == old(out)@ + le_bytes(n as nat, count as nat));
    }
}

// ---------------------------------------------------------------------------------------
// Read requests and replies
// ---------------------------------------------------------------------------------------

/// The request to read all kinds of records from `start_usn` on, without waiting: start
/// position, reason mask, return-on-close flag, timeout, bytes to wait for, journal identity.
/// The identity lets the driver notice that the journal has been created anew.
pub open spec fn read_input(start_usn: i64, journal_id: u64) -> Seq<u8> {
    le_bytes(unsigned(start_usn), 8) + le_bytes(0xffff_ffff, 4) + le_bytes(0, 4) + le_bytes(0, 8)
        + le_bytes(0, 8) + le_bytes(journal_id as nat, 8)
}

/// The 40 bytes of a read request.
pub fn build_read_input(start_usn: i64, journal_id: u64) -> (out: [u8; 40])
    ensures
        out@ == read_input(start_usn, journal_id),
{
    let start: u64 = if start_usn >= 0 {
        start_usn as u64
    } else {
        u64::MAX - ((-(start_usn + 1)) as u64)
    };
    let mut b: Vec<u8> = Vec::new();
    push_le(&mut b, start, 8);
    push_le(&mut b, 0xffff_ffff, 4);
    push_le(&mut b, 0, 4);
    push_le(&mut b, 0, 8);
    push_le(&mut b, 0, 8);
    push_le(&mut b, journal_id, 8);
    proof {
        le_bytes_len(unsigned(start_usn), 8);
        le_bytes_len(0xffff_ffff, 4);
        le_bytes_len(0, 4);
        le_bytes_len(0, 8);
        le_bytes_len(journal_id as nat, 8);
    }
    assert(b@ == read_input(start_usn, journal_id));
    let out: [u8; 40] = [
        b[0],
        b[1],
        b[2],
        b[3],
        b[4],
        b[5],
        b[6],
        b[7],
        b[8],
        b[9],
        b[10],
        b[11],
        b[12],
        b[13],
        b[14],
        b[15],
        b[16],
        b[17],
        b[18],
        b[19],
        b[20],
        b[21],
        b[22],
        b[23],
        b[24],
        b[25],
        b[26],
        b[27],
        b[28],
        b[29],
        b[30],
        b[31],
        b[32],
        b[33],
        b[34],
        b[35],
        b[36],
        b[37],
        b[38],
        b[39],
    ];
    assert(out@ == b@);
    out
}

/// A read request states the position and the journal it was built from, and asks for all kinds
/// of records without waiting.
pub proof fn read_input_states_its_arguments(start_usn: i64, journal_id: u64)
    ensures
        read_input(start_usn, journal_id).len() == 40,
        le(read_input(start_usn, journal_id), 8, 4) == 0xffff_ffff,
        le(read_input(start_usn, journal_id), 12, 4) == 0,
        le(read_input(start_usn, journal_id), 16, 8) == 0,
        le(read_input(start_usn, journal_id), 24, 8) == 0,
        signed(le(read_input(start_usn, journal_id), 0, 8)) == start_usn,
        le(read_input(start_usn, journal_id), 32, 8) == journal_id,
{
    let all = read_input(start_usn, journal_id);
    let start = le_bytes(unsigned(start_usn), 8);
    let middle = le_bytes(0xffff_ffff, 4) + le_bytes(0, 4) + le_bytes(0, 8) + le_bytes(0, 8);
    let id = le_bytes(journal_id as nat, 8);
    le_bytes_len(unsigned(start_usn), 8);
    le_bytes_len(0xffff_ffff, 4);
    le_bytes_len(0, 4);
    le_bytes_len(0, 8);
    le_bytes_len(journal_id as nat, 8);
    reveal_with_fuel(byte_range, 9);
    assert(byte_range(8) == 0x1_0000_0000_0000_0000);
    le_undoes_le_bytes(unsigned(start_usn), 8, seq![], middle + id);
    assert(seq![] + start + (middle + id) == all);
    le_undoes_le_bytes(journal_id as nat, 8, start + middle, seq![]);
    assert(start + middle + id + seq![] == all);
    let m0 = le_bytes(0xffff_ffff, 4);
    let m1 = le_bytes(0, 4);
    let m2 = le_bytes(0, 8);
    assert(byte_range(4) == 0x1_0000_0000);
    le_undoes_le_bytes(0xffff_ffff, 4, start, m1 + m2 + m2 + id);
    assert(start + m0 + (m1 + m2 + m2 + id) == all);
    le_undoes_le_bytes(0, 4, start + m0, m2 + m2 + id);
    assert(start + m0 + m1 + (m2 + m2 + id) == all);
    le_undoes_le_bytes(0, 8, start + m0 + m1, m2 + id);
    assert(start + m0 + m1 + m2 + (m2 + id) == all);
    le_undoes_le_bytes(0, 8, start + m0 + m1 + m2, id);
    assert(start + m0 + m1 + m2 + m2 + id == all);
}

/// Bytes that a reply on the state of a journal has at least.
pub const JOURNAL_REPLY_LEN: usize = 56;

/// The journal state in a reply: identity, first position, next position, lowest valid
/// position; `None` if the reply is too short.
pub fn parse_journal_info(reply: &[u8]) -> (out: Option<JournalInfo>)
    ensures
        out is Some <==> reply@.len() >= JOURNAL_REPLY_LEN,
        out is Some <==> reply@.len() >= 56,
        out matches Some(info) ==> {
            &&& info.journal_id == le(reply@, 0, 8)
            &&& info.first_usn == signed(le(reply@, 8, 8))
            &&& info.next_usn == signed(le(reply@, 16, 8))
            &&& info.lowest_valid_usn == signed(le(reply@, 24, 8))
        },
{
    if reply.len() < JOURNAL_REPLY_LEN {
        return None;
    }
    Some(
        JournalInfo {
            journal_id: le_u64(reply, 0),
            first_usn: le_i64(reply, 8),
            next_usn: le_i64(reply, 16),
            lowest_valid_usn: le_i64(reply, 24),
        },
    )
}

// ---------------------------------------------------------------------------------------
// Records
// ---------------------------------------------------------------------------------------

/// The 16-bit units in the `len` bytes at `at`; an odd last byte is left out.
pub open spec fn units_at(buf: Seq<u8>, at: int, len: nat) -> Seq<u16> {
    Seq::new(len / 2, |i: int| le(buf, at + 2 * i, 2) as u16)
}

/// Whether a complete record starts at `off`: its length is at least that of the fixed fields
/// and within the buffer, and its name lies behind the fixed fields and within the record.
pub open spec fn record_at(buf: Seq<u8>, off: int) -> bool {
    &&& off + 60 <= buf.len()
    &&& 60 <= le(buf, off, 4)
    &&& off + le(buf, off, 4) <= buf.len()
    &&& 60 <= le(buf, off + 58, 2)
    &&& le(buf, off + 58, 2) + le(buf, off + 56, 2) <= le(buf, off, 4)
}

/// The record that starts at `off`.
pub open spec fn record_of(buf: Seq<u8>, off: int) -> RecordView {
    RecordView {
        file_ref: le(buf, off + 8, 8) as u64,
        parent_ref: le(buf, off + 16, 8) as u64,
        reason: le(buf, off + 40, 4) as u32,
        file_attrs: le(buf, off + 52, 4) as u32,
        name: wide::decode_utf16(
            units_at(buf, off + le(buf, off + 58, 2), le(buf, off + 56, 2)),
        ),
    }
}

/// The records from `off` on, up to the first that is not complete.
pub open spec fn records_from(buf: Seq<u8>, off: int) -> Seq<RecordView>
    decreases buf.len() - off,
{
    if record_at(buf, off) {
        seq![record_of(buf, off)] + records_from(buf, off + le(buf, off, 4))
    } else {
        seq![]
    }
}

/// The units in the `len` bytes at `at`.
fn read_units(buf: &[u8], at: usize, len: usize) -> (out: Vec<u16>)
    requires
        at + len <= buf@.len(),
    ensures
        out@ == units_at(buf@, at as int, len as nat),
{
    let mut out: Vec<u16> = Vec::new();
    let buf_len: usize = buf.len();
    for i in 0..len / 2
        invariant
            buf_len == buf@.len(),
            at + len <= buf_len,
            out@ == units_at(buf@, at as int, len as nat).take(i as int),
    {
        out.push(le_u16(buf, at + 2 * i));
    }
    out
}

/// All records of a reply, behind the position that its first 8 bytes hold.
pub fn parse_records(buf: &[u8]) -> (out: Vec<UsnRecord>)
    ensures
        records_view(out@) == records_from(buf@, 8),
{
    let mut out: Vec<UsnRecord> = Vec::new();
    let mut off: usize = 8;
    let len: usize = buf.len();
    if len < 8 {
        return out;
    }
    while len - off >= 60
        invariant
            8 <= off <= len,
            len == buf@.len(),
            records_view(out@) + records_from(buf@, off as int) == records_from(buf@, 8),
        ensures
            !record_at(buf@, off as int),
        decreases len - off,
    {
        let rec_len: usize = le_u32(buf, off) as usize;
        if rec_len < 60 || rec_len > len - off {
            break ;
        }
        let name_len: usize = le_u16(buf, off + 56) as usize;
        let name_off: usize = le_u16(buf, off + 58) as usize;
        if name_off < 60 || name_off + name_len > rec_len {
            break ;
        }
        let name_units = read_units(buf, off + name_off, name_len);
        let ghost before = out@;
        let record = UsnRecord {
            file_ref: le_u64(buf, off + 8),
            parent_ref: le_u64(buf, off + 16),
            reason: le_u32(buf, off + 40),
            file_attrs: le_u32(buf, off + 52),
            name: wide::from_utf16_lossy(name_units.as_slice()),
        };
        assert(record@ == record_of(buf@, off as int));
        out.push(record);
        assert(records_view(out@) == records_view(before).push(record@));
        assert(records_view(before) + (seq![record@] + records_from(buf@, off + rec_len))
            == records_view(out@) + records_from(buf@, off + rec_len));
        off = off + rec_len;
    }
    out
}

/// The position to read from after a reply: the one that the reply holds, unless that does not
/// advance.
pub open spec fn cursor_after(cursor: i64, reply: Seq<u8>) -> i64 {
    let next = signed(le(reply, 0, 8));
    if reply.len() >= 8 && next > cursor {
        next as i64
    } else {
        cursor
    }
}

/// All records after a reply.
pub open spec fn records_after(records: Seq<RecordView>, reply: Seq<u8>) -> Seq<RecordView> {
    if reply.len() >= 8 {
        records + records_from(reply, 8)
    } else {
        records
    }
}

/// What has been read from a journal so far.
pub struct JournalReader {
    /// Position to read from next.
    pub cursor: i64,
    /// Records read, oldest first.
    pub records: Vec<UsnRecord>,
}

impl JournalReader {
    /// A reader that starts at `start_usn`.
    pub fn new(start_usn: i64) -> (out: JournalReader)
        ensures
            out.cursor == start_usn,
            out.records@ == Seq::<UsnRecord>::empty(),
    {
        JournalReader { cursor: start_usn, records: Vec::new() }
    }

    /// Takes in one reply and says whether to read on. Reading ends with a reply that is too
    /// short for a position, that holds no record, or whose position does not advance; the
    /// cursor never goes back.
    pub fn accept(&mut self, reply: &[u8]) -> (more: bool)
        ensures
            final(self).cursor >= old(self).cursor,
            final(self).cursor == cursor_after(old(self).cursor, reply@),
            records_view(final(self).records@) == records_after(
                records_view(old(self).records@),
                reply@,
            ),
            more <==> reply@.len() >= 8 && records_from(reply@, 8).len() > 0 && signed(
                le(reply@, 0, 8),
            ) > old(self).cursor,
    {
        if reply.len() < 8 {
            return false;
        }
        let ghost before = self.records@;
        let next: i64 = le_i64(reply, 0);
        let mut records = parse_records(reply);
        let got = records.len() > 0;
        let ghost added = records@;
        self.records.append(&mut records);
        assert(records_view(self.records@) == records_view(before) + records_view(added));
        let advances = next > self.cursor;
        if advances {
            self.cursor = next;
        }
        got && advances
    }
}

// ---------------------------------------------------------------------------------------
// Laws
// ---------------------------------------------------------------------------------------

/// The bytes of 16-bit units, the low byte of each first.
pub open spec fn unit_bytes(units: Seq<u16>) -> Seq<u8> {
    Seq::new(
        2 * units.len(),
        |i: int|
            if i % 2 == 0 {
                (units[i / 2] % 256) as u8
            } else {
                (units[i / 2] / 256) as u8
            },
    )
}

/// What a record holds that the index does not use.
pub struct RecordRest {
    pub version: nat,
    pub usn: nat,
    pub time: nat,
    pub source: nat,
    pub security: nat,
    /// What stands between the fixed fields and the name.
    pub gap: Seq<u8>,
    /// What stands behind the name.
    pub padding: Seq<u8>,
}

/// Number of bytes of a record.
pub open spec fn record_len(rec: RecordView, more: RecordRest) -> nat {
    60 + more.gap.len() + unit_bytes(wide::encode_utf16(rec.name)).len() + more.padding.len()
}

/// The fields in front of the reason: length, version, reference numbers, position, time.
pub open spec fn record_head(rec: RecordView, more: RecordRest) -> Seq<u8> {
    le_bytes(record_len(rec, more), 4) + le_bytes(more.version, 4) + le_bytes(
        rec.file_ref as nat,
        8,
    ) + le_bytes(rec.parent_ref as nat, 8) + le_bytes(more.usn, 8) + le_bytes(more.time, 8)
}

/// The fields from the reason on: reason, source, security, attributes, length and place of the
/// name.
pub open spec fn record_tail(rec: RecordView, more: RecordRest) -> Seq<u8> {
    le_bytes(rec.reason as nat, 4) + le_bytes(more.source, 4) + le_bytes(more.security, 4)
        + le_bytes(rec.file_attrs as nat, 4) + le_bytes(
        unit_bytes(wide::encode_utf16(rec.name)).len(),
        2,
    ) + le_bytes(60 + more.gap.len(), 2)
}

/// A record as the system lays it out, with its name where the last of the fixed fields says.
#[verifier::opaque]
pub open spec fn record_bytes(rec: RecordView, more: RecordRest) -> Seq<u8> {
    record_head(rec, more) + record_tail(rec, more) + more.gap + unit_bytes(
        wide::encode_utf16(rec.name),
    ) + more.padding
}

/// Whether the lengths of a record fit into their fields.
pub open spec fn lengths_fit(rec: RecordView, more: RecordRest) -> bool {
    &&& unit_bytes(wide::encode_utf16(rec.name)).len() < 0x1_0000
    &&& 60 + more.gap.len() < 0x1_0000
    &&& record_len(rec, more) < 0x1_0000_0000
}

/// A field can be read wherever it stands.
proof fn field_is_read(buf: Seq<u8>, before: Seq<u8>, n: nat, count: nat, after: Seq<u8>, at: int)
    requires
        n < byte_range(count),
        buf == before + le_bytes(n, count) + after,
        at == before.len(),
    ensures
        le(buf, at, count) == n,
{
    le_undoes_le_bytes(n, count, before, after);
}

/// The fixed fields have the lengths that the layout gives them.
proof fn record_lengths(rec: RecordView, more: RecordRest)
    ensures
        record_head(rec, more).len() == 40,
        record_tail(rec, more).len() == 20,
        record_bytes(rec, more).len() == record_len(rec, more),
{
    reveal(record_bytes);
    le_bytes_len(record_len(rec, more), 4);
    le_bytes_len(more.version, 4);
    le_bytes_len(rec.file_ref as nat, 8);
    le_bytes_len(rec.parent_ref as nat, 8);
    le_bytes_len(more.usn, 8);
    le_bytes_len(more.time, 8);
    le_bytes_len(rec.reason as nat, 4);
    le_bytes_len(more.source, 4);
    le_bytes_len(more.security, 4);
    le_bytes_len(rec.file_attrs as nat, 4);
    le_bytes_len(unit_bytes(wide::encode_utf16(rec.name)).len(), 2);
    le_bytes_len(60 + more.gap.len(), 2);
}

/// The numbers that fit into two, four and eight bytes.
proof fn byte_ranges()
    ensures
        byte_range(2) == 0x1_0000,
        byte_range(4) == 0x1_0000_0000,
        byte_range(8) == 0x1_0000_0000_0000_0000,
{
    reveal_with_fuel(byte_range, 9);
}

/// The fields in front of the reason are read back.
proof fn head_is_read_back(front: Seq<u8>, rec: RecordView, more: RecordRest, after: Seq<u8>)
    requires
        record_len(rec, more) < 0x1_0000_0000,
    ensures
        ({
            let buf = front + record_head(rec, more) + after;
            let off = front.len() as int;
            &&& le(buf, off, 4) == record_len(rec, more)
            &&& le(buf, off + 8, 8) == rec.file_ref
            &&& le(buf, off + 16, 8) == rec.parent_ref
        }),
{
    let buf = front + record_head(rec, more) + after;
    let off = front.len() as int;
    let f0 = le_bytes(record_len(rec, more), 4);
    let f1 = le_bytes(more.version, 4);
    let f2 = le_bytes(rec.file_ref as nat, 8);
    let f3 = le_bytes(rec.parent_ref as nat, 8);
    let f4 = le_bytes(more.usn, 8);
    let f5 = le_bytes(more.time, 8);
    le_bytes_len(record_len(rec, more), 4);
    le_bytes_len(more.version, 4);
    le_bytes_len(rec.file_ref as nat, 8);
    le_bytes_len(rec.parent_ref as nat, 8);
    byte_ranges();
    assert(buf =~= front + f0 + (f1 + f2 + f3 + f4 + f5 + after));
    field_is_read(buf, front, record_len(rec, more), 4, f1 + f2 + f3 + f4 + f5 + after, off);
    assert(buf =~= (front + f0 + f1) + f2 + (f3 + f4 + f5 + after));
    field_is_read(
        buf,
        front + f0 + f1,
        rec.file_ref as nat,
        8,
        f3 + f4 + f5 + after,
        off + 8,
    );
    assert(buf =~= (front + f0 + f1 + f2) + f3 + (f4 + f5 + after));
    field_is_read(
        buf,
        front + f0 + f1 + f2,
        rec.parent_ref as nat,
        8,
        f4 + f5 + after,
        off + 16,
    );
}

/// The fields from the reason on are read back.
proof fn tail_is_read_back(front: Seq<u8>, rec: RecordView, more: RecordRest, after: Seq<u8>)
    requires
        lengths_fit(rec, more),
    ensures
        ({
            let buf = front + record_tail(rec, more) + after;
            let off = front.len() as int;
            &&& le(buf, off, 4) == rec.reason
            &&& le(buf, off + 12, 4) == rec.file_attrs
            &&& le(buf, off + 16, 2) == unit_bytes(wide::encode_utf16(rec.name)).len()
            &&& le(buf, off + 18, 2) == 60 + more.gap.len()
        }),
{
    let buf = front + record_tail(rec, more) + after;
    let off = front.len() as int;
    let n = unit_bytes(wide::encode_utf16(rec.name)).len();
    let f0 = le_bytes(rec.reason as nat, 4);
    let f1 = le_bytes(more.source, 4);
    let f2 = le_bytes(more.security, 4);
    let f3 = le_bytes(rec.file_attrs as nat, 4);
    let f4 = le_bytes(n, 2);
    let start: nat = 60 + more.gap.len();
    let f5 = le_bytes(start, 2);
    le_bytes_len(rec.reason as nat, 4);
    le_bytes_len(more.source, 4);
    le_bytes_len(more.security, 4);
    le_bytes_len(rec.file_attrs as nat, 4);
    le_bytes_len(n, 2);
    le_bytes_len(start, 2);
    byte_ranges();
    assert(buf =~= front + f0 + (f1 + f2 + f3 + f4 + f5 + after));
    field_is_read(buf, front, rec.reason as nat, 4, f1 + f2 + f3 + f4 + f5 + after, off);
    assert(buf =~= (front + f0 + f1 + f2) + f3 + (f4 + f5 + after));
    field_is_read(
        buf,
        front + f0 + f1 + f2,
        rec.file_attrs as nat,
        4,
        f4 + f5 + after,
        off + 12,
    );
    assert(buf =~= (front + f0 + f1 + f2 + f3) + f4 + (f5 + after));
    field_is_read(buf, front + f0 + f1 + f2 + f3, n, 2, f5 + after, off + 16);
    assert(buf =~= (front + f0 + f1 + f2 + f3 + f4) + f5 + after);
    field_is_read(buf, front + f0 + f1 + f2 + f3 + f4, start, 2, after, off + 18);
}

/// Units are read back from their bytes.
proof fn units_are_read_back(front: Seq<u8>, units: Seq<u16>, after: Seq<u8>)
    ensures
        units_at(
            front + unit_bytes(units) + after,
            front.len() as int,
            unit_bytes(units).len(),
        ) == units,
{
    let buf = front + unit_bytes(units) + after;
    let at = front.len() as int;
    let out = units_at(buf, at, unit_bytes(units).len());
    reveal_with_fuel(le, 3);
    assert forall|i: int| 0 <= i < units.len() implies out[i] == units[i] by {
        assert(buf[at + 2 * i] == unit_bytes(units)[2 * i]);
        assert(buf[at + 2 * i + 1] == unit_bytes(units)[2 * i + 1]);
        assert((2 * i) % 2 == 0 && (2 * i) / 2 == i);
        assert((2 * i + 1) % 2 == 1 && (2 * i + 1) / 2 == i);
    }
    assert(out == units);
}

/// A record that the system wrote is read back with its reference numbers, reason, attributes
/// and name, wherever in a reply it stands and whatever follows it; the next record is looked
/// for right behind it.
pub proof fn record_is_read_back(
    front: Seq<u8>,
    rec: RecordView,
    more: RecordRest,
    after: Seq<u8>,
)
    requires
        lengths_fit(rec, more),
    ensures
        ({
            let buf = front + record_bytes(rec, more) + after;
            records_from(buf, front.len() as int) == seq![rec] + records_from(
                buf,
                (front.len() + record_bytes(rec, more).len()) as int,
            )
        }),
{
    let buf = front + record_bytes(rec, more) + after;
    let off = front.len() as int;
    let head = record_head(rec, more);
    let tail = record_tail(rec, more);
    let units = wide::encode_utf16(rec.name);
    let name = unit_bytes(units);
    reveal(record_bytes);
    record_lengths(rec, more);
    let gap = more.gap;
    assert(buf =~= front + head + (tail + gap + name + more.padding + after));
    head_is_read_back(front, rec, more, tail + gap + name + more.padding + after);
    assert(buf =~= (front + head) + tail + (gap + name + more.padding + after));
    tail_is_read_back(front + head, rec, more, gap + name + more.padding + after);
    assert(buf =~= (front + head + tail + gap) + name + (more.padding + after));
    units_are_read_back(front + head + tail + gap, units, more.padding + after);
    wide::decode_undoes_encode(rec.name);
    assert((front + head + tail + gap).len() == off + 60 + gap.len());
    assert(record_at(buf, off));
    assert(record_of(buf, off) == rec);
}

/// The bytes of several records one after the other.
pub open spec fn all_record_bytes(records: Seq<(RecordView, RecordRest)>) -> Seq<u8>
    decreases records.len(),
{
    if records.len() == 0 {
        seq![]
    } else {
        record_bytes(records[0].0, records[0].1) + all_record_bytes(records.drop_first())
    }
}

/// All records of a reply are read back, in order and none of them left out, behind the eight
/// bytes of the position.
pub proof fn records_are_read_back(front: Seq<u8>, records: Seq<(RecordView, RecordRest)>)
    requires
        forall|i: int|
            0 <= i < records.len() ==> lengths_fit((#[trigger] records[i]).0, records[i].1),
    ensures
        records_from(front + all_record_bytes(records), front.len() as int) == records.map_values(
            |r: (RecordView, RecordRest)| r.0,
        ),
    decreases records.len(),
{
    let buf = front + all_record_bytes(records);
    let pick = |r: (RecordView, RecordRest)| r.0;
    if records.len() > 0 {
        let (rec, more) = records[0];
        let rest = records.drop_first();
        assert(lengths_fit(records[0].0, records[0].1));
        record_is_read_back(front, rec, more, all_record_bytes(rest));
        assert(buf =~= front + record_bytes(rec, more) + all_record_bytes(rest));
        let next = front + record_bytes(rec, more);
        assert forall|i: int| 0 <= i < rest.len() implies lengths_fit(
            (#[trigger] rest[i]).0,
            rest[i].1,
        ) by {
            assert(rest[i] == records[i + 1]);
        }
        records_are_read_back(next, rest);
        assert(seq![rec] + rest.map_values(pick) == records.map_values(pick));
    } else {
        assert(buf == front);
        assert(records.map_values(pick) == Seq::<RecordView>::empty());
    }
}

/// The position to go on from is the one that a reply opens with, as long as it lies ahead;
/// reading never goes back.
pub proof fn reply_moves_the_position_forward(cursor: i64, next: i64, rest: Seq<u8>)
    ensures
        cursor_after(cursor, le_bytes(unsigned(next), 8) + rest) == if next > cursor {
            next
        } else {
            cursor
        },
        records_after(seq![], le_bytes(unsigned(next), 8) + rest) == records_from(
            le_bytes(unsigned(next), 8) + rest,
            8,
        ),
        forall|short: Seq<u8>|
            short.len() < 8 ==> #[trigger] cursor_after(cursor, short) == cursor,
{
    let reply = le_bytes(unsigned(next), 8) + rest;
    le_bytes_len(unsigned(next), 8);
    byte_ranges();
    le_undoes_le_bytes(unsigned(next), 8, seq![], rest);
    assert(seq![] + le_bytes(unsigned(next), 8) + rest == reply);
    assert(records_after(seq![], reply) == records_from(reply, 8));
}

/// Numbers stand with their lowest byte first.
pub proof fn lowest_byte_comes_first(s: Seq<u8>, at: int, n: nat, count: nat)
    ensures
        le(s, at, 2) == s[at] + 0x100 * s[at + 1],
        le(s, at, 4) == s[at] + 0x100 * s[at + 1] + 0x1_0000 * s[at + 2] + 0x100_0000 * s[at + 3],
        le(s, at, 8) == le(s, at, 4) + 0x1_0000_0000 * le(s, at + 4, 4),
        count > 0 ==> le_bytes(n, count)[0] == n % 256,
        count > 0 ==> le_bytes(n, count).skip(1) == le_bytes(n / 256, (count - 1) as nat),
{
    reveal_with_fuel(le, 9);
    if count > 0 {
        assert(le_bytes(n, count).skip(1) == le_bytes(n / 256, (count - 1) as nat));
    }
}

/// Positions are read in two's complement: small numbers are themselves, and those from the
/// middle of the range on are negative.
pub proof fn positions_are_in_twos_complement(n: u64, p: i64)
    ensures
        n <= i64::MAX ==> signed(n as nat) == n,
        n > i64::MAX ==> signed(n as nat) == n - 0x1_0000_0000_0000_0000,
        signed(unsigned(p)) == p,
        unsigned(p) <= u64::MAX,
{
}

/// Reading ends at the first record that is not complete: where fewer than sixty bytes are left,
/// where the length is smaller than that or goes beyond the reply, or where the name does not lie
/// behind the fixed fields and within the record. Any other record is read.
pub proof fn reading_ends_at_an_incomplete_record(buf: Seq<u8>, off: int)
    ensures
        records_from(buf, off).len() == 0 <==> {
            ||| buf.len() < off + 60
            ||| le(buf, off, 4) < 60
            ||| le(buf, off, 4) > buf.len() - off
            ||| le(buf, off + 58, 2) < 60
            ||| le(buf, off + 58, 2) + le(buf, off + 56, 2) > le(buf, off, 4)
        },
{
}

/// A name is made of whole units: an odd byte at its end is left out.
pub proof fn odd_byte_is_left_out(buf: Seq<u8>, at: int, n: nat)
    ensures
        units_at(buf, at, 2 * n).len() == n,
        units_at(buf, at, 2 * n + 1) == units_at(buf, at, 2 * n),
        forall|i: int|
            0 <= i < n ==> #[trigger] units_at(buf, at, 2 * n)[i] == buf[at + 2 * i] + 0x100
                * buf[at + 2 * i + 1],
{
    reveal_with_fuel(le, 3);
    assert((2 * n) / 2 == n && (2 * n + 1) / 2 == n);
    assert(units_at(buf, at, 2 * n + 1) == units_at(buf, at, 2 * n));
}

} // verus!
