//! The course of an update of one volume, step by step.
//!
//! The caller opens the volume, asks for its journal, reads it and scans the volume where it has
//! to; after each of these it reports what happened and is told what to do next.
use crate::index;
use crate::index::{Index, PathIndex};
use crate::journal;
use crate::journal::{build_read_input, JournalInfo, JournalReader};
use crate::scan::ScanResult;
use crate::usn;
use crate::usn::{
    begin_update, finish_update, full_rescan_volume, read_to_end, IncrementalOutcome, UpdateStart,
};
use vstd::prelude::*;
use vstd::string::*;

verus! {

/// Where an update stands.
pub enum Stage {
    /// The volume is being opened and its journal asked for.
    Opening,
    /// The journal is being read.
    Reading {
        /// State of the journal.
        info: JournalInfo,
        /// Position at which reading began.
        start: i64,
        /// What has been read.
        reader: JournalReader,
    },
    /// The volume is being scanned, for this reason.
    Scanning {
        reason: String,
    },
    /// The update is over.
    Over,
}

/// What the caller reports.
pub enum Report {
    /// The volume could not be opened: the device, and the error.
    NotOpened(String, String),
    /// The journal could not be asked for: the error.
    NotQueried(String),
    /// The state of the journal.
    Queried(JournalInfo),
    /// What a read of the journal gave.
    Reply(Vec<u8>),
    /// A read of the journal failed: the error code of the system, and the error.
    NotRead(Option<i32>, String),
    /// What the scan found, and the state of the journal after it if it could be asked for.
    Scanned(ScanResult, Option<JournalInfo>),
}

/// What the caller has to do next.
pub enum Order {
    /// Read the journal with this request.
    Read([u8; 40]),
    /// Scan the volume.
    Scan,
    /// Tell the user that the position in the journal is recorded for the first time, and end
    /// with this outcome.
    EndWithFirstCursor(IncrementalOutcome),
    /// End with this outcome.
    End(IncrementalOutcome),
}

/// Whether a report is one that the stage waits for.
pub open spec fn expected(stage: Stage, report: Report) -> bool {
    match stage {
        Stage::Opening => report is NotOpened || report is NotQueried || report is Queried,
        Stage::Reading { .. } => report is Reply || report is NotRead,
        Stage::Scanning { .. } => report is Scanned,
        Stage::Over => false,
    }
}

/// The message for a volume that could not be opened.
pub open spec fn open_failure(device: Seq<char>, error: Seq<char>) -> Seq<char> {
    "打开卷 "@ + device + " 失败："@ + error
}

/// The message for a journal that could not be asked for.
pub open spec fn query_failure(error: Seq<char>) -> Seq<char> {
    "查询 USN Journal 失败："@ + error
}

/// The message for a journal that could not be read.
pub open spec fn read_failure(error: Seq<char>) -> Seq<char> {
    "读取 USN Journal 失败："@ + error
}

/// The message for a journal that could not be created.
pub open spec fn create_failure(error: Seq<char>) -> Seq<char> {
    "创建 USN Journal 失败："@ + error
}

/// `front` followed by `rest`.
fn joined(front: &str, rest: &str) -> (out: String)
    ensures
        out@ == front@ + rest@,
{
    let mut out = front.to_owned();
    out.append(rest);
    out
}

/// Whether the update ends because the journal is of no use, with this message.
pub open spec fn ends_unavailable(order: Order, message: Seq<char>) -> bool {
    order matches Order::End(IncrementalOutcome::Unavailable(m)) && m@ == message
}

/// Whether the next read starts at `cursor`.
pub open spec fn reads_from(order: Order, cursor: i64, info: JournalInfo) -> bool {
    order matches Order::Read(request) && request@ == journal::read_input(cursor, info.journal_id)
}

/// Whether reading goes on after a reply: it held records and its position advances.
pub open spec fn reads_on(cursor: i64, reply: Seq<u8>) -> bool {
    &&& reply.len() >= 8
    &&& journal::records_from(reply, 8).len() > 0
    &&& journal::signed(journal::le(reply, 0, 8)) > cursor
}

/// Whether the journal is being read, and this has been read.
pub open spec fn is_reading(
    stage: Stage,
    info: JournalInfo,
    start: i64,
    cursor: i64,
    records: Seq<journal::RecordView>,
) -> bool {
    &&& stage matches Stage::Reading { info: i, start: s, reader: r }
    &&& i == info && s == start && r.cursor == cursor
    &&& journal::records_view(r.records@) == records
}

/// What is done with the state of the journal: a volume without a usable position takes over
/// the end of the journal, one that is out of step is scanned if that is allowed, and any other
/// is read from where the last update stopped.
pub open spec fn opened(
    before: index::IndexView,
    root: Seq<char>,
    allow_rescan: bool,
    info: JournalInfo,
    after: index::IndexView,
    stage: Stage,
    order: Order,
) -> bool {
    let cursor = usn::cursor_of(usn::saved_volume(before, root), info);
    match cursor {
        usn::Cursor::Missing => {
            &&& after == usn::with_cursor(before, root, info.journal_id, info.next_usn)
            &&& stage is Over
            &&& order == Order::EndWithFirstCursor(IncrementalOutcome::Applied(0))
        },
        usn::Cursor::At(start) => {
            &&& after == before
            &&& is_reading(stage, info, start, start, seq![])
            &&& reads_from(order, start, info)
        },
        _ => {
            &&& after == before
            &&& if allow_rescan {
                &&& stage matches Stage::Scanning { reason }
                &&& reason@ == usn::mismatch(cursor)
                &&& order is Scan
            } else {
                &&& stage is Over
                &&& ends_unavailable(order, usn::mismatch(cursor) + usn::advice())
            }
        },
    }
}

/// What is done when the journal has been read to its end: the records are replayed, and the
/// new position is recorded.
pub open spec fn finished(
    before: Index,
    before_positions: PathIndex,
    root: Seq<char>,
    info: JournalInfo,
    start: i64,
    cursor: i64,
    records: Seq<journal::RecordView>,
    after: Index,
    after_positions: PathIndex,
    stage: Stage,
    order: Order,
) -> bool {
    let replayed = usn::Replay::of(before, before_positions, Map::empty()).replayed(
        records,
    ).catalog;
    &&& after@ == usn::with_cursor(
        replayed.index,
        root,
        info.journal_id,
        usn::later(cursor, start),
    )
    &&& after_positions@ == replayed.lookup
    &&& stage is Over
    &&& order matches Order::End(IncrementalOutcome::Applied(n))
    &&& n == usn::relevant_records(records).len()
}

/// Takes in a report and says what to do next.
pub fn advance(
    stage: Stage,
    report: Report,
    index: &mut Index,
    root: &str,
    path_index: &mut PathIndex,
    allow_rescan: bool,
) -> (out: (Stage, Order))
    requires
        expected(stage, report),
        index::Catalog::of(*old(index), *old(path_index)).agrees(),
    ensures
        index::Catalog::of(*final(index), *final(path_index)).agrees(),
        report matches Report::NotOpened(device, error) ==> {
            &&& *final(index) == *old(index) && *final(path_index) == *old(path_index)
            &&& out.0 is Over
            &&& ends_unavailable(out.1, open_failure(device@, error@))
        },
        report matches Report::NotQueried(error) ==> {
            &&& *final(index) == *old(index) && *final(path_index) == *old(path_index)
            &&& out.0 is Over
            &&& ends_unavailable(out.1, query_failure(error@))
        },
        report matches Report::Queried(info) ==> {
            &&& *final(path_index) == *old(path_index)
            &&& opened(old(index)@, root@, allow_rescan, info, final(index)@, out.0, out.1)
        },
        report matches Report::Reply(bytes) ==> {
            let info = stage->info;
            let start = stage->start;
            let reader = stage->reader;
            let cursor = journal::cursor_after(reader.cursor, bytes@);
            let records = journal::records_after(
                journal::records_view(reader.records@),
                bytes@,
            );
            if reads_on(reader.cursor, bytes@) {
                &&& *final(index) == *old(index) && *final(path_index) == *old(path_index)
                &&& is_reading(out.0, info, start, cursor, records)
                &&& reads_from(out.1, cursor, info)
            } else {
                finished(
                    *old(index),
                    *old(path_index),
                    root@,
                    info,
                    start,
                    cursor,
                    records,
                    *final(index),
                    *final(path_index),
                    out.0,
                    out.1,
                )
            }
        },
        report matches Report::NotRead(code, error) ==> if code == Some(usn::ERROR_HANDLE_EOF) {
            finished(
                *old(index),
                *old(path_index),
                root@,
                stage->info,
                stage->start,
                stage->reader.cursor,
                journal::records_view(stage->reader.records@),
                *final(index),
                *final(path_index),
                out.0,
                out.1,
            )
        } else {
            &&& *final(index) == *old(index) && *final(path_index) == *old(path_index)
            &&& out.0 is Over
            &&& ends_unavailable(out.1, read_failure(error@))
        },
        report matches Report::Scanned(scan, info) ==> {
            &&& final(index)@ == usn::rescanned(old(index)@, root@, scan, info)
            &&& final(path_index)@ is None
            &&& out.0 is Over
            &&& out.1 == Order::End(IncrementalOutcome::Rescanned(stage->reason))
        },
{
    match stage {
        Stage::Opening => match report {
            Report::NotOpened(device, error) => {
                let mut m = "打开卷 ".to_owned();
                m.append(device.as_str());
                m.append(" 失败：");
                m.append(error.as_str());
                (Stage::Over, Order::End(IncrementalOutcome::Unavailable(m)))
            },
            Report::NotQueried(error) => {
                let m = joined("查询 USN Journal 失败：", error.as_str());
                (Stage::Over, Order::End(IncrementalOutcome::Unavailable(m)))
            },
            Report::Queried(info) => match begin_update(index, root, &info, allow_rescan) {
                UpdateStart::Adopted => {
                    let outcome = IncrementalOutcome::Applied(0);
                    (Stage::Over, Order::EndWithFirstCursor(outcome))
                },
                UpdateStart::Unavailable(m) => {
                    (Stage::Over, Order::End(IncrementalOutcome::Unavailable(m)))
                },
                UpdateStart::Rescan(reason) => (Stage::Scanning { reason }, Order::Scan),
                UpdateStart::Read(start) => {
                    let request = build_read_input(start, info.journal_id);
                    let reader = JournalReader::new(start);
                    assert(journal::records_view(reader.records@) == Seq::<
                        journal::RecordView,
                    >::empty());
                    (Stage::Reading { info, start, reader }, Order::Read(request))
                },
            },
            // No other report is expected here, nor at the like places below.
            _ => (Stage::Over, Order::Scan),
        },
        Stage::Reading { info, start, reader } => match report {
            Report::Reply(bytes) => {
                let mut reader = reader;
                if reader.accept(bytes.as_slice()) {
                    let request = build_read_input(reader.cursor, info.journal_id);
                    (Stage::Reading { info, start, reader }, Order::Read(request))
                } else {
                    let outcome = finish_update(
                        index,
                        root,
                        &info,
                        start,
                        reader.cursor,
                        &reader.records,
                        path_index,
                    );
                    (Stage::Over, Order::End(outcome))
                }
            },
            Report::NotRead(code, error) => if read_to_end(code) {
                let outcome = finish_update(
                    index,
                    root,
                    &info,
                    start,
                    reader.cursor,
                    &reader.records,
                    path_index,
                );
                (Stage::Over, Order::End(outcome))
            } else {
                let m = joined("读取 USN Journal 失败：", error.as_str());
                (Stage::Over, Order::End(IncrementalOutcome::Unavailable(m)))
            },
            _ => (Stage::Over, Order::Scan),
        },
        Stage::Scanning { reason } => match report {
            Report::Scanned(scan, info) => {
                full_rescan_volume(index, root, scan, info, path_index);
                (Stage::Over, Order::End(IncrementalOutcome::Rescanned(reason)))
            },
            _ => (Stage::Over, Order::Scan),
        },
        Stage::Over => (Stage::Over, Order::Scan),
    }
}

/// How making sure that a volume has a journal goes on.
pub enum Ensure {
    /// Ask for the journal once more and use the answer.
    QueryAgain,
    /// Create the journal.
    Create,
    /// Give up; the text says why.
    Fail(String),
}

/// What to do after the first question for the journal of a volume, given the error code and
/// the error if it failed. A journal that is missing is created; any other failure is final.
/// Only the low 16 bits of the code tell the error.
pub fn after_query(failure: Option<(u32, String)>) -> (out: Ensure)
    ensures
        match failure {
            None => out is QueryAgain,
            Some((code, error)) => if code & 0xffff == usn::ERROR_JOURNAL_NOT_EXIST {
                out is Create
            } else {
                out matches Ensure::Fail(m) && m@ == query_failure(error@)
            },
        },
        out is Create <==> failure is Some && (failure->0).0 & 0xffff == 1178,
        out is QueryAgain <==> failure is None,
{
    match failure {
        None => Ensure::QueryAgain,
        Some((code, error)) => if code & 0xffff == usn::ERROR_JOURNAL_NOT_EXIST {
            Ensure::Create
        } else {
            Ensure::Fail(joined("查询 USN Journal 失败：", error.as_str()))
        },
    }
}

/// What to do after the attempt to create a journal, given the error if it failed.
pub fn after_create(failure: Option<String>) -> (out: Ensure)
    ensures
        match failure {
            None => out is QueryAgain,
            Some(error) => out matches Ensure::Fail(m) && m@ == create_failure(error@),
        },
{
    match failure {
        None => Ensure::QueryAgain,
        Some(error) => Ensure::Fail(joined("创建 USN Journal 失败：", error.as_str())),
    }
}

/// The message for a journal that could not be asked for.
pub fn query_failure_message(error: &str) -> (out: String)
    ensures
        out@ == query_failure(error@),
{
    joined("查询 USN Journal 失败：", error)
}

// ---------------------------------------------------------------------------------------
// Laws
// ---------------------------------------------------------------------------------------

/// An update that fails to reach the journal leaves the index alone; whatever an update does
/// to the entries, it does by replaying records or by a new scan.
pub proof fn opening_keeps_entries(
    before: index::IndexView,
    root: Seq<char>,
    allow_rescan: bool,
    info: JournalInfo,
    after: index::IndexView,
    stage: Stage,
    order: Order,
)
    requires
        opened(before, root, allow_rescan, info, after, stage, order),
    ensures
        after.entries == before.entries,
        after.dirs == before.dirs,
        !allow_rescan ==> !(order is Scan),
{
}

/// Whether a request asks for all records of the journal `journal_id` from the position `cursor`
/// on, without waiting for more.
pub open spec fn asks_from(request: Seq<u8>, cursor: i64, journal_id: u64) -> bool {
    &&& request.len() == 40
    &&& journal::signed(journal::le(request, 0, 8)) == cursor
    &&& journal::le(request, 8, 4) == 0xffff_ffff
    &&& journal::le(request, 12, 4) == 0
    &&& journal::le(request, 16, 8) == 0
    &&& journal::le(request, 24, 8) == 0
    &&& journal::le(request, 32, 8) == journal_id
}

/// A volume is read from the position that was recorded for it, as long as its journal is still
/// the same and reaches back to it. Without a position the end of the journal is recorded and
/// nothing is read. Otherwise the volume is scanned if that is allowed, and nothing is done if it
/// is not.
pub proof fn update_goes_on_where_it_stopped(
    before: index::IndexView,
    root: Seq<char>,
    allow_rescan: bool,
    info: JournalInfo,
    after: index::IndexView,
    stage: Stage,
    order: Order,
    i: int,
)
    requires
        opened(before, root, allow_rescan, info, after, stage, order),
        0 <= i < before.volumes.len(),
        before.volumes[i].root == root,
        forall|j: int|
            0 <= j < i ==> crate::text::ascii_lowercase((#[trigger] before.volumes[j]).root)
                != crate::text::ascii_lowercase(root),
    ensures
        ({
            let v = before.volumes[i];
            let usable = v.journal_id == info.journal_id && v.next_usn >= info.lowest_valid_usn;
            &&& v.journal_id == 0 ==> {
                &&& order == Order::EndWithFirstCursor(IncrementalOutcome::Applied(0))
                &&& after.volumes == before.volumes.update(
                    i,
                    index::VolumeView {
                        root,
                        journal_id: info.journal_id,
                        next_usn: info.next_usn,
                    },
                )
            }
            &&& v.journal_id != 0 ==> after == before
            &&& v.journal_id != 0 && usable ==> {
                &&& order matches Order::Read(request)
                &&& asks_from(request@, v.next_usn, info.journal_id)
            }
            &&& v.journal_id != 0 && !usable ==> if allow_rescan {
                order is Scan
            } else {
                order matches Order::End(IncrementalOutcome::Unavailable(_))
            }
        }),
{
    let v = before.volumes[i];
    index::first_volume_is_first(before.volumes, root);
    let k = index::first_volume(before.volumes, root)->0;
    assert(k == i);
    journal::read_input_states_its_arguments(v.next_usn, info.journal_id);
    let state = index::VolumeView {
        root,
        journal_id: info.journal_id,
        next_usn: info.next_usn,
    };
    index::recording_changes_one_volume(before.volumes, state, i);
}

/// Reading goes on exactly as long as a reply holds a record and leads forward, and then from the
/// position that the reply names.
pub proof fn reading_goes_on_while_there_are_records(
    cursor: i64,
    next: i64,
    records: Seq<(journal::RecordView, journal::RecordRest)>,
    info: JournalInfo,
    order: Order,
)
    requires
        forall|i: int|
            0 <= i < records.len() ==> journal::lengths_fit(
                (#[trigger] records[i]).0,
                records[i].1,
            ),
    ensures
        ({
            let reply = journal::le_bytes(journal::unsigned(next), 8) + journal::all_record_bytes(
                records,
            );
            &&& reads_on(cursor, reply) <==> records.len() > 0 && next > cursor
            &&& reads_on(cursor, reply) && reads_from(
                order,
                journal::cursor_after(cursor, reply),
                info,
            ) ==> (order matches Order::Read(request) && asks_from(
                request@,
                next,
                info.journal_id,
            ))
        }),
        forall|short: Seq<u8>| short.len() < 8 ==> !#[trigger] reads_on(cursor, short),
{
    let head = journal::le_bytes(journal::unsigned(next), 8);
    let tail = journal::all_record_bytes(records);
    journal::le_bytes_len(journal::unsigned(next), 8);
    journal::records_are_read_back(head, records);
    journal::reply_moves_the_position_forward(cursor, next, tail);
    reveal_with_fuel(journal::byte_range, 9);
    journal::le_undoes_le_bytes(journal::unsigned(next), 8, seq![], tail);
    assert(seq![] + head + tail == head + tail);
    journal::positions_are_in_twos_complement(0, next);
    journal::read_input_states_its_arguments(next, info.journal_id);
}

/// An update that has read its journal to the end records how far it got, so that the next one
/// starts there: at the place where reading ended, and never before the place where it began. It
/// reports how many of the records had to do with paths.
pub proof fn finished_update_is_resumed(
    before: Index,
    before_positions: PathIndex,
    root: Seq<char>,
    info: JournalInfo,
    start: i64,
    cursor: i64,
    records: Seq<journal::RecordView>,
    after: Index,
    after_positions: PathIndex,
    stage: Stage,
    order: Order,
    later_info: JournalInfo,
)
    requires
        finished(
            before,
            before_positions,
            root,
            info,
            start,
            cursor,
            records,
            after,
            after_positions,
            stage,
            order,
        ),
        info.journal_id != 0,
        later_info.journal_id == info.journal_id,
        later_info.lowest_valid_usn <= cursor,
    ensures
        usn::cursor_of(usn::saved_volume(after@, root), later_info) == usn::Cursor::At(
            if cursor > start {
                cursor
            } else {
                start
            },
        ),
        order matches Order::End(IncrementalOutcome::Applied(n)) && n == records.filter(
            |rec: journal::RecordView| rec.reason & 0x3300 != 0,
        ).len(),
{
    let r = usn::Replay::of(before, before_positions, Map::empty());
    usn::only_path_changes_count(r, records);
    let index = r.replayed(records).catalog.index;
    let state = index::VolumeView {
        root,
        journal_id: info.journal_id,
        next_usn: usn::later(cursor, start),
    };
    index::recorded_state_is_found(index.volumes, state, root);
}

/// A failure is reported with what failed and with the error that the system gave.
pub proof fn failures_tell_the_error(device: Seq<char>, error: Seq<char>)
    ensures
        open_failure(device, error) == "打开卷 "@ + device + " 失败："@ + error,
        query_failure(error) == "查询 USN Journal 失败："@ + error,
        read_failure(error) == "读取 USN Journal 失败："@ + error,
        create_failure(error) == "创建 USN Journal 失败："@ + error,
{
}

/// Each stage takes in every report on what it is doing: while the volume is opened, that this
/// or the question for the journal failed, or the state of the journal; while the journal is
/// read, a reply or a failure; while the volume is scanned, what was found.
pub proof fn stages_take_in_their_reports(stage: Stage, report: Report)
    ensures
        stage is Opening && (report is NotOpened || report is NotQueried || report is Queried)
            ==> expected(stage, report),
        stage is Reading && (report is Reply || report is NotRead) ==> expected(stage, report),
        stage is Scanning && report is Scanned ==> expected(stage, report),
{
}

} // verus!
