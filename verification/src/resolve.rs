//! Finding out the names behind handles.
//!
//! Asking the system for the name of a handle can block for ever. The work is therefore cut
//! into shards; in each, a coordinator hands handles to query threads, waits for answers with a
//! time limit, and starts another thread when one seems stuck. This module holds the decisions;
//! the threads and the system calls are the caller's.
use crate::snapshot::{HandleEntryEx, STATUS_INFO_LENGTH_MISMATCH, STATUS_SUCCESS};
use crate::wide;
use std::collections::HashMap;
use vstd::prelude::*;

verus! {

/// A handle whose name is to be found out.
#[derive(Clone, Copy, Debug, PartialEq, Eq, Structural)]
pub struct Candidate {
    pub pid: u32,
    pub handle: u64,
    pub access: u32,
}

/// A handle with its name.
#[derive(Debug)]
pub struct FileHandle {
    pub pid: u32,
    pub handle: u64,
    pub access: u32,
    /// Name of the object: a device path, or what it was mapped to.
    pub name: String,
}

/// What a [`FileHandle`] stands for.
#[verifier::ext_equal]
pub struct HandleView {
    pub pid: u32,
    pub handle: u64,
    pub access: u32,
    pub name: Seq<char>,
}

impl View for FileHandle {
    type V = HandleView;

    open spec fn view(&self) -> HandleView {
        HandleView {
            pid: self.pid,
            handle: self.handle,
            access: self.access,
            name: self.name@,
        }
    }
}

/// The handles that a sequence of [`FileHandle`] stands for.
pub open spec fn handles_view(handles: Seq<FileHandle>) -> Seq<HandleView> {
    handles.map_values(|h: FileHandle| h@)
}

/// Figures of the search for names.
#[derive(Debug, Clone, Copy, PartialEq, Eq, Structural)]
pub struct ResolveStats {
    /// Handles whose name was found.
    pub resolved: usize,
    /// Handles that could not be opened.
    pub open_fail: usize,
    /// Handles that never answered.
    pub stuck: usize,
    /// Handles without a name.
    pub unnamed: usize,
}

// ---------------------------------------------------------------------------------------
// Candidates
// ---------------------------------------------------------------------------------------

/// Whether an entry is a file handle other than the one used to tell their type.
pub open spec fn is_candidate(e: HandleEntryEx, file_type: u16, own_pid: u64, own_handle: u64) -> bool {
    e.type_index == file_type && !(e.pid == own_pid && e.handle == own_handle)
}

/// The candidate for an entry. Process numbers have 32 bits.
pub open spec fn candidate_of(e: HandleEntryEx) -> Candidate {
    Candidate { pid: (e.pid % 0x1_0000_0000) as u32, handle: e.handle, access: e.access }
}

/// The candidates among all entries, in order. Access rights play no part: those that look
/// like a pipe's are also those of files open for reading and writing.
pub open spec fn candidates_in(
    entries: Seq<HandleEntryEx>,
    file_type: u16,
    own_pid: u64,
    own_handle: u64,
) -> Seq<Candidate> {
    entries.filter(
        |e: HandleEntryEx| is_candidate(e, file_type, own_pid, own_handle),
    ).map_values(|e: HandleEntryEx| candidate_of(e))
}

/// The candidates among all entries, in order.
pub fn candidates(
    entries: &Vec<HandleEntryEx>,
    file_type: u16,
    own_pid: u64,
    own_handle: u64,
) -> (out: Vec<Candidate>)
    ensures
        out@ == candidates_in(entries@, file_type, own_pid, own_handle),
{
    let ghost keep = |e: HandleEntryEx| is_candidate(e, file_type, own_pid, own_handle);
    let ghost make = |e: HandleEntryEx| candidate_of(e);
    let mut out: Vec<Candidate> = Vec::new();
    proof {
        reveal(Seq::filter);
        assert(out@ == entries@.take(0).filter(keep).map_values(make));
    }
    for i in 0..entries.len()
        invariant
            keep == (|e: HandleEntryEx| is_candidate(e, file_type, own_pid, own_handle)),
            make == (|e: HandleEntryEx| candidate_of(e)),
            out@ == entries@.take(i as int).filter(keep).map_values(make),
    {
        let e = entries[i];
        let ghost front = entries@.take(i as int);
        let ghost before = out@;
        proof {
            assert(entries@.take(i + 1) == front.push(e));
            crate::seqs::filter_push(front, e, keep);
        }
        if e.type_index == file_type && !(e.pid == own_pid && e.handle == own_handle) {
            out.push(
                Candidate {
                    pid: (e.pid % 0x1_0000_0000) as u32,
                    handle: e.handle,
                    access: e.access,
                },
            );
            assert(front.filter(keep).push(e).map_values(make) == front.filter(keep).map_values(
                make,
            ).push(make(e)));
        }
    }
    assert(entries@.take(entries@.len() as int) == entries@);
    out
}

/// The candidates of one process, in order.
pub fn candidates_of(cands: Vec<Candidate>, pid: u32) -> (out: Vec<Candidate>)
    ensures
        out@ == cands@.filter(|c: Candidate| c.pid == pid),
{
    let ghost keep = |c: Candidate| c.pid == pid;
    let mut out: Vec<Candidate> = Vec::new();
    proof {
        reveal(Seq::filter);
    }
    for i in 0..cands.len()
        invariant
            keep == (|c: Candidate| c.pid == pid),
            out@ == cands@.take(i as int).filter(keep),
    {
        let c = cands[i];
        proof {
            assert(cands@.take(i + 1) == cands@.take(i as int).push(c));
            crate::seqs::filter_push(cands@.take(i as int), c, keep);
        }
        if c.pid == pid {
            out.push(c);
        }
    }
    assert(cands@.take(cands@.len() as int) == cands@);
    out
}

// ---------------------------------------------------------------------------------------
// Shards
// ---------------------------------------------------------------------------------------

/// How many shards to aim for: two for each processor, at least 1 and at most 64; 16 in all if
/// the number of processors cannot be told.
pub fn worker_count(processors: Option<usize>) -> (out: usize)
    requires
        processors matches Some(n) ==> n * 2 <= usize::MAX,
    ensures
        out == match processors {
            None => 16int,
            Some(n) => if n * 2 < 1 {
                1
            } else if n * 2 > 64 {
                64
            } else {
                n * 2
            },
        },
{
    match processors {
        None => 16,
        Some(n) => if n == 0 {
            1
        } else if n > 32 {
            64
        } else {
            n * 2
        },
    }
}

/// Length of each shard but the last.
pub open spec fn chunk_len(count: int, workers: int) -> int {
    let n = (count + workers - 1) / workers;
    if n < 1 {
        1
    } else {
        n
    }
}

/// The shards from position `from` on: `chunk` positions each, the last one as many as are left.
pub open spec fn shards_from(from: int, count: int, chunk: int) -> Seq<(int, int)>
    decreases count - from,
{
    if from >= count || chunk <= 0 {
        seq![]
    } else if from + chunk >= count {
        seq![(from, count)]
    } else {
        seq![(from, from + chunk)] + shards_from(from + chunk, count, chunk)
    }
}

/// Cuts `count` positions into shards for `workers` workers, each with its first position and
/// the one behind its last.
pub fn shards(count: usize, workers: usize) -> (out: Vec<(usize, usize)>)
    requires
        workers > 0,
    ensures
        out@.map_values(|s: (usize, usize)| (s.0 as int, s.1 as int)) == shards_from(
            0,
            count as int,
            chunk_len(count as int, workers as int),
        ),
{
    let ghost look = |s: (usize, usize)| (s.0 as int, s.1 as int);
    let mut out: Vec<(usize, usize)> = Vec::new();
    let even: usize = count / workers;
    proof {
        ceiling(count as int, workers as int);
    }
    let chunk: usize = if count % workers != 0 {
        even + 1
    } else if even == 0 {
        1
    } else {
        even
    };
    let ghost all = shards_from(0, count as int, chunk as int);
    let mut from: usize = 0;
    assert(out@.map_values(look) + all == all);
    while from < count
        invariant
            from <= count,
            chunk > 0,
            look == (|s: (usize, usize)| (s.0 as int, s.1 as int)),
            out@.map_values(look) + shards_from(from as int, count as int, chunk as int) == all,
        decreases count - from,
    {
        let to: usize = if chunk >= count - from {
            count
        } else {
            from + chunk
        };
        let ghost before = out@;
        out.push((from, to));
        assert(out@.map_values(look) == before.map_values(look).push((from as int, to as int)));
        assert(before.map_values(look) + (seq![(from as int, to as int)] + shards_from(
            to as int,
            count as int,
            chunk as int,
        )) == out@.map_values(look) + shards_from(to as int, count as int, chunk as int));
        assert(seq![(from as int, to as int)] + Seq::<(int, int)>::empty() == seq![
            (from as int, to as int),
        ]);
        from = to;
    }
    assert(out@.map_values(look) + Seq::<(int, int)>::empty() == out@.map_values(look));
    out
}

/// Rounding a quotient up.
proof fn ceiling(a: int, b: int)
    requires
        a >= 0,
        b > 0,
    ensures
        chunk_len(a, b) == if a % b != 0 {
            a / b + 1
        } else if a / b == 0 {
            1
        } else {
            a / b
        },
        a % b != 0 ==> a / b < a,
{
    vstd::arithmetic::div_mod::lemma_fundamental_div_mod(a, b);
    let q = a / b;
    let r = a % b;
    assert(q >= 0) by (nonlinear_arith)
        requires
            a >= 0,
            b > 0,
            q == a / b,
    ;
    if r == 0 {
        assert(a + b - 1 == q * b + (b - 1)) by (nonlinear_arith)
            requires
                a == b * q + r,
                r == 0,
        ;
        vstd::arithmetic::div_mod::lemma_fundamental_div_mod_converse(
            a + b - 1,
            b,
            q,
            b - 1,
        );
    } else {
        assert(a + b - 1 == b * (q + 1) + (r - 1)) by (nonlinear_arith)
            requires
                a == b * q + r,
        ;
        vstd::arithmetic::div_mod::lemma_fundamental_div_mod_converse(
            a + b - 1,
            b,
            q + 1,
            r - 1,
        );
        assert(q < a) by (nonlinear_arith)
            requires
                a == b * q + r,
                b > 0,
                r > 0,
                q >= 0,
        ;
    }
}

/// The shards follow one another without gap or overlap, and cover every position.
pub proof fn shards_cover_everything(from: int, count: int, chunk: int)
    requires
        0 <= from < count,
        chunk > 0,
    ensures
        ({
            let s = shards_from(from, count, chunk);
            &&& s.len() > 0
            &&& s[0].0 == from
            &&& s.last().1 == count
            &&& forall|i: int| 0 <= i < s.len() ==> (#[trigger] s[i]).0 < s[i].1
            &&& forall|i: int| 0 < i < s.len() ==> (#[trigger] s[i]).0 == s[i - 1].1
            &&& forall|i: int| 0 <= i < s.len() ==> (#[trigger] s[i]).1 - s[i].0 <= chunk
        }),
    decreases count - from,
{
    let s = shards_from(from, count, chunk);
    if from + chunk < count {
        let rest = shards_from(from + chunk, count, chunk);
        shards_cover_everything(from + chunk, count, chunk);
        assert(s == seq![(from, from + chunk)] + rest);
        assert forall|i: int| 0 < i < s.len() implies (#[trigger] s[i]).0 == s[i - 1].1 by {
            assert(s[i] == rest[i - 1]);
            if i > 1 {
                assert(s[i - 1] == rest[i - 2]);
            }
        }
        assert forall|i: int| 0 <= i < s.len() implies (#[trigger] s[i]).0 < s[i].1 && s[i].1
            - s[i].0 <= chunk by {
            if i > 0 {
                assert(s[i] == rest[i - 1]);
            }
        }
    }
}

/// There are never more shards than workers.
pub proof fn shards_are_few(count: int, workers: int)
    requires
        0 <= count,
        workers > 0,
    ensures
        shards_from(0, count, chunk_len(count, workers)).len() <= workers,
{
    let chunk = chunk_len(count, workers);
    ceiling(count, workers);
    vstd::arithmetic::div_mod::lemma_fundamental_div_mod(count, workers);
    vstd::arithmetic::div_mod::lemma_mod_bound(count, workers);
    let q = count / workers;
    let r = count % workers;
    assert(chunk * workers >= count) by (nonlinear_arith)
        requires
            count == workers * q + r,
            0 <= r < workers,
            chunk >= q,
            r != 0 ==> chunk == q + 1,
    ;
    shard_number(0, count, chunk, workers);
}

/// As many shards as it takes to cover what is left.
proof fn shard_number(from: int, count: int, chunk: int, n: int)
    requires
        0 <= from <= count,
        chunk > 0,
        n >= 0,
        chunk * n >= count - from,
    ensures
        shards_from(from, count, chunk).len() <= n,
    decreases count - from,
{
    if from < count {
        assert(n > 0) by (nonlinear_arith)
            requires
                chunk * n >= count - from,
                count > from,
                chunk > 0,
        ;
        if from + chunk < count {
            assert(chunk * (n - 1) == chunk * n - chunk) by (nonlinear_arith);
            shard_number(from + chunk, count, chunk, n - 1);
        }
    }
}

// ---------------------------------------------------------------------------------------
// Opening the handles of one shard
// ---------------------------------------------------------------------------------------

/// The handles of a shard while they are being opened. Each process is opened once.
pub struct Opening {
    /// For each process that was tried, whether it could be opened.
    processes: HashMap<u32, bool>,
    /// Handles that could not be opened.
    open_fail: usize,
    /// Positions of the handles that could, in order.
    queue: Vec<usize>,
}

/// What becomes of the handles once it is noted whether the one at position `idx` could be
/// opened.
pub open spec fn noted(before: Opening, idx: usize, opened: bool, after: Opening) -> bool {
    &&& after.failures() == before.failures() + if opened {
        0int
    } else {
        1
    }
    &&& after.queued() == if opened {
        before.queued().push(idx)
    } else {
        before.queued()
    }
}

impl Opening {
    /// For each process that was tried, whether it could be opened.
    pub closed spec fn tried(self) -> Map<u32, bool> {
        self.processes@
    }

    /// Handles that could not be opened.
    pub closed spec fn failures(self) -> nat {
        self.open_fail as nat
    }

    /// Positions of the handles that could, in order.
    pub closed spec fn queued(self) -> Seq<usize> {
        self.queue@
    }

    /// Nothing tried yet.
    pub fn new() -> (out: Opening)
        ensures
            out.tried() == Map::<u32, bool>::empty(),
            out.failures() == 0,
            out.queued() == Seq::<usize>::empty(),
    {
        Opening { processes: HashMap::new(), open_fail: 0, queue: Vec::new() }
    }

    /// Whether a process was tried, and if so whether it could be opened.
    pub fn process(&self, pid: u32) -> (out: Option<bool>)
        ensures
            out == self.tried().get(pid),
    {
        match self.processes.get(&pid) {
            Some(ok) => Some(*ok),
            None => None,
        }
    }

    /// Notes whether a process could be opened.
    pub fn note_process(&mut self, pid: u32, opened: bool)
        ensures
            final(self).tried() == old(self).tried().insert(pid, opened),
            final(self).failures() == old(self).failures(),
            final(self).queued() == old(self).queued(),
    {
        self.processes.insert(pid, opened);
    }

    /// Notes whether the handle at position `idx` could be opened. One whose process could not
    /// be opened counts as failed.
    pub fn note_handle(&mut self, idx: usize, opened: bool)
        requires
            old(self).failures() < usize::MAX,
        ensures
            final(self).tried() == old(self).tried(),
            noted(*old(self), idx, opened, *final(self)),
    {
        if opened {
            self.queue.push(idx);
        } else {
            self.open_fail = self.open_fail + 1;
        }
    }

    /// Number of handles that could not be opened, and of those that could.
    pub fn counts(&self) -> (out: (usize, usize))
        ensures
            out.0 == self.failures(),
            out.1 == self.queued().len(),
    {
        (self.open_fail, self.queue.len())
    }
}

// ---------------------------------------------------------------------------------------
// Coordinating the queries of one shard
// ---------------------------------------------------------------------------------------

/// Query threads that a shard starts with.
pub const QUERY_THREADS: usize = 8;

/// Query threads that a shard starts in place of stuck ones, at most.
pub const MAX_RESPAWNS: usize = 64;

/// Waits without an answer after which an empty queue means that only stuck handles are left.
pub const IDLE_LIMIT: usize = 2;

/// What the coordinator of a shard hears.
pub enum Event {
    /// The handle at this position has this name.
    Named(usize, String),
    /// A handle has no name.
    Unnamed,
    /// A query failed, for example because the handle is closed by now.
    Failed,
    /// Nothing came in time.
    Timeout,
    /// All query threads have ended.
    Disconnected,
}

/// What the coordinator of a shard does next.
#[derive(Debug, Clone, Copy, PartialEq, Eq, Structural)]
pub enum Action {
    /// Wait for the next event.
    Wait,
    /// Start another query thread, and wait for the next event.
    Spawn,
    /// End.
    Stop,
}

/// The coordinator of a shard.
pub struct Coordinator {
    /// Handles whose name was found, in the order of the answers.
    pub found: Vec<FileHandle>,
    /// Answers of all sorts.
    pub received: usize,
    /// Handles without a name.
    pub unnamed: usize,
    /// Waits without an answer since the last answer.
    pub idle_rounds: usize,
    /// Query threads started in place of stuck ones.
    pub respawns: usize,
}

/// The handle of a candidate with the name that was found.
pub open spec fn named_handle(c: Candidate, name: Seq<char>) -> HandleView {
    HandleView { pid: c.pid, handle: c.handle, access: c.access, name }
}

/// What a coordinator becomes when it takes in an event, and what it does next. `queue_empty`
/// says whether handles were still waiting when the wait began.
pub open spec fn taken(
    before: Coordinator,
    event: Event,
    queue_empty: bool,
    cands: Seq<Candidate>,
    after: Coordinator,
    action: Action,
) -> bool {
    match event {
        Event::Named(idx, name) => {
            &&& action == Action::Wait
            &&& handles_view(after.found@) == handles_view(before.found@).push(
                named_handle(cands[idx as int], name@),
            )
            &&& after.received == before.received + 1
            &&& after.unnamed == before.unnamed
            &&& after.idle_rounds == 0
            &&& after.respawns == before.respawns
        },
        Event::Unnamed => {
            &&& action == Action::Wait
            &&& after == (Coordinator {
                received: (before.received + 1) as usize,
                unnamed: (before.unnamed + 1) as usize,
                idle_rounds: 0,
                ..before
            })
        },
        Event::Failed => {
            &&& action == Action::Wait
            &&& after == (Coordinator {
                received: (before.received + 1) as usize,
                idle_rounds: 0,
                ..before
            })
        },
        Event::Timeout => {
            let spawns = !queue_empty && before.respawns < MAX_RESPAWNS;
            &&& action == if spawns {
                Action::Spawn
            } else {
                Action::Wait
            }
            &&& after == (Coordinator {
                idle_rounds: (before.idle_rounds + 1) as usize,
                respawns: if spawns {
                    (before.respawns + 1) as usize
                } else {
                    before.respawns
                },
                ..before
            })
        },
        Event::Disconnected => action == Action::Stop && after == before,
    }
}

impl Coordinator {
    /// Every handle found and every handle without a name was an answer, and no more threads
    /// were started than allowed.
    pub open spec fn inv(self) -> bool {
        &&& self.found@.len() + self.unnamed <= self.received
        &&& self.respawns <= MAX_RESPAWNS
    }

    /// No counter is at its end.
    pub open spec fn has_room(self) -> bool {
        self.received < usize::MAX && self.idle_rounds < usize::MAX
    }

    /// Nothing has been heard yet.
    pub open spec fn is_new(self) -> bool {
        &&& self.found@ == Seq::<FileHandle>::empty()
        &&& self.received == 0
        &&& self.unnamed == 0
        &&& self.idle_rounds == 0
        &&& self.respawns == 0
    }

    /// A coordinator that has heard nothing yet.
    pub fn new() -> (out: Coordinator)
        ensures
            out.inv(),
            out.is_new(),
    {
        Coordinator { found: Vec::new(), received: 0, unnamed: 0, idle_rounds: 0, respawns: 0 }
    }

    /// Whether to wait for another event: until the queue is empty and two waits in a row
    /// brought nothing.
    pub fn goes_on(&self, queue_empty: bool) -> (yes: bool)
        ensures
            yes == !(queue_empty && self.idle_rounds >= IDLE_LIMIT),
            yes <==> !queue_empty || self.idle_rounds < 2,
    {
        !(queue_empty && self.idle_rounds >= IDLE_LIMIT)
    }

    /// Takes in an event. `queue_empty` says whether handles were still waiting when the wait
    /// began.
    pub fn take(&mut self, event: Event, queue_empty: bool, cands: &[Candidate]) -> (out: Action)
        requires
            old(self).inv(),
            old(self).has_room(),
            event matches Event::Named(idx, _) ==> idx < cands@.len(),
        ensures
            final(self).inv(),
            taken(*old(self), event, queue_empty, cands@, *final(self), out),
    {
        match event {
            Event::Named(idx, name) => {
                let c = cands[idx];
                let ghost before = self.found@;
                let one = FileHandle { pid: c.pid, handle: c.handle, access: c.access, name };
                self.found.push(one);
                assert(handles_view(self.found@) == handles_view(before).push(one@));
                self.received = self.received + 1;
                self.idle_rounds = 0;
                Action::Wait
            },
            Event::Unnamed => {
                self.unnamed = self.unnamed + 1;
                self.received = self.received + 1;
                self.idle_rounds = 0;
                Action::Wait
            },
            Event::Failed => {
                self.received = self.received + 1;
                self.idle_rounds = 0;
                Action::Wait
            },
            Event::Timeout => {
                self.idle_rounds = self.idle_rounds + 1;
                if !queue_empty && self.respawns < MAX_RESPAWNS {
                    self.respawns = self.respawns + 1;
                    Action::Spawn
                } else {
                    Action::Wait
                }
            },
            Event::Disconnected => Action::Stop,
        }
    }

    /// How many of `queued` handles never answered.
    pub open spec fn unanswered(self, queued: nat) -> nat {
        if queued >= self.received {
            (queued - self.received) as nat
        } else {
            0
        }
    }

    /// How many of `queued` handles never answered.
    pub fn stuck(&self, queued: usize) -> (out: usize)
        ensures
            out == self.unanswered(queued as nat),
    {
        if queued >= self.received {
            queued - self.received
        } else {
            0
        }
    }
}

// ---------------------------------------------------------------------------------------
// Putting the shards together
// ---------------------------------------------------------------------------------------

/// Whether the figures of a shard can be added without passing the largest number.
pub open spec fn addable(a: ResolveStats, found: int, b: ResolveStats) -> bool {
    &&& a.resolved + found <= usize::MAX
    &&& a.open_fail + b.open_fail <= usize::MAX
    &&& a.stuck + b.stuck <= usize::MAX
    &&& a.unnamed + b.unnamed <= usize::MAX
}

impl ResolveStats {
    /// No handles at all.
    pub fn new() -> (out: ResolveStats)
        ensures
            out == (ResolveStats { resolved: 0, open_fail: 0, stuck: 0, unnamed: 0 }),
    {
        ResolveStats { resolved: 0, open_fail: 0, stuck: 0, unnamed: 0 }
    }

    /// Whether the figures of a shard can be added without passing the largest number.
    pub fn can_add(&self, found: usize, shard: &ResolveStats) -> (yes: bool)
        ensures
            yes == addable(*self, found as int, *shard),
            yes <==> self.resolved + found <= usize::MAX && self.open_fail + shard.open_fail
                <= usize::MAX && self.stuck + shard.stuck <= usize::MAX && self.unnamed
                + shard.unnamed <= usize::MAX,
    {
        found <= usize::MAX - self.resolved && shard.open_fail <= usize::MAX - self.open_fail
            && shard.stuck <= usize::MAX - self.stuck && shard.unnamed <= usize::MAX
            - self.unnamed
    }
}

/// Adds the handles and figures of one shard behind those of the shards before it.
pub fn add_shard(
    all: &mut Vec<FileHandle>,
    stats: &mut ResolveStats,
    found: Vec<FileHandle>,
    shard: &ResolveStats,
)
    requires
        addable(*old(stats), found@.len() as int, *shard),
    ensures
        final(all)@ == old(all)@ + found@,
        final(stats).resolved == old(stats).resolved + found@.len(),
        final(stats).open_fail == old(stats).open_fail + shard.open_fail,
        final(stats).stuck == old(stats).stuck + shard.stuck,
        final(stats).unnamed == old(stats).unnamed + shard.unnamed,
{
    stats.resolved = stats.resolved + found.len();
    stats.open_fail = stats.open_fail + shard.open_fail;
    stats.stuck = stats.stuck + shard.stuck;
    stats.unnamed = stats.unnamed + shard.unnamed;
    let mut more = found;
    all.append(&mut more);
}

// ---------------------------------------------------------------------------------------
// Object names
// ---------------------------------------------------------------------------------------

/// System status: the answer was cut.
pub const STATUS_BUFFER_OVERFLOW: u32 = 0x8000_0005;

/// System status: the object has no name.
pub const STATUS_OBJECT_NAME_NOT_FOUND: u32 = 0xc000_0034;

/// What to do after asking for the name of an object.
#[derive(Debug, Clone, Copy, PartialEq, Eq, Structural)]
pub enum NameStep {
    /// Read the name from the buffer.
    Read,
    /// Ask again with a buffer of so many 64-bit words.
    Enlarge(u64),
    /// The object has no name.
    NoName,
    /// The query failed with this status.
    Fail(u32),
}

/// What to do after the first question for a name; `needed` is the number of bytes that the
/// system asked for.
pub fn first_name_step(status: u32, needed: u32) -> (out: NameStep)
    ensures
        out == if status == STATUS_SUCCESS {
            NameStep::Read
        } else if status == STATUS_BUFFER_OVERFLOW || status == STATUS_INFO_LENGTH_MISMATCH {
            NameStep::Enlarge(((needed + 72) / 8) as u64)
        } else if status == STATUS_OBJECT_NAME_NOT_FOUND {
            NameStep::NoName
        } else {
            NameStep::Fail(status)
        },
        out is Read <==> status == 0,
        out is Enlarge <==> status == 0x8000_0005 || status == 0xc000_0004,
        out matches NameStep::Enlarge(words) ==> needed + 64 < 8 * words <= needed + 72,
        out is NoName <==> status == 0xc000_0034,
{
    if status == STATUS_SUCCESS {
        NameStep::Read
    } else if status == STATUS_BUFFER_OVERFLOW || status == STATUS_INFO_LENGTH_MISMATCH {
        NameStep::Enlarge((needed as u64 + 72) / 8)
    } else if status == STATUS_OBJECT_NAME_NOT_FOUND {
        NameStep::NoName
    } else {
        NameStep::Fail(status)
    }
}

/// What to do after the second question for a name, with the larger buffer.
pub fn second_name_step(status: u32) -> (out: NameStep)
    ensures
        out == if status == STATUS_SUCCESS || status == STATUS_BUFFER_OVERFLOW {
            NameStep::Read
        } else if status == STATUS_OBJECT_NAME_NOT_FOUND {
            NameStep::NoName
        } else {
            NameStep::Fail(status)
        },
        out is Read <==> status == 0 || status == 0x8000_0005,
        out is NoName <==> status == 0xc000_0034,
        !(out is Enlarge),
{
    if status == STATUS_SUCCESS || status == STATUS_BUFFER_OVERFLOW {
        NameStep::Read
    } else if status == STATUS_OBJECT_NAME_NOT_FOUND {
        NameStep::NoName
    } else {
        NameStep::Fail(status)
    }
}

/// The name in the system's answer: `length` bytes of text, whose units are `units`, or nothing
/// if the answer holds no text.
pub fn object_name(length: u16, units: Option<&[u16]>) -> (out: Option<String>)
    requires
        units matches Some(u) ==> u@.len() == length / 2,
    ensures
        match units {
            Some(u) => if u@.len() == 0 {
                out is None
            } else {
                out matches Some(name) && name@ == wide::decode_utf16(u@)
            },
            None => out is None,
        },
{
    match units {
        Some(u) => if length / 2 == 0 {
            None
        } else {
            Some(wide::from_utf16_lossy(u))
        },
        None => None,
    }
}

// ---------------------------------------------------------------------------------------
// Laws
// ---------------------------------------------------------------------------------------

/// The handles that were noted one after the other: `opened` tells of each whether it could be
/// opened, and `states` what was known before the first and after each. Processes may be noted in
/// between.
pub open spec fn is_opening(states: Seq<Opening>, opened: Seq<bool>) -> bool {
    &&& states.len() == opened.len() + 1
    &&& states[0].failures() == 0 && states[0].queued().len() == 0
    &&& forall|i: int|
        0 <= i < opened.len() ==> noted(#[trigger] states[i], i as usize, opened[i], states[i + 1])
}

/// The events that a coordinator heard one after the other, with what it was before the first
/// and after each.
pub open spec fn is_course(
    states: Seq<Coordinator>,
    events: Seq<Event>,
    queue_empty: Seq<bool>,
    actions: Seq<Action>,
    cands: Seq<Candidate>,
) -> bool {
    &&& states.len() == events.len() + 1
    &&& states[0].is_new()
    &&& forall|i: int|
        0 <= i < events.len() ==> (#[trigger] states[i]).has_room() && taken(
            states[i],
            events[i],
            queue_empty[i],
            cands,
            states[i + 1],
            actions[i],
        )
}

/// The handles whose names were heard, in order.
pub open spec fn names_heard(events: Seq<Event>, cands: Seq<Candidate>) -> Seq<HandleView>
    decreases events.len(),
{
    if events.len() == 0 {
        seq![]
    } else {
        let front = names_heard(events.drop_last(), cands);
        match events.last() {
            Event::Named(idx, name) => front.push(named_handle(cands[idx as int], name@)),
            _ => front,
        }
    }
}

/// Number of handles of which it was heard that they have no name.
pub open spec fn unnamed_heard(events: Seq<Event>) -> nat {
    events.filter(|e: Event| e is Unnamed).len()
}

/// Number of handles whose query failed.
pub open spec fn failures_heard(events: Seq<Event>) -> nat {
    events.filter(|e: Event| e is Failed).len()
}

/// Number of answers of all sorts.
pub open spec fn answers_heard(events: Seq<Event>, cands: Seq<Candidate>) -> nat {
    names_heard(events, cands).len() + unnamed_heard(events) + failures_heard(events)
}

/// Every handle that was noted either failed or is queued.
pub proof fn opened_and_failed_add_up(states: Seq<Opening>, opened: Seq<bool>)
    requires
        is_opening(states, opened),
    ensures
        states.last().failures() + states.last().queued().len() == opened.len(),
    decreases opened.len(),
{
    if opened.len() > 0 {
        let n = opened.len() - 1;
        let front = states.drop_last();
        assert forall|i: int| 0 <= i < n implies noted(
            #[trigger] front[i],
            i as usize,
            opened.drop_last()[i],
            front[i + 1],
        ) by {
            assert(noted(states[i], i as usize, opened[i], states[i + 1]));
        }
        opened_and_failed_add_up(front, opened.drop_last());
        assert(noted(states[n], n as usize, opened[n], states[n + 1]));
    }
}

/// A coordinator holds exactly what it heard: the names in the order of the answers, and how
/// many answers there were of each sort.
pub proof fn coordinator_holds_what_it_heard(
    states: Seq<Coordinator>,
    events: Seq<Event>,
    queue_empty: Seq<bool>,
    actions: Seq<Action>,
    cands: Seq<Candidate>,
)
    requires
        is_course(states, events, queue_empty, actions, cands),
    ensures
        handles_view(states.last().found@) == names_heard(events, cands),
        states.last().unnamed == unnamed_heard(events),
        states.last().received == answers_heard(events, cands),
    decreases events.len(),
{
    reveal(Seq::filter);
    if events.len() == 0 {
        assert(handles_view(states.last().found@) == Seq::<HandleView>::empty());
    } else {
        let n = events.len() - 1;
        let front = states.drop_last();
        assert forall|i: int| 0 <= i < n implies (#[trigger] front[i]).has_room() && taken(
            front[i],
            events.drop_last()[i],
            queue_empty[i],
            cands,
            front[i + 1],
            actions[i],
        ) by {
            assert(states[i].has_room());
        }
        coordinator_holds_what_it_heard(front, events.drop_last(), queue_empty, actions, cands);
        assert(states[n].has_room());
        assert(events.drop_last().push(events.last()) == events);
        crate::seqs::filter_push(events.drop_last(), events.last(), |e: Event| e is Unnamed);
        crate::seqs::filter_push(events.drop_last(), events.last(), |e: Event| e is Failed);
        assert(states[n].unnamed <= states[n].received);
    }
}

/// The figures of a shard account for every candidate, as long as no queued handle answers
/// twice: its name was found, it has none, its query failed, it never answered, or it could not
/// be opened.
pub proof fn every_candidate_is_accounted_for(
    openings: Seq<Opening>,
    opened: Seq<bool>,
    states: Seq<Coordinator>,
    events: Seq<Event>,
    queue_empty: Seq<bool>,
    actions: Seq<Action>,
    cands: Seq<Candidate>,
)
    requires
        is_opening(openings, opened),
        opened.len() == cands.len(),
        is_course(states, events, queue_empty, actions, cands),
        answers_heard(events, cands) <= openings.last().queued().len(),
    ensures
        ({
            let queued = openings.last().queued().len();
            let end = states.last();
            &&& end.found@.len() + end.unnamed + failures_heard(events) + end.unanswered(queued)
                + openings.last().failures() == cands.len()
            &&& end.received + end.unanswered(queued) == queued
            &&& end.unanswered(queued) == 0 <==> end.received == queued
        }),
{
    opened_and_failed_add_up(openings, opened);
    coordinator_holds_what_it_heard(states, events, queue_empty, actions, cands);
    assert(handles_view(states.last().found@).len() == states.last().found@.len());
}

/// Every candidate stands for a file handle of the snapshot other than the caller's own.
pub proof fn candidates_are_files(
    entries: Seq<HandleEntryEx>,
    file_type: u16,
    own_pid: u64,
    own_handle: u64,
    i: int,
)
    requires
        0 <= i < candidates_in(entries, file_type, own_pid, own_handle).len(),
    ensures
        exists|k: int|
            0 <= k < entries.len() && is_candidate(
                #[trigger] entries[k],
                file_type,
                own_pid,
                own_handle,
            ) && candidates_in(entries, file_type, own_pid, own_handle)[i] == candidate_of(
                entries[k],
            ),
{
    let keep = |e: HandleEntryEx| is_candidate(e, file_type, own_pid, own_handle);
    crate::seqs::filter_keeps(entries, keep);
    let e = entries.filter(keep)[i];
    assert(keep(e));
    let k = choose|k: int| 0 <= k < entries.len() && entries[k] == e;
    assert(is_candidate(entries[k], file_type, own_pid, own_handle));
}

/// The candidates are all handles of the file type but the caller's own one, in the order of the
/// table, each with its value and access rights; a process number that fits into 32 bits is kept.
pub proof fn all_other_file_handles_are_candidates(
    entries: Seq<HandleEntryEx>,
    file_type: u16,
    own_pid: u64,
    own_handle: u64,
)
    requires
        forall|i: int| 0 <= i < entries.len() ==> (#[trigger] entries[i]).pid <= u32::MAX,
    ensures
        ({
            let files = entries.filter(
                |e: HandleEntryEx|
                    e.type_index == file_type && (e.pid != own_pid || e.handle != own_handle),
            );
            let cands = candidates_in(entries, file_type, own_pid, own_handle);
            &&& cands.len() == files.len()
            &&& forall|i: int|
                0 <= i < cands.len() ==> (#[trigger] cands[i]).pid == files[i].pid
                    && cands[i].handle == files[i].handle && cands[i].access == files[i].access
        }),
{
    let keep = |e: HandleEntryEx| is_candidate(e, file_type, own_pid, own_handle);
    let plain = |e: HandleEntryEx|
        e.type_index == file_type && (e.pid != own_pid || e.handle != own_handle);
    crate::seqs::filter_same(entries, keep, plain);
    crate::seqs::filter_keeps(entries, plain);
    let files = entries.filter(plain);
    let cands = candidates_in(entries, file_type, own_pid, own_handle);
    assert forall|i: int| 0 <= i < cands.len() implies (#[trigger] cands[i]).pid == files[i].pid
        && cands[i].handle == files[i].handle && cands[i].access == files[i].access by {
        assert(entries.contains(files[i]));
    }
}

/// All shards but the last are equally long, and none is longer than an even share rounded up.
pub proof fn shards_are_even(count: int, workers: int)
    requires
        0 < count,
        workers > 0,
    ensures
        ({
            let s = shards_from(0, count, chunk_len(count, workers));
            &&& forall|i: int|
                0 <= i < s.len() - 1 ==> (#[trigger] s[i]).1 - s[i].0 == s[0].1 - s[0].0
            &&& forall|i: int|
                0 <= i < s.len() ==> ((#[trigger] s[i]).1 - s[i].0 - 1) * workers < count
        }),
{
    let chunk = chunk_len(count, workers);
    ceiling(count, workers);
    vstd::arithmetic::div_mod::lemma_fundamental_div_mod(count, workers);
    vstd::arithmetic::div_mod::lemma_mod_bound(count, workers);
    let q = count / workers;
    let r = count % workers;
    assert((chunk - 1) * workers < count && chunk >= 1) by (nonlinear_arith)
        requires
            count == workers * q + r,
            0 <= r < workers,
            count > 0,
            chunk == if r != 0 {
                q + 1
            } else if q == 0 {
                1
            } else {
                q
            },
            q >= 0,
    ;
    shards_cover_everything(0, count, chunk);
    shards_have_one_length(0, count, chunk);
    let s = shards_from(0, count, chunk);
    assert forall|i: int| 0 <= i < s.len() implies ((#[trigger] s[i]).1 - s[i].0 - 1) * workers
        < count by {
        let n = s[i].1 - s[i].0;
        assert((n - 1) * workers <= (chunk - 1) * workers) by (nonlinear_arith)
            requires
                n <= chunk,
                workers > 0,
        ;
    }
}

/// All shards but the last have the length of a chunk.
proof fn shards_have_one_length(from: int, count: int, chunk: int)
    requires
        0 <= from < count,
        chunk > 0,
    ensures
        ({
            let s = shards_from(from, count, chunk);
            forall|i: int| 0 <= i < s.len() - 1 ==> (#[trigger] s[i]).1 - s[i].0 == chunk
        }),
    decreases count - from,
{
    let s = shards_from(from, count, chunk);
    if from + chunk < count {
        let rest = shards_from(from + chunk, count, chunk);
        shards_have_one_length(from + chunk, count, chunk);
        assert forall|i: int| 0 <= i < s.len() - 1 implies (#[trigger] s[i]).1 - s[i].0
            == chunk by {
            if i > 0 {
                assert(s[i] == rest[i - 1]);
            }
        }
    }
}

/// What is queued are the positions of the handles that could be opened, in order; all others
/// count as failed.
pub proof fn queue_holds_what_could_be_opened(states: Seq<Opening>, opened: Seq<bool>)
    requires
        is_opening(states, opened),
        opened.len() <= usize::MAX,
    ensures
        states.last().queued().map_values(|p: usize| p as int) == Seq::new(
            opened.len(),
            |i: int| i,
        ).filter(|i: int| opened[i]),
        states.last().failures() == opened.filter(|b: bool| !b).len(),
    decreases opened.len(),
{
    reveal(Seq::filter);
    let look = |p: usize| p as int;
    let ok = |i: int| opened[i];
    let all = Seq::new(opened.len(), |i: int| i);
    if opened.len() > 0 {
        let n = opened.len() - 1;
        let front = states.drop_last();
        let fewer = opened.drop_last();
        let ok_before = |i: int| fewer[i];
        assert forall|i: int| 0 <= i < n implies noted(
            #[trigger] front[i],
            i as usize,
            fewer[i],
            front[i + 1],
        ) by {
            assert(noted(states[i], i as usize, opened[i], states[i + 1]));
        }
        queue_holds_what_could_be_opened(front, fewer);
        assert(noted(states[n], n as usize, opened[n], states[n + 1]));
        let some = Seq::new(n as nat, |i: int| i);
        assert(all == some.push(n as int));
        crate::seqs::filter_push(some, n as int, ok);
        assert forall|i: int| 0 <= i < some.len() implies ok(#[trigger] some[i]) == ok_before(
            some[i],
        ) by {}
        crate::seqs::filter_same(some, ok, ok_before);
        assert(fewer.push(opened[n]) == opened);
        crate::seqs::filter_push(fewer, opened[n], |b: bool| !b);
        assert(front.last() == states[n]);
        let q = states[n].queued();
        if opened[n] {
            assert(q.push(n as usize).map_values(look) == q.map_values(look).push(n as int));
        }
    } else {
        assert(states.last().queued().map_values(look) == all.filter(ok));
    }
}

/// A name that is heard is noted for the handle at its position: with the process, the value and
/// the access rights of that one, behind all that were noted before.
pub proof fn heard_name_belongs_to_its_handle(
    before: Coordinator,
    idx: usize,
    name: String,
    queue_empty: bool,
    cands: Seq<Candidate>,
    after: Coordinator,
    action: Action,
)
    requires
        taken(before, Event::Named(idx, name), queue_empty, cands, after, action),
    ensures
        after.found@.len() == before.found@.len() + 1,
        forall|i: int|
            0 <= i < before.found@.len() ==> (#[trigger] after.found@[i])@ == before.found@[i]@,
        after.found@.last().pid == cands[idx as int].pid,
        after.found@.last().handle == cands[idx as int].handle,
        after.found@.last().access == cands[idx as int].access,
        after.found@.last().name@ == name@,
{
    let a = handles_view(after.found@);
    let b = handles_view(before.found@);
    assert(a.len() == after.found@.len() && b.len() == before.found@.len());
    assert(a == b.push(a.last()));
    assert forall|i: int| 0 <= i < b.len() implies (#[trigger] after.found@[i])@
        == before.found@[i]@ by {
        assert(a[i] == b[i]);
    }
    assert(a.last() == after.found@.last()@);
}

/// Each wait without an answer is counted, and any answer starts the count anew. While handles
/// are waiting, such a wait starts another query thread, up to sixty-four in all; nothing else
/// starts one, and only the end of all threads ends a shard.
pub proof fn quiet_waits_are_counted(
    before: Coordinator,
    event: Event,
    queue_empty: bool,
    cands: Seq<Candidate>,
    after: Coordinator,
    action: Action,
)
    requires
        before.has_room(),
        taken(before, event, queue_empty, cands, after, action),
    ensures
        event is Timeout ==> after.idle_rounds == before.idle_rounds + 1 && after.received
            == before.received && after.found@ == before.found@,
        event is Named || event is Unnamed || event is Failed ==> after.idle_rounds == 0
            && after.received == before.received + 1,
        action is Spawn <==> event is Timeout && !queue_empty && before.respawns < 64,
        after.respawns == before.respawns + if action is Spawn {
            1int
        } else {
            0
        },
        action is Stop <==> event is Disconnected,
        event is Disconnected ==> after == before,
{
}

} // verus!
