//! An in-memory stream store for simulation: named append-only streams with
//! compare-and-append at the expected tail, scripted append faults, and
//! bounded reads.

use vstd::prelude::*;

use crate::fmt::{decimal, decimal_text};
use crate::text::text_equal;

verus! {

/// What the next append suffers.
#[derive(Clone, Copy, Debug, PartialEq, Eq, Structural)]
pub enum AppendFault {
    Acknowledge,
    RejectBeforeCommit,
    CommitThenTimeout,
}

/// A record as stored: its stream, position, timestamp and body.
#[derive(Clone, Debug, PartialEq, Eq)]
pub struct StoredRecord {
    pub stream: String,
    pub sequence: u64,
    pub timestamp: u64,
    pub body: Vec<u8>,
}

/// The positions an append occupied: from `start` up to the new tail `end`.
#[derive(Clone, Copy, Debug, PartialEq, Eq, Structural)]
pub struct AppendAck {
    pub start: u64,
    pub end: u64,
}

/// The outcome of an append that returned.
#[derive(Clone, Copy, Debug, PartialEq, Eq)]
pub struct MemS2Append {
    pub acknowledgement: Option<AppendAck>,
    pub committed: bool,
}

/// Why an append failed.
#[derive(Clone, Debug, PartialEq, Eq)]
pub enum MemS2Error {
    CasConflict { expected: u64, actual: u64 },
    Rejected,
    TimeoutAfterCommit,
}

impl MemS2Error {
    /// The error as its `Display` shows it.
    pub fn message(&self) -> (text: String)
        ensures
            text@ == match *self {
                MemS2Error::CasConflict { expected, actual } => "append compare-and-set failed: expected "@ + decimal(
                    expected as nat,
                ) + ", current tail is "@ + decimal(actual as nat),
                MemS2Error::Rejected => "append failed before commit"@,
                MemS2Error::TimeoutAfterCommit => "append timed out after commit; durability is ambiguous to the caller"@,
            },
    {
        match self {
            MemS2Error::CasConflict { expected, actual } => {
                let mut t = String::from_str("append compare-and-set failed: expected ");
                let e = decimal_text(*expected);
                t.append(e.as_str());
                t.append(", current tail is ");
                let a = decimal_text(*actual);
                t.append(a.as_str());
                t
            },
            MemS2Error::Rejected => String::from_str("append failed before commit"),
            MemS2Error::TimeoutAfterCommit => String::from_str(
                "append timed out after commit; durability is ambiguous to the caller",
            ),
        }
    }
}

/// A record as plain values.
pub open spec fn record_view(r: StoredRecord) -> (Seq<char>, u64, u64, Seq<u8>) {
    (r.stream@, r.sequence, r.timestamp, r.body@)
}

/// Records as plain values.
pub open spec fn records_view(r: Seq<StoredRecord>) -> Seq<(Seq<char>, u64, u64, Seq<u8>)> {
    r.map_values(|x: StoredRecord| record_view(x))
}

/// The records of stream `name`: those of the first entry for it.
pub open spec fn stream_of(streams: Seq<(String, Vec<StoredRecord>)>, name: Seq<char>) -> Seq<(Seq<char>, u64, u64, Seq<u8>)>
    decreases streams.len(),
{
    if streams.len() == 0 {
        Seq::empty()
    } else if streams[0].0@ == name {
        records_view(streams[0].1@)
    } else {
        stream_of(streams.drop_first(), name)
    }
}

/// The clock after `k` ticks from `c`, stopping at the largest value.
pub open spec fn ticked(c: u64, k: nat) -> u64 {
    if c + k > u64::MAX {
        u64::MAX
    } else {
        (c + k) as u64
    }
}

/// `records` with `bodies` appended to stream `name`: each at the next
/// position, stamped with the next clock value.
pub open spec fn appended(
    records: Seq<(Seq<char>, u64, u64, Seq<u8>)>,
    name: Seq<char>,
    bodies: Seq<Seq<u8>>,
    clock: u64,
) -> Seq<(Seq<char>, u64, u64, Seq<u8>)> {
    records + Seq::new(bodies.len(), |k: int| (name, (records.len() + k) as u64, ticked(clock, k as nat), bodies[k]))
}

/// Each record sits at its own position.
pub open spec fn numbered(records: Seq<(Seq<char>, u64, u64, Seq<u8>)>) -> bool {
    forall|i: int| 0 <= i < records.len() ==> #[trigger] records[i].1 == i
}

/// An append keeps a stream's records at their own positions, as long as
/// the positions fit.
pub proof fn law_appends_keep_records_numbered(
    records: Seq<(Seq<char>, u64, u64, Seq<u8>)>,
    name: Seq<char>,
    bodies: Seq<Seq<u8>>,
    clock: u64,
)
    requires
        numbered(records),
        records.len() + bodies.len() <= u64::MAX + 1,
    ensures
        numbered(appended(records, name, bodies, clock)),
{
    let a = appended(records, name, bodies, clock);
    assert forall|i: int| 0 <= i < a.len() implies #[trigger] a[i].1 == i by {
        if i >= records.len() {
            assert(a[i] == (name, (records.len() + (i - records.len())) as u64, ticked(clock, (i - records.len()) as nat), bodies[i - records.len()]));
        }
    }
}

/// At most `limit` records from position `from` on.
pub open spec fn window(records: Seq<(Seq<char>, u64, u64, Seq<u8>)>, from: u64, limit: usize) -> Seq<
    (Seq<char>, u64, u64, Seq<u8>),
> {
    if from >= records.len() {
        Seq::empty()
    } else if from + limit >= records.len() {
        records.subrange(from as int, records.len() as int)
    } else {
        records.subrange(from as int, from + limit)
    }
}

fn copy_records(records: &Vec<StoredRecord>) -> (copy: Vec<StoredRecord>)
    ensures
        records_view(copy@) == records_view(records@),
{
    let mut out: Vec<StoredRecord> = Vec::new();
    let n = records.len();
    let mut i: usize = 0;
    while i < n
        invariant
            n == records@.len(),
            i <= n,
            out@.len() == i,
            records_view(out@) == records_view(records@).take(i as int),
        decreases n - i,
    {
        let r = &records[i];
        out.push(StoredRecord { stream: r.stream.clone(), sequence: r.sequence, timestamp: r.timestamp, body: r.body.clone() });
        assert(records_view(out@)[i as int] == records_view(records@)[i as int]);
        assert(records_view(out@) =~= records_view(records@).take(i + 1));
        i = i + 1;
    }
    assert(records_view(records@).take(n as int) =~= records_view(records@));
    out
}

/// The in-memory store.
#[derive(Debug)]
pub struct MemS2 {
    streams: Vec<(String, Vec<StoredRecord>)>,
    faults: Vec<AppendFault>,
    clock: u64,
}

impl MemS2 {
    /// The records of stream `name`.
    pub closed spec fn stream(&self, name: Seq<char>) -> Seq<(Seq<char>, u64, u64, Seq<u8>)> {
        stream_of(self.streams@, name)
    }

    /// The faults still scripted, the next first.
    pub closed spec fn scripted(&self) -> Seq<AppendFault> {
        self.faults@
    }

    /// The timestamp the next record gets.
    pub closed spec fn clock(&self) -> u64 {
        self.clock
    }

    /// An empty store with nothing scripted.
    pub fn new() -> (store: Self)
        ensures
            forall|name: Seq<char>| store.stream(name).len() == 0,
            store.scripted().len() == 0,
            store.clock() == 0,
    {
        MemS2 { streams: Vec::new(), faults: Vec::new(), clock: 0 }
    }

    /// Scripts `faults` for the next appends, after those already scripted.
    pub fn script(&mut self, faults: Vec<AppendFault>)
        ensures
            final(self).scripted() == old(self).scripted() + faults@,
            forall|name: Seq<char>| final(self).stream(name) == old(self).stream(name),
            final(self).clock() == old(self).clock(),
    {
        let mut more = faults;
        self.faults.append(&mut more);
    }

    fn locate(&self, name: &str) -> (at: Option<usize>)
        ensures
            at matches Some(i) ==> i < self.streams@.len() && self.streams@[i as int].0@ == name@ && forall|j: int|
                0 <= j < i ==> self.streams@[j].0@ != name@,
            at is None ==> forall|j: int| 0 <= j < self.streams@.len() ==> self.streams@[j].0@ != name@,
    {
        let mut i: usize = 0;
        while i < self.streams.len()
            invariant
                i <= self.streams@.len(),
                forall|j: int| 0 <= j < i ==> self.streams@[j].0@ != name@,
            decreases self.streams@.len() - i,
        {
            if text_equal(self.streams[i].0.as_str(), name) {
                return Some(i);
            }
            i = i + 1;
        }
        None
    }

    proof fn lemma_stream_at(streams: Seq<(String, Vec<StoredRecord>)>, i: int, name: Seq<char>)
        requires
            0 <= i < streams.len(),
            streams[i].0@ == name,
            forall|j: int| 0 <= j < i ==> streams[j].0@ != name,
        ensures
            stream_of(streams, name) == records_view(streams[i].1@),
        decreases i,
    {
        if i > 0 {
            Self::lemma_stream_at(streams.drop_first(), i - 1, name);
        }
    }

    proof fn lemma_stream_absent(streams: Seq<(String, Vec<StoredRecord>)>, name: Seq<char>)
        requires
            forall|j: int| 0 <= j < streams.len() ==> streams[j].0@ != name,
        ensures
            stream_of(streams, name) == Seq::<(Seq<char>, u64, u64, Seq<u8>)>::empty(),
        decreases streams.len(),
    {
        if streams.len() > 0 {
            Self::lemma_stream_absent(streams.drop_first(), name);
        }
    }

    proof fn lemma_stream_update(
        streams: Seq<(String, Vec<StoredRecord>)>,
        i: int,
        entry: (String, Vec<StoredRecord>),
        other: Seq<char>,
    )
        requires
            0 <= i < streams.len(),
            entry.0@ == streams[i].0@,
            other != streams[i].0@,
        ensures
            stream_of(streams.update(i, entry), other) == stream_of(streams, other),
        decreases i,
    {
        let u = streams.update(i, entry);
        if i > 0 {
            assert(u[0] == streams[0]);
            assert(u.drop_first() =~= streams.drop_first().update(i - 1, entry));
            Self::lemma_stream_update(streams.drop_first(), i - 1, entry, other);
        } else {
            assert(u[0] == entry);
            assert(u.drop_first() =~= streams.drop_first());
        }
    }

    proof fn lemma_stream_push(streams: Seq<(String, Vec<StoredRecord>)>, entry: (String, Vec<StoredRecord>), other: Seq<char>)
        requires
            other != entry.0@,
        ensures
            stream_of(streams.push(entry), other) == stream_of(streams, other),
        decreases streams.len(),
    {
        let p = streams.push(entry);
        if streams.len() > 0 {
            assert(p[0] == streams[0]);
            assert(p.drop_first() =~= streams.drop_first().push(entry));
            Self::lemma_stream_push(streams.drop_first(), entry, other);
        } else {
            assert(p[0] == entry);
            assert(p.drop_first() =~= Seq::<(String, Vec<StoredRecord>)>::empty());
            assert(stream_of(p.drop_first(), other) =~= Seq::<(Seq<char>, u64, u64, Seq<u8>)>::empty());
        }
    }

    /// The tail of stream `name`: the position its next record takes.
    pub fn tail(&self, name: &str) -> (tail: u64)
        ensures
            tail == self.stream(name@).len(),
    {
        match self.locate(name) {
            Some(i) => {
                proof {
                    Self::lemma_stream_at(self.streams@, i as int, name@);
                }
                let n = self.streams[i].1.len();
                assert(self.stream(name@).len() == n);
                n as u64
            },
            None => {
                proof {
                    Self::lemma_stream_absent(self.streams@, name@);
                }
                0
            },
        }
    }

    /// At most `limit` records of stream `name` from position `from` on.
    pub fn read(&self, name: &str, from: u64, limit: usize) -> (records: Vec<StoredRecord>)
        ensures
            records_view(records@) == window(self.stream(name@), from, limit),
    {
        let mut out: Vec<StoredRecord> = Vec::new();
        match self.locate(name) {
            None => {
                proof {
                    Self::lemma_stream_absent(self.streams@, name@);
                }
                assert(records_view(out@) =~= window(self.stream(name@), from, limit));
                out
            },
            Some(s) => {
                proof {
                    Self::lemma_stream_at(self.streams@, s as int, name@);
                }
                let records = &self.streams[s].1;
                let n = records.len();
                let ghost all = records_view(records@);
                if from >= n as u64 {
                    assert(records_view(out@) =~= window(self.stream(name@), from, limit));
                    return out;
                }
                let start = from as usize;
                let end = if limit >= n - start { n } else { start + limit };
                let mut i = start;
                while i < end
                    invariant
                        n == records@.len(),
                        all == records_view(records@),
                        start <= i <= end <= n,
                        out@.len() == i - start,
                        records_view(out@) == all.subrange(start as int, i as int),
                    decreases end - i,
                {
                    let r = &records[i];
                    out.push(StoredRecord { stream: r.stream.clone(), sequence: r.sequence, timestamp: r.timestamp, body: r.body.clone() });
                    assert(records_view(out@)[i - start] == all[i as int]);
                    assert(records_view(out@) =~= all.subrange(start as int, i + 1));
                    i = i + 1;
                }
                assert(records_view(out@) =~= window(self.stream(name@), from, limit));
                out
            },
        }
    }

    /// Appends `bodies` to stream `name` when its tail is `expected`: a
    /// stale position changes nothing; otherwise the next scripted fault
    /// (none means acknowledge) is consumed, a rejection commits nothing,
    /// and an acknowledged or timed-out append commits every body, as
    /// `appended` states.
    #[verifier::rlimit(40)]
    pub fn append(&mut self, name: &str, expected: u64, bodies: Vec<Vec<u8>>) -> (r: Result<MemS2Append, MemS2Error>)
        ensures
            expected != old(self).stream(name@).len() ==> r == Err::<MemS2Append, MemS2Error>(
                MemS2Error::CasConflict { expected, actual: old(self).stream(name@).len() as u64 },
            ) && final(self).scripted() == old(self).scripted() && final(self).clock() == old(self).clock() && forall|n: Seq<char>|
                final(self).stream(n) == old(self).stream(n),
            expected == old(self).stream(name@).len() ==> {
                let fault = if old(self).scripted().len() > 0 {
                    old(self).scripted()[0]
                } else {
                    AppendFault::Acknowledge
                };
                &&& final(self).scripted() == if old(self).scripted().len() > 0 {
                    old(self).scripted().drop_first()
                } else {
                    old(self).scripted()
                }
                &&& forall|n: Seq<char>| n != name@ ==> final(self).stream(n) == old(self).stream(n)
                &&& fault == AppendFault::RejectBeforeCommit ==> r == Err::<MemS2Append, MemS2Error>(MemS2Error::Rejected)
                    && final(self).stream(name@) == old(self).stream(name@) && final(self).clock() == old(self).clock()
                &&& fault != AppendFault::RejectBeforeCommit ==> final(self).stream(name@) == appended(
                    old(self).stream(name@),
                    name@,
                    bodies@.map_values(|b: Vec<u8>| b@),
                    old(self).clock(),
                ) && final(self).clock() == ticked(old(self).clock(), bodies@.len())
                &&& fault == AppendFault::CommitThenTimeout ==> r == Err::<MemS2Append, MemS2Error>(MemS2Error::TimeoutAfterCommit)
                &&& fault == AppendFault::Acknowledge ==> r == Ok::<MemS2Append, MemS2Error>(
                    MemS2Append {
                        acknowledgement: Some(AppendAck { start: expected, end: (expected + bodies@.len()) as u64 }),
                        committed: true,
                    },
                )
            },
    {
        let actual = self.tail(name);
        if expected != actual {
            return Err(MemS2Error::CasConflict { expected, actual });
        }
        let fault = if self.faults.len() > 0 {
            self.faults.remove(0)
        } else {
            AppendFault::Acknowledge
        };
        if fault == AppendFault::RejectBeforeCommit {
            return Err(MemS2Error::Rejected);
        }
        let ghost old_streams = self.streams@;
        let ghost faults_left = self.faults@;
        let ghost before = old(self).stream(name@);
        let ghost clock0 = self.clock;
        let ghost bv = bodies@.map_values(|b: Vec<u8>| b@);
        let mut records: Vec<StoredRecord> = match self.locate(name) {
            Some(s) => {
                proof {
                    Self::lemma_stream_at(old_streams, s as int, name@);
                }
                copy_records(&self.streams[s].1)
            },
            None => {
                proof {
                    Self::lemma_stream_absent(old_streams, name@);
                }
                Vec::new()
            },
        };
        assert(records_view(records@) == before);
        let n = bodies.len();
        let mut k: usize = 0;
        while k < n
            invariant
                n == bodies@.len(),
                bv == bodies@.map_values(|b: Vec<u8>| b@),
                k <= n,
                records_view(records@) == appended(before, name@, bv.take(k as int), clock0),
                self.clock == ticked(clock0, k as nat),
                before.len() == expected,
                records@.len() == before.len() + k,
                self.streams@ == old_streams,
                self.faults@ == faults_left,
            decreases n - k,
        {
            let ghost prev = records_view(records@);
            let sequence = records.len() as u64;
            let timestamp = self.clock;
            self.clock = if self.clock == u64::MAX { self.clock } else { self.clock + 1 };
            let body = bodies[k].clone();
            assert(body@ =~= bv[k as int]);
            records.push(StoredRecord { stream: name.to_string(), sequence, timestamp, body });
            proof {
                let last = (name@, (before.len() + k) as u64, ticked(clock0, k as nat), bv[k as int]);
                assert(records_view(records@) =~= prev.push(last));
                assert(appended(before, name@, bv.take(k + 1), clock0) =~= appended(before, name@, bv.take(k as int), clock0).push(last));
                assert(bv.take(k + 1) =~= bv.take(k as int).push(bv[k as int]));
                assert(records_view(records@) =~= appended(before, name@, bv.take(k + 1), clock0));
            }
            k = k + 1;
        }
        assert(bv.take(n as int) =~= bv);
        let end = records.len() as u64;
        let ghost mid = self.streams@;
        assert(mid == old(self).streams@);
        match self.locate(name) {
            Some(s) => {
                let entry = (name.to_string(), records);
                let ghost e = entry;
                self.streams.set(s, entry);
                proof {
                    assert(self.streams@ == mid.update(s as int, e));
                    Self::lemma_stream_at(self.streams@, s as int, name@);
                    assert forall|other: Seq<char>| other != name@ implies self.stream(other) == old(self).stream(other) by {
                        Self::lemma_stream_update(mid, s as int, e, other);
                    }
                }
            },
            None => {
                let entry = (name.to_string(), records);
                let ghost e = entry;
                self.streams.push(entry);
                proof {
                    assert(self.streams@ == mid.push(e));
                    assert(self.streams@[mid.len() as int] == e);
                    Self::lemma_stream_at(self.streams@, mid.len() as int, name@);
                    assert forall|other: Seq<char>| other != name@ implies self.stream(other) == old(self).stream(other) by {
                        Self::lemma_stream_push(mid, e, other);
                    }
                }
            },
        }
        if fault == AppendFault::CommitThenTimeout {
            return Err(MemS2Error::TimeoutAfterCommit);
        }
        Ok(MemS2Append { acknowledgement: Some(AppendAck { start: expected, end }), committed: true })
    }
}

/// What a read gives back of a write: after bodies are appended at the old
/// tail, reading them from that tail returns exactly those bodies, in
/// order, at consecutive positions, and the records before stay as they
/// were.
pub proof fn law_read_returns_appended(
    records: Seq<(Seq<char>, u64, u64, Seq<u8>)>,
    name: Seq<char>,
    bodies: Seq<Seq<u8>>,
    clock: u64,
    limit: usize,
)
    requires
        records.len() + bodies.len() <= u64::MAX,
        limit >= bodies.len(),
    ensures
        window(appended(records, name, bodies, clock), records.len() as u64, limit).map_values(
            |r: (Seq<char>, u64, u64, Seq<u8>)| r.3,
        ) == bodies,
        forall|k: int| 0 <= k < bodies.len() ==> #[trigger] window(appended(records, name, bodies, clock), records.len() as u64, limit)[k].1
            == records.len() + k,
        appended(records, name, bodies, clock).take(records.len() as int) == records,
{
    let all = appended(records, name, bodies, clock);
    let w = window(all, records.len() as u64, limit);
    if bodies.len() > 0 {
        assert(w =~= all.subrange(records.len() as int, all.len() as int));
    } else {
        assert(w =~= Seq::<(Seq<char>, u64, u64, Seq<u8>)>::empty());
    }
    assert(w.map_values(|r: (Seq<char>, u64, u64, Seq<u8>)| r.3) =~= bodies);
    assert(all.take(records.len() as int) =~= records);
}


/// Domain failures of graph-stream operations on the journal.
#[derive(Clone, Copy, Debug, PartialEq, Eq, Structural)]
pub enum JournalError {
    NotFound,
    CasConflict { current_tail: u64 },
    ComponentConflict,
}

impl JournalError {
    /// The error as its `Display` shows it.
    pub fn message(&self) -> (text: String)
        ensures
            text@ == match *self {
                JournalError::NotFound => "graph does not exist"@,
                JournalError::CasConflict { current_tail } => "journal compare-and-append failed; current tail is "@ + decimal(
                    current_tail as nat,
                ),
                JournalError::ComponentConflict => "component identity is already registered with another specification"@,
            },
    {
        match self {
            JournalError::NotFound => String::from_str("graph does not exist"),
            JournalError::CasConflict { current_tail } => {
                let mut t = String::from_str("journal compare-and-append failed; current tail is ");
                let d = decimal_text(*current_tail);
                t.append(d.as_str());
                t
            },
            JournalError::ComponentConflict => String::from_str("component identity is already registered with another specification"),
        }
    }
}

} // verus!
