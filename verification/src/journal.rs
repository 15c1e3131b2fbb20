//! Replaying and appending durable journal streams over a stream store:
//! a replay reads every page up to the tail captured first and refuses gaps;
//! an append whose commit is unknown is resolved by reading back what the
//! stream holds where the records would stand.

use vstd::prelude::*;

use crate::fmt::{decimal, decimal_text};
use crate::memstore::{numbered, record_view, records_view, window, MemS2, StoredRecord};

verus! {

/// Why a stream store refused an operation.
#[derive(Clone, Debug, PartialEq, Eq)]
pub enum StorageFailure {
    /// Worth retrying.
    Transient(String),
    /// A broken expectation; retrying cannot help.
    Invariant(String),
    /// The stream's tail was not where the caller expected it.
    CasConflict { expected: u64, actual: u64 },
}

/// A read's answer with its records as plain values.
pub open spec fn read_view(answer: Result<Vec<StoredRecord>, StorageFailure>) -> Result<Seq<(Seq<char>, u64, u64, Seq<u8>)>, StorageFailure> {
    match answer {
        Ok(records) => Ok(records_view(records@)),
        Err(e) => Err(e),
    }
}

/// The reads a journal makes of a stream store.
pub trait StreamStore {
    /// `answer` is an answer that asking this store for the tail of
    /// `stream` may give; a store that promises nothing allows any answer.
    open spec fn answers_tail(&self, stream: Seq<char>, answer: Result<u64, StorageFailure>) -> bool {
        true
    }

    /// `answer` is an answer that asking this store for at most `limit`
    /// records of `stream` from `from` on may give.
    open spec fn answers_read(
        &self,
        stream: Seq<char>,
        from: u64,
        limit: usize,
        answer: Result<Seq<(Seq<char>, u64, u64, Seq<u8>)>, StorageFailure>,
    ) -> bool {
        true
    }

    /// The position the next record of `stream` takes.
    fn tail(&self, stream: &str) -> (answer: Result<u64, StorageFailure>)
        ensures
            self.answers_tail(stream@, answer),
    ;

    /// At most `limit` records of `stream` from position `from` on.
    fn read(&self, stream: &str, from: u64, limit: usize) -> (answer: Result<Vec<StoredRecord>, StorageFailure>)
        ensures
            self.answers_read(stream@, from, limit, read_view(answer)),
    ;
}

impl StreamStore for MemS2 {
    /// The in-memory store always answers with the stream's length.
    open spec fn answers_tail(&self, stream: Seq<char>, answer: Result<u64, StorageFailure>) -> bool {
        answer == Ok::<u64, StorageFailure>(self.stream(stream).len() as u64)
    }

    /// The in-memory store always answers with the window of the stream.
    open spec fn answers_read(
        &self,
        stream: Seq<char>,
        from: u64,
        limit: usize,
        answer: Result<Seq<(Seq<char>, u64, u64, Seq<u8>)>, StorageFailure>,
    ) -> bool {
        answer == Ok::<Seq<(Seq<char>, u64, u64, Seq<u8>)>, StorageFailure>(window(self.stream(stream), from, limit))
    }

    fn tail(&self, stream: &str) -> (answer: Result<u64, StorageFailure>) {
        Ok(MemS2::tail(self, stream))
    }

    fn read(&self, stream: &str, from: u64, limit: usize) -> (answer: Result<Vec<StoredRecord>, StorageFailure>) {
        Ok(MemS2::read(self, stream, from, limit))
    }
}

/// The most records one read asks for.
pub const PAGE_LIMIT: usize = 1000;

/// `records` sit at consecutive positions from zero.
pub open spec fn consecutive_from_zero(records: Seq<StoredRecord>) -> bool {
    forall|i: int| 0 <= i < records.len() ==> #[trigger] records[i].sequence == i
}

fn no_progress(stream: &str, cursor: u64, tail: u64) -> (f: StorageFailure)
    ensures
        f == StorageFailure::Invariant(f->Invariant_0),
        f->Invariant_0@ == "journal read made no progress on "@ + stream@ + ": cursor "@ + decimal(cursor as nat)
            + ", captured tail "@ + decimal(tail as nat),
{
    let mut m = String::from_str("journal read made no progress on ");
    m.append(stream);
    m.append(": cursor ");
    let c = decimal_text(cursor);
    m.append(c.as_str());
    m.append(", captured tail ");
    let t = decimal_text(tail);
    m.append(t.as_str());
    StorageFailure::Invariant(m)
}

fn read_gap(stream: &str, expected: u64, got: u64) -> (f: StorageFailure)
    ensures
        f == StorageFailure::Invariant(f->Invariant_0),
        f->Invariant_0@ == "journal read gap on "@ + stream@ + ": expected sequence "@ + decimal(expected as nat)
            + ", got "@ + decimal(got as nat),
{
    let mut m = String::from_str("journal read gap on ");
    m.append(stream);
    m.append(": expected sequence ");
    let e = decimal_text(expected);
    m.append(e.as_str());
    m.append(", got ");
    let g = decimal_text(got);
    m.append(g.as_str());
    StorageFailure::Invariant(m)
}

/// A record as plain values: stream, position, timestamp, body.
pub type RecordView = (Seq<char>, u64, u64, Seq<u8>);

/// Why a page read during a replay is refused.
pub enum PageFault {
    /// The page is empty though the captured tail is not reached.
    NoProgress,
    /// A record is not at the position that comes next (expected, got).
    Gap(u64, u64),
    /// A record lies at or past the captured tail.
    PastTail,
}

/// Scanning `page` from its `k`th record, read at `cursor` with `tail`
/// captured: the first record out of position is a gap, else the first at
/// the captured tail goes past it.
pub open spec fn page_scan(page: Seq<RecordView>, k: int, cursor: u64, tail: u64) -> Option<PageFault>
    decreases page.len() - k,
{
    if k < 0 || k >= page.len() {
        None
    } else if page[k].1 != cursor + k {
        Some(PageFault::Gap((cursor + k) as u64, page[k].1))
    } else if cursor + k == tail {
        Some(PageFault::PastTail)
    } else {
        page_scan(page, k + 1, cursor, tail)
    }
}

/// What refuses a page read at `cursor` with `tail` captured, if anything.
pub open spec fn page_fault(page: Seq<RecordView>, cursor: u64, tail: u64) -> Option<PageFault> {
    if page.len() == 0 {
        Some(PageFault::NoProgress)
    } else {
        page_scan(page, 0, cursor, tail)
    }
}

/// The message of a refused page of `stream`.
pub open spec fn page_failure(stream: Seq<char>, fault: PageFault, cursor: u64, tail: u64) -> Seq<char> {
    match fault {
        PageFault::NoProgress => "journal read made no progress on "@ + stream + ": cursor "@ + decimal(cursor as nat)
            + ", captured tail "@ + decimal(tail as nat),
        PageFault::Gap(expected, got) => "journal read gap on "@ + stream + ": expected sequence "@ + decimal(
            expected as nat,
        ) + ", got "@ + decimal(got as nat),
        PageFault::PastTail => "journal read passed captured tail on "@ + stream,
    }
}

/// `store` serves `stream` in order: every tail it answers is `n`, and every
/// read from a position before `n` asking for at least one record and none
/// past `n` answers a non-empty page, no longer than asked, of the records
/// at consecutive positions from where the read starts.
pub open spec fn serves_in_order<S: StreamStore>(store: &S, stream: Seq<char>, n: u64) -> bool {
    &&& forall|a: Result<u64, StorageFailure>| #[trigger] store.answers_tail(stream, a) ==> a == Ok::<u64, StorageFailure>(n)
    &&& forall|from: u64, limit: usize, a: Result<Seq<RecordView>, StorageFailure>|
        from < n && 0 < limit && from + limit <= n && #[trigger] store.answers_read(stream, from, limit, a) ==> (a matches Ok(
            page,
        ) && 0 < page.len() <= limit && forall|k: int| 0 <= k < page.len() ==> #[trigger] page[k].1 == from + k)
}

proof fn lemma_in_order_page_scan(page: Seq<RecordView>, k: int, cursor: u64, tail: u64)
    requires
        0 <= k <= page.len(),
        cursor + page.len() <= tail,
        forall|j: int| 0 <= j < page.len() ==> #[trigger] page[j].1 == cursor + j,
    ensures
        page_scan(page, k, cursor, tail) is None,
    decreases page.len() - k,
{
    if k < page.len() {
        assert(page[k].1 == cursor + k);
        lemma_in_order_page_scan(page, k + 1, cursor, tail);
    }
}

/// Takes a page read at `cursor` with `tail` captured into `records`: a
/// page that `page_fault` refuses is an invariant failure with its message;
/// otherwise its records join `records` and the cursor moves past them.
pub fn accept_page(records: &mut Vec<StoredRecord>, cursor: u64, tail: u64, stream: &str, page: &Vec<StoredRecord>) -> (r:
    Result<u64, StorageFailure>)
    requires
        cursor < tail,
    ensures
        page_fault(records_view(page@), cursor, tail) is None ==> {
            &&& r == Ok::<u64, StorageFailure>((cursor + page@.len()) as u64)
            &&& cursor + page@.len() <= tail
            &&& records_view(final(records)@) == records_view(old(records)@) + records_view(page@)
            &&& final(records)@.len() == old(records)@.len() + page@.len()
            &&& (old(records)@.len() == cursor && consecutive_from_zero(old(records)@)) ==> consecutive_from_zero(
                final(records)@,
            )
        },
        page_fault(records_view(page@), cursor, tail) matches Some(f) ==> (r matches Err(StorageFailure::Invariant(m))
            && m@ == page_failure(stream@, f, cursor, tail)),
{
    let ghost pv = records_view(page@);
    let ghost start = old(records)@;
    if page.len() == 0 {
        return Err(no_progress(stream, cursor, tail));
    }
    let n = page.len();
    let mut k: usize = 0;
    while k < n
        invariant
            n == page@.len(),
            pv == records_view(page@),
            k <= n,
            cursor < tail,
            page_scan(pv, 0, cursor, tail) == page_scan(pv, k as int, cursor, tail),
            forall|j: int| 0 <= j < k ==> #[trigger] pv[j].1 == cursor + j && cursor + j != tail,
            cursor + k <= tail,
            records_view(records@) == records_view(start) + pv.take(k as int),
            (start.len() == cursor && consecutive_from_zero(start)) ==> consecutive_from_zero(records@),
            records@.len() == start.len() + k,
        decreases n - k,
    {
        let record = &page[k];
        assert(pv[k as int] == record_view(*record));
        let at = cursor + k as u64;
        if record.sequence != at {
            return Err(read_gap(stream, at, record.sequence));
        }
        if at == tail {
            let mut m = String::from_str("journal read passed captured tail on ");
            m.append(stream);
            return Err(StorageFailure::Invariant(m));
        }
        let ghost before = records@;
        records.push(
            StoredRecord {
                stream: record.stream.clone(),
                sequence: record.sequence,
                timestamp: record.timestamp,
                body: record.body.clone(),
            },
        );
        proof {
            assert(records_view(records@)[before.len() as int] == pv[k as int]);
            assert(records_view(records@) =~= records_view(before).push(pv[k as int]));
            assert(pv.take(k + 1) =~= pv.take(k as int).push(pv[k as int]));
            assert(records_view(records@) =~= records_view(start) + pv.take(k + 1));
            if start.len() == cursor && consecutive_from_zero(start) {
                assert forall|i: int| 0 <= i < records@.len() implies #[trigger] records@[i].sequence == i by {
                    if i < before.len() {
                        assert(records@[i] == before[i]);
                    }
                }
            }
        }
        k = k + 1;
    }
    proof {
        assert(pv.take(n as int) =~= pv);
    }
    Ok(cursor + n as u64)
}

/// How many records a replay asks for when `remaining` are left before the
/// captured tail.
pub open spec fn page_limit(remaining: int) -> usize {
    if remaining < PAGE_LIMIT {
        remaining as usize
    } else {
        PAGE_LIMIT
    }
}

/// Pages of records, one after another.
pub open spec fn joined_pages(pages: Seq<Seq<RecordView>>) -> Seq<RecordView>
    decreases pages.len(),
{
    if pages.len() == 0 {
        Seq::empty()
    } else {
        joined_pages(pages.drop_last()) + pages.last()
    }
}

/// `pages` are what `store` may answer a replay of `stream` up to `tail`:
/// each is a non-empty answer to a read from where the pages before it end,
/// asking for at most `PAGE_LIMIT` records and none past `tail`.
pub open spec fn replayed<S: StreamStore>(store: &S, stream: Seq<char>, pages: Seq<Seq<RecordView>>, tail: u64) -> bool {
    forall|i: int| 0 <= i < pages.len() ==> #[trigger] page_answered(store, stream, pages, i, tail)
}

/// The `i`th of `pages` is a non-empty answer to a read from where the
/// pages before it end, short of `tail`.
pub open spec fn page_answered<S: StreamStore>(store: &S, stream: Seq<char>, pages: Seq<Seq<RecordView>>, i: int, tail: u64) -> bool {
    let from = joined_pages(pages.take(i)).len();
    &&& from < tail
    &&& pages[i].len() > 0
    &&& store.answers_read(stream, from as u64, page_limit(tail - from), Ok(pages[i]))
}

proof fn lemma_replayed_push<S: StreamStore>(store: &S, stream: Seq<char>, pages: Seq<Seq<RecordView>>, page: Seq<RecordView>, tail: u64)
    requires
        replayed(store, stream, pages, tail),
        joined_pages(pages).len() < tail,
        page.len() > 0,
        store.answers_read(stream, joined_pages(pages).len() as u64, page_limit(tail - joined_pages(pages).len()), Ok(page)),
    ensures
        replayed(store, stream, pages.push(page), tail),
        joined_pages(pages.push(page)) == joined_pages(pages) + page,
{
    let next = pages.push(page);
    assert(next.drop_last() =~= pages);
    assert forall|i: int| 0 <= i < next.len() implies #[trigger] page_answered(store, stream, next, i, tail) by {
        if i < pages.len() {
            assert(next.take(i) =~= pages.take(i));
            assert(page_answered(store, stream, pages, i, tail));
        } else {
            assert(next.take(i) =~= pages);
        }
    }
}

proof fn lemma_memory_pages(store: &MemS2, stream: Seq<char>, pages: Seq<Seq<RecordView>>, tail: u64)
    requires
        replayed(store, stream, pages, tail),
    ensures
        joined_pages(pages) == store.stream(stream).take(joined_pages(pages).len() as int),
        joined_pages(pages).len() <= store.stream(stream).len(),
    decreases pages.len(),
{
    let st = store.stream(stream);
    if pages.len() > 0 {
        let rest = pages.drop_last();
        assert forall|i: int| 0 <= i < rest.len() implies #[trigger] page_answered(store, stream, rest, i, tail) by {
            assert(rest.take(i) =~= pages.take(i));
            assert(page_answered(store, stream, pages, i, tail));
        }
        lemma_memory_pages(store, stream, rest, tail);
        let last = pages.len() - 1;
        assert(page_answered(store, stream, pages, last, tail));
        assert(pages.take(last) =~= rest);
        let from = joined_pages(rest).len();
        let page = pages[last];
        assert(page == window(st, from as u64, page_limit(tail - from)));
        assert(joined_pages(pages) == joined_pages(rest) + page);
        assert(joined_pages(pages) =~= st.take(joined_pages(pages).len() as int));
    } else {
        assert(joined_pages(pages) =~= st.take(0));
    }
}

/// A replay of the in-memory store that succeeds gives back exactly the
/// stream: its pages, one after another, are the stream's records.
pub proof fn law_memory_replay_is_the_stream(store: &MemS2, stream: Seq<char>, pages: Seq<Seq<RecordView>>, tail: u64)
    requires
        store.stream(stream).len() <= u64::MAX,
        store.answers_tail(stream, Ok::<u64, StorageFailure>(tail)),
        replayed(store, stream, pages, tail),
        joined_pages(pages).len() == tail,
    ensures
        joined_pages(pages) == store.stream(stream),
{
    lemma_memory_pages(store, stream, pages, tail);
    assert(store.stream(stream).take(tail as int) =~= store.stream(stream));
}

/// The in-memory store serves a stream in order when each of its records
/// sits at its own position, so a replay of it succeeds (see
/// `load_records`) and gives back the stream (see
/// `law_memory_replay_is_the_stream`).
pub proof fn law_memory_serves_numbered_streams_in_order(store: &MemS2, stream: Seq<char>)
    requires
        store.stream(stream).len() <= u64::MAX,
        numbered(store.stream(stream)),
    ensures
        serves_in_order(store, stream, store.stream(stream).len() as u64),
{
    let st = store.stream(stream);
    let n = st.len() as u64;
    assert forall|from: u64, limit: usize, a: Result<Seq<RecordView>, StorageFailure>|
        from < n && 0 < limit && from + limit <= n && #[trigger] store.answers_read(stream, from, limit, a) implies (a matches Ok(
            page,
        ) && 0 < page.len() <= limit && forall|k: int| 0 <= k < page.len() ==> #[trigger] page[k].1 == from + k) by {
        let page = window(st, from, limit);
        assert(a == Ok::<Seq<RecordView>, StorageFailure>(page));
        assert forall|k: int| 0 <= k < page.len() implies #[trigger] page[k].1 == from + k by {
            assert(page[k] == st[from + k]);
        }
    }
}

/// Replays `stream`: captures its tail, then reads pages of at most
/// `PAGE_LIMIT` records from position zero until that tail, each taken as
/// `accept_page` states. A replay that succeeds returns the records of pages
/// the store answered, one after another, at consecutive positions from
/// zero, as many as the tail the store answered, which it returns; and a
/// replay of a store that serves the stream in order succeeds.
pub fn load_records<S: StreamStore>(store: &S, stream: &str) -> (r: Result<(Vec<StoredRecord>, u64), StorageFailure>)
    ensures
        r matches Ok((records, cursor)) ==> records@.len() == cursor && consecutive_from_zero(records@),
        r matches Ok((records, cursor)) ==> store.answers_tail(stream@, Ok::<u64, StorageFailure>(cursor)),
        r matches Ok((records, cursor)) ==> exists|pages: Seq<Seq<RecordView>>|
            replayed(store, stream@, pages, cursor) && #[trigger] joined_pages(pages) == records_view(records@),
        forall|n: u64| #[trigger] serves_in_order(store, stream@, n) ==> r is Ok,
{
    let tail = match store.tail(stream) {
        Err(e) => {
            return Err(e);
        },
        Ok(t) => t,
    };
    let ghost ordered = exists|n: u64| #[trigger] serves_in_order(store, stream@, n);
    proof {
        if ordered {
            let n = choose|n: u64| #[trigger] serves_in_order(store, stream@, n);
            assert(store.answers_tail(stream@, Ok::<u64, StorageFailure>(tail)));
            assert(serves_in_order(store, stream@, tail));
        }
    }
    let mut records: Vec<StoredRecord> = Vec::new();
    let ghost mut pages: Seq<Seq<RecordView>> = Seq::empty();
    assert(records_view(records@) =~= joined_pages(pages));
    let mut cursor: u64 = 0;
    while cursor < tail
        invariant
            store.answers_tail(stream@, Ok::<u64, StorageFailure>(tail)),
            cursor <= tail,
            records@.len() == cursor,
            consecutive_from_zero(records@),
            records_view(records@) == joined_pages(pages),
            replayed(store, stream@, pages, tail),
            ordered == exists|n: u64| #[trigger] serves_in_order(store, stream@, n),
            ordered ==> serves_in_order(store, stream@, tail),
        decreases tail - cursor,
    {
        let remaining = tail - cursor;
        let limit: usize = if remaining < PAGE_LIMIT as u64 {
            remaining as usize
        } else {
            PAGE_LIMIT
        };
        let answer = store.read(stream, cursor, limit);
        proof {
            if ordered {
                assert(store.answers_read(stream@, cursor, limit, read_view(answer)));
            }
        }
        let page = match answer {
            Err(e) => {
                return Err(e);
            },
            Ok(p) => p,
        };
        let ghost before = pages;
        let ghost pv = records_view(page@);
        proof {
            assert(joined_pages(before).len() == cursor);
            assert(limit == page_limit(tail - cursor));
            if ordered {
                assert(read_view(answer) == Ok::<Seq<RecordView>, StorageFailure>(pv));
                assert(0 < pv.len() <= limit);
                lemma_in_order_page_scan(pv, 0, cursor, tail);
            }
        }
        match accept_page(&mut records, cursor, tail, stream, &page) {
            Err(e) => {
                return Err(e);
            },
            Ok(next) => {
                proof {
                    lemma_replayed_push(store, stream@, before, pv, tail);
                    pages = before.push(pv);
                }
                cursor = next;
            },
        }
    }
    assert(replayed(store, stream@, pages, cursor));
    Ok((records, cursor))
}

/// The acknowledgement of a resolved append: the records stand from `start`
/// and the stream's tail was `end` when the resolution finished.
#[derive(Clone, Copy, Debug, PartialEq, Eq, Structural)]
pub struct ResolvedAppend {
    pub start: u64,
    pub end: u64,
}

/// The bodies of some records, in order.
pub open spec fn bodies_of(records: Seq<RecordView>) -> Seq<Seq<u8>> {
    records.map_values(|r: RecordView| r.3)
}

/// Byte strings as plain values.
pub open spec fn byte_strings(b: Seq<Vec<u8>>) -> Seq<Seq<u8>> {
    b.map_values(|x: Vec<u8>| x@)
}

/// `a + b`, or the largest value when that does not fit.
pub open spec fn saturating(a: u64, b: u64) -> u64 {
    if a + b > u64::MAX {
        u64::MAX
    } else {
        (a + b) as u64
    }
}

/// Where the `i`th read-back page is read: at `expected` first, then just
/// past the last record of the page before.
pub open spec fn read_back_from(pages: Seq<Seq<RecordView>>, i: int, expected: u64) -> u64 {
    if i == 0 {
        expected
    } else {
        saturating(pages[i - 1].last().1, 1)
    }
}

/// The `i`th of `pages` is a non-empty answer to reading back, at most
/// `PAGE_LIMIT` at a time, the records still missing of `count` appended
/// from `expected`.
pub open spec fn read_back_page<S: StreamStore>(
    store: &S,
    stream: Seq<char>,
    pages: Seq<Seq<RecordView>>,
    i: int,
    expected: u64,
    count: nat,
) -> bool {
    let collected = joined_pages(pages.take(i)).len();
    let wanted = count - collected;
    &&& collected < count
    &&& pages[i].len() > 0
    &&& store.answers_read(
        stream,
        read_back_from(pages, i, expected),
        (if wanted < PAGE_LIMIT { wanted } else { PAGE_LIMIT as int }) as usize,
        Ok(pages[i]),
    )
}

/// Refuses to resolve an append of `count` records at `expected` when the
/// captured tail falls short of where they would end.
pub fn check_captured(expected: u64, count: u64, captured: u64) -> (r: Result<(), StorageFailure>)
    ensures
        captured < saturating(expected, count) ==> r == Err::<(), StorageFailure>(
            StorageFailure::CasConflict { expected, actual: captured },
        ),
        captured >= saturating(expected, count) ==> r is Ok,
{
    if captured < expected.saturating_add(count) {
        Err(StorageFailure::CasConflict { expected, actual: captured })
    } else {
        Ok(())
    }
}

/// Settles an append of `bodies` at `expected` from the bodies read back
/// and the tail seen last: it stands exactly when the bodies read back are
/// the appended ones, in order; otherwise it is a conflict at that tail.
pub fn settle_append(stored: &Vec<Vec<u8>>, bodies: &Vec<Vec<u8>>, expected: u64, current: u64) -> (r: Result<
    ResolvedAppend,
    StorageFailure,
>)
    ensures
        byte_strings(stored@) == byte_strings(bodies@) ==> r == Ok::<ResolvedAppend, StorageFailure>(
            ResolvedAppend { start: expected, end: current },
        ),
        byte_strings(stored@) != byte_strings(bodies@) ==> r == Err::<ResolvedAppend, StorageFailure>(
            StorageFailure::CasConflict { expected, actual: current },
        ),
{
    let same = same_bodies(stored, bodies);
    proof {
        assert(byte_strings(stored@).len() == stored@.len());
        assert(byte_strings(bodies@).len() == bodies@.len());
        if same {
            assert(byte_strings(stored@) =~= byte_strings(bodies@));
        } else if byte_strings(stored@) == byte_strings(bodies@) {
            assert forall|i: int| 0 <= i < stored@.len() implies #[trigger] stored@[i]@ == bodies@[i]@ by {
                assert(byte_strings(stored@)[i] == byte_strings(bodies@)[i]);
            }
        }
    }
    if same {
        Ok(ResolvedAppend { start: expected, end: current })
    } else {
        Err(StorageFailure::CasConflict { expected, actual: current })
    }
}

/// Resolves an append to `stream` at `expected` whose commit is unknown. A
/// captured tail short of where the records would end is a conflict, as
/// `check_captured` states. Else the records from `expected` are read back,
/// in pages of at most `PAGE_LIMIT`, until as many as were appended have
/// come back or a page is empty, and the append is settled as
/// `settle_append` states against the tail seen last. A resolution that
/// succeeds starts at `expected`, ends at a tail the store answered, and
/// rests on pages the store answered whose bodies are the appended ones.
pub fn resolve_unknown_append<S: StreamStore>(store: &S, stream: &str, expected: u64, bodies: &Vec<Vec<u8>>) -> (r: Result<
    ResolvedAppend,
    StorageFailure,
>)
    ensures
        r matches Ok(ack) ==> ack.start == expected && store.answers_tail(stream@, Ok::<u64, StorageFailure>(ack.end)),
        r is Ok ==> exists|pages: Seq<Seq<RecordView>>|
            (forall|i: int| 0 <= i < pages.len() ==> #[trigger] read_back_page(store, stream@, pages, i, expected, bodies@.len()))
                && bodies_of(#[trigger] joined_pages(pages)) == byte_strings(bodies@),
        (forall|a: Result<u64, StorageFailure>|
            #[trigger] store.answers_tail(stream@, a) ==> (a matches Ok(t) && t < saturating(expected, bodies@.len() as u64)))
            ==> (r matches Err(StorageFailure::CasConflict { expected: e, actual }) && e == expected && actual < saturating(
            expected,
            bodies@.len() as u64,
        )),
{
    let n = bodies.len() as u64;
    let captured = match store.tail(stream) {
        Err(e) => {
            return Err(e);
        },
        Ok(t) => t,
    };
    match check_captured(expected, n, captured) {
        Err(e) => {
            return Err(e);
        },
        Ok(()) => {},
    }
    assert(store.answers_tail(stream@, Ok::<u64, StorageFailure>(captured)));
    let mut stored: Vec<Vec<u8>> = Vec::new();
    let ghost mut pages: Seq<Seq<RecordView>> = Seq::empty();
    let mut cursor = expected;
    let mut exhausted = false;
    assert(byte_strings(stored@) =~= bodies_of(joined_pages(pages)));
    while stored.len() < bodies.len() && !exhausted
        invariant
            n == bodies@.len(),
            captured >= saturating(expected, n),
            store.answers_tail(stream@, Ok::<u64, StorageFailure>(captured)),
            byte_strings(stored@) == bodies_of(joined_pages(pages)),
            stored@.len() == joined_pages(pages).len(),
            cursor == read_back_from(pages, pages.len() as int, expected),
            forall|i: int| 0 <= i < pages.len() ==> #[trigger] read_back_page(store, stream@, pages, i, expected, bodies@.len()),
        decreases (if exhausted {
            0int
        } else {
            1int
        }) + (if stored@.len() < bodies@.len() {
            bodies@.len() - stored@.len()
        } else {
            0int
        }),
    {
        let wanted = bodies.len() - stored.len();
        let limit: usize = if wanted < PAGE_LIMIT {
            wanted
        } else {
            PAGE_LIMIT
        };
        let page = match store.read(stream, cursor, limit) {
            Err(e) => {
                return Err(e);
            },
            Ok(p) => p,
        };
        if page.len() == 0 {
            exhausted = true;
        } else {
            let ghost before = pages;
            let ghost pv = records_view(page@);
            let ghost stored_before = stored@;
            cursor = page[page.len() - 1].sequence.saturating_add(1);
            let mut k: usize = 0;
            while k < page.len()
                invariant
                    k <= page@.len(),
                    pv == records_view(page@),
                    stored@.len() == stored_before.len() + k,
                    byte_strings(stored@) == byte_strings(stored_before) + bodies_of(pv.take(k as int)),
                decreases page@.len() - k,
            {
                let ghost prev = stored@;
                stored.push(page[k].body.clone());
                proof {
                    assert(byte_strings(stored@)[prev.len() as int] == pv[k as int].3);
                    assert(byte_strings(stored@) =~= byte_strings(prev).push(pv[k as int].3));
                    assert(bodies_of(pv.take(k + 1)) =~= bodies_of(pv.take(k as int)).push(pv[k as int].3));
                }
                k = k + 1;
            }
            proof {
                assert(pv.take(page@.len() as int) =~= pv);
                pages = before.push(pv);
                assert(pages.drop_last() =~= before);
                assert(joined_pages(pages) == joined_pages(before) + pv);
                assert(bodies_of(joined_pages(pages)) =~= bodies_of(joined_pages(before)) + bodies_of(pv));
                assert(pv.last().1 == page@[page@.len() - 1].sequence);
                assert forall|i: int| 0 <= i < pages.len() implies #[trigger] read_back_page(store, stream@, pages, i, expected, bodies@.len()) by {
                    assert(pages.take(i) =~= if i < before.len() { before.take(i) } else { before });
                    if i < before.len() {
                        assert(read_back_page(store, stream@, before, i, expected, bodies@.len()));
                        if i > 0 {
                            assert(pages[i - 1] == before[i - 1]);
                        }
                        assert(pages[i] == before[i]);
                    } else {
                        assert(pages[i] == pv);
                    }
                }
            }
        }
    }
    let current = match store.tail(stream) {
        Err(e) => {
            return Err(e);
        },
        Ok(t) => t,
    };
    settle_append(&stored, bodies, expected, current)
}

fn same_bodies(stored: &Vec<Vec<u8>>, bodies: &Vec<Vec<u8>>) -> (same: bool)
    ensures
        same == (stored@.len() == bodies@.len() && forall|i: int| 0 <= i < stored@.len() ==> #[trigger] stored@[i]@ == bodies@[i]@),
{
    if stored.len() != bodies.len() {
        return false;
    }
    let mut i: usize = 0;
    while i < stored.len()
        invariant
            stored@.len() == bodies@.len(),
            i <= stored@.len(),
            forall|k: int| 0 <= k < i ==> #[trigger] stored@[k]@ == bodies@[k]@,
        decreases stored@.len() - i,
    {
        let a = &stored[i];
        let b = &bodies[i];
        if a.len() != b.len() {
            assert(stored@[i as int]@ != bodies@[i as int]@);
            return false;
        }
        let mut j: usize = 0;
        while j < a.len()
            invariant
                stored@.len() == bodies@.len(),
                i < stored@.len(),
                *a == stored@[i as int],
                *b == bodies@[i as int],
                a@.len() == b@.len(),
                j <= a@.len(),
                forall|q: int| 0 <= q < j ==> a@[q] == b@[q],
            decreases a@.len() - j,
        {
            if a[j] != b[j] {
                assert(a@[j as int] != b@[j as int]);
                assert(stored@[i as int]@ != bodies@[i as int]@);
                return false;
            }
            j = j + 1;
        }
        assert(a@ =~= b@);
        i = i + 1;
    }
    true
}

/// What the stream service said went wrong with a request.
#[derive(Clone, Debug, PartialEq, Eq)]
pub enum S2FailureKind {
    Validation,
    MalformedAccessToken,
    AppendConditionFailed,
    ReadUnwritten,
    /// The service answered with this error code.
    Server(String),
    /// The request did not reach an answer.
    Client,
}

/// The service error codes that retrying cannot cure.
pub open spec fn definite_code(code: Seq<char>) -> bool {
    ||| code == "bad_header"@
    ||| code == "bad_path"@
    ||| code == "bad_query"@
    ||| code == "bad_json"@
    ||| code == "bad_proto"@
    ||| code == "bad_frame"@
    ||| code == "decryption_failed"@
    ||| code == "authn"@
    ||| code == "permission_denied"@
    ||| code == "quota_exhausted"@
    ||| code == "basin_not_found"@
    ||| code == "stream_not_found"@
    ||| code == "access_token_not_found"@
    ||| code == "resource_already_exists"@
    ||| code == "basin_deletion_pending"@
    ||| code == "stream_deletion_pending"@
    ||| code == "invalid"@
    ||| code == "not_implemented"@
}

/// Whether a failure of this kind is definite: a refused request, a bad
/// token, a failed append condition, a read past the written records, or a
/// service answer with a definite code.
pub open spec fn is_definite(kind: S2FailureKind) -> bool {
    match kind {
        S2FailureKind::Server(code) => definite_code(code@),
        S2FailureKind::Client => false,
        _ => true,
    }
}

fn is_definite_code(code: &str) -> (definite: bool)
    ensures
        definite == definite_code(code@),
{
    let codes = [
        "bad_header",
        "bad_path",
        "bad_query",
        "bad_json",
        "bad_proto",
        "bad_frame",
        "decryption_failed",
        "authn",
        "permission_denied",
        "quota_exhausted",
        "basin_not_found",
        "stream_not_found",
        "access_token_not_found",
        "resource_already_exists",
        "basin_deletion_pending",
        "stream_deletion_pending",
        "invalid",
        "not_implemented",
    ];
    let mut i: usize = 0;
    while i < 18
        invariant
            i <= 18,
            codes@ == seq![
                "bad_header",
                "bad_path",
                "bad_query",
                "bad_json",
                "bad_proto",
                "bad_frame",
                "decryption_failed",
                "authn",
                "permission_denied",
                "quota_exhausted",
                "basin_not_found",
                "stream_not_found",
                "access_token_not_found",
                "resource_already_exists",
                "basin_deletion_pending",
                "stream_deletion_pending",
                "invalid",
                "not_implemented",
            ],
            forall|k: int| 0 <= k < i ==> code@ != codes@[k]@,
        decreases 18 - i,
    {
        if crate::text::text_equal(code, codes[i]) {
            return true;
        }
        i = i + 1;
    }
    false
}

/// Classifies a failed service request whose error reads `text`: a definite
/// failure, as `is_definite` states, is an invariant failure, any other is
/// transient.
pub fn classify_definite_failure(kind: &S2FailureKind, text: String) -> (f: StorageFailure)
    ensures
        is_definite(*kind) ==> f == StorageFailure::Invariant(text),
        !is_definite(*kind) ==> f == StorageFailure::Transient(text),
{
    let definite = match kind {
        S2FailureKind::Server(code) => is_definite_code(code.as_str()),
        S2FailureKind::Client => false,
        _ => true,
    };
    if definite {
        StorageFailure::Invariant(text)
    } else {
        StorageFailure::Transient(text)
    }
}

/// The only record schema this journal reads.
pub const RECORD_SCHEMA: u32 = 1;

/// Checks the schema of a decoded record at `sequence` of `stream`.
pub fn check_record_schema(schema: u32, stream: &str, sequence: u64) -> (r: Result<(), StorageFailure>)
    ensures
        schema == RECORD_SCHEMA ==> r is Ok,
        schema != RECORD_SCHEMA ==> (r matches Err(StorageFailure::Invariant(m)) && m@ == "unsupported journal schema "@
            + decimal(schema as nat) + " on "@ + stream@ + " at sequence "@ + decimal(sequence as nat)),
{
    if schema == RECORD_SCHEMA {
        return Ok(());
    }
    let mut m = String::from_str("unsupported journal schema ");
    let v = decimal_text(schema as u64);
    m.append(v.as_str());
    m.append(" on ");
    m.append(stream);
    m.append(" at sequence ");
    let q = decimal_text(sequence);
    m.append(q.as_str());
    Err(StorageFailure::Invariant(m))
}

/// The failure for a record at `sequence` of `stream` that does not decode;
/// `error` says why.
pub fn invalid_record(stream: &str, sequence: u64, error: &str) -> (f: StorageFailure)
    ensures
        f matches StorageFailure::Invariant(m) && m@ == "invalid durable record on "@ + stream@ + " at sequence "@
            + decimal(sequence as nat) + ": "@ + error@,
{
    let mut m = String::from_str("invalid durable record on ");
    m.append(stream);
    m.append(" at sequence ");
    let q = decimal_text(sequence);
    m.append(q.as_str());
    m.append(": ");
    m.append(error);
    StorageFailure::Invariant(m)
}

} // verus!

verus! {

/// A replay page is taken exactly when it makes progress and holds the
/// records at consecutive positions from the cursor, all before the
/// captured tail: an empty page makes no progress, a first record at
/// another position is a gap, and a record at the captured tail passes it.
pub proof fn law_page_acceptance(page: Seq<RecordView>, cursor: u64, tail: u64)
    requires
        cursor <= tail,
    ensures
        page.len() == 0 ==> page_fault(page, cursor, tail) == Some(PageFault::NoProgress),
        page.len() > 0 && page[0].1 != cursor ==> page_fault(page, cursor, tail) == Some(PageFault::Gap(cursor, page[0].1)),
        page.len() > 0 && page[0].1 == cursor && cursor == tail ==> page_fault(page, cursor, tail) == Some(PageFault::PastTail),
        page_fault(page, cursor, tail) is None <==> (page.len() > 0 && cursor + page.len() <= tail && forall|j: int|
            0 <= j < page.len() ==> #[trigger] page[j].1 == cursor + j),
{
    if page.len() > 0 {
        lemma_page_scan_none(page, 0, cursor, tail);
        if cursor + page.len() <= tail && forall|j: int| 0 <= j < page.len() ==> #[trigger] page[j].1 == cursor + j {
            lemma_in_order_page_scan(page, 0, cursor, tail);
        }
    }
}

proof fn lemma_page_scan_none(page: Seq<RecordView>, k: int, cursor: u64, tail: u64)
    requires
        0 <= k <= page.len(),
        cursor + k <= tail,
    ensures
        page_scan(page, k, cursor, tail) is None ==> cursor + page.len() <= tail && forall|j: int|
            k <= j < page.len() ==> #[trigger] page[j].1 == cursor + j,
    decreases page.len() - k,
{
    if k < page.len() && page[k].1 == cursor + k && cursor + k != tail {
        lemma_page_scan_none(page, k + 1, cursor, tail);
    }
}

} // verus!
