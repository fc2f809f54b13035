//! One worker's scan of its byte range, fed by the caller one read at a time.
use vstd::prelude::*;
use crate::parse::{
    LineError, find_byte, has_record, line_broken, lemma_find_byte_range, parse_line, record_key, record_len,
    record_value_span, valid_value, value_of,
};
use crate::coverage::{lemma_range_ok, well_formed_input};
use crate::stat::Acc;
use crate::table::{Overflow, Table, absorb, absorb_overflows, fold_records};

verus! {

/// What a scan of a buffer yields: the records taken, the bytes they take,
/// and whether it stopped at a value span that is not accepted.
pub struct Scan {
    pub recs: Seq<(Seq<u8>, int)>,
    pub used: int,
    pub bad: bool,
}

/// The record at the front of `buf` is taken: the range is not yet
/// exhausted and the record is complete and well formed.
pub open spec fn takes_record(buf: Seq<u8>, read: int, len: int) -> bool {
    read <= len && has_record(buf) && valid_value(record_value_span(buf))
}

/// The first line of `buf` breaks the format: it has no separator, or its
/// record is complete and its value span is not accepted.
pub open spec fn line_fault(buf: Seq<u8>) -> bool {
    line_broken(buf) || (has_record(buf) && !valid_value(record_value_span(buf)))
}

/// Takes records from the front of `buf` while the bytes accounted so far,
/// `read`, do not exceed `len`.
pub open spec fn scan(buf: Seq<u8>, read: int, len: int) -> Scan
    decreases buf.len(),
    via scan_decreases
{
    if takes_record(buf, read, len) {
        let n = record_len(buf);
        let rest = scan(buf.subrange(n, buf.len() as int), read + n, len);
        Scan {
            recs: seq![(record_key(buf), value_of(record_value_span(buf)))] + rest.recs,
            used: n + rest.used,
            bad: rest.bad,
        }
    } else {
        Scan { recs: seq![], used: 0, bad: read <= len && line_fault(buf) }
    }
}

#[via_fn]
proof fn scan_decreases(buf: Seq<u8>, read: int, len: int) {
    if takes_record(buf, read, len) {
        lemma_record_len(buf);
    }
}

pub proof fn lemma_record_len(buf: Seq<u8>)
    requires
        has_record(buf),
    ensures
        0 < record_len(buf) <= buf.len(),
{
    lemma_find_byte_range(buf, 59u8, 0);
    lemma_find_byte_range(buf, 10u8, find_byte(buf, 59u8, 0));
}

/// A scan takes no more bytes than the buffer holds.
pub proof fn lemma_scan_used(buf: Seq<u8>, read: int, len: int)
    ensures
        0 <= scan(buf, read, len).used <= buf.len(),
    decreases buf.len(),
{
    if takes_record(buf, read, len) {
        lemma_record_len(buf);
        let n = record_len(buf);
        lemma_scan_used(buf.subrange(n, buf.len() as int), read + n, len);
    }
}

/// Folding `recs` into `m` overflows a sum or count at some record.
#[verifier::opaque]
pub open spec fn fold_overflows(m: Map<Seq<u8>, Acc>, recs: Seq<(Seq<u8>, int)>) -> bool {
    exists|i: int| 0 <= i < recs.len()
        && absorb_overflows(fold_records(m, recs.take(i)), #[trigger] recs[i].0, recs[i].1)
}

/// Why a worker's scan failed.
#[derive(Clone, Copy, Debug, PartialEq, Eq)]
pub enum ScanError {
    /// A value span outside the accepted grammar.
    BadValue,
    /// A line without a `;`.
    MissingSeparator,
    /// A key's sum or count no longer fits.
    Overflow,
    /// The input ended inside a record.
    Truncated,
}

/// A worker over the byte range `(start, start + len]` of record starts
/// (`[0, len]` for the range that begins the input): unless its range is a
/// non-empty one at offset zero, it drops the bytes up to and including the
/// first newline, then takes every record that begins while no more than
/// `len` bytes have been accounted.
pub struct ChunkReader {
    pending: Vec<u8>,
    read: u64,
    len: u64,
    aligned: bool,
    table: Table,
}

impl ChunkReader {
    pub closed spec fn pending_bytes(&self) -> Seq<u8> {
        self.pending@
    }

    pub closed spec fn read_count(&self) -> int {
        self.read as int
    }

    pub closed spec fn range_len(&self) -> int {
        self.len as int
    }

    pub closed spec fn is_aligned(&self) -> bool {
        self.aligned
    }

    pub closed spec fn table_view(&self) -> Map<Seq<u8>, Acc> {
        self.table@
    }

    pub closed spec fn wf(&self) -> bool {
        &&& self.table.wf()
        &&& (!self.aligned ==> self.pending@.len() == 0)
    }

    /// A reader for the range that begins at `start` and spans `len` bytes.
    pub fn new(start: u64, len: u64) -> (r: Self)
        ensures
            r.wf(),
            r.pending_bytes() == Seq::<u8>::empty(),
            r.read_count() == 0,
            r.range_len() == len,
            r.is_aligned() == (start == 0 && len > 0),
            r.table_view() == Map::<Seq<u8>, Acc>::empty(),
    {
        ChunkReader { pending: Vec::new(), read: 0, len, aligned: start == 0 && len > 0, table: Table::new() }
    }

    /// Whether `feed` may take `n` more bytes without its counts leaving
    /// their machine range.
    pub fn can_feed(&self, n: usize) -> (r: bool)
        ensures
            r == (self.read_count() + self.pending_bytes().len() + n <= u64::MAX
                && self.pending_bytes().len() + n <= usize::MAX),
    {
        let total = self.read as u128 + self.pending.len() as u128 + n as u128;
        let kept = self.pending.len() as u128 + n as u128;
        total <= u64::MAX as u128 && kept <= usize::MAX as u128
    }

    /// The range is exhausted: no further record will be taken.
    pub fn is_done(&self) -> (r: bool)
        ensures
            r == (self.read_count() > self.range_len()),
    {
        self.read > self.len
    }

    /// Takes the next bytes of the input, in order. Before alignment the
    /// bytes up to the first newline are dropped; then every record that the
    /// range claims and that is complete in the buffer is folded into the
    /// table, and the unconsumed tail is kept.
    pub fn feed(&mut self, chunk: &[u8]) -> (r: Result<(), ScanError>)
        requires
            old(self).wf(),
            old(self).read_count() + old(self).pending_bytes().len() + chunk@.len() <= u64::MAX,
            old(self).pending_bytes().len() + chunk@.len() <= usize::MAX,
        ensures
            final(self).wf(),
            final(self).range_len() == old(self).range_len(),
            ({
                let o = old(self);
                let nl = find_byte(chunk@, 10u8, 0);
                let skip = if o.is_aligned() { 0 } else { nl + 1 };
                let buf = o.pending_bytes() + chunk@.subrange(skip, chunk@.len() as int);
                let read0 = o.read_count() + skip;
                let s = scan(buf, read0, o.range_len());
                if !o.is_aligned() && nl == chunk@.len() {
                    &&& r is Ok
                    &&& final(self).read_count() == o.read_count() + chunk@.len()
                    &&& !final(self).is_aligned()
                    &&& final(self).pending_bytes() == o.pending_bytes()
                    &&& final(self).table_view() == o.table_view()
                } else {
                    &&& (r is Ok <==> !s.bad && !fold_overflows(o.table_view(), s.recs))
                    &&& (r == Err::<(), ScanError>(ScanError::Overflow) ==> fold_overflows(o.table_view(), s.recs))
                    &&& (r == Err::<(), ScanError>(ScanError::BadValue)
                        || r == Err::<(), ScanError>(ScanError::MissingSeparator)
                        ==> s.bad && !fold_overflows(o.table_view(), s.recs))
                    &&& r != Err::<(), ScanError>(ScanError::Truncated)
                    &&& (r is Ok ==> {
                        &&& final(self).is_aligned()
                        &&& final(self).read_count() == read0 + s.used
                        &&& final(self).pending_bytes() == buf.subrange(s.used, buf.len() as int)
                        &&& final(self).table_view() == fold_records(o.table_view(), s.recs)
                    })
                }
            }),
    {
        reveal(fold_overflows);
        let mut skip: usize = 0;
        if !self.aligned {
            let mut i: usize = 0;
            while i < chunk.len() && chunk[i] != 10u8
                invariant
                    0 <= i <= chunk@.len(),
                    find_byte(chunk@, 10u8, 0) == find_byte(chunk@, 10u8, i as int),
                decreases chunk.len() - i,
            {
                i = i + 1;
            }
            proof {
                lemma_find_byte_range(chunk@, 10u8, 0);
            }
            if i == chunk.len() {
                self.read = self.read + chunk.len() as u64;
                return Ok(());
            }
            assert(find_byte(chunk@, 10u8, 0) == i);
            skip = i + 1;
            self.aligned = true;
            self.read = self.read + skip as u64;
        }
        let ghost o = *old(self);
        let ghost read0 = self.read as int;
        let mut buf: Vec<u8> = Vec::new();
        buf.append(&mut self.pending);
        let mut k: usize = skip;
        while k < chunk.len()
            invariant
                skip <= k <= chunk@.len(),
                buf@ == o.pending@ + chunk@.subrange(skip as int, k as int),
                o.pending@.len() + chunk@.len() <= usize::MAX,
            decreases chunk.len() - k,
        {
            buf.push(chunk[k]);
            proof {
                assert(chunk@.subrange(skip as int, k + 1) =~= chunk@.subrange(skip as int, k as int).push(chunk@[k as int]));
            }
            k = k + 1;
        }
        let ghost whole = buf@;
        assert(skip == (if o.aligned { 0 } else { find_byte(chunk@, 10u8, 0) + 1 }));
        assert(read0 == o.read + skip);
        assert(whole == o.pending@ + chunk@.subrange(skip as int, chunk@.len() as int));
        let ghost total = scan(whole, read0, self.len as int);
        let ghost mut done: Seq<(Seq<u8>, int)> = seq![];
        let mut pos: usize = 0;
        proof {
            assert(whole.subrange(0, whole.len() as int) =~= whole);
            assert(done + total.recs =~= total.recs);
            assert(fold_records(o.table@, done) == o.table@);
        }
        loop
            invariant
                self.table.wf(),
                self.aligned,
                self.len == o.len,
                o == *old(self),
                skip == (if o.aligned { 0 } else { find_byte(chunk@, 10u8, 0) + 1 }),
                o.aligned || find_byte(chunk@, 10u8, 0) < chunk@.len(),
                read0 == o.read + skip,
                whole == o.pending@ + chunk@.subrange(skip as int, chunk@.len() as int),
                total == scan(whole, read0, o.len as int),
                buf@ == whole,
                0 <= pos <= whole.len(),
                self.read == read0 + pos,
                read0 + whole.len() <= u64::MAX,
                total.recs == done + scan(whole.subrange(pos as int, whole.len() as int), self.read as int, self.len as int).recs,
                total.used == pos + scan(whole.subrange(pos as int, whole.len() as int), self.read as int, self.len as int).used,
                total.bad == scan(whole.subrange(pos as int, whole.len() as int), self.read as int, self.len as int).bad,
                self.table@ == fold_records(o.table@, done),
                !fold_overflows(o.table@, done),
            ensures
                total.recs == done,
                total.used == pos,
                self.table@ == fold_records(o.table@, done),
                !fold_overflows(o.table@, done),
                self.read == read0 + pos,
                self.table.wf(),
                self.aligned,
                self.len == o.len,
                !total.bad,
            decreases whole.len() - pos,
        {
            let ghost rest = whole.subrange(pos as int, whole.len() as int);
            proof {
                reveal(fold_overflows);
            }
            if self.read > self.len {
                assert(!takes_record(rest, self.read as int, self.len as int));
                assert(done + seq![] =~= done);
                break;
            }
            let parsed = parse_line(&buf.as_slice()[pos..buf.len()]);
            assert(buf@.subrange(pos as int, buf@.len() as int) == rest);
            match parsed {
                Err(e) => {
                    proof {
                        assert(done + seq![] =~= done);
                    }
                    return match e {
                        LineError::BadValue => Err(ScanError::BadValue),
                        LineError::MissingSeparator => Err(ScanError::MissingSeparator),
                    };
                },
                Ok(None) => {
                    assert(done + seq![] =~= done);
                    break;
                },
                Ok(Some(line)) => {
                    proof {
                        lemma_record_len(rest);
                    }
                    let ghost rec = (line.name@, line.temp as int);
                    let ghost n = line.data_read as int;
                    assert(rest.subrange(n, rest.len() as int) =~= whole.subrange(pos + n, whole.len() as int));
                    proof {
                        assert(done.push(rec).take(done.len() as int) =~= done);
                        assert(done.push(rec).drop_last() =~= done);
                    }
                    match self.table.record(line.name, line.temp) {
                        Err(Overflow) => {
                            proof {
                                let d2 = done.push(rec);
                                assert(absorb_overflows(fold_records(o.table@, d2.take(done.len() as int)), d2[done.len() as int].0, d2[done.len() as int].1));
                                assert(total.recs == d2 + scan(whole.subrange(pos + n, whole.len() as int), self.read + n, self.len as int).recs);
                                assert(total.recs.take(d2.len() as int) =~= d2);
                                lemma_overflow_prefix(o.table@, d2, total.recs);
                            }
                            return Err(ScanError::Overflow);
                        },
                        Ok(()) => {},
                    }
                    proof {
                        let d2 = done.push(rec);
                        assert(total.recs == d2 + scan(whole.subrange(pos + n, whole.len() as int), self.read + n, self.len as int).recs);
                        assert(!fold_overflows(o.table@, d2)) by {
                            assert forall|i: int| 0 <= i < d2.len() implies !absorb_overflows(fold_records(o.table@, d2.take(i)), #[trigger] d2[i].0, d2[i].1) by {
                                if i < done.len() {
                                    assert(d2.take(i) =~= done.take(i));
                                    assert(d2[i] == done[i]);
                                }
                            }
                        }
                        done = d2;
                    }
                    self.read = self.read + line.data_read as u64;
                    pos = pos + line.data_read;
                },
            }
        }
        proof {
            assert(whole.subrange(0, whole.len() as int) =~= whole);
        }
        self.pending = vstd::slice::slice_to_vec(&buf.as_slice()[pos..buf.len()]);
        Ok(())
    }
}

impl ChunkReader {
    /// Ends the scan at the end of the input and hands over the table. A
    /// record left incomplete while the range was still open means the input
    /// ended inside a line.
    pub fn finish(self) -> (r: Result<Table, ScanError>)
        requires
            self.wf(),
        ensures
            r is Err <==> (self.read_count() <= self.range_len() && self.pending_bytes().len() > 0),
            r is Err ==> r == Err::<Table, ScanError>(ScanError::Truncated),
            r is Ok ==> r->Ok_0.wf() && r->Ok_0@ == self.table_view(),
    {
        if self.read <= self.len && self.pending.len() > 0 {
            return Err(ScanError::Truncated);
        }
        Ok(self.table)
    }
}

/// The range begins the input at a line start. An empty range at offset
/// zero (there are several when the input is shorter than the number of
/// ranges) drops its first line like any other, so that no record is taken
/// twice.
pub open spec fn starts_aligned(start: int, len: int) -> bool {
    start == 0 && len > 0
}

/// Bytes from `start` that a reader drops before its first record.
pub open spec fn aligned_skip(data: Seq<u8>, start: int, len: int) -> int {
    if starts_aligned(start, len) { 0 } else { find_byte(data.subrange(start, data.len() as int), 10u8, 0) + 1 }
}

/// The records that the range `(start, len)` claims in `data`.
pub open spec fn claimed(data: Seq<u8>, start: int, len: int) -> Scan {
    let tail = data.subrange(start, data.len() as int);
    let skip = aligned_skip(data, start, len);
    scan(tail.subrange(skip, tail.len() as int), skip, len)
}

/// The range `(start, len)` of `data` sees no newline at all after `start`:
/// it claims nothing.
pub open spec fn range_empty(data: Seq<u8>, start: int, len: int) -> bool {
    !starts_aligned(start, len) && aligned_skip(data, start, len) > data.len() - start
}

/// A scan of the range `(start, len)` of `data`, to the end of the input,
/// meets no malformed value, no overflow and no truncated last line.
pub open spec fn range_ok(data: Seq<u8>, start: int, len: int) -> bool {
    let skip = aligned_skip(data, start, len);
    let c = claimed(data, start, len);
    range_empty(data, start, len) || (!c.bad && !fold_overflows(Map::empty(), c.recs)
        && (skip + c.used > len || c.used == data.len() - start - skip))
}

/// The records, in input order, that the range `(start, len)` of `data` takes.
pub open spec fn range_records(data: Seq<u8>, start: int, len: int) -> Seq<(Seq<u8>, int)> {
    if range_empty(data, start, len) {
        Seq::empty()
    } else {
        claimed(data, start, len).recs
    }
}

/// The partial table of the range `(start, len)` of `data`.
pub open spec fn range_table(data: Seq<u8>, start: int, len: int) -> Map<Seq<u8>, Acc> {
    fold_records(Map::empty(), range_records(data, start, len))
}

/// Scans the range `(start, len)` of an input held in memory, from `start`
/// to the end of the input.
#[verifier::rlimit(40)]
pub fn scan_bytes(data: &[u8], start: usize, len: u64) -> (r: Result<Table, ScanError>)
    requires
        start <= data@.len(),
        data@.len() <= u64::MAX,
    ensures
        r is Ok <==> range_ok(data@, start as int, len as int),
        r is Ok ==> r->Ok_0.wf() && r->Ok_0@ == range_table(data@, start as int, len as int),
        well_formed_input(data@) ==> (r is Ok <==> !fold_overflows(
            Map::empty(),
            range_records(data@, start as int, len as int),
        )),
{
    proof {
        if well_formed_input(data@) {
            lemma_range_ok(data@, start as int, len as int);
        }
    }
    let mut reader = ChunkReader::new(start as u64, len);
    let tail = &data[start..data.len()];
    proof {
        assert(reader.pending@ + tail@ =~= tail@);
    }
    let ghost t = data@.subrange(start as int, data@.len() as int);
    let ghost skip = aligned_skip(data@, start as int, len as int);
    assert(tail@ == t);
    proof {
        lemma_find_byte_range(t, 10u8, 0);
        if skip <= t.len() {
            assert(Seq::<u8>::empty() + t.subrange(skip, t.len() as int) =~= t.subrange(skip, t.len() as int));
        }
    }
    let fed = reader.feed(tail);
    match fed {
        Err(e) => Err(e),
        Ok(()) => {
            let r = reader.finish();
            proof {
                if !starts_aligned(start as int, len as int) && skip > t.len() {
                    assert(r is Ok);
                } else {
                    let c = claimed(data@, start as int, len as int);
                    lemma_scan_used(t.subrange(skip, t.len() as int), skip, len as int);
                    assert(reader.read_count() == skip + c.used);
                    assert(reader.pending_bytes() == t.subrange(skip, t.len() as int).subrange(c.used, t.len() - skip));
                }
            }
            r
        },
    }
}

proof fn lemma_overflow_prefix(m: Map<Seq<u8>, Acc>, d: Seq<(Seq<u8>, int)>, all: Seq<(Seq<u8>, int)>)
    requires
        fold_overflows(m, d),
        all.take(d.len() as int) == d,
        d.len() <= all.len(),
    ensures
        fold_overflows(m, all),
{
    reveal(fold_overflows);
    let i = choose|i: int| 0 <= i < d.len()
        && absorb_overflows(fold_records(m, d.take(i)), #[trigger] d[i].0, d[i].1);
    assert(all.take(i) =~= d.take(i));
    assert(all[i] == d[i]);
}

} // verus!
