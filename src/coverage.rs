//! Whole-input view of the ranges: on a well-formed input every line is taken
//! by exactly one range, in order, whatever the number of ranges.
use vstd::prelude::*;
use crate::laws::{concat_all, lemma_pieces_merge, lemma_split_records, merge_all, piece_tables};
use crate::parse::{find_byte, lemma_find_byte_range, record_key, record_len, record_value_span, sep_index, valid_value, value_of};
use crate::partition::{lemma_range_facts, range_length, range_start, range_tables, ranges_ok};
use crate::reader::{
    aligned_skip, claimed, fold_overflows, lemma_record_len, range_empty, range_ok, range_records, range_table, scan, starts_aligned,
    takes_record,
};
use crate::stat::Acc;
use crate::table::{fold_records, merged};

verus! {

/// `p` is where a line of `d` begins.
pub open spec fn is_line_start(d: Seq<u8>, p: int) -> bool {
    0 <= p < d.len() && (p == 0 || d[p - 1] == 10u8)
}

/// Every line of `d` ends in a newline and holds a `;` followed by an
/// accepted value span.
pub open spec fn well_formed_input(d: Seq<u8>) -> bool {
    &&& (d.len() == 0 || d.last() == 10u8)
    &&& forall|p: int| #[trigger] is_line_start(d, p) ==> {
        let t = d.subrange(p, d.len() as int);
        &&& sep_index(t) < find_byte(t, 10u8, 0)
        &&& valid_value(record_value_span(t))
    }
}

/// The first line start after offset `x`.
pub open spec fn next_start(d: Seq<u8>, x: int) -> int {
    find_byte(d, 10u8, x) + 1
}

/// The records of `d` that begin at `p` and at the line starts after it, up
/// to offset `lim`: what one sequential scanner reads.
pub open spec fn records_from(d: Seq<u8>, p: int, lim: int) -> Seq<(Seq<u8>, int)>
    decreases d.len() - p,
    via records_from_decreases
{
    let t = d.subrange(p, d.len() as int);
    if 0 <= p < d.len() && p <= lim && takes_record(t, 0, 0) {
        seq![(record_key(t), value_of(record_value_span(t)))] + records_from(d, p + record_len(t), lim)
    } else {
        seq![]
    }
}

#[via_fn]
proof fn records_from_decreases(d: Seq<u8>, p: int, lim: int) {
    let t = d.subrange(p, d.len() as int);
    if 0 <= p < d.len() && p <= lim && takes_record(t, 0, 0) {
        lemma_record_len(t);
    }
}

proof fn lemma_scan_is_records_from(d: Seq<u8>, s: int, p: int, len: int)
    requires
        0 <= s <= p <= d.len(),
    ensures
        scan(d.subrange(p, d.len() as int), p - s, len).recs == records_from(d, p, s + len),
    decreases d.len() - p,
{
    let t = d.subrange(p, d.len() as int);
    if p < d.len() && p <= s + len && takes_record(t, 0, 0) {
        lemma_record_len(t);
        let n = record_len(t);
        assert(t.subrange(n, t.len() as int) =~= d.subrange(p + n, d.len() as int));
        lemma_scan_is_records_from(d, s, p + n, len);
    } else if p == d.len() {
        assert(t.len() == 0);
        lemma_find_byte_range(t, 59u8, 0);
    }
}

proof fn lemma_find_sub(d: Seq<u8>, c: u8, p: int, j: int)
    requires
        0 <= p <= d.len(),
        0 <= j,
    ensures
        find_byte(d.subrange(p, d.len() as int), c, j) == (if p + j >= d.len() { d.len() - p } else { find_byte(d, c, p + j) - p }),
    decreases d.len() - p - j,
{
    let t = d.subrange(p, d.len() as int);
    assert(t.len() == d.len() - p);
    if p + j < d.len() {
        assert(t[j] == d[p + j]);
        if d[p + j] != c {
            lemma_find_sub(d, c, p, j + 1);
            assert(find_byte(t, c, j) == find_byte(t, c, j + 1));
            assert(find_byte(d, c, p + j) == find_byte(d, c, p + j + 1));
        } else {
            assert(find_byte(t, c, j) == j);
            assert(find_byte(d, c, p + j) == p + j);
        }
    } else {
        assert(find_byte(t, c, j) == t.len());
    }
}

proof fn lemma_find_skip(s: Seq<u8>, c: u8, x: int, y: int)
    requires
        0 <= x <= y <= find_byte(s, c, x),
    ensures
        find_byte(s, c, y) == find_byte(s, c, x),
    decreases y - x,
{
    if x < y {
        lemma_find_byte_range(s, c, x);
        if x < s.len() {
            assert(s[x] != c);
        }
        lemma_find_skip(s, c, x + 1, y);
    }
}

/// At a line start of a well-formed input a record is taken, and the next
/// one begins after the line's newline.
proof fn lemma_line_record(d: Seq<u8>, p: int)
    requires
        well_formed_input(d),
        is_line_start(d, p),
    ensures
        takes_record(d.subrange(p, d.len() as int), 0, 0),
        p + record_len(d.subrange(p, d.len() as int)) == next_start(d, p),
        find_byte(d, 10u8, p) < d.len(),
        p < next_start(d, p) <= d.len(),
        next_start(d, p) == d.len() || is_line_start(d, next_start(d, p)),
{
    let t = d.subrange(p, d.len() as int);
    lemma_find_sub(d, 10u8, p, 0);
    lemma_find_byte_range(d, 10u8, p);
    lemma_find_byte_range(t, 59u8, 0);
    lemma_find_byte_range(t, 10u8, 0);
    assert(d[d.len() - 1] == 10u8);
    if find_byte(d, 10u8, p) == d.len() {
        assert(d[d.len() - 1] != 10u8);
    }
    lemma_find_skip(t, 10u8, 0, sep_index(t));
}

proof fn lemma_next_start_bound(d: Seq<u8>, x: int)
    requires
        well_formed_input(d),
        0 <= x <= d.len(),
    ensures
        next_start(d, x) > x,
        next_start(d, x) >= d.len() || is_line_start(d, next_start(d, x)),
{
    lemma_find_byte_range(d, 10u8, x);
}

/// One scan up to `lim2` is a scan up to `lim1` followed by a scan from the
/// first line start after `lim1`.
proof fn lemma_records_split(d: Seq<u8>, p: int, lim1: int, lim2: int)
    requires
        well_formed_input(d),
        is_line_start(d, p) || p >= d.len(),
        0 <= lim1 <= lim2,
        p <= lim1 || p == next_start(d, lim1),
    ensures
        records_from(d, p, lim2) == records_from(d, p, lim1) + records_from(d, next_start(d, lim1), lim2),
    decreases d.len() - p,
{
    if p > lim1 {
        assert(records_from(d, p, lim1) =~= Seq::<(Seq<u8>, int)>::empty());
        assert(records_from(d, p, lim1) + records_from(d, p, lim2) =~= records_from(d, p, lim2));
    } else if p >= d.len() {
        lemma_find_byte_range(d, 10u8, lim1);
        assert(next_start(d, lim1) > d.len());
        assert(records_from(d, p, lim1) + records_from(d, next_start(d, lim1), lim2) =~= Seq::<(Seq<u8>, int)>::empty());
    } else {
        lemma_line_record(d, p);
        let q = next_start(d, p);
        if q > lim1 {
            lemma_find_skip(d, 10u8, p, lim1);
        }
        lemma_records_split(d, q, lim1, lim2);
        let t = d.subrange(p, d.len() as int);
        let head = seq![(record_key(t), value_of(record_value_span(t)))];
        assert(records_from(d, p, lim2) == head + records_from(d, q, lim2));
        assert(records_from(d, p, lim1) == head + records_from(d, q, lim1));
        assert(head + (records_from(d, q, lim1) + records_from(d, next_start(d, lim1), lim2))
            =~= (head + records_from(d, q, lim1)) + records_from(d, next_start(d, lim1), lim2));
    }
}

/// Where the range `(s, len)` takes its first record.
pub open spec fn first_record(d: Seq<u8>, s: int, len: int) -> int {
    if starts_aligned(s, len) { 0 } else { next_start(d, s) }
}

/// A range takes the records that a sequential scan from its first record
/// takes up to the range's end.
proof fn lemma_range_records(d: Seq<u8>, s: int, len: int)
    requires
        0 <= s <= d.len(),
        0 <= len,
    ensures
        range_records(d, s, len) == records_from(d, first_record(d, s, len), s + len),
{
    let tail = d.subrange(s, d.len() as int);
    lemma_find_sub(d, 10u8, s, 0);
    lemma_find_byte_range(d, 10u8, s);
    let skip = aligned_skip(d, s, len);
    if range_empty(d, s, len) {
        assert(first_record(d, s, len) > d.len());
    } else {
        let p = s + skip;
        assert(tail.subrange(skip, tail.len() as int) =~= d.subrange(p, d.len() as int));
        lemma_scan_is_records_from(d, s, p, len);
    }
}

/// The records of each of the `workers` ranges of `d`.
pub open spec fn worker_records(d: Seq<u8>, workers: int) -> Seq<Seq<(Seq<u8>, int)>> {
    Seq::new(
        workers as nat,
        |i: int| range_records(d, range_start(d.len() as int, workers, i), range_length(d.len() as int, workers, i)),
    )
}

proof fn lemma_chain(d: Seq<u8>, workers: int, i: int)
    requires
        well_formed_input(d),
        1 <= workers,
        (d.len() as int) / workers > 0,
        0 <= i < workers,
    ensures
        concat_all(worker_records(d, workers).take(i)) + records_from(
            d,
            first_record(d, range_start(d.len() as int, workers, i), range_length(d.len() as int, workers, i)),
            d.len() as int,
        ) == records_from(d, 0, d.len() as int),
    decreases i,
{
    let n = d.len() as int;
    let ws = worker_records(d, workers);
    lemma_range_facts(n, workers, i);
    if i == 0 {
        assert(ws.take(0) =~= Seq::<Seq<(Seq<u8>, int)>>::empty());
        assert(Seq::<(Seq<u8>, int)>::empty() + records_from(d, 0, n) =~= records_from(d, 0, n));
    } else {
        let j = i - 1;
        lemma_chain(d, workers, j);
        lemma_range_facts(n, workers, j);
        let sj = range_start(n, workers, j);
        let lj = range_length(n, workers, j);
        let fj = first_record(d, sj, lj);
        let e = sj + lj;
        lemma_range_records(d, sj, lj);
        assert(ws[j] == records_from(d, fj, e));
        if j > 0 {
            lemma_next_start_bound(d, sj);
            lemma_find_byte_range(d, 10u8, sj);
            if fj > e {
                lemma_find_skip(d, 10u8, sj, e);
            }
        } else {
            assert(lj > 0);
        }
        assert(first_record(d, range_start(n, workers, i), range_length(n, workers, i)) == next_start(d, e));
        lemma_records_split(d, fj, e, n);
        assert(ws.take(i).drop_last() =~= ws.take(j));
        assert(concat_all(ws.take(i)) == concat_all(ws.take(j)) + ws[j]);
        assert(concat_all(ws.take(i)) + records_from(d, next_start(d, e), n)
            =~= concat_all(ws.take(j)) + (ws[j] + records_from(d, next_start(d, e), n)));
    }
}

/// On a well-formed input the ranges together take every line exactly once,
/// in input order: the records of range 0, then of range 1, and so on, are the
/// records that one sequential scan of the whole input reads.
pub proof fn lemma_partition_complete(d: Seq<u8>, workers: int)
    requires
        well_formed_input(d),
        1 <= workers,
    ensures
        concat_all(worker_records(d, workers)) == records_from(d, 0, d.len() as int),
{
    let n = d.len() as int;
    let ws = worker_records(d, workers);
    let last = workers - 1;
    lemma_range_facts(n, workers, last);
    let sl = range_start(n, workers, last);
    let ll = range_length(n, workers, last);
    lemma_range_records(d, sl, ll);
    if n / workers > 0 {
        lemma_chain(d, workers, last);
        assert(ws.take(workers) =~= ws);
        assert(ws.take(workers).drop_last() =~= ws.take(last));
        lemma_range_facts(n, workers, last);
        if last > 0 {
            lemma_next_start_bound(d, sl);
        }
        assert(concat_all(ws) == concat_all(ws.take(last)) + ws[last]);
    } else {
        lemma_empty_ranges(d, workers, last);
        assert(ws.drop_last() =~= ws.take(last));
        if n > 0 {
            assert(ws[last] == records_from(d, 0, n));
        } else {
            assert(records_from(d, first_record(d, sl, ll), n) =~= Seq::<(Seq<u8>, int)>::empty());
            assert(records_from(d, 0, n) =~= Seq::<(Seq<u8>, int)>::empty());
        }
        assert(concat_all(ws) =~= Seq::<(Seq<u8>, int)>::empty() + ws[last]);
    }
}

proof fn lemma_empty_ranges(d: Seq<u8>, workers: int, k: int)
    requires
        well_formed_input(d),
        1 <= workers,
        (d.len() as int) / workers == 0,
        0 <= k < workers,
    ensures
        concat_all(worker_records(d, workers).take(k)) == Seq::<(Seq<u8>, int)>::empty(),
    decreases k,
{
    let n = d.len() as int;
    let ws = worker_records(d, workers);
    if k == 0 {
        assert(ws.take(0) =~= Seq::<Seq<(Seq<u8>, int)>>::empty());
    } else {
        lemma_empty_ranges(d, workers, k - 1);
        lemma_range_facts(n, workers, k - 1);
        lemma_range_records(d, 0, 0);
        lemma_next_start_bound(d, 0);
        assert(ws[k - 1] == records_from(d, next_start(d, 0), 0));
        assert(ws[k - 1] =~= Seq::<(Seq<u8>, int)>::empty());
        assert(ws.take(k).drop_last() =~= ws.take(k - 1));
        assert(concat_all(ws.take(k)) =~= Seq::<(Seq<u8>, int)>::empty());
    }
}

/// On a well-formed input, the merged table is the table of one sequential
/// scan, for every number of ranges: one worker and eight give one result.
pub proof fn lemma_workers_agree(d: Seq<u8>, w1: int, w2: int)
    requires
        well_formed_input(d),
        1 <= w1,
        1 <= w2,
    ensures
        merge_all(range_tables(d, w1)) == fold_records(Map::empty(), records_from(d, 0, d.len() as int)),
        merge_all(range_tables(d, w1)) == merge_all(range_tables(d, w2)),
{
    lemma_tables_of_records(d, w1);
    lemma_tables_of_records(d, w2);
}

proof fn lemma_tables_of_records(d: Seq<u8>, workers: int)
    requires
        well_formed_input(d),
        1 <= workers,
    ensures
        merge_all(range_tables(d, workers)) == fold_records(Map::<Seq<u8>, Acc>::empty(), records_from(d, 0, d.len() as int)),
{
    let ws = worker_records(d, workers);
    lemma_partition_complete(d, workers);
    lemma_pieces_merge(ws);
    assert(piece_tables(ws) =~= range_tables(d, workers));
}

/// On a well-formed input a scan from a line start meets no fault and reads
/// on until its range is exhausted or the input ends.
proof fn lemma_scan_completes(d: Seq<u8>, s: int, p: int, len: int)
    requires
        well_formed_input(d),
        0 <= s <= p <= d.len(),
        p == d.len() || is_line_start(d, p),
    ensures
        !scan(d.subrange(p, d.len() as int), p - s, len).bad,
        p + scan(d.subrange(p, d.len() as int), p - s, len).used > s + len
            || p + scan(d.subrange(p, d.len() as int), p - s, len).used == d.len(),
    decreases d.len() - p,
{
    let t = d.subrange(p, d.len() as int);
    if p == d.len() {
        assert(t.len() == 0);
        lemma_find_byte_range(t, 59u8, 0);
        lemma_find_byte_range(t, 10u8, 0);
    } else if p - s <= len {
        lemma_line_record(d, p);
        lemma_record_len(t);
        let n = record_len(t);
        assert(t.subrange(n, t.len() as int) =~= d.subrange(p + n, d.len() as int));
        lemma_scan_completes(d, s, p + n, len);
    }
}

/// On a well-formed input a range scans without fault unless a sum or count
/// of its own table overflows.
pub proof fn lemma_range_ok(d: Seq<u8>, s: int, len: int)
    requires
        well_formed_input(d),
        0 <= s <= d.len(),
        0 <= len,
    ensures
        range_ok(d, s, len) <==> !fold_overflows(Map::empty(), range_records(d, s, len)),
{
    reveal(fold_overflows);
    lemma_find_sub(d, 10u8, s, 0);
    lemma_find_byte_range(d, 10u8, s);
    if !range_empty(d, s, len) {
        let tail = d.subrange(s, d.len() as int);
        let skip = aligned_skip(d, s, len);
        let p = s + skip;
        assert(tail.subrange(skip, tail.len() as int) =~= d.subrange(p, d.len() as int));
        if !starts_aligned(s, len) {
            lemma_next_start_bound(d, s);
        }
        lemma_scan_completes(d, s, p, len);
        assert(claimed(d, s, len) == scan(d.subrange(p, d.len() as int), p - s, len));
    }
}

/// The ranges of a well-formed input all scan without fault unless the table
/// of one of them overflows.
pub proof fn lemma_ranges_ok(d: Seq<u8>, workers: int)
    requires
        well_formed_input(d),
        1 <= workers,
    ensures
        ranges_ok(d, workers) <==> (forall|i: int|
            0 <= i < workers ==> !fold_overflows(Map::empty(), #[trigger] worker_records(d, workers)[i])),
{
    let n = d.len() as int;
    let ws = worker_records(d, workers);
    if ranges_ok(d, workers) {
        assert forall|i: int| 0 <= i < workers implies !fold_overflows(Map::empty(), #[trigger] ws[i]) by {
            lemma_range_facts(n, workers, i);
            lemma_range_ok(d, range_start(n, workers, i), range_length(n, workers, i));
            assert(range_ok(d, range_start(n, workers, i), range_length(n, workers, i)));
        }
    }
    if forall|i: int| 0 <= i < workers ==> !fold_overflows(Map::empty(), #[trigger] ws[i]) {
        assert forall|i: int| 0 <= i < workers implies #[trigger] range_ok(
            d,
            range_start(n, workers, i),
            range_length(n, workers, i),
        ) by {
            lemma_range_facts(n, workers, i);
            lemma_range_ok(d, range_start(n, workers, i), range_length(n, workers, i));
            assert(!fold_overflows(Map::empty(), ws[i]));
        }
    }
}

/// Two ranges that split a well-formed input at any offset `s` take every
/// line once between them: the merge of their tables is the table of one
/// sequential scan, whatever line the offset falls in.
pub proof fn lemma_split_anywhere(d: Seq<u8>, s: int)
    requires
        well_formed_input(d),
        0 < s <= d.len(),
    ensures
        range_records(d, 0, s) + range_records(d, s, d.len() - s) == records_from(d, 0, d.len() as int),
        merged(range_table(d, 0, s), range_table(d, s, d.len() - s)) == fold_records(
            Map::<Seq<u8>, Acc>::empty(),
            records_from(d, 0, d.len() as int),
        ),
{
    let n = d.len() as int;
    lemma_range_records(d, 0, s);
    lemma_range_records(d, s, n - s);
    lemma_records_split(d, 0, s, n);
    lemma_split_records(range_records(d, 0, s), range_records(d, s, n - s));
}

} // verus!
