//! Division of the input into one byte range per worker, and the fold of the
//! workers' partial tables into the global table.
use vstd::prelude::*;
use crate::coverage::{lemma_ranges_ok, lemma_workers_agree, records_from, well_formed_input, worker_records};
use crate::laws::merge_all;
use crate::stat::Acc;
use crate::reader::{ScanError, fold_overflows, range_ok, range_table, scan_bytes};
use crate::table::{Overflow, Table, fold_records, merge_overflows_at};

verus! {

/// The bytes assigned to one worker.
#[derive(Clone, Copy, Debug, PartialEq, Eq, Structural)]
pub struct ByteRange {
    pub start: u64,
    pub length: u64,
}

/// Start of range `i` of `workers` over `file_len` bytes.
pub open spec fn range_start(file_len: int, workers: int, i: int) -> int {
    i * (file_len / workers)
}

/// Length of range `i`: the common share, the last range running on to the
/// end of the input so that no trailing byte is left to no one.
pub open spec fn range_length(file_len: int, workers: int, i: int) -> int {
    if i == workers - 1 {
        file_len - range_start(file_len, workers, i)
    } else {
        file_len / workers
    }
}

/// Bounds of range `i`, and how it meets the next one.
pub proof fn lemma_range_facts(n: int, workers: int, i: int)
    requires
        0 <= n,
        1 <= workers,
        0 <= i < workers,
    ensures
        0 <= range_start(n, workers, i) <= n,
        0 <= range_length(n, workers, i),
        range_start(n, workers, i) + range_length(n, workers, i) <= n,
        i == workers - 1 ==> range_start(n, workers, i) + range_length(n, workers, i) == n,
        i < workers - 1 ==> range_start(n, workers, i + 1) == range_start(n, workers, i) + range_length(n, workers, i),
        range_start(n, workers, i + 1) == range_start(n, workers, i) + n / workers,
        i > 0 && n / workers > 0 ==> range_start(n, workers, i) > 0,
        i == 0 ==> range_start(n, workers, i) == 0,
        n / workers == 0 ==> range_start(n, workers, i) == 0,
        n / workers == 0 && i < workers - 1 ==> range_length(n, workers, i) == 0,
{
    let p = n / workers;
    assert(0 <= p);
    assert(workers * p <= n) by (nonlinear_arith)
        requires p == n / workers, workers >= 1;
    assert(0 <= i * p <= workers * p) by (nonlinear_arith)
        requires 0 <= i < workers, p >= 0;
    assert((i + 1) * p == i * p + p) by (nonlinear_arith);
    assert(i + 1 < workers ==> (i + 1) * p <= workers * p) by (nonlinear_arith)
        requires p >= 0;
    assert(i > 0 && p > 0 ==> i * p > 0) by (nonlinear_arith);
    assert(p == 0 ==> i * p == 0) by (nonlinear_arith);
}

/// Splits `file_len` bytes into `workers` contiguous ranges: range `i`
/// starts at `i * (file_len / workers)`, and the last one reaches `file_len`.
pub fn plan_ranges(file_len: u64, workers: u64) -> (r: Vec<ByteRange>)
    requires
        1 <= workers <= usize::MAX,
    ensures
        r@.len() == workers,
        forall|i: int| 0 <= i < workers ==> #[trigger] r@[i].start == range_start(file_len as int, workers as int, i)
            && r@[i].length == range_length(file_len as int, workers as int, i),
{
    let per_core = file_len / workers;
    let mut r: Vec<ByteRange> = Vec::new();
    let mut i: u64 = 0;
    let mut start: u64 = 0;
    while i < workers
        invariant
            0 <= i <= workers,
            per_core == file_len / workers,
            r@.len() == i,
            i < workers ==> start == range_start(file_len as int, workers as int, i as int),
            i < workers ==> start <= file_len,
            forall|j: int| 0 <= j < i ==> #[trigger] r@[j].start == range_start(file_len as int, workers as int, j)
                && r@[j].length == range_length(file_len as int, workers as int, j),
        decreases workers - i,
    {
        proof {
            lemma_range_facts(file_len as int, workers as int, i as int);
        }
        let length = if i == workers - 1 { file_len - start } else { per_core };
        r.push(ByteRange { start, length });
        if i + 1 < workers {
            start = start + per_core;
        } else {
            proof {
                assert(range_start(file_len as int, workers as int, i + 1) == start + per_core);
            }
            start = 0;
        }
        i = i + 1;
        proof {
            if i < workers {
                lemma_range_facts(file_len as int, workers as int, i as int);
            }
        }
    }
    r
}

/// The views of a sequence of tables.
pub open spec fn views(ts: Seq<Table>) -> Seq<Map<Seq<u8>, Acc>> {
    ts.map_values(|t: Table| t@)
}

/// Some step of folding the tables `ts` from the empty table overflows.
pub open spec fn merge_all_overflows(ts: Seq<Map<Seq<u8>, Acc>>) -> bool {
    exists|i: int, k: Seq<u8>| 0 <= i < ts.len() && #[trigger] merge_overflows_at(merge_all(ts.take(i)), ts[i], k)
}

/// Folds the partial tables, in the order given, into one global table.
pub fn merge_tables(parts: Vec<Table>) -> (r: Result<Table, Overflow>)
    requires
        forall|i: int| 0 <= i < parts@.len() ==> (#[trigger] parts@[i]).wf(),
    ensures
        r is Err <==> merge_all_overflows(views(parts@)),
        r is Ok ==> r->Ok_0.wf() && r->Ok_0@ == merge_all(views(parts@)),
{
    let ghost vs = views(parts@);
    let mut acc = Table::new();
    let mut i: usize = 0;
    proof {
        assert(vs.take(0) =~= Seq::<Map<Seq<u8>, Acc>>::empty());
    }
    while i < parts.len()
        invariant
            0 <= i <= parts@.len(),
            vs == views(parts@),
            forall|j: int| 0 <= j < parts@.len() ==> (#[trigger] parts@[j]).wf(),
            acc.wf(),
            acc@ == merge_all(vs.take(i as int)),
            forall|j: int, k: Seq<u8>| 0 <= j < i ==> !#[trigger] merge_overflows_at(merge_all(vs.take(j)), vs[j], k),
        decreases parts.len() - i,
    {
        proof {
            assert(vs.take(i + 1).drop_last() =~= vs.take(i as int));
            assert(vs[i as int] == parts@[i as int]@);
        }
        match acc.merge_from(&parts[i]) {
            Err(Overflow) => {
                return Err(Overflow);
            },
            Ok(()) => {},
        }
        i = i + 1;
    }
    proof {
        assert(vs.take(i as int) =~= vs);
    }
    Ok(acc)
}

/// The partial table of each of the `workers` ranges of `data`.
pub open spec fn range_tables(data: Seq<u8>, workers: int) -> Seq<Map<Seq<u8>, Acc>> {
    Seq::new(
        workers as nat,
        |i: int|
            range_table(
                data,
                range_start(data.len() as int, workers, i),
                range_length(data.len() as int, workers, i),
            ),
    )
}

/// Every one of the `workers` ranges of `data` scans without a fault.
pub open spec fn ranges_ok(data: Seq<u8>, workers: int) -> bool {
    forall|i: int|
        0 <= i < workers ==> #[trigger] range_ok(
            data,
            range_start(data.len() as int, workers, i),
            range_length(data.len() as int, workers, i),
        )
}

/// Aggregates an input held in memory with `workers` ranges, scanned one
/// after another, and folds their partial tables in range order.
pub fn aggregate(data: &[u8], workers: u64) -> (r: Result<Table, ScanError>)
    requires
        1 <= workers <= usize::MAX,
        data@.len() <= u64::MAX,
    ensures
        r is Ok <==> ranges_ok(data@, workers as int) && !merge_all_overflows(range_tables(data@, workers as int)),
        r is Ok ==> r->Ok_0.wf() && r->Ok_0@ == merge_all(range_tables(data@, workers as int)),
        well_formed_input(data@) ==> (r is Ok <==> (forall|i: int|
            0 <= i < workers ==> !fold_overflows(Map::empty(), #[trigger] worker_records(data@, workers as int)[i]))
            && !merge_all_overflows(range_tables(data@, workers as int))),
        well_formed_input(data@) && r is Ok ==> r->Ok_0@ == fold_records(
            Map::<Seq<u8>, Acc>::empty(),
            records_from(data@, 0, data@.len() as int),
        ),
{
    proof {
        if well_formed_input(data@) {
            lemma_ranges_ok(data@, workers as int);
            lemma_workers_agree(data@, workers as int, workers as int);
        }
    }
    let ranges = plan_ranges(data.len() as u64, workers);
    let ghost want = range_tables(data@, workers as int);
    let mut parts: Vec<Table> = Vec::new();
    let n: usize = data.len();
    let mut i: usize = 0;
    while i < ranges.len()
        invariant
            0 <= i <= ranges@.len(),
            n == data@.len(),
            ranges@.len() == workers,
            data@.len() <= u64::MAX,
            want == range_tables(data@, workers as int),
            forall|j: int| 0 <= j < workers ==> #[trigger] ranges@[j].start == range_start(data@.len() as int, workers as int, j)
                && ranges@[j].length == range_length(data@.len() as int, workers as int, j),
            parts@.len() == i,
            forall|j: int| 0 <= j < i ==> (#[trigger] parts@[j]).wf() && parts@[j]@ == want[j],
            forall|j: int| 0 <= j < i ==> #[trigger] range_ok(
                data@,
                range_start(data@.len() as int, workers as int, j),
                range_length(data@.len() as int, workers as int, j),
            ),
        decreases ranges.len() - i,
    {
        let range = ranges[i];
        proof {
            lemma_range_facts(data@.len() as int, workers as int, i as int);
        }
        let ghost s = range_start(data@.len() as int, workers as int, i as int);
        let ghost l = range_length(data@.len() as int, workers as int, i as int);
        assert(range.start == s && range.length == l);
        assert(s <= n);
        assert(want[i as int] == range_table(data@, s, l));
        match scan_bytes(data, range.start as usize, range.length) {
            Err(e) => {
                assert(!range_ok(data@, s, l));
                proof {
                    if well_formed_input(data@) {
                        lemma_ranges_ok(data@, workers as int);
                        assert(!ranges_ok(data@, workers as int));
                    }
                }
                return Err(e);
            },
            Ok(t) => {
                parts.push(t);
            },
        }
        i = i + 1;
    }
    proof {
        assert(views(parts@) =~= want);
    }
    match merge_tables(parts) {
        Err(Overflow) => Err(ScanError::Overflow),
        Ok(t) => Ok(t),
    }
}

} // verus!
