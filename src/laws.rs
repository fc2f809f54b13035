//! Algebra of merged tables: the result of a run does not depend on how the
//! records were split among workers nor on the order partial tables arrive.
use vstd::prelude::*;
use crate::stat::Acc;
use crate::table::{absorb, fold_records, merged};

verus! {

/// The merge of a sequence of tables, folded left from the empty table.
pub open spec fn merge_all(ts: Seq<Map<Seq<u8>, Acc>>) -> Map<Seq<u8>, Acc>
    decreases ts.len(),
{
    if ts.len() == 0 {
        Map::empty()
    } else {
        merged(merge_all(ts.drop_last()), ts.last())
    }
}

/// The records of consecutive pieces, joined in order.
pub open spec fn concat_all(pieces: Seq<Seq<(Seq<u8>, int)>>) -> Seq<(Seq<u8>, int)>
    decreases pieces.len(),
{
    if pieces.len() == 0 {
        Seq::empty()
    } else {
        concat_all(pieces.drop_last()) + pieces.last()
    }
}

/// The table of each piece of records, on its own.
pub open spec fn piece_tables(pieces: Seq<Seq<(Seq<u8>, int)>>) -> Seq<Map<Seq<u8>, Acc>> {
    pieces.map_values(|p: Seq<(Seq<u8>, int)>| fold_records(Map::empty(), p))
}

/// Merging tables does not depend on their order.
pub proof fn lemma_merged_commutative(a: Map<Seq<u8>, Acc>, b: Map<Seq<u8>, Acc>)
    ensures
        merged(a, b) == merged(b, a),
{
    assert(merged(a, b) =~= merged(b, a));
}

/// Merging tables does not depend on how the merges are grouped.
pub proof fn lemma_merged_associative(a: Map<Seq<u8>, Acc>, b: Map<Seq<u8>, Acc>, c: Map<Seq<u8>, Acc>)
    ensures
        merged(merged(a, b), c) == merged(a, merged(b, c)),
{
    assert(merged(merged(a, b), c) =~= merged(a, merged(b, c)));
}

/// The empty table is neutral for merging.
pub proof fn lemma_merged_empty(a: Map<Seq<u8>, Acc>)
    ensures
        merged(a, Map::empty()) == a,
        merged(Map::empty(), a) == a,
{
    assert(merged(a, Map::empty()) =~= a);
    assert(merged(Map::empty(), a) =~= a);
}

proof fn lemma_merge_all_remove(us: Seq<Map<Seq<u8>, Acc>>, j: int)
    requires
        0 <= j < us.len(),
    ensures
        merge_all(us) == merged(merge_all(us.remove(j)), us[j]),
    decreases us.len(),
{
    if j == us.len() - 1 {
        assert(us.remove(j) =~= us.drop_last());
    } else {
        let d = us.drop_last();
        lemma_merge_all_remove(d, j);
        assert(us.remove(j).drop_last() =~= d.remove(j));
        assert(us.remove(j).last() == us.last());
        let x = merge_all(d.remove(j));
        lemma_merged_associative(x, us[j], us.last());
        lemma_merged_commutative(us[j], us.last());
        lemma_merged_associative(x, us.last(), us[j]);
    }
}

/// The merged table is the same for every order in which the partial
/// tables are folded: any two arrangements of the same tables give one result.
pub proof fn lemma_merge_order_irrelevant(ts: Seq<Map<Seq<u8>, Acc>>, us: Seq<Map<Seq<u8>, Acc>>)
    requires
        ts.to_multiset() == us.to_multiset(),
    ensures
        merge_all(ts) == merge_all(us),
    decreases ts.len(),
{
    broadcast use vstd::seq_lib::group_to_multiset_ensures;

    assert(ts.to_multiset().len() == ts.len());
    assert(us.to_multiset().len() == us.len());
    if ts.len() == 0 {
        assert(us.len() == 0);
        assert(us =~= Seq::<Map<Seq<u8>, Acc>>::empty());
    } else {
        let x = ts.last();
        let n = ts.len() - 1;
        assert(ts[n] == x);
        assert(ts.contains(x));
        assert(ts.to_multiset().count(x) > 0);
        assert(us.to_multiset().count(x) > 0);
        assert(us.contains(x));
        let j = choose|j: int| 0 <= j < us.len() && us[j] == x;
        assert(ts.remove(n) =~= ts.drop_last());
        assert(ts.drop_last().to_multiset() == us.remove(j).to_multiset());
        lemma_merge_order_irrelevant(ts.drop_last(), us.remove(j));
        lemma_merge_all_remove(us, j);
    }
}

proof fn lemma_absorb_merged(a: Map<Seq<u8>, Acc>, b: Map<Seq<u8>, Acc>, k: Seq<u8>, v: int)
    ensures
        absorb(merged(a, b), k, v) == merged(a, absorb(b, k, v)),
{
    assert(absorb(merged(a, b), k, v) =~= merged(a, absorb(b, k, v)));
}

/// Folding records into a table is merging it with the table of those records.
pub proof fn lemma_fold_is_merge(m: Map<Seq<u8>, Acc>, recs: Seq<(Seq<u8>, int)>)
    ensures
        fold_records(m, recs) == merged(m, fold_records(Map::empty(), recs)),
    decreases recs.len(),
{
    if recs.len() == 0 {
        lemma_merged_empty(m);
    } else {
        lemma_fold_is_merge(m, recs.drop_last());
        lemma_absorb_merged(m, fold_records(Map::empty(), recs.drop_last()), recs.last().0, recs.last().1);
    }
}

proof fn lemma_fold_append(m: Map<Seq<u8>, Acc>, r1: Seq<(Seq<u8>, int)>, r2: Seq<(Seq<u8>, int)>)
    ensures
        fold_records(m, r1 + r2) == fold_records(fold_records(m, r1), r2),
    decreases r2.len(),
{
    if r2.len() == 0 {
        assert(r1 + r2 =~= r1);
    } else {
        lemma_fold_append(m, r1, r2.drop_last());
        assert((r1 + r2).drop_last() =~= r1 + r2.drop_last());
    }
}

/// The table of two runs of records is the merge of the table of each.
pub proof fn lemma_split_records(r1: Seq<(Seq<u8>, int)>, r2: Seq<(Seq<u8>, int)>)
    ensures
        fold_records(Map::empty(), r1 + r2) == merged(
            fold_records(Map::empty(), r1),
            fold_records(Map::empty(), r2),
        ),
{
    lemma_fold_append(Map::empty(), r1, r2);
    lemma_fold_is_merge(fold_records(Map::empty(), r1), r2);
}

/// Scanning all records with one worker gives the same table as scanning
/// consecutive pieces of them with one worker each and merging the partial
/// tables.
pub proof fn lemma_pieces_merge(pieces: Seq<Seq<(Seq<u8>, int)>>)
    ensures
        fold_records(Map::empty(), concat_all(pieces)) == merge_all(piece_tables(pieces)),
    decreases pieces.len(),
{
    if pieces.len() > 0 {
        let d = pieces.drop_last();
        lemma_pieces_merge(d);
        assert(piece_tables(pieces).drop_last() =~= piece_tables(d));
        lemma_split_records(concat_all(d), pieces.last());
    }
}

} // verus!
