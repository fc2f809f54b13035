//! Key → accumulator tables: a worker's partial table and the merged one.
use vstd::prelude::*;
use crate::stat::{Acc, Stat, acc_add, acc_new, acc_merge, acc_wf};

verus! {

/// The table `m` after one more record `(k, v)`.
pub open spec fn absorb(m: Map<Seq<u8>, Acc>, k: Seq<u8>, v: int) -> Map<Seq<u8>, Acc> {
    if m.contains_key(k) {
        m.insert(k, acc_add(m[k], v))
    } else {
        m.insert(k, acc_new(v))
    }
}

/// The table of two disjoint sets of records, given the table of each.
pub open spec fn merged(a: Map<Seq<u8>, Acc>, b: Map<Seq<u8>, Acc>) -> Map<Seq<u8>, Acc> {
    Map::new(
        |k: Seq<u8>| a.contains_key(k) || b.contains_key(k),
        |k: Seq<u8>|
            if a.contains_key(k) && b.contains_key(k) {
                acc_merge(a[k], b[k])
            } else if a.contains_key(k) {
                a[k]
            } else {
                b[k]
            },
    )
}

/// The table of a sequence of records, folded in order into `m`.
pub open spec fn fold_records(m: Map<Seq<u8>, Acc>, recs: Seq<(Seq<u8>, int)>) -> Map<Seq<u8>, Acc>
    decreases recs.len(),
{
    if recs.len() == 0 {
        m
    } else {
        absorb(fold_records(m, recs.drop_last()), recs.last().0, recs.last().1)
    }
}

/// Every accumulator of the table has seen a value.
pub open spec fn table_wf(m: Map<Seq<u8>, Acc>) -> bool {
    forall|k: Seq<u8>| m.contains_key(k) ==> acc_wf(#[trigger] m[k])
}

/// Adding `v` to the accumulator of `k` in `m` would leave the exact range
/// of a stored sum or count.
pub open spec fn absorb_overflows(m: Map<Seq<u8>, Acc>, k: Seq<u8>, v: int) -> bool {
    m.contains_key(k) && !(i64::MIN <= m[k].sum + v <= i64::MAX && m[k].count + 1 <= u32::MAX)
}

/// Merging the accumulators of `k` in `a` and `b` would leave the range of
/// a stored sum or count.
pub open spec fn merge_overflows_at(a: Map<Seq<u8>, Acc>, b: Map<Seq<u8>, Acc>, k: Seq<u8>) -> bool {
    a.contains_key(k) && b.contains_key(k) && !(i64::MIN <= a[k].sum + b[k].sum <= i64::MAX
        && a[k].count + b[k].count <= u32::MAX)
}

/// A sum or count that no longer fits its stored width.
#[derive(Clone, Copy, Debug, PartialEq, Eq)]
pub struct Overflow;

/// A table from key bytes to accumulators; each key is stored once.
pub struct Table {
    keys: Vec<Vec<u8>>,
    stats: Vec<Stat>,
}

impl Table {
    pub closed spec fn key_at(&self, i: int) -> Seq<u8> {
        self.keys@[i]@
    }

    pub closed spec fn has_key(&self, k: Seq<u8>) -> bool {
        exists|i: int| 0 <= i < self.keys@.len() && self.keys@[i]@ == k
    }

    pub closed spec fn index_of(&self, k: Seq<u8>) -> int {
        choose|i: int| 0 <= i < self.keys@.len() && self.keys@[i]@ == k
    }

    pub open spec fn view(&self) -> Map<Seq<u8>, Acc> {
        Map::new(|k: Seq<u8>| self.has_key(k), |k: Seq<u8>| self.stat_at(self.index_of(k)))
    }

    pub closed spec fn stat_at(&self, i: int) -> Acc {
        self.stats@[i]@
    }

    /// Keys are stored once, each with its accumulator.
    pub closed spec fn wf(&self) -> bool {
        &&& self.keys@.len() == self.stats@.len()
        &&& forall|i: int, j: int|
            0 <= i < self.keys@.len() && 0 <= j < self.keys@.len() && i != j
                ==> self.keys@[i]@ != self.keys@[j]@
        &&& forall|i: int| 0 <= i < self.stats@.len() ==> (#[trigger] self.stats@[i]).wf()
    }

    proof fn lemma_index(&self, i: int)
        requires
            self.wf(),
            0 <= i < self.keys@.len(),
        ensures
            self@.contains_key(self.keys@[i]@),
            self@[self.keys@[i]@] == self.stats@[i]@,
    {
        let k = self.keys@[i]@;
        assert(self.has_key(k));
        let j = self.index_of(k);
        assert(self.keys@[j]@ == k);
    }

    /// Copies of the stored keys, each once, in the order of first sighting.
    pub fn key_list(&self) -> (r: Vec<Vec<u8>>)
        requires
            self.wf(),
        ensures
            r@.len() == self@.dom().len(),
            forall|i: int| 0 <= i < r@.len() ==> self@.contains_key(#[trigger] r@[i]@),
            forall|k: Seq<u8>| self@.contains_key(k) ==> exists|i: int| 0 <= i < r@.len() && (#[trigger] r@[i]@) == k,
            forall|i: int, j: int| 0 <= i < r@.len() && 0 <= j < r@.len() && i != j ==> r@[i]@ != r@[j]@,
    {
        proof {
            self.lemma_dom_len();
        }
        let mut r: Vec<Vec<u8>> = Vec::new();
        let mut i: usize = 0;
        while i < self.keys.len()
            invariant
                self.wf(),
                0 <= i <= self.keys@.len(),
                r@.len() == i,
                forall|j: int| 0 <= j < i ==> (#[trigger] r@[j])@ == self.keys@[j]@,
            decreases self.keys.len() - i,
        {
            r.push(self.keys[i].clone());
            i = i + 1;
        }
        proof {
            assert forall|j: int| 0 <= j < r@.len() implies self@.contains_key(#[trigger] r@[j]@) by {
                self.lemma_index(j);
            }
            assert forall|k: Seq<u8>| self@.contains_key(k) implies exists|j: int| 0 <= j < r@.len() && (#[trigger] r@[j]@) == k by {
                let j = self.index_of(k);
                assert(self.has_key(k));
                assert(r@[j]@ == k);
            }
        }
        r
    }

    /// The empty table.
    pub fn new() -> (r: Self)
        ensures
            r.wf(),
            r@ == Map::<Seq<u8>, Acc>::empty(),
    {
        let r = Table { keys: Vec::new(), stats: Vec::new() };
        assert(r@ =~= Map::<Seq<u8>, Acc>::empty());
        r
    }

    /// Number of distinct keys.
    pub fn len(&self) -> (r: usize)
        requires
            self.wf(),
        ensures
            r == self@.dom().len(),
    {
        proof {
            self.lemma_dom_len();
        }
        self.keys.len()
    }

    proof fn lemma_dom_len(&self)
        requires
            self.wf(),
        ensures
            self@.dom().len() == self.keys@.len(),
            self@.dom().finite(),
    {
        let ks = self.keys@.map_values(|v: Vec<u8>| v@);
        assert forall|i: int, j: int| 0 <= i < ks.len() && 0 <= j < ks.len() && i != j implies ks[i] != ks[j] by {
        }
        assert(ks.no_duplicates());
        assert(self@.dom() =~= ks.to_set()) by {
            assert forall|k: Seq<u8>| self@.dom().contains(k) implies ks.to_set().contains(k) by {
                let i = choose|i: int| 0 <= i < self.keys@.len() && self.keys@[i]@ == k;
                assert(ks[i] == k);
            }
            assert forall|k: Seq<u8>| ks.to_set().contains(k) implies self@.dom().contains(k) by {
                let i = choose|i: int| 0 <= i < ks.len() && ks[i] == k;
                assert(self.keys@[i]@ == k);
            }
        }
        ks.unique_seq_to_set();
    }

    /// The index at which `key` is stored, if it is.
    fn find(&self, key: &[u8]) -> (r: Option<usize>)
        requires
            self.wf(),
        ensures
            r is None ==> !self@.contains_key(key@),
            r is Some ==> r->0 < self.keys@.len() && self.keys@[r->0 as int]@ == key@,
    {
        let mut i: usize = 0;
        while i < self.keys.len()
            invariant
                self.wf(),
                0 <= i <= self.keys@.len(),
                forall|j: int| 0 <= j < i ==> self.keys@[j]@ != key@,
            decreases self.keys.len() - i,
        {
            if bytes_eq(self.keys[i].as_slice(), key) {
                return Some(i);
            }
            i = i + 1;
        }
        None
    }

    /// The accumulator stored for `key`.
    pub fn get(&self, key: &[u8]) -> (r: Option<Stat>)
        requires
            self.wf(),
        ensures
            r is None <==> !self@.contains_key(key@),
            r is Some ==> r->0@ == self@[key@] && r->0.wf(),
    {
        match self.find(key) {
            None => None,
            Some(i) => {
                proof {
                    self.lemma_index(i as int);
                }
                Some(self.stats[i])
            },
        }
    }

    /// Records one observation `temp` of `key`: a first sighting stores a
    /// copy of the key. Fails, leaving the table as it was, where the key's
    /// sum or count would overflow.
    pub fn record(&mut self, key: &[u8], temp: i64) -> (r: Result<(), Overflow>)
        requires
            old(self).wf(),
        ensures
            final(self).wf(),
            r is Err <==> absorb_overflows(old(self)@, key@, temp as int),
            r is Ok ==> final(self)@ == absorb(old(self)@, key@, temp as int),
            r is Err ==> final(self)@ == old(self)@,
    {
        match self.find(key) {
            None => {
                let ghost old_t = *self;
                self.keys.push(vstd::slice::slice_to_vec(key));
                self.stats.push(Stat::new(temp));
                proof {
                    self.lemma_after_push(old_t, key@, acc_new(temp as int));
                }
                Ok(())
            },
            Some(i) => {
                proof {
                    self.lemma_index(i as int);
                }
                let mut s = self.stats[i];
                if !s.fits_update(temp) {
                    return Err(Overflow);
                }
                let ghost old_t = *self;
                s.update(temp);
                self.stats.set(i, s);
                proof {
                    self.lemma_after_set(old_t, i as int);
                }
                Ok(())
            },
        }
    }

    /// The entries of the first `j` stored keys.
    pub closed spec fn prefix(&self, j: int) -> Map<Seq<u8>, Acc> {
        Map::new(
            |k: Seq<u8>| exists|i: int| 0 <= i < j && i < self.keys@.len() && self.keys@[i]@ == k,
            |k: Seq<u8>| self@[k],
        )
    }

    proof fn lemma_prefix_step(&self, j: int)
        requires
            self.wf(),
            0 <= j < self.keys@.len(),
        ensures
            !self.prefix(j).contains_key(self.keys@[j]@),
            self.prefix(j + 1) == self.prefix(j).insert(self.keys@[j]@, self@[self.keys@[j]@]),
    {
        let k = self.keys@[j]@;
        self.lemma_index(j);
        assert forall|kk: Seq<u8>| #[trigger] self.prefix(j + 1).contains_key(kk)
            == self.prefix(j).insert(k, self@[k]).contains_key(kk) by {
            if self.prefix(j + 1).contains_key(kk) && kk != k {
                let i = choose|i: int| 0 <= i < j + 1 && i < self.keys@.len() && self.keys@[i]@ == kk;
                assert(i != j);
            }
            if kk == k {
                assert(self.keys@[j]@ == kk);
            }
            if self.prefix(j).contains_key(kk) {
                let i = choose|i: int| 0 <= i < j && i < self.keys@.len() && self.keys@[i]@ == kk;
                assert(self.keys@[i]@ == kk);
            }
        }
        assert(self.prefix(j + 1) =~= self.prefix(j).insert(k, self@[k]));
    }

    proof fn lemma_prefix_ends(&self)
        requires
            self.wf(),
        ensures
            self.prefix(0) == Map::<Seq<u8>, Acc>::empty(),
            self.prefix(self.keys@.len() as int) == self@,
    {
        assert(self.prefix(0) =~= Map::<Seq<u8>, Acc>::empty());
        assert(self.prefix(self.keys@.len() as int) =~= self@);
    }

    /// Folds every entry of `other` into this table: a key already present
    /// gets the two accumulators joined, a new key is inserted. Fails where
    /// the joined sum or count of some key would overflow.
    pub fn merge_from(&mut self, other: &Table) -> (r: Result<(), Overflow>)
        requires
            old(self).wf(),
            other.wf(),
        ensures
            final(self).wf(),
            r is Err <==> exists|k: Seq<u8>| merge_overflows_at(old(self)@, other@, k),
            r is Ok ==> final(self)@ == merged(old(self)@, other@),
    {
        let ghost start = self@;
        proof {
            other.lemma_prefix_ends();
            assert(merged(start, other.prefix(0)) =~= start);
        }
        let mut j: usize = 0;
        while j < other.keys.len()
            invariant
                self.wf(),
                other.wf(),
                0 <= j <= other.keys@.len(),
                self@ == merged(start, other.prefix(j as int)),
                start == old(self)@,
                forall|k: Seq<u8>| other.prefix(j as int).contains_key(k) ==> !merge_overflows_at(start, other@, k),
            decreases other.keys.len() - j,
        {
            let ghost k = other.keys@[j as int]@;
            let ghost before = self@;
            proof {
                other.lemma_prefix_step(j as int);
                other.lemma_index(j as int);
            }
            let incoming = other.stats[j];
            match self.find(other.keys[j].as_slice()) {
                None => {
                    let ghost old_t = *self;
                    self.keys.push(other.keys[j].clone());
                    self.stats.push(incoming);
                    proof {
                        assert(self.keys@.last()@ == k);
                        self.lemma_after_push(old_t, k, incoming@);
                        assert(!start.contains_key(k));
                        assert(self@ =~= merged(start, other.prefix(j as int + 1)));
                    }
                },
                Some(i) => {
                    proof {
                        self.lemma_index(i as int);
                    }
                    let mut s = self.stats[i];
                    assert(self@.contains_key(k));
                    assert(!other.prefix(j as int).contains_key(k));
                    assert(start.contains_key(k));
                    assert(self@[k] == start[k]);
                    if !s.fits_join(&incoming) {
                        assert(merge_overflows_at(start, other@, k));
                        return Err(Overflow);
                    }
                    let ghost old_t = *self;
                    s.join(&incoming);
                    self.stats.set(i, s);
                    proof {
                        self.lemma_after_set(old_t, i as int);
                        assert(self@ =~= merged(start, other.prefix(j as int + 1)));
                    }
                },
            }
            j = j + 1;
        }
        proof {
            assert(other.prefix(j as int) == other@);
        }
        Ok(())
    }

    proof fn lemma_after_push(&self, old_t: Table, k: Seq<u8>, a: Acc)
        requires
            old_t.wf(),
            !old_t@.contains_key(k),
            acc_wf(a),
            self.keys@ == old_t.keys@.push(self.keys@.last()),
            self.keys@.last()@ == k,
            self.stats@ == old_t.stats@.push(self.stats@.last()),
            self.stats@.last()@ == a,
        ensures
            self.wf(),
            self@ == old_t@.insert(k, a),
    {
        let n = old_t.keys@.len() as int;
        assert forall|i: int| 0 <= i < n implies old_t.keys@[i]@ != k by {
            if old_t.keys@[i]@ == k {
                assert(old_t.has_key(k));
            }
        }
        assert(self.wf());
        assert forall|kk: Seq<u8>| #[trigger] self@.contains_key(kk) == old_t@.insert(k, a).contains_key(kk) by {
            if self.has_key(kk) && kk != k {
                let i = choose|i: int| 0 <= i < self.keys@.len() && self.keys@[i]@ == kk;
                assert(old_t.keys@[i]@ == kk);
            }
            if old_t.has_key(kk) {
                let i = choose|i: int| 0 <= i < old_t.keys@.len() && old_t.keys@[i]@ == kk;
                assert(self.keys@[i]@ == kk);
            }
            if kk == k {
                assert(self.keys@[n]@ == k);
            }
        }
        assert forall|kk: Seq<u8>| self@.contains_key(kk) implies #[trigger] self@[kk] == old_t@.insert(k, a)[kk] by {
            if kk == k {
                self.lemma_index(n);
            } else {
                let i = old_t.index_of(kk);
                assert(old_t.has_key(kk));
                old_t.lemma_index(i);
                self.lemma_index(i);
            }
        }
        assert(self@ =~= old_t@.insert(k, a));
    }

    proof fn lemma_after_set(&self, old_t: Table, i: int)
        requires
            old_t.wf(),
            0 <= i < old_t.keys@.len(),
            self.keys@ == old_t.keys@,
            self.stats@ == old_t.stats@.update(i, self.stats@[i]),
            self.stats@[i].wf(),
        ensures
            self.wf(),
            self@ == old_t@.insert(old_t.keys@[i]@, self.stats@[i]@),
    {
        let k = old_t.keys@[i]@;
        assert(self.wf());
        old_t.lemma_index(i);
        assert forall|kk: Seq<u8>| self@.contains_key(kk) implies #[trigger] self@[kk] == old_t@.insert(k, self.stats@[i]@)[kk] by {
            let j = self.index_of(kk);
            assert(self.has_key(kk));
            self.lemma_index(j);
            old_t.lemma_index(j);
        }
        assert(self@ =~= old_t@.insert(k, self.stats@[i]@));
    }
}

/// Byte-wise equality of two spans.
pub fn bytes_eq(a: &[u8], b: &[u8]) -> (r: bool)
    ensures
        r == (a@ == b@),
{
    if a.len() != b.len() {
        return false;
    }
    let mut i: usize = 0;
    while i < a.len()
        invariant
            a@.len() == b@.len(),
            0 <= i <= a@.len(),
            forall|j: int| 0 <= j < i ==> a@[j] == b@[j],
        decreases a.len() - i,
    {
        if a[i] != b[i] {
            return false;
        }
        i = i + 1;
    }
    assert(a@ =~= b@);
    true
}

} // verus!
