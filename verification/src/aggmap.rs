//! The key-to-aggregate mapping, kept as an association list sorted strictly
//! by the lexicographic order of the raw key bytes. Sortedness makes the
//! entry sequence a canonical form of the abstract map, which is what makes
//! the rendered output independent of scan and merge order.

use vstd::prelude::*;
use crate::bytes::{lex_lt, lemma_lex_asym, lemma_lex_trans, bytes_cmp, Cmp};
use crate::measure::{AggV, Measurement, combine_agg, unit_agg, lemma_combine_assoc};
use crate::lines::{agg_step, combine_maps};

verus! {

/// The abstract map an entry sequence stands for.
pub open spec fn map_of(es: Seq<(Seq<u8>, AggV)>) -> Map<Seq<u8>, AggV>
    decreases es.len(),
{
    if es.len() == 0 {
        Map::empty()
    } else {
        map_of(es.drop_last()).insert(es.last().0, es.last().1)
    }
}

/// Entry keys in strictly increasing lexicographic order.
pub open spec fn sorted_strict(es: Seq<(Seq<u8>, AggV)>) -> bool {
    forall|i: int, j: int|
        0 <= i < j < es.len() ==> lex_lt((#[trigger] es[i]).0, (#[trigger] es[j]).0)
}

/// The total number of observations an entry sequence holds.
pub open spec fn counts_sum(es: Seq<(Seq<u8>, AggV)>) -> int
    decreases es.len(),
{
    if es.len() == 0 {
        0
    } else {
        counts_sum(es.drop_last()) + es.last().1.count
    }
}

/// Folding a whole aggregate for one key into a map.
pub open spec fn upsert_map(m: Map<Seq<u8>, AggV>, k: Seq<u8>, a: AggV) -> Map<Seq<u8>, AggV> {
    if m.dom().contains(k) {
        m.insert(k, combine_agg(m[k], a))
    } else {
        m.insert(k, a)
    }
}

/// A key is in the abstract map exactly when some entry holds it.
pub proof fn lemma_map_of_dom(es: Seq<(Seq<u8>, AggV)>, k: Seq<u8>)
    ensures
        map_of(es).dom().contains(k) <==> exists|i: int| 0 <= i < es.len() && (#[trigger] es[i]).0
            == k,
    decreases es.len(),
{
    if es.len() > 0 {
        lemma_map_of_dom(es.drop_last(), k);
        if map_of(es).dom().contains(k) {
            if es.last().0 == k {
                assert(es[es.len() - 1].0 == k);
            } else {
                let i = choose|i: int|
                    0 <= i < es.drop_last().len() && (#[trigger] es.drop_last()[i]).0 == k;
                assert(es[i].0 == k);
            }
        }
        if exists|i: int| 0 <= i < es.len() && (#[trigger] es[i]).0 == k {
            let i = choose|i: int| 0 <= i < es.len() && (#[trigger] es[i]).0 == k;
            if i < es.len() - 1 {
                assert(es.drop_last()[i].0 == k);
            }
        }
    }
}

/// With distinct keys, the abstract map reads each entry back.
pub proof fn lemma_map_of_index(es: Seq<(Seq<u8>, AggV)>, i: int)
    requires
        forall|p: int, q: int| 0 <= p < q < es.len() ==> (#[trigger] es[p]).0 != (#[trigger] es[q]).0,
        0 <= i < es.len(),
    ensures
        map_of(es).dom().contains(es[i].0),
        map_of(es)[es[i].0] == es[i].1,
    decreases es.len(),
{
    if i == es.len() - 1 {
    } else {
        assert(forall|p: int, q: int|
            0 <= p < q < es.drop_last().len() ==> (#[trigger] es.drop_last()[p]).0 != (
            #[trigger] es.drop_last()[q]).0);
        lemma_map_of_index(es.drop_last(), i);
        assert(es.drop_last()[i] == es[i]);
        assert(es[i].0 != es.last().0);
    }
}

/// Replacing an entry's aggregate is an insert on the abstract map.
pub proof fn lemma_map_of_update(es: Seq<(Seq<u8>, AggV)>, i: int, x: (Seq<u8>, AggV))
    requires
        forall|p: int, q: int| 0 <= p < q < es.len() ==> (#[trigger] es[p]).0 != (#[trigger] es[q]).0,
        0 <= i < es.len(),
        x.0 == es[i].0,
    ensures
        map_of(es.update(i, x)) == map_of(es).insert(x.0, x.1),
    decreases es.len(),
{
    let es2 = es.update(i, x);
    if i == es.len() - 1 {
        assert(es2.drop_last() =~= es.drop_last());
        assert(es2.last() == x);
        assert(map_of(es2) =~= map_of(es).insert(x.0, x.1));
    } else {
        assert(forall|p: int, q: int|
            0 <= p < q < es.drop_last().len() ==> (#[trigger] es.drop_last()[p]).0 != (
            #[trigger] es.drop_last()[q]).0);
        lemma_map_of_update(es.drop_last(), i, x);
        assert(es2.drop_last() =~= es.drop_last().update(i, x));
        assert(es2.last() == es.last());
        assert(es[i].0 != es.last().0);
        assert(map_of(es2) =~= map_of(es).insert(x.0, x.1));
    }
}

/// Inserting an entry with a fresh key is an insert on the abstract map.
pub proof fn lemma_map_of_insert_at(es: Seq<(Seq<u8>, AggV)>, i: int, x: (Seq<u8>, AggV))
    requires
        forall|p: int| 0 <= p < es.len() ==> (#[trigger] es[p]).0 != x.0,
        0 <= i <= es.len(),
    ensures
        map_of(es.insert(i, x)) == map_of(es).insert(x.0, x.1),
    decreases es.len(),
{
    let es2 = es.insert(i, x);
    if i == es.len() {
        assert(es2.drop_last() =~= es);
        assert(es2.last() == x);
    } else {
        assert(es2.last() == es.last());
        assert(es2.drop_last() =~= es.drop_last().insert(i, x));
        assert(forall|p: int|
            0 <= p < es.drop_last().len() ==> (#[trigger] es.drop_last()[p]).0 != x.0);
        lemma_map_of_insert_at(es.drop_last(), i, x);
        assert(es.last().0 != x.0);
        assert(map_of(es.drop_last()).insert(x.0, x.1).insert(es.last().0, es.last().1) =~= map_of(
            es.drop_last(),
        ).insert(es.last().0, es.last().1).insert(x.0, x.1));
        assert(map_of(es2) =~= map_of(es).insert(x.0, x.1));
    }
}

/// The observation total is nonnegative and bounds each entry's count.
pub proof fn lemma_counts_sum_entry(es: Seq<(Seq<u8>, AggV)>, i: int)
    requires
        0 <= i < es.len(),
    ensures
        es[i].1.count <= counts_sum(es),
    decreases es.len(),
{
    if i == es.len() - 1 {
        lemma_counts_sum_nonneg(es.drop_last());
    } else {
        lemma_counts_sum_entry(es.drop_last(), i);
        assert(es.drop_last()[i] == es[i]);
    }
}

pub proof fn lemma_counts_sum_nonneg(es: Seq<(Seq<u8>, AggV)>)
    ensures
        counts_sum(es) >= 0,
    decreases es.len(),
{
    if es.len() > 0 {
        lemma_counts_sum_nonneg(es.drop_last());
    }
}

pub proof fn lemma_counts_sum_update(es: Seq<(Seq<u8>, AggV)>, i: int, x: (Seq<u8>, AggV))
    requires
        0 <= i < es.len(),
    ensures
        counts_sum(es.update(i, x)) == counts_sum(es) - es[i].1.count + x.1.count,
    decreases es.len(),
{
    let es2 = es.update(i, x);
    if i == es.len() - 1 {
        assert(es2.drop_last() =~= es.drop_last());
    } else {
        assert(es2.drop_last() =~= es.drop_last().update(i, x));
        assert(es2.last() == es.last());
        lemma_counts_sum_update(es.drop_last(), i, x);
        assert(es.drop_last()[i] == es[i]);
    }
}

pub proof fn lemma_counts_sum_insert(es: Seq<(Seq<u8>, AggV)>, i: int, x: (Seq<u8>, AggV))
    requires
        0 <= i <= es.len(),
    ensures
        counts_sum(es.insert(i, x)) == counts_sum(es) + x.1.count,
    decreases es.len(),
{
    let es2 = es.insert(i, x);
    if i == es.len() {
        assert(es2.drop_last() =~= es);
        assert(es2.last() == x);
    } else {
        assert(es2.drop_last() =~= es.drop_last().insert(i, x));
        assert(es2.last() == es.last());
        lemma_counts_sum_insert(es.drop_last(), i, x);
    }
}

/// Folding one key's aggregate into merged maps folds it into the right one.
pub proof fn lemma_upsert_combine(
    m1: Map<Seq<u8>, AggV>,
    m2: Map<Seq<u8>, AggV>,
    k: Seq<u8>,
    a: AggV,
)
    ensures
        upsert_map(combine_maps(m1, m2), k, a) == combine_maps(m1, upsert_map(m2, k, a)),
{
    let lhs = upsert_map(combine_maps(m1, m2), k, a);
    let rhs = combine_maps(m1, upsert_map(m2, k, a));
    assert forall|q: Seq<u8>| lhs.dom().contains(q) implies lhs[q] == rhs[q] by {
        if q == k {
            if m1.dom().contains(q) && m2.dom().contains(q) {
                lemma_combine_assoc(m1[q], m2[q], a);
            }
        }
    }
    assert(lhs =~= rhs);
}

/// Upserting entry after entry, left to right.
pub open spec fn fold_upserts(m: Map<Seq<u8>, AggV>, es: Seq<(Seq<u8>, AggV)>) -> Map<
    Seq<u8>,
    AggV,
>
    decreases es.len(),
{
    if es.len() == 0 {
        m
    } else {
        upsert_map(fold_upserts(m, es.drop_last()), es.last().0, es.last().1)
    }
}

/// Upserting every entry of a distinct-keyed sequence merges its map in.
pub proof fn lemma_fold_upserts_combine(m: Map<Seq<u8>, AggV>, es: Seq<(Seq<u8>, AggV)>)
    requires
        forall|p: int, q: int| 0 <= p < q < es.len() ==> (#[trigger] es[p]).0 != (#[trigger] es[q]).0,
    ensures
        fold_upserts(m, es) == combine_maps(m, map_of(es)),
    decreases es.len(),
{
    if es.len() == 0 {
        crate::lines::lemma_combine_maps_empty(m);
    } else {
        let es2 = es.drop_last();
        assert(forall|p: int, q: int|
            0 <= p < q < es2.len() ==> (#[trigger] es2[p]).0 != (#[trigger] es2[q]).0);
        lemma_fold_upserts_combine(m, es2);
        lemma_upsert_combine(m, map_of(es2), es.last().0, es.last().1);
        lemma_map_of_dom(es2, es.last().0);
        assert(!map_of(es2).dom().contains(es.last().0)) by {
            if map_of(es2).dom().contains(es.last().0) {
                let i = choose|i: int|
                    0 <= i < es2.len() && (#[trigger] es2[i]).0 == es.last().0;
                assert(es[i].0 == es[es.len() - 1].0);
            }
        }
    }
}

/// Strictly sorted keys are pairwise distinct.
pub proof fn lemma_sorted_distinct(es: Seq<(Seq<u8>, AggV)>)
    requires
        sorted_strict(es),
    ensures
        forall|p: int, q: int| 0 <= p < q < es.len() ==> (#[trigger] es[p]).0 != (#[trigger] es[q]).0,
{
    assert forall|p: int, q: int| 0 <= p < q < es.len() implies (#[trigger] es[p]).0 != (
    #[trigger] es[q]).0 by {
        if es[p].0 == es[q].0 {
            lemma_lex_asym(es[p].0, es[q].0);
        }
    }
}

pub proof fn lemma_counts_sum_take(es: Seq<(Seq<u8>, AggV)>, j: int)
    requires
        0 <= j <= es.len(),
    ensures
        counts_sum(es.take(j)) <= counts_sum(es),
    decreases es.len(),
{
    if j == es.len() {
        assert(es.take(j) =~= es);
    } else {
        assert(es.drop_last().take(j) =~= es.take(j));
        lemma_counts_sum_take(es.drop_last(), j);
    }
}

/// Sorted entry sequences are a canonical form: two strictly sorted
/// sequences that stand for the same abstract map are equal. This is what
/// makes the rendered output independent of scan and merge order.
pub proof fn lemma_sorted_canonical(e1: Seq<(Seq<u8>, AggV)>, e2: Seq<(Seq<u8>, AggV)>)
    requires
        sorted_strict(e1),
        sorted_strict(e2),
        map_of(e1) == map_of(e2),
    ensures
        e1 == e2,
    decreases e1.len(),
{
    lemma_sorted_distinct(e1);
    lemma_sorted_distinct(e2);
    if e1.len() == 0 {
        if e2.len() > 0 {
            assert(map_of(e2).dom().contains(e2.last().0));
        }
        assert(e1 =~= e2);
    } else if e2.len() == 0 {
        assert(map_of(e1).dom().contains(e1.last().0));
        assert(e1 =~= e2);
    } else {
        let k1 = e1.last().0;
        let k2 = e2.last().0;
        // Each last key is the greatest of its sequence; equal key sets
        // force the last keys to be equal.
        assert(map_of(e1).dom().contains(k1));
        lemma_map_of_dom(e2, k1);
        let i2 = choose|i: int| 0 <= i < e2.len() && (#[trigger] e2[i]).0 == k1;
        assert(map_of(e2).dom().contains(k2));
        lemma_map_of_dom(e1, k2);
        let i1 = choose|i: int| 0 <= i < e1.len() && (#[trigger] e1[i]).0 == k2;
        if i2 < e2.len() - 1 && i1 < e1.len() - 1 {
            assert(lex_lt(e2[i2].0, k2));
            assert(lex_lt(e1[i1].0, k1));
            lemma_lex_asym(k1, k2);
            assert(false);
        }
        assert(k1 == k2);
        // Values at the last key agree.
        lemma_map_of_index(e1, e1.len() - 1);
        lemma_map_of_index(e2, e2.len() - 1);
        assert(e1.last().1 == e2.last().1);
        // Dropping the last entry removes exactly that key from the map.
        lemma_map_of_dom(e1.drop_last(), k1);
        assert forall|i: int| 0 <= i < e1.drop_last().len() implies (#[trigger] e1.drop_last()[
        i]).0 != k1 by {
            assert(e1.drop_last()[i] == e1[i]);
        }
        assert(map_of(e1.drop_last()) =~= map_of(e1).remove(k1));
        lemma_map_of_dom(e2.drop_last(), k2);
        assert forall|i: int| 0 <= i < e2.drop_last().len() implies (#[trigger] e2.drop_last()[
        i]).0 != k2 by {
            assert(e2.drop_last()[i] == e2[i]);
        }
        assert(map_of(e2.drop_last()) =~= map_of(e2).remove(k2));
        assert(sorted_strict(e1.drop_last())) by {
            assert(forall|p: int, q: int|
                0 <= p < q < e1.drop_last().len() ==> (#[trigger] e1.drop_last()[p]) == e1[p]
                    && (#[trigger] e1.drop_last()[q]) == e1[q]);
        }
        assert(sorted_strict(e2.drop_last())) by {
            assert(forall|p: int, q: int|
                0 <= p < q < e2.drop_last().len() ==> (#[trigger] e2.drop_last()[p]) == e2[p]
                    && (#[trigger] e2.drop_last()[q]) == e2[q]);
        }
        lemma_sorted_canonical(e1.drop_last(), e2.drop_last());
        assert(e1 =~= e2) by {
            assert(e1.len() == e1.drop_last().len() + 1);
            assert(e2.len() == e2.drop_last().len() + 1);
            assert(forall|i: int|
                0 <= i < e1.len() - 1 ==> #[trigger] e1[i] == e1.drop_last()[i]
                    && #[trigger] e2[i] == e2.drop_last()[i]);
        }
    }
}

/// The mapping itself: keys and their accumulators in matching positions,
/// plus the running number of observations folded in so far.
#[derive(Debug)]
pub struct AggMap {
    pub keys: Vec<Vec<u8>>,
    pub meas: Vec<Measurement>,
    pub total: usize,
}

impl AggMap {
    /// The entries as a sequence of (key bytes, aggregate) pairs.
    pub open spec fn entry_view(self) -> Seq<(Seq<u8>, AggV)> {
        Seq::new(self.keys@.len(), |i: int| (self.keys@[i]@, self.meas@[i]@))
    }

    /// The abstract key-to-aggregate map.
    pub open spec fn m(self) -> Map<Seq<u8>, AggV> {
        map_of(self.entry_view())
    }

    pub open spec fn wf(self) -> bool {
        &&& self.keys@.len() == self.meas@.len()
        &&& sorted_strict(self.entry_view())
        &&& forall|i: int| 0 <= i < self.meas@.len() ==> (#[trigger] self.meas@[i]).wf()
        &&& counts_sum(self.entry_view()) == self.total
    }

    /// An empty mapping.
    pub fn new() -> (r: AggMap)
        ensures
            r.wf(),
            r.m() == Map::<Seq<u8>, AggV>::empty(),
            r.entry_view() == Seq::<(Seq<u8>, AggV)>::empty(),
            r.total == 0,
    {
        let r = AggMap { keys: Vec::new(), meas: Vec::new(), total: 0 };
        proof {
            assert(r.entry_view() =~= Seq::<(Seq<u8>, AggV)>::empty());
        }
        r
    }

    /// Folds a whole aggregate for `key` into the mapping: combined into the
    /// existing entry if the key is present, inserted at its sorted place if
    /// not.
    pub fn upsert_meas(&mut self, key: &[u8], agg: Measurement)
        requires
            old(self).wf(),
            agg.wf(),
            old(self).total + agg@.count <= usize::MAX,
        ensures
            final(self).wf(),
            final(self).m() == upsert_map(old(self).m(), key@, agg@),
            final(self).total == old(self).total + agg@.count,
    {
        let n = self.keys.len();
        let mut i: usize = 0;
        let mut found = false;
        loop
            invariant_except_break
                !found,
            invariant
                i <= n,
                n == self.keys@.len(),
                *self == *old(self),
                forall|j: int| 0 <= j < i ==> lex_lt((#[trigger] self.entry_view()[j]).0, key@),
            ensures
                i <= n,
                *self == *old(self),
                forall|j: int| 0 <= j < i ==> lex_lt((#[trigger] self.entry_view()[j]).0, key@),
                found ==> i < n && self.entry_view()[i as int].0 == key@,
                !found ==> i == n || (i < n && lex_lt(key@, self.entry_view()[i as int].0)),
            decreases n - i,
        {
            if i == n {
                break ;
            }
            let c = bytes_cmp(key, self.keys[i].as_slice());
            if c == Cmp::Eq {
                found = true;
                break ;
            }
            if c == Cmp::Lt {
                break ;
            }
            assert(lex_lt(self.entry_view()[i as int].0, key@));
            i = i + 1;
        }
        proof {
            lemma_sorted_distinct(old(self).entry_view());
        }
        if found {
            // The key is present at position i: fold the aggregate in.
            assert(self.entry_view()[i as int].0 == key@);
            proof {
                lemma_counts_sum_entry(self.entry_view(), i as int);
                lemma_map_of_index(self.entry_view(), i as int);
            }
            let mut m = self.meas[i];
            m.merge(&agg);
            self.meas[i] = m;
            self.total = self.total + agg.count;
            proof {
                let es = old(self).entry_view();
                let x = (key@, m@);
                assert(self.entry_view() =~= es.update(i as int, x));
                lemma_map_of_update(es, i as int, x);
                lemma_counts_sum_update(es, i as int, x);
                assert forall|p: int, q: int|
                    0 <= p < q < self.entry_view().len() implies lex_lt(
                    (#[trigger] self.entry_view()[p]).0,
                    (#[trigger] self.entry_view()[q]).0,
                ) by {
                    assert(self.entry_view()[p].0 == es[p].0);
                    assert(self.entry_view()[q].0 == es[q].0);
                }
            }
        } else {
            // The key is absent; i is its sorted position.
            proof {
                let es = old(self).entry_view();
                if i < n {
                    assert(lex_lt(key@, es[i as int].0));
                }
                assert forall|j: int| 0 <= j < es.len() implies (#[trigger] es[j]).0 != key@ by {
                    if j < i {
                        lemma_lex_asym(es[j].0, key@);
                    } else {
                        if j > i {
                            lemma_lex_trans(key@, es[i as int].0, es[j].0);
                        }
                        lemma_lex_asym(key@, es[j].0);
                    }
                }
            }
            let kv = vstd::slice::slice_to_vec(key);
            self.keys.insert(i, kv);
            self.meas.insert(i, agg);
            self.total = self.total + agg.count;
            proof {
                let es = old(self).entry_view();
                let x = (key@, agg@);
                assert(self.entry_view() =~= es.insert(i as int, x));
                lemma_map_of_insert_at(es, i as int, x);
                lemma_counts_sum_insert(es, i as int, x);
                lemma_map_of_dom(es, key@);
                assert(!old(self).m().dom().contains(key@));
                let ev = self.entry_view();
                assert forall|p: int, q: int|
                    0 <= p < q < ev.len() implies lex_lt(
                    (#[trigger] ev[p]).0,
                    (#[trigger] ev[q]).0,
                ) by {
                    if q < i {
                        assert(ev[p].0 == es[p].0 && ev[q].0 == es[q].0);
                    } else if p > i {
                        assert(ev[p].0 == es[p - 1].0 && ev[q].0 == es[q - 1].0);
                    } else if p < i && q == i {
                        assert(ev[p].0 == es[p].0);
                    } else if p < i && q > i {
                        assert(ev[p].0 == es[p].0 && ev[q].0 == es[q - 1].0);
                        if q - 1 == i {
                            lemma_lex_trans(es[p].0, key@, es[i as int].0);
                        } else {
                            assert(lex_lt(es[p].0, es[q - 1].0));
                        }
                    } else if p == i && q > i {
                        assert(ev[q].0 == es[q - 1].0);
                        if q - 1 > i {
                            lemma_lex_trans(key@, es[i as int].0, es[q - 1].0);
                        }
                    }
                }
            }
        }
    }

    /// Folds one observation into the mapping.
    pub fn add_observation(&mut self, key: &[u8], value: i64)
        requires
            old(self).wf(),
            -i64::MAX <= value,
            old(self).total < usize::MAX,
        ensures
            final(self).wf(),
            final(self).m() == agg_step(old(self).m(), (key@, value as int)),
            final(self).total == old(self).total + 1,
    {
        let m = Measurement::new(value);
        self.upsert_meas(key, m);
    }

    /// Merges another mapping in, key by key; the other side is unchanged.
    pub fn merge_from(&mut self, other: &AggMap)
        requires
            old(self).wf(),
            other.wf(),
            old(self).total + other.total <= usize::MAX,
        ensures
            final(self).wf(),
            final(self).m() == combine_maps(old(self).m(), other.m()),
            final(self).total == old(self).total + other.total,
    {
        let n = other.keys.len();
        let mut j: usize = 0;
        proof {
            assert(other.entry_view().take(0) =~= Seq::<(Seq<u8>, AggV)>::empty());
        }
        while j < n
            invariant
                j <= n,
                n == other.keys@.len(),
                other.wf(),
                self.wf(),
                self.m() == fold_upserts(old(self).m(), other.entry_view().take(j as int)),
                self.total == old(self).total + counts_sum(other.entry_view().take(j as int)),
                old(self).total + other.total <= usize::MAX,
                counts_sum(other.entry_view()) == other.total,
            decreases n - j,
        {
            proof {
                let oes = other.entry_view();
                assert(oes.take(j as int + 1).drop_last() =~= oes.take(j as int));
                assert(oes.take(j as int + 1).last() == oes[j as int]);
                lemma_counts_sum_take(oes, j as int + 1);
                lemma_counts_sum_nonneg(oes.take(j as int));
                assert(oes[j as int].1 == other.meas@[j as int]@);
            }
            self.upsert_meas(other.keys[j].as_slice(), other.meas[j]);
            j = j + 1;
        }
        proof {
            let oes = other.entry_view();
            assert(oes.take(n as int) =~= oes);
            lemma_sorted_distinct(oes);
            lemma_fold_upserts_combine(old(self).m(), oes);
        }
    }
}

} // verus!
