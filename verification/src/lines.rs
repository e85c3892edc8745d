//! The mathematical model of the input: a buffer is a sequence of lines, a
//! line is a `key;value` record, and a buffer's meaning is the map from key
//! to combined aggregate. The concatenation lemmas here are what make
//! segment-wise scanning equal to one sequential pass.

use vstd::prelude::*;
use crate::measure::{AggV, combine_agg, unit_agg, aggv_wf, lemma_combine_assoc,
    lemma_combine_comm, lemma_combine_wf};
use crate::parse::{is_plain_decimal, dec_tenths, fits_tenths};

verus! {

/// Index of the first occurrence of `c` in `s`, or `s.len()` if there is none.
pub open spec fn first_at(s: Seq<u8>, c: u8) -> int
    decreases s.len(),
{
    if s.len() == 0 {
        0
    } else if s.first() == c {
        0
    } else {
        1 + first_at(s.drop_first(), c)
    }
}

pub proof fn lemma_first_at_bounds(s: Seq<u8>, c: u8)
    ensures
        0 <= first_at(s, c) <= s.len(),
        first_at(s, c) < s.len() ==> s[first_at(s, c)] == c,
        forall|j: int| 0 <= j < first_at(s, c) ==> s[j] != c,
    decreases s.len(),
{
    if s.len() > 0 && s.first() != c {
        lemma_first_at_bounds(s.drop_first(), c);
        assert forall|j: int| 0 <= j < first_at(s, c) implies s[j] != c by {
            if j > 0 {
                assert(s.drop_first()[j - 1] == s[j]);
            }
        }
        if first_at(s, c) < s.len() {
            assert(s.drop_first()[first_at(s, c) - 1] == s[first_at(s, c)]);
        }
    }
}

/// `first_at` is pinned by the facts a scan establishes.
pub proof fn lemma_first_at_is(s: Seq<u8>, c: u8, i: int)
    requires
        0 <= i < s.len(),
        s[i] == c,
        forall|j: int| 0 <= j < i ==> s[j] != c,
    ensures
        first_at(s, c) == i,
    decreases s.len(),
{
    if i > 0 {
        assert(s.first() != c);
        assert(s.drop_first()[i - 1] == s[i]);
        assert forall|j: int| 0 <= j < i - 1 implies s.drop_first()[j] != c by {
            assert(s.drop_first()[j] == s[j + 1]);
        }
        lemma_first_at_is(s.drop_first(), c, i - 1);
    }
}

pub proof fn lemma_first_at_none(s: Seq<u8>, c: u8)
    requires
        forall|j: int| 0 <= j < s.len() ==> s[j] != c,
    ensures
        first_at(s, c) == s.len(),
    decreases s.len(),
{
    if s.len() > 0 {
        assert forall|j: int| 0 <= j < s.drop_first().len() implies s.drop_first()[j] != c by {
            assert(s.drop_first()[j] == s[j + 1]);
        }
        lemma_first_at_none(s.drop_first(), c);
    }
}

/// The buffer as a sequence of lines, the terminators dropped. A final line
/// without a terminator counts as a line; a trailing terminator adds none.
pub open spec fn split_lines(s: Seq<u8>) -> Seq<Seq<u8>>
    decreases s.len(),
    when true
    via split_lines_dec
{
    if s.len() == 0 {
        Seq::empty()
    } else {
        let i = first_at(s, 10);
        if i == s.len() {
            seq![s]
        } else {
            seq![s.subrange(0, i)] + split_lines(s.subrange(i + 1, s.len() as int))
        }
    }
}

#[via_fn]
proof fn split_lines_dec(s: Seq<u8>) {
    lemma_first_at_bounds(s, 10);
}

/// A buffer has no more lines than bytes.
pub proof fn lemma_split_lines_count(s: Seq<u8>)
    ensures
        split_lines(s).len() <= s.len(),
    decreases s.len(),
{
    if s.len() > 0 {
        lemma_first_at_bounds(s, 10);
        let i = first_at(s, 10);
        if i < s.len() {
            lemma_split_lines_count(s.subrange(i + 1, s.len() as int));
        }
    }
}

/// A line never holds a terminator byte.
pub proof fn lemma_split_lines_no_nl(s: Seq<u8>)
    ensures
        forall|k: int, j: int|
            0 <= k < split_lines(s).len() && 0 <= j < split_lines(s)[k].len() ==> #[trigger] split_lines(
                s,
            )[k][j] != 10,
    decreases s.len(),
{
    if s.len() > 0 {
        lemma_first_at_bounds(s, 10);
        let i = first_at(s, 10);
        if i < s.len() {
            let suffix = s.subrange(i + 1, s.len() as int);
            lemma_split_lines_no_nl(suffix);
            assert forall|k: int, j: int|
                0 <= k < split_lines(s).len() && 0 <= j < split_lines(s)[k].len()
                    implies #[trigger] split_lines(s)[k][j] != 10 by {
                if k == 0 {
                    assert(split_lines(s)[0] == s.subrange(0, i));
                    assert(s.subrange(0, i)[j] == s[j]);
                } else {
                    assert(split_lines(s)[k] == split_lines(suffix)[k - 1]);
                }
            }
        }
    }
}

/// Splitting at a terminator splits the line sequence: if `a` ends right
/// after a terminator (or is empty), the lines of `a + b` are the lines of
/// `a` followed by the lines of `b`.
pub proof fn lemma_split_concat(a: Seq<u8>, b: Seq<u8>)
    requires
        a.len() == 0 || a.last() == 10,
    ensures
        split_lines(a + b) == split_lines(a) + split_lines(b),
    decreases a.len(),
{
    if a.len() == 0 {
        assert(a + b =~= b);
        assert(split_lines(a) + split_lines(b) =~= split_lines(b));
    } else {
        lemma_first_at_bounds(a, 10);
        let i = first_at(a, 10);
        assert(i < a.len()) by {
            if i == a.len() {
                assert(a[a.len() - 1] != 10);
            }
        }
        let s = a + b;
        assert(s[i] == a[i]);
        assert forall|j: int| 0 <= j < i implies s[j] != 10 by {
            assert(s[j] == a[j]);
        }
        lemma_first_at_is(s, 10, i);
        let a2 = a.subrange(i + 1, a.len() as int);
        assert(s.subrange(0, i) =~= a.subrange(0, i));
        assert(s.subrange(i + 1, s.len() as int) =~= a2 + b);
        assert(a2.len() == 0 || a2.last() == 10) by {
            if a2.len() > 0 {
                assert(a2.last() == a.last());
            }
        }
        lemma_split_concat(a2, b);
        if b.len() == 0 {
            assert(a + b =~= a);
            assert(split_lines(a2) + split_lines(b) =~= split_lines(a2));
            assert(split_lines(a) + split_lines(b) =~= split_lines(a));
        } else {
            assert(seq![s.subrange(0, i)] + (split_lines(a2) + split_lines(b)) =~= (seq![
                a.subrange(0, i),
            ] + split_lines(a2)) + split_lines(b));
        }
    }
}

/// A single line followed by a terminator is one line.
pub proof fn lemma_split_single_terminated(l: Seq<u8>)
    requires
        forall|j: int| 0 <= j < l.len() ==> l[j] != 10,
    ensures
        split_lines(l + seq![10u8]) == seq![l],
{
    let s = l + seq![10u8];
    assert(s[l.len() as int] == 10);
    assert forall|j: int| 0 <= j < l.len() implies s[j] != 10 by {
        assert(s[j] == l[j]);
    }
    lemma_first_at_is(s, 10, l.len() as int);
    assert(s.subrange(0, l.len() as int) =~= l);
    assert(s.subrange(l.len() as int + 1, s.len() as int) =~= Seq::<u8>::empty());
    assert(split_lines(Seq::<u8>::empty()) =~= Seq::<Seq<u8>>::empty());
    assert(split_lines(s) =~= seq![l]);
}

/// A nonempty run of bytes without a terminator is one (unterminated) line.
pub proof fn lemma_split_single_unterminated(l: Seq<u8>)
    requires
        l.len() > 0,
        forall|j: int| 0 <= j < l.len() ==> l[j] != 10,
    ensures
        split_lines(l) == seq![l],
{
    lemma_first_at_none(l, 10);
}

/// A missing final terminator changes nothing: appending one to a buffer
/// whose last byte is not a terminator leaves the line sequence as it was.
pub proof fn lemma_implicit_terminator(s: Seq<u8>)
    requires
        s.len() > 0,
        s.last() != 10,
    ensures
        split_lines(s.push(10)) == split_lines(s),
    decreases s.len(),
{
    lemma_first_at_bounds(s, 10);
    let i = first_at(s, 10);
    let t = s.push(10);
    if i == s.len() {
        lemma_first_at_is(t, 10, s.len() as int);
        assert(t.subrange(0, s.len() as int) =~= s);
        assert(t.subrange(s.len() as int + 1, t.len() as int) =~= Seq::<u8>::empty());
        assert(split_lines(Seq::<u8>::empty()) =~= Seq::<Seq<u8>>::empty());
        assert(split_lines(t) =~= seq![s]);
    } else {
        assert(t[i] == s[i]);
        assert forall|j: int| 0 <= j < i implies t[j] != 10 by {
            assert(t[j] == s[j]);
        }
        lemma_first_at_is(t, 10, i);
        let s2 = s.subrange(i + 1, s.len() as int);
        assert(s2.len() > 0) by {
            if i + 1 == s.len() {
                assert(s[s.len() - 1] == 10);
            }
        }
        assert(s2.last() == s.last());
        lemma_implicit_terminator(s2);
        assert(t.subrange(0, i) =~= s.subrange(0, i));
        assert(t.subrange(i + 1, t.len() as int) =~= s2.push(10));
    }
}

/// A record: the key's bytes and the value in tenths.
pub open spec fn parse_line(l: Seq<u8>) -> Option<(Seq<u8>, int)> {
    let j = first_at(l, 59);
    if j == l.len() {
        None
    } else {
        let v = l.subrange(j + 1, l.len() as int);
        if is_plain_decimal(v) && fits_tenths(dec_tenths(v)) {
            Some((l.subrange(0, j), dec_tenths(v)))
        } else {
            None
        }
    }
}

pub open spec fn wf_line(l: Seq<u8>) -> bool {
    parse_line(l) is Some
}

/// Every line of the buffer is a well-formed record.
pub open spec fn wf_input(s: Seq<u8>) -> bool {
    forall|k: int| 0 <= k < split_lines(s).len() ==> wf_line(#[trigger] split_lines(s)[k])
}

pub open spec fn line_record(l: Seq<u8>) -> (Seq<u8>, int) {
    match parse_line(l) {
        Some(r) => r,
        None => (Seq::empty(), 0),
    }
}

/// The buffer's records, in line order.
pub open spec fn records_of(s: Seq<u8>) -> Seq<(Seq<u8>, int)> {
    split_lines(s).map_values(|l: Seq<u8>| line_record(l))
}

/// Folding one record into a key-to-aggregate map.
pub open spec fn agg_step(m: Map<Seq<u8>, AggV>, r: (Seq<u8>, int)) -> Map<Seq<u8>, AggV> {
    if m.dom().contains(r.0) {
        m.insert(r.0, combine_agg(m[r.0], unit_agg(r.1)))
    } else {
        m.insert(r.0, unit_agg(r.1))
    }
}

/// The aggregate map of a record sequence: one sequential pass.
pub open spec fn agg_records(rs: Seq<(Seq<u8>, int)>) -> Map<Seq<u8>, AggV>
    decreases rs.len(),
{
    if rs.len() == 0 {
        Map::empty()
    } else {
        agg_step(agg_records(rs.drop_last()), rs.last())
    }
}

/// The meaning of a buffer: key to aggregate over all its records.
pub open spec fn agg_of(s: Seq<u8>) -> Map<Seq<u8>, AggV> {
    agg_records(records_of(s))
}

/// Pointwise combination of two key-to-aggregate maps.
pub open spec fn combine_maps(m1: Map<Seq<u8>, AggV>, m2: Map<Seq<u8>, AggV>) -> Map<
    Seq<u8>,
    AggV,
> {
    Map::new(
        |k: Seq<u8>| m1.dom().contains(k) || m2.dom().contains(k),
        |k: Seq<u8>|
            if m1.dom().contains(k) && m2.dom().contains(k) {
                combine_agg(m1[k], m2[k])
            } else if m1.dom().contains(k) {
                m1[k]
            } else {
                m2[k]
            },
    )
}

/// Merging local maps is commutative.
pub proof fn lemma_combine_maps_comm(m1: Map<Seq<u8>, AggV>, m2: Map<Seq<u8>, AggV>)
    ensures
        combine_maps(m1, m2) == combine_maps(m2, m1),
{
    assert forall|k: Seq<u8>| combine_maps(m1, m2).dom().contains(k) implies combine_maps(
        m1,
        m2,
    )[k] == combine_maps(m2, m1)[k] by {
        if m1.dom().contains(k) && m2.dom().contains(k) {
            lemma_combine_comm(m1[k], m2[k]);
        }
    }
    assert(combine_maps(m1, m2) =~= combine_maps(m2, m1));
}

/// Merging local maps is associative.
pub proof fn lemma_combine_maps_assoc(
    m1: Map<Seq<u8>, AggV>,
    m2: Map<Seq<u8>, AggV>,
    m3: Map<Seq<u8>, AggV>,
)
    ensures
        combine_maps(combine_maps(m1, m2), m3) == combine_maps(m1, combine_maps(m2, m3)),
{
    assert forall|k: Seq<u8>|
        combine_maps(combine_maps(m1, m2), m3).dom().contains(k) implies combine_maps(
        combine_maps(m1, m2),
        m3,
    )[k] == combine_maps(m1, combine_maps(m2, m3))[k] by {
        if m1.dom().contains(k) && m2.dom().contains(k) && m3.dom().contains(k) {
            lemma_combine_assoc(m1[k], m2[k], m3[k]);
        }
    }
    assert(combine_maps(combine_maps(m1, m2), m3) =~= combine_maps(m1, combine_maps(m2, m3)));
}

/// The empty map is the identity of merging.
pub proof fn lemma_combine_maps_empty(m: Map<Seq<u8>, AggV>)
    ensures
        combine_maps(Map::empty(), m) == m,
        combine_maps(m, Map::empty()) == m,
{
    assert(combine_maps(Map::empty(), m) =~= m);
    assert(combine_maps(m, Map::empty()) =~= m);
}

/// Folding a record into merged maps folds it into the right-hand one.
pub proof fn lemma_agg_step_combine(
    m1: Map<Seq<u8>, AggV>,
    m2: Map<Seq<u8>, AggV>,
    r: (Seq<u8>, int),
)
    ensures
        agg_step(combine_maps(m1, m2), r) == combine_maps(m1, agg_step(m2, r)),
{
    let lhs = agg_step(combine_maps(m1, m2), r);
    let rhs = combine_maps(m1, agg_step(m2, r));
    assert forall|k: Seq<u8>| lhs.dom().contains(k) implies lhs[k] == rhs[k] by {
        if k == r.0 {
            if m1.dom().contains(k) && m2.dom().contains(k) {
                lemma_combine_assoc(m1[k], m2[k], unit_agg(r.1));
            }
        }
    }
    assert(lhs =~= rhs);
}

/// Aggregating concatenated record sequences equals merging their maps:
/// a single sequential pass and any segment-wise split agree.
pub proof fn lemma_agg_records_concat(r1: Seq<(Seq<u8>, int)>, r2: Seq<(Seq<u8>, int)>)
    ensures
        agg_records(r1 + r2) == combine_maps(agg_records(r1), agg_records(r2)),
    decreases r2.len(),
{
    if r2.len() == 0 {
        assert(r1 + r2 =~= r1);
        lemma_combine_maps_empty(agg_records(r1));
    } else {
        let whole = r1 + r2;
        assert(whole.drop_last() =~= r1 + r2.drop_last());
        assert(whole.last() == r2.last());
        lemma_agg_records_concat(r1, r2.drop_last());
        lemma_agg_step_combine(agg_records(r1), agg_records(r2.drop_last()), r2.last());
    }
}

/// Records distribute over a split at a terminator, and so does
/// well-formedness of the input.
pub proof fn lemma_records_concat(a: Seq<u8>, b: Seq<u8>)
    requires
        a.len() == 0 || a.last() == 10,
    ensures
        records_of(a + b) == records_of(a) + records_of(b),
        wf_input(a + b) <==> wf_input(a) && wf_input(b),
{
    lemma_split_concat(a, b);
    assert(records_of(a + b) =~= records_of(a) + records_of(b));
    if wf_input(a) && wf_input(b) {
        assert forall|k: int| 0 <= k < split_lines(a + b).len() implies wf_line(
            #[trigger] split_lines(a + b)[k],
        ) by {
            if k < split_lines(a).len() {
                assert(split_lines(a + b)[k] == split_lines(a)[k]);
            } else {
                assert(split_lines(a + b)[k] == split_lines(b)[k - split_lines(a).len()]);
            }
        }
    }
    if wf_input(a + b) {
        assert forall|k: int| 0 <= k < split_lines(a).len() implies wf_line(
            #[trigger] split_lines(a)[k],
        ) by {
            assert(split_lines(a + b)[k] == split_lines(a)[k]);
        }
        assert forall|k: int| 0 <= k < split_lines(b).len() implies wf_line(
            #[trigger] split_lines(b)[k],
        ) by {
            assert(split_lines(a + b)[k + split_lines(a).len()] == split_lines(b)[k]);
        }
    }
}

/// The meaning of a buffer split at a terminator is the merge of the parts'
/// meanings.
pub proof fn lemma_agg_of_concat(a: Seq<u8>, b: Seq<u8>)
    requires
        a.len() == 0 || a.last() == 10,
    ensures
        agg_of(a + b) == combine_maps(agg_of(a), agg_of(b)),
{
    lemma_records_concat(a, b);
    lemma_agg_records_concat(records_of(a), records_of(b));
}

/// The records of a partition, in order.
pub open spec fn concat_records(parts: Seq<Seq<(Seq<u8>, int)>>) -> Seq<(Seq<u8>, int)>
    decreases parts.len(),
{
    if parts.len() == 0 {
        Seq::empty()
    } else {
        concat_records(parts.drop_last()) + parts.last()
    }
}

/// The merge of a sequence of local maps, left to right.
pub open spec fn combine_all(ms: Seq<Map<Seq<u8>, AggV>>) -> Map<Seq<u8>, AggV>
    decreases ms.len(),
{
    if ms.len() == 0 {
        Map::empty()
    } else {
        combine_maps(combine_all(ms.drop_last()), ms.last())
    }
}

/// Partition invariance: for any partition of the observations into
/// segments, aggregating each segment on its own and merging the local
/// maps gives exactly the map of one sequential pass over all of them.
/// Together with the commutativity and associativity of `combine_maps`,
/// the merge order does not matter either.
pub proof fn lemma_partition_merge(parts: Seq<Seq<(Seq<u8>, int)>>)
    ensures
        agg_records(concat_records(parts)) == combine_all(
            parts.map_values(|rs: Seq<(Seq<u8>, int)>| agg_records(rs)),
        ),
    decreases parts.len(),
{
    let f = |rs: Seq<(Seq<u8>, int)>| agg_records(rs);
    if parts.len() == 0 {
        assert(parts.map_values(f) =~= Seq::<Map<Seq<u8>, AggV>>::empty());
    } else {
        lemma_partition_merge(parts.drop_last());
        lemma_agg_records_concat(concat_records(parts.drop_last()), parts.last());
        assert(parts.map_values(f).drop_last() =~= parts.drop_last().map_values(f));
        assert(parts.map_values(f).last() == f(parts.last()));
    }
}

/// Every aggregate an input's map holds is well-formed, and its count is
/// bounded by the number of records.
pub proof fn lemma_agg_records_wf(rs: Seq<(Seq<u8>, int)>)
    requires
        forall|k: int| 0 <= k < rs.len() ==> fits_tenths((#[trigger] rs[k]).1),
    ensures
        forall|key: Seq<u8>| #[trigger] agg_records(rs).dom().contains(key) ==> aggv_wf(
            agg_records(rs)[key],
        ) && agg_records(rs)[key].count <= rs.len(),
    decreases rs.len(),
{
    if rs.len() > 0 {
        assert(forall|k: int| 0 <= k < rs.drop_last().len() ==> fits_tenths(
            (#[trigger] rs.drop_last()[k]).1,
        ));
        lemma_agg_records_wf(rs.drop_last());
        let prev = agg_records(rs.drop_last());
        let r = rs.last();
        assert(fits_tenths(r.1));
        if prev.dom().contains(r.0) {
            lemma_combine_wf(prev[r.0], unit_agg(r.1));
        }
    }
}

} // verus!
