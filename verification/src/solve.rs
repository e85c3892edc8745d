//! The whole pipeline over an in-memory buffer: split into line-aligned
//! segments, scan each, merge the local mappings, render. The result is a
//! function of the buffer alone — the segment count `p` never shows in the
//! contract — so runs with different worker counts give identical bytes.

use vstd::prelude::*;
use vstd::slice::slice_subrange;
use crate::aggmap::{AggMap, map_of, sorted_strict, lemma_sorted_canonical};
use crate::measure::AggV;
use crate::fmt::{render, spec_render};
use crate::lines::{wf_input, records_of, agg_of, lemma_records_concat,
    lemma_agg_of_concat, lemma_combine_maps_empty, lemma_split_lines_count,
    lemma_implicit_terminator, split_lines};
use crate::parse::{ParseError, err_offset};
use crate::scan::segment_measurements;
use crate::split::find_segments;

verus! {

/// The one strictly sorted entry sequence that stands for `m`.
pub open spec fn canonical_entries(m: Map<Seq<u8>, AggV>) -> Seq<(Seq<u8>, AggV)> {
    choose|es: Seq<(Seq<u8>, AggV)>| sorted_strict(es) && map_of(es) == m
}

/// The output owed for a well-formed buffer: its aggregate map, keys in
/// sorted order, rendered. A function of the buffer's bytes alone.
pub open spec fn spec_solve(s: Seq<u8>) -> Seq<u8> {
    spec_render(canonical_entries(agg_of(s)))
}

/// Runs the pipeline over the buffer with `p` segments. Succeeds exactly
/// when every line is a well-formed record, and then returns the bytes
/// `spec_solve` names — the same for every `p`.
pub fn solve(buf: &[u8], p: usize) -> (r: Result<Vec<u8>, ParseError>)
    requires
        1 <= p,
    ensures
        r is Ok <==> wf_input(buf@),
        r matches Ok(out) ==> out@ == spec_solve(buf@),
        r matches Err(e) ==> err_offset(e) <= buf@.len(),
{
    let len = buf.len();
    let segs = find_segments(buf, p);
    let mut global = AggMap::new();
    let mut prev: usize = 0;
    let mut k: usize = 0;
    proof {
        assert(buf@.subrange(0, 0) =~= Seq::<u8>::empty());
        assert(records_of(Seq::<u8>::empty()) =~= Seq::<(Seq<u8>, int)>::empty());
        lemma_combine_maps_empty(agg_of(Seq::<u8>::empty()));
    }
    while k < p
        invariant
            k <= p,
            1 <= p,
            len == buf@.len(),
            segs@.len() == p,
            segs@[0].0 == 0,
            segs@[p - 1].1 == len,
            forall|i: int| 0 <= i < p ==> (#[trigger] segs@[i]).0 <= segs@[i].1 <= len,
            forall|i: int| 0 <= i < p - 1 ==> (#[trigger] segs@[i]).1 == (#[trigger] segs@[i
                + 1]).0,
            forall|i: int|
                0 <= i < p - 1 ==> ((#[trigger] segs@[i]).1 == len || (segs@[i].1 >= 1
                    && buf@[segs@[i].1 - 1] == 10)),
            k == 0 ==> prev == 0,
            k > 0 ==> prev == segs@[k - 1].1,
            prev <= len,
            prev == 0 || prev == len || buf@[prev - 1] == 10,
            wf_input(buf@.subrange(0, prev as int)),
            global.wf(),
            global.m() == agg_of(buf@.subrange(0, prev as int)),
            global.total == records_of(buf@.subrange(0, prev as int)).len(),
            global.total <= prev,
        decreases p - k,
    {
        let (s, e): (usize, usize) = segs[k];
        proof {
            if k > 0 {
                let i = k - 1;
                assert((#[trigger] segs@[i]).1 == (#[trigger] segs@[i + 1]).0);
                assert(segs@[i + 1] == segs@[k as int]);
            }
            assert(s == prev);
        }
        let seg_sl = slice_subrange(buf, s, e);
        let ghost prefix = buf@.subrange(0, prev as int);
        let ghost seg = buf@.subrange(prev as int, e as int);
        let ghost tail = buf@.subrange(e as int, len as int);
        proof {
            if prev == len {
                // Only empty segments remain; the empty region is trivially
                // well-formed and adds nothing.
                assert(e == len);
                assert(seg =~= Seq::<u8>::empty());
                assert(wf_input(seg));
            } else {
                // The buffer splits at the segment's ends, both on line
                // boundaries, so well-formedness and meaning distribute.
                assert(prefix + (seg + tail) =~= buf@);
                lemma_records_concat(prefix, seg + tail);
                assert(seg.len() == 0 || seg.last() == 10 || tail.len() == 0) by {
                    if k < p - 1 {
                        assert(segs@[k as int].1 == e);
                        if e < len && e >= 1 {
                            assert(buf@[e - 1] == 10);
                        }
                    } else {
                        assert(e == len);
                    }
                    if e == len {
                        assert(tail.len() == 0);
                    }
                }
                if tail.len() == 0 {
                    assert(seg + tail =~= seg);
                } else {
                    lemma_records_concat(seg, tail);
                }
            }
        }
        match segment_measurements(seg_sl) {
            Err(err) => {
                proof {
                    assert(!wf_input(seg));
                    assert(!wf_input(buf@));
                }
                let shifted = match err {
                    ParseError::MissingSeparator { offset: o } => ParseError::MissingSeparator {
                        offset: s + o,
                    },
                    ParseError::BadByte { offset: o, byte } => ParseError::BadByte {
                        offset: s + o,
                        byte,
                    },
                    ParseError::TruncatedValue { offset: o } => ParseError::TruncatedValue {
                        offset: s + o,
                    },
                    ParseError::ValueTooLarge { offset: o } => ParseError::ValueTooLarge {
                        offset: s + o,
                    },
                };
                return Err(shifted);
            },
            Ok(local) => {
                proof {
                    lemma_split_lines_count(seg);
                    if prev == len {
                        assert(records_of(seg) =~= Seq::<(Seq<u8>, int)>::empty());
                        lemma_combine_maps_empty(global.m());
                        assert(agg_of(seg) =~= Map::<Seq<u8>, AggV>::empty());
                        assert(buf@.subrange(0, e as int) =~= prefix);
                    } else {
                        lemma_records_concat(prefix, seg);
                        lemma_agg_of_concat(prefix, seg);
                        assert(prefix + seg =~= buf@.subrange(0, e as int));
                    }
                }
                global.merge_from(&local);
                prev = e;
                k = k + 1;
            },
        }
    }
    proof {
        assert(buf@.subrange(0, len as int) =~= buf@);
    }
    let out = render(&global);
    proof {
        let ev = global.entry_view();
        assert(sorted_strict(ev) && map_of(ev) == agg_of(buf@));
        let ce = canonical_entries(agg_of(buf@));
        assert(sorted_strict(ce) && map_of(ce) == agg_of(buf@)) by {
            assert(sorted_strict(ev) && map_of(ev) == agg_of(buf@));
        }
        lemma_sorted_canonical(ce, ev);
    }
    Ok(out)
}

/// A file whose last line lacks a terminator is read exactly as the same
/// file with one appended: same well-formedness, same output.
pub proof fn lemma_trailing_terminator(s: Seq<u8>)
    requires
        s.len() > 0,
        s.last() != 10,
    ensures
        wf_input(s.push(10)) == wf_input(s),
        wf_input(s) ==> spec_solve(s.push(10)) == spec_solve(s),
{
    lemma_implicit_terminator(s);
    assert(split_lines(s.push(10)) == split_lines(s));
    assert(records_of(s.push(10)) == records_of(s));
    assert(wf_input(s.push(10)) == wf_input(s));
}

} // verus!
