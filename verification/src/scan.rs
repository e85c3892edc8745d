//! The segment scanner: walks a line-aligned byte region, parses each
//! `key;value` record and folds it into a local mapping. One scan of the
//! whole buffer and segment-wise scans merged later agree, by the
//! concatenation lemmas of `lines`.

use vstd::prelude::*;
use vstd::slice::slice_subrange;
use crate::aggmap::AggMap;
use crate::lines::{split_lines, wf_input, wf_line, records_of, agg_of, parse_line,
    lemma_first_at_is, lemma_first_at_none, lemma_split_concat,
    lemma_split_single_terminated, lemma_split_single_unterminated, lemma_split_lines_count};
use crate::parse::{ParseError, parse_value, err_offset};

verus! {

/// Relies on memchr::memchr: returns the index of the first occurrence of
/// `needle` in `hay`, and nothing when `hay` does not hold it.
#[verifier::external_body]
pub(crate) fn find_byte(needle: u8, hay: &[u8]) -> (r: Option<usize>)
    ensures
        match r {
            Some(i) => i < hay@.len() && hay@[i as int] == needle && forall|j: int|
                0 <= j < i ==> hay@[j] != needle,
            None => forall|j: int| 0 <= j < hay@.len() ==> hay@[j] != needle,
        },
{
    memchr::memchr(needle, hay)
}

/// Scans one line-aligned region into a local key-to-aggregate mapping.
/// Succeeds exactly when every line of the region is a well-formed record;
/// the error names the byte that breaks the format, at its offset within
/// the region.
#[verifier::rlimit(100)]
pub fn segment_measurements(seg: &[u8]) -> (r: Result<AggMap, ParseError>)
    ensures
        r is Ok <==> wf_input(seg@),
        r matches Ok(m) ==> m.wf() && m.m() == agg_of(seg@) && m.total == records_of(seg@).len(),
        r matches Err(e) ==> err_offset(e) <= seg@.len(),
{
    let len = seg.len();
    let mut map = AggMap::new();
    let mut offset: usize = 0;
    proof {
        assert(seg@.subrange(0, 0) =~= Seq::<u8>::empty());
        assert(records_of(Seq::<u8>::empty()) =~= Seq::<(Seq<u8>, int)>::empty());
    }
    while offset < len
        invariant
            offset <= len,
            len == seg@.len(),
            offset == 0 || offset == len || seg@[offset - 1] == 10,
            wf_input(seg@.subrange(0, offset as int)),
            map.wf(),
            map.m() == agg_of(seg@.subrange(0, offset as int)),
            map.total == records_of(seg@.subrange(0, offset as int)).len(),
            map.total <= offset,
        decreases len - offset,
    {
        let ghost prefix = seg@.subrange(0, offset as int);
        let rest = slice_subrange(seg, offset, len);
        let nl = find_byte(10, rest);
        let line_end: usize = match nl {
            Some(d) => offset + d,
            None => len,
        };
        let next: usize = match nl {
            Some(d) => offset + d + 1,
            None => len,
        };
        let ghost line = seg@.subrange(offset as int, line_end as int);
        proof {
            // The line holds no terminator; what follows the prefix starts
            // with exactly this line.
            assert(forall|j: int| 0 <= j < line.len() ==> line[j] == rest@[j]);
            assert(line.len() > 0 ==> line[0] == rest@[0]);
            if nl is Some {
                assert(seg@[line_end as int] == rest@[(line_end - offset) as int]);
            }
            assert(forall|j: int| 0 <= j < line.len() ==> line[j] != 10);
            if nl is Some {
                assert(split_lines(prefix + (line + seq![10u8])) == split_lines(prefix)
                    + split_lines(line + seq![10u8])) by {
                    lemma_split_concat(prefix, line + seq![10u8]);
                }
                lemma_split_single_terminated(line);
                assert(prefix + (line + seq![10u8]) =~= seg@.subrange(0, next as int));
            } else {
                assert(line.len() > 0);
                assert(split_lines(prefix + line) == split_lines(prefix) + split_lines(line))
                    by {
                    lemma_split_concat(prefix, line);
                }
                lemma_split_single_unterminated(line);
                assert(prefix + line =~= seg@.subrange(0, next as int));
            }
            assert(split_lines(seg@.subrange(0, next as int)) =~= split_lines(prefix).push(line));
            // The whole region's lines are the prefix's lines, then this
            // line first among the rest's.
            assert(prefix + rest@ =~= seg@);
            lemma_split_concat(prefix, rest@);
            if nl is Some {
                let d = (line_end - offset) as int;
                lemma_first_at_is(rest@, 10, d);
                assert(rest@.subrange(0, d) =~= line);
                assert(split_lines(rest@)[0] == line);
            } else {
                lemma_first_at_none(rest@, 10);
                assert(rest@ =~= line);
            }
            assert(split_lines(seg@)[split_lines(prefix).len() as int] == line);
        }
        let line_sl = slice_subrange(seg, offset, line_end);
        let sep = find_byte(59, line_sl);
        match sep {
            None => {
                proof {
                    lemma_first_at_none(line, 59);
                    let k = split_lines(prefix).len();
                    assert(split_lines(seg@)[k as int] == line);
                    assert(!wf_line(line));
                }
                return Err(ParseError::MissingSeparator { offset });
            },
            Some(s_rel) => {
                let sep_abs = offset + s_rel;
                let vstart = sep_abs + 1;
                let value_sl = slice_subrange(seg, vstart, line_end);
                proof {
                    lemma_first_at_is(line, 59, s_rel as int);
                    assert(value_sl@ =~= line.subrange(s_rel as int + 1, line.len() as int));
                }
                match parse_value(value_sl) {
                    Err(e) => {
                        proof {
                            let k = split_lines(prefix).len();
                            assert(split_lines(seg@)[k as int] == line);
                            assert(!wf_line(line));
                        }
                        let shifted = match e {
                            ParseError::BadByte { offset: o, byte } => ParseError::BadByte {
                                offset: vstart + o,
                                byte,
                            },
                            ParseError::TruncatedValue { offset: o } => ParseError::TruncatedValue {
                                offset: vstart + o,
                            },
                            ParseError::ValueTooLarge { offset: _ } => ParseError::ValueTooLarge {
                                offset: vstart,
                            },
                            ParseError::MissingSeparator { offset: o } => {
                                // parse_value never reports a missing separator.
                                proof {
                                    assert(false);
                                }
                                ParseError::MissingSeparator { offset: o }
                            },
                        };
                        return Err(shifted);
                    },
                    Ok(v) => {
                        let key_sl = slice_subrange(seg, offset, sep_abs);
                        proof {
                            assert(key_sl@ =~= line.subrange(0, s_rel as int));
                            assert(parse_line(line) == Some((key_sl@, v as int)));
                            assert(records_of(seg@.subrange(0, next as int)) =~= records_of(
                                prefix,
                            ).push((key_sl@, v as int)));
                            assert(records_of(prefix).push((key_sl@, v as int)).drop_last()
                                =~= records_of(prefix));
                            lemma_split_lines_count(prefix);
                        }
                        map.add_observation(key_sl, v);
                        proof {
                            let prefix2 = seg@.subrange(0, next as int);
                            assert forall|k: int|
                                0 <= k < split_lines(prefix2).len() implies wf_line(
                                #[trigger] split_lines(prefix2)[k],
                            ) by {
                                if k < split_lines(prefix).len() {
                                    assert(split_lines(prefix2)[k] == split_lines(prefix)[k]);
                                } else {
                                    assert(split_lines(prefix2)[k] == line);
                                }
                            }
                        }
                        offset = next;
                    },
                }
            },
        }
    }
    proof {
        assert(seg@.subrange(0, len as int) =~= seg@);
    }
    Ok(map)
}

} // verus!
