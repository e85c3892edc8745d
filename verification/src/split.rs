//! The segment splitter: divides the buffer into `p` contiguous byte ranges
//! whose boundaries fall just past a line terminator, so that no line is
//! split across two ranges. Ranges may be empty at the tail when the buffer
//! has fewer lines than segments, and a missing terminator in the remainder
//! makes the end of the buffer an implicit boundary.

use vstd::prelude::*;
use vstd::slice::slice_subrange;
use crate::scan::find_byte;

verus! {

/// Computes `p` byte ranges covering `[0, buf.len())` exactly: contiguous,
/// gapless, in order, and every boundary but the last lies immediately
/// after a terminator byte (or at the end of the buffer when no terminator
/// remains).
pub fn find_segments(buf: &[u8], p: usize) -> (r: Vec<(usize, usize)>)
    requires
        1 <= p,
    ensures
        r@.len() == p,
        r@[0].0 == 0,
        r@[p - 1].1 == buf@.len(),
        forall|i: int| 0 <= i < p ==> (#[trigger] r@[i]).0 <= r@[i].1 <= buf@.len(),
        forall|i: int| 0 <= i < p - 1 ==> (#[trigger] r@[i]).1 == (#[trigger] r@[i + 1]).0,
        forall|i: int|
            0 <= i < p - 1 ==> ((#[trigger] r@[i]).1 == buf@.len() || (r@[i].1 >= 1
                && buf@[r@[i].1 - 1] == 10)),
{
    let len = buf.len();
    let chunk = len / p;
    let mut bounds: Vec<(usize, usize)> = Vec::new();
    let mut prev: usize = 0;
    let mut k: usize = 0;
    while k < p
        invariant
            k <= p,
            1 <= p,
            len == buf@.len(),
            bounds@.len() == k,
            prev <= len,
            k > 0 ==> bounds@[0].0 == 0,
            k > 0 ==> prev == bounds@[k - 1].1,
            k == 0 ==> prev == 0,
            forall|i: int| 0 <= i < k ==> (#[trigger] bounds@[i]).0 <= bounds@[i].1 <= len,
            forall|i: int|
                0 <= i < k - 1 ==> (#[trigger] bounds@[i]).1 == (#[trigger] bounds@[i + 1]).0,
            forall|i: int|
                0 <= i < k ==> ((#[trigger] bounds@[i]).1 == len || (bounds@[i].1 >= 1
                    && buf@[bounds@[i].1 - 1] == 10)),
            k == p ==> bounds@[k - 1].1 == len,
        decreases p - k,
    {
        let end: usize;
        if k == p - 1 {
            end = len;
        } else {
            let nominal = if chunk > len - prev {
                len
            } else {
                prev + chunk
            };
            if nominal >= len {
                end = len;
            } else {
                let rest = slice_subrange(buf, nominal, len);
                match find_byte(10, rest) {
                    Some(d) => {
                        end = nominal + d + 1;
                        proof {
                            assert(buf@[nominal + d] == rest@[d as int]);
                        }
                    },
                    None => {
                        end = len;
                    },
                }
            }
        }
        bounds.push((prev, end));
        prev = end;
        k = k + 1;
    }
    bounds
}

} // verus!
