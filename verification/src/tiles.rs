//! Row-band partitioning for the tile scheduler.
//!
//! The image's `ny` rows are split into `thread_count` contiguous,
//! non-overlapping bands; every band but the last holds `ny / thread_count`
//! rows and the last band absorbs the remainder.  Each band is rendered to
//! completion by one worker, so the partition must cover every row exactly
//! once and in order.

use vstd::prelude::*;

verus! {

/// First row (inclusive) of the band that worker `thread_index` renders.
pub open spec fn segment_lower(thread_count: int, thread_index: int, ny: int) -> int {
    (ny / thread_count) * thread_index
}

/// One past the last row of the band that worker `thread_index` renders.
/// The last band always ends at `ny`, absorbing any remainder rows.
pub open spec fn segment_upper(thread_count: int, thread_index: int, ny: int) -> int {
    if thread_index == thread_count - 1 {
        ny
    } else {
        (ny / thread_count) * (thread_index + 1)
    }
}

/// Returns the half-open row range `[lower, upper)` assigned to one worker.
pub fn get_segment(thread_count: usize, thread_index: usize, ny: usize) -> (r: (usize, usize))
    requires
        1 <= thread_count,
        thread_index < thread_count,
    ensures
        r.0 == segment_lower(thread_count as int, thread_index as int, ny as int),
        r.1 == segment_upper(thread_count as int, thread_index as int, ny as int),
        r.0 <= r.1 <= ny,
{
    let segment_size = ny / thread_count;
    proof {
        lemma_band_bound(thread_count as int, thread_index as int, ny as int);
    }
    let lower = segment_size * thread_index;
    let upper = if thread_index == thread_count - 1 {
        ny
    } else {
        segment_size * (thread_index + 1)
    };
    (lower, upper)
}

/// Every band start and end stays within the image: the `k`-th multiple of
/// the band size never passes `ny` while `k` stays within the worker count.
proof fn lemma_band_bound(thread_count: int, thread_index: int, ny: int)
    requires
        1 <= thread_count,
        0 <= thread_index < thread_count,
        0 <= ny,
    ensures
        0 <= (ny / thread_count) * thread_index,
        (ny / thread_count) * thread_index <= (ny / thread_count) * (thread_index + 1),
        (ny / thread_count) * (thread_index + 1) <= ny,
{
    let s = ny / thread_count;
    assert(0 <= s) by {
        vstd::arithmetic::div_mod::lemma_div_pos_is_pos(ny, thread_count);
    }
    assert(s * thread_index <= s * (thread_index + 1)) by {
        vstd::arithmetic::mul::lemma_mul_inequality(thread_index, thread_index + 1, s);
    }
    assert(s * (thread_index + 1) <= s * thread_count) by {
        vstd::arithmetic::mul::lemma_mul_inequality(thread_index + 1, thread_count, s);
    }
    assert(s * thread_count <= ny) by {
        vstd::arithmetic::div_mod::lemma_fundamental_div_mod(ny, thread_count);
        vstd::arithmetic::div_mod::lemma_mod_bound(ny, thread_count);
        assert(ny == thread_count * s + ny % thread_count);
        vstd::arithmetic::mul::lemma_mul_is_commutative(s, thread_count);
    }
    assert(0 <= s * thread_index) by {
        vstd::arithmetic::mul::lemma_mul_nonnegative(s, thread_index);
    }
}

/// The bands tile the rows `0 .. ny` exactly, in order: the first band
/// starts at row 0, each band ends where the next one starts, and the last
/// band ends at `ny`.  Concatenating the band outputs therefore covers
/// every row exactly once, in the original row order, whether or not
/// `thread_count` divides `ny` evenly.
pub proof fn lemma_segments_partition(thread_count: int, ny: int)
    requires
        1 <= thread_count,
        0 <= ny,
    ensures
        segment_lower(thread_count, 0, ny) == 0,
        segment_upper(thread_count, thread_count - 1, ny) == ny,
        forall|i: int|
            0 <= i < thread_count - 1 ==> segment_upper(thread_count, i, ny) == segment_lower(
                thread_count,
                i + 1,
                ny,
            ),
        forall|i: int|
            0 <= i < thread_count ==> segment_lower(thread_count, i, ny) <= segment_upper(
                thread_count,
                i,
                ny,
            ),
{
    assert forall|i: int| 0 <= i < thread_count implies segment_lower(thread_count, i, ny)
        <= segment_upper(thread_count, i, ny) by {
        lemma_band_bound(thread_count, i, ny);
    }
    assert(segment_lower(thread_count, 0, ny) == 0) by {
        vstd::arithmetic::mul::lemma_mul_basics(ny / thread_count);
    }
}

/// Every row of the image falls inside some worker's band.
pub proof fn lemma_row_covered(thread_count: int, ny: int, row: int)
    requires
        1 <= thread_count,
        0 <= row < ny,
    ensures
        exists|i: int|
            0 <= i < thread_count && #[trigger] segment_lower(thread_count, i, ny) <= row
                < segment_upper(thread_count, i, ny),
{
    let s = ny / thread_count;
    vstd::arithmetic::div_mod::lemma_div_pos_is_pos(ny, thread_count);
    if s == 0 {
        // every band before the last is empty; the last takes all rows
        let i = thread_count - 1;
        assert(segment_lower(thread_count, i, ny) == s * i);
        assert(s * i == 0) by {
            vstd::arithmetic::mul::lemma_mul_basics(i);
        }
        assert(segment_lower(thread_count, i, ny) <= row < segment_upper(thread_count, i, ny));
    } else {
        vstd::arithmetic::div_mod::lemma_fundamental_div_mod(row, s);
        vstd::arithmetic::div_mod::lemma_mod_bound(row, s);
        vstd::arithmetic::div_mod::lemma_div_pos_is_pos(row, s);
        let q = row / s;
        assert(row == s * q + row % s);
        assert(s * (q + 1) == s * q + s) by {
            vstd::arithmetic::mul::lemma_mul_is_distributive_add(s, q, 1);
            vstd::arithmetic::mul::lemma_mul_basics(s);
        }
        if q < thread_count - 1 {
            assert(s * q <= row < s * (q + 1));
            assert(segment_lower(thread_count, q, ny) <= row < segment_upper(
                thread_count,
                q,
                ny,
            ));
        } else {
            let i = thread_count - 1;
            assert(s * i <= s * q) by {
                vstd::arithmetic::mul::lemma_mul_inequality(i, q, s);
                vstd::arithmetic::mul::lemma_mul_is_commutative(s, i);
                vstd::arithmetic::mul::lemma_mul_is_commutative(s, q);
            }
            assert(0 <= row % s);
            assert(s * q <= row);
            assert(segment_lower(thread_count, i, ny) <= row < segment_upper(
                thread_count,
                i,
                ny,
            ));
        }
    }
}

/// Two different workers' bands never overlap: the earlier band ends at
/// or before the later band starts.
pub proof fn lemma_segments_disjoint(thread_count: int, ny: int, i: int, j: int)
    requires
        1 <= thread_count,
        0 <= ny,
        0 <= i < j < thread_count,
    ensures
        segment_upper(thread_count, i, ny) <= segment_lower(thread_count, j, ny),
{
    let s = ny / thread_count;
    assert(s * (i + 1) <= s * j) by {
        vstd::arithmetic::div_mod::lemma_div_pos_is_pos(ny, thread_count);
        vstd::arithmetic::mul::lemma_mul_inequality(i + 1, j, s);
    }
}

} // verus!
