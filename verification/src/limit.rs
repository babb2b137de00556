//! The Limit operator: resolve signed candidate bitmaps against the live
//! view "log union segment minus deletions" and return the paged window of
//! offset ids, without materializing the merged view.
//!
//! The heart of it is the skip scanner, which seeks into the imaginary
//! merged segment by a joint rank over three ordered sources and then runs
//! a two-way merge to emit the window.

use vstd::prelude::*;

use crate::bitmap::bitmap_seq;
use crate::bitmap::rb_clone;
use crate::bitmap::rb_contains;
use crate::bitmap::rb_difference;
use crate::bitmap::rb_from_sorted_vec;
use crate::bitmap::rb_insert;
use crate::bitmap::rb_len;
use crate::bitmap::rb_max;
use crate::bitmap::rb_new;
use crate::bitmap::rb_rank;
use crate::bitmap::rb_remove_smallest;
use crate::bitmap::rb_select;
use crate::bitmap::rb_to_vec;
use crate::bitmap::rb_union;
use crate::bitmap::SignedRoaringBitmap;
use crate::log::live_log_contains;
use crate::log::MaterializedLogEntry;
use crate::log::MaterializedLogOperation;
use crate::segment::RecordSegmentReader;
use crate::sorted::cnt_lt;
use crate::sorted::lemma_cnt_lt_at_index;
use crate::sorted::lemma_cnt_lt_bounds;
use crate::sorted::lemma_cnt_lt_all_below;
use crate::sorted::lemma_cnt_lt_full;
use crate::sorted::lemma_cnt_lt_locate;
use crate::sorted::lemma_cnt_lt_mono;
use crate::sorted::lemma_cnt_lt_partition;
use crate::sorted::lemma_cnt_lt_step;
use crate::sorted::lemma_diff_cnt;
use crate::sorted::lemma_diff_contains;
use crate::sorted::lemma_diff_sorted;
use crate::sorted::lemma_insert_contains;
use crate::sorted::lemma_insert_sorted;
use crate::sorted::lemma_merge_cnt;
use crate::sorted::lemma_merge_contains;
use crate::sorted::lemma_merge_sorted;
use crate::sorted::lemma_sorted_len;
use crate::sorted::lemma_sorted_subrange;
use crate::sorted::lemma_sorted_unique;
use crate::sorted::lemma_page_sorted;
use crate::sorted::page;
use crate::sorted::seq_subset;
use crate::sorted::seqs_disjoint;
use crate::sorted::sorted_diff;
use crate::sorted::sorted_merge;
use crate::sorted::sorted_strict;

verus! {

/// Scans a number of elements from a fixed offset in the imaginary segment:
/// the ascending view of "log bitmap union record segment", with the masked
/// ids left out.
struct SkipScanner<'me> {
    log_offset_ids: &'me roaring::RoaringBitmap,
    record_segment: &'me RecordSegmentReader,
    mask: &'me roaring::RoaringBitmap,
}

impl<'me> SkipScanner<'me> {
    /// The log-side offset ids, ascending.
    spec fn lseq(&self) -> Seq<u32> {
        bitmap_seq(*self.log_offset_ids)
    }

    /// The segment offset ids, ascending.
    spec fn sseq(&self) -> Seq<u32> {
        self.record_segment.ids()
    }

    /// The masked offset ids, ascending.
    spec fn mseq(&self) -> Seq<u32> {
        bitmap_seq(*self.mask)
    }

    /// The scanner is usable: all three sources ascending, the log disjoint
    /// from the segment, and the mask within the segment.
    spec fn wf(&self) -> bool {
        &&& sorted_strict(self.lseq())
        &&& self.record_segment.wf()
        &&& sorted_strict(self.mseq())
        &&& seqs_disjoint(self.lseq(), self.sseq())
        &&& seq_subset(self.mseq(), self.sseq())
    }

    /// The imaginary merged segment, never materialized by the code.
    spec fn imaginary(&self) -> Seq<u32> {
        sorted_diff(sorted_merge(self.lseq(), self.sseq()), self.mseq())
    }

    /// The joint rank identity: counting below `t` on the three sources
    /// counts the imaginary segment, and membership matches.
    proof fn lemma_imaginary(&self, t: int)
        requires
            self.wf(),
        ensures
            cnt_lt(self.imaginary(), t) == cnt_lt(self.lseq(), t) + cnt_lt(self.sseq(), t)
                - cnt_lt(self.mseq(), t),
            sorted_strict(self.imaginary()),
            forall|x: u32|
                #[trigger] self.imaginary().contains(x) <==> ((self.lseq().contains(x)
                    || self.sseq().contains(x)) && !self.mseq().contains(x)),
    {
        let l = self.lseq();
        let s = self.sseq();
        let m = self.mseq();
        let u = sorted_merge(l, s);
        lemma_merge_cnt(l, s, t);
        lemma_merge_sorted(l, s);
        lemma_merge_contains(l, s);
        assert(seq_subset(m, u));
        lemma_diff_cnt(u, m, t);
        lemma_diff_sorted(u, m);
        lemma_diff_contains(u, m);
    }

    /// The size of the imaginary segment.
    proof fn lemma_imaginary_len(&self)
        requires
            self.wf(),
        ensures
            self.imaginary().len() == self.lseq().len() + self.sseq().len() - self.mseq().len(),
            self.mseq().len() <= self.sseq().len(),
    {
        self.lemma_imaginary(0x1_0000_0000);
        lemma_cnt_lt_full(self.imaginary());
        lemma_cnt_lt_full(self.lseq());
        lemma_cnt_lt_full(self.sseq());
        lemma_cnt_lt_full(self.mseq());
        lemma_cnt_lt_bounds(self.imaginary(), 0x1_0000_0000);
        lemma_diff_cnt(self.sseq(), self.mseq(), 0x1_0000_0000);
        lemma_cnt_lt_bounds(sorted_diff(self.sseq(), self.mseq()), 0x1_0000_0000);
    }

    /// Find the rank of the target offset id in the imaginary segment: the
    /// number of elements strictly below it.
    fn joint_rank(&self, target: u32) -> (r: u64)
        requires
            self.wf(),
        ensures
            r as int == cnt_lt(self.imaginary(), target as int),
    {
        proof {
            self.lemma_imaginary(target as int);
            lemma_cnt_lt_step(self.lseq(), target);
            lemma_cnt_lt_step(self.mseq(), target);
            lemma_cnt_lt_bounds(self.lseq(), target as int);
            lemma_cnt_lt_bounds(self.sseq(), target as int);
            lemma_cnt_lt_bounds(self.mseq(), target as int);
            lemma_sorted_len(self.lseq());
            lemma_sorted_len(self.sseq());
            lemma_diff_cnt(self.sseq(), self.mseq(), target as int);
            lemma_cnt_lt_bounds(sorted_diff(self.sseq(), self.mseq()), target as int);
        }
        // elements strictly below the target in the materialized log
        let lr = rb_rank(self.log_offset_ids, target);
        let log_rank = if rb_contains(self.log_offset_ids, target) {
            lr - 1
        } else {
            lr
        };
        // elements strictly below the target in the record segment
        let record_rank = self.record_segment.get_offset_id_rank(target) as u64;
        // elements strictly below the target in the mask
        let mr = rb_rank(self.mask, target);
        let mask_rank = if rb_contains(self.mask, target) {
            mr - 1
        } else {
            mr
        };
        log_rank + record_rank - mask_rank
    }

    /// Seek the starting cursors into the log and the record segment for a
    /// given number of elements to skip. The search maintains a base whose
    /// joint rank does not exceed the skip, halving the candidate range as a
    /// sorted-slice binary search does.
    fn seek_starting_index(&self, skip: u64) -> (r: (u64, u64, Ghost<u32>))
        requires
            self.wf(),
            skip <= self.imaginary().len(),
        ensures
            self.seek_good(skip as int, r.2@, r.0 as int, r.1 as int),
    {
        proof {
            self.lemma_imaginary(0);
            lemma_cnt_lt_bounds(self.lseq(), 0);
            lemma_cnt_lt_bounds(self.sseq(), 0);
            lemma_cnt_lt_bounds(self.mseq(), 0);
        }
        if skip == 0 {
            proof {
                self.lemma_cnt_at_zero();
            }
            return (0, 0, Ghost(0u32));
        }
        let ghost c = self.imaginary();
        let max_log = match rb_max(self.log_offset_ids) {
            Some(v) => v,
            None => 0,
        };
        let max_seg = self.record_segment.get_current_max_offset_id();
        let top = if max_seg > max_log {
            max_seg
        } else {
            max_log
        };
        proof {
            self.lemma_all_at_most(top);
        }
        if top == 0 {
            proof {
                self.lemma_cnt_at_zero();
                lemma_cnt_lt_partition(c, 1);
                lemma_cnt_lt_bounds(c, 1);
                // everything lies within {0}, so the imaginary segment has
                // at most one element and a positive skip covers it all
                if 0 < skip < c.len() {
                    assert(c[0] < c[1]);
                }
                assert(self.seek_good(skip as int, 0u32, 0, 0));
            }
            return (0, 0, Ghost(0u32));
        }
        let mut size: u64 = top as u64 + 1;
        let mut base: u64 = 0;
        proof {
            self.lemma_cnt_at_zero();
        }
        while size > 1
            invariant
                self.wf(),
                c == self.imaginary(),
                1 <= size,
                base + size <= top as u64 + 1,
                cnt_lt(c, base as int) <= skip,
                cnt_lt(c, base as int + size as int) > skip || base + size == top as u64 + 1,
            decreases size,
        {
            let half = size / 2;
            let mid = base + half;
            let jr_mid = self.joint_rank(mid as u32);
            if jr_mid > skip {
                proof {
                    lemma_cnt_lt_mono(c, mid as int, base as int + (size - half) as int);
                }
            } else {
                base = mid;
            }
            size = size - half;
        }
        // base now sits just before the element of rank `skip`, when there
        // is one
        proof {
            if 0 < skip < c.len() {
                if base + 1 == top as u64 + 1 {
                    lemma_cnt_lt_full(c);
                    lemma_cnt_lt_mono(c, top as int + 1, 0x1_0000_0000);
                }
                lemma_cnt_lt_step(c, base as u32);
            }
        }
        let lr = rb_rank(self.log_offset_ids, base as u32);
        let log_cursor = if rb_contains(self.log_offset_ids, base as u32) {
            proof {
                lemma_cnt_lt_step(self.lseq(), base as u32);
                lemma_cnt_lt_bounds(self.lseq(), base as int);
            }
            lr - 1
        } else {
            proof {
                lemma_cnt_lt_step(self.lseq(), base as u32);
            }
            lr
        };
        let record_cursor = self.record_segment.get_offset_id_rank(base as u32) as u64;
        proof {
            assert(self.seek_good(skip as int, base as u32, log_cursor as int, record_cursor as int));
        }
        (log_cursor, record_cursor, Ghost(base as u32))
    }

    /// What the seek returns: cursors at the ranks of `base` in the log and
    /// the segment, where the joint rank of `base` does not exceed the skip
    /// and, when the skip lands inside the imaginary segment, `base` is
    /// exactly its element of rank `skip`.
    spec fn seek_good(&self, skip: int, base: u32, il: int, is_: int) -> bool {
        &&& il == cnt_lt(self.lseq(), base as int)
        &&& is_ == cnt_lt(self.sseq(), base as int)
        &&& cnt_lt(self.imaginary(), base as int) <= skip
        &&& (0 < skip < self.imaginary().len() ==> cnt_lt(self.imaginary(), base as int) == skip
            && self.imaginary().contains(base))
    }

    /// Counting below zero counts nothing.
    proof fn lemma_cnt_at_zero(&self)
        requires
            self.wf(),
        ensures
            cnt_lt(self.imaginary(), 0) == 0,
            cnt_lt(self.lseq(), 0) == 0,
            cnt_lt(self.sseq(), 0) == 0,
    {
        self.lemma_imaginary(0);
        lemma_cnt_lt_partition(self.imaginary(), 0);
        lemma_cnt_lt_bounds(self.imaginary(), 0);
        lemma_cnt_lt_partition(self.lseq(), 0);
        lemma_cnt_lt_bounds(self.lseq(), 0);
        lemma_cnt_lt_partition(self.sseq(), 0);
        lemma_cnt_lt_bounds(self.sseq(), 0);
        if cnt_lt(self.imaginary(), 0) > 0 {
            assert((self.imaginary()[0] as int) < 0);
        }
        if cnt_lt(self.lseq(), 0) > 0 {
            assert((self.lseq()[0] as int) < 0);
        }
        if cnt_lt(self.sseq(), 0) > 0 {
            assert((self.sseq()[0] as int) < 0);
        }
    }

    /// With `top` at least the largest assigned offset id on both sides,
    /// everything in the imaginary segment is counted below `top + 1`.
    proof fn lemma_all_at_most(&self, top: u32)
        requires
            self.wf(),
            self.lseq().len() > 0 ==> self.lseq()[self.lseq().len() - 1] <= top,
            forall|i: int|
                0 <= i < self.sseq().len() ==> #[trigger] self.sseq()[i]
                    <= self.record_segment.max_assigned(),
            self.record_segment.max_assigned() <= top,
        ensures
            cnt_lt(self.imaginary(), top as int + 1) == self.imaginary().len(),
    {
        self.lemma_imaginary(top as int + 1);
        let c = self.imaginary();
        assert forall|i: int| 0 <= i < c.len() implies (c[i] as int) < top as int + 1 by {
            assert(c.contains(c[i])) by {
                assert(c[i] == c[i]);
            }
            if self.lseq().contains(c[i]) {
                let j = choose|j: int| 0 <= j < self.lseq().len() && self.lseq()[j] == c[i];
                if j < self.lseq().len() - 1 {
                    assert(self.lseq()[j] < self.lseq()[self.lseq().len() - 1]);
                }
            } else {
                let j = choose|j: int| 0 <= j < self.sseq().len() && self.sseq()[j] == c[i];
                assert(self.sseq()[j] <= self.record_segment.max_assigned());
            }
        }
        lemma_cnt_lt_all_below(c, top as int + 1);
    }

    /// The scan-loop cursor invariant, with `next` elements of the imaginary
    /// segment already accounted for. Log values behind the cursor are
    /// accounted; those ahead are not yet due. Segment values behind the
    /// cursor are accounted or masked; those ahead are masked or not yet
    /// due.
    spec fn scan_inv(&self, li: int, ri: int, next: int) -> bool {
        let l = self.lseq();
        let s = self.sseq();
        let m = self.mseq();
        let c = self.imaginary();
        &&& forall|j: int| 0 <= j < li ==> cnt_lt(c, (#[trigger] l[j]) as int) < next
        &&& forall|j: int| li <= j < l.len() ==> cnt_lt(c, (#[trigger] l[j]) as int) >= next
        &&& forall|j: int|
            0 <= j < ri ==> (m.contains(#[trigger] s[j]) || cnt_lt(c, s[j] as int) < next)
        &&& forall|j: int|
            ri <= j < s.len() ==> (m.contains(#[trigger] s[j]) || cnt_lt(c, s[j] as int) >= next)
    }

    /// A log value is never masked, and is always in the imaginary segment.
    proof fn lemma_log_in_imaginary(&self, v: u32)
        requires
            self.wf(),
            self.lseq().contains(v),
        ensures
            self.imaginary().contains(v),
            !self.mseq().contains(v),
    {
        self.lemma_imaginary(0);
        if self.mseq().contains(v) {
            assert(self.sseq().contains(v));
        }
    }

    /// The cursors handed back by the seek satisfy the scan invariant at
    /// `next == skip`.
    proof fn lemma_scan_init(&self, skip: int, base: u32, li: int, ri: int)
        requires
            self.wf(),
            self.seek_good(skip, base, li, ri),
            0 <= skip < self.imaginary().len(),
        ensures
            self.scan_inv(li, ri, skip),
    {
        let l = self.lseq();
        let s = self.sseq();
        let m = self.mseq();
        let c = self.imaginary();
        self.lemma_imaginary(base as int);
        lemma_cnt_lt_bounds(c, base as int);
        assert(cnt_lt(c, base as int) == skip) by {
            if skip == 0 {
            }
        }
        lemma_cnt_lt_partition(l, base as int);
        lemma_cnt_lt_partition(s, base as int);
        lemma_cnt_lt_bounds(l, base as int);
        lemma_cnt_lt_bounds(s, base as int);
        lemma_cnt_lt_step(c, base);
        assert forall|j: int| 0 <= j < li implies cnt_lt(c, (#[trigger] l[j]) as int) < skip by {
            assert((l[j] as int) < base as int);
            assert(l.contains(l[j]));
            self.lemma_log_in_imaginary(l[j]);
            lemma_cnt_lt_step(c, l[j]);
            lemma_cnt_lt_mono(c, l[j] as int + 1, base as int);
        }
        assert forall|j: int| li <= j < l.len() implies cnt_lt(c, (#[trigger] l[j]) as int)
            >= skip by {
            assert((l[j] as int) >= base as int);
            lemma_cnt_lt_mono(c, base as int, l[j] as int);
        }
        assert forall|j: int| 0 <= j < ri implies (m.contains(#[trigger] s[j]) || cnt_lt(
            c,
            s[j] as int,
        ) < skip) by {
            if !m.contains(s[j]) {
                assert((s[j] as int) < base as int);
                assert(s.contains(s[j]));
                assert(c.contains(s[j]));
                lemma_cnt_lt_step(c, s[j]);
                lemma_cnt_lt_mono(c, s[j] as int + 1, base as int);
            }
        }
        assert forall|j: int| ri <= j < s.len() implies (m.contains(#[trigger] s[j]) || cnt_lt(
            c,
            s[j] as int,
        ) >= skip) by {
            if !m.contains(s[j]) {
                assert((s[j] as int) >= base as int);
                lemma_cnt_lt_mono(c, base as int, s[j] as int);
            }
        }
    }

    /// Skipping a masked segment value preserves the invariant.
    proof fn lemma_scan_mask(&self, li: int, ri: int, next: int)
        requires
            self.wf(),
            self.scan_inv(li, ri, next),
            0 <= ri < self.sseq().len(),
            self.mseq().contains(self.sseq()[ri]),
        ensures
            self.scan_inv(li, ri + 1, next),
    {
    }

    /// When the log side offers the smaller unmasked value, it is the next
    /// element of the imaginary segment.
    proof fn lemma_scan_emit_log(&self, li: int, ri: int, next: int)
        requires
            self.wf(),
            self.scan_inv(li, ri, next),
            0 <= next,
            0 <= li < self.lseq().len(),
            0 <= ri <= self.sseq().len(),
            ri < self.sseq().len() ==> !self.mseq().contains(self.sseq()[ri])
                && self.lseq()[li] < self.sseq()[ri],
        ensures
            next < self.imaginary().len(),
            self.imaginary()[next] == self.lseq()[li],
            self.scan_inv(li + 1, ri, next + 1),
    {
        let l = self.lseq();
        let s = self.sseq();
        let m = self.mseq();
        let c = self.imaginary();
        let v = l[li];
        self.lemma_imaginary(v as int);
        assert(l.contains(v));
        self.lemma_log_in_imaginary(v);
        lemma_cnt_lt_bounds(c, v as int);
        lemma_cnt_lt_partition(c, v as int);
        let cr = cnt_lt(c, v as int);
        // were the rank of v above `next`, the element of rank `next` would
        // lie below v yet sit beyond a cursor, against the invariant
        assert(cr <= next) by {
            if cr > next {
                let k = next;
                assert((c[k] as int) < v as int);
                assert(c.contains(c[k]));
                lemma_cnt_lt_at_index(c, k);
                if l.contains(c[k]) {
                    let j = choose|j: int| 0 <= j < l.len() && l[j] == c[k];
                    assert(j < li);
                } else {
                    assert(s.contains(c[k]) && !m.contains(c[k]));
                    let j = choose|j: int| 0 <= j < s.len() && s[j] == c[k];
                    if j >= ri {
                        assert(s[ri] <= s[j]);
                    }
                    assert(j < ri);
                }
            }
        }
        assert(cr >= next);
        lemma_cnt_lt_locate(c, v, next);
        lemma_cnt_lt_step(c, v);
        // the invariant advances by one emitted element
        assert forall|j: int| 0 <= j < li + 1 implies cnt_lt(c, (#[trigger] l[j]) as int) < next
            + 1 by {}
        assert forall|j: int| li + 1 <= j < l.len() implies cnt_lt(c, (#[trigger] l[j]) as int)
            >= next + 1 by {
            assert(l[li] < l[j]);
            lemma_cnt_lt_mono(c, v as int + 1, l[j] as int);
        }
        assert forall|j: int| ri <= j < s.len() implies (m.contains(#[trigger] s[j]) || cnt_lt(
            c,
            s[j] as int,
        ) >= next + 1) by {
            if !m.contains(s[j]) {
                assert(s[ri] <= s[j]);
                assert(v < s[j]);
                lemma_cnt_lt_mono(c, v as int + 1, s[j] as int);
            }
        }
    }

    /// When the segment side offers the smaller unmasked value, it is the
    /// next element of the imaginary segment.
    proof fn lemma_scan_emit_seg(&self, li: int, ri: int, next: int)
        requires
            self.wf(),
            self.scan_inv(li, ri, next),
            0 <= next,
            0 <= ri < self.sseq().len(),
            !self.mseq().contains(self.sseq()[ri]),
            0 <= li <= self.lseq().len(),
            li < self.lseq().len() ==> self.lseq()[li] >= self.sseq()[ri],
        ensures
            next < self.imaginary().len(),
            self.imaginary()[next] == self.sseq()[ri],
            self.scan_inv(li, ri + 1, next + 1),
    {
        let l = self.lseq();
        let s = self.sseq();
        let m = self.mseq();
        let c = self.imaginary();
        let v = s[ri];
        self.lemma_imaginary(v as int);
        assert(s.contains(v));
        assert(c.contains(v));
        // the log never holds a segment value
        assert(!l.contains(v));
        if li < l.len() {
            assert(l.contains(l[li]));
            assert(l[li] != v);
            assert(l[li] > v);
        }
        lemma_cnt_lt_bounds(c, v as int);
        lemma_cnt_lt_partition(c, v as int);
        let cr = cnt_lt(c, v as int);
        assert(cr <= next) by {
            if cr > next {
                let k = next;
                assert((c[k] as int) < v as int);
                assert(c.contains(c[k]));
                lemma_cnt_lt_at_index(c, k);
                if l.contains(c[k]) {
                    let j = choose|j: int| 0 <= j < l.len() && l[j] == c[k];
                    if j >= li {
                        assert(l[li] <= l[j]);
                    }
                    assert(j < li);
                } else {
                    assert(s.contains(c[k]) && !m.contains(c[k]));
                    let j = choose|j: int| 0 <= j < s.len() && s[j] == c[k];
                    if j >= ri {
                        assert(s[ri] <= s[j]);
                    }
                    assert(j < ri);
                }
            }
        }
        assert(cr >= next);
        lemma_cnt_lt_locate(c, v, next);
        lemma_cnt_lt_step(c, v);
        assert forall|j: int| li <= j < l.len() implies cnt_lt(c, (#[trigger] l[j]) as int) >= next
            + 1 by {
            assert(l[li] <= l[j]);
            assert(v < l[j]);
            lemma_cnt_lt_mono(c, v as int + 1, l[j] as int);
        }
        assert forall|j: int| ri + 1 <= j < s.len() implies (m.contains(#[trigger] s[j]) || cnt_lt(
            c,
            s[j] as int,
        ) >= next + 1) by {
            if !m.contains(s[j]) {
                assert(s[ri] < s[j]);
                lemma_cnt_lt_mono(c, v as int + 1, s[j] as int);
            }
        }
        assert forall|j: int| 0 <= j < ri + 1 implies (m.contains(#[trigger] s[j]) || cnt_lt(
            c,
            s[j] as int,
        ) < next + 1) by {}
    }

    /// Once both cursors are exhausted, every element of the imaginary
    /// segment has been accounted for.
    proof fn lemma_scan_exhausted(&self, li: int, ri: int, next: int)
        requires
            self.wf(),
            self.scan_inv(li, ri, next),
            li == self.lseq().len(),
            ri == self.sseq().len(),
            0 <= next,
        ensures
            next >= self.imaginary().len(),
    {
        let l = self.lseq();
        let s = self.sseq();
        let m = self.mseq();
        let c = self.imaginary();
        self.lemma_imaginary(0);
        if next < c.len() {
            let y = c[next];
            assert(c.contains(y));
            lemma_cnt_lt_at_index(c, next);
            if l.contains(y) {
                let j = choose|j: int| 0 <= j < l.len() && l[j] == y;
                assert(cnt_lt(c, (l[j]) as int) < next);
            } else {
                assert(s.contains(y) && !m.contains(y));
                let j = choose|j: int| 0 <= j < s.len() && s[j] == y;
                assert(m.contains(s[j]) || cnt_lt(c, s[j] as int) < next);
            }
        }
    }

    /// Seek the start in the log and record segment, then scan the given
    /// number of offset ids: the window `[skip, skip + fetch)` of the
    /// imaginary segment.
    fn seek_and_scan(&self, skip: u64, fetch: u64) -> (r: Vec<u32>)
        requires
            self.wf(),
            skip + fetch <= self.imaginary().len(),
        ensures
            r@ == self.imaginary().subrange(skip as int, skip as int + fetch as int),
    {
        let ghost c = self.imaginary();
        proof {
            self.lemma_imaginary(0);
            self.lemma_imaginary_len();
            lemma_sorted_len(self.lseq());
            lemma_sorted_len(self.sseq());
        }
        let record_count = self.record_segment.count();
        let log_count = rb_len(self.log_offset_ids);
        let cursors = self.seek_starting_index(skip);
        let ghost base = cursors.2@;
        proof {
            lemma_cnt_lt_bounds(self.lseq(), base as int);
            lemma_cnt_lt_bounds(self.sseq(), base as int);
        }
        let mut log_index: u64 = cursors.0;
        let mut record_index: usize = cursors.1 as usize;
        let mut out: Vec<u32> = Vec::new();
        let mut remaining: u64 = fetch;
        proof {
            if remaining > 0 {
                self.lemma_scan_init(skip as int, base, log_index as int, record_index as int);
            }
            assert(out@ =~= c.subrange(skip as int, skip as int));
        }
        while remaining > 0
            invariant
                self.wf(),
                c == self.imaginary(),
                record_count == self.sseq().len(),
                log_count == self.lseq().len(),
                log_index <= log_count,
                record_index <= record_count,
                out@.len() + remaining == fetch,
                skip + fetch <= c.len(),
                out@ == c.subrange(skip as int, skip as int + out@.len() as int),
                remaining == 0 || self.scan_inv(
                    log_index as int,
                    record_index as int,
                    skip as int + out@.len() as int,
                ),
            decreases remaining, record_count - record_index,
        {
            proof {
                lemma_sorted_len(self.lseq());
            }
            let ghost next = skip as int + out@.len() as int;
            let log_oid: Option<u32> = if log_index < log_count {
                rb_select(self.log_offset_ids, log_index as u32)
            } else {
                None
            };
            let record_oid: Option<u32> = if record_index < record_count {
                Some(self.record_segment.get_offset_id_at_index(record_index))
            } else {
                None
            };
            let masked = match record_oid {
                Some(roid) => rb_contains(self.mask, roid),
                None => false,
            };
            if masked {
                proof {
                    self.lemma_scan_mask(log_index as int, record_index as int, next);
                }
                record_index = record_index + 1;
            } else {
                match (log_oid, record_oid) {
                    (Some(lv), Some(rv)) => {
                        if lv < rv {
                            proof {
                                self.lemma_scan_emit_log(
                                    log_index as int,
                                    record_index as int,
                                    next,
                                );
                                assert(c.subrange(skip as int, next + 1) =~= c.subrange(
                                    skip as int,
                                    next,
                                ).push(c[next]));
                            }
                            out.push(lv);
                            log_index = log_index + 1;
                        } else {
                            proof {
                                self.lemma_scan_emit_seg(
                                    log_index as int,
                                    record_index as int,
                                    next,
                                );
                                assert(c.subrange(skip as int, next + 1) =~= c.subrange(
                                    skip as int,
                                    next,
                                ).push(c[next]));
                            }
                            out.push(rv);
                            record_index = record_index + 1;
                        }
                    },
                    (Some(lv), None) => {
                        proof {
                            self.lemma_scan_emit_log(log_index as int, record_index as int, next);
                            assert(c.subrange(skip as int, next + 1) =~= c.subrange(
                                skip as int,
                                next,
                            ).push(c[next]));
                        }
                        out.push(lv);
                        log_index = log_index + 1;
                    },
                    (None, Some(rv)) => {
                        proof {
                            self.lemma_scan_emit_seg(log_index as int, record_index as int, next);
                            assert(c.subrange(skip as int, next + 1) =~= c.subrange(
                                skip as int,
                                next,
                            ).push(c[next]));
                        }
                        out.push(rv);
                        record_index = record_index + 1;
                    },
                    (None, None) => {
                        proof {
                            self.lemma_scan_exhausted(log_index as int, record_index as int, next);
                        }
                    },
                }
                remaining = remaining - 1;
            }
        }
        proof {
            assert(out@ =~= c.subrange(skip as int, skip as int + fetch as int));
        }
        out
    }
}

/// Pages the offset ids of the live view.
#[derive(Clone, Debug)]
pub struct LimitOperator {
    /// How many of the smallest live offset ids to drop.
    pub skip: u32,
    /// How many offset ids to keep after the skip; `None` keeps them all.
    pub fetch: Option<u32>,
}

/// What the Limit operator works on: the materialized log chunk, the record
/// segment (absent while uninitialized), and the two signed candidate sets.
pub struct LimitInput {
    pub logs: Vec<MaterializedLogEntry>,
    pub segments: Option<RecordSegmentReader>,
    pub log_offset_ids: SignedRoaringBitmap,
    pub compact_offset_ids: SignedRoaringBitmap,
}

/// The paged window of live offset ids, ascending.
#[derive(Debug)]
pub struct LimitOutput {
    pub offset_ids: roaring::RoaringBitmap,
}

/// The failures the operator surfaces. Reads from the plain-data segment
/// model cannot fail, so `run` never produces one.
#[derive(Clone, Copy, Debug, PartialEq, Eq, Structural)]
pub enum LimitError {
    FetchSegment,
    LogMaterializer,
    RecordSegment,
}

impl LimitInput {
    /// The segment's offset ids; empty while the segment is uninitialized.
    pub open spec fn seg_ids(&self) -> Seq<u32> {
        match self.segments {
            Some(r) => r.ids(),
            None => Seq::<u32>::empty(),
        }
    }

    /// Membership in the resolved log-side candidate set: an `Include`
    /// bitmap stands for itself; an `Exclude` bitmap subtracts from the
    /// live log offset ids.
    pub open spec fn resolved_log_contains(&self, x: u32) -> bool {
        match self.log_offset_ids {
            SignedRoaringBitmap::Include(b) => bitmap_seq(b).contains(x),
            SignedRoaringBitmap::Exclude(b) => live_log_contains(self.logs@, x) && !bitmap_seq(
                b,
            ).contains(x),
        }
    }

    /// Membership in the candidate set the operator pages: an `Include`
    /// compact side joins the log side; an `Exclude` compact side masks the
    /// union of the log side and the segment, or leaves the log side alone
    /// when there is no segment.
    pub open spec fn candidate_contains(&self, x: u32) -> bool {
        match self.compact_offset_ids {
            SignedRoaringBitmap::Include(b) => self.resolved_log_contains(x) || bitmap_seq(
                b,
            ).contains(x),
            SignedRoaringBitmap::Exclude(b) => match self.segments {
                Some(r) => (self.resolved_log_contains(x) || r.ids().contains(x)) && !bitmap_seq(
                    b,
                ).contains(x),
                None => self.resolved_log_contains(x),
            },
        }
    }

    /// The input is well formed: the segment reader holds sorted data and
    /// the candidate bitmaps are what roaring hands out.
    pub open spec fn wf(&self) -> bool {
        &&& match self.segments {
            Some(r) => r.wf(),
            None => true,
        }
        &&& sorted_strict(self.log_offset_ids.listed())
        &&& sorted_strict(self.compact_offset_ids.listed())
    }

    /// The invariants the skip scanner relies on, owed by the caller: the
    /// mask lies within the segment, and the resolved log side is disjoint
    /// from it. The other execution strategies need nothing.
    pub open spec fn scan_preconditions(&self) -> bool {
        match self.compact_offset_ids {
            SignedRoaringBitmap::Exclude(m) => match self.segments {
                Some(r) => seq_subset(bitmap_seq(m), r.ids()) && (forall|x: u32|
                    #[trigger] self.resolved_log_contains(x) ==> !r.ids().contains(x)),
                None => true,
            },
            SignedRoaringBitmap::Include(_) => true,
        }
    }
}

/// `c` is the candidate set of this input, as an ascending sequence.
pub open spec fn candidate_is(input: &LimitInput, c: Seq<u32>) -> bool {
    &&& sorted_strict(c)
    &&& forall|x: u32| #[trigger] c.contains(x) <==> input.candidate_contains(x)
}

/// The candidate set of this input, as an ascending sequence.
pub open spec fn candidate_seq(input: &LimitInput) -> Seq<u32> {
    choose|c: Seq<u32>| candidate_is(input, c)
}

/// An ascending sequence holding exactly the candidate members is the
/// candidate sequence.
pub proof fn lemma_candidate_seq(input: &LimitInput, w: Seq<u32>)
    requires
        candidate_is(input, w),
    ensures
        candidate_seq(input) == w,
{
    assert(exists|c: Seq<u32>| candidate_is(input, c)) by {
        assert(candidate_is(input, w));
    }
    let cs = candidate_seq(input);
    assert(candidate_is(input, cs));
    assert forall|x: u32| cs.contains(x) <==> w.contains(x) by {
        assert(cs.contains(x) <==> input.candidate_contains(x));
        assert(w.contains(x) <==> input.candidate_contains(x));
    }
    lemma_sorted_unique(cs, w);
}

/// Some entry among the first `n` materializes `x` without deleting it.
spec fn live_upto(entries: Seq<MaterializedLogEntry>, n: int, x: u32) -> bool {
    exists|j: int|
        0 <= j < n && entries[j].offset_id == x && !(entries[j].final_operation is DeleteExisting)
}

/// Resolve the log-side signed bitmap into a concrete bitmap of candidate
/// offset ids.
fn resolve_log_side(input: &LimitInput) -> (r: roaring::RoaringBitmap)
    requires
        input.wf(),
    ensures
        sorted_strict(bitmap_seq(r)),
        forall|x: u32| #[trigger] bitmap_seq(r).contains(x) <==> input.resolved_log_contains(x),
{
    match &input.log_offset_ids {
        SignedRoaringBitmap::Include(rbm) => rb_clone(rbm),
        SignedRoaringBitmap::Exclude(rbm) => {
            // the active domain: every live offset id the log materializes
            let mut active_domain = rb_new();
            let n = input.logs.len();
            let mut i: usize = 0;
            while i < n
                invariant
                    0 <= i <= n,
                    n == input.logs@.len(),
                    sorted_strict(bitmap_seq(active_domain)),
                    forall|x: u32|
                        #[trigger] bitmap_seq(active_domain).contains(x) <==> live_upto(
                            input.logs@,
                            i as int,
                            x,
                        ),
                decreases n - i,
            {
                let ghost before = bitmap_seq(active_domain);
                let e = &input.logs[i];
                if e.final_operation != MaterializedLogOperation::DeleteExisting {
                    rb_insert(&mut active_domain, e.offset_id);
                    proof {
                        lemma_insert_sorted(before, e.offset_id);
                        lemma_insert_contains(before, e.offset_id);
                        assert forall|x: u32| #[trigger] bitmap_seq(active_domain).contains(x)
                            <==> live_upto(input.logs@, i as int + 1, x) by {
                            if bitmap_seq(active_domain).contains(x) {
                                if x == e.offset_id {
                                    assert(input.logs@[i as int].offset_id == x);
                                } else {
                                    assert(live_upto(input.logs@, i as int, x));
                                }
                            }
                            if live_upto(input.logs@, i as int + 1, x) {
                                let j = choose|j: int|
                                    0 <= j < i as int + 1 && input.logs@[j].offset_id == x && !(
                                    input.logs@[j].final_operation is DeleteExisting);
                                if j < i as int {
                                    assert(live_upto(input.logs@, i as int, x));
                                }
                            }
                        }
                    }
                } else {
                    proof {
                        assert forall|x: u32| #[trigger] bitmap_seq(active_domain).contains(x)
                            <==> live_upto(input.logs@, i as int + 1, x) by {
                            if live_upto(input.logs@, i as int + 1, x) {
                                let j = choose|j: int|
                                    0 <= j < i as int + 1 && input.logs@[j].offset_id == x && !(
                                    input.logs@[j].final_operation is DeleteExisting);
                                assert(j < i as int);
                            }
                        }
                    }
                }
                i = i + 1;
            }
            proof {
                assert forall|x: u32| live_upto(input.logs@, n as int, x) <==> live_log_contains(
                    input.logs@,
                    x,
                ) by {}
            }
            rb_difference(&active_domain, rbm)
        },
    }
}

/// Keep the first `n` values of a bitmap.
fn take_prefix(b: &roaring::RoaringBitmap, n: u32) -> (r: roaring::RoaringBitmap)
    requires
        sorted_strict(bitmap_seq(*b)),
    ensures
        bitmap_seq(r) == if n as int <= bitmap_seq(*b).len() {
            bitmap_seq(*b).subrange(0, n as int)
        } else {
            bitmap_seq(*b)
        },
{
    let mut v = rb_to_vec(b);
    if (n as usize) < v.len() {
        v.truncate(n as usize);
        proof {
            lemma_sorted_subrange(bitmap_seq(*b), 0, n as int);
        }
    }
    rb_from_sorted_vec(&v)
}

/// Drop the smallest `skip` values, then keep at most `fetch` of the rest.
fn paginate_bitmap(b: roaring::RoaringBitmap, skip: u32, fetch: Option<u32>) -> (r:
    roaring::RoaringBitmap)
    requires
        sorted_strict(bitmap_seq(b)),
    ensures
        bitmap_seq(r) == page(bitmap_seq(b), skip as int, fetch),
{
    let ghost w = bitmap_seq(b);
    let mut rest = b;
    rb_remove_smallest(&mut rest, skip as u64);
    let ghost start = if skip as int <= w.len() {
        skip as int
    } else {
        w.len() as int
    };
    proof {
        assert(bitmap_seq(rest) =~= w.subrange(start, w.len() as int));
        lemma_sorted_subrange(w, start, w.len() as int);
    }
    match fetch {
        Some(take_count) => {
            let r = take_prefix(&rest, take_count);
            proof {
                assert(bitmap_seq(r) =~= page(w, skip as int, fetch));
            }
            r
        },
        None => {
            proof {
                assert(bitmap_seq(rest) =~= page(w, skip as int, fetch));
            }
            rest
        },
    }
}

impl LimitOperator {
    pub fn get_name(&self) -> &'static str {
        "LimitOperator"
    }

    /// Resolve the signed candidate bitmaps against the live view and
    /// return the window `[skip, skip + fetch)` of its ascending offset
    /// ids.
    pub fn run(&self, input: &LimitInput) -> (r: Result<LimitOutput, LimitError>)
        requires
            input.wf(),
            input.scan_preconditions(),
        ensures
            r is Ok,
            bitmap_seq(r.unwrap().offset_ids) == page(
                candidate_seq(input),
                self.skip as int,
                self.fetch,
            ),
            sorted_strict(bitmap_seq(r.unwrap().offset_ids)),
            self.fetch matches Some(f) ==> bitmap_seq(r.unwrap().offset_ids).len() <= f,
    {
        // resolve the log-side candidates from the materialized log
        let materialized_log_offset_ids = resolve_log_side(input);
        let ghost lseq = bitmap_seq(materialized_log_offset_ids);

        // resolve the paged window against the compact segment
        let offset_ids = match &input.compact_offset_ids {
            SignedRoaringBitmap::Include(rbm) => {
                let merged_oids = rb_union(&materialized_log_offset_ids, rbm);
                proof {
                    assert forall|x: u32| #[trigger] bitmap_seq(merged_oids).contains(x)
                        <==> input.candidate_contains(x) by {}
                    lemma_candidate_seq(input, bitmap_seq(merged_oids));
                }
                paginate_bitmap(merged_oids, self.skip, self.fetch)
            },
            SignedRoaringBitmap::Exclude(rbm) => {
                match &input.segments {
                    Some(reader) => {
                        let skip_scanner = SkipScanner {
                            log_offset_ids: &materialized_log_offset_ids,
                            record_segment: reader,
                            mask: rbm,
                        };
                        proof {
                            assert(seqs_disjoint(lseq, reader.ids())) by {
                                assert forall|x: u32|
                                    !(lseq.contains(x) && reader.ids().contains(x)) by {
                                    if lseq.contains(x) {
                                        assert(input.resolved_log_contains(x));
                                    }
                                }
                            }
                            assert(skip_scanner.wf());
                            skip_scanner.lemma_imaginary(0);
                            skip_scanner.lemma_imaginary_len();
                            lemma_sorted_len(skip_scanner.lseq());
                            lemma_sorted_len(skip_scanner.sseq());
                            assert forall|x: u32| #[trigger] skip_scanner.imaginary().contains(x)
                                <==> input.candidate_contains(x) by {}
                            lemma_candidate_seq(input, skip_scanner.imaginary());
                        }
                        let record_count = reader.count();
                        let log_count = rb_len(&materialized_log_offset_ids);
                        let mask_count = rb_len(rbm);
                        let filter_match_count = log_count + (record_count as u64) - mask_count;
                        let skip64 = self.skip as u64;
                        let truncated_skip = if skip64 < filter_match_count {
                            skip64
                        } else {
                            filter_match_count
                        };
                        let avail = filter_match_count - truncated_skip;
                        let fetch64 = match self.fetch {
                            Some(f) => f as u64,
                            None => u64::MAX,
                        };
                        let truncated_fetch = if fetch64 < avail {
                            fetch64
                        } else {
                            avail
                        };
                        let merged = skip_scanner.seek_and_scan(truncated_skip, truncated_fetch);
                        proof {
                            lemma_sorted_subrange(
                                skip_scanner.imaginary(),
                                truncated_skip as int,
                                truncated_skip as int + truncated_fetch as int,
                            );
                            assert(merged@ =~= page(
                                skip_scanner.imaginary(),
                                self.skip as int,
                                self.fetch,
                            ));
                        }
                        rb_from_sorted_vec(&merged)
                    },
                    None => {
                        proof {
                            lemma_candidate_seq(input, lseq);
                        }
                        paginate_bitmap(materialized_log_offset_ids, self.skip, self.fetch)
                    },
                }
            },
        };
        proof {
            lemma_page_sorted(candidate_seq(input), self.skip as int, self.fetch);
        }
        Ok(LimitOutput { offset_ids })
    }
}

} // verus!
