//! The universal guarantees of the Limit operator, stated over its
//! contract: `LimitOperator::run` returns exactly
//! `page(candidate_seq(input), skip, fetch)` as its bitmap's ascending
//! value sequence, so each law below speaks of that window.
//!
//! The corresponding guarantees of MergeAndHydrate — three output vectors
//! of the window's length, log data winning over segment data, and deleted
//! offset ids absent from the full-scan merge — are stated directly in the
//! `ensures` of `MergeMetadataResultsOperator::run` and in
//! `merged_contains`.

use vstd::prelude::*;

use crate::bitmap::bitmap_seq;
use crate::bitmap::SignedRoaringBitmap;
use crate::limit::candidate_is;
use crate::limit::candidate_seq;
use crate::limit::lemma_candidate_seq;
use crate::limit::LimitInput;
use crate::sorted::lemma_page_sorted;
use crate::sorted::lemma_page_subset;
use crate::sorted::lemma_sorted_unique;
use crate::sorted::page;
use crate::sorted::seq_subset;
use crate::sorted::sorted_strict;

verus! {

/// Sortedness: the offset-id output of Limit is strictly ascending.
pub proof fn lemma_limit_sorted(input: &LimitInput, c: Seq<u32>, skip: int, fetch: Option<u32>)
    requires
        candidate_is(input, c),
        skip >= 0,
    ensures
        sorted_strict(page(candidate_seq(input), skip, fetch)),
{
    lemma_candidate_seq(input, c);
    lemma_page_sorted(c, skip, fetch);
}

/// Cardinality: with a fetch bound the output holds at most that many
/// offset ids, and never more than the candidate set holds.
pub proof fn lemma_limit_cardinality(c: Seq<u32>, skip: int, fetch: Option<u32>)
    requires
        skip >= 0,
    ensures
        match fetch {
            Some(f) => page(c, skip, fetch).len() <= f,
            None => page(c, skip, fetch).len() <= c.len(),
        },
{
}

/// Skip correctness: the `i`-th element of the output is the
/// `(skip + i)`-th element of the candidate sequence.
pub proof fn lemma_limit_skip_correctness(c: Seq<u32>, skip: int, fetch: Option<u32>, i: int)
    requires
        0 <= skip,
        0 <= i < page(c, skip, fetch).len(),
        skip <= c.len(),
    ensures
        page(c, skip, fetch)[i] == c[skip + i],
{
}

/// Mask exclusion: with an `Exclude` compact side whose mask lies within
/// the segment, no masked offset id appears in the output.
pub proof fn lemma_limit_mask_exclusion(
    input: &LimitInput,
    c: Seq<u32>,
    skip: int,
    fetch: Option<u32>,
    x: u32,
)
    requires
        candidate_is(input, c),
        skip >= 0,
        match input.compact_offset_ids {
            SignedRoaringBitmap::Exclude(m) => seq_subset(bitmap_seq(m), input.seg_ids())
                && bitmap_seq(m).contains(x),
            SignedRoaringBitmap::Include(_) => false,
        },
    ensures
        !page(candidate_seq(input), skip, fetch).contains(x),
{
    lemma_candidate_seq(input, c);
    lemma_page_subset(c, skip, fetch);
    if page(c, skip, fetch).contains(x) {
        assert(c.contains(x));
        assert(input.candidate_contains(x));
        match input.compact_offset_ids {
            SignedRoaringBitmap::Exclude(m) => {
                match input.segments {
                    Some(_) => {
                        assert(!bitmap_seq(m).contains(x));
                    },
                    None => {
                        // the mask lies within an absent segment, so it is
                        // empty and holds no x
                        assert(input.seg_ids().contains(x));
                        let j = choose|j: int|
                            0 <= j < input.seg_ids().len() && input.seg_ids()[j] == x;
                        assert(false);
                    },
                }
            },
            SignedRoaringBitmap::Include(_) => {},
        }
    }
}

/// Idempotence: the output is a function of the input alone, so two runs
/// of Limit on identical inputs return identical windows.
pub proof fn lemma_limit_idempotent(
    input: &LimitInput,
    o1: Seq<u32>,
    o2: Seq<u32>,
    skip: int,
    fetch: Option<u32>,
)
    requires
        o1 == page(candidate_seq(input), skip, fetch),
        o2 == page(candidate_seq(input), skip, fetch),
    ensures
        o1 == o2,
{
}

/// Unionize identity, log side: an empty `Include` log side leaves the
/// `Include` compact side as the whole candidate set, so the output is
/// that bitmap after skip and fetch.
pub proof fn lemma_limit_unionize_identity_log(
    input: &LimitInput,
    c: Seq<u32>,
    skip: int,
    fetch: Option<u32>,
)
    requires
        candidate_is(input, c),
        skip >= 0,
        match input.log_offset_ids {
            SignedRoaringBitmap::Include(b) => bitmap_seq(b).len() == 0,
            SignedRoaringBitmap::Exclude(_) => false,
        },
        match input.compact_offset_ids {
            SignedRoaringBitmap::Include(r) => sorted_strict(bitmap_seq(r)),
            SignedRoaringBitmap::Exclude(_) => false,
        },
    ensures
        match input.compact_offset_ids {
            SignedRoaringBitmap::Include(r) => page(candidate_seq(input), skip, fetch) == page(
                bitmap_seq(r),
                skip,
                fetch,
            ),
            SignedRoaringBitmap::Exclude(_) => true,
        },
{
    lemma_candidate_seq(input, c);
    match input.compact_offset_ids {
        SignedRoaringBitmap::Include(r) => {
            assert forall|x: u32| c.contains(x) <==> bitmap_seq(r).contains(x) by {
                assert(c.contains(x) <==> input.candidate_contains(x));
                match input.log_offset_ids {
                    SignedRoaringBitmap::Include(b) => {
                        if bitmap_seq(b).contains(x) {
                            let j = choose|j: int|
                                0 <= j < bitmap_seq(b).len() && bitmap_seq(b)[j] == x;
                            assert(false);
                        }
                    },
                    SignedRoaringBitmap::Exclude(_) => {},
                }
            }
            lemma_sorted_unique(c, bitmap_seq(r));
        },
        SignedRoaringBitmap::Exclude(_) => {},
    }
}

/// Unionize identity, compact side: an empty `Include` compact side leaves
/// the `Include` log side as the whole candidate set, so the output is
/// that bitmap after skip and fetch.
pub proof fn lemma_limit_unionize_identity_compact(
    input: &LimitInput,
    c: Seq<u32>,
    skip: int,
    fetch: Option<u32>,
)
    requires
        candidate_is(input, c),
        skip >= 0,
        match input.log_offset_ids {
            SignedRoaringBitmap::Include(b) => sorted_strict(bitmap_seq(b)),
            SignedRoaringBitmap::Exclude(_) => false,
        },
        match input.compact_offset_ids {
            SignedRoaringBitmap::Include(r) => bitmap_seq(r).len() == 0,
            SignedRoaringBitmap::Exclude(_) => false,
        },
    ensures
        match input.log_offset_ids {
            SignedRoaringBitmap::Include(b) => page(candidate_seq(input), skip, fetch) == page(
                bitmap_seq(b),
                skip,
                fetch,
            ),
            SignedRoaringBitmap::Exclude(_) => true,
        },
{
    lemma_candidate_seq(input, c);
    match input.log_offset_ids {
        SignedRoaringBitmap::Include(b) => {
            assert forall|x: u32| c.contains(x) <==> bitmap_seq(b).contains(x) by {
                assert(c.contains(x) <==> input.candidate_contains(x));
                match input.compact_offset_ids {
                    SignedRoaringBitmap::Include(r) => {
                        if bitmap_seq(r).contains(x) {
                            let j = choose|j: int|
                                0 <= j < bitmap_seq(r).len() && bitmap_seq(r)[j] == x;
                            assert(false);
                        }
                    },
                    SignedRoaringBitmap::Exclude(_) => {},
                }
            }
            lemma_sorted_unique(c, bitmap_seq(b));
        },
        SignedRoaringBitmap::Exclude(_) => {},
    }
}

} // verus!
