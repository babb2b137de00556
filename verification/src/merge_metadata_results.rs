//! The MergeAndHydrate operator: merge the optional candidate lists with
//! the live view, page the merged list, and hydrate the window into rows of
//! (user id, metadata, document), with log mutations overlaid on segment
//! data.

use vstd::pervasive::VecAdditionalExecFns;
use vstd::prelude::*;

use crate::bitmap::bitmap_seq;
use crate::bitmap::rb_difference;
use crate::bitmap::rb_from_sorted_vec;
use crate::bitmap::rb_insert;
use crate::bitmap::rb_intersection;
use crate::bitmap::rb_new;
use crate::bitmap::rb_to_vec;
use crate::bitmap::rb_union;
use crate::log::deleted_log_contains;
use crate::log::dup_metadata;
use crate::log::entries_unique;
use crate::log::find_entry;
use crate::log::live_log_contains;
use crate::log::logged_contains;
use crate::log::merged_document;
use crate::log::merged_metadata;
use crate::log::merged_user_id;
use crate::log::opt_record;
use crate::log::spec_merged_document;
use crate::log::spec_merged_metadata;
use crate::log::spec_merged_user_id;
use crate::log::MaterializedLogEntry;
use crate::log::MaterializedLogOperation;
use crate::segment::Metadata;
use crate::segment::MetadataValue;
use crate::segment::RecordSegmentReader;
use crate::segment::SegmentRecord;
use crate::sorted::lemma_insert_contains;
use crate::sorted::lemma_insert_sorted;
use crate::sorted::lemma_sorted_unique;
use crate::sorted::sorted_strict;

verus! {

/// Merges candidate offset-id lists with the live view and hydrates the
/// paged window into user-visible rows.
#[derive(Debug)]
pub struct MergeMetadataResultsOperator {}

impl MergeMetadataResultsOperator {
    pub fn new() -> (r: Box<Self>) {
        Box::new(MergeMetadataResultsOperator {  })
    }

    pub fn get_name(&self) -> &'static str {
        "MergeMetadataResultsOperator"
    }
}

/// What the operator works on.
pub struct MergeMetadataResultsOperatorInput {
    // The materialized log chunk.
    filtered_log: Vec<MaterializedLogEntry>,
    // Offset ids corresponding to the user ids asked for explicitly by the
    // user, ascending.
    user_offset_ids: Option<Vec<u32>>,
    // The offset ids selected by the filters, ascending.
    filtered_offset_ids: Option<Vec<u32>>,
    // The record segment; absent while uninitialized.
    record_segment: Option<RecordSegmentReader>,
    offset: Option<u32>,
    limit: Option<u32>,
    include_metadata: bool,
}

/// The hydrated rows: three vectors of equal length, positionally aligned
/// with the paged window of merged offset ids.
#[derive(Debug)]
pub struct MergeMetadataResultsOperatorOutput {
    pub ids: Vec<String>,
    pub metadata: Vec<Option<Metadata>>,
    pub documents: Vec<Option<String>>,
}

/// The failures the operator surfaces. In the plain-data model only a
/// lookup of a window offset id missing from both log and segment fails.
#[derive(Clone, Copy, Debug, PartialEq, Eq, Structural)]
pub enum MergeMetadataResultsOperatorError {
    RecordSegmentCreationError,
    RecordSegmentReadError,
    MetadataConversionError,
    LogMaterializationError,
}

impl MergeMetadataResultsOperatorInput {
    pub closed spec fn spec_log(&self) -> Seq<MaterializedLogEntry> {
        self.filtered_log@
    }

    pub closed spec fn spec_user_offset_ids(&self) -> Option<Vec<u32>> {
        self.user_offset_ids
    }

    pub closed spec fn spec_filtered_offset_ids(&self) -> Option<Vec<u32>> {
        self.filtered_offset_ids
    }

    pub closed spec fn spec_segment(&self) -> Option<RecordSegmentReader> {
        self.record_segment
    }

    pub closed spec fn spec_offset(&self) -> Option<u32> {
        self.offset
    }

    pub closed spec fn spec_limit(&self) -> Option<u32> {
        self.limit
    }

    pub closed spec fn spec_include_metadata(&self) -> bool {
        self.include_metadata
    }

    /// The segment's offset ids; empty while the segment is uninitialized.
    pub open spec fn seg_ids(&self) -> Seq<u32> {
        match self.spec_segment() {
            Some(r) => r.ids(),
            None => Seq::<u32>::empty(),
        }
    }

    /// The segment record under `o`, if the segment holds one.
    pub open spec fn seg_record(&self, o: u32) -> Option<SegmentRecord> {
        match self.spec_segment() {
            Some(r) => r.seg_record(o),
            None => None,
        }
    }

    /// Membership in the merged candidate list: the intersection when both
    /// lists are given, one list alone when only it is, and the live view
    /// (live log ids and segment ids, without the deleted ones) when
    /// neither is.
    pub open spec fn merged_contains(&self, x: u32) -> bool {
        match (self.spec_filtered_offset_ids(), self.spec_user_offset_ids()) {
            (Some(f), Some(u)) => f@.contains(x) && u@.contains(x),
            (Some(o), None) => o@.contains(x),
            (None, Some(o)) => o@.contains(x),
            (None, None) => (live_log_contains(self.spec_log(), x) || self.seg_ids().contains(x))
                && !deleted_log_contains(self.spec_log(), x),
        }
    }

    /// The input is well formed: segment data sorted, candidate lists
    /// ascending, one materialized entry per offset id, and every entry
    /// able to produce a user id (from the log or from the segment).
    pub open spec fn wf(&self) -> bool {
        &&& match self.spec_segment() {
            Some(r) => r.wf(),
            None => true,
        }
        &&& match self.spec_user_offset_ids() {
            Some(v) => sorted_strict(v@),
            None => true,
        }
        &&& match self.spec_filtered_offset_ids() {
            Some(v) => sorted_strict(v@),
            None => true,
        }
        &&& entries_unique(self.spec_log())
        &&& forall|i: int|
            0 <= i < self.spec_log().len() ==> ((#[trigger] self.spec_log()[i]).user_id is Some
                || self.seg_ids().contains(self.spec_log()[i].offset_id))
    }

    /// How many of the smallest merged offset ids the window drops.
    pub open spec fn skip_count(&self) -> int {
        match self.spec_offset() {
            Some(o) => o as int,
            None => 0,
        }
    }

    /// How many rows the window holds.
    pub open spec fn take_count(&self) -> int {
        match self.spec_limit() {
            Some(l) => l as int,
            None => merged_seq(self).len() as int,
        }
    }

    /// The window must lie within the merged list; a window reaching past
    /// its end is a caller error.
    pub open spec fn window_in_bounds(&self) -> bool {
        self.skip_count() + self.take_count() <= merged_seq(self).len()
    }

    pub fn new(
        filtered_log: Vec<MaterializedLogEntry>,
        user_offset_ids: Option<Vec<u32>>,
        filtered_offset_ids: Option<Vec<u32>>,
        record_segment: Option<RecordSegmentReader>,
        offset: Option<u32>,
        limit: Option<u32>,
        include_metadata: bool,
    ) -> (r: Self)
        ensures
            r.spec_log() == filtered_log@,
            r.spec_user_offset_ids() == user_offset_ids,
            r.spec_filtered_offset_ids() == filtered_offset_ids,
            r.spec_segment() == record_segment,
            r.spec_offset() == offset,
            r.spec_limit() == limit,
            r.spec_include_metadata() == include_metadata,
    {
        Self {
            filtered_log,
            user_offset_ids,
            filtered_offset_ids,
            record_segment,
            offset,
            limit,
            include_metadata,
        }
    }
}

/// `c` is the merged candidate list of this input, as an ascending
/// sequence.
pub open spec fn merged_is(input: &MergeMetadataResultsOperatorInput, c: Seq<u32>) -> bool {
    &&& sorted_strict(c)
    &&& forall|x: u32| #[trigger] c.contains(x) <==> input.merged_contains(x)
}

/// The merged candidate list of this input, as an ascending sequence.
pub open spec fn merged_seq(input: &MergeMetadataResultsOperatorInput) -> Seq<u32> {
    choose|c: Seq<u32>| merged_is(input, c)
}

/// An ascending sequence holding exactly the merged members is the merged
/// sequence.
pub proof fn lemma_merged_seq(input: &MergeMetadataResultsOperatorInput, w: Seq<u32>)
    requires
        merged_is(input, w),
    ensures
        merged_seq(input) == w,
{
    assert(exists|c: Seq<u32>| merged_is(input, c)) by {
        assert(merged_is(input, w));
    }
    let cs = merged_seq(input);
    assert(merged_is(input, cs));
    assert forall|x: u32| cs.contains(x) <==> w.contains(x) by {
        assert(cs.contains(x) <==> input.merged_contains(x));
        assert(w.contains(x) <==> input.merged_contains(x));
    }
    lemma_sorted_unique(cs, w);
}

/// The entry of the materialized log that carries `o`.
pub open spec fn entry_for(entries: Seq<MaterializedLogEntry>, o: u32) -> MaterializedLogEntry {
    entries[choose|i: int| 0 <= i < entries.len() && entries[i].offset_id == o]
}

/// The contents of an optional metadata map.
pub open spec fn opt_meta_view(m: Option<Metadata>) -> Option<Seq<(String, MetadataValue)>> {
    match m {
        Some(v) => Some(v@),
        None => None,
    }
}

/// What one hydrated row must hold for the window offset id at position
/// `j`: the merged log projection when the log touched the id, the bare
/// segment row when only the segment holds it, and empty defaults when
/// neither does (possible only without a segment).
pub open spec fn row_ok(
    input: &MergeMetadataResultsOperatorInput,
    j: int,
    id: String,
    md: Option<Metadata>,
    doc: Option<String>,
) -> bool {
    let oid = merged_seq(input)[input.skip_count() + j];
    if logged_contains(input.spec_log(), oid) {
        let e = entry_for(input.spec_log(), oid);
        let sr = input.seg_record(oid);
        &&& id@ == spec_merged_user_id(e, sr)
        &&& if input.spec_include_metadata() {
            &&& match md {
                Some(m) => m@ == spec_merged_metadata(e, sr) && m@.len() > 0,
                None => spec_merged_metadata(e, sr).len() == 0,
            }
            &&& doc == spec_merged_document(e, sr)
        } else {
            md is None && doc is None
        }
    } else if input.seg_ids().contains(oid) {
        let rec = input.seg_record(oid).unwrap();
        &&& id@ == rec.user_id@
        &&& if input.spec_include_metadata() {
            opt_meta_view(md) == opt_meta_view(rec.metadata) && doc == rec.document
        } else {
            md is None && doc is None
        }
    } else {
        id@ == Seq::<char>::empty() && md is None && doc is None
    }
}

/// The window offset id at position `j` can be hydrated from neither the
/// log nor the segment, while a segment is present: the read fails.
pub open spec fn row_missing(input: &MergeMetadataResultsOperatorInput, j: int) -> bool {
    let oid = merged_seq(input)[input.skip_count() + j];
    &&& !logged_contains(input.spec_log(), oid)
    &&& input.spec_segment() is Some
    &&& !input.seg_ids().contains(oid)
}

/// Some entry among the first `n` materializes `x` without deleting it.
spec fn live_upto(entries: Seq<MaterializedLogEntry>, n: int, x: u32) -> bool {
    exists|j: int|
        0 <= j < n && entries[j].offset_id == x && !(entries[j].final_operation is DeleteExisting)
}

/// Some entry among the first `n` deletes `x`.
spec fn deleted_upto(entries: Seq<MaterializedLogEntry>, n: int, x: u32) -> bool {
    exists|j: int|
        0 <= j < n && entries[j].offset_id == x && entries[j].final_operation is DeleteExisting
}

/// An owned copy of a vector of offset ids.
fn copy_u32_vec(v: &Vec<u32>) -> (r: Vec<u32>)
    ensures
        r@ == v@,
{
    let mut out: Vec<u32> = Vec::new();
    let n = v.len();
    let mut i: usize = 0;
    while i < n
        invariant
            0 <= i <= n,
            n == v@.len(),
            out@ =~= v@.subrange(0, i as int),
        decreases n - i,
    {
        out.push(v[i]);
        proof {
            assert(out@ =~= v@.subrange(0, i as int + 1));
        }
        i = i + 1;
    }
    proof {
        assert(out@ =~= v@);
    }
    out
}

/// Compute the merged candidate list of the input, ascending.
fn compute_merged(input: &MergeMetadataResultsOperatorInput) -> (r: Vec<u32>)
    requires
        input.wf(),
    ensures
        r@ == merged_seq(input),
{
    let merged: Vec<u32> = match (&input.filtered_offset_ids, &input.user_offset_ids) {
        (Some(fids), Some(uids)) => {
            let fb = rb_from_sorted_vec(fids);
            let ub = rb_from_sorted_vec(uids);
            rb_to_vec(&rb_intersection(&fb, &ub))
        },
        (Some(oids), None) => copy_u32_vec(oids),
        (None, Some(oids)) => copy_u32_vec(oids),
        (None, None) => {
            // collect the live and the deleted offset ids of the log
            let mut live_bm = rb_new();
            let mut deleted_bm = rb_new();
            let n = input.filtered_log.len();
            let mut i: usize = 0;
            while i < n
                invariant
                    0 <= i <= n,
                    n == input.filtered_log@.len(),
                    sorted_strict(bitmap_seq(live_bm)),
                    sorted_strict(bitmap_seq(deleted_bm)),
                    forall|x: u32|
                        #[trigger] bitmap_seq(live_bm).contains(x) <==> live_upto(
                            input.filtered_log@,
                            i as int,
                            x,
                        ),
                    forall|x: u32|
                        #[trigger] bitmap_seq(deleted_bm).contains(x) <==> deleted_upto(
                            input.filtered_log@,
                            i as int,
                            x,
                        ),
                decreases n - i,
            {
                let ghost live_before = bitmap_seq(live_bm);
                let ghost deleted_before = bitmap_seq(deleted_bm);
                let e = &input.filtered_log[i];
                if e.final_operation == MaterializedLogOperation::DeleteExisting {
                    rb_insert(&mut deleted_bm, e.offset_id);
                    proof {
                        lemma_insert_sorted(deleted_before, e.offset_id);
                        lemma_insert_contains(deleted_before, e.offset_id);
                        assert forall|x: u32| #[trigger] bitmap_seq(deleted_bm).contains(x)
                            <==> deleted_upto(input.filtered_log@, i as int + 1, x) by {
                            if bitmap_seq(deleted_bm).contains(x) {
                                if x == e.offset_id {
                                    assert(input.filtered_log@[i as int].offset_id == x);
                                }
                            }
                            if deleted_upto(input.filtered_log@, i as int + 1, x) {
                                let j = choose|j: int|
                                    0 <= j < i as int + 1 && input.filtered_log@[j].offset_id == x
                                        && input.filtered_log@[j].final_operation
                                        is DeleteExisting;
                                if j < i as int {
                                    assert(deleted_upto(input.filtered_log@, i as int, x));
                                }
                            }
                        }
                        assert forall|x: u32| #[trigger] bitmap_seq(live_bm).contains(x)
                            <==> live_upto(input.filtered_log@, i as int + 1, x) by {
                            if live_upto(input.filtered_log@, i as int + 1, x) {
                                let j = choose|j: int|
                                    0 <= j < i as int + 1 && input.filtered_log@[j].offset_id == x
                                        && !(input.filtered_log@[j].final_operation
                                        is DeleteExisting);
                                assert(j < i as int);
                            }
                        }
                    }
                } else {
                    rb_insert(&mut live_bm, e.offset_id);
                    proof {
                        lemma_insert_sorted(live_before, e.offset_id);
                        lemma_insert_contains(live_before, e.offset_id);
                        assert forall|x: u32| #[trigger] bitmap_seq(live_bm).contains(x)
                            <==> live_upto(input.filtered_log@, i as int + 1, x) by {
                            if bitmap_seq(live_bm).contains(x) {
                                if x == e.offset_id {
                                    assert(input.filtered_log@[i as int].offset_id == x);
                                }
                            }
                            if live_upto(input.filtered_log@, i as int + 1, x) {
                                let j = choose|j: int|
                                    0 <= j < i as int + 1 && input.filtered_log@[j].offset_id == x
                                        && !(input.filtered_log@[j].final_operation
                                        is DeleteExisting);
                                if j < i as int {
                                    assert(live_upto(input.filtered_log@, i as int, x));
                                }
                            }
                        }
                        assert forall|x: u32| #[trigger] bitmap_seq(deleted_bm).contains(x)
                            <==> deleted_upto(input.filtered_log@, i as int + 1, x) by {
                            if deleted_upto(input.filtered_log@, i as int + 1, x) {
                                let j = choose|j: int|
                                    0 <= j < i as int + 1 && input.filtered_log@[j].offset_id == x
                                        && input.filtered_log@[j].final_operation
                                        is DeleteExisting;
                                assert(j < i as int);
                            }
                        }
                    }
                }
                i = i + 1;
            }
            // join with the segment ids, then strip everything the log
            // deleted
            let unioned = match &input.record_segment {
                Some(reader) => {
                    let seg_vec = reader.get_all_offset_ids();
                    let seg_bm = rb_from_sorted_vec(&seg_vec);
                    rb_union(&live_bm, &seg_bm)
                },
                None => live_bm,
            };
            rb_to_vec(&rb_difference(&unioned, &deleted_bm))
        },
    };
    proof {
        assert forall|x: u32| #[trigger] merged@.contains(x) <==> input.merged_contains(x) by {}
        lemma_merged_seq(input, merged@);
    }
    merged
}

impl MergeMetadataResultsOperator {
    /// Merge the candidate lists with the live view, page the result, and
    /// hydrate each window offset id into its current user-facing row.
    pub fn run(&self, input: &MergeMetadataResultsOperatorInput) -> (r: Result<
        MergeMetadataResultsOperatorOutput,
        MergeMetadataResultsOperatorError,
    >)
        requires
            input.wf(),
            input.window_in_bounds(),
        ensures
            match r {
                Ok(out) => {
                    &&& out.ids@.len() == input.take_count()
                    &&& out.metadata@.len() == input.take_count()
                    &&& out.documents@.len() == input.take_count()
                    &&& forall|j: int|
                        0 <= j < input.take_count() ==> #[trigger] row_ok(
                            input,
                            j,
                            out.ids@[j],
                            out.metadata@[j],
                            out.documents@[j],
                        )
                    &&& !(exists|j: int| 0 <= j < input.take_count() && #[trigger] row_missing(input, j))
                },
                Err(e) => {
                    &&& e == MergeMetadataResultsOperatorError::RecordSegmentReadError
                    &&& exists|j: int| 0 <= j < input.take_count() && #[trigger] row_missing(input, j)
                },
            },
    {
        // merge the candidate offset ids with the live view
        let merged = compute_merged(input);

        // page the merged list
        let skip_count: usize = match input.offset {
            Some(o) => o as usize,
            None => 0,
        };
        let take_count: usize = match input.limit {
            Some(l) => l as usize,
            None => merged.len(),
        };

        // pre-size the output rows
        let mut ids: Vec<String> = Vec::new();
        let mut metadata: Vec<Option<Metadata>> = Vec::new();
        let mut documents: Vec<Option<String>> = Vec::new();
        let mut k: usize = 0;
        while k < take_count
            invariant
                0 <= k <= take_count,
                ids@.len() == k,
                metadata@.len() == k,
                documents@.len() == k,
                forall|j: int| 0 <= j < k ==> (#[trigger] ids@[j])@ == Seq::<char>::empty(),
                forall|j: int| 0 <= j < k ==> (#[trigger] metadata@[j]) is None,
                forall|j: int| 0 <= j < k ==> (#[trigger] documents@[j]) is None,
            decreases take_count - k,
        {
            ids.push(String::new());
            metadata.push(None);
            documents.push(None);
            k = k + 1;
        }

        // hydrate each window position, log data first, segment data for
        // the rest
        let mut k: usize = 0;
        while k < take_count
            invariant
                input.wf(),
                input.window_in_bounds(),
                0 <= k <= take_count,
                merged@ == merged_seq(input),
                skip_count as int == input.skip_count(),
                take_count as int == input.take_count(),
                skip_count + take_count <= merged@.len(),
                ids@.len() == take_count,
                metadata@.len() == take_count,
                documents@.len() == take_count,
                forall|j: int|
                    0 <= j < k ==> #[trigger] row_ok(
                        input,
                        j,
                        ids@[j],
                        metadata@[j],
                        documents@[j],
                    ),
                forall|j: int| 0 <= j < k ==> !(#[trigger] row_missing(input, j)),
                forall|j: int| k <= j < take_count ==> (#[trigger] ids@[j])@ == Seq::<
                    char,
                >::empty(),
                forall|j: int| k <= j < take_count ==> (#[trigger] metadata@[j]) is None,
                forall|j: int| k <= j < take_count ==> (#[trigger] documents@[j]) is None,
            decreases take_count - k,
        {
            let oid = merged[skip_count + k];
            match find_entry(&input.filtered_log, oid) {
                Some(ei) => {
                    let entry = &input.filtered_log[ei];
                    let seg_rec: Option<&SegmentRecord> = match &input.record_segment {
                        Some(reader) => reader.get_data_for_offset_id(oid),
                        None => None,
                    };
                    proof {
                        // the found entry is the entry of this offset id
                        let ci = choose|i: int|
                            0 <= i < input.spec_log().len() && input.spec_log()[i].offset_id
                                == oid;
                        assert(input.spec_log()[ci].offset_id == oid);
                        if ci != ei as int {
                            assert(input.spec_log()[ci].offset_id != input.spec_log()[
                            ei as int].offset_id);
                        }
                        assert(entry_for(input.spec_log(), oid) == input.spec_log()[ei as int]);
                        // the entry can always produce a user id
                        assert(input.spec_log()[ei as int].user_id is Some
                            || input.seg_ids().contains(input.spec_log()[ei as int].offset_id));
                    }
                    let row_id = merged_user_id(entry, seg_rec);
                    ids.set(k, row_id);
                    if input.include_metadata {
                        let mm = merged_metadata(entry, seg_rec);
                        if mm.len() > 0 {
                            metadata.set(k, Some(mm));
                        } else {
                            metadata.set(k, None);
                        }
                        documents.set(k, merged_document(entry, seg_rec));
                    }
                    proof {
                        assert(row_ok(input, k as int, ids@[k as int], metadata@[k as int], documents@[k as int]));
                    }
                },
                None => {
                    match &input.record_segment {
                        Some(reader) => {
                            match reader.get_data_for_offset_id(oid) {
                                Some(rec) => {
                                    ids.set(k, rec.user_id.clone());
                                    if input.include_metadata {
                                        let md = match &rec.metadata {
                                            Some(m) => Some(dup_metadata(m)),
                                            None => None,
                                        };
                                        metadata.set(k, md);
                                        let doc = match &rec.document {
                                            Some(d) => Some(d.clone()),
                                            None => None,
                                        };
                                        documents.set(k, doc);
                                    }
                                    proof {
                                        assert(row_ok(input, k as int, ids@[k as int], metadata@[k as int], documents@[k as int]));
                                    }
                                },
                                None => {
                                    proof {
                                        assert(row_missing(input, k as int));
                                    }
                                    return Err(
                                        MergeMetadataResultsOperatorError::RecordSegmentReadError,
                                    );
                                },
                            }
                        },
                        None => {
                            proof {
                                assert(row_ok(input, k as int, ids@[k as int], metadata@[k as int], documents@[k as int]));
                            }
                        },
                    }
                },
            }
            k = k + 1;
        }

        Ok(MergeMetadataResultsOperatorOutput { ids, metadata, documents })
    }
}

} // verus!
