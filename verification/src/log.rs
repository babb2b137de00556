//! Materialized log entries and their merge-over-segment projections.
//!
//! A materialized entry is the terminal state of all in-chunk mutations for
//! one offset id. Hydration overlays it on the segment row for the same id:
//! the log's user id wins, metadata updates are applied key by key on top of
//! the segment metadata, and the log's document replaces the segment's.

use vstd::pervasive::VecAdditionalExecFns;
use vstd::prelude::*;

use crate::segment::Metadata;
use crate::segment::MetadataValue;
use crate::segment::SegmentRecord;

verus! {

/// The terminal operation for an offset id after collapsing its in-chunk
/// mutations.
#[derive(Clone, Copy, Debug, PartialEq, Eq, Structural)]
pub enum MaterializedLogOperation {
    Add,
    UpdateExisting,
    OverwriteExisting,
    DeleteExisting,
}

/// The materialized state of one offset id in the log chunk.
pub struct MaterializedLogEntry {
    pub offset_id: u32,
    pub final_operation: MaterializedLogOperation,
    /// The user id carried by the log, if the chunk assigned one.
    pub user_id: Option<String>,
    /// The metadata updates of the chunk, in application order.
    pub metadata_updates: Vec<(String, MetadataValue)>,
    /// The document carried by the log, if the chunk set one.
    pub document: Option<String>,
}

/// Some entry materializes `x`.
pub open spec fn logged_contains(entries: Seq<MaterializedLogEntry>, x: u32) -> bool {
    exists|i: int| 0 <= i < entries.len() && entries[i].offset_id == x
}

/// Some entry materializes `x` and does not delete it.
pub open spec fn live_log_contains(entries: Seq<MaterializedLogEntry>, x: u32) -> bool {
    exists|i: int|
        0 <= i < entries.len() && entries[i].offset_id == x && !(entries[i].final_operation
            is DeleteExisting)
}

/// Some entry deletes `x`.
pub open spec fn deleted_log_contains(entries: Seq<MaterializedLogEntry>, x: u32) -> bool {
    exists|i: int|
        0 <= i < entries.len() && entries[i].offset_id == x && entries[i].final_operation
            is DeleteExisting
}

/// No two entries materialize the same offset id.
pub open spec fn entries_unique(entries: Seq<MaterializedLogEntry>) -> bool {
    forall|i: int, j: int|
        0 <= i < j < entries.len() ==> entries[i].offset_id != entries[j].offset_id
}

/// An owned copy of an optional segment record, for use in contracts.
pub open spec fn opt_record(seg: Option<&SegmentRecord>) -> Option<SegmentRecord> {
    match seg {
        Some(r) => Some(*r),
        None => None,
    }
}

/// Replace the value under `k`, or append the pair when `k` is absent.
pub open spec fn spec_upsert(
    m: Seq<(String, MetadataValue)>,
    k: String,
    v: MetadataValue,
) -> Seq<(String, MetadataValue)>
    decreases m.len(),
{
    if m.len() == 0 {
        seq![(k, v)]
    } else if m[0].0@ == k@ {
        seq![(k, v)] + m.drop_first()
    } else {
        seq![m[0]] + spec_upsert(m.drop_first(), k, v)
    }
}

/// Apply a sequence of updates in order.
pub open spec fn spec_apply_updates(
    base: Seq<(String, MetadataValue)>,
    updates: Seq<(String, MetadataValue)>,
) -> Seq<(String, MetadataValue)>
    decreases updates.len(),
{
    if updates.len() == 0 {
        base
    } else {
        spec_apply_updates(spec_upsert(base, updates[0].0, updates[0].1), updates.drop_first())
    }
}

/// The user id a hydrated row shows: the log's when it carries one, else
/// the segment's.
pub open spec fn spec_merged_user_id(e: MaterializedLogEntry, seg: Option<SegmentRecord>) -> Seq<
    char,
> {
    match e.user_id {
        Some(u) => u@,
        None => match seg {
            Some(r) => r.user_id@,
            None => Seq::<char>::empty(),
        },
    }
}

/// The metadata a hydrated row shows: the segment metadata, if any, with the
/// log's updates applied key by key.
pub open spec fn spec_merged_metadata(e: MaterializedLogEntry, seg: Option<SegmentRecord>) -> Seq<
    (String, MetadataValue),
> {
    let base = match seg {
        Some(r) => match r.metadata {
            Some(m) => m@,
            None => Seq::<(String, MetadataValue)>::empty(),
        },
        None => Seq::<(String, MetadataValue)>::empty(),
    };
    spec_apply_updates(base, e.metadata_updates@)
}

/// The document a hydrated row shows: the log's when it carries one, else
/// the segment's.
pub open spec fn spec_merged_document(e: MaterializedLogEntry, seg: Option<SegmentRecord>) -> Option<
    String,
> {
    match e.document {
        Some(_) => e.document,
        None => match seg {
            Some(r) => r.document,
            None => None,
        },
    }
}

/// An owned copy of a metadata value.
pub fn dup_value(v: &MetadataValue) -> (r: MetadataValue)
    ensures
        r == *v,
{
    match v {
        MetadataValue::Bool(b) => MetadataValue::Bool(*b),
        MetadataValue::Int(i) => MetadataValue::Int(*i),
        MetadataValue::Str(s) => MetadataValue::Str(s.clone()),
    }
}

/// An owned copy of a metadata map.
pub fn dup_metadata(m: &Metadata) -> (r: Metadata)
    ensures
        r@ == m@,
{
    let mut out: Metadata = Vec::new();
    let n = m.len();
    let mut i: usize = 0;
    while i < n
        invariant
            0 <= i <= n,
            n == m@.len(),
            out@ =~= m@.subrange(0, i as int),
        decreases n - i,
    {
        let pair = &m[i];
        out.push((pair.0.clone(), dup_value(&pair.1)));
        proof {
            assert(out@ =~= m@.subrange(0, i as int + 1));
        }
        i = i + 1;
    }
    proof {
        assert(out@ =~= m@);
    }
    out
}

/// Replacing the first pair under an existing key is an update in place.
proof fn lemma_upsert_found(m: Seq<(String, MetadataValue)>, k: String, v: MetadataValue, i: int)
    requires
        0 <= i < m.len(),
        m[i].0@ == k@,
        forall|j: int| 0 <= j < i ==> #[trigger] m[j].0@ != k@,
    ensures
        spec_upsert(m, k, v) =~= m.update(i, (k, v)),
    decreases m.len(),
{
    if i == 0 {
        assert(spec_upsert(m, k, v) == seq![(k, v)] + m.drop_first());
        assert(seq![(k, v)] + m.drop_first() =~= m.update(0, (k, v)));
    } else {
        assert(m[0].0@ != k@);
        assert forall|j: int| 0 <= j < i - 1 implies #[trigger] m.drop_first()[j].0@ != k@ by {
            assert(m.drop_first()[j] == m[j + 1]);
        }
        assert(m.drop_first()[i - 1] == m[i]);
        lemma_upsert_found(m.drop_first(), k, v, i - 1);
        assert(seq![m[0]] + m.drop_first().update(i - 1, (k, v)) =~= m.update(i, (k, v)));
    }
}

/// With no pair under the key, an upsert appends.
proof fn lemma_upsert_absent(m: Seq<(String, MetadataValue)>, k: String, v: MetadataValue)
    requires
        forall|j: int| 0 <= j < m.len() ==> #[trigger] m[j].0@ != k@,
    ensures
        spec_upsert(m, k, v) =~= m.push((k, v)),
    decreases m.len(),
{
    if m.len() == 0 {
        assert(seq![(k, v)] =~= m.push((k, v)));
    } else {
        assert(m[0].0@ != k@);
        assert forall|j: int| 0 <= j < m.drop_first().len() implies #[trigger] m.drop_first()[j].0@
            != k@ by {
            assert(m.drop_first()[j] == m[j + 1]);
        }
        lemma_upsert_absent(m.drop_first(), k, v);
        assert(seq![m[0]] + m.drop_first().push((k, v)) =~= m.push((k, v)));
    }
}

/// Set `k` to `v` in the map, replacing the first pair under `k` or
/// appending one.
pub fn meta_upsert(m: &mut Metadata, k: &String, v: &MetadataValue)
    ensures
        final(m)@ == spec_upsert(old(m)@, *k, *v),
{
    let n = m.len();
    let mut i: usize = 0;
    while i < n
        invariant
            0 <= i <= n,
            n == m@.len(),
            *m == *old(m),
            forall|j: int| 0 <= j < i ==> #[trigger] m@[j].0@ != k@,
        decreases n - i,
    {
        if m[i].0 == *k {
            let kk = k.clone();
            let vv = dup_value(v);
            proof {
                lemma_upsert_found(m@, *k, *v, i as int);
                assert((kk, vv) == (*k, *v));
            }
            m.set(i, (kk, vv));
            return ;
        }
        i = i + 1;
    }
    proof {
        lemma_upsert_absent(m@, *k, *v);
    }
    m.push((k.clone(), dup_value(v)));
}

/// The hydrated user id for a window row backed by a log entry.
pub fn merged_user_id(e: &MaterializedLogEntry, seg: Option<&SegmentRecord>) -> (r: String)
    requires
        e.user_id is Some || opt_record(seg) is Some,
    ensures
        r@ == spec_merged_user_id(*e, opt_record(seg)),
{
    match &e.user_id {
        Some(u) => u.clone(),
        None => match seg {
            Some(rec) => rec.user_id.clone(),
            None => String::new(),
        },
    }
}

/// The hydrated metadata for a window row backed by a log entry.
pub fn merged_metadata(e: &MaterializedLogEntry, seg: Option<&SegmentRecord>) -> (r: Metadata)
    ensures
        r@ == spec_merged_metadata(*e, opt_record(seg)),
{
    let mut out: Metadata = match seg {
        Some(rec) => match &rec.metadata {
            Some(m) => dup_metadata(m),
            None => Vec::new(),
        },
        None => Vec::new(),
    };
    let ghost base = out@;
    let ghost updates = e.metadata_updates@;
    proof {
        assert(updates.subrange(0, updates.len() as int) =~= updates);
    }
    let n = e.metadata_updates.len();
    let mut i: usize = 0;
    while i < n
        invariant
            0 <= i <= n,
            n == updates.len(),
            updates == e.metadata_updates@,
            spec_apply_updates(out@, updates.subrange(i as int, updates.len() as int))
                == spec_apply_updates(base, updates),
        decreases n - i,
    {
        let ghost before = out@;
        let pair = &e.metadata_updates[i];
        meta_upsert(&mut out, &pair.0, &pair.1);
        proof {
            let rest = updates.subrange(i as int, updates.len() as int);
            assert(rest[0] == updates[i as int]);
            assert(rest.drop_first() =~= updates.subrange(i as int + 1, updates.len() as int));
            assert(spec_apply_updates(before, rest) == spec_apply_updates(
                spec_upsert(before, rest[0].0, rest[0].1),
                rest.drop_first(),
            ));
        }
        i = i + 1;
    }
    proof {
        assert(updates.subrange(n as int, updates.len() as int) =~= Seq::<
            (String, MetadataValue),
        >::empty());
        assert(spec_apply_updates(out@, Seq::<(String, MetadataValue)>::empty()) == out@);
    }
    out
}

/// The hydrated document for a window row backed by a log entry.
pub fn merged_document(e: &MaterializedLogEntry, seg: Option<&SegmentRecord>) -> (r: Option<String>)
    ensures
        r == spec_merged_document(*e, opt_record(seg)),
{
    match &e.document {
        Some(d) => Some(d.clone()),
        None => match seg {
            Some(rec) => match &rec.document {
                Some(d) => Some(d.clone()),
                None => None,
            },
            None => None,
        },
    }
}

/// Find the entry materializing `o`, if any.
pub fn find_entry(entries: &Vec<MaterializedLogEntry>, o: u32) -> (r: Option<usize>)
    ensures
        match r {
            Some(i) => i < entries@.len() && entries@[i as int].offset_id == o,
            None => !logged_contains(entries@, o),
        },
{
    let n = entries.len();
    let mut i: usize = 0;
    while i < n
        invariant
            0 <= i <= n,
            n == entries@.len(),
            forall|j: int| 0 <= j < i ==> #[trigger] entries@[j].offset_id != o,
        decreases n - i,
    {
        if entries[i].offset_id == o {
            return Some(i);
        }
        i = i + 1;
    }
    None
}

} // verus!
