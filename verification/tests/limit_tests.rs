use limit_hydrate::bitmap::SignedRoaringBitmap;
use limit_hydrate::limit::LimitInput;
use limit_hydrate::limit::LimitOperator;
use limit_hydrate::log::MaterializedLogEntry;
use limit_hydrate::log::MaterializedLogOperation;
use limit_hydrate::segment::RecordSegmentReader;
use limit_hydrate::segment::SegmentRecord;
use roaring::RoaringBitmap;

fn bm(vals: &[u32]) -> RoaringBitmap {
    RoaringBitmap::from_sorted_iter(vals.iter().copied()).unwrap()
}

fn seg_from_ids(ids: &[u32], max: u32) -> RecordSegmentReader {
    let records = ids
        .iter()
        .map(|&o| SegmentRecord {
            offset_id: o,
            user_id: format!("user_{}", o),
            metadata: None,
            document: None,
        })
        .collect();
    RecordSegmentReader::new(records, max)
}

fn add_entry(offset_id: u32, user: &str) -> MaterializedLogEntry {
    MaterializedLogEntry {
        offset_id,
        final_operation: MaterializedLogOperation::Add,
        user_id: Some(user.to_string()),
        metadata_updates: Vec::new(),
        document: None,
    }
}

fn delete_entry(offset_id: u32) -> MaterializedLogEntry {
    MaterializedLogEntry {
        offset_id,
        final_operation: MaterializedLogOperation::DeleteExisting,
        user_id: None,
        metadata_updates: Vec::new(),
        document: None,
    }
}

fn run_limit(op: &LimitOperator, input: &LimitInput) -> Vec<u32> {
    op.run(input).unwrap().offset_ids.iter().collect()
}

#[test]
fn pure_segment_fetch_window() {
    let input = LimitInput {
        logs: Vec::new(),
        segments: Some(seg_from_ids(&[1, 2, 3, 4, 5], 5)),
        log_offset_ids: SignedRoaringBitmap::Include(bm(&[])),
        compact_offset_ids: SignedRoaringBitmap::Include(bm(&[1, 2, 3, 4, 5])),
    };
    let op = LimitOperator { skip: 2, fetch: Some(2) };
    assert_eq!(run_limit(&op, &input), vec![3, 4]);
}

#[test]
fn exclude_mask_with_segment() {
    let input = LimitInput {
        logs: Vec::new(),
        segments: Some(seg_from_ids(&[1, 2, 3, 4, 5, 6, 7, 8, 9, 10], 10)),
        log_offset_ids: SignedRoaringBitmap::Exclude(bm(&[])),
        compact_offset_ids: SignedRoaringBitmap::Exclude(bm(&[3, 5, 7])),
    };
    let op = LimitOperator { skip: 1, fetch: Some(3) };
    assert_eq!(run_limit(&op, &input), vec![2, 4, 6]);
}

#[test]
fn paginate_across_boundary() {
    // conceptual order is [5, 10, 20, 25] with 15 masked out
    let input = LimitInput {
        logs: Vec::new(),
        segments: Some(seg_from_ids(&[5, 15, 25], 25)),
        log_offset_ids: SignedRoaringBitmap::Include(bm(&[10, 20])),
        compact_offset_ids: SignedRoaringBitmap::Exclude(bm(&[15])),
    };
    let op = LimitOperator { skip: 1, fetch: Some(2) };
    assert_eq!(run_limit(&op, &input), vec![10, 20]);
}

#[test]
fn skip_reaches_last_segment_element() {
    // the window starts exactly at the largest assigned offset id
    let input = LimitInput {
        logs: Vec::new(),
        segments: Some(seg_from_ids(&[1, 2], 2)),
        log_offset_ids: SignedRoaringBitmap::Include(bm(&[])),
        compact_offset_ids: SignedRoaringBitmap::Exclude(bm(&[])),
    };
    let op = LimitOperator { skip: 1, fetch: Some(1) };
    assert_eq!(run_limit(&op, &input), vec![2]);
}

#[test]
fn output_sorted_and_bounded() {
    let input = LimitInput {
        logs: Vec::new(),
        segments: Some(seg_from_ids(&[2, 4, 6, 8], 8)),
        log_offset_ids: SignedRoaringBitmap::Include(bm(&[1, 5, 9])),
        compact_offset_ids: SignedRoaringBitmap::Exclude(bm(&[4])),
    };
    let op = LimitOperator { skip: 0, fetch: Some(4) };
    let out = run_limit(&op, &input);
    assert!(out.len() <= 4);
    assert!(out.windows(2).all(|w| w[0] < w[1]));
    assert_eq!(out, vec![1, 2, 5, 6]);
}

#[test]
fn identical_inputs_identical_bitmaps() {
    let make_input = || LimitInput {
        logs: vec![add_entry(11, "k"), delete_entry(3)],
        segments: Some(seg_from_ids(&[3, 6, 9], 9)),
        log_offset_ids: SignedRoaringBitmap::Exclude(bm(&[6])),
        compact_offset_ids: SignedRoaringBitmap::Include(bm(&[6, 9])),
    };
    let op = LimitOperator { skip: 1, fetch: None };
    let first = op.run(&make_input()).unwrap().offset_ids;
    let second = op.run(&make_input()).unwrap().offset_ids;
    assert_eq!(first, second);
}

#[test]
fn include_empty_log_side_is_identity() {
    // an empty Include log side leaves the compact side unchanged after
    // skip and fetch
    let input = LimitInput {
        logs: Vec::new(),
        segments: None,
        log_offset_ids: SignedRoaringBitmap::Include(bm(&[])),
        compact_offset_ids: SignedRoaringBitmap::Include(bm(&[2, 4, 6, 8, 10])),
    };
    let op = LimitOperator { skip: 1, fetch: Some(3) };
    assert_eq!(run_limit(&op, &input), vec![4, 6, 8]);
}

#[test]
fn exclude_without_segment_pages_log_side() {
    let input = LimitInput {
        logs: Vec::new(),
        segments: None,
        log_offset_ids: SignedRoaringBitmap::Include(bm(&[7, 9])),
        compact_offset_ids: SignedRoaringBitmap::Exclude(bm(&[])),
    };
    let op = LimitOperator { skip: 1, fetch: None };
    assert_eq!(run_limit(&op, &input), vec![9]);
}

#[test]
fn exclude_log_side_drops_deleted_and_excluded() {
    // active domain is {4, 8}; excluding 8 leaves {4}
    let input = LimitInput {
        logs: vec![add_entry(4, "d"), delete_entry(6), add_entry(8, "h")],
        segments: None,
        log_offset_ids: SignedRoaringBitmap::Exclude(bm(&[8])),
        compact_offset_ids: SignedRoaringBitmap::Include(bm(&[])),
    };
    let op = LimitOperator { skip: 0, fetch: None };
    assert_eq!(run_limit(&op, &input), vec![4]);
}

#[test]
fn fetch_none_returns_everything_after_skip() {
    let input = LimitInput {
        logs: Vec::new(),
        segments: Some(seg_from_ids(&[1, 3, 5, 7, 9], 9)),
        log_offset_ids: SignedRoaringBitmap::Include(bm(&[2])),
        compact_offset_ids: SignedRoaringBitmap::Exclude(bm(&[5])),
    };
    let op = LimitOperator { skip: 2, fetch: None };
    assert_eq!(run_limit(&op, &input), vec![3, 7, 9]);
}

#[test]
fn skip_past_everything_is_empty() {
    let input = LimitInput {
        logs: Vec::new(),
        segments: Some(seg_from_ids(&[1, 2, 3], 3)),
        log_offset_ids: SignedRoaringBitmap::Include(bm(&[])),
        compact_offset_ids: SignedRoaringBitmap::Exclude(bm(&[])),
    };
    let op = LimitOperator { skip: 10, fetch: Some(5) };
    assert_eq!(run_limit(&op, &input), Vec::<u32>::new());
}
