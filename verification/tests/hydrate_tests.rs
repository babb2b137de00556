use std::collections::HashMap;

use limit_hydrate::log::MaterializedLogEntry;
use limit_hydrate::log::MaterializedLogOperation;
use limit_hydrate::merge_metadata_results::MergeMetadataResultsOperator;
use limit_hydrate::merge_metadata_results::MergeMetadataResultsOperatorError;
use limit_hydrate::merge_metadata_results::MergeMetadataResultsOperatorInput;
use limit_hydrate::segment::Metadata;
use limit_hydrate::segment::MetadataValue;
use limit_hydrate::segment::RecordSegmentReader;
use limit_hydrate::segment::SegmentRecord;

fn str_meta(pairs: &[(&str, &str)]) -> Metadata {
    pairs
        .iter()
        .map(|(k, v)| (k.to_string(), MetadataValue::Str(v.to_string())))
        .collect()
}

fn meta_get<'a>(m: &'a Metadata, key: &str) -> Option<&'a MetadataValue> {
    for (k, v) in m.iter() {
        if k == key {
            return Some(v);
        }
    }
    None
}

/// A compacted segment of two rows: offset 1 holds "embedding_id_1" with
/// {hello: world, bye: world} and the cats document, offset 2 holds
/// "embedding_id_2" with the same metadata and the dogs document.
fn two_record_segment() -> RecordSegmentReader {
    let records = vec![
        SegmentRecord {
            offset_id: 1,
            user_id: "embedding_id_1".to_string(),
            metadata: Some(str_meta(&[("hello", "world"), ("bye", "world")])),
            document: Some("This is a document about cats.".to_string()),
        },
        SegmentRecord {
            offset_id: 2,
            user_id: "embedding_id_2".to_string(),
            metadata: Some(str_meta(&[("hello", "world"), ("bye", "world")])),
            document: Some("This is a document about dogs.".to_string()),
        },
    ];
    RecordSegmentReader::new(records, 2)
}

/// A materialized log chunk on top of that segment: an Add of offset 3 as
/// "embedding_id_3" with the dogs document, and an Update of offset 1
/// setting {hello: new_world, hello_again: new_world}.
fn second_chunk_entries() -> Vec<MaterializedLogEntry> {
    vec![
        MaterializedLogEntry {
            offset_id: 3,
            final_operation: MaterializedLogOperation::Add,
            user_id: Some("embedding_id_3".to_string()),
            metadata_updates: str_meta(&[("hello", "new_world"), ("hello_again", "new_world")]),
            document: Some("This is a document about dogs.".to_string()),
        },
        MaterializedLogEntry {
            offset_id: 1,
            final_operation: MaterializedLogOperation::UpdateExisting,
            user_id: None,
            metadata_updates: str_meta(&[("hello", "new_world"), ("hello_again", "new_world")]),
            document: None,
        },
    ]
}

#[test]
fn test_merge_and_hydrate() {
    let op = MergeMetadataResultsOperator::new();
    let input = MergeMetadataResultsOperatorInput::new(
        second_chunk_entries(),
        Some(vec![1, 3]),
        Some(vec![1, 2, 3]),
        Some(two_record_segment()),
        None,
        None,
        true,
    );
    let output = op.run(&input).expect("Error running operator");
    assert_eq!(2, output.ids.len());
    let mut id_to_data: HashMap<&String, (&Option<String>, &Option<Metadata>)> = HashMap::new();
    id_to_data.insert(
        output.ids.get(0).expect("Not none key"),
        (
            output.documents.get(0).expect("Not none value"),
            output.metadata.get(0).expect("Not none value"),
        ),
    );
    id_to_data.insert(
        output.ids.get(1).expect("Not none key"),
        (
            output.documents.get(1).expect("Not none value"),
            output.metadata.get(1).expect("Not none value"),
        ),
    );
    let mut ids_sorted = output.ids.clone();
    ids_sorted.sort();
    assert_eq!(
        *ids_sorted.get(0).expect("Expected not none id"),
        String::from("embedding_id_1")
    );
    assert_eq!(
        *ids_sorted.get(1).expect("Expected not none id"),
        String::from("embedding_id_3")
    );
    assert_eq!(id_to_data.contains_key(&String::from("embedding_id_1")), true);
    assert_eq!(id_to_data.contains_key(&String::from("embedding_id_3")), true);
    assert_eq!(
        meta_get(
            id_to_data
                .get(&String::from("embedding_id_1"))
                .as_ref()
                .expect("Expected value")
                .1
                .as_ref()
                .expect("Expected not none"),
            "hello",
        )
        .expect("Expected key to be present"),
        &MetadataValue::Str(String::from("new_world"))
    );
    assert_eq!(
        meta_get(
            id_to_data
                .get(&String::from("embedding_id_1"))
                .as_ref()
                .expect("Expected value")
                .1
                .as_ref()
                .expect("Expected not none"),
            "bye",
        )
        .expect("Expected key to be present"),
        &MetadataValue::Str(String::from("world"))
    );
    assert_eq!(
        meta_get(
            id_to_data
                .get(&String::from("embedding_id_1"))
                .as_ref()
                .expect("Expected value")
                .1
                .as_ref()
                .expect("Expected not none"),
            "hello_again",
        )
        .expect("Expected key to be present"),
        &MetadataValue::Str(String::from("new_world"))
    );
    assert_eq!(
        meta_get(
            id_to_data
                .get(&String::from("embedding_id_3"))
                .as_ref()
                .expect("Expected value")
                .1
                .as_ref()
                .expect("Expected not none"),
            "hello",
        )
        .expect("Expected key to be present"),
        &MetadataValue::Str(String::from("new_world"))
    );
    assert_eq!(
        meta_get(
            id_to_data
                .get(&String::from("embedding_id_3"))
                .as_ref()
                .expect("Expected value")
                .1
                .as_ref()
                .expect("Expected not none"),
            "hello_again",
        )
        .expect("Expected key to be present"),
        &MetadataValue::Str(String::from("new_world"))
    );
    assert_eq!(
        id_to_data
            .get(&String::from("embedding_id_1"))
            .as_ref()
            .expect("Expected value")
            .0
            .as_ref()
            .expect("Expected not none"),
        &String::from("This is a document about cats.")
    );
    assert_eq!(
        id_to_data
            .get(&String::from("embedding_id_3"))
            .as_ref()
            .expect("Expected value")
            .0
            .as_ref()
            .expect("Expected not none"),
        &String::from("This is a document about dogs.")
    );
}

#[test]
fn test_merge_and_hydrate_full_scan() {
    let op = MergeMetadataResultsOperator::new();
    let input = MergeMetadataResultsOperatorInput::new(
        second_chunk_entries(),
        None,
        None,
        Some(two_record_segment()),
        None,
        None,
        true,
    );
    let output = op.run(&input).expect("Error running operator");
    assert_eq!(3, output.ids.len());
    let mut id_to_data: HashMap<&String, (&Option<String>, &Option<Metadata>)> = HashMap::new();
    id_to_data.insert(
        output.ids.get(0).expect("Not none key"),
        (
            output.documents.get(0).expect("Not none value"),
            output.metadata.get(0).expect("Not none value"),
        ),
    );
    id_to_data.insert(
        output.ids.get(1).expect("Not none key"),
        (
            output.documents.get(1).expect("Not none value"),
            output.metadata.get(1).expect("Not none value"),
        ),
    );
    id_to_data.insert(
        output.ids.get(2).expect("Not none key"),
        (
            output.documents.get(2).expect("Not none value"),
            output.metadata.get(2).expect("Not none value"),
        ),
    );
    let mut ids_sorted = output.ids.clone();
    ids_sorted.sort();
    assert_eq!(
        *ids_sorted.get(0).expect("Expected not none id"),
        String::from("embedding_id_1")
    );
    assert_eq!(
        *ids_sorted.get(1).expect("Expected not none id"),
        String::from("embedding_id_2")
    );
    assert_eq!(
        *ids_sorted.get(2).expect("Expected not none id"),
        String::from("embedding_id_3")
    );
    assert_eq!(id_to_data.contains_key(&String::from("embedding_id_1")), true);
    assert_eq!(id_to_data.contains_key(&String::from("embedding_id_2")), true);
    assert_eq!(id_to_data.contains_key(&String::from("embedding_id_3")), true);
    assert_eq!(
        meta_get(
            id_to_data
                .get(&String::from("embedding_id_1"))
                .as_ref()
                .expect("Expected value")
                .1
                .as_ref()
                .expect("Expected not none"),
            "hello",
        )
        .expect("Expected key to be present"),
        &MetadataValue::Str(String::from("new_world"))
    );
    assert_eq!(
        meta_get(
            id_to_data
                .get(&String::from("embedding_id_1"))
                .as_ref()
                .expect("Expected value")
                .1
                .as_ref()
                .expect("Expected not none"),
            "bye",
        )
        .expect("Expected key to be present"),
        &MetadataValue::Str(String::from("world"))
    );
    assert_eq!(
        meta_get(
            id_to_data
                .get(&String::from("embedding_id_1"))
                .as_ref()
                .expect("Expected value")
                .1
                .as_ref()
                .expect("Expected not none"),
            "hello_again",
        )
        .expect("Expected key to be present"),
        &MetadataValue::Str(String::from("new_world"))
    );
    assert_eq!(
        meta_get(
            id_to_data
                .get(&String::from("embedding_id_2"))
                .as_ref()
                .expect("Expected value")
                .1
                .as_ref()
                .expect("Expected not none"),
            "hello",
        )
        .expect("Expected key to be present"),
        &MetadataValue::Str(String::from("world"))
    );
    assert_eq!(
        meta_get(
            id_to_data
                .get(&String::from("embedding_id_2"))
                .as_ref()
                .expect("Expected value")
                .1
                .as_ref()
                .expect("Expected not none"),
            "bye",
        )
        .expect("Expected key to be present"),
        &MetadataValue::Str(String::from("world"))
    );
    assert_eq!(
        meta_get(
            id_to_data
                .get(&String::from("embedding_id_3"))
                .as_ref()
                .expect("Expected value")
                .1
                .as_ref()
                .expect("Expected not none"),
            "hello",
        )
        .expect("Expected key to be present"),
        &MetadataValue::Str(String::from("new_world"))
    );
    assert_eq!(
        meta_get(
            id_to_data
                .get(&String::from("embedding_id_3"))
                .as_ref()
                .expect("Expected value")
                .1
                .as_ref()
                .expect("Expected not none"),
            "hello_again",
        )
        .expect("Expected key to be present"),
        &MetadataValue::Str(String::from("new_world"))
    );
    assert_eq!(
        id_to_data
            .get(&String::from("embedding_id_1"))
            .as_ref()
            .expect("Expected value")
            .0
            .as_ref()
            .expect("Expected not none"),
        &String::from("This is a document about cats.")
    );
    assert_eq!(
        id_to_data
            .get(&String::from("embedding_id_2"))
            .as_ref()
            .expect("Expected value")
            .0
            .as_ref()
            .expect("Expected not none"),
        &String::from("This is a document about dogs.")
    );
    assert_eq!(
        id_to_data
            .get(&String::from("embedding_id_3"))
            .as_ref()
            .expect("Expected value")
            .0
            .as_ref()
            .expect("Expected not none"),
        &String::from("This is a document about dogs.")
    );
}

#[test]
fn log_overlay_add_appears_in_full_scan() {
    let segment = RecordSegmentReader::new(
        vec![
            SegmentRecord {
                offset_id: 1,
                user_id: "a".to_string(),
                metadata: None,
                document: None,
            },
            SegmentRecord {
                offset_id: 2,
                user_id: "b".to_string(),
                metadata: None,
                document: None,
            },
        ],
        2,
    );
    let logs = vec![MaterializedLogEntry {
        offset_id: 3,
        final_operation: MaterializedLogOperation::Add,
        user_id: Some("c".to_string()),
        metadata_updates: Vec::new(),
        document: None,
    }];
    let op = MergeMetadataResultsOperator::new();
    let input = MergeMetadataResultsOperatorInput::new(
        logs,
        None,
        None,
        Some(segment),
        None,
        None,
        true,
    );
    let output = op.run(&input).expect("Error running operator");
    let mut ids_sorted = output.ids.clone();
    ids_sorted.sort();
    assert_eq!(ids_sorted, vec!["a".to_string(), "b".to_string(), "c".to_string()]);
}

#[test]
fn log_update_wins_on_metadata() {
    let segment = RecordSegmentReader::new(
        vec![SegmentRecord {
            offset_id: 1,
            user_id: "embedding_id_1".to_string(),
            metadata: Some(str_meta(&[("hello", "world"), ("bye", "world")])),
            document: Some("This is a document about cats.".to_string()),
        }],
        1,
    );
    let logs = vec![MaterializedLogEntry {
        offset_id: 1,
        final_operation: MaterializedLogOperation::UpdateExisting,
        user_id: None,
        metadata_updates: str_meta(&[("hello", "new_world"), ("hello_again", "new_world")]),
        document: None,
    }];
    let op = MergeMetadataResultsOperator::new();
    let input = MergeMetadataResultsOperatorInput::new(
        logs,
        None,
        Some(vec![1]),
        Some(segment),
        None,
        None,
        true,
    );
    let output = op.run(&input).expect("Error running operator");
    assert_eq!(output.ids, vec!["embedding_id_1".to_string()]);
    let md = output.metadata[0].as_ref().expect("Expected not none");
    assert_eq!(
        meta_get(md, "hello").expect("Expected key to be present"),
        &MetadataValue::Str(String::from("new_world"))
    );
    assert_eq!(
        meta_get(md, "bye").expect("Expected key to be present"),
        &MetadataValue::Str(String::from("world"))
    );
    assert_eq!(
        meta_get(md, "hello_again").expect("Expected key to be present"),
        &MetadataValue::Str(String::from("new_world"))
    );
    assert_eq!(
        output.documents[0].as_ref().expect("Expected not none"),
        &"This is a document about cats.".to_string()
    );
}

#[test]
fn intersection_of_candidates() {
    let op = MergeMetadataResultsOperator::new();
    let input = MergeMetadataResultsOperatorInput::new(
        second_chunk_entries(),
        Some(vec![1, 3]),
        Some(vec![1, 2, 3]),
        Some(two_record_segment()),
        None,
        None,
        false,
    );
    let output = op.run(&input).expect("Error running operator");
    assert_eq!(output.ids.len(), 2);
    assert_eq!(output.metadata.len(), 2);
    assert_eq!(output.documents.len(), 2);
    // metadata was not asked for
    assert!(output.metadata.iter().all(|m| m.is_none()));
    assert!(output.documents.iter().all(|d| d.is_none()));
}

#[test]
fn deleted_offset_ids_are_invisible_in_full_scan() {
    let segment = two_record_segment();
    let logs = vec![MaterializedLogEntry {
        offset_id: 2,
        final_operation: MaterializedLogOperation::DeleteExisting,
        user_id: None,
        metadata_updates: Vec::new(),
        document: None,
    }];
    let op = MergeMetadataResultsOperator::new();
    let input = MergeMetadataResultsOperatorInput::new(
        logs,
        None,
        None,
        Some(segment),
        None,
        None,
        false,
    );
    let output = op.run(&input).expect("Error running operator");
    assert_eq!(output.ids, vec!["embedding_id_1".to_string()]);
}

#[test]
fn window_pages_the_merged_list() {
    let op = MergeMetadataResultsOperator::new();
    let input = MergeMetadataResultsOperatorInput::new(
        second_chunk_entries(),
        None,
        Some(vec![1, 2, 3]),
        Some(two_record_segment()),
        Some(1),
        Some(1),
        false,
    );
    let output = op.run(&input).expect("Error running operator");
    assert_eq!(output.ids, vec!["embedding_id_2".to_string()]);
}

#[test]
fn missing_window_id_is_a_read_error() {
    let op = MergeMetadataResultsOperator::new();
    let input = MergeMetadataResultsOperatorInput::new(
        Vec::new(),
        None,
        Some(vec![5]),
        Some(two_record_segment()),
        None,
        None,
        false,
    );
    let result = op.run(&input);
    assert_eq!(
        result.unwrap_err(),
        MergeMetadataResultsOperatorError::RecordSegmentReadError
    );
}

#[test]
fn log_only_without_segment() {
    let logs = vec![
        MaterializedLogEntry {
            offset_id: 7,
            final_operation: MaterializedLogOperation::Add,
            user_id: Some("seven".to_string()),
            metadata_updates: str_meta(&[("k", "v")]),
            document: Some("doc seven".to_string()),
        },
        MaterializedLogEntry {
            offset_id: 9,
            final_operation: MaterializedLogOperation::Add,
            user_id: Some("nine".to_string()),
            metadata_updates: Vec::new(),
            document: None,
        },
    ];
    let op = MergeMetadataResultsOperator::new();
    let input = MergeMetadataResultsOperatorInput::new(logs, None, None, None, None, None, true);
    let output = op.run(&input).expect("Error running operator");
    assert_eq!(output.ids, vec!["seven".to_string(), "nine".to_string()]);
    let md = output.metadata[0].as_ref().expect("Expected not none");
    assert_eq!(
        meta_get(md, "k").expect("Expected key to be present"),
        &MetadataValue::Str(String::from("v"))
    );
    // an Add without metadata hydrates to an absent map
    assert!(output.metadata[1].is_none());
    assert_eq!(output.documents[0].as_ref().expect("Expected not none"), "doc seven");
    assert!(output.documents[1].is_none());
}
