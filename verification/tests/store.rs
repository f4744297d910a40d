use secondary_store::bootstrap::Store;
use secondary_store::ids::IdAllocators;
use secondary_store::keys::{DvKey, RowSetKey};
use secondary_store::manifest::{
    decode_log, encode_log, encode_op, replay, CorruptionError, CreateTableEntry, DropTableEntry,
    ManifestOperation,
};
use secondary_store::version::{CommitError, EpochOp};

fn rs(table_id: u32, rowset_id: u32) -> RowSetKey {
    RowSetKey { table_id, rowset_id }
}

fn dv(table_id: u32, rowset_id: u32, dv_id: u64) -> DvKey {
    DvKey { table_id, rowset_id, dv_id }
}

fn create(table_id: u32, columns: Vec<u32>) -> ManifestOperation {
    ManifestOperation::CreateTable(CreateTableEntry { table_id, columns })
}

fn drop_t(table_id: u32) -> ManifestOperation {
    ManifestOperation::DropTable(DropTableEntry { table_id })
}

#[test]
fn bootstrap_empty_log_gives_epoch_zero() {
    let store = Store::bootstrap(&Vec::new()).unwrap();
    assert_eq!(store.catalog.table_count(), 0);
    let epoch = store.version.current_snapshot();
    assert_eq!(epoch.seq, 0);
    assert_eq!(epoch.live_rowsets.len(), 0);
    assert_eq!(epoch.live_dvs.len(), 0);
    assert_eq!(store.allocators.next_rowset_id, 0);
    assert_eq!(store.allocators.next_dv_id, 0);
}

#[test]
fn bootstrap_epoch_log_keeps_surviving_rowset() {
    let ops = vec![
        create(1, vec![10, 11]),
        ManifestOperation::AddRowSet(rs(1, 0)),
        ManifestOperation::Begin,
        ManifestOperation::AddRowSet(rs(1, 1)),
        ManifestOperation::DeleteRowSet(rs(1, 0)),
        ManifestOperation::End,
    ];
    let bytes = encode_log(&ops);
    let store = Store::bootstrap(&bytes).unwrap();
    assert_eq!(store.catalog.table_count(), 1);
    let epoch = store.version.current_snapshot();
    assert!(epoch.live_rowsets.contains(rs(1, 1)));
    assert!(!epoch.live_rowsets.contains(rs(1, 0)));
    assert_eq!(epoch.live_rowsets.len(), 1);
    assert_eq!(store.allocators.next_rowset_id, 2);
}

#[test]
fn bootstrap_rejects_rowset_of_dropped_table() {
    let ops = vec![create(1, vec![10]), ManifestOperation::AddRowSet(rs(1, 0)), drop_t(1)];
    let bytes = encode_log(&ops);
    let err = Store::bootstrap(&bytes).unwrap_err();
    assert_eq!(err, CorruptionError::DanglingRowSet(rs(1, 0)));
}

#[test]
fn bootstrap_rejects_dangling_delete_vector() {
    let ops = vec![
        create(1, vec![10]),
        create(2, vec![20]),
        ManifestOperation::AddRowSet(rs(1, 0)),
        ManifestOperation::AddDV(dv(2, 0, 0)),
        ManifestOperation::DeleteRowSet(rs(1, 0)),
        drop_t(2),
    ];
    let bytes = encode_log(&ops);
    let err = Store::bootstrap(&bytes).unwrap_err();
    assert_eq!(err, CorruptionError::DanglingDeleteVector(dv(2, 0, 0)));
}

#[test]
fn bootstrap_rejects_duplicate_create_table() {
    let ops = vec![create(1, vec![10]), create(1, vec![11])];
    let bytes = encode_log(&ops);
    let err = Store::bootstrap(&bytes).unwrap_err();
    assert_eq!(err, CorruptionError::DuplicateTable(1));
}

#[test]
fn bootstrap_rejects_drop_of_unknown_table() {
    let ops = vec![drop_t(7)];
    let bytes = encode_log(&ops);
    let err = Store::bootstrap(&bytes).unwrap_err();
    assert_eq!(err, CorruptionError::UnknownTable(7));
}

#[test]
fn bootstrap_rejects_largest_rowset_identifier() {
    let ops = vec![create(1, vec![10]), ManifestOperation::AddRowSet(rs(1, u32::MAX))];
    let bytes = encode_log(&ops);
    let err = Store::bootstrap(&bytes).unwrap_err();
    assert_eq!(err, CorruptionError::IdentifierOverflow);
}

#[test]
fn decode_rejects_unknown_tag() {
    let bytes = vec![99u8, 0, 0, 0, 0];
    let err = decode_log(&bytes).unwrap_err();
    assert_eq!(err, CorruptionError::InvalidTag(99));
}

#[test]
fn log_round_trip_returns_entries_verbatim() {
    let ops = vec![
        create(3, vec![1, 2, 3]),
        ManifestOperation::Begin,
        ManifestOperation::AddRowSet(rs(3, 5)),
        ManifestOperation::AddDV(dv(3, 5, 9)),
        ManifestOperation::End,
        ManifestOperation::DeleteDV(dv(3, 5, 9)),
        drop_t(3),
    ];
    let bytes = encode_log(&ops);
    let decoded = decode_log(&bytes).unwrap();
    assert_eq!(decoded, ops);
}

#[test]
fn truncated_trailing_record_is_discarded() {
    let ops = vec![create(1, vec![10]), ManifestOperation::AddRowSet(rs(1, 0))];
    let mut bytes = encode_log(&ops);
    let extra = encode_op(&ManifestOperation::AddRowSet(rs(1, 1)));
    bytes.extend_from_slice(&extra[..extra.len() - 3]);
    let decoded = decode_log(&bytes).unwrap();
    assert_eq!(decoded, ops);
}

#[test]
fn truncated_create_table_schema_is_discarded() {
    let ops = vec![ManifestOperation::AddRowSet(rs(1, 0))];
    let mut bytes = encode_log(&vec![create(1, vec![10])]);
    bytes.truncate(11);
    let mut log = encode_log(&ops);
    log.extend_from_slice(&bytes);
    let decoded = decode_log(&log).unwrap();
    assert_eq!(decoded, ops);
}

#[test]
fn unmatched_trailing_begin_discards_its_epoch() {
    let ops = vec![
        create(1, vec![10]),
        ManifestOperation::AddRowSet(rs(1, 0)),
        ManifestOperation::Begin,
        ManifestOperation::AddRowSet(rs(1, 1)),
        ManifestOperation::DeleteRowSet(rs(1, 0)),
    ];
    let bytes = encode_log(&ops);
    let replayed = replay(&bytes).unwrap();
    assert_eq!(replayed.len(), 2);
    let store = Store::bootstrap(&bytes).unwrap();
    let epoch = store.version.current_snapshot();
    assert!(epoch.live_rowsets.contains(rs(1, 0)));
    assert!(!epoch.live_rowsets.contains(rs(1, 1)));
    assert_eq!(epoch.live_rowsets.len(), 1);
}

#[test]
fn matched_begin_end_epoch_is_kept() {
    let ops = vec![
        ManifestOperation::Begin,
        create(1, vec![10]),
        ManifestOperation::AddRowSet(rs(1, 0)),
        ManifestOperation::End,
    ];
    let bytes = encode_log(&ops);
    let replayed = replay(&bytes).unwrap();
    assert_eq!(replayed.len(), 4);
}

#[test]
fn replaying_twice_yields_identical_state() {
    let ops = vec![
        create(1, vec![10]),
        ManifestOperation::AddRowSet(rs(1, 0)),
        ManifestOperation::AddDV(dv(1, 0, 4)),
        ManifestOperation::DeleteRowSet(rs(1, 0)),
        ManifestOperation::AddRowSet(rs(1, 2)),
    ];
    let bytes = encode_log(&ops);
    let first = Store::bootstrap(&bytes).unwrap();
    let second = Store::bootstrap(&bytes).unwrap();
    assert_eq!(first.catalog.table_count(), second.catalog.table_count());
    assert_eq!(first.allocators, second.allocators);
    let e1 = first.version.current_snapshot();
    let e2 = second.version.current_snapshot();
    assert_eq!(e1.seq, e2.seq);
    assert_eq!(e1.live_rowsets.len(), e2.live_rowsets.len());
    assert_eq!(e1.live_dvs.len(), e2.live_dvs.len());
    assert!(e1.live_rowsets.contains(rs(1, 2)) && e2.live_rowsets.contains(rs(1, 2)));
    assert!(e1.live_dvs.contains(dv(1, 0, 4)) && e2.live_dvs.contains(dv(1, 0, 4)));
}

#[test]
fn replay_folds_adds_minus_deletes_across_tables() {
    let ops = vec![
        create(1, vec![10]),
        create(2, vec![20]),
        ManifestOperation::AddRowSet(rs(1, 0)),
        ManifestOperation::AddRowSet(rs(2, 0)),
        ManifestOperation::AddRowSet(rs(1, 1)),
        ManifestOperation::DeleteRowSet(rs(2, 0)),
        ManifestOperation::AddRowSet(rs(2, 1)),
        ManifestOperation::DeleteRowSet(rs(1, 1)),
    ];
    let bytes = encode_log(&ops);
    let store = Store::bootstrap(&bytes).unwrap();
    let epoch = store.version.current_snapshot();
    assert!(epoch.live_rowsets.contains(rs(1, 0)));
    assert!(epoch.live_rowsets.contains(rs(2, 1)));
    assert!(!epoch.live_rowsets.contains(rs(1, 1)));
    assert!(!epoch.live_rowsets.contains(rs(2, 0)));
    assert_eq!(epoch.live_rowsets.len(), 2);
    assert_eq!(store.allocators.next_rowset_id, 2);
}

#[test]
fn commit_applies_whole_changeset() {
    let bytes = encode_log(&vec![create(1, vec![10]), ManifestOperation::AddRowSet(rs(1, 0))]);
    let mut store = Store::bootstrap(&bytes).unwrap();
    let changeset = vec![
        EpochOp::AddRowSet(rs(1, 1)),
        EpochOp::DeleteRowSet(rs(1, 0)),
        EpochOp::AddDV(dv(1, 1, 0)),
    ];
    let epoch = store.version.commit_changes(&changeset).unwrap();
    assert_eq!(epoch.seq, 1);
    assert!(epoch.live_rowsets.contains(rs(1, 1)));
    assert!(!epoch.live_rowsets.contains(rs(1, 0)));
    assert!(epoch.live_dvs.contains(dv(1, 1, 0)));
}

#[test]
fn commit_of_nonlive_delete_is_rejected_whole() {
    let bytes = encode_log(&vec![create(1, vec![10]), ManifestOperation::AddRowSet(rs(1, 0))]);
    let mut store = Store::bootstrap(&bytes).unwrap();
    let before = store.version.current_snapshot();
    let changeset = vec![EpochOp::AddRowSet(rs(1, 1)), EpochOp::DeleteRowSet(rs(1, 7))];
    let err = store.version.commit_changes(&changeset).unwrap_err();
    assert_eq!(err, CommitError::RowSetNotLive(rs(1, 7)));
    let after = store.version.current_snapshot();
    assert_eq!(after.seq, before.seq);
    assert_eq!(after.live_rowsets.len(), before.live_rowsets.len());
    assert!(after.live_rowsets.contains(rs(1, 0)));
    assert!(!after.live_rowsets.contains(rs(1, 1)));
}

#[test]
fn commit_rejects_adding_a_live_rowset() {
    let bytes = encode_log(&vec![create(1, vec![10]), ManifestOperation::AddRowSet(rs(1, 0))]);
    let mut store = Store::bootstrap(&bytes).unwrap();
    let err = store.version.commit_changes(&vec![EpochOp::AddRowSet(rs(1, 0))]).unwrap_err();
    assert_eq!(err, CommitError::RowSetAlreadyLive(rs(1, 0)));
}

#[test]
fn commit_rejects_inconsistent_delete_vector_ops() {
    let mut store = Store::bootstrap(&Vec::new()).unwrap();
    let err = store.version.commit_changes(&vec![EpochOp::DeleteDV(dv(1, 0, 0))]).unwrap_err();
    assert_eq!(err, CommitError::DeleteVectorNotLive(dv(1, 0, 0)));
    store.version.commit_changes(&vec![EpochOp::AddDV(dv(1, 0, 0))]).unwrap();
    let err = store.version.commit_changes(&vec![EpochOp::AddDV(dv(1, 0, 0))]).unwrap_err();
    assert_eq!(err, CommitError::DeleteVectorAlreadyLive(dv(1, 0, 0)));
}

#[test]
fn reader_epoch_is_unaffected_by_later_commit() {
    let bytes = encode_log(&vec![create(1, vec![10]), ManifestOperation::AddRowSet(rs(1, 0))]);
    let mut store = Store::bootstrap(&bytes).unwrap();
    let reader = store.version.current_snapshot();
    store.version.commit_changes(&vec![EpochOp::DeleteRowSet(rs(1, 0))]).unwrap();
    assert_eq!(reader.seq, 0);
    assert!(reader.live_rowsets.contains(rs(1, 0)));
    let current = store.version.current_snapshot();
    assert_eq!(current.seq, 1);
    assert!(!current.live_rowsets.contains(rs(1, 0)));
}

#[test]
fn commits_produce_gap_free_epoch_numbers() {
    let mut store = Store::bootstrap(&Vec::new()).unwrap();
    for i in 0..5u32 {
        let epoch = store.version.commit_changes(&vec![EpochOp::AddRowSet(rs(1, i))]).unwrap();
        assert_eq!(epoch.seq, (i + 1) as u64);
    }
}

#[test]
fn allocators_never_reissue_identifiers() {
    let ops = vec![
        create(1, vec![10]),
        ManifestOperation::AddRowSet(rs(1, 6)),
        ManifestOperation::DeleteRowSet(rs(1, 6)),
        ManifestOperation::AddDV(dv(1, 0, 40)),
        ManifestOperation::DeleteDV(dv(1, 0, 40)),
    ];
    let bytes = encode_log(&ops);
    let store = Store::bootstrap(&bytes).unwrap();
    let mut allocators = store.allocators;
    assert_eq!(allocators.next_rowset_id, 7);
    assert_eq!(allocators.next_dv_id, 41);
    let first = allocators.allocate_rowset_id();
    let second = allocators.allocate_rowset_id();
    assert_eq!(first, 7);
    assert_eq!(second, 8);
    assert_eq!(allocators.allocate_dv_id(), 41);
    assert_eq!(allocators.next_dv_id, 42);
}

#[test]
fn allocator_constructor_keeps_values() {
    let a = IdAllocators::new(3, 9);
    assert_eq!(a.next_rowset_id, 3);
    assert_eq!(a.next_dv_id, 9);
}

#[test]
fn catalog_resolves_registered_tables() {
    let bytes = encode_log(&vec![create(5, vec![7, 8, 9])]);
    let store = Store::bootstrap(&bytes).unwrap();
    let handle = store.catalog.resolve_table(5).unwrap();
    assert_eq!(handle.table_id, 5);
    assert_eq!(handle.columns, vec![7, 8, 9]);
    assert!(store.catalog.resolve_table(6).is_none());
}

#[test]
fn catalog_mutators_follow_log_semantics() {
    let mut store = Store::bootstrap(&Vec::new()).unwrap();
    store.catalog.create_table(1, vec![10]).unwrap();
    assert!(store.catalog.contains_table(1));
    let err = store.catalog.create_table(1, vec![11]).unwrap_err();
    assert_eq!(err, CorruptionError::DuplicateTable(1));
    store.catalog.drop_table(1).unwrap();
    assert!(!store.catalog.contains_table(1));
    let err = store.catalog.drop_table(1).unwrap_err();
    assert_eq!(err, CorruptionError::UnknownTable(1));
}

#[test]
fn encode_op_writes_tagged_record() {
    let bytes = encode_op(&ManifestOperation::AddRowSet(rs(258, 3)));
    assert_eq!(bytes, vec![3u8, 2, 1, 0, 0, 3, 0, 0, 0]);
    let bytes = encode_op(&ManifestOperation::Begin);
    assert_eq!(bytes, vec![7u8]);
}

#[test]
fn logical_plan_error_describes_itself() {
    let err = secondary_store::logical_plan::LogicalPlanError::InvalidSQL;
    assert_eq!(err.message(), "invalid SQL");
    assert_eq!(err, secondary_store::logical_plan::LogicalPlanError::InvalidSQL);
}
