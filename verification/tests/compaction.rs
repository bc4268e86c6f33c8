use lsm_compaction::compact_status::{CompactStatus, CompactTask};
use lsm_compaction::codec::{decode_compact_status, encode_compact_status};
use lsm_compaction::key_range::KeyRange;
use lsm_compaction::level::{HummockVersion, Level, SstableInfo};
use lsm_compaction::level_handler::{LevelHandler, TaskReservation};

fn kr(left: &str, right: &str) -> KeyRange {
    KeyRange::new(left.as_bytes().to_vec(), right.as_bytes().to_vec())
}

fn sst(id: u64, left: &str, right: &str) -> SstableInfo {
    SstableInfo { id, key_range: kr(left, right), file_size: 1 }
}

fn two_levels(l0: Vec<SstableInfo>, l1: Vec<SstableInfo>) -> Vec<Level> {
    vec![
        Level { level_idx: 0, table_infos: l0 },
        Level { level_idx: 1, table_infos: l1 },
    ]
}

fn ids_of(level: &Level) -> Vec<u64> {
    level.table_infos.iter().map(|t| t.id).collect()
}

#[test]
fn test_serde() {
    let mut origin = CompactStatus::new();
    origin.next_compact_task_id = 4;
    let ser = encode_compact_status(&origin);
    let de = decode_compact_status(&ser);
    assert_eq!(origin, de.unwrap());
}

#[test]
fn test_serde_mid_compaction_state() {
    let mut origin = CompactStatus::new();
    origin.next_compact_task_id = 8;
    origin.level_handlers[0].reserved.push(TaskReservation { task_id: 5, ssts: vec![1, 2] });
    origin.level_handlers[1].reserved.push(TaskReservation { task_id: 5, ssts: vec![] });
    let ser = encode_compact_status(&origin);
    let de = decode_compact_status(&ser);
    assert_eq!(origin, de.unwrap());
}

#[test]
fn test_decode_rejects_truncated_and_trailing() {
    let origin = CompactStatus::new();
    let mut ser = encode_compact_status(&origin);
    let last = ser.pop().unwrap();
    assert!(decode_compact_status(&ser).is_none());
    ser.push(last);
    ser.push(0);
    assert!(decode_compact_status(&ser).is_none());
}

#[test]
fn test_empty_l0_yields_no_task() {
    let mut status = CompactStatus::new();
    let task = status.get_compact_task(two_levels(vec![], vec![]));
    assert!(task.is_none());
    assert_eq!(status.next_compact_task_id, 1);
}

#[test]
fn test_overlapping_l0_files_compact_into_l1() {
    let mut status = CompactStatus::new();
    let levels = two_levels(vec![sst(1, "a", "m"), sst(2, "g", "z")], vec![]);
    let mut task = status.get_compact_task(levels).unwrap();
    assert_eq!(task.task_id, 1);
    assert_eq!(task.target_level, 1);
    assert_eq!(task.input_ssts.len(), 2);
    let mut picked = ids_of(&task.input_ssts[0]);
    picked.sort();
    assert_eq!(picked, vec![1, 2]);
    assert!(task.input_ssts[1].table_infos.is_empty());
    assert_eq!(task.splits.len(), 1);
    assert_eq!(task.splits[0].left, b"a".to_vec());
    assert_eq!(task.splits[0].right, b"z".to_vec());
    assert!(status.level_handlers[0].is_pending(1));
    assert!(status.level_handlers[0].is_pending(2));

    task.sorted_output_ssts.push(sst(3, "a", "z"));
    status.report_compact_task(&task);
    assert!(!status.level_handlers[0].is_pending(1));
    assert!(!status.level_handlers[0].is_pending(2));

    let version = HummockVersion {
        levels: two_levels(vec![sst(1, "a", "m"), sst(2, "g", "z")], vec![]),
        safe_epoch: 0,
    };
    let new_version = CompactStatus::apply_compact_result(&task, version);
    assert!(new_version.levels[0].table_infos.is_empty());
    assert_eq!(ids_of(&new_version.levels[1]), vec![3]);
}

#[test]
fn test_nonoverlapping_l0_files_do_not_merge() {
    let mut status = CompactStatus::new();
    let levels = two_levels(vec![sst(1, "a", "b"), sst(2, "y", "z")], vec![]);
    let task = status.get_compact_task(levels);
    assert!(task.is_none());
    assert!(!status.level_handlers[0].is_pending(1));
    assert!(!status.level_handlers[0].is_pending(2));
}

#[test]
fn test_task_ids_are_monotonic_and_not_reused() {
    let mut status = CompactStatus::new();
    let levels = two_levels(
        vec![sst(1, "a", "c"), sst(2, "b", "d"), sst(3, "w", "y"), sst(4, "x", "z")],
        vec![],
    );
    let first = status.get_compact_task(levels.clone()).unwrap();
    assert_eq!(first.task_id, 1);
    assert_eq!(status.next_compact_task_id, 2);
    let second = status.get_compact_task(levels).unwrap();
    assert_eq!(second.task_id, 2);
    assert_eq!(status.next_compact_task_id, 3);
    // the two tasks reserve disjoint batches
    let mut a = ids_of(&first.input_ssts[0]);
    let mut b = ids_of(&second.input_ssts[0]);
    a.sort();
    b.sort();
    assert_eq!(a, vec![1, 2]);
    assert_eq!(b, vec![3, 4]);
    // releasing the first task does not roll the counter back
    status.report_compact_task(&first);
    assert_eq!(status.next_compact_task_id, 3);
}

#[test]
fn test_report_twice_is_idempotent() {
    let mut status = CompactStatus::new();
    let levels = two_levels(vec![sst(1, "a", "m"), sst(2, "g", "z")], vec![]);
    let task = status.get_compact_task(levels).unwrap();
    status.report_compact_task(&task);
    let after_once = status.clone();
    status.report_compact_task(&task);
    assert_eq!(after_once, status);
}

#[test]
fn test_report_unknown_task_is_noop() {
    let mut status = CompactStatus::new();
    let levels = two_levels(vec![sst(1, "a", "m"), sst(2, "g", "z")], vec![]);
    let _task = status.get_compact_task(levels).unwrap();
    let before = status.clone();
    let stranger = CompactTask {
        input_ssts: two_levels(vec![], vec![]),
        splits: vec![],
        watermark: 0,
        sorted_output_ssts: vec![],
        task_id: 999,
        target_level: 1,
        is_target_ultimate_and_leveling: false,
        task_status: false,
    };
    status.report_compact_task(&stranger);
    assert_eq!(before, status);
}

#[test]
fn test_picker_includes_overlapping_target_tables() {
    let mut status = CompactStatus::new();
    let levels = two_levels(
        vec![sst(1, "a", "m"), sst(2, "g", "z")],
        vec![sst(5, "c", "d"), sst(6, "q1", "q2")],
    );
    let task = status.get_compact_task(levels).unwrap();
    let mut tgt = ids_of(&task.input_ssts[1]);
    tgt.sort();
    assert_eq!(tgt, vec![5, 6]);
    assert!(status.level_handlers[1].is_pending(5));
    assert!(status.level_handlers[1].is_pending(6));
}

#[test]
fn test_pending_target_table_blocks_the_batch() {
    let mut status = CompactStatus::new();
    status.next_compact_task_id = 1000;
    status.level_handlers[1].reserved.push(TaskReservation { task_id: 900, ssts: vec![5] });
    let levels = two_levels(vec![sst(1, "a", "m"), sst(2, "g", "z")], vec![sst(5, "c", "d")]);
    let task = status.get_compact_task(levels);
    assert!(task.is_none());
}

#[test]
fn test_pending_l0_tables_are_not_repicked() {
    let mut status = CompactStatus::new();
    let levels = two_levels(vec![sst(1, "a", "m"), sst(2, "g", "z")], vec![]);
    let _task = status.get_compact_task(levels.clone()).unwrap();
    // both files are now reserved: the same levels offer nothing further
    let again = status.get_compact_task(levels);
    assert!(again.is_none());
}

#[test]
fn test_apply_level0_reorganization_splices_in_place() {
    let task = CompactTask {
        input_ssts: vec![Level { level_idx: 0, table_infos: vec![sst(2, "c", "f")] }],
        splits: vec![],
        watermark: 7,
        sorted_output_ssts: vec![sst(4, "c", "f")],
        task_id: 1,
        target_level: 0,
        is_target_ultimate_and_leveling: false,
        task_status: true,
    };
    let version = HummockVersion {
        levels: two_levels(
            vec![sst(1, "a", "b"), sst(2, "c", "f"), sst(3, "g", "h")],
            vec![],
        ),
        safe_epoch: 3,
    };
    let new_version = CompactStatus::apply_compact_result(&task, version);
    assert_eq!(ids_of(&new_version.levels[0]), vec![1, 4, 3]);
    assert_eq!(new_version.safe_epoch, 7);
}

#[test]
fn test_apply_keeps_target_level_sorted() {
    let task = CompactTask {
        input_ssts: vec![
            Level { level_idx: 0, table_infos: vec![sst(1, "d", "f")] },
            Level { level_idx: 1, table_infos: vec![] },
        ],
        splits: vec![],
        watermark: 0,
        sorted_output_ssts: vec![sst(9, "d", "f")],
        task_id: 1,
        target_level: 1,
        is_target_ultimate_and_leveling: false,
        task_status: true,
    };
    let version = HummockVersion {
        levels: two_levels(
            vec![sst(1, "d", "f")],
            vec![sst(7, "a", "b"), sst(8, "x", "z")],
        ),
        safe_epoch: 5,
    };
    let new_version = CompactStatus::apply_compact_result(&task, version);
    assert_eq!(ids_of(&new_version.levels[1]), vec![7, 9, 8]);
    assert_eq!(new_version.safe_epoch, 5);
}

#[test]
fn test_level_handler_reservations() {
    let mut h = LevelHandler::new(0);
    assert!(!h.is_pending(1));
    h.add_task(10, vec![1, 2]);
    assert!(h.is_pending(1));
    assert!(h.is_pending(2));
    assert!(!h.is_pending(3));
    assert!(h.has_task(10));
    h.remove_task(10);
    assert!(!h.is_pending(1));
    assert!(!h.has_task(10));
    // removing an absent task id changes nothing
    let before = h.clone();
    h.remove_task(10);
    assert_eq!(before, h);
}

#[test]
fn test_fresh_status_shape() {
    let status = CompactStatus::new();
    assert_eq!(status.level_handlers.len(), 2);
    assert_eq!(status.level_handlers[0].level_idx, 0);
    assert_eq!(status.level_handlers[1].level_idx, 1);
    assert_eq!(status.next_compact_task_id, 1);
    assert_eq!(CompactStatus::cf_name(), "hummock_default");
    assert_eq!(CompactStatus::key(), "compact_status");
}

#[test]
fn test_key_range_overlap() {
    assert!(kr("a", "m").overlaps(&kr("g", "z")));
    assert!(kr("g", "z").overlaps(&kr("a", "m")));
    assert!(!kr("a", "b").overlaps(&kr("y", "z")));
    // half-open: touching ranges do not overlap
    assert!(!kr("a", "g").overlaps(&kr("g", "z")));
    // a non-empty range overlaps itself, an empty one overlaps nothing
    assert!(kr("a", "b").overlaps(&kr("a", "b")));
    assert!(!kr("c", "c").overlaps(&kr("a", "z")));
}

#[test]
fn test_version_serde() {
    let version = HummockVersion {
        levels: two_levels(
            vec![sst(1, "a", "m"), sst(2, "g", "z")],
            vec![sst(5, "c", "d")],
        ),
        safe_epoch: 42,
    };
    let ser = lsm_compaction::codec::encode_hummock_version(&version);
    let de = lsm_compaction::codec::decode_hummock_version(&ser);
    assert_eq!(version, de.unwrap());
}

#[test]
fn test_version_decode_rejects_garbage() {
    let version = HummockVersion { levels: vec![], safe_epoch: 0 };
    let mut ser = lsm_compaction::codec::encode_hummock_version(&version);
    ser.push(1);
    assert!(lsm_compaction::codec::decode_hummock_version(&ser).is_none());
    assert!(lsm_compaction::codec::decode_hummock_version(&vec![1, 2, 3]).is_none());
}
