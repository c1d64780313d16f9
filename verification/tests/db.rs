use simpledb::db::SimpleDB;
use simpledb::disk::{Disk, DiskOp};
use simpledb::error::{DatabaseError, IoErrorKind, LockKind, LogError};
use simpledb::files::parse_decimal;
use simpledb::log::LogOperation;
use std::sync::{Arc, Mutex};

fn check_file_exists(disk: &Disk, file_name: &str) {
    assert!(disk.file_exists(file_name.as_bytes()));
}

fn get_version_from_file(disk: &Disk) -> u64 {
    let text = disk.read(b"version").unwrap();
    parse_decimal(&text).unwrap()
}

fn text(bytes: Vec<u8>) -> String {
    String::from_utf8(bytes).unwrap()
}

#[test]
fn test_create_db() {
    let mut disk = Disk::new();
    SimpleDB::open(&mut disk).unwrap();

    check_file_exists(&disk, "checkpoint.0");
    check_file_exists(&disk, "logfile.0");
    check_file_exists(&disk, "version");

    assert_eq!(get_version_from_file(&disk), 0);
}

#[test]
fn test_basic_db_operations() {
    let mut disk = Disk::new();
    let mut db = SimpleDB::open(&mut disk).unwrap();
    db.put(&mut disk, "name".into(), "ran".into()).unwrap();
    let name = db.get(b"name").unwrap();

    assert_eq!(text(name), "ran");

    db.put(&mut disk, "name".into(), "bob".into()).unwrap();
    let name = db.get(b"name").unwrap();
    assert_eq!(text(name), "bob");
    assert_eq!(db.version(), 0);
}

#[test]
fn test_concurrent_write() {
    let mut disk = Disk::new();
    let db = Arc::new(Mutex::new((SimpleDB::open(&mut disk).unwrap(), disk)));
    for _ in 0..2 {
        let t_db = Arc::clone(&db);
        let mut guard = t_db.lock().unwrap();
        let (db, disk) = &mut *guard;
        if let None = db.get(b"name") {
            db.put(disk, "name".into(), "bob".into()).unwrap();
        } else {
            db.put(disk, "age".into(), "54".into()).unwrap();
        }
    }
    let guard = db.lock().unwrap();
    let name = guard.0.get(b"name").unwrap();
    let age = guard.0.get(b"age").unwrap();

    assert_eq!(text(name), "bob");
    assert_eq!(text(age), "54");
}

#[test]
fn test_commit_changes() {
    let mut disk = Disk::new();
    let mut db = SimpleDB::open(&mut disk).unwrap();
    db.put(&mut disk, "name".into(), "bob".into()).unwrap();
    db.put(&mut disk, "age".into(), "54".into()).unwrap();

    db.commit(&mut disk).unwrap();

    let name = db.get(b"name").unwrap();
    let age = db.get(b"age").unwrap();

    assert_eq!(text(name), "bob");
    assert_eq!(text(age), "54");

    check_file_exists(&disk, "checkpoint.1");
    check_file_exists(&disk, "logfile.1");
    check_file_exists(&disk, "version");

    assert_eq!(get_version_from_file(&disk), 1);
    assert_eq!(db.version(), 1);
}

#[test]
fn test_load_from_checkpoint_after_commit() {
    let mut disk = Disk::new();
    let mut db = SimpleDB::open(&mut disk).unwrap();
    db.put(&mut disk, "name".into(), "bob".into()).unwrap();
    db.put(&mut disk, "age".into(), "54".into()).unwrap();
    db.delete(&mut disk, "age".into()).unwrap();

    db.commit(&mut disk).unwrap();

    drop(db);

    let db = SimpleDB::open(&mut disk).unwrap();

    assert_eq!(text(db.get(b"name").unwrap()), "bob");
    assert_eq!(db.version(), 1);
}

#[test]
fn test_load_from_checkpoint_before_commit() {
    let mut disk = Disk::new();
    let mut db = SimpleDB::open(&mut disk).unwrap();
    db.put(&mut disk, "name".into(), "bob".into()).unwrap();
    db.put(&mut disk, "age".into(), "54".into()).unwrap();
    db.delete(&mut disk, "age".into()).unwrap();

    drop(db);

    let db = SimpleDB::open(&mut disk).unwrap();

    assert_eq!(text(db.get(b"name").unwrap()), "bob");
    assert_eq!(db.version(), 0);
}

#[test]
fn test_open_put_get_commit_scenario() {
    let mut disk = Disk::new();
    let mut db = SimpleDB::open(&mut disk).unwrap();
    db.put(&mut disk, "name".into(), "ran".into()).unwrap();
    assert_eq!(db.get(b"name"), Some(b"ran".to_vec()));
    db.put(&mut disk, "name".into(), "bob".into()).unwrap();
    assert_eq!(db.get(b"name"), Some(b"bob".to_vec()));
    assert_eq!(db.version(), 0);

    db.commit(&mut disk).unwrap();
    assert_eq!(db.version(), 1);
    assert!(disk.file_exists(b"checkpoint.1"));
    assert!(disk.file_exists(b"logfile.1"));
    assert!(!disk.file_exists(b"checkpoint.0"));
    assert!(!disk.file_exists(b"logfile.0"));
    assert!(!disk.file_exists(b"new_version"));
    assert_eq!(disk.read(b"version").unwrap(), b"1".to_vec());
}

#[test]
fn test_new_store_files_are_empty() {
    let mut disk = Disk::new();
    assert!(!disk.dir_exists());
    let db = SimpleDB::open(&mut disk).unwrap();
    assert!(disk.dir_exists());
    assert_eq!(db.version(), 0);
    assert_eq!(db.get(b"anything"), None);
    assert_eq!(disk.read(b"version").unwrap(), b"0".to_vec());
    assert_eq!(disk.read(b"checkpoint.0").unwrap(), Vec::<u8>::new());
    assert_eq!(disk.read(b"logfile.0").unwrap(), Vec::<u8>::new());
    assert!(!disk.file_exists(b"new_version"));
}

#[test]
fn test_get_missing_key_is_none() {
    let mut disk = Disk::new();
    let mut db = SimpleDB::open(&mut disk).unwrap();
    db.put(&mut disk, b"a".to_vec(), b"1".to_vec()).unwrap();
    assert_eq!(db.get(b"b"), None);
    assert_eq!(db.get(b""), None);
}

#[test]
fn test_put_is_kept_until_put_or_delete_on_same_key() {
    let mut disk = Disk::new();
    let mut db = SimpleDB::open(&mut disk).unwrap();
    db.put(&mut disk, b"k".to_vec(), b"v".to_vec()).unwrap();
    db.put(&mut disk, b"other".to_vec(), b"x".to_vec()).unwrap();
    db.delete(&mut disk, b"third".to_vec()).unwrap();
    assert_eq!(db.get(b"k"), Some(b"v".to_vec()));
    db.put(&mut disk, b"k".to_vec(), b"w".to_vec()).unwrap();
    assert_eq!(db.get(b"k"), Some(b"w".to_vec()));
    db.delete(&mut disk, b"k".to_vec()).unwrap();
    assert_eq!(db.get(b"k"), None);
    assert_eq!(db.get(b"other"), Some(b"x".to_vec()));
}

#[test]
fn test_delete_is_idempotent() {
    let mut disk = Disk::new();
    let mut db = SimpleDB::open(&mut disk).unwrap();
    db.put(&mut disk, b"k".to_vec(), b"v".to_vec()).unwrap();
    db.put(&mut disk, b"j".to_vec(), b"u".to_vec()).unwrap();
    db.delete(&mut disk, b"k".to_vec()).unwrap();
    assert_eq!(db.get(b"k"), None);
    db.delete(&mut disk, b"k".to_vec()).unwrap();
    assert_eq!(db.get(b"k"), None);
    db.delete(&mut disk, b"never".to_vec()).unwrap();
    assert_eq!(db.get(b"j"), Some(b"u".to_vec()));
}

#[test]
fn test_empty_key_and_value_are_records() {
    let mut disk = Disk::new();
    let mut db = SimpleDB::open(&mut disk).unwrap();
    db.put(&mut disk, Vec::new(), Vec::new()).unwrap();
    assert_eq!(db.get(b""), Some(Vec::new()));
    drop(db);
    let db = SimpleDB::open(&mut disk).unwrap();
    assert_eq!(db.get(b""), Some(Vec::new()));
}

#[test]
fn test_puts_on_distinct_keys_are_all_seen() {
    let mut disk = Disk::new();
    let mut db = SimpleDB::open(&mut disk).unwrap();
    for i in 0..50u8 {
        db.put(&mut disk, vec![b'k', i], vec![i, i]).unwrap();
    }
    for i in (0..50u8).rev() {
        assert_eq!(db.get(&[b'k', i]), Some(vec![i, i]));
    }
}

#[test]
fn test_put_is_logged_and_flushed() {
    let mut disk = Disk::new();
    let mut db = SimpleDB::open(&mut disk).unwrap();
    db.put(&mut disk, b"ab".to_vec(), b"c".to_vec()).unwrap();
    let expected: Vec<u8> = vec![
        0, 0, 0, 0, 0, 0, 0, 1, b'p', 0, 0, 0, 0, 0, 0, 0, 2, b'a', b'b', 0, 0, 0, 0, 0, 0, 0, 1,
        b'c',
    ];
    assert_eq!(disk.read(b"logfile.0").unwrap(), expected);
    assert_eq!(disk.flushed_len(b"logfile.0").unwrap(), expected.len());
    db.delete(&mut disk, b"ab".to_vec()).unwrap();
    let mut more = expected.clone();
    more.extend_from_slice(&[0, 0, 0, 0, 0, 0, 0, 1, b'd', 0, 0, 0, 0, 0, 0, 0, 2, b'a', b'b']);
    assert_eq!(disk.read(b"logfile.0").unwrap(), more);
    assert_eq!(disk.flushed_len(b"logfile.0").unwrap(), more.len());
}

#[test]
fn test_recovery_replays_the_log_in_order() {
    let mut disk = Disk::new();
    let mut db = SimpleDB::open(&mut disk).unwrap();
    db.put(&mut disk, b"a".to_vec(), b"1".to_vec()).unwrap();
    db.put(&mut disk, b"b".to_vec(), b"2".to_vec()).unwrap();
    db.put(&mut disk, b"a".to_vec(), b"3".to_vec()).unwrap();
    db.delete(&mut disk, b"b".to_vec()).unwrap();
    db.put(&mut disk, b"c".to_vec(), b"4".to_vec()).unwrap();
    drop(db);
    let db = SimpleDB::open(&mut disk).unwrap();
    assert_eq!(db.get(b"a"), Some(b"3".to_vec()));
    assert_eq!(db.get(b"b"), None);
    assert_eq!(db.get(b"c"), Some(b"4".to_vec()));
    assert_eq!(db.version(), 0);
}

#[test]
fn test_commit_writes_the_checkpoint() {
    let mut disk = Disk::new();
    let mut db = SimpleDB::open(&mut disk).unwrap();
    db.put(&mut disk, b"k".to_vec(), b"vw".to_vec()).unwrap();
    db.commit(&mut disk).unwrap();
    let expected: Vec<u8> =
        vec![0, 0, 0, 0, 0, 0, 0, 1, b'k', 0, 0, 0, 0, 0, 0, 0, 2, b'v', b'w'];
    assert_eq!(disk.read(b"checkpoint.1").unwrap(), expected);
    assert_eq!(disk.flushed_len(b"checkpoint.1").unwrap(), expected.len());
    assert_eq!(disk.read(b"logfile.1").unwrap(), Vec::<u8>::new());
}

#[test]
fn test_writes_after_commit_survive_reopening() {
    let mut disk = Disk::new();
    let mut db = SimpleDB::open(&mut disk).unwrap();
    db.put(&mut disk, b"a".to_vec(), b"1".to_vec()).unwrap();
    db.put(&mut disk, b"b".to_vec(), b"2".to_vec()).unwrap();
    db.commit(&mut disk).unwrap();
    db.put(&mut disk, b"a".to_vec(), b"9".to_vec()).unwrap();
    db.delete(&mut disk, b"b".to_vec()).unwrap();
    db.commit(&mut disk).unwrap();
    db.put(&mut disk, b"c".to_vec(), b"3".to_vec()).unwrap();
    assert_eq!(db.version(), 2);
    drop(db);
    let db = SimpleDB::open(&mut disk).unwrap();
    assert_eq!(db.version(), 2);
    assert_eq!(db.get(b"a"), Some(b"9".to_vec()));
    assert_eq!(db.get(b"b"), None);
    assert_eq!(db.get(b"c"), Some(b"3".to_vec()));
    assert!(disk.file_exists(b"checkpoint.2"));
    assert!(disk.file_exists(b"logfile.2"));
    assert!(!disk.file_exists(b"checkpoint.1"));
    assert!(!disk.file_exists(b"logfile.1"));
}

#[test]
fn test_version_grows_by_one_with_each_commit() {
    let mut disk = Disk::new();
    let mut db = SimpleDB::open(&mut disk).unwrap();
    for expected in 1..=12u64 {
        db.commit(&mut disk).unwrap();
        assert_eq!(db.version(), expected);
        assert_eq!(get_version_from_file(&disk), expected);
    }
    assert!(disk.file_exists(b"checkpoint.12"));
    assert!(disk.file_exists(b"logfile.12"));
    assert!(!disk.file_exists(b"checkpoint.11"));
}

fn store_cut_short_in_commit(steps: usize) -> Disk {
    let mut disk = Disk::new();
    let mut db = SimpleDB::open(&mut disk).unwrap();
    db.put(&mut disk, b"name".to_vec(), b"bob".to_vec()).unwrap();
    let checkpoint: Vec<u8> =
        vec![0, 0, 0, 0, 0, 0, 0, 4, b'n', b'a', b'm', b'e', 0, 0, 0, 0, 0, 0, 0, 3, b'b', b'o', b'b'];
    let ops = vec![
        DiskOp::CreateFile(b"new_version".to_vec()),
        DiskOp::Append(b"new_version".to_vec(), b"1".to_vec()),
        DiskOp::CreateFile(b"checkpoint.1".to_vec()),
        DiskOp::Append(b"checkpoint.1".to_vec(), checkpoint),
        DiskOp::Sync(b"checkpoint.1".to_vec()),
        DiskOp::CreateFile(b"logfile.1".to_vec()),
        DiskOp::RemoveFile(b"logfile.0".to_vec()),
        DiskOp::RemoveFile(b"checkpoint.0".to_vec()),
        DiskOp::RemoveFile(b"version".to_vec()),
        DiskOp::Rename(b"new_version".to_vec(), b"version".to_vec()),
    ];
    for op in ops.into_iter().take(steps) {
        disk.apply(op).unwrap();
    }
    disk
}

#[test]
fn test_commit_steps_are_in_the_journal() {
    let mut disk = Disk::new();
    let mut db = SimpleDB::open(&mut disk).unwrap();
    db.put(&mut disk, b"name".to_vec(), b"bob".to_vec()).unwrap();
    disk.take_journal();
    db.commit(&mut disk).unwrap();
    let journal = disk.take_journal();

    let mut by_hand = store_cut_short_in_commit(10);
    let all = by_hand.take_journal();
    assert_eq!(journal.len(), 10);
    assert_eq!(journal, all[all.len() - 10..].to_vec());
    assert_eq!(journal[0], DiskOp::CreateFile(b"new_version".to_vec()));
    assert_eq!(journal[9], DiskOp::Rename(b"new_version".to_vec(), b"version".to_vec()));
}

#[test]
fn test_recovery_steps_are_in_the_journal() {
    let mut disk = store_cut_short_in_commit(7);
    disk.take_journal();
    SimpleDB::open(&mut disk).unwrap();
    assert_eq!(disk.take_journal(), vec![DiskOp::RemoveFile(b"new_version".to_vec())]);
    let mut disk = store_cut_short_in_commit(0);
    disk.take_journal();
    SimpleDB::open(&mut disk).unwrap();
    assert_eq!(disk.take_journal(), Vec::<DiskOp>::new());
}

#[test]
fn test_recovery_takes_the_pending_version() {
    for steps in 6..=9 {
        let mut disk = store_cut_short_in_commit(steps);
        let db = SimpleDB::open(&mut disk).unwrap();
        assert_eq!(db.version(), 1);
        assert_eq!(db.get(b"name"), Some(b"bob".to_vec()));
        assert!(!disk.file_exists(b"new_version"));
    }
}

#[test]
fn test_recovery_after_commit_cut_short_early() {
    let mut disk = store_cut_short_in_commit(2);
    assert!(matches!(SimpleDB::open(&mut disk), Err(DatabaseError::LoadCheckpoint)));
    assert!(!disk.file_exists(b"new_version"));
    let db = SimpleDB::open(&mut disk).unwrap();
    assert_eq!(db.version(), 0);
    assert_eq!(db.get(b"name"), Some(b"bob".to_vec()));

    for steps in 3..=5 {
        let mut disk = store_cut_short_in_commit(steps);
        assert!(matches!(
            SimpleDB::open(&mut disk),
            Err(DatabaseError::NotFound(IoErrorKind::NotFound))
        ));
        let db = SimpleDB::open(&mut disk).unwrap();
        assert_eq!(db.version(), 0);
        assert_eq!(db.get(b"name"), Some(b"bob".to_vec()));
    }
}

#[test]
fn test_recovery_with_empty_pending_marker_fails() {
    let mut disk = store_cut_short_in_commit(1);
    assert!(matches!(
        SimpleDB::open(&mut disk),
        Err(DatabaseError::NotFound(IoErrorKind::InvalidData))
    ));
    assert!(disk.file_exists(b"new_version"));
}

#[test]
fn test_open_without_marker_fails() {
    let mut disk = Disk::new();
    disk.apply(DiskOp::CreateDir).unwrap();
    assert!(matches!(
        SimpleDB::open(&mut disk),
        Err(DatabaseError::NotFound(IoErrorKind::NotFound))
    ));
}

#[test]
fn test_open_with_missing_checkpoint_fails() {
    let mut disk = Disk::new();
    SimpleDB::open(&mut disk).unwrap();
    disk.apply(DiskOp::RemoveFile(b"checkpoint.0".to_vec())).unwrap();
    assert!(matches!(SimpleDB::open(&mut disk), Err(DatabaseError::LoadCheckpoint)));
}

#[test]
fn test_open_with_cut_checkpoint_fails() {
    let mut disk = Disk::new();
    SimpleDB::open(&mut disk).unwrap();
    disk.apply(DiskOp::Append(b"checkpoint.0".to_vec(), vec![0, 0, 0, 0, 0, 0, 0, 1, b'k', 0, 0]))
        .unwrap();
    assert!(matches!(SimpleDB::open(&mut disk), Err(DatabaseError::LoadCheckpoint)));
}

#[test]
fn test_open_with_missing_log_fails() {
    let mut disk = Disk::new();
    SimpleDB::open(&mut disk).unwrap();
    disk.apply(DiskOp::RemoveFile(b"logfile.0".to_vec())).unwrap();
    assert!(matches!(
        SimpleDB::open(&mut disk),
        Err(DatabaseError::NotFound(IoErrorKind::NotFound))
    ));
}

#[test]
fn test_open_with_invalid_log_tag_fails() {
    let mut disk = Disk::new();
    SimpleDB::open(&mut disk).unwrap();
    disk.apply(DiskOp::Append(b"logfile.0".to_vec(), vec![0, 0, 0, 0, 0, 0, 0, 1, b'x'])).unwrap();
    assert!(matches!(
        SimpleDB::open(&mut disk),
        Err(DatabaseError::Other(LogError::InvalidOperation('x')))
    ));
}

#[test]
fn test_open_ignores_a_cut_last_log_entry() {
    let mut disk = Disk::new();
    let mut db = SimpleDB::open(&mut disk).unwrap();
    db.put(&mut disk, b"a".to_vec(), b"1".to_vec()).unwrap();
    disk.apply(DiskOp::Append(
        b"logfile.0".to_vec(),
        vec![0, 0, 0, 0, 0, 0, 0, 1, b'p', 0, 0, 0, 0, 0, 0, 0, 5, b'b'],
    ))
    .unwrap();
    let db = SimpleDB::open(&mut disk).unwrap();
    assert_eq!(db.get(b"a"), Some(b"1".to_vec()));
    assert_eq!(db.get(b"b"), None);
}

#[test]
fn test_open_with_unreadable_marker_fails() {
    let mut disk = Disk::new();
    SimpleDB::open(&mut disk).unwrap();
    disk.apply(DiskOp::Append(b"version".to_vec(), b"x".to_vec())).unwrap();
    assert!(matches!(
        SimpleDB::open(&mut disk),
        Err(DatabaseError::NotFound(IoErrorKind::InvalidData))
    ));
}

#[test]
fn test_write_with_missing_log_changes_nothing() {
    let mut disk = Disk::new();
    let mut db = SimpleDB::open(&mut disk).unwrap();
    db.put(&mut disk, b"a".to_vec(), b"1".to_vec()).unwrap();
    disk.apply(DiskOp::RemoveFile(b"logfile.0".to_vec())).unwrap();
    assert!(matches!(
        db.put(&mut disk, b"a".to_vec(), b"2".to_vec()),
        Err(DatabaseError::Other(LogError::Io(IoErrorKind::NotFound)))
    ));
    assert!(matches!(
        db.delete(&mut disk, b"a".to_vec()),
        Err(DatabaseError::Other(LogError::Io(IoErrorKind::NotFound)))
    ));
    assert_eq!(db.get(b"a"), Some(b"1".to_vec()));
}

#[test]
fn test_failed_commit_closes_the_engine_to_writes() {
    let mut disk = Disk::new();
    let mut db = SimpleDB::open(&mut disk).unwrap();
    db.put(&mut disk, b"a".to_vec(), b"1".to_vec()).unwrap();
    assert!(db.get_write_records().is_ok());
    disk.apply(DiskOp::RemoveFile(b"version".to_vec())).unwrap();
    assert!(matches!(
        db.commit(&mut disk),
        Err(DatabaseError::NotFound(IoErrorKind::NotFound))
    ));
    assert_eq!(db.version(), 0);
    assert_eq!(db.get(b"a"), Some(b"1".to_vec()));
    assert!(!disk.file_exists(b"logfile.0"));
    let log_before = disk.read(b"logfile.1").unwrap();
    match db.put(&mut disk, b"b".to_vec(), b"2".to_vec()) {
        Err(DatabaseError::Lock { kind, reason }) => {
            assert_eq!(kind, LockKind::Write);
            assert_eq!(reason, Some(String::from("Commit in progress")));
        }
        other => panic!("{:?}", other),
    }
    assert!(matches!(
        db.delete(&mut disk, b"a".to_vec()),
        Err(DatabaseError::Lock { kind: LockKind::Write, reason: Some(_) })
    ));
    assert!(matches!(
        db.get_write_records(),
        Err(DatabaseError::Lock { kind: LockKind::Write, reason: Some(_) })
    ));
    assert_eq!(db.get(b"b"), None);
    assert_eq!(db.get(b"a"), Some(b"1".to_vec()));
    assert_eq!(disk.read(b"logfile.1").unwrap(), log_before);
}

#[test]
fn test_commit_without_directory_fails_at_the_first_step() {
    let mut disk = Disk::new();
    let mut db = SimpleDB::open(&mut disk).unwrap();
    let mut other = Disk::new();
    assert!(matches!(
        db.commit(&mut other),
        Err(DatabaseError::NotFound(IoErrorKind::NotFound))
    ));
    assert!(!other.dir_exists());
    assert_eq!(db.version(), 0);
    assert!(db.commit(&mut disk).is_ok());
    assert_eq!(db.version(), 1);
    assert!(db.put(&mut disk, b"a".to_vec(), b"1".to_vec()).is_ok());
}

#[test]
fn test_database_error_from_log_error() {
    assert!(matches!(
        DatabaseError::from(LogError::EndReached),
        DatabaseError::Other(LogError::EndReached)
    ));
    assert!(matches!(
        DatabaseError::from(LogError::InvalidOperation('z')),
        DatabaseError::Other(LogError::InvalidOperation('z'))
    ));
    assert!(matches!(
        DatabaseError::from(IoErrorKind::AlreadyExists),
        DatabaseError::NotFound(IoErrorKind::AlreadyExists)
    ));
    assert!(matches!(
        LogError::from(IoErrorKind::UnexpectedEof),
        LogError::Io(IoErrorKind::UnexpectedEof)
    ));
}

#[test]
fn test_begin_and_end_write() {
    let mut disk = Disk::new();
    let mut db = SimpleDB::open(&mut disk).unwrap();
    let op = LogOperation::Put(b"k".to_vec(), b"v".to_vec());
    let plan = db.begin_write(op.clone()).unwrap();
    assert_eq!(
        plan,
        vec![
            DiskOp::Append(
                b"logfile.0".to_vec(),
                vec![0, 0, 0, 0, 0, 0, 0, 1, b'p', 0, 0, 0, 0, 0, 0, 0, 1, b'k', 0, 0, 0, 0, 0, 0, 0, 1, b'v'],
            ),
            DiskOp::Sync(b"logfile.0".to_vec()),
        ]
    );
    assert_eq!(db.get(b"k"), None);
    assert!(matches!(
        db.end_write(op.clone(), Err(IoErrorKind::Other)),
        Err(DatabaseError::Other(LogError::Io(IoErrorKind::Other)))
    ));
    assert_eq!(db.get(b"k"), None);
    assert!(db.end_write(op, Ok(())).is_ok());
    assert_eq!(db.get(b"k"), Some(b"v".to_vec()));
    let op = LogOperation::Delete(b"k".to_vec());
    let plan = db.begin_write(op.clone()).unwrap();
    assert_eq!(
        plan[0],
        DiskOp::Append(
            b"logfile.0".to_vec(),
            vec![0, 0, 0, 0, 0, 0, 0, 1, b'd', 0, 0, 0, 0, 0, 0, 0, 1, b'k'],
        )
    );
    assert!(db.end_write(op, Ok(())).is_ok());
    assert_eq!(db.get(b"k"), None);
}

#[test]
fn test_begin_and_end_commit() {
    let mut disk = Disk::new();
    let mut db = SimpleDB::open(&mut disk).unwrap();
    db.put(&mut disk, b"k".to_vec(), b"v".to_vec()).unwrap();
    let plan = db.begin_commit();
    assert_eq!(
        plan,
        vec![
            DiskOp::CreateFile(b"new_version".to_vec()),
            DiskOp::Append(b"new_version".to_vec(), b"1".to_vec()),
            DiskOp::CreateFile(b"checkpoint.1".to_vec()),
            DiskOp::Append(
                b"checkpoint.1".to_vec(),
                vec![0, 0, 0, 0, 0, 0, 0, 1, b'k', 0, 0, 0, 0, 0, 0, 0, 1, b'v'],
            ),
            DiskOp::Sync(b"checkpoint.1".to_vec()),
            DiskOp::CreateFile(b"logfile.1".to_vec()),
            DiskOp::RemoveFile(b"logfile.0".to_vec()),
            DiskOp::RemoveFile(b"checkpoint.0".to_vec()),
            DiskOp::RemoveFile(b"version".to_vec()),
            DiskOp::Rename(b"new_version".to_vec(), b"version".to_vec()),
        ]
    );
    assert_eq!(db.version(), 0);
    assert!(matches!(
        db.begin_write(LogOperation::Delete(b"k".to_vec())),
        Err(DatabaseError::Lock { kind: LockKind::Write, reason: Some(_) })
    ));
    assert!(matches!(
        db.end_write(LogOperation::Put(b"late".to_vec(), b"1".to_vec()), Ok(())),
        Err(DatabaseError::Lock { kind: LockKind::Write, reason: Some(_) })
    ));
    assert_eq!(db.get(b"late"), None);
    assert!(matches!(
        db.end_commit(Err(IoErrorKind::Other)),
        Err(DatabaseError::NotFound(IoErrorKind::Other))
    ));
    assert_eq!(db.version(), 0);
    assert!(db.get_write_records().is_err());
    let again = db.begin_commit();
    assert_eq!(again, plan);
    disk.run(again).unwrap();
    assert!(db.end_commit(Ok(())).is_ok());
    assert_eq!(db.version(), 1);
    assert!(db.get_write_records().is_ok());
    db.put(&mut disk, b"j".to_vec(), b"w".to_vec()).unwrap();
    assert_eq!(disk.read(b"logfile.1").unwrap().len(), 27);
    let db = SimpleDB::open(&mut disk).unwrap();
    assert_eq!(db.version(), 1);
    assert_eq!(db.get(b"k"), Some(b"v".to_vec()));
    assert_eq!(db.get(b"j"), Some(b"w".to_vec()));
}
