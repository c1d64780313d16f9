use simpledb::byte_map::{bytes_eq, ByteMap};
use simpledb::bytes::ByteReader;
use simpledb::db::{create_db_file, create_version_file, read_string_from_file, SimpleDB};
use simpledb::disk::{Disk, DiskOp};
use simpledb::error::{DatabaseError, IoErrorKind};
use simpledb::records::Records;

#[test]
fn test_disk_starts_without_directory() {
    let mut disk = Disk::new();
    assert!(!disk.dir_exists());
    assert!(!disk.file_exists(b"version"));
    assert_eq!(disk.read(b"version"), Err(IoErrorKind::NotFound));
    assert_eq!(disk.flushed_len(b"version"), Err(IoErrorKind::NotFound));
    assert_eq!(disk.take_journal(), Vec::<DiskOp>::new());
}

#[test]
fn test_disk_create_dir_once() {
    let mut disk = Disk::new();
    assert_eq!(disk.apply(DiskOp::CreateDir), Ok(()));
    assert!(disk.dir_exists());
    assert_eq!(disk.apply(DiskOp::CreateDir), Err(IoErrorKind::AlreadyExists));
    assert_eq!(disk.take_journal(), vec![DiskOp::CreateDir]);
}

#[test]
fn test_disk_file_needs_directory() {
    let mut disk = Disk::new();
    assert_eq!(disk.apply(DiskOp::CreateFile(b"a".to_vec())), Err(IoErrorKind::NotFound));
    assert_eq!(disk.apply(DiskOp::Append(b"a".to_vec(), vec![1])), Err(IoErrorKind::NotFound));
    assert_eq!(disk.apply(DiskOp::Sync(b"a".to_vec())), Err(IoErrorKind::NotFound));
    assert_eq!(disk.apply(DiskOp::RemoveFile(b"a".to_vec())), Err(IoErrorKind::NotFound));
    assert_eq!(
        disk.apply(DiskOp::Rename(b"a".to_vec(), b"b".to_vec())),
        Err(IoErrorKind::NotFound)
    );
    assert!(!disk.dir_exists());
    assert_eq!(disk.take_journal(), Vec::<DiskOp>::new());
}

#[test]
fn test_disk_append_sync_and_create_again() {
    let mut disk = Disk::new();
    disk.apply(DiskOp::CreateDir).unwrap();
    disk.apply(DiskOp::CreateFile(b"f".to_vec())).unwrap();
    assert_eq!(disk.read(b"f"), Ok(vec![]));
    disk.apply(DiskOp::Append(b"f".to_vec(), vec![1, 2])).unwrap();
    disk.apply(DiskOp::Append(b"f".to_vec(), vec![3])).unwrap();
    assert_eq!(disk.read(b"f"), Ok(vec![1, 2, 3]));
    assert_eq!(disk.flushed_len(b"f"), Ok(0));
    disk.apply(DiskOp::Sync(b"f".to_vec())).unwrap();
    assert_eq!(disk.flushed_len(b"f"), Ok(3));
    disk.apply(DiskOp::Append(b"f".to_vec(), vec![4])).unwrap();
    assert_eq!(disk.flushed_len(b"f"), Ok(3));
    assert_eq!(disk.read(b"f"), Ok(vec![1, 2, 3, 4]));
    disk.apply(DiskOp::CreateFile(b"f".to_vec())).unwrap();
    assert_eq!(disk.read(b"f"), Ok(vec![]));
    assert_eq!(disk.flushed_len(b"f"), Ok(0));
    assert_eq!(disk.apply(DiskOp::Append(b"g".to_vec(), vec![1])), Err(IoErrorKind::NotFound));
    assert_eq!(disk.apply(DiskOp::Sync(b"g".to_vec())), Err(IoErrorKind::NotFound));
}

#[test]
fn test_disk_remove_and_rename() {
    let mut disk = Disk::new();
    disk.apply(DiskOp::CreateDir).unwrap();
    disk.apply(DiskOp::CreateFile(b"a".to_vec())).unwrap();
    disk.apply(DiskOp::Append(b"a".to_vec(), vec![1])).unwrap();
    disk.apply(DiskOp::CreateFile(b"b".to_vec())).unwrap();
    disk.apply(DiskOp::Append(b"b".to_vec(), vec![2])).unwrap();
    disk.apply(DiskOp::Rename(b"a".to_vec(), b"b".to_vec())).unwrap();
    assert!(!disk.file_exists(b"a"));
    assert_eq!(disk.read(b"b"), Ok(vec![1]));
    disk.apply(DiskOp::Rename(b"b".to_vec(), b"b".to_vec())).unwrap();
    assert_eq!(disk.read(b"b"), Ok(vec![1]));
    assert_eq!(
        disk.apply(DiskOp::Rename(b"a".to_vec(), b"c".to_vec())),
        Err(IoErrorKind::NotFound)
    );
    disk.apply(DiskOp::RemoveFile(b"b".to_vec())).unwrap();
    assert!(!disk.file_exists(b"b"));
    assert_eq!(disk.apply(DiskOp::RemoveFile(b"b".to_vec())), Err(IoErrorKind::NotFound));
    assert!(disk.dir_exists());
}

#[test]
fn test_disk_journal_holds_what_succeeded() {
    let mut disk = Disk::new();
    disk.apply(DiskOp::CreateDir).unwrap();
    disk.apply(DiskOp::CreateFile(b"a".to_vec())).unwrap();
    let _ = disk.apply(DiskOp::RemoveFile(b"zz".to_vec()));
    disk.apply(DiskOp::Append(b"a".to_vec(), vec![5])).unwrap();
    assert_eq!(
        disk.take_journal(),
        vec![
            DiskOp::CreateDir,
            DiskOp::CreateFile(b"a".to_vec()),
            DiskOp::Append(b"a".to_vec(), vec![5]),
        ]
    );
    assert_eq!(disk.take_journal(), Vec::<DiskOp>::new());
    disk.apply(DiskOp::Sync(b"a".to_vec())).unwrap();
    assert_eq!(disk.take_journal(), vec![DiskOp::Sync(b"a".to_vec())]);
    assert_eq!(disk.read(b"a"), Ok(vec![5]));
}

#[test]
fn test_new_store_journal() {
    let mut disk = Disk::new();
    SimpleDB::open(&mut disk).unwrap();
    assert_eq!(
        disk.take_journal(),
        vec![
            DiskOp::CreateDir,
            DiskOp::CreateFile(b"version".to_vec()),
            DiskOp::Append(b"version".to_vec(), b"0".to_vec()),
            DiskOp::CreateFile(b"checkpoint.0".to_vec()),
            DiskOp::CreateFile(b"logfile.0".to_vec()),
        ]
    );
    SimpleDB::open(&mut disk).unwrap();
    assert_eq!(disk.take_journal(), Vec::<DiskOp>::new());
}

#[test]
fn test_create_version_file() {
    let mut plan = vec![DiskOp::CreateDir];
    create_version_file(&mut plan, 3, false);
    create_version_file(&mut plan, 41, true);
    assert_eq!(
        plan,
        vec![
            DiskOp::CreateDir,
            DiskOp::CreateFile(b"version".to_vec()),
            DiskOp::Append(b"version".to_vec(), b"3".to_vec()),
            DiskOp::CreateFile(b"new_version".to_vec()),
            DiskOp::Append(b"new_version".to_vec(), b"41".to_vec()),
        ]
    );
    let mut disk = Disk::new();
    assert_eq!(disk.run(plan), Ok(()));
    assert_eq!(disk.read(b"version"), Ok(b"3".to_vec()));
    assert_eq!(disk.read(b"new_version"), Ok(b"41".to_vec()));
    let mut again = Vec::new();
    create_version_file(&mut again, 4, false);
    assert_eq!(disk.run(again), Ok(()));
    assert_eq!(read_string_from_file(&disk, b"version"), Ok(b"4".to_vec()));
    assert_eq!(read_string_from_file(&disk, b"nothing"), Err(IoErrorKind::NotFound));
}

#[test]
fn test_create_db_file() {
    let mut plan = Vec::new();
    assert_eq!(create_db_file(&mut plan, 1, "checkpoint"), b"checkpoint.1".to_vec());
    assert_eq!(create_db_file(&mut plan, 20, "logfile"), b"logfile.20".to_vec());
    assert_eq!(
        plan,
        vec![
            DiskOp::CreateFile(b"checkpoint.1".to_vec()),
            DiskOp::CreateFile(b"logfile.20".to_vec()),
        ]
    );
}

#[test]
fn test_disk_run_stops_at_the_first_failure() {
    let mut disk = Disk::new();
    let plan = vec![
        DiskOp::CreateDir,
        DiskOp::CreateFile(b"a".to_vec()),
        DiskOp::RemoveFile(b"b".to_vec()),
        DiskOp::CreateFile(b"c".to_vec()),
    ];
    assert_eq!(disk.run(plan), Err(IoErrorKind::NotFound));
    assert!(disk.file_exists(b"a"));
    assert!(!disk.file_exists(b"c"));
    assert_eq!(disk.run(vec![DiskOp::CreateDir]), Err(IoErrorKind::AlreadyExists));
    assert_eq!(disk.run(Vec::new()), Ok(()));
    assert_eq!(
        disk.take_journal(),
        vec![DiskOp::CreateDir, DiskOp::CreateFile(b"a".to_vec())]
    );
}

#[test]
fn test_checkpoint_is_read_back() {
    let mut disk = Disk::new();
    let mut db = SimpleDB::open(&mut disk).unwrap();
    db.put(&mut disk, b"one".to_vec(), b"1".to_vec()).unwrap();
    db.put(&mut disk, b"two".to_vec(), b"22".to_vec()).unwrap();
    db.put(&mut disk, b"".to_vec(), b"".to_vec()).unwrap();
    db.put(&mut disk, b"one".to_vec(), b"uno".to_vec()).unwrap();
    let mut plan = vec![DiskOp::CreateFile(b"copy".to_vec())];
    db.write_records_to_file(&mut plan, b"copy".to_vec());
    assert_eq!(plan.len(), 3);
    assert_eq!(plan[2], DiskOp::Sync(b"copy".to_vec()));
    disk.run(plan).unwrap();
    let bytes = disk.read(b"copy").unwrap();
    assert_eq!(disk.flushed_len(b"copy"), Ok(bytes.len()));
    let mut reader = ByteReader::new(bytes);
    let records = SimpleDB::read_records_from_file(&mut reader).unwrap();
    assert_eq!(reader.remaining(), 0);
    assert_eq!(records.len(), 3);
    assert_eq!(records.get(b"one"), Some(&b"uno".to_vec()));
    assert_eq!(records.get(b"two"), Some(&b"22".to_vec()));
    assert_eq!(records.get(b""), Some(&b"".to_vec()));
    assert_eq!(records.get(b"three"), None);
}

#[test]
fn test_cleanup_previous_commit_files() {
    let mut disk = Disk::new();
    let db = SimpleDB::open(&mut disk).unwrap();
    let mut plan = Vec::new();
    db.cleanup_previous_commit_files(&mut plan);
    assert_eq!(
        plan,
        vec![
            DiskOp::RemoveFile(b"logfile.0".to_vec()),
            DiskOp::RemoveFile(b"checkpoint.0".to_vec()),
            DiskOp::RemoveFile(b"version".to_vec()),
            DiskOp::Rename(b"new_version".to_vec(), b"version".to_vec()),
        ]
    );
}

#[test]
fn test_read_records_from_file() {
    let mut reader = ByteReader::new(Vec::new());
    assert_eq!(SimpleDB::read_records_from_file(&mut reader).unwrap().len(), 0);

    let one: Vec<u8> = vec![0, 0, 0, 0, 0, 0, 0, 1, b'k', 0, 0, 0, 0, 0, 0, 0, 1, b'v'];
    let mut twice = one.clone();
    twice.extend_from_slice(&[0, 0, 0, 0, 0, 0, 0, 1, b'k', 0, 0, 0, 0, 0, 0, 0, 1, b'w']);
    let mut reader = ByteReader::new(twice);
    let records = SimpleDB::read_records_from_file(&mut reader).unwrap();
    assert_eq!(records.len(), 1);
    assert_eq!(records.get(b"k"), Some(&b"w".to_vec()));

    for cut in 1..one.len() {
        let mut reader = ByteReader::new(one[..cut].to_vec());
        assert!(matches!(
            SimpleDB::read_records_from_file(&mut reader),
            Err(DatabaseError::NotFound(IoErrorKind::UnexpectedEof))
        ));
        assert_eq!(reader.remaining(), cut);
    }
}

#[test]
fn test_records() {
    let mut records = Records::new();
    assert_eq!(records.len(), 0);
    records.insert(b"a".to_vec(), b"1".to_vec());
    records.insert(b"b".to_vec(), b"2".to_vec());
    records.insert(b"a".to_vec(), b"3".to_vec());
    assert_eq!(records.len(), 2);
    assert_eq!(records.get(b"a"), Some(&b"3".to_vec()));
    assert_eq!(records.key_at(0), &b"a".to_vec());
    assert_eq!(records.value_at(0), &b"3".to_vec());
    assert_eq!(records.key_at(1), &b"b".to_vec());
    records.remove(b"a");
    records.remove(b"zzz");
    assert_eq!(records.len(), 1);
    assert_eq!(records.get(b"a"), None);
    assert_eq!(records.key_at(0), &b"b".to_vec());
    assert_eq!(records.value_at(0), &b"2".to_vec());
}

#[test]
fn test_byte_map() {
    let mut map: ByteMap<u32> = ByteMap::new();
    assert_eq!(map.len(), 0);
    assert_eq!(map.find(b"a"), None);
    map.insert(b"a".to_vec(), 1);
    map.insert(b"b".to_vec(), 2);
    map.insert(b"c".to_vec(), 3);
    map.insert(b"b".to_vec(), 20);
    assert_eq!(map.len(), 3);
    assert_eq!(map.find(b"b"), Some(1));
    assert_eq!(map.get(b"b"), Some(&20));
    assert!(map.contains_key(b"c"));
    assert!(!map.contains_key(b"d"));
    assert_eq!(map.remove(b"a"), Some(1));
    assert_eq!(map.remove(b"a"), None);
    assert_eq!(map.len(), 2);
    assert_eq!(map.key_at(0), &b"b".to_vec());
    assert_eq!(map.value_at(1), &3);
    assert!(bytes_eq(b"abc", b"abc"));
    assert!(!bytes_eq(b"abc", b"abd"));
    assert!(!bytes_eq(b"abc", b"ab"));
    assert!(bytes_eq(b"", b""));
}
