//! The storage engine: the record set in memory, the log that makes each
//! change durable before it is applied, and the commit that replaces log and
//! checkpoint by a new checkpoint under the next version.

use crate::byte_map::{spec_distinct_keys, spec_map_of};
use crate::bytes::{
    read_bytes_from_log, read_u64_from_log, write_encoded_bytes_to_buffer, ByteReader,
};
use crate::checkpoint::{
    spec_decode_records, spec_encode_records, spec_load_records, spec_prepend_pairs,
};
use crate::disk::{spec_op_views, Disk, DiskOp, DiskOpView, DiskView, Run};
use crate::error::{DatabaseError, IoErrorKind, LockKind, LogError};
use crate::files::{
    encode_decimal, get_db_file_path, parse_decimal, spec_checkpoint_name, spec_db_file_path,
    spec_log_name, spec_new_version_name, spec_parse_decimal, CHECKPOINT_FILE_NAME,
    LOG_FILE_NAME, NEW_VERSION_FILE_NAME, VERSION_FILE_NAME,
};
use crate::log::{
    lemma_append_to_disk_plan, spec_append_to_disk_plan, spec_apply_all, spec_operation_views,
    spec_replay, Log, LogOperation, LogOperationView,
};
use crate::plans::{
    lemma_commit_succeeds, lemma_initial_steps, spec_can_commit, spec_cleanup_plan,
    spec_commit_plan, spec_commit_run, spec_initial_plan, spec_initialize, spec_marker_name,
    spec_version_file_plan, spec_write_records_plan,
};
use crate::records::{spec_pairs_fit, Records};
use vstd::prelude::*;
use vstd::slice::slice_to_vec;

verus! {

/// The engine as contracts see it.
pub struct SimpleDBView {
    /// The value of each key.
    pub records: Map<Seq<u8>, Seq<u8>>,
    /// The name of the file of the log in use.
    pub log: Seq<u8>,
    /// The current version.
    pub version: u64,
    /// Whether a commit was begun and has not come to its end.
    pub commit_in_progress: bool,
}

/// The engine of a new store.
pub open spec fn spec_new_store() -> SimpleDBView {
    SimpleDBView {
        records: Map::empty(),
        log: spec_log_name(0),
        version: 0,
        commit_in_progress: false,
    }
}

/// The version that the markers of an existing store name: that of the
/// pending marker where there is one, else that of the marker.
pub open spec fn spec_marker_version(disk: DiskView) -> Result<u64, DatabaseError> {
    let name = spec_marker_name(disk.has_file(spec_new_version_name()));
    if !disk.has_file(name) {
        Err(DatabaseError::NotFound(IoErrorKind::NotFound))
    } else {
        match spec_parse_decimal(disk.files[name].bytes) {
            Some(version) => Ok(version),
            None => Err(DatabaseError::NotFound(IoErrorKind::InvalidData)),
        }
    }
}

/// The directory after a recovery: a pending marker that names a version is
/// deleted, nothing else changes.
pub open spec fn spec_recover_disk(disk: DiskView) -> DiskView {
    if disk.has_file(spec_new_version_name()) && spec_marker_version(disk) is Ok {
        disk.apply(DiskOpView::RemoveFile(spec_new_version_name()))
    } else {
        disk
    }
}

/// The engine that a recovery gives: the record set of the checkpoint of
/// the version that the markers name, changed by the operations of that
/// version's log.
pub open spec fn spec_recover(disk: DiskView) -> Result<SimpleDBView, DatabaseError> {
    match spec_marker_version(disk) {
        Err(e) => Err(e),
        Ok(version) => {
            let disk = spec_recover_disk(disk);
            let checkpoint = spec_checkpoint_name(version);
            let log = spec_log_name(version);
            if !disk.has_file(checkpoint) {
                Err(DatabaseError::LoadCheckpoint)
            } else {
                match spec_load_records(disk.files[checkpoint].bytes) {
                    None => Err(DatabaseError::LoadCheckpoint),
                    Some(records) => if !disk.has_file(log) {
                        Err(DatabaseError::NotFound(IoErrorKind::NotFound))
                    } else {
                        match spec_replay(disk.files[log].bytes) {
                            Err(e) => Err(DatabaseError::Other(e)),
                            Ok(ops) => Ok(
                                SimpleDBView {
                                    records: spec_apply_all(records, ops),
                                    log,
                                    version,
                                    commit_in_progress: false,
                                },
                            ),
                        }
                    },
                }
            }
        },
    }
}

/// The engine that opening a store gives: a new one where the directory
/// does not exist, a recovered one where it does.
pub open spec fn spec_open(disk: DiskView) -> Result<SimpleDBView, DatabaseError> {
    if disk.present {
        spec_recover(disk)
    } else {
        Ok(spec_new_store())
    }
}

/// The directory after a store was opened.
pub open spec fn spec_open_disk(disk: DiskView) -> DiskView {
    if disk.present {
        spec_recover_disk(disk)
    } else {
        spec_initialize(disk).disk
    }
}

/// The writing of one operation to the log, run on `disk`.
pub open spec fn spec_log_write(disk: DiskView, log: Seq<u8>, op: LogOperationView) -> Run {
    Run::start(disk).steps(spec_append_to_disk_plan(log, op))
}

/// The engine and the directory after a put or a delete. During a commit
/// nothing happens. Else the operation is logged, and applied to the record
/// set if it could be logged.
pub open spec fn spec_write(db: SimpleDBView, disk: DiskView, op: LogOperationView) -> (
    SimpleDBView,
    DiskView,
) {
    if db.commit_in_progress {
        (db, disk)
    } else if disk.has_file(db.log) {
        (SimpleDBView { records: op.apply_to(db.records), ..db }, spec_log_write(disk, db.log, op).disk)
    } else {
        (db, disk)
    }
}

/// The engine and the directory after the puts and deletes of `ops`, first
/// to last.
pub open spec fn spec_write_all(db: SimpleDBView, disk: DiskView, ops: Seq<LogOperationView>) -> (
    SimpleDBView,
    DiskView,
)
    decreases ops.len(),
{
    if ops.len() == 0 {
        (db, disk)
    } else {
        let before = spec_write_all(db, disk, ops.drop_last());
        spec_write(before.0, before.1, ops.last())
    }
}

/// The engine after a commit that succeeded: it has the record set it had,
/// at the next version, with that version's log.
pub open spec fn spec_committed(db: SimpleDBView) -> SimpleDBView {
    SimpleDBView {
        records: db.records,
        log: spec_log_name((db.version + 1) as u64),
        version: (db.version + 1) as u64,
        commit_in_progress: false,
    }
}

/// The engine after a commit whose steps ended as `outcome` says: the
/// committed engine where they succeeded, and else the engine as it was,
/// closed to writes.
pub open spec fn spec_commit(db: SimpleDBView, outcome: Option<IoErrorKind>) -> SimpleDBView {
    if outcome is None {
        spec_committed(db)
    } else {
        SimpleDBView { commit_in_progress: true, ..db }
    }
}

/// Whether an error is the refusal of a write during a commit.
pub open spec fn spec_is_commit_refusal(error: DatabaseError) -> bool {
    error matches DatabaseError::Lock { kind: LockKind::Write, reason: Some(reason) } && reason@
        == "Commit in progress"@
}

/// What a put or a delete returns: a refusal during a commit, a failure of
/// the log where its file is gone, and success otherwise.
pub open spec fn spec_write_result(
    db: SimpleDBView,
    disk: DiskView,
    result: Result<(), DatabaseError>,
) -> bool {
    if db.commit_in_progress {
        result matches Err(e) && spec_is_commit_refusal(e)
    } else if disk.has_file(db.log) {
        result is Ok
    } else {
        result == Err::<(), DatabaseError>(DatabaseError::Other(LogError::Io(IoErrorKind::NotFound)))
    }
}

/// Adds to `plan` the steps that write a version marker, the pending one
/// where `new` holds.
pub fn create_version_file(plan: &mut Vec<DiskOp>, version: u64, new: bool)
    ensures
        spec_op_views(final(plan)@) == spec_op_views(old(plan)@) + spec_version_file_plan(
            version,
            new,
        ),
{
    let file_name = if new {
        NEW_VERSION_FILE_NAME
    } else {
        VERSION_FILE_NAME
    };
    let file_path = get_db_file_path(None, file_name);
    let version_string = encode_decimal(version);
    plan.push(DiskOp::CreateFile(slice_to_vec(file_path.as_slice())));
    plan.push(DiskOp::Append(file_path, version_string));
    assert(spec_op_views(plan@) =~= spec_op_views(old(plan)@) + spec_version_file_plan(
        version,
        new,
    ));
}

/// Adds to `plan` the step that creates the empty file of this name and
/// version, and returns the file's name.
pub fn create_db_file(plan: &mut Vec<DiskOp>, version: u64, file_name: &str) -> (path: Vec<u8>)
    ensures
        path@ == spec_db_file_path(Some(version), file_name),
        spec_op_views(final(plan)@) == spec_op_views(old(plan)@) + seq![
            DiskOpView::CreateFile(spec_db_file_path(Some(version), file_name)),
        ],
{
    let file_path = get_db_file_path(Some(version), file_name);
    plan.push(DiskOp::CreateFile(slice_to_vec(file_path.as_slice())));
    assert(spec_op_views(plan@) =~= spec_op_views(old(plan)@) + seq![
        DiskOpView::CreateFile(spec_db_file_path(Some(version), file_name)),
    ]);
    file_path
}

/// The text of the file of this name.
pub fn read_string_from_file(disk: &Disk, path: &[u8]) -> (result: Result<Vec<u8>, IoErrorKind>)
    ensures
        match result {
            Ok(text) => disk@.has_file(path@) && text@ == disk@.files[path@].bytes,
            Err(e) => !disk@.has_file(path@) && e == IoErrorKind::NotFound,
        },
{
    disk.read(path)
}

/// The storage engine.
#[derive(Debug)]
pub struct SimpleDB {
    records: Records,
    log: Log,
    version: u64,
    commit_in_progress: bool,
}

impl View for SimpleDB {
    type V = SimpleDBView;

    closed spec fn view(&self) -> SimpleDBView {
        SimpleDBView {
            records: self.records@,
            log: self.log@,
            version: self.version,
            commit_in_progress: self.commit_in_progress,
        }
    }
}

impl SimpleDB {
    /// The records in the order in which a checkpoint writes them.
    pub closed spec fn entries(&self) -> Seq<(Seq<u8>, Seq<u8>)> {
        self.records.entries()
    }

    /// Opens the store in the directory of `disk`: makes a new store at
    /// version 0 where the directory does not exist, and recovers the store
    /// where it does.
    pub fn open(disk: &mut Disk) -> (result: Result<SimpleDB, DatabaseError>)
        ensures
            final(disk)@ == spec_open_disk(old(disk)@),
            match result {
                Ok(db) => spec_open(old(disk)@) == Ok::<SimpleDBView, DatabaseError>(db@),
                Err(e) => spec_open(old(disk)@) == Err::<SimpleDBView, DatabaseError>(e),
            },
    {
        if disk.dir_exists() {
            SimpleDB::try_load_from_existing(disk)
        } else {
            let records = Records::new();
            let version: u64 = 0;
            let mut plan: Vec<DiskOp> = Vec::new();
            plan.push(DiskOp::CreateDir);
            create_version_file(&mut plan, version, false);
            create_db_file(&mut plan, version, CHECKPOINT_FILE_NAME);
            let log_path = create_db_file(&mut plan, version, LOG_FILE_NAME);
            proof {
                assert(spec_op_views(plan@) =~= spec_initial_plan());
                lemma_initial_steps(old(disk)@);
            }
            if let Err(e) = disk.run(plan) {
                return Err(DatabaseError::NotFound(e));
            }
            match Log::open(disk, log_path) {
                Ok(log) => Ok(SimpleDB { records, log, version, commit_in_progress: false }),
                Err(e) => Err(DatabaseError::NotFound(e)),
            }
        }
    }

    /// The value under `key`, if there is one.
    pub fn get(&self, key: &[u8]) -> (value: Option<Vec<u8>>)
        ensures
            match value {
                Some(v) => self@.records.contains_key(key@) && v@ == self@.records[key@],
                None => !self@.records.contains_key(key@),
            },
    {
        match self.records.get(key) {
            Some(value) => Some(slice_to_vec(value.as_slice())),
            None => None,
        }
    }

    /// Puts `value` under `key`: the put is logged durably, then applied to
    /// the record set. During a commit it is refused, and where the log's
    /// file is gone it fails; either way nothing changes.
    pub fn put(&mut self, disk: &mut Disk, key: Vec<u8>, value: Vec<u8>) -> (result: Result<
        (),
        DatabaseError,
    >)
        ensures
            (final(self)@, final(disk)@) == spec_write(
                old(self)@,
                old(disk)@,
                LogOperationView::Put(key@, value@),
            ),
            spec_write_result(old(self)@, old(disk)@, result),
    {
        let key_as_bytes = slice_to_vec(key.as_slice());
        let value_as_bytes = slice_to_vec(value.as_slice());
        let plan = match self.begin_write(LogOperation::Put(key_as_bytes, value_as_bytes)) {
            Ok(plan) => plan,
            Err(e) => {
                return Err(e);
            },
        };
        proof {
            lemma_append_to_disk_plan(
                old(disk)@,
                self@.log,
                LogOperationView::Put(key@, value@),
            );
        }
        let outcome = disk.run(plan);
        self.end_write(LogOperation::Put(key, value), outcome)
    }

    /// Takes `key` out: the delete is logged durably, then applied to the
    /// record set, where a key that is not there changes nothing. During a
    /// commit it is refused, and where the log's file is gone it fails;
    /// either way nothing changes.
    pub fn delete(&mut self, disk: &mut Disk, key: Vec<u8>) -> (result: Result<(), DatabaseError>)
        ensures
            (final(self)@, final(disk)@) == spec_write(
                old(self)@,
                old(disk)@,
                LogOperationView::Delete(key@),
            ),
            spec_write_result(old(self)@, old(disk)@, result),
    {
        let key_as_bytes = slice_to_vec(key.as_slice());
        let plan = match self.begin_write(LogOperation::Delete(key_as_bytes)) {
            Ok(plan) => plan,
            Err(e) => {
                return Err(e);
            },
        };
        proof {
            lemma_append_to_disk_plan(old(disk)@, self@.log, LogOperationView::Delete(key@));
        }
        let outcome = disk.run(plan);
        self.end_write(LogOperation::Delete(key), outcome)
    }

    /// The first half of a put or a delete: the steps that log `op` durably.
    /// During a commit the write is refused.
    pub fn begin_write(&self, op: LogOperation) -> (result: Result<Vec<DiskOp>, DatabaseError>)
        ensures
            match result {
                Ok(plan) => !self@.commit_in_progress && spec_op_views(plan@)
                    == spec_append_to_disk_plan(self@.log, op@),
                Err(e) => self@.commit_in_progress && spec_is_commit_refusal(e),
            },
    {
        if let Err(e) = self.get_write_records() {
            return Err(e);
        }
        Ok(self.log.plan_append_to_disk(op))
    }

    /// The second half of a put or a delete, once the steps that log `op`
    /// have been run. Where they failed nothing changes. Where they
    /// succeeded `op` is applied to the record set, unless a commit was
    /// begun in between: then the write is refused, though it is logged.
    pub fn end_write(&mut self, op: LogOperation, outcome: Result<(), IoErrorKind>) -> (result:
        Result<(), DatabaseError>)
        ensures
            match outcome {
                Ok(_) => if old(self)@.commit_in_progress {
                    result matches Err(e) && spec_is_commit_refusal(e)
                        && final(self)@ == old(self)@
                } else {
                    result is Ok && final(self)@ == (SimpleDBView {
                        records: op@.apply_to(old(self)@.records),
                        ..old(self)@
                    })
                },
                Err(e) => result == Err::<(), DatabaseError>(DatabaseError::Other(LogError::Io(e)))
                    && final(self)@ == old(self)@,
            },
    {
        if let Err(e) = outcome {
            return Err(DatabaseError::Other(LogError::Io(e)));
        }
        if let Err(e) = self.get_write_records() {
            return Err(e);
        }
        match op {
            LogOperation::Put(key, value) => {
                self.records.insert(key, value);
            },
            LogOperation::Delete(key) => {
                self.records.remove(key.as_slice());
            },
        }
        Ok(())
    }

    /// Commits: writes the record set to the checkpoint of the next version,
    /// starts that version's log, retires the files of the current version
    /// and moves on to the next version. A step that fails ends the commit
    /// with the directory as the steps before it left it; the engine then
    /// keeps its version and stays closed to writes until a commit succeeds.
    pub fn commit(&mut self, disk: &mut Disk) -> (result: Result<(), DatabaseError>)
        requires
            old(self)@.version < u64::MAX,
        ensures
            final(disk)@ == spec_commit_run(
                old(disk)@,
                old(self)@.version,
                old(self).entries(),
            ).disk,
            final(self)@ == spec_commit(
                old(self)@,
                spec_commit_run(old(disk)@, old(self)@.version, old(self).entries()).error,
            ),
            match result {
                Ok(_) => spec_commit_run(
                    old(disk)@,
                    old(self)@.version,
                    old(self).entries(),
                ).error is None,
                Err(e) => spec_commit_run(
                    old(disk)@,
                    old(self)@.version,
                    old(self).entries(),
                ).error matches Some(kind) && e == DatabaseError::NotFound(kind),
            },
            result is Ok <==> spec_can_commit(old(disk)@, old(self)@.version),
            final(self).entries() == old(self).entries(),
            spec_map_of(old(self).entries()) == old(self)@.records,
            spec_distinct_keys(old(self).entries()),
            spec_pairs_fit(old(self).entries()),
    {
        proof {
            lemma_commit_succeeds(old(disk)@, self@.version, self.entries());
        }
        let plan = self.begin_commit();
        let outcome = disk.run(plan);
        self.end_commit(outcome)
    }

    /// The first half of a commit: the engine is closed to writes, and the
    /// steps of the commit are returned.
    pub fn begin_commit(&mut self) -> (plan: Vec<DiskOp>)
        requires
            old(self)@.version < u64::MAX,
        ensures
            final(self)@ == (SimpleDBView { commit_in_progress: true, ..old(self)@ }),
            final(self).entries() == old(self).entries(),
            spec_op_views(plan@) == spec_commit_plan(old(self)@.version, old(self).entries()),
            spec_map_of(old(self).entries()) == old(self)@.records,
            spec_distinct_keys(old(self).entries()),
            spec_pairs_fit(old(self).entries()),
    {
        self.commit_in_progress = true;
        let new_version = self.version + 1;
        let mut plan: Vec<DiskOp> = Vec::new();
        create_version_file(&mut plan, new_version, true);
        let checkpoint = create_db_file(&mut plan, new_version, CHECKPOINT_FILE_NAME);
        self.write_records_to_file(&mut plan, checkpoint);
        create_db_file(&mut plan, new_version, LOG_FILE_NAME);
        self.cleanup_previous_commit_files(&mut plan);
        assert(spec_op_views(plan@) =~= spec_commit_plan(self@.version, self.entries()));
        plan
    }

    /// The second half of a commit, once its steps have been run. Where
    /// they succeeded the engine moves on to the next version and its log,
    /// open to writes again. Where a step failed the engine keeps its
    /// version and stays closed to writes.
    pub fn end_commit(&mut self, outcome: Result<(), IoErrorKind>) -> (result: Result<
        (),
        DatabaseError,
    >)
        requires
            old(self)@.version < u64::MAX,
        ensures
            final(self).entries() == old(self).entries(),
            match outcome {
                Ok(_) => result is Ok && final(self)@ == spec_commit(old(self)@, None),
                Err(e) => result == Err::<(), DatabaseError>(DatabaseError::NotFound(e))
                    && final(self)@ == spec_commit(old(self)@, Some(e)),
            },
    {
        if let Err(e) = outcome {
            self.commit_in_progress = true;
            return Err(DatabaseError::NotFound(e));
        }
        let new_version = self.version + 1;
        self.log = Log::new(get_db_file_path(Some(new_version), LOG_FILE_NAME));
        self.version = new_version;
        self.commit_in_progress = false;
        Ok(())
    }

    /// The current version.
    pub fn version(&self) -> (version: u64)
        ensures
            version == self@.version,
    {
        self.version
    }

    /// Recovers the store of an existing directory: takes the version from
    /// the pending marker, which is then deleted, or else from the marker;
    /// loads that version's checkpoint; and applies the operations of that
    /// version's log.
    pub fn try_load_from_existing(disk: &mut Disk) -> (result: Result<SimpleDB, DatabaseError>)
        ensures
            final(disk)@ == spec_recover_disk(old(disk)@),
            match result {
                Ok(db) => spec_recover(old(disk)@) == Ok::<SimpleDBView, DatabaseError>(db@),
                Err(e) => spec_recover(old(disk)@) == Err::<SimpleDBView, DatabaseError>(e),
            },
    {
        let new_version_file_path = get_db_file_path(None, NEW_VERSION_FILE_NAME);
        let version: u64;
        if disk.file_exists(new_version_file_path.as_slice()) {
            let text = match read_string_from_file(disk, new_version_file_path.as_slice()) {
                Ok(text) => text,
                Err(e) => {
                    return Err(DatabaseError::NotFound(e));
                },
            };
            version =
            match parse_decimal(text.as_slice()) {
                Some(version) => version,
                None => {
                    return Err(DatabaseError::NotFound(IoErrorKind::InvalidData));
                },
            };
            if let Err(e) = disk.apply(DiskOp::RemoveFile(new_version_file_path)) {
                return Err(DatabaseError::NotFound(e));
            }
        } else {
            let version_file_path = get_db_file_path(None, VERSION_FILE_NAME);
            let text = match read_string_from_file(disk, version_file_path.as_slice()) {
                Ok(text) => text,
                Err(e) => {
                    return Err(DatabaseError::NotFound(e));
                },
            };
            version =
            match parse_decimal(text.as_slice()) {
                Some(version) => version,
                None => {
                    return Err(DatabaseError::NotFound(IoErrorKind::InvalidData));
                },
            };
        }
        let checkpoint_path = get_db_file_path(Some(version), CHECKPOINT_FILE_NAME);
        let mut checkpoint_file = match disk.read(checkpoint_path.as_slice()) {
            Ok(bytes) => ByteReader::new(bytes),
            Err(_) => {
                return Err(DatabaseError::LoadCheckpoint);
            },
        };
        let mut checkpoint = match SimpleDB::read_records_from_file(&mut checkpoint_file) {
            Ok(records) => records,
            Err(_) => {
                return Err(DatabaseError::LoadCheckpoint);
            },
        };
        let log = match Log::open(disk, get_db_file_path(Some(version), LOG_FILE_NAME)) {
            Ok(log) => log,
            Err(e) => {
                return Err(DatabaseError::NotFound(e));
            },
        };
        let operations = match log.read_until_empty(disk) {
            Ok(operations) => operations,
            Err(e) => {
                return Err(DatabaseError::Other(e));
            },
        };
        let ghost base = checkpoint@;
        let ghost all = operations@;
        assert(spec_operation_views(all.take(0)) =~= Seq::empty());
        for operation in it: operations
            invariant
                it.seq() == all,
                checkpoint@ == spec_apply_all(
                    base,
                    spec_operation_views(all.take(it.index() as int)),
                ),
        {
            proof {
                let k = it.index() as int;
                assert(spec_operation_views(all.take(k + 1)).drop_last() =~= spec_operation_views(
                    all.take(k),
                ));
                assert(spec_operation_views(all.take(k + 1)).last() == operation@);
            }
            match operation {
                LogOperation::Put(key, value) => {
                    checkpoint.insert(key, value);
                },
                LogOperation::Delete(key) => {
                    checkpoint.remove(key.as_slice());
                },
            }
        }
        assert(all.take(all.len() as int) =~= all);
        Ok(SimpleDB { records: checkpoint, version, log, commit_in_progress: false })
    }

    /// Adds to `plan` the steps that write the record set to the file of
    /// this name and force it to durable storage.
    pub fn write_records_to_file(&self, plan: &mut Vec<DiskOp>, file: Vec<u8>)
        ensures
            spec_op_views(final(plan)@) == spec_op_views(old(plan)@) + spec_write_records_plan(
                file@,
                self.entries(),
            ),
            spec_map_of(self.entries()) == self@.records,
            spec_distinct_keys(self.entries()),
            spec_pairs_fit(self.entries()),
    {
        let mut buffer: Vec<u8> = Vec::new();
        let n = self.records.len();
        let ghost entries = self.entries();
        let mut i: usize = 0;
        assert(entries.take(0) =~= Seq::empty());
        while i < n
            invariant
                i <= n,
                n == entries.len(),
                entries == self.records.entries(),
                buffer@ == spec_encode_records(entries.take(i as int)),
            decreases n - i,
        {
            let key = self.records.key_at(i);
            let value = self.records.value_at(i);
            proof {
                assert(entries.take(i + 1).drop_last() =~= entries.take(i as int));
                assert(entries.take(i + 1).last() == entries[i as int]);
            }
            write_encoded_bytes_to_buffer(slice_to_vec(key.as_slice()), &mut buffer);
            write_encoded_bytes_to_buffer(slice_to_vec(value.as_slice()), &mut buffer);
            i += 1;
        }
        assert(entries.take(n as int) =~= entries);
        plan.push(DiskOp::Append(slice_to_vec(file.as_slice()), buffer));
        plan.push(DiskOp::Sync(file));
        assert(spec_op_views(plan@) =~= spec_op_views(old(plan)@) + spec_write_records_plan(
            file@,
            self.entries(),
        ));
    }

    /// Reads a record set from the bytes of a checkpoint. Fails, with
    /// nothing read, where the bytes end inside a key or a value.
    pub fn read_records_from_file(file: &mut ByteReader) -> (result: Result<
        Records,
        DatabaseError,
    >)
        ensures
            final(file).data() == old(file).data(),
            match result {
                Ok(records) => spec_load_records(old(file)@) == Some(records@) && final(file)@.len()
                    == 0,
                Err(e) => spec_load_records(old(file)@) is None && e == DatabaseError::NotFound(
                    IoErrorKind::UnexpectedEof,
                ) && final(file).position() == old(file).position(),
            },
    {
        let mut records = Records::new();
        let mark = file.mark();
        let ghost all = file@;
        let ghost mut done: Seq<(Seq<u8>, Seq<u8>)> = Seq::empty();
        while file.remaining() > 0
            invariant
                file.data() == old(file).data(),
                mark == old(file).position(),
                mark <= file.data().len(),
                all == old(file)@,
                records@ == spec_map_of(done),
                spec_decode_records(all) == spec_prepend_pairs(done, spec_decode_records(file@)),
            decreases file@.len(),
        {
            let ghost before = file@;
            let key_length = match read_u64_from_log(file) {
                Ok(n) => n,
                Err(e) => {
                    file.reset(mark);
                    return Err(DatabaseError::NotFound(e));
                },
            };
            assert(file@ =~= before.skip(8));
            let key = match read_bytes_from_log(file, key_length) {
                Ok(key) => key,
                Err(e) => {
                    file.reset(mark);
                    return Err(DatabaseError::NotFound(e));
                },
            };
            assert(key@ =~= before.subrange(8, 8 + key_length));
            assert(file@ =~= before.skip(8 + key_length));
            let ghost middle = file@;
            let value_length = match read_u64_from_log(file) {
                Ok(n) => n,
                Err(e) => {
                    file.reset(mark);
                    return Err(DatabaseError::NotFound(e));
                },
            };
            assert(file@ =~= middle.skip(8));
            let value = match read_bytes_from_log(file, value_length) {
                Ok(value) => value,
                Err(e) => {
                    file.reset(mark);
                    return Err(DatabaseError::NotFound(e));
                },
            };
            assert(value@ =~= middle.subrange(8, 8 + value_length));
            assert(file@ =~= middle.skip(8 + value_length));
            proof {
                let rest = spec_decode_records(file@);
                if rest is Some {
                    assert(done + (seq![(key@, value@)] + rest->Some_0) =~= done.push(
                        (key@, value@),
                    ) + rest->Some_0);
                }
                assert(done.push((key@, value@)).drop_last() =~= done);
                done = done.push((key@, value@));
            }
            records.insert(key, value);
        }
        assert(done + Seq::<(Seq<u8>, Seq<u8>)>::empty() =~= done);
        Ok(records)
    }

    /// Whether the record set is open to a write: it is not during a commit.
    pub fn get_write_records(&self) -> (result: Result<(), DatabaseError>)
        ensures
            match result {
                Ok(_) => !self@.commit_in_progress,
                Err(e) => self@.commit_in_progress && spec_is_commit_refusal(e),
            },
    {
        if self.commit_in_progress {
            return Err(
                DatabaseError::Lock {
                    kind: LockKind::Write,
                    reason: Some("Commit in progress".to_owned()),
                },
            );
        }
        Ok(())
    }

    /// Adds to `plan` the steps that retire the files of the current
    /// version: its log, its checkpoint and the marker are deleted, and the
    /// pending marker is given the marker's name.
    pub fn cleanup_previous_commit_files(&self, plan: &mut Vec<DiskOp>)
        ensures
            spec_op_views(final(plan)@) == spec_op_views(old(plan)@) + spec_cleanup_plan(
                self@.version,
            ),
    {
        plan.push(DiskOp::RemoveFile(get_db_file_path(Some(self.version), LOG_FILE_NAME)));
        plan.push(DiskOp::RemoveFile(get_db_file_path(Some(self.version), CHECKPOINT_FILE_NAME)));
        plan.push(DiskOp::RemoveFile(get_db_file_path(None, VERSION_FILE_NAME)));
        let old_version_file_path = get_db_file_path(None, VERSION_FILE_NAME);
        let new_version_file_path = get_db_file_path(None, NEW_VERSION_FILE_NAME);
        plan.push(DiskOp::Rename(new_version_file_path, old_version_file_path));
        assert(spec_op_views(plan@) =~= spec_op_views(old(plan)@) + spec_cleanup_plan(
            self@.version,
        ));
    }
}

} // verus!
