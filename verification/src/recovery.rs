//! What holds of the engine and its directory together: a store that was
//! written through the engine is recovered as it was.

use crate::byte_map::spec_map_of;
use crate::checkpoint::{
    lemma_decode_of_encoded_records, spec_encode_records, spec_load_records,
};
use crate::db::{
    spec_commit, spec_committed, spec_log_write, spec_marker_version, spec_new_store, spec_open,
    spec_open_disk, spec_recover, spec_recover_disk, spec_write, spec_write_all, SimpleDBView,
};
use crate::disk::{DiskOpView, DiskView, Run};
use crate::error::DatabaseError;
use crate::files::{
    lemma_file_names_distinct, lemma_parse_decimal_roundtrip, spec_checkpoint_name, spec_decimal,
    spec_log_name, spec_new_version_name, spec_parse_decimal, spec_version_name,
};
use crate::log::{
    lemma_append_to_disk_plan, lemma_replay_of_appended_entry, spec_all_fit, spec_apply_all,
    spec_encode_log, spec_encode_operation, spec_replay, LogOperationView,
};
use crate::plans::{
    lemma_commit_prepare, lemma_commit_prepare_steps, lemma_commit_run, lemma_initial_steps,
    spec_commit_plan, spec_commit_prepare, spec_commit_run, spec_initialize,
};
use crate::records::spec_pairs_fit;
use vstd::prelude::*;

verus! {

/// The directory holds the store that the engine has in memory: no commit
/// is under way, there is no pending marker, the marker names the engine's
/// version, that version's checkpoint and log are there, the log is made of
/// whole entries, and the checkpoint's record set, changed by the log's
/// operations, is the engine's record set.
pub open spec fn spec_consistent(db: SimpleDBView, disk: DiskView) -> bool {
    let checkpoint = spec_checkpoint_name(db.version);
    let log = spec_log_name(db.version);
    &&& !db.commit_in_progress
    &&& db.log == log
    &&& disk.present
    &&& !disk.files.contains_key(spec_new_version_name())
    &&& disk.files.contains_key(spec_version_name())
    &&& spec_parse_decimal(disk.files[spec_version_name()].bytes) == Some(db.version)
    &&& disk.files.contains_key(checkpoint)
    &&& disk.files.contains_key(log)
    &&& spec_load_records(disk.files[checkpoint].bytes) matches Some(base)
    &&& spec_replay(disk.files[log].bytes) matches Ok(ops)
    &&& spec_all_fit(ops)
    &&& disk.files[log].bytes == spec_encode_log(ops)
    &&& db.records == spec_apply_all(base, ops)
}

/// The directory is as the engine leaves it: it holds the store that the
/// engine has in memory and no other file, and all that was written to the
/// checkpoint and to the log is on durable storage.
pub open spec fn spec_tidy(db: SimpleDBView, disk: DiskView) -> bool {
    let checkpoint = spec_checkpoint_name(db.version);
    let log = spec_log_name(db.version);
    &&& spec_consistent(db, disk)
    &&& forall|name: Seq<u8>| #[trigger]
        disk.files.contains_key(name) ==> name == spec_version_name() || name == checkpoint
            || name == log
    &&& disk.files[checkpoint].flushed == disk.files[checkpoint].bytes.len()
    &&& disk.files[log].flushed == disk.files[log].bytes.len()
}

/// A store that is opened again is recovered as the engine had it, and the
/// directory stays as it is.
pub proof fn lemma_reopen(db: SimpleDBView, disk: DiskView)
    requires
        spec_consistent(db, disk),
    ensures
        spec_open(disk) == Ok::<SimpleDBView, DatabaseError>(db),
        spec_open_disk(disk) == disk,
{
}

/// A new store holds nothing at version 0, and its directory holds it.
pub proof fn lemma_new_store(disk: DiskView)
    requires
        !disk.present,
    ensures
        spec_open(disk) == Ok::<SimpleDBView, DatabaseError>(spec_new_store()),
        spec_initialize(disk).error is None,
        spec_tidy(spec_new_store(), spec_open_disk(disk)),
{
    lemma_file_names_distinct(0, 0);
    lemma_parse_decimal_roundtrip(0);
    let r1 = Run::start(disk).step(DiskOpView::CreateDir);
    let r2 = r1.step(DiskOpView::CreateFile(spec_version_name()));
    let r3 = r2.step(DiskOpView::Append(spec_version_name(), spec_decimal(0)));
    let r4 = r3.step(DiskOpView::CreateFile(spec_checkpoint_name(0)));
    let r5 = r4.step(DiskOpView::CreateFile(spec_log_name(0)));
    lemma_initial_steps(disk);
    assert(r5 == spec_initialize(disk));
    assert(r3.disk.files[spec_version_name()].bytes =~= spec_decimal(0));
    let after = r5.disk;
    assert(after.files[spec_version_name()] == r3.disk.files[spec_version_name()]);
    assert(after.files[spec_checkpoint_name(0)].bytes =~= Seq::empty());
    assert(after.files[spec_log_name(0)].bytes =~= Seq::empty());
    assert(spec_encode_log(Seq::empty()) =~= Seq::empty());
    assert(spec_replay(Seq::<u8>::empty()) == Ok::<Seq<LogOperationView>, crate::error::LogError>(
        Seq::empty(),
    ));
    assert(spec_load_records(Seq::<u8>::empty()) == Some(
        spec_map_of(Seq::<(Seq<u8>, Seq<u8>)>::empty()),
    ));
    assert(spec_apply_all(Map::<Seq<u8>, Seq<u8>>::empty(), Seq::empty()) =~= Map::empty());
}

/// A put or a delete on a store that the directory holds is logged and
/// applied, and the directory holds the store again.
pub proof fn lemma_write(db: SimpleDBView, disk: DiskView, op: LogOperationView)
    requires
        spec_consistent(db, disk),
        op.fits(),
    ensures
        spec_write(db, disk, op).0 == (SimpleDBView { records: op.apply_to(db.records), ..db }),
        spec_consistent(spec_write(db, disk, op).0, spec_write(db, disk, op).1),
        spec_tidy(db, disk) ==> spec_tidy(spec_write(db, disk, op).0, spec_write(db, disk, op).1),
{
    let log = spec_log_name(db.version);
    let ops = spec_replay(disk.files[log].bytes)->Ok_0;
    lemma_file_names_distinct(db.version, db.version);
    lemma_replay_of_appended_entry(ops, op);
    let r1 = Run::start(disk).step(DiskOpView::Append(log, spec_encode_operation(op)));
    let r2 = r1.step(DiskOpView::Sync(log));
    lemma_append_to_disk_plan(disk, log, op);
    assert(r2 == spec_log_write(disk, db.log, op));
    assert(ops.push(op).drop_last() =~= ops);
}

/// After any puts and deletes, and no commit, a store that is opened again
/// has the record set that those changes make of the record set it had, at
/// the version it had.
pub proof fn lemma_recovery_after_writes(
    db: SimpleDBView,
    disk: DiskView,
    ops: Seq<LogOperationView>,
)
    requires
        spec_consistent(db, disk),
        spec_all_fit(ops),
    ensures
        spec_consistent(spec_write_all(db, disk, ops).0, spec_write_all(db, disk, ops).1),
        spec_tidy(db, disk) ==> spec_tidy(
            spec_write_all(db, disk, ops).0,
            spec_write_all(db, disk, ops).1,
        ),
        spec_write_all(db, disk, ops).0 == (SimpleDBView {
            records: spec_apply_all(db.records, ops),
            ..db
        }),
        spec_open(spec_write_all(db, disk, ops).1) == Ok::<SimpleDBView, DatabaseError>(
            SimpleDBView { records: spec_apply_all(db.records, ops), ..db },
        ),
    decreases ops.len(),
{
    if ops.len() > 0 {
        let front = ops.drop_last();
        assert(spec_all_fit(front));
        lemma_recovery_after_writes(db, disk, front);
        let before = spec_write_all(db, disk, front);
        assert(ops.last().fits());
        lemma_write(before.0, before.1, ops.last());
    }
    lemma_reopen(spec_write_all(db, disk, ops).0, spec_write_all(db, disk, ops).1);
}

/// After any puts and deletes on a new store, and no commit, the store that
/// is opened again has the record set that those changes make of the empty
/// record set, at version 0.
pub proof fn lemma_recovery_of_new_store(disk: DiskView, ops: Seq<LogOperationView>)
    requires
        !disk.present,
        spec_all_fit(ops),
    ensures
        spec_open(spec_write_all(spec_new_store(), spec_open_disk(disk), ops).1) == Ok::<
            SimpleDBView,
            DatabaseError,
        >(SimpleDBView { records: spec_apply_all(Map::empty(), ops), ..spec_new_store() }),
{
    lemma_new_store(disk);
    lemma_recovery_after_writes(spec_new_store(), spec_open_disk(disk), ops);
}

/// A commit of a store that the directory holds succeeds. It keeps the
/// record set and moves on to the next version, whose checkpoint and log
/// are then in the directory while those of the version before are gone;
/// and the store that is opened again is the committed one.
pub proof fn lemma_commit(db: SimpleDBView, disk: DiskView, entries: Seq<(Seq<u8>, Seq<u8>)>)
    requires
        spec_consistent(db, disk),
        db.version < u64::MAX,
        spec_map_of(entries) == db.records,
        spec_pairs_fit(entries),
    ensures
        spec_commit_run(disk, db.version, entries).error is None,
        spec_commit(db, spec_commit_run(disk, db.version, entries).error) == spec_committed(db),
        spec_consistent(spec_committed(db), spec_commit_run(disk, db.version, entries).disk),
        spec_tidy(db, disk) ==> spec_tidy(
            spec_committed(db),
            spec_commit_run(disk, db.version, entries).disk,
        ),
        !spec_commit_run(disk, db.version, entries).disk.has_file(
            spec_checkpoint_name(db.version),
        ),
        !spec_commit_run(disk, db.version, entries).disk.has_file(spec_log_name(db.version)),
        spec_commit_run(disk, db.version, entries).disk.has_file(
            spec_checkpoint_name((db.version + 1) as u64),
        ),
        spec_commit_run(disk, db.version, entries).disk.has_file(
            spec_log_name((db.version + 1) as u64),
        ),
        spec_open(spec_commit_run(disk, db.version, entries).disk) == Ok::<
            SimpleDBView,
            DatabaseError,
        >(spec_committed(db)),
{
    let v = db.version;
    let next = (v + 1) as u64;
    lemma_commit_run(disk, v, entries);
    lemma_file_names_distinct(v, next);
    lemma_file_names_distinct(next, v);
    lemma_file_names_distinct(next, next);
    lemma_parse_decimal_roundtrip(next);
    lemma_decode_of_encoded_records(entries);
    let after = spec_commit_run(disk, v, entries).disk;
    assert(spec_encode_log(Seq::empty()) =~= Seq::empty());
    assert(spec_replay(Seq::<u8>::empty()) == Ok::<Seq<LogOperationView>, crate::error::LogError>(
        Seq::empty(),
    ));
    assert(spec_apply_all(db.records, Seq::empty()) == db.records);
    assert(spec_consistent(spec_committed(db), after));
    lemma_reopen(spec_committed(db), after);
}

/// A commit that is cut short after its first `steps` steps.
pub open spec fn spec_commit_cut_short(
    disk: DiskView,
    version: u64,
    entries: Seq<(Seq<u8>, Seq<u8>)>,
    steps: nat,
) -> Run {
    Run::start(disk).steps(spec_commit_plan(version, entries).take(steps as int))
}

/// The steps of a commit that is cut short, one after the other.
proof fn lemma_commit_cut_short_steps(
    disk: DiskView,
    version: u64,
    entries: Seq<(Seq<u8>, Seq<u8>)>,
    steps: nat,
)
    requires
        steps <= 10,
    ensures
        spec_commit_plan(version, entries).len() == 10,
        spec_commit_cut_short(disk, version, entries, 10) == spec_commit_run(
            disk,
            version,
            entries,
        ),
        spec_commit_cut_short(disk, version, entries, steps) == Run::start(disk).step_if(
            steps >= 1,
            DiskOpView::CreateFile(spec_new_version_name()),
        ).step_if(
            steps >= 2,
            DiskOpView::Append(spec_new_version_name(), spec_decimal((version + 1) as u64 as nat)),
        ).step_if(
            steps >= 3,
            DiskOpView::CreateFile(spec_checkpoint_name((version + 1) as u64)),
        ).step_if(
            steps >= 4,
            DiskOpView::Append(
                spec_checkpoint_name((version + 1) as u64),
                spec_encode_records(entries),
            ),
        ).step_if(steps >= 5, DiskOpView::Sync(spec_checkpoint_name((version + 1) as u64))).step_if(
            steps >= 6,
            DiskOpView::CreateFile(spec_log_name((version + 1) as u64)),
        ).step_if(steps >= 7, DiskOpView::RemoveFile(spec_log_name(version))).step_if(
            steps >= 8,
            DiskOpView::RemoveFile(spec_checkpoint_name(version)),
        ).step_if(steps >= 9, DiskOpView::RemoveFile(spec_version_name())).step_if(
            steps >= 10,
            DiskOpView::Rename(spec_new_version_name(), spec_version_name()),
        ),
    decreases steps,
{
    let plan = spec_commit_plan(version, entries);
    let start = Run::start(disk);
    assert(plan.len() == 10);
    assert(plan.take(10) =~= plan);
    if steps == 0 {
        assert(plan.take(0) =~= Seq::empty());
    } else {
        lemma_commit_cut_short_steps(disk, version, entries, (steps - 1) as nat);
        assert(plan.take(steps as int).drop_last() =~= plan.take(steps - 1));
        assert(plan.take(steps as int).last() == plan[steps - 1]);
    }
}

/// A commit that is cut short once the files of the next version are
/// written, at whatever step of retiring the files of the version before,
/// leaves a directory from which the committed store is recovered.
pub proof fn lemma_commit_cut_short_late(
    db: SimpleDBView,
    disk: DiskView,
    entries: Seq<(Seq<u8>, Seq<u8>)>,
    steps: nat,
)
    requires
        spec_consistent(db, disk),
        db.version < u64::MAX,
        spec_map_of(entries) == db.records,
        spec_pairs_fit(entries),
        6 <= steps <= 10,
    ensures
        spec_commit_cut_short(disk, db.version, entries, 10) == spec_commit_run(
            disk,
            db.version,
            entries,
        ),
        spec_commit_cut_short(disk, db.version, entries, steps).error is None,
        spec_open(spec_commit_cut_short(disk, db.version, entries, steps).disk) == Ok::<
            SimpleDBView,
            DatabaseError,
        >(spec_committed(db)),
{
    let v = db.version;
    let next = (v + 1) as u64;
    lemma_commit_cut_short_steps(disk, v, entries, steps);
    lemma_commit_cut_short_steps(disk, v, entries, 6);
    lemma_commit_prepare_steps(disk, v, entries);
    if steps >= 10 {
        lemma_commit(db, disk, entries);
    } else {
        lemma_commit_prepare(disk, v, entries);
        lemma_file_names_distinct(v, next);
        lemma_file_names_distinct(next, v);
        lemma_file_names_distinct(next, next);
        lemma_file_names_distinct(v, v);
        lemma_parse_decimal_roundtrip(next);
        lemma_decode_of_encoded_records(entries);
        let r6 = spec_commit_prepare(disk, v, entries);
        let cut = spec_commit_cut_short(disk, v, entries, steps);
        assert(cut == r6.step_if(
            steps >= 7,
            DiskOpView::RemoveFile(spec_log_name(v)),
        ).step_if(steps >= 8, DiskOpView::RemoveFile(spec_checkpoint_name(v))).step_if(
            steps >= 9,
            DiskOpView::RemoveFile(spec_version_name()),
        ));
        assert(cut.error is None);
        assert(cut.disk.present);
        assert(cut.disk.files.contains_key(spec_new_version_name()));
        assert(cut.disk.files[spec_new_version_name()] == r6.disk.files[spec_new_version_name()]);
        assert(cut.disk.files[spec_checkpoint_name(next)] == r6.disk.files[spec_checkpoint_name(
            next,
        )]);
        assert(cut.disk.files[spec_log_name(next)] == r6.disk.files[spec_log_name(next)]);
        assert(spec_marker_version(cut.disk) == Ok::<u64, DatabaseError>(next));
        let recovered = spec_recover_disk(cut.disk);
        assert(recovered.files[spec_checkpoint_name(next)] == r6.disk.files[spec_checkpoint_name(
            next,
        )]);
        assert(recovered.files[spec_log_name(next)] == r6.disk.files[spec_log_name(next)]);
        assert(spec_replay(Seq::<u8>::empty()) == Ok::<
            Seq<LogOperationView>,
            crate::error::LogError,
        >(Seq::empty()));
        assert(spec_apply_all(db.records, Seq::empty()) == db.records);
    }
}

/// A commit that is cut short after its pending marker is written and
/// before the log of the next version exists, in a directory that held no
/// such log, leaves a directory from which no store is recovered at first:
/// the failed recovery deletes the pending marker, and the store that is
/// opened after it is the one from before the commit.
pub proof fn lemma_commit_cut_short_early(
    db: SimpleDBView,
    disk: DiskView,
    entries: Seq<(Seq<u8>, Seq<u8>)>,
    steps: nat,
)
    requires
        spec_consistent(db, disk),
        db.version < u64::MAX,
        !disk.has_file(spec_log_name((db.version + 1) as u64)),
        2 <= steps <= 5,
    ensures
        spec_commit_cut_short(disk, db.version, entries, steps).error is None,
        spec_open(spec_commit_cut_short(disk, db.version, entries, steps).disk) is Err,
        spec_open(spec_open_disk(spec_commit_cut_short(disk, db.version, entries, steps).disk))
            == Ok::<SimpleDBView, DatabaseError>(db),
{
    let v = db.version;
    let next = (v + 1) as u64;
    let pending = spec_new_version_name();
    let cp = spec_checkpoint_name(next);
    lemma_commit_cut_short_steps(disk, v, entries, steps);
    lemma_file_names_distinct(v, next);
    lemma_file_names_distinct(next, v);
    lemma_file_names_distinct(next, next);
    lemma_file_names_distinct(v, v);
    lemma_parse_decimal_roundtrip(next);
    let r1 = Run::start(disk).step(DiskOpView::CreateFile(pending));
    let r2 = r1.step(DiskOpView::Append(pending, spec_decimal(next as nat)));
    assert(r2.disk.files[pending].bytes =~= spec_decimal(next as nat));
    let r3 = r2.step_if(steps >= 3, DiskOpView::CreateFile(cp));
    let r4 = r3.step_if(steps >= 4, DiskOpView::Append(cp, spec_encode_records(entries)));
    let r5 = r4.step_if(steps >= 5, DiskOpView::Sync(cp));
    let cut = spec_commit_cut_short(disk, v, entries, steps);
    assert(cut == r5);
    assert(cut.error is None);
    assert(cut.disk.files[pending] == r2.disk.files[pending]);
    assert(!cut.disk.files.contains_key(spec_log_name(next)));
    assert(spec_marker_version(cut.disk) == Ok::<u64, DatabaseError>(next));
    let recovered = spec_recover_disk(cut.disk);
    assert(!recovered.files.contains_key(spec_log_name(next)));
    assert(spec_recover(cut.disk) is Err);
    assert(recovered.files[spec_version_name()] == disk.files[spec_version_name()]);
    assert(recovered.files[spec_checkpoint_name(v)] == disk.files[spec_checkpoint_name(v)]);
    assert(recovered.files[spec_log_name(v)] == disk.files[spec_log_name(v)]);
    assert(spec_consistent(db, recovered));
    lemma_reopen(db, recovered);
}

} // verus!
