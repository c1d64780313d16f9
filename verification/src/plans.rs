//! The steps of the engine on its directory: those that make a new store,
//! and those of a commit, with what they leave in the directory.

use crate::checkpoint::spec_encode_records;
use crate::disk::{
    lemma_steps_joined, lemma_steps_one, lemma_steps_two, DiskOpView, DiskView, FileView, Run,
};
use crate::files::{
    lemma_file_names_distinct, spec_checkpoint_name, spec_decimal, spec_log_name,
    spec_new_version_name, spec_version_name,
};
use vstd::prelude::*;

verus! {

/// The name of a version marker: of the pending one where `new` holds.
pub open spec fn spec_marker_name(new: bool) -> Seq<u8> {
    if new {
        spec_new_version_name()
    } else {
        spec_version_name()
    }
}

/// The steps that write a version marker: the file is created, or emptied,
/// and the version is written to it in decimal.
pub open spec fn spec_version_file_plan(version: u64, new: bool) -> Seq<DiskOpView> {
    seq![
        DiskOpView::CreateFile(spec_marker_name(new)),
        DiskOpView::Append(spec_marker_name(new), spec_decimal(version as nat)),
    ]
}

/// The steps that write a record set to a file and force it to durable
/// storage.
pub open spec fn spec_write_records_plan(
    name: Seq<u8>,
    entries: Seq<(Seq<u8>, Seq<u8>)>,
) -> Seq<DiskOpView> {
    seq![DiskOpView::Append(name, spec_encode_records(entries)), DiskOpView::Sync(name)]
}

/// The steps that retire the files of `version`: its log, its checkpoint
/// and the marker that names it go, and the pending marker takes the
/// marker's name.
pub open spec fn spec_cleanup_plan(version: u64) -> Seq<DiskOpView> {
    seq![
        DiskOpView::RemoveFile(spec_log_name(version)),
        DiskOpView::RemoveFile(spec_checkpoint_name(version)),
        DiskOpView::RemoveFile(spec_version_name()),
        DiskOpView::Rename(spec_new_version_name(), spec_version_name()),
    ]
}

/// The steps of the first part of a commit of `version`: the pending
/// marker, the checkpoint and the empty log of the next version are written.
pub open spec fn spec_commit_prepare_plan(
    version: u64,
    entries: Seq<(Seq<u8>, Seq<u8>)>,
) -> Seq<DiskOpView> {
    let next = (version + 1) as u64;
    spec_version_file_plan(next, true) + seq![DiskOpView::CreateFile(spec_checkpoint_name(next))]
        + spec_write_records_plan(spec_checkpoint_name(next), entries) + seq![
        DiskOpView::CreateFile(spec_log_name(next)),
    ]
}

/// The steps of a commit of `version`: the files of the next version are
/// written, then those of `version` are retired.
pub open spec fn spec_commit_plan(
    version: u64,
    entries: Seq<(Seq<u8>, Seq<u8>)>,
) -> Seq<DiskOpView> {
    spec_commit_prepare_plan(version, entries) + spec_cleanup_plan(version)
}

/// The steps that make a new store: the directory, the marker of version 0,
/// an empty checkpoint and an empty log.
pub open spec fn spec_initial_plan() -> Seq<DiskOpView> {
    seq![DiskOpView::CreateDir] + spec_version_file_plan(0, false) + seq![
        DiskOpView::CreateFile(spec_checkpoint_name(0)),
        DiskOpView::CreateFile(spec_log_name(0)),
    ]
}

/// The first part of a commit of `version`, run on `disk`.
pub open spec fn spec_commit_prepare(
    disk: DiskView,
    version: u64,
    entries: Seq<(Seq<u8>, Seq<u8>)>,
) -> Run {
    Run::start(disk).steps(spec_commit_prepare_plan(version, entries))
}

/// A whole commit of `version`, run on `disk`.
pub open spec fn spec_commit_run(
    disk: DiskView,
    version: u64,
    entries: Seq<(Seq<u8>, Seq<u8>)>,
) -> Run {
    Run::start(disk).steps(spec_commit_plan(version, entries))
}

/// The making of a new store, run on `disk`.
pub open spec fn spec_initialize(disk: DiskView) -> Run {
    Run::start(disk).steps(spec_initial_plan())
}

/// The steps of the first part of a commit run one after the other.
pub proof fn lemma_commit_prepare_steps(
    disk: DiskView,
    version: u64,
    entries: Seq<(Seq<u8>, Seq<u8>)>,
)
    ensures
        spec_commit_prepare(disk, version, entries) == Run::start(disk).step(
            DiskOpView::CreateFile(spec_new_version_name()),
        ).step(
            DiskOpView::Append(spec_new_version_name(), spec_decimal((version + 1) as u64 as nat)),
        ).step(DiskOpView::CreateFile(spec_checkpoint_name((version + 1) as u64))).step(
            DiskOpView::Append(
                spec_checkpoint_name((version + 1) as u64),
                spec_encode_records(entries),
            ),
        ).step(DiskOpView::Sync(spec_checkpoint_name((version + 1) as u64))).step(
            DiskOpView::CreateFile(spec_log_name((version + 1) as u64)),
        ),
{
    let next = (version + 1) as u64;
    let start = Run::start(disk);
    let a = spec_version_file_plan(next, true);
    let b = seq![DiskOpView::CreateFile(spec_checkpoint_name(next))];
    let c = spec_write_records_plan(spec_checkpoint_name(next), entries);
    let d = seq![DiskOpView::CreateFile(spec_log_name(next))];
    lemma_steps_joined(start, a + b + c, d);
    lemma_steps_joined(start, a + b, c);
    lemma_steps_joined(start, a, b);
    lemma_steps_two(start, a[0], a[1]);
    lemma_steps_one(start.steps(a), b[0]);
    lemma_steps_two(start.steps(a + b), c[0], c[1]);
    lemma_steps_one(start.steps(a + b + c), d[0]);
}

/// The steps that retire the files of a version run one after the other.
pub proof fn lemma_cleanup_steps(run: Run, version: u64)
    ensures
        run.steps(spec_cleanup_plan(version)) == run.step(
            DiskOpView::RemoveFile(spec_log_name(version)),
        ).step(DiskOpView::RemoveFile(spec_checkpoint_name(version))).step(
            DiskOpView::RemoveFile(spec_version_name()),
        ).step(DiskOpView::Rename(spec_new_version_name(), spec_version_name())),
{
    let plan = spec_cleanup_plan(version);
    assert(plan =~= seq![plan[0], plan[1]] + seq![plan[2], plan[3]]);
    lemma_steps_joined(run, seq![plan[0], plan[1]], seq![plan[2], plan[3]]);
    lemma_steps_two(run, plan[0], plan[1]);
    lemma_steps_two(run.steps(seq![plan[0], plan[1]]), plan[2], plan[3]);
}

/// A commit runs its first part, then the steps that retire the files of
/// the version.
pub proof fn lemma_commit_steps(disk: DiskView, version: u64, entries: Seq<(Seq<u8>, Seq<u8>)>)
    ensures
        spec_commit_run(disk, version, entries) == spec_commit_prepare(
            disk,
            version,
            entries,
        ).step(DiskOpView::RemoveFile(spec_log_name(version))).step(
            DiskOpView::RemoveFile(spec_checkpoint_name(version)),
        ).step(DiskOpView::RemoveFile(spec_version_name())).step(
            DiskOpView::Rename(spec_new_version_name(), spec_version_name()),
        ),
{
    lemma_steps_joined(
        Run::start(disk),
        spec_commit_prepare_plan(version, entries),
        spec_cleanup_plan(version),
    );
    lemma_cleanup_steps(spec_commit_prepare(disk, version, entries), version);
}

/// The steps that make a new store run one after the other.
pub proof fn lemma_initial_steps(disk: DiskView)
    ensures
        spec_initialize(disk) == Run::start(disk).step(DiskOpView::CreateDir).step(
            DiskOpView::CreateFile(spec_version_name()),
        ).step(DiskOpView::Append(spec_version_name(), spec_decimal(0))).step(
            DiskOpView::CreateFile(spec_checkpoint_name(0)),
        ).step(DiskOpView::CreateFile(spec_log_name(0))),
{
    let start = Run::start(disk);
    let a = seq![DiskOpView::CreateDir];
    let b = spec_version_file_plan(0, false);
    let c = seq![
        DiskOpView::CreateFile(spec_checkpoint_name(0)),
        DiskOpView::CreateFile(spec_log_name(0)),
    ];
    lemma_steps_joined(start, a + b, c);
    lemma_steps_joined(start, a, b);
    lemma_steps_one(start, a[0]);
    lemma_steps_two(start.steps(a), b[0], b[1]);
    lemma_steps_two(start.steps(a + b), c[0], c[1]);
}

/// Whether a commit of `version` can succeed: the directory exists and
/// holds the marker, the log and the checkpoint of the version.
pub open spec fn spec_can_commit(disk: DiskView, version: u64) -> bool {
    &&& disk.has_file(spec_version_name())
    &&& disk.has_file(spec_log_name(version))
    &&& disk.has_file(spec_checkpoint_name(version))
}

/// The files after the first part of a commit that runs without a failure:
/// the pending marker, the checkpoint and the empty log of the next version
/// are added to the files that were there.
pub open spec fn spec_prepared_files(
    disk: DiskView,
    version: u64,
    entries: Seq<(Seq<u8>, Seq<u8>)>,
) -> Map<Seq<u8>, FileView> {
    let next = (version + 1) as u64;
    disk.files.insert(
        spec_new_version_name(),
        FileView { bytes: spec_decimal(next as nat), flushed: 0 },
    ).insert(
        spec_checkpoint_name(next),
        FileView {
            bytes: spec_encode_records(entries),
            flushed: spec_encode_records(entries).len(),
        },
    ).insert(spec_log_name(next), FileView { bytes: Seq::empty(), flushed: 0 })
}

/// In an existing directory the first part of a commit does not fail.
pub proof fn lemma_commit_prepare(disk: DiskView, version: u64, entries: Seq<(Seq<u8>, Seq<u8>)>)
    requires
        disk.present,
        version < u64::MAX,
    ensures
        spec_commit_prepare(disk, version, entries).error is None,
        spec_commit_prepare(disk, version, entries).disk.present,
        spec_commit_prepare(disk, version, entries).disk.files == spec_prepared_files(
            disk,
            version,
            entries,
        ),
{
    let next = (version + 1) as u64;
    let pending = spec_new_version_name();
    let cp = spec_checkpoint_name(next);
    let lg = spec_log_name(next);
    lemma_file_names_distinct(next, next);
    let r1 = Run::start(disk).step(DiskOpView::CreateFile(pending));
    let r2 = r1.step(DiskOpView::Append(pending, spec_decimal(next as nat)));
    assert(r2.disk.files[pending].bytes =~= spec_decimal(next as nat));
    assert(r2.disk.files =~= disk.files.insert(
        pending,
        FileView { bytes: spec_decimal(next as nat), flushed: 0 },
    ));
    let r3 = r2.step(DiskOpView::CreateFile(cp));
    let r4 = r3.step(DiskOpView::Append(cp, spec_encode_records(entries)));
    let r5 = r4.step(DiskOpView::Sync(cp));
    assert(r5.disk.files[cp].bytes =~= spec_encode_records(entries));
    assert(r5.disk.files =~= r2.disk.files.insert(
        cp,
        FileView {
            bytes: spec_encode_records(entries),
            flushed: spec_encode_records(entries).len(),
        },
    ));
    let r6 = r5.step(DiskOpView::CreateFile(lg));
    lemma_commit_prepare_steps(disk, version, entries);
    assert(r6 == spec_commit_prepare(disk, version, entries));
}

/// The files after a commit that runs without a failure: the marker names
/// the next version, whose checkpoint and empty log are there, and the log
/// and the checkpoint of the version before are gone.
pub open spec fn spec_committed_files(
    disk: DiskView,
    version: u64,
    entries: Seq<(Seq<u8>, Seq<u8>)>,
) -> Map<Seq<u8>, FileView> {
    let prepared = spec_prepared_files(disk, version, entries);
    prepared.remove(spec_log_name(version)).remove(spec_checkpoint_name(version)).remove(
        spec_version_name(),
    ).remove(spec_new_version_name()).insert(
        spec_version_name(),
        prepared[spec_new_version_name()],
    )
}

/// Where the directory holds the marker, the log and the checkpoint of the
/// version, a commit does not fail.
pub proof fn lemma_commit_run(disk: DiskView, version: u64, entries: Seq<(Seq<u8>, Seq<u8>)>)
    requires
        version < u64::MAX,
        spec_can_commit(disk, version),
    ensures
        spec_commit_run(disk, version, entries).error is None,
        spec_commit_run(disk, version, entries).disk.present,
        spec_commit_run(disk, version, entries).disk.files == spec_committed_files(
            disk,
            version,
            entries,
        ),
{
    let next = (version + 1) as u64;
    lemma_commit_prepare(disk, version, entries);
    lemma_file_names_distinct(version, next);
    lemma_file_names_distinct(next, version);
    lemma_file_names_distinct(version, version);
    let r6 = spec_commit_prepare(disk, version, entries);
    let r7 = r6.step(DiskOpView::RemoveFile(spec_log_name(version)));
    let r8 = r7.step(DiskOpView::RemoveFile(spec_checkpoint_name(version)));
    let r9 = r8.step(DiskOpView::RemoveFile(spec_version_name()));
    let r10 = r9.step(DiskOpView::Rename(spec_new_version_name(), spec_version_name()));
    lemma_commit_steps(disk, version, entries);
    assert(r10 == spec_commit_run(disk, version, entries));
    assert(r7.error is None);
    assert(r8.error is None);
    assert(r9.error is None);
    assert(r10.error is None);
    assert(r10.disk.files =~= spec_committed_files(disk, version, entries));
}

/// A commit runs without a failure exactly where the directory exists and
/// holds the marker, the log and the checkpoint of the version.
pub proof fn lemma_commit_succeeds(disk: DiskView, version: u64, entries: Seq<(Seq<u8>, Seq<u8>)>)
    requires
        version < u64::MAX,
    ensures
        spec_commit_run(disk, version, entries).error is None <==> spec_can_commit(disk, version),
{
    let next = (version + 1) as u64;
    lemma_commit_steps(disk, version, entries);
    if !disk.present {
        lemma_commit_prepare_steps(disk, version, entries);
        let r1 = Run::start(disk).step(DiskOpView::CreateFile(spec_new_version_name()));
        assert(r1.error is Some);
    } else if spec_can_commit(disk, version) {
        lemma_commit_run(disk, version, entries);
    } else {
        lemma_commit_prepare(disk, version, entries);
        lemma_file_names_distinct(version, next);
        lemma_file_names_distinct(next, version);
        lemma_file_names_distinct(version, version);
        let r6 = spec_commit_prepare(disk, version, entries);
        let r7 = r6.step(DiskOpView::RemoveFile(spec_log_name(version)));
        let r8 = r7.step(DiskOpView::RemoveFile(spec_checkpoint_name(version)));
        let r9 = r8.step(DiskOpView::RemoveFile(spec_version_name()));
        assert(r6.disk.files.contains_key(spec_log_name(version)) == disk.files.contains_key(
            spec_log_name(version),
        ));
        assert(r6.disk.files.contains_key(spec_checkpoint_name(version))
            == disk.files.contains_key(spec_checkpoint_name(version)));
        assert(r6.disk.files.contains_key(spec_version_name()) == disk.files.contains_key(
            spec_version_name(),
        ));
        assert(r9.error is Some);
    }
}

} // verus!
