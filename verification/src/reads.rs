//! What a read sees after writes: the last value that was put under a key,
//! until the key is put again or deleted.

use crate::byte_map::spec_distinct_keys;
use crate::db::{spec_write, spec_write_all, SimpleDBView};
use crate::disk::DiskView;
use crate::log::{lemma_append_to_disk_plan, spec_apply_all, LogOperationView};
use vstd::prelude::*;

verus! {

/// None of `ops` is about `key`.
pub open spec fn spec_untouched(ops: Seq<LogOperationView>, key: Seq<u8>) -> bool {
    forall|i: int| 0 <= i < ops.len() ==> (#[trigger] ops[i]).key() != key
}

/// The puts of `pairs`, first to last.
pub open spec fn spec_puts(pairs: Seq<(Seq<u8>, Seq<u8>)>) -> Seq<LogOperationView> {
    pairs.map_values(|p: (Seq<u8>, Seq<u8>)| LogOperationView::Put(p.0, p.1))
}

/// Whether the engine accepts a write: no commit is under way and the file
/// of its log is there.
pub open spec fn spec_accepts_writes(db: SimpleDBView, disk: DiskView) -> bool {
    !db.commit_in_progress && disk.has_file(db.log)
}

/// Puts and deletes leave the engine's version, log and state of commit as
/// they are, and the log's file where it is.
pub proof fn lemma_writes_keep_engine(db: SimpleDBView, disk: DiskView, ops: Seq<LogOperationView>)
    ensures
        spec_write_all(db, disk, ops).0 == (SimpleDBView {
            records: spec_write_all(db, disk, ops).0.records,
            ..db
        }),
        spec_write_all(db, disk, ops).1.has_file(db.log) == disk.has_file(db.log),
        spec_accepts_writes(db, disk) ==> spec_write_all(db, disk, ops).0.records
            == spec_apply_all(db.records, ops),
        !spec_accepts_writes(db, disk) ==> spec_write_all(db, disk, ops) == (db, disk),
    decreases ops.len(),
{
    if ops.len() > 0 {
        lemma_writes_keep_engine(db, disk, ops.drop_last());
        let before = spec_write_all(db, disk, ops.drop_last());
        lemma_append_to_disk_plan(before.1, db.log, ops.last());
    }
}

/// Changes that are not about a key leave the key as it is: there with the
/// same value, or not there.
pub proof fn lemma_untouched_key(
    records: Map<Seq<u8>, Seq<u8>>,
    ops: Seq<LogOperationView>,
    key: Seq<u8>,
)
    requires
        spec_untouched(ops, key),
    ensures
        spec_apply_all(records, ops).contains_key(key) == records.contains_key(key),
        records.contains_key(key) ==> spec_apply_all(records, ops)[key] == records[key],
    decreases ops.len(),
{
    if ops.len() > 0 {
        let front = ops.drop_last();
        assert(spec_untouched(front, key)) by {
            assert forall|i: int| 0 <= i < front.len() implies (#[trigger] front[i]).key()
                != key by {
                assert(ops[i].key() != key);
            }
        }
        lemma_untouched_key(records, front, key);
        assert(ops[ops.len() - 1].key() != key);
    }
}

/// Changes made one run after the other are the changes of the two runs
/// joined.
pub proof fn lemma_apply_all_joined(
    records: Map<Seq<u8>, Seq<u8>>,
    first: Seq<LogOperationView>,
    second: Seq<LogOperationView>,
)
    ensures
        spec_apply_all(records, first + second) == spec_apply_all(
            spec_apply_all(records, first),
            second,
        ),
    decreases second.len(),
{
    if second.len() == 0 {
        assert(first + second =~= first);
    } else {
        lemma_apply_all_joined(records, first, second.drop_last());
        assert((first + second).drop_last() =~= first + second.drop_last());
    }
}

/// After a put that the engine accepted, the key has the value that was
/// put, whatever puts and deletes on other keys follow.
pub proof fn lemma_get_after_put(
    db: SimpleDBView,
    disk: DiskView,
    key: Seq<u8>,
    value: Seq<u8>,
    later: Seq<LogOperationView>,
)
    requires
        spec_accepts_writes(db, disk),
        spec_untouched(later, key),
    ensures
        ({
            let put = spec_write(db, disk, LogOperationView::Put(key, value));
            let after = spec_write_all(put.0, put.1, later).0;
            after.records.contains_key(key) && after.records[key] == value
        }),
{
    let put = spec_write(db, disk, LogOperationView::Put(key, value));
    lemma_writes_keep_engine(put.0, put.1, later);
    lemma_untouched_key(put.0.records, later, key);
}

/// After a delete that the engine accepted, the key is not there, whatever
/// puts and deletes on other keys follow; and a delete of a key that is not
/// there is accepted like any other and leaves the record set as it is.
pub proof fn lemma_get_after_delete(
    db: SimpleDBView,
    disk: DiskView,
    key: Seq<u8>,
    later: Seq<LogOperationView>,
)
    requires
        spec_accepts_writes(db, disk),
        spec_untouched(later, key),
    ensures
        ({
            let delete = spec_write(db, disk, LogOperationView::Delete(key));
            let after = spec_write_all(delete.0, delete.1, later).0;
            &&& !after.records.contains_key(key)
            &&& spec_accepts_writes(delete.0, delete.1)
            &&& spec_write(delete.0, delete.1, LogOperationView::Delete(key)).0.records
                == delete.0.records
            &&& !db.records.contains_key(key) ==> delete.0.records == db.records
        }),
{
    let delete = spec_write(db, disk, LogOperationView::Delete(key));
    lemma_append_to_disk_plan(disk, db.log, LogOperationView::Delete(key));
    lemma_writes_keep_engine(delete.0, delete.1, later);
    lemma_untouched_key(delete.0.records, later, key);
    assert(delete.0.records.remove(key) =~= delete.0.records);
    if !db.records.contains_key(key) {
        assert(db.records.remove(key) =~= db.records);
    }
}

/// After puts on keys that all differ, in whatever order they came, each
/// key has the value that was put under it: no put is lost.
pub proof fn lemma_puts_on_distinct_keys(
    db: SimpleDBView,
    disk: DiskView,
    pairs: Seq<(Seq<u8>, Seq<u8>)>,
    i: int,
)
    requires
        spec_accepts_writes(db, disk),
        spec_distinct_keys(pairs),
        0 <= i < pairs.len(),
    ensures
        spec_write_all(db, disk, spec_puts(pairs)).0.records.contains_key(pairs[i].0),
        spec_write_all(db, disk, spec_puts(pairs)).0.records[pairs[i].0] == pairs[i].1,
{
    let ops = spec_puts(pairs);
    let first = ops.take(i + 1);
    let second = ops.skip(i + 1);
    let key = pairs[i].0;
    lemma_writes_keep_engine(db, disk, ops);
    assert(first + second =~= ops);
    lemma_apply_all_joined(db.records, first, second);
    assert(first.last() == LogOperationView::Put(key, pairs[i].1));
    assert(spec_untouched(second, key)) by {
        assert forall|j: int| 0 <= j < second.len() implies (#[trigger] second[j]).key()
            != key by {
            assert(second[j] == ops[i + 1 + j]);
            assert(pairs[i].0 != pairs[i + 1 + j].0);
        }
    }
    lemma_untouched_key(spec_apply_all(db.records, first), second, key);
}

} // verus!
