//! A model of the directory that holds a store: named files of bytes, and the
//! operations on them that the engine relies on. The engine is verified
//! against this model. Every operation that succeeds is also written to a
//! journal, from which a caller can repeat it on a real directory.

use crate::byte_map::ByteMap;
use crate::error::IoErrorKind;
use vstd::prelude::*;
use vstd::slice::slice_to_vec;

verus! {

/// An operation that changes the directory.
#[derive(Debug, Clone, PartialEq, Eq)]
pub enum DiskOp {
    /// Create the directory, which must not exist.
    CreateDir,
    /// Create an empty file of this name, or empty the one that exists.
    CreateFile(Vec<u8>),
    /// Write bytes at the end of the file of this name.
    Append(Vec<u8>, Vec<u8>),
    /// Force what was written to the file of this name to durable storage.
    Sync(Vec<u8>),
    /// Delete the file of this name.
    RemoveFile(Vec<u8>),
    /// Give the file of the first name the second name, in place of any file
    /// that has it.
    Rename(Vec<u8>, Vec<u8>),
}

/// An operation, with its names and bytes as sequences.
pub enum DiskOpView {
    CreateDir,
    CreateFile(Seq<u8>),
    Append(Seq<u8>, Seq<u8>),
    Sync(Seq<u8>),
    RemoveFile(Seq<u8>),
    Rename(Seq<u8>, Seq<u8>),
}

impl View for DiskOp {
    type V = DiskOpView;

    open spec fn view(&self) -> DiskOpView {
        match self {
            DiskOp::CreateDir => DiskOpView::CreateDir,
            DiskOp::CreateFile(name) => DiskOpView::CreateFile(name@),
            DiskOp::Append(name, bytes) => DiskOpView::Append(name@, bytes@),
            DiskOp::Sync(name) => DiskOpView::Sync(name@),
            DiskOp::RemoveFile(name) => DiskOpView::RemoveFile(name@),
            DiskOp::Rename(from, to) => DiskOpView::Rename(from@, to@),
        }
    }
}

/// A file: what was written to it, and how much of that is known to be on
/// durable storage.
pub struct FileView {
    pub bytes: Seq<u8>,
    pub flushed: nat,
}

/// The directory: whether it exists, its files by name, and the operations
/// that were applied since the journal was last taken.
pub struct DiskView {
    pub present: bool,
    pub files: Map<Seq<u8>, FileView>,
    pub journal: Seq<DiskOpView>,
}

impl DiskView {
    /// Whether the directory holds a file of this name.
    pub open spec fn has_file(self, name: Seq<u8>) -> bool {
        self.present && self.files.contains_key(name)
    }

    /// The files after `op`, where it succeeds.
    pub open spec fn files_after(self, op: DiskOpView) -> Map<Seq<u8>, FileView> {
        match op {
            DiskOpView::CreateDir => Map::empty(),
            DiskOpView::CreateFile(name) => self.files.insert(
                name,
                FileView { bytes: Seq::empty(), flushed: 0 },
            ),
            DiskOpView::Append(name, bytes) => self.files.insert(
                name,
                FileView {
                    bytes: self.files[name].bytes + bytes,
                    flushed: self.files[name].flushed,
                },
            ),
            DiskOpView::Sync(name) => self.files.insert(
                name,
                FileView {
                    bytes: self.files[name].bytes,
                    flushed: self.files[name].bytes.len(),
                },
            ),
            DiskOpView::RemoveFile(name) => self.files.remove(name),
            DiskOpView::Rename(from, to) => self.files.remove(from).insert(to, self.files[from]),
        }
    }

    /// Why `op` fails, if it does: a directory cannot be created twice, a
    /// file cannot be created without the directory, and every other
    /// operation needs the file that it names.
    pub open spec fn failure(self, op: DiskOpView) -> Option<IoErrorKind> {
        match op {
            DiskOpView::CreateDir => if self.present {
                Some(IoErrorKind::AlreadyExists)
            } else {
                None
            },
            DiskOpView::CreateFile(name) => if self.present {
                None
            } else {
                Some(IoErrorKind::NotFound)
            },
            DiskOpView::Append(name, bytes) => if self.has_file(name) {
                None
            } else {
                Some(IoErrorKind::NotFound)
            },
            DiskOpView::Sync(name) => if self.has_file(name) {
                None
            } else {
                Some(IoErrorKind::NotFound)
            },
            DiskOpView::RemoveFile(name) => if self.has_file(name) {
                None
            } else {
                Some(IoErrorKind::NotFound)
            },
            DiskOpView::Rename(from, to) => if self.has_file(from) {
                None
            } else {
                Some(IoErrorKind::NotFound)
            },
        }
    }

    /// The directory after `op`: changed and journalled where `op` succeeds,
    /// untouched where it fails.
    pub open spec fn apply(self, op: DiskOpView) -> DiskView {
        if self.failure(op) is Some {
            self
        } else {
            DiskView {
                present: true,
                files: self.files_after(op),
                journal: self.journal.push(op),
            }
        }
    }
}

/// A directory during a run of operations that stops at the first failure.
pub struct Run {
    pub disk: DiskView,
    pub error: Option<IoErrorKind>,
}

impl Run {
    /// The run that has not done anything yet.
    pub open spec fn start(disk: DiskView) -> Run {
        Run { disk, error: None }
    }

    /// The run after one more operation, which is skipped if an earlier one
    /// failed.
    pub open spec fn step(self, op: DiskOpView) -> Run {
        if self.error is Some {
            self
        } else {
            Run { disk: self.disk.apply(op), error: self.disk.failure(op) }
        }
    }

    /// The run after the operations of `ops`, first to last.
    pub open spec fn steps(self, ops: Seq<DiskOpView>) -> Run
        decreases ops.len(),
    {
        if ops.len() == 0 {
            self
        } else {
            self.steps(ops.drop_last()).step(ops.last())
        }
    }

    /// The run after `op`, or as it is where `wanted` is false.
    pub open spec fn step_if(self, wanted: bool, op: DiskOpView) -> Run {
        if wanted {
            self.step(op)
        } else {
            self
        }
    }
}

/// The operations of `ops` as views.
pub open spec fn spec_op_views(ops: Seq<DiskOp>) -> Seq<DiskOpView> {
    ops.map_values(|op: DiskOp| op@)
}

/// A run that has failed stays as it is.
pub proof fn lemma_steps_after_failure(run: Run, ops: Seq<DiskOpView>)
    requires
        run.error is Some,
    ensures
        run.steps(ops) == run,
    decreases ops.len(),
{
    if ops.len() > 0 {
        lemma_steps_after_failure(run, ops.drop_last());
    }
}

/// Operations run one list after the other are the operations of the two
/// lists joined.
pub proof fn lemma_steps_joined(run: Run, first: Seq<DiskOpView>, second: Seq<DiskOpView>)
    ensures
        run.steps(first + second) == run.steps(first).steps(second),
    decreases second.len(),
{
    if second.len() == 0 {
        assert(first + second =~= first);
    } else {
        lemma_steps_joined(run, first, second.drop_last());
        assert((first + second).drop_last() =~= first + second.drop_last());
    }
}

/// A list of one operation runs as that operation.
pub proof fn lemma_steps_one(run: Run, op: DiskOpView)
    ensures
        run.steps(seq![op]) == run.step(op),
{
    assert(seq![op].drop_last() =~= Seq::empty());
    assert(run.steps(Seq::empty()) == run);
}

/// A list of two operations runs as the first, then the second.
pub proof fn lemma_steps_two(run: Run, a: DiskOpView, b: DiskOpView)
    ensures
        run.steps(seq![a, b]) == run.step(a).step(b),
{
    assert(seq![a, b].drop_last() =~= seq![a]);
    lemma_steps_one(run, a);
}

/// A file as the model keeps it.
#[derive(Debug)]
pub struct StoredFile {
    bytes: Vec<u8>,
    flushed: usize,
}

impl View for StoredFile {
    type V = FileView;

    closed spec fn view(&self) -> FileView {
        FileView { bytes: self.bytes@, flushed: self.flushed as nat }
    }
}

/// The model of the directory.
#[derive(Debug)]
pub struct Disk {
    present: bool,
    files: ByteMap<StoredFile>,
    journal: Vec<DiskOp>,
}

impl View for Disk {
    type V = DiskView;

    closed spec fn view(&self) -> DiskView {
        DiskView {
            present: self.present,
            files: self.files@.map_values(|f: StoredFile| f@),
            journal: self.journal@.map_values(|op: DiskOp| op@),
        }
    }
}

impl Disk {
    /// A disk on which the directory does not exist yet.
    pub fn new() -> (disk: Disk)
        ensures
            disk@ == (DiskView { present: false, files: Map::empty(), journal: Seq::empty() }),
    {
        let disk = Disk { present: false, files: ByteMap::new(), journal: Vec::new() };
        assert(disk@.files =~= Map::empty());
        assert(disk@.journal =~= Seq::empty());
        disk
    }

    /// Whether the directory exists.
    pub fn dir_exists(&self) -> (present: bool)
        ensures
            present == self@.present,
    {
        self.present
    }

    /// Whether the directory holds a file of this name.
    pub fn file_exists(&self, name: &[u8]) -> (found: bool)
        ensures
            found == self@.has_file(name@),
    {
        self.present && self.files.contains_key(name)
    }

    /// The bytes of the file of this name.
    pub fn read(&self, name: &[u8]) -> (result: Result<Vec<u8>, IoErrorKind>)
        ensures
            match result {
                Ok(bytes) => self@.has_file(name@) && bytes@ == self@.files[name@].bytes,
                Err(e) => !self@.has_file(name@) && e == IoErrorKind::NotFound,
            },
    {
        if !self.present {
            return Err(IoErrorKind::NotFound);
        }
        match self.files.get(name) {
            Some(file) => Ok(slice_to_vec(file.bytes.as_slice())),
            None => Err(IoErrorKind::NotFound),
        }
    }

    /// How many bytes of the file of this name are known to be on durable
    /// storage.
    pub fn flushed_len(&self, name: &[u8]) -> (result: Result<usize, IoErrorKind>)
        ensures
            match result {
                Ok(n) => self@.has_file(name@) && n == self@.files[name@].flushed,
                Err(e) => !self@.has_file(name@) && e == IoErrorKind::NotFound,
            },
    {
        if !self.present {
            return Err(IoErrorKind::NotFound);
        }
        match self.files.get(name) {
            Some(file) => Ok(file.flushed),
            None => Err(IoErrorKind::NotFound),
        }
    }

    /// Applies `op`. Where it fails, the disk is as before.
    pub fn apply(&mut self, op: DiskOp) -> (result: Result<(), IoErrorKind>)
        ensures
            final(self)@ == old(self)@.apply(op@),
            match old(self)@.failure(op@) {
                Some(e) => result == Err::<(), IoErrorKind>(e),
                None => result is Ok,
            },
    {
        let ghost before = self@;
        let ghost old_files = self.files@;
        let ghost f = |f: StoredFile| f@;
        match &op {
            DiskOp::CreateDir => {
                if self.present {
                    return Err(IoErrorKind::AlreadyExists);
                }
                self.present = true;
                self.files = ByteMap::new();
                assert(self.files@.map_values(f) =~= before.files_after(op@));
            },
            DiskOp::CreateFile(name) => {
                if !self.present {
                    return Err(IoErrorKind::NotFound);
                }
                let file = StoredFile { bytes: Vec::new(), flushed: 0 };
                self.files.insert(slice_to_vec(name.as_slice()), file);
                assert(self.files@.map_values(f) =~= before.files_after(op@));
            },
            DiskOp::Append(name, bytes) => {
                if !self.present {
                    return Err(IoErrorKind::NotFound);
                }
                match self.files.remove(name.as_slice()) {
                    Some(mut file) => {
                        let ghost was = file.bytes@;
                        file.bytes.extend_from_slice(bytes.as_slice());
                        assert(file.bytes@ =~= was + bytes@);
                        self.files.insert(slice_to_vec(name.as_slice()), file);
                        assert(self.files@.map_values(f) =~= before.files_after(op@));
                    },
                    None => {
                        assert(self.files@ =~= old_files);
                        return Err(IoErrorKind::NotFound);
                    },
                }
            },
            DiskOp::Sync(name) => {
                if !self.present {
                    return Err(IoErrorKind::NotFound);
                }
                match self.files.remove(name.as_slice()) {
                    Some(mut file) => {
                        file.flushed = file.bytes.len();
                        self.files.insert(slice_to_vec(name.as_slice()), file);
                        assert(self.files@.map_values(f) =~= before.files_after(op@));
                    },
                    None => {
                        assert(self.files@ =~= old_files);
                        return Err(IoErrorKind::NotFound);
                    },
                }
            },
            DiskOp::RemoveFile(name) => {
                if !self.present {
                    return Err(IoErrorKind::NotFound);
                }
                match self.files.remove(name.as_slice()) {
                    Some(_) => {
                        assert(self.files@.map_values(f) =~= before.files_after(op@));
                    },
                    None => {
                        assert(self.files@ =~= old_files);
                        return Err(IoErrorKind::NotFound);
                    },
                }
            },
            DiskOp::Rename(from, to) => {
                if !self.present {
                    return Err(IoErrorKind::NotFound);
                }
                match self.files.remove(from.as_slice()) {
                    Some(file) => {
                        self.files.insert(slice_to_vec(to.as_slice()), file);
                        assert(self.files@.map_values(f) =~= before.files_after(op@));
                    },
                    None => {
                        assert(self.files@ =~= old_files);
                        return Err(IoErrorKind::NotFound);
                    },
                }
            },
        }
        let ghost journal = self.journal@;
        self.journal.push(op);
        assert(self.journal@.map_values(|op: DiskOp| op@) =~= journal.map_values(
            |op: DiskOp| op@,
        ).push(op@));
        Ok(())
    }

    /// Applies the operations of `plan`, first to last, up to the first that
    /// fails, and returns its failure.
    pub fn run(&mut self, plan: Vec<DiskOp>) -> (result: Result<(), IoErrorKind>)
        ensures
            final(self)@ == Run::start(old(self)@).steps(spec_op_views(plan@)).disk,
            match result {
                Ok(_) => Run::start(old(self)@).steps(spec_op_views(plan@)).error is None,
                Err(e) => Run::start(old(self)@).steps(spec_op_views(plan@)).error == Some(e),
            },
    {
        let ghost all = spec_op_views(plan@);
        let ghost ops = plan@;
        let ghost start = Run::start(self@);
        assert(all.take(0) =~= Seq::empty());
        for op in it: plan
            invariant
                it.seq() == ops,
                all == spec_op_views(ops),
                start == Run::start(old(self)@),
                start.steps(all.take(it.index() as int)) == (Run { disk: self@, error: None }),
        {
            proof {
                let k = it.index() as int;
                assert(all.take(k + 1).drop_last() =~= all.take(k));
                assert(all.take(k + 1).last() == op@);
                assert(all.take(k + 1) + all.skip(k + 1) =~= all);
                lemma_steps_joined(start, all.take(k + 1), all.skip(k + 1));
                if self@.failure(op@) is Some {
                    lemma_steps_after_failure(start.steps(all.take(k + 1)), all.skip(k + 1));
                }
            }
            if let Err(e) = self.apply(op) {
                return Err(e);
            }
        }
        assert(all.take(all.len() as int) =~= all);
        Ok(())
    }

    /// Hands out the operations that were applied since the journal was last
    /// taken, oldest first, and starts a new journal.
    pub fn take_journal(&mut self) -> (journal: Vec<DiskOp>)
        ensures
            journal@.map_values(|op: DiskOp| op@) == old(self)@.journal,
            final(self)@ == (DiskView { journal: Seq::empty(), ..old(self)@ }),
    {
        let mut journal: Vec<DiskOp> = Vec::new();
        std::mem::swap(&mut self.journal, &mut journal);
        assert(self@.journal =~= Seq::empty());
        journal
    }
}

} // verus!
