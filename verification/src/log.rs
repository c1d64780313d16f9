//! The write-ahead log: operations appended to a file of the store, and read
//! back in the order in which they were appended.

use crate::bytes::{
    lemma_u64_be_bytes_roundtrip, read_bytes_from_log, read_u64_from_log, spec_encode_bytes,
    spec_encode_char, spec_u64_from_be_bytes, spec_u64_to_be_bytes, write_encoded_bytes_to_buffer,
    write_encoded_char_to_buffer, ByteReader, U64_BYTES_LEN,
};
use crate::disk::{lemma_steps_two, spec_op_views, Disk, DiskOp, DiskOpView, DiskView, Run};
use crate::error::{IoErrorKind, LogError};
use vstd::prelude::*;
use vstd::slice::slice_to_vec;

verus! {

/// A change to the record set.
#[derive(Debug, PartialEq, Clone)]
pub enum LogOperation {
    /// Put the value under the key.
    Put(Vec<u8>, Vec<u8>),
    /// Take the key out.
    Delete(Vec<u8>),
}

/// A change to the record set, with its key and value as sequences.
pub enum LogOperationView {
    Put(Seq<u8>, Seq<u8>),
    Delete(Seq<u8>),
}

impl View for LogOperation {
    type V = LogOperationView;

    open spec fn view(&self) -> LogOperationView {
        match self {
            LogOperation::Put(key, value) => LogOperationView::Put(key@, value@),
            LogOperation::Delete(key) => LogOperationView::Delete(key@),
        }
    }
}

impl LogOperationView {
    /// The key and the value are short enough for their lengths to be
    /// written in eight bytes.
    pub open spec fn fits(self) -> bool {
        match self {
            LogOperationView::Put(key, value) => key.len() <= u64::MAX && value.len() <= u64::MAX,
            LogOperationView::Delete(key) => key.len() <= u64::MAX,
        }
    }

    /// The key that this change is about.
    pub open spec fn key(self) -> Seq<u8> {
        match self {
            LogOperationView::Put(key, _) => key,
            LogOperationView::Delete(key) => key,
        }
    }

    /// The record set after this change: a put replaces what the key had, a
    /// delete of a key that is not there changes nothing.
    pub open spec fn apply_to(self, records: Map<Seq<u8>, Seq<u8>>) -> Map<Seq<u8>, Seq<u8>> {
        match self {
            LogOperationView::Put(key, value) => records.insert(key, value),
            LogOperationView::Delete(key) => records.remove(key),
        }
    }
}

/// The operations of `ops` as views.
pub open spec fn spec_operation_views(ops: Seq<LogOperation>) -> Seq<LogOperationView> {
    ops.map_values(|op: LogOperation| op@)
}

/// Each operation of `ops` fits.
pub open spec fn spec_all_fit(ops: Seq<LogOperationView>) -> bool {
    forall|i: int| 0 <= i < ops.len() ==> (#[trigger] ops[i]).fits()
}

/// The record set after the changes of `ops`, first to last.
pub open spec fn spec_apply_all(
    records: Map<Seq<u8>, Seq<u8>>,
    ops: Seq<LogOperationView>,
) -> Map<Seq<u8>, Seq<u8>>
    decreases ops.len(),
{
    if ops.len() == 0 {
        records
    } else {
        ops.last().apply_to(spec_apply_all(records, ops.drop_last()))
    }
}

/// The bytes of one log entry: the tag `p`, the key and the value for a put;
/// the tag `d` and the key for a delete.
pub open spec fn spec_encode_operation(op: LogOperationView) -> Seq<u8> {
    match op {
        LogOperationView::Put(key, value) => spec_encode_char('p') + spec_encode_bytes(key)
            + spec_encode_bytes(value),
        LogOperationView::Delete(key) => spec_encode_char('d') + spec_encode_bytes(key),
    }
}

/// The bytes of a log that holds the entries of `ops`, first to last.
pub open spec fn spec_encode_log(ops: Seq<LogOperationView>) -> Seq<u8>
    decreases ops.len(),
{
    if ops.len() == 0 {
        Seq::empty()
    } else {
        spec_encode_log(ops.drop_last()) + spec_encode_operation(ops.last())
    }
}

/// A length-prefixed byte sequence at the start of `bytes`, and what
/// follows it; `None` where `bytes` ends before the sequence does.
pub open spec fn spec_read_instruction(bytes: Seq<u8>) -> Option<(Seq<u8>, Seq<u8>)> {
    if bytes.len() < 8 {
        None
    } else {
        let n = spec_u64_from_be_bytes(bytes) as int;
        if bytes.len() - 8 < n {
            None
        } else {
            Some((bytes.subrange(8, 8 + n), bytes.skip(8 + n)))
        }
    }
}

/// The log entry at the start of `bytes`, and what follows it. Where fewer
/// than nine bytes are left the end is reached; where the ninth byte is no
/// tag the entry is invalid; where the key or the value is cut short the
/// error is `UnexpectedEof`.
pub open spec fn spec_read_operation(bytes: Seq<u8>) -> Result<
    (LogOperationView, Seq<u8>),
    LogError,
> {
    if bytes.len() < 9 {
        Err(LogError::EndReached)
    } else if bytes[8] as char == 'p' {
        match spec_read_instruction(bytes.skip(9)) {
            Some((key, rest)) => match spec_read_instruction(rest) {
                Some((value, rest)) => Ok((LogOperationView::Put(key, value), rest)),
                None => Err(LogError::Io(IoErrorKind::UnexpectedEof)),
            },
            None => Err(LogError::Io(IoErrorKind::UnexpectedEof)),
        }
    } else if bytes[8] as char == 'd' {
        match spec_read_instruction(bytes.skip(9)) {
            Some((key, rest)) => Ok((LogOperationView::Delete(key), rest)),
            None => Err(LogError::Io(IoErrorKind::UnexpectedEof)),
        }
    } else {
        Err(LogError::InvalidOperation(bytes[8] as char))
    }
}

/// `done`, followed by the operations of `rest`; the error of `rest` where
/// it has one.
pub open spec fn spec_prepend(
    done: Seq<LogOperationView>,
    rest: Result<Seq<LogOperationView>, LogError>,
) -> Result<Seq<LogOperationView>, LogError> {
    match rest {
        Ok(ops) => Ok(done + ops),
        Err(e) => Err(e),
    }
}

/// The operations of a log, first to last. The replay ends without error
/// where no further entry starts or the last entry is cut short; it fails
/// where an entry has an invalid tag.
pub open spec fn spec_replay(bytes: Seq<u8>) -> Result<Seq<LogOperationView>, LogError>
    decreases bytes.len(),
{
    match spec_read_operation(bytes) {
        Ok((op, rest)) => spec_prepend(seq![op], spec_replay(rest)),
        Err(LogError::InvalidOperation(tag)) => Err(LogError::InvalidOperation(tag)),
        Err(_) => Ok(Seq::empty()),
    }
}

/// A replay fails only on an entry with an invalid tag.
pub proof fn lemma_replay_failure(bytes: Seq<u8>)
    ensures
        spec_replay(bytes) matches Err(e) ==> e is InvalidOperation,
    decreases bytes.len(),
{
    if let Ok((op, rest)) = spec_read_operation(bytes) {
        lemma_replay_failure(rest);
    }
}

/// An entry takes at least nine bytes, so what follows it is shorter.
pub proof fn lemma_read_operation_shortens(bytes: Seq<u8>)
    ensures
        spec_read_operation(bytes) matches Ok((op, rest)) ==> rest.len() + 9 <= bytes.len(),
{
}

/// A length-prefixed byte sequence is read back as it was written, whatever
/// follows it.
pub proof fn lemma_read_encoded_bytes(bytes: Seq<u8>, tail: Seq<u8>)
    requires
        bytes.len() <= u64::MAX,
    ensures
        spec_read_instruction(spec_encode_bytes(bytes) + tail) == Some((bytes, tail)),
{
    let all = spec_encode_bytes(bytes) + tail;
    let n = bytes.len() as u64;
    lemma_u64_be_bytes_roundtrip(n);
    let head = spec_u64_to_be_bytes(n);
    assert(forall|i: int| 0 <= i < 8 ==> all[i] == head[i]);
    assert(spec_u64_from_be_bytes(all) == spec_u64_from_be_bytes(head));
    assert(all.subrange(8, 8 + n) =~= bytes);
    assert(all.skip(8 + n) =~= tail);
}

/// A log entry is read back as it was written, whatever follows it.
pub proof fn lemma_read_encoded_operation(op: LogOperationView, tail: Seq<u8>)
    requires
        op.fits(),
    ensures
        spec_read_operation(spec_encode_operation(op) + tail) == Ok::<
            (LogOperationView, Seq<u8>),
            LogError,
        >((op, tail)),
{
    let all = spec_encode_operation(op) + tail;
    assert('p' as u8 as char == 'p');
    assert('d' as u8 as char == 'd');
    match op {
        LogOperationView::Put(key, value) => {
            assert(all[8] == 'p' as u8);
            assert(all.skip(9) =~= spec_encode_bytes(key) + (spec_encode_bytes(value) + tail));
            lemma_read_encoded_bytes(key, spec_encode_bytes(value) + tail);
            lemma_read_encoded_bytes(value, tail);
        },
        LogOperationView::Delete(key) => {
            assert(all[8] == 'd' as u8);
            assert(all.skip(9) =~= spec_encode_bytes(key) + tail);
            lemma_read_encoded_bytes(key, tail);
        },
    }
}

/// The bytes of a log start with its first entry.
pub proof fn lemma_encode_log_front(ops: Seq<LogOperationView>)
    requires
        ops.len() > 0,
    ensures
        spec_encode_log(ops) == spec_encode_operation(ops[0]) + spec_encode_log(ops.skip(1)),
    decreases ops.len(),
{
    if ops.len() == 1 {
        assert(ops.drop_last() =~= Seq::empty());
        assert(ops.skip(1) =~= Seq::empty());
        assert(spec_encode_log(ops.drop_last()) =~= Seq::empty());
        assert(spec_encode_log(ops) =~= spec_encode_operation(ops[0]) + Seq::empty());
    } else {
        let front = ops.drop_last();
        lemma_encode_log_front(front);
        assert(front.skip(1) =~= ops.skip(1).drop_last());
        assert(ops.skip(1).last() == ops.last());
        assert(spec_encode_log(ops) =~= spec_encode_operation(ops[0]) + spec_encode_log(
            ops.skip(1),
        ));
    }
}

/// Writing operations to an empty log and replaying it gives exactly those
/// operations, in the order in which they were written.
pub proof fn lemma_replay_of_encoded_log(ops: Seq<LogOperationView>)
    requires
        spec_all_fit(ops),
    ensures
        spec_replay(spec_encode_log(ops)) == Ok::<Seq<LogOperationView>, LogError>(ops),
    decreases ops.len(),
{
    if ops.len() == 0 {
        assert(spec_replay(spec_encode_log(ops)).unwrap() =~= ops);
    } else {
        let rest = ops.skip(1);
        lemma_encode_log_front(ops);
        assert(ops[0].fits());
        lemma_read_encoded_operation(ops[0], spec_encode_log(rest));
        assert(spec_all_fit(rest)) by {
            assert forall|i: int| 0 <= i < rest.len() implies (#[trigger] rest[i]).fits() by {
                assert(ops[i + 1].fits());
            }
        }
        lemma_replay_of_encoded_log(rest);
        assert(seq![ops[0]] + rest =~= ops);
    }
}

/// One more entry at the end of a log is one more operation at the end of
/// its replay.
pub proof fn lemma_replay_of_appended_entry(ops: Seq<LogOperationView>, op: LogOperationView)
    requires
        spec_all_fit(ops),
        op.fits(),
    ensures
        spec_replay(spec_encode_log(ops) + spec_encode_operation(op)) == Ok::<
            Seq<LogOperationView>,
            LogError,
        >(ops.push(op)),
        spec_encode_log(ops.push(op)) == spec_encode_log(ops) + spec_encode_operation(op),
{
    assert(ops.push(op).drop_last() =~= ops);
    assert(spec_all_fit(ops.push(op)));
    lemma_replay_of_encoded_log(ops.push(op));
}

/// The steps of a durable append: the entry is written at the end of the
/// log, and the log is forced to durable storage.
pub open spec fn spec_append_to_disk_plan(log: Seq<u8>, op: LogOperationView) -> Seq<DiskOpView> {
    seq![DiskOpView::Append(log, spec_encode_operation(op)), DiskOpView::Sync(log)]
}

/// A durable append fails only where the log's file is gone, and then it
/// changes nothing.
pub proof fn lemma_append_to_disk_plan(disk: DiskView, log: Seq<u8>, op: LogOperationView)
    ensures
        Run::start(disk).steps(spec_append_to_disk_plan(log, op)) == Run::start(disk).step(
            DiskOpView::Append(log, spec_encode_operation(op)),
        ).step(DiskOpView::Sync(log)),
        disk.has_file(log) ==> Run::start(disk).steps(spec_append_to_disk_plan(log, op)).error
            is None,
        !disk.has_file(log) ==> Run::start(disk).steps(spec_append_to_disk_plan(log, op)) == (Run {
            disk,
            error: Some(IoErrorKind::NotFound),
        }),
{
    lemma_steps_two(
        Run::start(disk),
        DiskOpView::Append(log, spec_encode_operation(op)),
        DiskOpView::Sync(log),
    );
}

/// The bytes of the log entry of `op`.
pub fn encode_operation(op: LogOperation) -> (bytes: Vec<u8>)
    ensures
        bytes@ == spec_encode_operation(op@),
{
    let mut bytes: Vec<u8> = Vec::new();
    match op {
        LogOperation::Put(key, value) => {
            write_encoded_char_to_buffer('p', &mut bytes);
            write_encoded_bytes_to_buffer(key, &mut bytes);
            write_encoded_bytes_to_buffer(value, &mut bytes);
        },
        LogOperation::Delete(key) => {
            write_encoded_char_to_buffer('d', &mut bytes);
            write_encoded_bytes_to_buffer(key, &mut bytes);
        },
    }
    assert(bytes@ =~= spec_encode_operation(op@));
    bytes
}

/// The handle of a log file of the store.
#[derive(Debug)]
pub struct Log {
    name: Vec<u8>,
}

impl View for Log {
    type V = Seq<u8>;

    /// The name of the log's file.
    closed spec fn view(&self) -> Seq<u8> {
        self.name@
    }
}

impl Log {
    /// The handle of the log that is kept in the file of this name, whether
    /// the file exists or not.
    pub fn new(name: Vec<u8>) -> (log: Log)
        ensures
            log@ == name@,
    {
        Log { name }
    }

    /// Opens the log that is kept in the file of this name, which must exist.
    pub fn open(disk: &Disk, name: Vec<u8>) -> (result: Result<Log, IoErrorKind>)
        ensures
            match result {
                Ok(log) => disk@.has_file(name@) && log@ == name@,
                Err(e) => !disk@.has_file(name@) && e == IoErrorKind::NotFound,
            },
    {
        if disk.file_exists(name.as_slice()) {
            Ok(Log { name })
        } else {
            Err(IoErrorKind::NotFound)
        }
    }

    /// The steps that write `op` at the end of the log and force the log to
    /// durable storage.
    pub fn plan_append_to_disk(&self, op: LogOperation) -> (plan: Vec<DiskOp>)
        ensures
            spec_op_views(plan@) == spec_append_to_disk_plan(self@, op@),
    {
        let mut plan: Vec<DiskOp> = Vec::new();
        plan.push(DiskOp::Append(slice_to_vec(self.name.as_slice()), encode_operation(op)));
        plan.push(DiskOp::Sync(slice_to_vec(self.name.as_slice())));
        assert(spec_op_views(plan@) =~= spec_append_to_disk_plan(self@, op@));
        plan
    }

    /// Writes `op` at the end of the log and forces the log to durable
    /// storage. Fails, with nothing written, where the log's file is gone.
    pub fn append_to_disk(&self, disk: &mut Disk, op: LogOperation) -> (result: Result<
        (),
        LogError,
    >)
        ensures
            final(disk)@ == Run::start(old(disk)@).steps(
                spec_append_to_disk_plan(self@, op@),
            ).disk,
            match result {
                Ok(_) => old(disk)@.has_file(self@),
                Err(e) => !old(disk)@.has_file(self@) && e == LogError::Io(IoErrorKind::NotFound)
                    && final(disk)@ == old(disk)@,
            },
    {
        proof {
            lemma_append_to_disk_plan(old(disk)@, self@, op@);
        }
        match disk.run(self.plan_append_to_disk(op)) {
            Ok(_) => Ok(()),
            Err(e) => Err(LogError::Io(e)),
        }
    }

    /// Writes `op` at the end of the log. Fails, with nothing written, where
    /// the log's file is gone.
    pub fn append(&self, disk: &mut Disk, op: LogOperation) -> (result: Result<(), LogError>)
        ensures
            final(disk)@ == old(disk)@.apply(
                DiskOpView::Append(self@, spec_encode_operation(op@)),
            ),
            match result {
                Ok(_) => old(disk)@.has_file(self@),
                Err(e) => !old(disk)@.has_file(self@) && e == LogError::Io(IoErrorKind::NotFound),
            },
    {
        let bytes = encode_operation(op);
        match disk.apply(DiskOp::Append(slice_to_vec(self.name.as_slice()), bytes)) {
            Ok(_) => Ok(()),
            Err(e) => Err(LogError::Io(e)),
        }
    }

    /// Reads the log from its start and returns its operations, first to
    /// last. Reading ends where no further entry starts or the last entry is
    /// cut short. Fails where an entry has an invalid tag, or the log's file
    /// is gone.
    pub fn read_until_empty(&self, disk: &Disk) -> (result: Result<Vec<LogOperation>, LogError>)
        ensures
            match result {
                Ok(ops) => disk@.has_file(self@) && spec_replay(disk@.files[self@].bytes) == Ok::<
                    Seq<LogOperationView>,
                    LogError,
                >(spec_operation_views(ops@)),
                Err(e) => if disk@.has_file(self@) {
                    spec_replay(disk@.files[self@].bytes) == Err::<
                        Seq<LogOperationView>,
                        LogError,
                    >(e) && e is InvalidOperation
                } else {
                    e == LogError::Io(IoErrorKind::NotFound)
                },
            },
    {
        let bytes = match disk.read(self.name.as_slice()) {
            Ok(bytes) => bytes,
            Err(e) => {
                return Err(LogError::Io(e));
            },
        };
        let ghost all = bytes@;
        proof {
            lemma_replay_failure(all);
        }
        let mut reader = ByteReader::new(bytes);
        let mut log_operations: Vec<LogOperation> = Vec::new();
        assert(spec_operation_views(log_operations@) =~= Seq::empty());
        loop
            invariant
                disk@.has_file(self@),
                all == disk@.files[self@].bytes,
                spec_replay(all) == spec_prepend(
                    spec_operation_views(log_operations@),
                    spec_replay(reader@),
                ),
            decreases reader@.len(),
        {
            let ghost done = spec_operation_views(log_operations@);
            let ghost before = reader@;
            match Self::read_operation_from_log(&mut reader) {
                Ok(op) => {
                    log_operations.push(op);
                    proof {
                        lemma_read_operation_shortens(before);
                        assert(spec_operation_views(log_operations@) =~= done.push(op@));
                        let rest = spec_replay(reader@);
                        if rest is Ok {
                            assert(done + (seq![op@] + rest->Ok_0) =~= done.push(op@)
                                + rest->Ok_0);
                        }
                    }
                },
                Err(LogError::InvalidOperation(tag)) => {
                    return Err(LogError::InvalidOperation(tag));
                },
                Err(_) => {
                    assert(done + Seq::<LogOperationView>::empty() =~= done);
                    return Ok(log_operations);
                },
            }
        }
    }

    /// Reads one log entry. Where this fails, nothing is read: the end is
    /// reached where fewer than nine bytes are left, the entry is invalid
    /// where its tag names no operation, and the error is `UnexpectedEof`
    /// where the key or the value is cut short.
    pub fn read_operation_from_log(reader: &mut ByteReader) -> (result: Result<
        LogOperation,
        LogError,
    >)
        ensures
            final(reader).data() == old(reader).data(),
            match result {
                Ok(op) => spec_read_operation(old(reader)@) == Ok::<
                    (LogOperationView, Seq<u8>),
                    LogError,
                >((op@, final(reader)@)),
                Err(e) => spec_read_operation(old(reader)@) == Err::<
                    (LogOperationView, Seq<u8>),
                    LogError,
                >(e) && final(reader).position() == old(reader).position(),
            },
    {
        let mark = reader.mark();
        let header = match read_bytes_from_log(reader, (U64_BYTES_LEN + 1) as u64) {
            Ok(header) => header,
            Err(_) => {
                return Err(LogError::EndReached);
            },
        };
        assert(reader@ =~= old(reader)@.skip(9));
        let tag = header[U64_BYTES_LEN] as char;
        if tag == 'p' {
            let key = match Self::read_instruction_from_log(reader) {
                Ok(key) => key,
                Err(e) => {
                    reader.reset(mark);
                    return Err(LogError::Io(e));
                },
            };
            let value = match Self::read_instruction_from_log(reader) {
                Ok(value) => value,
                Err(e) => {
                    reader.reset(mark);
                    return Err(LogError::Io(e));
                },
            };
            Ok(LogOperation::Put(key, value))
        } else if tag == 'd' {
            let key = match Self::read_instruction_from_log(reader) {
                Ok(key) => key,
                Err(e) => {
                    reader.reset(mark);
                    return Err(LogError::Io(e));
                },
            };
            Ok(LogOperation::Delete(key))
        } else {
            reader.reset(mark);
            Err(LogError::InvalidOperation(tag))
        }
    }

    /// Reads one length-prefixed byte sequence. Where the bytes end before
    /// it does, nothing is read and the error is `UnexpectedEof`.
    pub fn read_instruction_from_log(reader: &mut ByteReader) -> (result: Result<
        Vec<u8>,
        IoErrorKind,
    >)
        ensures
            final(reader).data() == old(reader).data(),
            match result {
                Ok(bytes) => spec_read_instruction(old(reader)@) == Some(
                    (bytes@, final(reader)@),
                ),
                Err(e) => spec_read_instruction(old(reader)@) is None && e
                    == IoErrorKind::UnexpectedEof && final(reader).position() == old(
                    reader,
                ).position(),
            },
    {
        let mark = reader.mark();
        let instruction_length = match read_u64_from_log(reader) {
            Ok(n) => n,
            Err(e) => {
                return Err(e);
            },
        };
        assert(reader@ =~= old(reader)@.skip(8));
        match read_bytes_from_log(reader, instruction_length) {
            Ok(bytes) => {
                assert(bytes@ =~= old(reader)@.subrange(8, 8 + instruction_length));
                assert(reader@ =~= old(reader)@.skip(8 + instruction_length));
                Ok(bytes)
            },
            Err(e) => {
                reader.reset(mark);
                Err(e)
            },
        }
    }
}

} // verus!
