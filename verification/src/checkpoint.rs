//! The bytes of a checkpoint: each record's key and value, length-prefixed,
//! one record after the other.

use crate::byte_map::spec_map_of;
use crate::bytes::spec_encode_bytes;
use crate::log::{lemma_read_encoded_bytes, spec_read_instruction};
use crate::records::spec_pairs_fit;
use vstd::prelude::*;

verus! {

/// The bytes of a checkpoint that holds `pairs`, first to last.
pub open spec fn spec_encode_records(pairs: Seq<(Seq<u8>, Seq<u8>)>) -> Seq<u8>
    decreases pairs.len(),
{
    if pairs.len() == 0 {
        Seq::empty()
    } else {
        spec_encode_records(pairs.drop_last()) + spec_encode_bytes(pairs.last().0)
            + spec_encode_bytes(pairs.last().1)
    }
}

/// `done`, followed by the pairs of `rest`, where it has any.
pub open spec fn spec_prepend_pairs(
    done: Seq<(Seq<u8>, Seq<u8>)>,
    rest: Option<Seq<(Seq<u8>, Seq<u8>)>>,
) -> Option<Seq<(Seq<u8>, Seq<u8>)>> {
    match rest {
        Some(pairs) => Some(done + pairs),
        None => None,
    }
}

/// The pairs of a checkpoint, first to last; `None` where the bytes end
/// inside a key or a value.
pub open spec fn spec_decode_records(bytes: Seq<u8>) -> Option<Seq<(Seq<u8>, Seq<u8>)>>
    decreases bytes.len(),
{
    if bytes.len() == 0 {
        Some(Seq::empty())
    } else {
        match spec_read_instruction(bytes) {
            Some((key, rest)) => match spec_read_instruction(rest) {
                Some((value, rest)) => spec_prepend_pairs(
                    seq![(key, value)],
                    spec_decode_records(rest),
                ),
                None => None,
            },
            None => None,
        }
    }
}

/// The record set that a checkpoint holds: its pairs, a later one replacing
/// an earlier one with the same key.
pub open spec fn spec_load_records(bytes: Seq<u8>) -> Option<Map<Seq<u8>, Seq<u8>>> {
    match spec_decode_records(bytes) {
        Some(pairs) => Some(spec_map_of(pairs)),
        None => None,
    }
}

/// The bytes of a checkpoint start with its first pair.
pub proof fn lemma_encode_records_front(pairs: Seq<(Seq<u8>, Seq<u8>)>)
    requires
        pairs.len() > 0,
    ensures
        spec_encode_records(pairs) == spec_encode_bytes(pairs[0].0) + (spec_encode_bytes(
            pairs[0].1,
        ) + spec_encode_records(pairs.skip(1))),
    decreases pairs.len(),
{
    let first = spec_encode_bytes(pairs[0].0) + spec_encode_bytes(pairs[0].1);
    if pairs.len() == 1 {
        assert(pairs.drop_last() =~= Seq::empty());
        assert(pairs.skip(1) =~= Seq::empty());
        assert(spec_encode_records(pairs) =~= spec_encode_bytes(pairs[0].0) + (spec_encode_bytes(
            pairs[0].1,
        ) + spec_encode_records(pairs.skip(1))));
    } else {
        let front = pairs.drop_last();
        lemma_encode_records_front(front);
        assert(front.skip(1) =~= pairs.skip(1).drop_last());
        assert(pairs.skip(1).last() == pairs.last());
        assert(spec_encode_records(pairs) =~= spec_encode_bytes(pairs[0].0) + (spec_encode_bytes(
            pairs[0].1,
        ) + spec_encode_records(pairs.skip(1))));
    }
}

/// One pair is read back from the front of the bytes that start with it.
proof fn lemma_decode_front(key: Seq<u8>, value: Seq<u8>, tail: Seq<u8>)
    requires
        key.len() <= u64::MAX,
        value.len() <= u64::MAX,
    ensures
        spec_decode_records(spec_encode_bytes(key) + (spec_encode_bytes(value) + tail))
            == spec_prepend_pairs(seq![(key, value)], spec_decode_records(tail)),
{
    let bytes = spec_encode_bytes(key) + (spec_encode_bytes(value) + tail);
    lemma_read_encoded_bytes(key, spec_encode_bytes(value) + tail);
    lemma_read_encoded_bytes(value, tail);
    assert(spec_encode_bytes(key).len() >= 8);
    assert(bytes.len() > 0);
}

/// A checkpoint is read back as the pairs that were written to it.
pub proof fn lemma_decode_of_encoded_records(pairs: Seq<(Seq<u8>, Seq<u8>)>)
    requires
        spec_pairs_fit(pairs),
    ensures
        spec_decode_records(spec_encode_records(pairs)) == Some(pairs),
        spec_load_records(spec_encode_records(pairs)) == Some(spec_map_of(pairs)),
    decreases pairs.len(),
{
    if pairs.len() == 0 {
        assert(spec_decode_records(spec_encode_records(pairs)).unwrap() =~= pairs);
    } else {
        let rest = pairs.skip(1);
        lemma_encode_records_front(pairs);
        assert(pairs[0].0.len() <= u64::MAX && pairs[0].1.len() <= u64::MAX);
        lemma_decode_front(pairs[0].0, pairs[0].1, spec_encode_records(rest));
        assert(spec_pairs_fit(rest)) by {
            assert forall|i: int| 0 <= i < rest.len() implies (#[trigger] rest[i]).0.len()
                <= u64::MAX && rest[i].1.len() <= u64::MAX by {
                assert(pairs[i + 1].0.len() <= u64::MAX);
            }
        }
        lemma_decode_of_encoded_records(rest);
        assert(seq![pairs[0]] + rest =~= pairs);
    }
}

} // verus!
