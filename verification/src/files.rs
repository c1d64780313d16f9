//! The names of the files of a store, and the text of its version markers.

use vstd::prelude::*;
use vstd::string::*;

verus! {

/// The name of a checkpoint, before the version.
pub const CHECKPOINT_FILE_NAME: &'static str = "checkpoint";

/// The name of a log, before the version.
pub const LOG_FILE_NAME: &'static str = "logfile";

/// The name of the marker that holds the current version.
pub const VERSION_FILE_NAME: &'static str = "version";

/// The name of the marker that holds the version of a commit under way.
pub const NEW_VERSION_FILE_NAME: &'static str = "new_version";

/// The decimal digits of `n` in ASCII, without leading zeros.
pub open spec fn spec_decimal(n: nat) -> Seq<u8>
    decreases n,
{
    if n < 10 {
        seq![(48 + n) as u8]
    } else {
        spec_decimal(n / 10).push((48 + n % 10) as u8)
    }
}

/// Every byte of `s` is an ASCII digit.
pub open spec fn spec_all_digits(s: Seq<u8>) -> bool {
    forall|i: int| 0 <= i < s.len() ==> 48 <= #[trigger] s[i] <= 57
}

/// The number that the digits of `s` stand for.
pub open spec fn spec_digits_value(s: Seq<u8>) -> nat
    recommends
        spec_all_digits(s),
    decreases s.len(),
{
    if s.len() == 0 {
        0
    } else {
        (spec_digits_value(s.drop_last()) * 10 + (s.last() - 48)) as nat
    }
}

/// The version that a marker's text stands for: one or more ASCII digits,
/// after a plus sign or without one, that make a number within `u64`.
pub open spec fn spec_parse_decimal(s: Seq<u8>) -> Option<u64> {
    let digits = if s.len() > 0 && s[0] == 43 {
        s.skip(1)
    } else {
        s
    };
    if digits.len() > 0 && spec_all_digits(digits) && spec_digits_value(digits) <= u64::MAX {
        Some(spec_digits_value(digits) as u64)
    } else {
        None
    }
}

/// The decimal digits of a number are digits, and stand for that number.
pub proof fn lemma_decimal_digits(n: nat)
    ensures
        spec_decimal(n).len() > 0,
        spec_all_digits(spec_decimal(n)),
        spec_digits_value(spec_decimal(n)) == n,
    decreases n,
{
    if n < 10 {
        let s = spec_decimal(n);
        assert(s.drop_last() =~= Seq::empty());
        assert(spec_digits_value(s.drop_last()) == 0);
    } else {
        lemma_decimal_digits(n / 10);
        let s = spec_decimal(n);
        assert(s.drop_last() =~= spec_decimal(n / 10));
    }
}

/// A version is read back from its text.
pub proof fn lemma_parse_decimal_roundtrip(n: u64)
    ensures
        spec_parse_decimal(spec_decimal(n as nat)) == Some(n),
{
    lemma_decimal_digits(n as nat);
}

/// The digits of a prefix stand for no more than the digits of the whole.
pub proof fn lemma_digits_value_prefix(s: Seq<u8>, k: int)
    requires
        spec_all_digits(s),
        0 <= k <= s.len(),
    ensures
        spec_digits_value(s.take(k)) <= spec_digits_value(s),
    decreases s.len() - k,
{
    if k == s.len() {
        assert(s.take(k) =~= s);
    } else {
        lemma_digits_value_prefix(s, k + 1);
        assert(s.take(k + 1).drop_last() =~= s.take(k));
        assert(48 <= s.take(k + 1).last());
    }
}

/// The decimal digits of `n`.
pub fn encode_decimal(n: u64) -> (digits: Vec<u8>)
    ensures
        digits@ == spec_decimal(n as nat),
    decreases n,
{
    if n < 10 {
        let mut digits: Vec<u8> = Vec::new();
        digits.push(48 + n as u8);
        assert(digits@ =~= spec_decimal(n as nat));
        digits
    } else {
        let mut digits = encode_decimal(n / 10);
        digits.push(48 + (n % 10) as u8);
        digits
    }
}

/// The version that a marker's text stands for, if it stands for one.
pub fn parse_decimal(text: &[u8]) -> (version: Option<u64>)
    ensures
        version == spec_parse_decimal(text@),
{
    let start: usize = if text.len() > 0 && text[0] == 43 {
        1
    } else {
        0
    };
    if start == text.len() {
        return None;
    }
    let ghost digits = if start == 1 {
        text@.skip(1)
    } else {
        text@
    };
    let mut value: u64 = 0;
    let mut i: usize = start;
    assert(digits.take(0) =~= Seq::empty());
    while i < text.len()
        invariant
            start <= i <= text.len(),
            start == if text@.len() > 0 && text@[0] == 43 {
                1int
            } else {
                0int
            },
            digits == if text@.len() > 0 && text@[0] == 43 {
                text@.skip(1)
            } else {
                text@
            },
            digits.len() == text@.len() - start,
            spec_all_digits(digits.take(i - start)),
            value == spec_digits_value(digits.take(i - start)),
        decreases text.len() - i,
    {
        let d = text[i];
        let ghost k = i - start;
        assert(digits[k] == d);
        if d < 48 || d > 57 {
            assert(!spec_all_digits(digits));
            return None;
        }
        proof {
            assert(digits.take(k + 1).drop_last() =~= digits.take(k));
            assert(digits.take(k + 1).last() == d);
            assert(spec_all_digits(digits.take(k + 1))) by {
                assert forall|j: int| 0 <= j < k + 1 implies 48 <= #[trigger] digits.take(
                    k + 1,
                )[j] <= 57 by {
                    if j < k {
                        assert(digits.take(k)[j] == digits.take(k + 1)[j]);
                    }
                }
            }
            if value * 10 + (d - 48) > u64::MAX {
                if spec_all_digits(digits) {
                    lemma_digits_value_prefix(digits, k + 1);
                }
            }
        }
        if value > u64::MAX / 10 {
            return None;
        }
        let shifted = value * 10;
        if shifted > u64::MAX - (d - 48) as u64 {
            return None;
        }
        value = shifted + (d - 48) as u64;
        i += 1;
    }
    assert(digits.take(i - start) =~= digits);
    Some(value)
}

/// The name of a file of the store: the plain name for a marker, and the
/// name, a dot and the version in decimal for a checkpoint or a log.
pub open spec fn spec_db_file_path(version: Option<u64>, file_name: &str) -> Seq<u8> {
    match version {
        Some(n) => file_name.spec_bytes() + seq![46u8] + spec_decimal(n as nat),
        None => file_name.spec_bytes(),
    }
}

/// The name of the checkpoint of a version.
pub open spec fn spec_checkpoint_name(version: u64) -> Seq<u8> {
    spec_db_file_path(Some(version), CHECKPOINT_FILE_NAME)
}

/// The name of the log of a version.
pub open spec fn spec_log_name(version: u64) -> Seq<u8> {
    spec_db_file_path(Some(version), LOG_FILE_NAME)
}

/// The name of the marker of the current version.
pub open spec fn spec_version_name() -> Seq<u8> {
    spec_db_file_path(None, VERSION_FILE_NAME)
}

/// The name of the marker of a commit under way.
pub open spec fn spec_new_version_name() -> Seq<u8> {
    spec_db_file_path(None, NEW_VERSION_FILE_NAME)
}

/// The name of a file of the store.
pub fn get_db_file_path(version: Option<u64>, file_name: &str) -> (path: Vec<u8>)
    ensures
        path@ == spec_db_file_path(version, file_name),
{
    let mut path = file_name.as_bytes_vec();
    match version {
        Some(n) => {
            path.push(46);
            let digits = encode_decimal(n);
            let ghost before = path@;
            path.extend_from_slice(digits.as_slice());
            assert(path@ =~= before + digits@);
        },
        None => {},
    }
    path
}

/// The length and the first byte of the name of a checkpoint.
proof fn lemma_checkpoint_name_bytes()
    ensures
        CHECKPOINT_FILE_NAME.spec_bytes().len() == 10,
        CHECKPOINT_FILE_NAME.spec_bytes()[0] == 99,
{
    broadcast use vstd::string::group_string_axioms;

    reveal_strlit("checkpoint");
    assert(CHECKPOINT_FILE_NAME.is_ascii());
}

/// The length and the first byte of the name of a log.
proof fn lemma_log_name_bytes()
    ensures
        LOG_FILE_NAME.spec_bytes().len() == 7,
        LOG_FILE_NAME.spec_bytes()[0] == 108,
{
    broadcast use vstd::string::group_string_axioms;

    reveal_strlit("logfile");
    assert(LOG_FILE_NAME.is_ascii());
}

/// The length and the first byte of the names of the two markers.
proof fn lemma_marker_name_bytes()
    ensures
        VERSION_FILE_NAME.spec_bytes().len() == 7,
        VERSION_FILE_NAME.spec_bytes()[0] == 118,
        NEW_VERSION_FILE_NAME.spec_bytes().len() == 11,
        NEW_VERSION_FILE_NAME.spec_bytes()[0] == 110,
{
    broadcast use vstd::string::group_string_axioms;

    reveal_strlit("version");
    reveal_strlit("new_version");
    assert(VERSION_FILE_NAME.is_ascii());
    assert(NEW_VERSION_FILE_NAME.is_ascii());
}

/// Two versions whose decimal digits follow the same name are the same.
proof fn lemma_versioned_name_injective(file_name: &str, v: u64, w: u64)
    requires
        spec_db_file_path(Some(v), file_name) == spec_db_file_path(Some(w), file_name),
    ensures
        v == w,
{
    let k = file_name.spec_bytes().len() + 1;
    assert(spec_db_file_path(Some(v), file_name).skip(k as int) =~= spec_decimal(v as nat));
    assert(spec_db_file_path(Some(w), file_name).skip(k as int) =~= spec_decimal(w as nat));
    lemma_parse_decimal_roundtrip(v);
    lemma_parse_decimal_roundtrip(w);
}

/// The four kinds of file have names that start differently, so a
/// checkpoint, a log and the two markers never share a name; and the
/// checkpoints, or the logs, of two versions share a name only where the
/// versions are the same.
pub proof fn lemma_file_names_distinct(v: u64, w: u64)
    ensures
        spec_checkpoint_name(v) != spec_log_name(w),
        spec_checkpoint_name(v) != spec_version_name(),
        spec_checkpoint_name(v) != spec_new_version_name(),
        spec_log_name(v) != spec_version_name(),
        spec_log_name(v) != spec_new_version_name(),
        spec_version_name() != spec_new_version_name(),
        spec_checkpoint_name(v) == spec_checkpoint_name(w) ==> v == w,
        spec_log_name(v) == spec_log_name(w) ==> v == w,
{
    lemma_checkpoint_name_bytes();
    lemma_log_name_bytes();
    lemma_marker_name_bytes();
    assert(spec_checkpoint_name(v)[0] == 99);
    assert(spec_log_name(w)[0] == 108);
    assert(spec_log_name(v)[0] == 108);
    assert(spec_version_name()[0] == 118);
    assert(spec_new_version_name()[0] == 110);
    if spec_checkpoint_name(v) == spec_checkpoint_name(w) {
        lemma_versioned_name_injective(CHECKPOINT_FILE_NAME, v, w);
    }
    if spec_log_name(v) == spec_log_name(w) {
        lemma_versioned_name_injective(LOG_FILE_NAME, v, w);
    }
}

} // verus!
