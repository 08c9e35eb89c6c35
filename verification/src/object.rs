//! The keys of objects, and what came of creating one.
use vstd::prelude::*;
use vstd::string::*;

use crate::error::{Error, StoreOperation};
use crate::text::{
    digit_of, digit_text, lemma_padded_digits, lemma_padded_is_injective, lemma_pow10_increases,
    padded, pow10, push_padded, push_text,
};

verus! {

/// Whether the two characters from `at` on are a component of their own.
pub open spec fn is_parent_component(prefix: Seq<char>, at: int) -> bool {
    &&& 0 <= at && at + 2 <= prefix.len()
    &&& prefix[at] == '.' && prefix[at + 1] == '.'
    &&& at == 0 || prefix[at - 1] == '/'
    &&& at + 2 == prefix.len() || prefix[at + 2] == '/'
}

/// Whether objects can be kept under the prefix: it is not empty, it is relative, and none of its
/// components is empty or names the parent.
pub open spec fn is_prefix(prefix: Seq<char>) -> bool {
    &&& prefix.len() > 0
    &&& forall|i: int|
        0 <= i < prefix.len() && #[trigger] prefix[i] == '/' ==> 0 < i && i + 1 < prefix.len()
            && prefix[i + 1] != '/'
    &&& forall|i: int| !#[trigger] is_parent_component(prefix, i)
}

/// Checks that objects can be kept under the prefix.
pub fn check_prefix(prefix: &String) -> (valid: bool)
    ensures
        valid == is_prefix(prefix@),
{
    let text = prefix.as_str();
    let n: usize = text.unicode_len();
    if n == 0 {
        return false;
    }
    let mut i: usize = 0;
    while i < n
        invariant
            text@ == prefix@,
            n == text@.len(),
            i <= n,
            forall|k: int|
                0 <= k < i && #[trigger] text@[k] == '/' ==> 0 < k && k + 1 < n && text@[k + 1]
                    != '/',
            forall|k: int| k < i ==> !#[trigger] is_parent_component(text@, k),
        decreases n - i,
    {
        let c = text.get_char(i);
        if c == '/' && (i == 0 || n - i == 1 || text.get_char(i + 1) == '/') {
            assert(text@[i as int] == '/');
            return false;
        }
        if c == '.' && n - i >= 2 && text.get_char(i + 1) == '.' && (i == 0 || text.get_char(i - 1)
            == '/') && (n - i == 2 || text.get_char(i + 2) == '/') {
            assert(is_parent_component(text@, i as int));
            return false;
        }
        assert(!is_parent_component(text@, i as int));
        i = i + 1;
    }
    true
}

/// The key of the object under the prefix: the sequence with twenty digits.
pub open spec fn path_of(prefix: Seq<char>, object_seq: u64) -> Seq<char> {
    prefix + "/objects/"@ + padded(object_seq as nat, 20) + ".wal"@
}

/// Returns the key of the object under the prefix.
pub fn object_path(prefix: &String, object_seq: u64) -> (path: String)
    ensures
        path@ == path_of(prefix@, object_seq),
{
    let mut path = String::new();
    push_text(&mut path, prefix.as_str());
    push_text(&mut path, "/objects/");
    push_padded(&mut path, object_seq, 20);
    push_text(&mut path, ".wal");
    assert(path@ =~= path_of(prefix@, object_seq));
    path
}

/// The digits of a key stand before its last four characters.
proof fn lemma_path_digits(prefix: Seq<char>, object_seq: u64)
    ensures
        ({
            let path = path_of(prefix, object_seq);
            path.len() >= 24 && path.subrange(path.len() - 24, path.len() - 4) == padded(
                object_seq as nat,
                20,
            )
        }),
{
    reveal_strlit(".wal");
    lemma_padded_is_injective(object_seq as nat, object_seq as nat, 20);
    let path = path_of(prefix, object_seq);
    assert(path.subrange(path.len() - 24, path.len() - 4) =~= padded(object_seq as nat, 20));
}

proof fn lemma_twenty_digits()
    ensures
        pow10(20) == 100_000_000_000_000_000_000,
{
    reveal_with_fuel(pow10, 21);
}

/// Two objects under one prefix have different keys.
pub proof fn lemma_paths_differ(prefix: Seq<char>, a: u64, b: u64)
    requires
        path_of(prefix, a) == path_of(prefix, b),
    ensures
        a == b,
{
    lemma_path_digits(prefix, a);
    lemma_path_digits(prefix, b);
    lemma_padded_is_injective(a as nat, b as nat, 20);
    lemma_twenty_digits();
}

/// Returns the sequence of the object whose key under the prefix is `path`, or `None` when `path`
/// is the key of no object.
pub fn object_seq_of(prefix: &String, path: &String) -> (object_seq: Option<u64>)
    ensures
        match object_seq {
            Some(seq) => path@ == path_of(prefix@, seq),
            None => forall|seq: u64| path@ != #[trigger] path_of(prefix@, seq),
        },
{
    let text = path.as_str();
    let n: usize = text.unicode_len();
    proof {
        lemma_twenty_digits();
        assert forall|seq: u64| path@ == #[trigger] path_of(prefix@, seq) implies path@.len() >= 24
            && path@.subrange(path@.len() - 24, path@.len() - 4) == padded(seq as nat, 20) by {
            lemma_path_digits(prefix@, seq);
        }
    }
    if n < 24 {
        return None;
    }
    let start: usize = n - 24;
    let mut value: u128 = 0;
    let mut i: usize = 0;
    assert(text@.subrange(start as int, start as int) =~= padded(0, 0));
    while i < 20
        invariant
            text@ == path@,
            n == text@.len(),
            start == n - 24,
            i <= 20,
            value < pow10(i as nat),
            pow10(20) == 100_000_000_000_000_000_000,
            text@.subrange(start as int, start + i) == padded(value as nat, i as nat),
            forall|seq: u64|
                path@ == #[trigger] path_of(prefix@, seq) ==> path@.subrange(
                    path@.len() - 24,
                    path@.len() - 4,
                ) == padded(seq as nat, 20),
        decreases 20 - i,
    {
        let c = text.get_char(start + i);
        match digit_of(c) {
            None => {
                proof {
                    assert forall|seq: u64| path@ != #[trigger] path_of(prefix@, seq) by {
                        if path@ == path_of(prefix@, seq) {
                            lemma_padded_digits(seq as nat, 20, i as int);
                            let digits = path@.subrange(path@.len() - 24, path@.len() - 4);
                            assert(digits[i as int] == c);
                        }
                    }
                }
                return None;
            },
            Some(digit) => {
                proof {
                    lemma_pow10_increases((i + 1) as nat, 20);
                    let next = (10 * value + digit) as nat;
                    assert(next / 10 == value as nat && next % 10 == digit as nat);
                    assert(text@.subrange(start as int, start + i + 1) =~= text@.subrange(
                        start as int,
                        start + i,
                    ) + seq![c]);
                    assert(padded(next, (i + 1) as nat) == padded(value as nat, i as nat)
                        + digit_text(digit as nat));
                }
                value = 10 * value + digit as u128;
                i = i + 1;
            },
        }
    }
    proof {
        assert forall|seq: u64| path@ == #[trigger] path_of(prefix@, seq) implies value == seq by {
            assert(path@.subrange(path@.len() - 24, path@.len() - 4) =~= text@.subrange(
                start as int,
                start + 20,
            ));
            lemma_padded_is_injective(seq as nat, value as nat, 20);
        }
    }
    if value > u64::MAX as u128 {
        return None;
    }
    let object_seq: u64 = value as u64;
    let key = object_path(prefix, object_seq);
    if key.eq(path) {
        Some(object_seq)
    } else {
        None
    }
}

/// How a conditional create of an object ended.
#[derive(Clone, Copy, Debug, PartialEq, Eq, Structural)]
pub enum PutOutcome {
    /// The object did not exist and was written.
    Created,
    /// The key was taken already.
    Exists,
    /// The create failed. `cause` identifies the failure.
    Failed { cause: u64 },
}

/// What reading the key of an object back gave.
#[derive(Debug)]
pub enum ReadBack {
    Found(Vec<u8>),
    Absent,
    /// The read failed. `cause` identifies the failure.
    Failed { cause: u64 },
}

/// What a conditional create of the object with the content `bytes` came to. An object that was not
/// created now is read back: identical content is a retry of an object that was written before and
/// is accepted, different content belongs to another writer. Where the object cannot be read back
/// either, the failure is transient.
pub open spec fn create_result(
    object_seq: u64,
    bytes: Seq<u8>,
    put: PutOutcome,
    read_back: ReadBack,
) -> Result<(), Error> {
    match (put, read_back) {
        (PutOutcome::Created, _) => Ok(()),
        (_, ReadBack::Found(found)) => if found@ == bytes {
            Ok(())
        } else {
            Err(Error::WalObjectConflict { object_seq })
        },
        (PutOutcome::Failed { cause }, _) => Err(
            Error::WalObjectStore { operation: StoreOperation::Write, object_seq, cause },
        ),
        (PutOutcome::Exists, ReadBack::Failed { cause }) => Err(
            Error::WalObjectStore { operation: StoreOperation::Read, object_seq, cause },
        ),
        (PutOutcome::Exists, ReadBack::Absent) => Err(
            Error::WalObjectStore { operation: StoreOperation::Read, object_seq, cause: 0 },
        ),
    }
}

/// Decides what a conditional create of the object with the content `bytes` came to, from how the
/// create ended and what reading the key back gave.
pub fn settle_create(object_seq: u64, bytes: &[u8], put: PutOutcome, read_back: ReadBack) -> (result:
    Result<(), Error>)
    ensures
        result == create_result(object_seq, bytes@, put, read_back),
{
    if let PutOutcome::Created = put {
        return Ok(());
    }
    if let ReadBack::Found(found) = &read_back {
        return if same_bytes(found.as_slice(), bytes) {
            Ok(())
        } else {
            Err(Error::WalObjectConflict { object_seq })
        };
    }
    match put {
        PutOutcome::Failed { cause } => Err(
            Error::WalObjectStore { operation: StoreOperation::Write, object_seq, cause },
        ),
        _ => {
            let cause: u64 = match read_back {
                ReadBack::Failed { cause } => cause,
                _ => 0,
            };
            Err(Error::WalObjectStore { operation: StoreOperation::Read, object_seq, cause })
        },
    }
}

fn same_bytes(a: &[u8], b: &[u8]) -> (same: bool)
    ensures
        same == (a@ == b@),
{
    let n: usize = a.len();
    if n != b.len() {
        return false;
    }
    let mut i: usize = 0;
    while i < n
        invariant
            n == a@.len(),
            n == b@.len(),
            i <= n,
            forall|k: int| 0 <= k < i ==> a@[k] == b@[k],
        decreases n - i,
    {
        if a[i] != b[i] {
            return false;
        }
        i = i + 1;
    }
    assert(a@ =~= b@);
    true
}

} // verus!
