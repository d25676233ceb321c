//! Checking content objects against the digest in their names, and tallying
//! what a run found.
use vstd::prelude::*;
use vstd::string::*;

use sha2::Digest;

use crate::identifier::{encode_upper, hex_upper};

verus! {

/// The SHA-256 digest of a byte sequence.
pub uninterp spec fn sha256_of(b: Seq<u8>) -> Seq<u8>;

/// Relies on `sha2::Sha256::digest`: the SHA-256 digest of the bytes, 32 bytes long.
#[verifier::external_body]
fn sha256(b: &[u8]) -> (r: Vec<u8>)
    ensures
        r@ == sha256_of(b@),
        r@.len() == 32,
{
    sha2::Sha256::digest(b).to_vec()
}

/// The uppercase hex SHA-256 digest of a file's contents.
pub fn hash_file(contents: &[u8]) -> (r: String)
    ensures
        r@ == hex_upper(sha256_of(contents@)),
        r@.len() == 64,
{
    let d = sha256(contents);
    encode_upper(&d)
}

/// The tag of the only supported algorithm, SHA-256, with its dash.
pub open spec fn sha256_prefix() -> Seq<char> {
    seq!['S', '2', '-']
}

/// The digest part of an object name, where the name is `S2-` and a digest.
pub open spec fn expected_digest_of(name: Seq<char>) -> Option<Seq<char>> {
    if name.len() >= 3 && name.take(3) == sha256_prefix() {
        Some(name.skip(3))
    } else {
        None
    }
}

/// The digest that an object name promises, or `None` for another algorithm.
pub fn expected_digest(name: &str) -> (r: Option<String>)
    ensures
        match expected_digest_of(name@) {
            Some(d) => r matches Some(s) && s@ == d,
            None => r is None,
        },
{
    let n = name.unicode_len();
    if n < 3 || name.get_char(0) != 'S' || name.get_char(1) != '2' || name.get_char(2) != '-' {
        proof {
            if n >= 3 && name@.take(3) == sha256_prefix() {
                assert(name@.take(3)[0] == 'S' && name@.take(3)[1] == '2' && name@.take(3)[2] == '-');
            }
        }
        return None;
    }
    assert(name@.take(3) =~= sha256_prefix());
    let d = name.substring_char(3, n);
    assert(d@ =~= name@.skip(3));
    Some(String::from_str(d))
}

/// A reported finding: an object whose contents do not hash to its name.
#[derive(Debug, Clone, PartialEq, Eq)]
pub struct Mismatch {
    pub name: String,
    pub expected: String,
    pub actual: String,
}

/// The result of checking one object.
#[derive(Debug, Clone, PartialEq, Eq)]
pub enum CheckOutcome {
    /// The contents hash to the digest in the name.
    Match,
    /// The contents hash to another digest.
    Mismatch(Mismatch),
    /// The name is not `S2-` and a digest.
    UnsupportedAlgorithm(String),
    /// The file could not be read: the name and the reason.
    Unreadable(String, String),
}

/// `o` is the outcome for an object named `name` whose contents hash to `actual`.
pub open spec fn outcome_for(o: CheckOutcome, name: Seq<char>, actual: Seq<char>) -> bool {
    match expected_digest_of(name) {
        None => o matches CheckOutcome::UnsupportedAlgorithm(n) && n@ == name,
        Some(d) => if d == actual {
            o is Match
        } else {
            o matches CheckOutcome::Mismatch(m) && m.name@ == name && m.expected@ == d
                && m.actual@ == actual
        },
    }
}

/// Compares the digest promised by `name` with `actual`.
pub fn check_digest(name: &str, actual: &String) -> (r: CheckOutcome)
    ensures
        outcome_for(r, name@, actual@),
{
    match expected_digest(name) {
        None => CheckOutcome::UnsupportedAlgorithm(String::from_str(name)),
        Some(d) => if d == *actual {
            CheckOutcome::Match
        } else {
            CheckOutcome::Mismatch(
                Mismatch { name: String::from_str(name), expected: d, actual: actual.clone() },
            )
        },
    }
}

/// Checks one object: its name against the SHA-256 digest of its contents. A
/// name of another algorithm is reported without hashing.
pub fn verify_object(name: &str, contents: &[u8]) -> (r: CheckOutcome)
    ensures
        outcome_for(r, name@, hex_upper(sha256_of(contents@))),
{
    if expected_digest(name).is_none() {
        return CheckOutcome::UnsupportedAlgorithm(String::from_str(name));
    }
    let actual = hash_file(contents);
    check_digest(name, &actual)
}

pub open spec fn count_mismatches(os: Seq<CheckOutcome>) -> nat
    decreases os.len(),
{
    if os.len() == 0 {
        0
    } else {
        count_mismatches(os.drop_last()) + if os.last() is Mismatch { 1nat } else { 0nat }
    }
}

pub open spec fn count_matches(os: Seq<CheckOutcome>) -> nat
    decreases os.len(),
{
    if os.len() == 0 {
        0
    } else {
        count_matches(os.drop_last()) + if os.last() is Match { 1nat } else { 0nat }
    }
}

/// The number of objects whose contents do not hash to the digest in their names.
pub open spec fn count_corrupted(names: Seq<Seq<char>>, actuals: Seq<Seq<char>>) -> nat
    decreases names.len(),
{
    if names.len() == 0 || actuals.len() == 0 {
        0
    } else {
        count_corrupted(names.drop_last(), actuals.drop_last()) + if expected_digest_of(
            names.last(),
        ) != Some(actuals.last()) {
            1nat
        } else {
            0nat
        }
    }
}

/// What a verification run found: every mismatch, and how many objects passed
/// or could not be checked.
#[derive(Debug)]
pub struct VerificationReport {
    pub mismatches: Vec<Mismatch>,
    pub passed: usize,
    pub errors: usize,
}

impl VerificationReport {
    pub open spec fn total(&self) -> int {
        self.mismatches@.len() + self.passed + self.errors
    }

    pub fn new() -> (r: VerificationReport)
        ensures
            r.mismatches@.len() == 0,
            r.passed == 0,
            r.errors == 0,
    {
        VerificationReport { mismatches: Vec::new(), passed: 0, errors: 0 }
    }

    /// Counts one outcome: a mismatch is kept, a match counts as passed, and
    /// anything else as an error.
    pub fn record(&mut self, o: CheckOutcome)
        requires
            old(self).total() < usize::MAX,
        ensures
            final(self).total() == old(self).total() + 1,
            match o {
                CheckOutcome::Match => final(self).passed == old(self).passed + 1
                    && final(self).errors == old(self).errors && final(self).mismatches@
                    == old(self).mismatches@,
                CheckOutcome::Mismatch(m) => final(self).mismatches@ == old(self).mismatches@.push(m)
                    && final(self).passed == old(self).passed && final(self).errors
                    == old(self).errors,
                _ => final(self).errors == old(self).errors + 1 && final(self).passed
                    == old(self).passed && final(self).mismatches@ == old(self).mismatches@,
            },
    {
        match o {
            CheckOutcome::Match => self.passed = self.passed + 1,
            CheckOutcome::Mismatch(m) => self.mismatches.push(m),
            _ => self.errors = self.errors + 1,
        }
    }
}

/// Checking a population of objects named `S2-` and a digest reports exactly
/// the corrupted ones as mismatches and lets all the others pass.
pub proof fn lemma_verification_exhaustive(
    names: Seq<Seq<char>>,
    actuals: Seq<Seq<char>>,
    outcomes: Seq<CheckOutcome>,
)
    requires
        names.len() == actuals.len(),
        outcomes.len() == names.len(),
        forall|i: int| 0 <= i < names.len() ==> expected_digest_of(#[trigger] names[i]) is Some,
        forall|i: int| 0 <= i < names.len() ==> outcome_for(#[trigger] outcomes[i], names[i], actuals[i]),
    ensures
        count_mismatches(outcomes) == count_corrupted(names, actuals),
        count_matches(outcomes) == names.len() - count_corrupted(names, actuals),
    decreases names.len(),
{
    if names.len() > 0 {
        let n = names.len() - 1;
        assert(expected_digest_of(names[n as int]) is Some);
        assert(outcome_for(outcomes[n as int], names[n as int], actuals[n as int]));
        lemma_verification_exhaustive(names.drop_last(), actuals.drop_last(), outcomes.drop_last());
        assert(count_corrupted(names.drop_last(), actuals.drop_last()) <= n) by {
            lemma_corrupted_bound(names.drop_last(), actuals.drop_last());
        }
    }
}

proof fn lemma_corrupted_bound(names: Seq<Seq<char>>, actuals: Seq<Seq<char>>)
    ensures
        count_corrupted(names, actuals) <= names.len(),
    decreases names.len(),
{
    if names.len() > 0 && actuals.len() > 0 {
        lemma_corrupted_bound(names.drop_last(), actuals.drop_last());
    }
}

} // verus!
