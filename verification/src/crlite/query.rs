//! The keys of the revocation filter and the universe that they are checked against.
use crate::clubcard::Clubcard;
use crate::equation::Equation;
use crate::query::AsQuery;
use crate::query::Queryable;
use sha2::Digest;
use sha2::Sha256;
use vstd::prelude::*;

verus! {

/// The revocation filter: rows of four words, the coverage of the logs as its universe, and
/// nothing to say of its blocks.
pub type CRLiteClubcard = Clubcard<4, CRLiteCoverage, ()>;

/// The SHA-256 digest of a byte string: 32 bytes.
pub uninterp spec fn sha256(data: Seq<u8>) -> Seq<u8>;

/// Feeds `first` and then `second` to `sha2::Sha256` and takes the digest: the SHA-256 digest
/// of `first` followed by `second`.
#[verifier::external_body]
fn sha256_of_pair(first: &[u8], second: &[u8]) -> (digest: [u8; 32])
    ensures
        digest@ == sha256(first@ + second@),
{
    let mut hasher = Sha256::new();
    hasher.update(first);
    hasher.update(second);
    hasher.finalize().into()
}

/// The word that the eight bytes of `digest` from byte `8 * i` on spell, the lowest byte first.
pub open spec fn digest_word(digest: Seq<u8>, i: int) -> u64 {
    (digest[8 * i] as u64) | (digest[8 * i + 1] as u64) << 8 | (digest[8 * i + 2] as u64) << 16 | (
    digest[8 * i + 3] as u64) << 24 | (digest[8 * i + 4] as u64) << 32 | (digest[8 * i + 5] as u64)
        << 40 | (digest[8 * i + 6] as u64) << 48 | (digest[8 * i + 7] as u64) << 56
}

/// The row that a digest of 32 bytes gives in a system of width `m`: its coefficients are the
/// four words of the digest, the lowest bit of the first set to one, and it starts at the
/// fourth word modulo the width.
pub open spec fn row_of_digest(digest: Seq<u8>, m: usize) -> Equation<4> {
    Equation {
        start: ((digest_word(digest, 3) as usize) % (if m == 0 {
            1usize
        } else {
            m
        })) as usize,
        coeffs: [
            digest_word(digest, 0) | 1,
            digest_word(digest, 1),
            digest_word(digest, 2),
            digest_word(digest, 3),
        ],
        target: false,
    }
}

/// Computes one word of a digest.
fn word_of(digest: &[u8; 32], i: usize) -> (w: u64)
    requires
        i < 4,
    ensures
        w == digest_word(digest@, i as int),
{
    (digest[8 * i] as u64) | (digest[8 * i + 1] as u64) << 8 | (digest[8 * i + 2] as u64) << 16 | (
    digest[8 * i + 3] as u64) << 24 | (digest[8 * i + 4] as u64) << 32 | (digest[8 * i + 5] as u64)
        << 40 | (digest[8 * i + 6] as u64) << 48 | (digest[8 * i + 7] as u64) << 56
}

/// Derives the row that a digest gives in a system of width `m`.
pub fn derive_row(digest: &[u8; 32], m: usize) -> (e: Equation<4>)
    ensures
        e == row_of_digest(digest@, m),
        e.aligned(),
        m > 0 ==> e.start < m,
{
    let w0: u64 = word_of(digest, 0) | 1;
    let w1: u64 = word_of(digest, 1);
    let w2: u64 = word_of(digest, 2);
    let w3: u64 = word_of(digest, 3);
    let modulus: usize = if m == 0 {
        1
    } else {
        m
    };
    let start: usize = (w3 as usize) % modulus;
    let coeffs: [u64; 4] = [w0, w1, w2, w3];
    proof {
        let w = digest_word(digest@, 0);
        assert(((w | 1) >> 0) & 1 == 1) by (bit_vector);
        assert(coeffs =~= row_of_digest(digest@, m).coeffs);
    }
    Equation::homogeneous(start, coeffs)
}

/// What the logs cover: for each log, by its id, the first and the last timestamp that it
/// vouches for. An id that occurs twice counts where it occurs first.
pub struct CRLiteCoverage(pub Vec<([u8; 32], u64, u64)>);

/// The interval of the log `log_id` among `entries`.
pub open spec fn interval_in(entries: Seq<([u8; 32], u64, u64)>, log_id: Seq<u8>) -> Option<
    (u64, u64),
>
    decreases entries.len(),
{
    if entries.len() == 0 {
        None
    } else if entries[0].0@ == log_id {
        Some((entries[0].1, entries[0].2))
    } else {
        interval_in(entries.drop_first(), log_id)
    }
}

impl View for CRLiteCoverage {
    type V = Map<Seq<u8>, (u64, u64)>;

    open spec fn view(&self) -> Map<Seq<u8>, (u64, u64)> {
        Map::new(
            |log_id: Seq<u8>| interval_in(self.0@, log_id) is Some,
            |log_id: Seq<u8>| interval_in(self.0@, log_id)->0,
        )
    }
}

impl CRLiteCoverage {
    /// Whether the log `log_id` vouches for `timestamp`.
    pub open spec fn covers(&self, log_id: Seq<u8>, timestamp: u64) -> bool {
        self@.contains_key(log_id) && self@[log_id].0 <= timestamp <= self@[log_id].1
    }

    /// Whether no log has two entries.
    pub open spec fn distinct(&self) -> bool {
        forall|i: int, j: int|
            0 <= i < j < self.0@.len() ==> (#[trigger] self.0@[i]).0@ != (#[trigger] self.0@[j]).0@
    }

    /// The coverage of no log.
    pub fn new() -> (coverage: Self)
        ensures
            coverage@ == Map::<Seq<u8>, (u64, u64)>::empty(),
            coverage.0@.len() == 0,
            coverage.distinct(),
    {
        let coverage = CRLiteCoverage(Vec::new());
        assert(coverage@ =~= Map::<Seq<u8>, (u64, u64)>::empty());
        coverage
    }

    /// The number of entries.
    pub fn len(&self) -> (n: usize)
        ensures
            n == self.0@.len(),
    {
        self.0.len()
    }

    /// The position of the first entry of the log `log_id`.
    fn position(&self, log_id: &[u8; 32]) -> (r: Option<usize>)
        ensures
            match r {
                Some(i) => {
                    &&& i < self.0@.len()
                    &&& self.0@[i as int].0@ == log_id@
                    &&& forall|k: int| 0 <= k < i ==> (#[trigger] self.0@[k]).0@ != log_id@
                    &&& interval_in(self.0@, log_id@) == Some((self.0@[i as int].1, self.0@[i as int].2))
                },
                None => {
                    &&& forall|k: int| 0 <= k < self.0@.len() ==> (#[trigger] self.0@[k]).0@ != log_id@
                    &&& interval_in(self.0@, log_id@) is None
                },
            },
    {
        let mut i: usize = 0;
        assert(self.0@.skip(0) == self.0@);
        while i < self.0.len()
            invariant
                i <= self.0@.len(),
                forall|k: int| 0 <= k < i ==> (#[trigger] self.0@[k]).0@ != log_id@,
                interval_in(self.0@, log_id@) == interval_in(self.0@.skip(i as int), log_id@),
            decreases self.0.len() - i,
        {
            let ghost rest = self.0@.skip(i as int);
            assert(rest[0] == self.0@[i as int]);
            assert(rest.drop_first() == self.0@.skip(i + 1));
            if same_id(&self.0[i].0, log_id) {
                return Some(i);
            }
            i += 1;
        }
        None
    }

    /// The interval that the log `log_id` vouches for, if the coverage has the log.
    pub fn get(&self, log_id: &[u8; 32]) -> (r: Option<(u64, u64)>)
        ensures
            r == (if self@.contains_key(log_id@) {
                Some(self@[log_id@])
            } else {
                None
            }),
    {
        match self.position(log_id) {
            Some(i) => Some((self.0[i].1, self.0[i].2)),
            None => None,
        }
    }

    /// Sets the interval that the log `log_id` vouches for. A log that the coverage has keeps
    /// its entry; any other gets one more.
    pub fn insert(&mut self, log_id: [u8; 32], min_timestamp: u64, max_timestamp: u64)
        ensures
            final(self)@ == old(self)@.insert(log_id@, (min_timestamp, max_timestamp)),
            final(self).0@.len() == old(self).0@.len() + (if old(self)@.contains_key(log_id@) {
                0int
            } else {
                1int
            }),
            old(self).distinct() ==> final(self).distinct(),
    {
        let found = self.position(&log_id);
        match found {
            Some(i) => {
                self.0.set(i, (log_id, min_timestamp, max_timestamp));
            },
            None => {
                self.0.push((log_id, min_timestamp, max_timestamp));
            },
        }
        proof {
            let before = old(self).0@;
            let after = self.0@;
            assert forall|id: Seq<u8>| interval_in(after, id) == (if id == log_id@ {
                Some((min_timestamp, max_timestamp))
            } else {
                interval_in(before, id)
            }) by {
                match found {
                    Some(i) => {
                        lemma_interval_update(before, i as int, (log_id, min_timestamp, max_timestamp), id);
                    },
                    None => {
                        lemma_interval_push(before, (log_id, min_timestamp, max_timestamp), id);
                    },
                }
            }
            assert(self@ =~= old(self)@.insert(log_id@, (min_timestamp, max_timestamp)));
        }
    }
}

/// The interval of a log after an entry was added at the end.
proof fn lemma_interval_push(
    entries: Seq<([u8; 32], u64, u64)>,
    entry: ([u8; 32], u64, u64),
    id: Seq<u8>,
)
    ensures
        interval_in(entries.push(entry), id) == (if interval_in(entries, id) is Some {
            interval_in(entries, id)
        } else if entry.0@ == id {
            Some((entry.1, entry.2))
        } else {
            None
        }),
    decreases entries.len(),
{
    let after = entries.push(entry);
    if entries.len() == 0 {
        assert(after.drop_first().len() == 0);
    } else {
        assert(after.drop_first() == entries.drop_first().push(entry));
        lemma_interval_push(entries.drop_first(), entry, id);
    }
}

/// The interval of a log after the first entry of some log was replaced by another of the same
/// log.
proof fn lemma_interval_update(
    entries: Seq<([u8; 32], u64, u64)>,
    i: int,
    entry: ([u8; 32], u64, u64),
    id: Seq<u8>,
)
    requires
        0 <= i < entries.len(),
        entries[i].0@ == entry.0@,
        forall|k: int| 0 <= k < i ==> (#[trigger] entries[k]).0@ != entry.0@,
    ensures
        interval_in(entries.update(i, entry), id) == (if id == entry.0@ {
            Some((entry.1, entry.2))
        } else {
            interval_in(entries, id)
        }),
    decreases entries.len(),
{
    let after = entries.update(i, entry);
    if i == 0 {
        assert(after.drop_first() == entries.drop_first());
    } else {
        assert(after.drop_first() == entries.drop_first().update(i - 1, entry));
        assert(entries[0].0@ != entry.0@);
        assert forall|k: int| 0 <= k < i - 1 implies (#[trigger] entries.drop_first()[k]).0@
            != entry.0@ by {
            assert(entries.drop_first()[k] == entries[k + 1]);
        }
        lemma_interval_update(entries.drop_first(), i - 1, entry, id);
    }
}

/// Tells whether two log ids are equal.
fn same_id(a: &[u8; 32], b: &[u8; 32]) -> (r: bool)
    ensures
        r == (a@ == b@),
{
    let mut i: usize = 0;
    while i < 32
        invariant
            i <= 32,
            forall|k: int| 0 <= k < i ==> a@[k] == b@[k],
        decreases 32 - i,
    {
        if a[i] != b[i] {
            return false;
        }
        i += 1;
    }
    assert(a@ =~= b@);
    true
}

/// Whether one of the timestamps is one that its log vouches for. Without timestamps there is
/// none.
pub open spec fn any_covered(
    log_timestamps: Option<&[([u8; 32], u64)]>,
    universe: &CRLiteCoverage,
) -> bool {
    &&& log_timestamps is Some
    &&& exists|i: int|
        0 <= i < log_timestamps->0@.len() && universe.covers(
            (#[trigger] log_timestamps->0@[i]).0@,
            log_timestamps->0@[i].1,
        )
}

/// A key of the revocation filter: a certificate, by the hash of its issuer's key and its
/// serial number, and the timestamps that logs have given it.
#[derive(Clone, Copy, Debug)]
pub struct CRLiteQuery<'a> {
    pub issuer: &'a [u8; 32],
    pub serial: &'a [u8],
    pub log_timestamps: Option<&'a [([u8; 32], u64)]>,
}

impl<'a> CRLiteQuery<'a> {
    /// The key for the certificate of `issuer` with the serial number `serial`.
    pub fn new(
        issuer: &'a [u8; 32],
        serial: &'a [u8],
        log_timestamps: Option<&'a [([u8; 32], u64)]>,
    ) -> (q: CRLiteQuery<'a>)
        ensures
            q.issuer == issuer,
            q.serial == serial,
            q.log_timestamps == log_timestamps,
    {
        CRLiteQuery { issuer, serial, log_timestamps }
    }
}

impl<'a> AsQuery<4> for CRLiteQuery<'a> {
    open spec fn block_spec(&self) -> Seq<u8> {
        self.issuer@
    }

    open spec fn query_spec(&self, m: usize) -> Equation<4> {
        row_of_digest(sha256(self.issuer@ + self.serial@), m)
    }

    open spec fn discriminant_spec(&self) -> Seq<u8> {
        self.serial@
    }

    fn block(&self) -> (b: &[u8]) {
        self.issuer.as_slice()
    }

    fn as_query(&self, m: usize) -> (e: Equation<4>) {
        let digest = sha256_of_pair(self.issuer.as_slice(), self.serial);
        derive_row(&digest, m)
    }

    fn discriminant(&self) -> (d: &[u8]) {
        self.serial
    }
}

impl<'a> Queryable<4> for CRLiteQuery<'a> {
    type UniverseMetadata = CRLiteCoverage;

    type PartitionMetadata = ();

    open spec fn in_universe_spec(&self, universe: &CRLiteCoverage) -> bool {
        any_covered(self.log_timestamps, universe)
    }

    fn in_universe(&self, universe: &CRLiteCoverage) -> (r: bool) {
        let stamps = match self.log_timestamps {
            Some(stamps) => stamps,
            None => {
                return false;
            },
        };
        let mut i: usize = 0;
        while i < stamps.len()
            invariant
                i <= stamps@.len(),
                self.log_timestamps == Some(stamps),
                forall|k: int|
                    0 <= k < i ==> !universe.covers((#[trigger] stamps@[k]).0@, stamps@[k].1),
            decreases stamps.len() - i,
        {
            match universe.get(&stamps[i].0) {
                Some((low, high)) => {
                    if low <= stamps[i].1 && stamps[i].1 <= high {
                        assert(universe.covers(stamps@[i as int].0@, stamps@[i as int].1));
                        assert(self.log_timestamps->0@[i as int] == stamps@[i as int]);
                        return true;
                    }
                },
                None => {},
            }
            i += 1;
        }
        false
    }
}

/// Why a clubcard was not written or read.
#[derive(Clone, Copy, Debug, PartialEq, Eq)]
pub enum ClubcardError {
    Serialize,
    Deserialize,
    UnsupportedVersion,
}

} // verus!
