//! The revocation filter as bytes: a version tag of two bytes, then the record of the filter
//! in the encoding of `bincode`.
use crate::bytes::copy_bytes;
use crate::bytes::copy_words;
use crate::approximate::ApproximateRibbon;
use crate::clubcard::exact_views;
use crate::clubcard::Clubcard;
use crate::clubcard::ClubcardView;
use crate::crlite::query::interval_in;
use crate::crlite::query::CRLiteCoverage;
use crate::crlite::query::CRLiteQuery;
use crate::crlite::query::ClubcardError;
use crate::exact::ExactRibbon;
use crate::exact::ExactView;
use vstd::prelude::*;
use vstd::slice::slice_subrange;

verus! {

/// The tag of the format that this library writes and reads.
pub const SERIALIZATION_VERSION: u16 = 0xffff;

/// The first pass of a block as plain values: its block, its width, its columns.
pub type ApproximateRecord = (Vec<u8>, u64, Vec<Vec<u64>>);

/// A block as plain values: its block, its first pass, the width and the solution of its
/// second pass.
pub type BlockRecord = (Vec<u8>, Option<ApproximateRecord>, u64, Vec<u64>);

/// A filter as plain values: its blocks, the coverage of the logs, and nothing for the
/// partition.
pub type ClubcardRecord = (Vec<BlockRecord>, Vec<([u8; 32], u64, u64)>, ());

/// What an `ApproximateRecord` holds.
pub type ApproximateRecordView = (Seq<u8>, u64, Seq<Seq<u64>>);

/// What a `BlockRecord` holds.
pub type BlockRecordView = (Seq<u8>, Option<ApproximateRecordView>, u64, Seq<u64>);

/// What a `ClubcardRecord` holds.
pub type ClubcardRecordView = (Seq<BlockRecordView>, Seq<(Seq<u8>, u64, u64)>, ());

/// The bytes that `bincode` writes for a record, where it writes any.
pub uninterp spec fn bincode_encoding(record: ClubcardRecordView) -> Option<Seq<u8>>;

/// The record that `bincode` reads from the bytes, where it reads one.
pub uninterp spec fn bincode_decoding(bytes: Seq<u8>) -> Option<ClubcardRecordView>;

/// Calls `bincode::serialize_into` on the record, with `out` as the writer. Where the call
/// succeeds, `out` has grown by the encoding of the record, and that encoding is one that
/// `bincode::deserialize` reads the record back from: the two walk the vectors, tuples,
/// options and integers of a record in the same order and with the same widths. Where the
/// call fails, nothing is said of `out`.
#[verifier::external_body]
fn bincode_write(out: &mut Vec<u8>, record: &ClubcardRecord) -> (ok: bool)
    ensures
        ok ==> (bincode_encoding(record.deep_view()) matches Some(body) && final(out)@ == old(out)@
            + body && bincode_decoding(body) == Some(record.deep_view())),
        !ok ==> bincode_encoding(record.deep_view()) is None,
{
    bincode::serialize_into(out, record).is_ok()
}

/// Calls `bincode::deserialize` on the bytes, for a record.
#[verifier::external_body]
fn bincode_read(bytes: &[u8]) -> (record: Option<ClubcardRecord>)
    ensures
        record.deep_view() == bincode_decoding(bytes@),
{
    bincode::deserialize(bytes).ok()
}

/// The record of a block.
pub open spec fn block_record_of(ribbon: ExactView) -> BlockRecordView {
    (
        ribbon.block,
        match ribbon.approx {
            Some(a) => Some((a.block, a.width as u64, a.columns)),
            None => None,
        },
        ribbon.width as u64,
        ribbon.solution,
    )
}

/// The record of a coverage: its entries, each with the id of its log as a byte string.
pub open spec fn coverage_record_of(entries: Seq<([u8; 32], u64, u64)>) -> Seq<
    (Seq<u8>, u64, u64),
> {
    Seq::new(entries.len(), |i: int| (entries[i].0@, entries[i].1, entries[i].2))
}

/// The record of a filter.
pub open spec fn record_of(card: ClubcardView<CRLiteCoverage, ()>) -> ClubcardRecordView {
    (
        Seq::new(card.ribbons.len(), |i: int| block_record_of(card.ribbons[i])),
        coverage_record_of(card.universe.0@),
        (),
    )
}

/// The two bytes of the version tag, the lower one first.
pub open spec fn version_tag() -> Seq<u8> {
    seq![0xffu8, 0xffu8]
}

/// The bytes of a filter with the record `record`, where the record can be written.
pub open spec fn encoded(record: ClubcardRecordView) -> Option<Seq<u8>> {
    match bincode_encoding(record) {
        Some(body) => Some(version_tag() + body),
        None => None,
    }
}

/// Whether every width of the record is one that this machine can hold.
pub open spec fn widths_fit(record: ClubcardRecordView) -> bool {
    forall|i: int|
        0 <= i < record.0.len() ==> {
            &&& (#[trigger] record.0[i]).2 <= usize::MAX
            &&& record.0[i].1 matches Some(a) ==> a.1 <= usize::MAX
        }
}

/// What is read from the bytes: first the version tag, then the record. Too few bytes for a
/// tag, a body that `bincode` does not read, or a width that this machine cannot hold, are
/// corrupt data; a tag other than that of this library is another version.
pub open spec fn decoded(bytes: Seq<u8>) -> Result<ClubcardRecordView, ClubcardError> {
    if bytes.len() < 2 {
        Err(ClubcardError::Deserialize)
    } else if bytes.take(2) != version_tag() {
        Err(ClubcardError::UnsupportedVersion)
    } else {
        match bincode_decoding(bytes.skip(2)) {
            Some(record) => if widths_fit(record) {
                Ok(record)
            } else {
                Err(ClubcardError::Deserialize)
            },
            None => Err(ClubcardError::Deserialize),
        }
    }
}

/// Copies the columns of a first pass.
fn copy_columns(columns: &Vec<Vec<u64>>) -> (copy: Vec<Vec<u64>>)
    ensures
        copy.deep_view() == Seq::new(columns@.len(), |c: int| columns@[c]@),
        Seq::new(copy@.len(), |c: int| copy@[c]@) == Seq::new(columns@.len(), |c: int| columns@[c]@),
{
    let mut copy: Vec<Vec<u64>> = Vec::new();
    let mut c: usize = 0;
    while c < columns.len()
        invariant
            c <= columns@.len(),
            copy@.len() == c,
            forall|k: int| 0 <= k < c ==> (#[trigger] copy@[k])@ == columns@[k]@,
        decreases columns.len() - c,
    {
        copy.push(copy_words(columns[c].as_slice()));
        c += 1;
    }
    proof {
        assert forall|k: int| 0 <= k < copy@.len() implies (#[trigger] copy@[k]).deep_view()
            == columns@[k]@ by {
            assert(copy@[k].deep_view() =~= copy@[k]@);
        }
        assert(copy.deep_view() =~= Seq::new(columns@.len(), |c: int| columns@[c]@));
        assert(Seq::new(copy@.len(), |c: int| copy@[c]@) =~= Seq::new(
            columns@.len(),
            |c: int| columns@[c]@,
        ));
    }
    copy
}

/// Writes a block as plain values.
fn block_record(ribbon: &ExactRibbon<4>) -> (record: BlockRecord)
    ensures
        record.deep_view() == block_record_of(ribbon@),
{
    let approx: Option<ApproximateRecord> = match &ribbon.approx {
        Some(a) => Some((copy_bytes(a.block.as_slice()), a.width as u64, copy_columns(&a.columns))),
        None => None,
    };
    let block = copy_bytes(ribbon.block.as_slice());
    let solution = copy_words(ribbon.solution.as_slice());
    proof {
        assert(block.deep_view() =~= ribbon@.block);
        assert(solution.deep_view() =~= ribbon@.solution);
        match &approx {
            Some(a) => {
                assert(a.0.deep_view() =~= ribbon@.approx->0.block);
            },
            None => {},
        }
    }
    (block, approx, ribbon.width as u64, solution)
}

/// Reads a block from plain values, where this machine can hold its widths.
fn block_of_record(record: &BlockRecord) -> (r: Option<ExactRibbon<4>>)
    ensures
        match r {
            Some(ribbon) => block_record_of(ribbon@) == record.deep_view(),
            None => record.2 > usize::MAX || (record.1 matches Some(a) && a.1 > usize::MAX),
        },
{
    if record.2 > usize::MAX as u64 {
        return None;
    }
    let approx: Option<ApproximateRibbon<4>> = match &record.1 {
        Some(a) => {
            if a.1 > usize::MAX as u64 {
                return None;
            }
            let columns = copy_columns(&a.2);
            let block = copy_bytes(a.0.as_slice());
            proof {
                assert(a.0.deep_view() =~= block@);
            }
            Some(ApproximateRibbon { block, width: a.1 as usize, columns })
        },
        None => None,
    };
    let block = copy_bytes(record.0.as_slice());
    let solution = copy_words(record.3.as_slice());
    proof {
        assert(record.0.deep_view() =~= block@);
        assert(record.3.deep_view() =~= solution@);
        match &record.1 {
            Some(a) => {
                assert(a.2.deep_view() =~= Seq::new(a.2@.len(), |c: int| a.2@[c]@)) by {
                    assert forall|k: int| 0 <= k < a.2@.len() implies (#[trigger] a.2@[k]).deep_view()
                        == a.2@[k]@ by {
                        assert(a.2@[k].deep_view() =~= a.2@[k]@);
                    }
                }
            },
            None => {},
        }
    }
    Some(ExactRibbon { block, approx, width: record.2 as usize, solution })
}

impl Clubcard<4, CRLiteCoverage, ()> {
    /// Writes the filter as bytes: the version tag, then its record. What is written reads
    /// back as the same record.
    pub fn to_bytes(&self) -> (r: Result<Vec<u8>, ClubcardError>)
        ensures
            match r {
                Ok(bytes) => {
                    &&& encoded(record_of(self@)) == Some(bytes@)
                    &&& decoded(bytes@) == Ok::<ClubcardRecordView, ClubcardError>(record_of(self@))
                },
                Err(e) => e == ClubcardError::Serialize && encoded(record_of(self@)) is None,
            },
    {
        let ribbons = self.ribbons();
        let entries = &self.universe().0;
        let mut blocks: Vec<BlockRecord> = Vec::new();
        let mut i: usize = 0;
        while i < ribbons.len()
            invariant
                i <= ribbons@.len(),
                blocks@.len() == i,
                forall|k: int|
                    0 <= k < i ==> (#[trigger] blocks@[k]).deep_view() == block_record_of(
                        ribbons@[k]@,
                    ),
            decreases ribbons.len() - i,
        {
            blocks.push(block_record(&ribbons[i]));
            i += 1;
        }
        let mut coverage: Vec<([u8; 32], u64, u64)> = Vec::new();
        let mut j: usize = 0;
        while j < entries.len()
            invariant
                j <= entries@.len(),
                coverage@.len() == j,
                forall|k: int| 0 <= k < j ==> #[trigger] coverage@[k] == entries@[k],
            decreases entries.len() - j,
        {
            coverage.push(entries[j]);
            j += 1;
        }
        let record: ClubcardRecord = (blocks, coverage, ());
        proof {
            lemma_coverage_deep_view(coverage);
            assert(coverage@ =~= self@.universe.0@);
            assert(self@.ribbons.len() == ribbons@.len());
            assert forall|k: int| 0 <= k < ribbons@.len() implies record.0.deep_view()[k]
                == record_of(self@).0[k] by {
                assert(self@.ribbons[k] == exact_views(ribbons@)[k]);
            }
            assert(record.0.deep_view() =~= record_of(self@).0);
            assert(record.deep_view() == record_of(self@));
        }
        let low: u8 = (SERIALIZATION_VERSION & 0xff) as u8;
        let high: u8 = (SERIALIZATION_VERSION >> 8) as u8;
        let mut out: Vec<u8> = Vec::new();
        out.push(low);
        out.push(high);
        proof {
            assert(0xffffu16 & 0xff == 0xff) by (bit_vector);
            assert(0xffffu16 >> 8 == 0xff) by (bit_vector);
            assert(out@ =~= version_tag());
        }
        if bincode_write(&mut out, &record) {
            proof {
                let body = bincode_encoding(record_of(self@))->0;
                assert(out@.take(2) =~= version_tag());
                assert(out@.skip(2) =~= body);
                assert forall|k: int| 0 <= k < record_of(self@).0.len() implies {
                    &&& (#[trigger] record_of(self@).0[k]).2 <= usize::MAX
                    &&& record_of(self@).0[k].1 matches Some(a) ==> a.1 <= usize::MAX
                } by {}
            }
            Ok(out)
        } else {
            Err(ClubcardError::Serialize)
        }
    }

    /// Reads a filter from bytes: the version tag first, then the record.
    pub fn from_bytes(bytes: &[u8]) -> (r: Result<Self, ClubcardError>)
        ensures
            match r {
                Ok(card) => decoded(bytes@) == Ok::<ClubcardRecordView, ClubcardError>(
                    record_of(card@),
                ),
                Err(e) => decoded(bytes@) == Err::<ClubcardRecordView, ClubcardError>(e),
            },
    {
        if bytes.len() < 2 {
            return Err(ClubcardError::Deserialize);
        }
        let version: u16 = (bytes[0] as u16) | ((bytes[1] as u16) << 8);
        proof {
            let b0 = bytes[0];
            let b1 = bytes[1];
            assert(((b0 as u16) | ((b1 as u16) << 8)) == 0xffffu16 <==> (b0 == 0xffu8 && b1
                == 0xffu8)) by (bit_vector);
            if version == SERIALIZATION_VERSION {
                assert(bytes@.take(2) =~= version_tag());
            } else {
                assert(bytes@.take(2)[0] == b0 && bytes@.take(2)[1] == b1);
            }
        }
        if version != SERIALIZATION_VERSION {
            return Err(ClubcardError::UnsupportedVersion);
        }
        let rest = slice_subrange(bytes, 2, bytes.len());
        assert(rest@ == bytes@.skip(2));
        let record: ClubcardRecord = match bincode_read(rest) {
            Some(record) => record,
            None => {
                return Err(ClubcardError::Deserialize);
            },
        };
        let ghost plain = record.deep_view();
        let mut ribbons: Vec<ExactRibbon<4>> = Vec::new();
        let mut i: usize = 0;
        while i < record.0.len()
            invariant
                i <= record.0@.len(),
                ribbons@.len() == i,
                plain == record.deep_view(),
                bytes@.len() >= 2,
                bytes@.take(2) == version_tag(),
                bincode_decoding(bytes@.skip(2)) == Some(plain),
                forall|k: int|
                    0 <= k < i ==> block_record_of((#[trigger] ribbons@[k])@) == record.0@[k].deep_view(),
            decreases record.0.len() - i,
        {
            match block_of_record(&record.0[i]) {
                Some(ribbon) => {
                    ribbons.push(ribbon);
                },
                None => {
                    proof {
                        assert(plain.0[i as int] == record.0@[i as int].deep_view());
                        assert(!widths_fit(plain));
                    }
                    return Err(ClubcardError::Deserialize);
                },
            }
            i += 1;
        }
        let ghost views = exact_views(ribbons@);
        let card = Clubcard::from_parts(CRLiteCoverage(record.1), (), ribbons);
        proof {
            lemma_coverage_deep_view(card@.universe.0);
            assert(record_of(card@).0 =~= plain.0) by {
                assert forall|k: int| 0 <= k < plain.0.len() implies record_of(card@).0[k]
                    == plain.0[k] by {
                    assert(plain.0[k] == record.0@[k].deep_view());
                }
            }
            assert(record_of(card@) == plain);
            assert forall|k: int| 0 <= k < plain.0.len() implies {
                &&& (#[trigger] plain.0[k]).2 <= usize::MAX
                &&& plain.0[k].1 matches Some(a) ==> a.1 <= usize::MAX
            } by {
                assert(plain.0[k] == block_record_of(views[k]));
            }
        }
        Ok(card)
    }
}

/// Two lists of entries with the same record give every log the same interval.
proof fn lemma_same_intervals(
    first: Seq<([u8; 32], u64, u64)>,
    second: Seq<([u8; 32], u64, u64)>,
    log_id: Seq<u8>,
)
    requires
        coverage_record_of(first) == coverage_record_of(second),
    ensures
        interval_in(first, log_id) == interval_in(second, log_id),
    decreases first.len(),
{
    assert(first.len() == coverage_record_of(first).len());
    assert(second.len() == coverage_record_of(second).len());
    if first.len() > 0 {
        assert(coverage_record_of(first)[0] == coverage_record_of(second)[0]);
        assert forall|k: int| 0 <= k < first.len() - 1 implies coverage_record_of(
            first.drop_first(),
        )[k] == coverage_record_of(second.drop_first())[k] by {
            assert(coverage_record_of(first)[k + 1] == coverage_record_of(second)[k + 1]);
        }
        assert(coverage_record_of(first.drop_first()) =~= coverage_record_of(second.drop_first()));
        lemma_same_intervals(first.drop_first(), second.drop_first(), log_id);
    }
}

/// A filter that is read from the bytes that another was written to answers every key as the
/// other does: `to_bytes` states of its result what is asked here of `bytes` and `written`,
/// and `from_bytes` what is asked of `bytes` and `read`.
pub proof fn lemma_round_trip(
    written: ClubcardView<CRLiteCoverage, ()>,
    bytes: Seq<u8>,
    read: ClubcardView<CRLiteCoverage, ()>,
    q: CRLiteQuery,
)
    requires
        decoded(bytes) == Ok::<ClubcardRecordView, ClubcardError>(record_of(written)),
        decoded(bytes) == Ok::<ClubcardRecordView, ClubcardError>(record_of(read)),
    ensures
        read.unchecked_contains::<4, CRLiteQuery>(q) == written.unchecked_contains::<
            4,
            CRLiteQuery,
        >(q),
        read.contains::<4, CRLiteQuery>(q) == written.contains::<4, CRLiteQuery>(q),
{
    let r1 = record_of(written);
    let r2 = record_of(read);
    assert(r1 == r2);
    assert(written.ribbons.len() == r1.0.len());
    assert(read.ribbons.len() == r2.0.len());
    assert forall|i: int| 0 <= i < written.ribbons.len() implies written.ribbons[i]
        == read.ribbons[i] by {
        assert(r1.0[i] == block_record_of(written.ribbons[i]));
        assert(r2.0[i] == block_record_of(read.ribbons[i]));
    }
    assert(written.ribbons =~= read.ribbons);
    assert forall|log_id: Seq<u8>|
        interval_in(written.universe.0@, log_id) == interval_in(read.universe.0@, log_id) by {
        lemma_same_intervals(written.universe.0@, read.universe.0@, log_id);
    }
    assert(written.universe@ =~= read.universe@);
}

/// The plain values of the entries of a coverage are its record.
proof fn lemma_coverage_deep_view(entries: Vec<([u8; 32], u64, u64)>)
    ensures
        entries.deep_view() == coverage_record_of(entries@),
{
    assert forall|k: int| 0 <= k < entries@.len() implies (#[trigger] entries@[k]).deep_view() == (
        entries@[k].0@,
        entries@[k].1,
        entries@[k].2,
    ) by {
        assert(entries@[k].0.deep_view() =~= entries@[k].0@);
    }
    assert(entries.deep_view() =~= coverage_record_of(entries@));
}

} // verus!
