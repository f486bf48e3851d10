//! The items that the revocation filter is built from.
use crate::crlite::query::row_of_digest;
use crate::crlite::query::sha256;
use crate::crlite::query::CRLiteCoverage;
use crate::crlite::query::CRLiteQuery;
use crate::equation::Equation;
use crate::query::asks_about;
use crate::query::AsQuery;
use crate::query::Filterable;
use base64::Engine;
use vstd::prelude::*;
use vstd::std_specs::convert::FromSpecImpl;

verus! {

/// A certificate with its revocation status.
pub struct CRLiteBuilderItem {
    /// The hash of the issuer's key.
    pub issuer: [u8; 32],
    /// The serial number.
    pub serial: Vec<u8>,
    /// Whether the certificate is revoked.
    pub revoked: bool,
}

impl CRLiteBuilderItem {
    /// A revoked certificate.
    pub fn revoked(issuer: [u8; 32], serial: Vec<u8>) -> (item: Self)
        ensures
            item.issuer == issuer,
            item.serial == serial,
            item.revoked,
    {
        Self { issuer, serial, revoked: true }
    }

    /// A certificate that is not revoked.
    pub fn not_revoked(issuer: [u8; 32], serial: Vec<u8>) -> (item: Self)
        ensures
            item.issuer == issuer,
            item.serial == serial,
            !item.revoked,
    {
        Self { issuer, serial, revoked: false }
    }
}

/// The serial number of an item as a slice.
pub open spec fn serial_of<'a>(item: &'a CRLiteBuilderItem) -> &'a [u8] {
    choose|serial: &'a [u8]| #[trigger] serial@ == item.serial@
}

impl<'a> From<&'a CRLiteBuilderItem> for CRLiteQuery<'a> {
    /// The key that asks about the item. It carries no timestamps.
    fn from(item: &'a CRLiteBuilderItem) -> (q: Self)
        ensures
            q.issuer@ == item.issuer@,
            q.serial@ == item.serial@,
            q.log_timestamps is None,
    {
        let serial = item.serial.as_slice();
        assert(serial =~= serial_of(item));
        Self { issuer: &item.issuer, serial, log_timestamps: None }
    }
}

impl<'a> FromSpecImpl<&'a CRLiteBuilderItem> for CRLiteQuery<'a> {
    open spec fn obeys_from_spec() -> bool {
        true
    }

    open spec fn from_spec(item: &'a CRLiteBuilderItem) -> Self {
        CRLiteQuery { issuer: &item.issuer, serial: serial_of(item), log_timestamps: None }
    }
}

impl Filterable<4> for CRLiteBuilderItem {
    open spec fn equation_spec(&self, m: usize) -> Equation<4> {
        Equation {
            target: !self.revoked,
            ..row_of_digest(sha256(self.issuer@ + self.serial@), m)
        }
    }

    open spec fn block_id_spec(&self) -> Seq<u8> {
        self.issuer@
    }

    open spec fn discriminant_spec(&self) -> Seq<u8> {
        self.serial@
    }

    open spec fn included_spec(&self) -> bool {
        self.revoked
    }

    fn as_equation(&self, m: usize) -> (e: Equation<4>) {
        let mut eq = CRLiteQuery::from(self).as_query(m);
        eq.target = !self.revoked;
        eq
    }

    fn block_id(&self) -> (b: &[u8]) {
        self.issuer.as_slice()
    }

    fn discriminant(&self) -> (d: &[u8]) {
        self.serial.as_slice()
    }

    fn included(&self) -> (r: bool) {
        self.revoked
    }
}

/// The key made from an item asks about the item, and so does every key with the same issuer
/// and the same serial number.
pub proof fn lemma_query_asks_about_item(q: CRLiteQuery, item: CRLiteBuilderItem)
    requires
        q.issuer@ == item.issuer@,
        q.serial@ == item.serial@,
    ensures
        asks_about::<4, CRLiteQuery, CRLiteBuilderItem>(&q, &item),
{
}

/// A member of a JSON object as plain values: its name; its text, where it is a string; its
/// number, where it is an integer from zero to `u64::MAX`.
pub type JsonField = (String, Option<String>, Option<u64>);

/// A JSON document as plain values, where it is an array: its elements in their order, each
/// with its members where it is an object.
pub type JsonRecords = Option<Vec<Option<Vec<JsonField>>>>;

/// What a `JsonField` holds.
pub type JsonFieldView = (Seq<char>, Option<Seq<char>>, Option<u64>);

/// What a `JsonRecords` holds.
pub type JsonRecordsView = Option<Seq<Option<Seq<JsonFieldView>>>>;

/// A record of a log: the id of the log in base64, and the first and the last timestamp that
/// the log vouches for.
pub type LogRecord = (String, u64, u64);

/// What `serde_json` reads from a document, as far as it is an array of objects.
pub uninterp spec fn json_records(document: Seq<u8>) -> JsonRecordsView;

/// What the standard engine of `base64` decodes a text to, where it decodes it.
pub uninterp spec fn base64_decoding(text: Seq<char>) -> Option<Seq<u8>>;

/// Calls `serde_json::from_slice` for a `serde_json::Value`, and hands out what it read as
/// plain values: nothing where the document is no JSON text or no array; else for each element
/// of the array the members that `serde_json` holds for it, in the order in which it holds
/// them, where the element is an object.
#[verifier::external_body]
fn parse_json_records(document: &[u8]) -> (records: JsonRecords)
    ensures
        records.deep_view() == json_records(document@),
{
    let value: serde_json::Value = serde_json::from_slice(document).ok()?;
    let items = value.as_array()?;
    let members = |item: &serde_json::Value| {
        let object = item.as_object()?;
        Some(object.iter().map(|(k, v)| (k.clone(), v.as_str().map(String::from), v.as_u64())).collect())
    };
    Some(items.iter().map(members).collect())
}

/// Calls `decode` of `base64::prelude::BASE64_STANDARD` on the text.
#[verifier::external_body]
fn base64_decode(text: &str) -> (bytes: Option<Vec<u8>>)
    ensures
        bytes.deep_view() == base64_decoding(text@),
{
    base64::prelude::BASE64_STANDARD.decode(text).ok()
}

/// The text of the first member with the name `name`, where it is a string.
pub open spec fn field_text(fields: Seq<JsonFieldView>, name: Seq<char>) -> Option<Seq<char>>
    decreases fields.len(),
{
    if fields.len() == 0 {
        None
    } else if fields[0].0 == name {
        fields[0].1
    } else {
        field_text(fields.drop_first(), name)
    }
}

/// The number of the first member with the name `name`, where it is one.
pub open spec fn field_number(fields: Seq<JsonFieldView>, name: Seq<char>) -> Option<u64>
    decreases fields.len(),
{
    if fields.len() == 0 {
        None
    } else if fields[0].0 == name {
        fields[0].2
    } else {
        field_number(fields.drop_first(), name)
    }
}

/// The record of a log that an element of the document gives: the element is an object with
/// a string `LogID` and numbers `MinTimestamp` and `MaxTimestamp`.
pub open spec fn log_record(item: Option<Seq<JsonFieldView>>) -> Option<(Seq<char>, u64, u64)> {
    match item {
        Some(fields) => {
            if field_text(fields, "LogID"@) is Some && field_number(fields, "MinTimestamp"@) is Some
                && field_number(fields, "MaxTimestamp"@) is Some {
                Some(
                    (
                        field_text(fields, "LogID"@)->0,
                        field_number(fields, "MinTimestamp"@)->0,
                        field_number(fields, "MaxTimestamp"@)->0,
                    ),
                )
            } else {
                None
            }
        },
        None => None,
    }
}

/// The records of the logs that a document gives: every element of the array gives one.
pub open spec fn log_records(document: JsonRecordsView) -> Option<Seq<(Seq<char>, u64, u64)>> {
    match document {
        Some(items) => {
            if forall|i: int| 0 <= i < items.len() ==> log_record(#[trigger] items[i]) is Some {
                Some(Seq::new(items.len(), |i: int| log_record(items[i])->0))
            } else {
                None
            }
        },
        None => None,
    }
}

/// The coverage that the records give. A record whose id is no base64 text, or none of 32
/// bytes, is passed over; of two records of one log the later counts.
pub open spec fn coverage_of_records(records: Seq<(Seq<char>, u64, u64)>) -> Map<
    Seq<u8>,
    (u64, u64),
>
    decreases records.len(),
{
    if records.len() == 0 {
        Map::empty()
    } else {
        let rest = coverage_of_records(records.drop_last());
        let record = records.last();
        match base64_decoding(record.0) {
            Some(id) => if id.len() == 32 {
                rest.insert(id, (record.1, record.2))
            } else {
                rest
            },
            None => rest,
        }
    }
}

/// The coverage that a document gives: that of its records, and none where the document does
/// not give records.
pub open spec fn coverage_of_document(document: JsonRecordsView) -> Map<Seq<u8>, (u64, u64)> {
    match log_records(document) {
        Some(records) => coverage_of_records(records),
        None => Map::empty(),
    }
}

/// Finds the text of the member `name`.
fn text_of(fields: &Vec<JsonField>, name: &str) -> (r: Option<String>)
    ensures
        r.deep_view() == field_text(fields.deep_view(), name@),
{
    let key: String = name.to_owned();
    let ghost all = fields.deep_view();
    let mut i: usize = 0;
    assert(all.skip(0) == all);
    while i < fields.len()
        invariant
            i <= fields@.len(),
            all == fields.deep_view(),
            key@ == name@,
            field_text(all, name@) == field_text(all.skip(i as int), name@),
        decreases fields.len() - i,
    {
        let ghost rest = all.skip(i as int);
        assert(rest[0] == fields@[i as int].deep_view());
        assert(rest.drop_first() == all.skip(i + 1));
        if fields[i].0 == key {
            return fields[i].1.clone();
        }
        i += 1;
    }
    None
}

/// Finds the number of the member `name`.
fn number_of(fields: &Vec<JsonField>, name: &str) -> (r: Option<u64>)
    ensures
        r == field_number(fields.deep_view(), name@),
{
    let key: String = name.to_owned();
    let ghost all = fields.deep_view();
    let mut i: usize = 0;
    assert(all.skip(0) == all);
    while i < fields.len()
        invariant
            i <= fields@.len(),
            all == fields.deep_view(),
            key@ == name@,
            field_number(all, name@) == field_number(all.skip(i as int), name@),
        decreases fields.len() - i,
    {
        let ghost rest = all.skip(i as int);
        assert(rest[0] == fields@[i as int].deep_view());
        assert(rest.drop_first() == all.skip(i + 1));
        if fields[i].0 == key {
            return fields[i].2;
        }
        i += 1;
    }
    None
}

/// Reads the record of a log from an element of the document.
fn record_of_item(item: &Option<Vec<JsonField>>) -> (r: Option<LogRecord>)
    ensures
        r.deep_view() == log_record(item.deep_view()),
{
    let fields = match item {
        Some(fields) => fields,
        None => {
            return None;
        },
    };
    let id = text_of(fields, "LogID");
    let min = number_of(fields, "MinTimestamp");
    let max = number_of(fields, "MaxTimestamp");
    match (id, min, max) {
        (Some(id), Some(min), Some(max)) => Some((id, min, max)),
        _ => None,
    }
}

/// Reads the id of a log from its bytes, where they are 32.
fn log_id_of(bytes: &Vec<u8>) -> (r: Option<[u8; 32]>)
    ensures
        match r {
            Some(id) => bytes@.len() == 32 && id@ == bytes@,
            None => bytes@.len() != 32,
        },
{
    if bytes.len() != 32 {
        return None;
    }
    let mut id: [u8; 32] = [0u8;32];
    let mut i: usize = 0;
    while i < 32
        invariant
            i <= 32,
            bytes@.len() == 32,
            forall|k: int| 0 <= k < i ==> id@[k] == bytes@[k],
        decreases 32 - i,
    {
        id[i] = bytes[i];
        i += 1;
    }
    assert(id@ =~= bytes@);
    Some(id)
}

impl CRLiteCoverage {
    /// The coverage that the records give. A record whose id is no base64 text, or none of 32
    /// bytes, is passed over.
    pub fn from_log_records(records: &Vec<LogRecord>) -> (coverage: Self)
        ensures
            coverage@ == coverage_of_records(records.deep_view()),
            coverage.distinct(),
    {
        let mut coverage = CRLiteCoverage::new();
        let ghost all = records.deep_view();
        let mut i: usize = 0;
        assert(all.take(0) =~= Seq::empty());
        while i < records.len()
            invariant
                i <= records@.len(),
                all == records.deep_view(),
                coverage.distinct(),
                coverage@ == coverage_of_records(all.take(i as int)),
            decreases records.len() - i,
        {
            let ghost next = all.take(i + 1);
            assert(next.drop_last() == all.take(i as int));
            assert(next.last() == records@[i as int].deep_view());
            let decoded = base64_decode(records[i].0.as_str());
            match decoded {
                Some(bytes) => {
                    assert(bytes.deep_view() =~= bytes@);
                    match log_id_of(&bytes) {
                        Some(id) => {
                            coverage.insert(id, records[i].1, records[i].2);
                        },
                        None => {},
                    }
                },
                None => {},
            }
            i += 1;
        }
        assert(all.take(i as int) == all);
        coverage
    }

    /// The coverage that a document gives, from what was read of it: that of its records, and
    /// none where the document is no array or one of its elements is no record.
    pub fn from_json_records(document: &JsonRecords) -> (coverage: Self)
        ensures
            coverage@ == coverage_of_document(document.deep_view()),
            coverage.distinct(),
    {
        let items = match document {
            Some(items) => items,
            None => {
                return CRLiteCoverage::new();
            },
        };
        let ghost all = items.deep_view();
        let mut records: Vec<LogRecord> = Vec::new();
        let mut i: usize = 0;
        while i < items.len()
            invariant
                i <= items@.len(),
                all == items.deep_view(),
                document.deep_view() == Some(all),
                records@.len() == i,
                forall|k: int|
                    0 <= k < i ==> log_record(all[k]) == Some((#[trigger] records@[k]).deep_view()),
            decreases items.len() - i,
        {
            assert(all[i as int] == items@[i as int].deep_view());
            match record_of_item(&items[i]) {
                Some(record) => {
                    records.push(record);
                },
                None => {
                    assert(log_record(all[i as int]) is None);
                    return CRLiteCoverage::new();
                },
            }
            i += 1;
        }
        proof {
            assert forall|k: int| 0 <= k < all.len() implies log_record(#[trigger] all[k]) is Some by {
                assert(log_record(all[k]) == Some(records@[k].deep_view()));
            }
            assert(log_records(Some(all))->0 =~= records.deep_view());
        }
        CRLiteCoverage::from_log_records(&records)
    }

    /// The coverage that a list of logs in JSON gives: an array of objects, each with the id
    /// of a log in base64 as `LogID` and its timestamps as `MinTimestamp` and `MaxTimestamp`.
    /// A document that cannot be read gives the coverage of no log.
    pub fn from_mozilla_ct_logs_json(document: &[u8]) -> (coverage: Self)
        ensures
            coverage@ == coverage_of_document(json_records(document@)),
            coverage.distinct(),
    {
        let records = parse_json_records(document);
        CRLiteCoverage::from_json_records(&records)
    }
}

} // verus!
