use base64::Engine;
use clubcard::approximate::ApproximateRibbon;
use clubcard::clubcard::Clubcard;
use clubcard::builder::ClubcardBuilder;
use clubcard::crlite::builder::CRLiteBuilderItem;
use clubcard::crlite::query::derive_row;
use clubcard::crlite::query::CRLiteCoverage;
use clubcard::crlite::query::CRLiteQuery;
use clubcard::crlite::query::ClubcardError;
use clubcard::exact::ExactRibbon;
use clubcard::query::AsQuery;
use sha2::Digest;

fn small_card() -> Clubcard<4, CRLiteCoverage, ()> {
    let mut builder = ClubcardBuilder::<4>::new();
    let mut approx = vec![];
    for i in 0..3u8 {
        let mut b = builder.get_approx_builder(&[i; 32]);
        for j in 0..(10 * (i as usize + 1)) {
            b.insert(CRLiteBuilderItem::revoked([i; 32], vec![j as u8]));
        }
        b.set_universe_size(200);
        approx.push(ApproximateRibbon::from(b));
    }
    builder.collect_approx_ribbons(approx);
    let mut exact = vec![];
    for i in 0..3u8 {
        let mut b = builder.get_exact_builder(&[i; 32]);
        for j in 0..200usize {
            if j < 10 * (i as usize + 1) {
                b.insert(CRLiteBuilderItem::revoked([i; 32], vec![j as u8]));
            } else {
                b.insert(CRLiteBuilderItem::not_revoked([i; 32], vec![j as u8]));
            }
        }
        exact.push(ExactRibbon::from(b).expect("no two items share a row"));
    }
    builder.collect_exact_ribbons(exact);
    let mut coverage = CRLiteCoverage::new();
    coverage.insert([1u8; 32], 10, 20);
    coverage.insert([2u8; 32], 0, u64::MAX);
    builder.build::<CRLiteQuery>(coverage, ()).expect("every block has both ribbons")
}

#[test]
fn round_trip_answers_alike() {
    let card = small_card();
    let bytes = card.to_bytes().expect("a record of plain values");
    assert_eq!(&bytes[..2], &[0xff, 0xff]);
    let read = Clubcard::<4, CRLiteCoverage, ()>::from_bytes(&bytes).expect("what was written");
    assert_eq!(read.ribbons().len(), 3);
    assert_eq!(read.universe().0, card.universe().0);
    for (a, b) in card.ribbons().iter().zip(read.ribbons().iter()) {
        assert_eq!((&a.block, a.width, &a.solution), (&b.block, b.width, &b.solution));
        let (x, y) = (a.approx.as_ref().unwrap(), b.approx.as_ref().unwrap());
        assert_eq!((&x.block, x.width, &x.columns), (&y.block, y.width, &y.columns));
    }
    let stamps = [([1u8; 32], 15u64)];
    let late = [([1u8; 32], 21u64)];
    for i in 0..4u8 {
        for j in 0..=255u8 {
            for ts in [None, Some(&stamps[..]), Some(&late[..])] {
                let issuer = [i; 32];
                let serial = [j];
                let q = CRLiteQuery::new(&issuer, &serial, ts);
                assert_eq!(card.unchecked_contains(&q), read.unchecked_contains(&q));
                assert_eq!(card.contains(&q), read.contains(&q));
                if i == 3 || j < 200 {
                    let member = i < 3 && (j as usize) < 10 * (i as usize + 1);
                    assert_eq!(card.unchecked_contains(&q), member);
                }
            }
        }
    }
    assert_eq!(read.to_bytes().expect("a record of plain values"), bytes);
}

#[test]
fn empty_card_is_its_tag_and_two_empty_tables() {
    let card = ClubcardBuilder::<4>::new()
        .build::<CRLiteQuery>(CRLiteCoverage::new(), ())
        .expect("no block, no mismatch");
    let bytes = card.to_bytes().expect("a record of plain values");
    let mut expected = vec![0xffu8, 0xff];
    expected.extend_from_slice(&[0u8; 16]);
    assert_eq!(bytes, expected);
    let read = Clubcard::<4, CRLiteCoverage, ()>::from_bytes(&bytes).expect("what was written");
    assert!(read.ribbons().is_empty() && read.universe().len() == 0);
}

#[test]
fn foreign_version_is_refused_before_the_body() {
    let mut bytes = small_card().to_bytes().expect("a record of plain values");
    bytes[0] = 0xfe;
    assert_eq!(
        Clubcard::<4, CRLiteCoverage, ()>::from_bytes(&bytes).err(),
        Some(ClubcardError::UnsupportedVersion)
    );
    for tag in [[0u8, 0u8], [1, 0], [0xff, 0], [0, 0xff], [0xfe, 0xff]] {
        // no body at all: the tag alone decides
        assert_eq!(
            Clubcard::<4, CRLiteCoverage, ()>::from_bytes(&tag).err(),
            Some(ClubcardError::UnsupportedVersion)
        );
    }
}

#[test]
fn truncated_body_is_corrupt() {
    let bytes = small_card().to_bytes().expect("a record of plain values");
    for len in [2usize, 3, 9, 10, 50, bytes.len() / 2, bytes.len() - 1] {
        assert_eq!(
            Clubcard::<4, CRLiteCoverage, ()>::from_bytes(&bytes[..len]).err(),
            Some(ClubcardError::Deserialize),
            "{} bytes",
            len
        );
    }
    assert!(Clubcard::<4, CRLiteCoverage, ()>::from_bytes(&bytes).is_ok());
}

#[test]
fn too_short_for_a_tag_is_corrupt() {
    for bytes in [&[][..], &[0xff][..], &[0][..]] {
        assert_eq!(
            Clubcard::<4, CRLiteCoverage, ()>::from_bytes(bytes).err(),
            Some(ClubcardError::Deserialize)
        );
    }
}

#[test]
fn row_is_derived_from_the_sha256_digest() {
    let issuer = [0xabu8; 32];
    let serial = [1u8, 2, 3, 4, 5];
    let mut hasher = sha2::Sha256::new();
    hasher.update(issuer);
    hasher.update(serial);
    let digest: [u8; 32] = hasher.finalize().into();
    assert_ne!(&digest[..], &issuer[..]);
    let mut a = [0u64; 4];
    for i in 0..4 {
        a[i] = u64::from_le_bytes(digest[8 * i..8 * i + 8].try_into().unwrap());
    }
    let q = CRLiteQuery::new(&issuer, &serial, None);
    for m in [0usize, 1, 7, 1 << 18, usize::MAX] {
        let e = q.as_query(m);
        assert_eq!(e.start, (a[3] as usize) % std::cmp::max(1, m));
        assert_eq!(e.coeffs, [a[0] | 1, a[1], a[2], a[3]]);
        assert!(!e.target);
    }
    // the serial number is hashed behind the issuer, byte for byte
    let shifted = CRLiteQuery::new(&issuer, &serial[1..], None);
    assert_ne!(shifted.as_query(1 << 18).coeffs, q.as_query(1 << 18).coeffs);
}

#[test]
fn row_of_a_known_digest() {
    let mut digest = [0u8; 32];
    for i in 0..32 {
        digest[i] = i as u8;
    }
    let e = derive_row(&digest, 1000);
    assert_eq!(
        e.coeffs,
        [0x0706050403020101, 0x0f0e0d0c0b0a0908, 0x1716151413121110, 0x1f1e1d1c1b1a1918]
    );
    assert_eq!(e.start, (0x1f1e1d1c1b1a1918u64 % 1000) as usize);
    assert!(!e.target);
    assert_eq!(derive_row(&digest, 0).start, 0);
    assert_eq!(derive_row(&digest, 1).start, 0);
    assert_eq!(derive_row(&[0u8; 32], 5).coeffs, [1, 0, 0, 0]);
}

#[test]
fn coverage_keeps_one_interval_for_each_log() {
    let mut coverage = CRLiteCoverage::new();
    assert_eq!(coverage.len(), 0);
    assert_eq!(coverage.get(&[1u8; 32]), None);
    coverage.insert([1u8; 32], 5, 6);
    coverage.insert([2u8; 32], 7, 8);
    coverage.insert([1u8; 32], 9, 10);
    assert_eq!(coverage.len(), 2);
    assert_eq!(coverage.get(&[1u8; 32]), Some((9, 10)));
    assert_eq!(coverage.get(&[2u8; 32]), Some((7, 8)));
    assert_eq!(coverage.get(&[3u8; 32]), None);
}

#[test]
fn timestamps_at_the_ends_of_the_interval_are_covered() {
    let mut coverage = CRLiteCoverage::new();
    coverage.insert([1u8; 32], 10, 20);
    let issuer = [0u8; 32];
    for (ts, expected) in [(9u64, false), (10, true), (15, true), (20, true), (21, false)] {
        let stamps = [([1u8; 32], ts)];
        let q = CRLiteQuery::new(&issuer, &[], Some(&stamps));
        assert_eq!(clubcard::query::Queryable::<4>::in_universe(&q, &coverage), expected);
    }
}

fn log_json(id: &str, min: u64, max: u64) -> String {
    format!("{{\"LogID\": \"{}\", \"MaxTimestamp\": {}, \"MinTimestamp\": {}}}", id, max, min)
}

#[test]
fn coverage_passes_over_a_malformed_id() {
    let good = base64::prelude::BASE64_STANDARD.encode([7u8; 32]);
    let short = base64::prelude::BASE64_STANDARD.encode([8u8; 31]);
    let long = base64::prelude::BASE64_STANDARD.encode([8u8; 33]);
    let document = format!(
        "[{}, {}, {}, {}]",
        log_json(&good, 11, 22),
        log_json(&short, 1, 2),
        log_json(&long, 1, 2),
        log_json("no base64 !", 1, 2)
    );
    let coverage = CRLiteCoverage::from_mozilla_ct_logs_json(document.as_bytes());
    assert_eq!(coverage.len(), 1);
    assert_eq!(coverage.get(&[7u8; 32]), Some((11, 22)));
    assert_eq!(coverage.get(&[8u8; 32]), None);
}

#[test]
fn coverage_of_a_document_that_cannot_be_read_is_empty() {
    let good = base64::prelude::BASE64_STANDARD.encode([7u8; 32]);
    let documents = [
        String::from("this is no JSON"),
        String::new(),
        String::from("{}"),
        String::from("17"),
        format!("[{}", log_json(&good, 1, 2)),
        format!("[{}, 17]", log_json(&good, 1, 2)),
        format!("[{}, {{\"LogID\": \"{}\", \"MinTimestamp\": 1}}]", log_json(&good, 1, 2), good),
        format!("[{{\"LogID\": 5, \"MinTimestamp\": 1, \"MaxTimestamp\": 2}}]"),
        format!("[{{\"LogID\": \"{}\", \"MinTimestamp\": -1, \"MaxTimestamp\": 2}}]", good),
        format!("[{{\"LogID\": \"{}\", \"MinTimestamp\": 1.5, \"MaxTimestamp\": 2}}]", good),
    ];
    for document in documents {
        let coverage = CRLiteCoverage::from_mozilla_ct_logs_json(document.as_bytes());
        assert_eq!(coverage.len(), 0, "{}", document);
    }
}

#[test]
fn coverage_reads_the_logs_of_a_document() {
    let first = base64::prelude::BASE64_STANDARD.encode([1u8; 32]);
    let second = base64::prelude::BASE64_STANDARD.encode([2u8; 32]);
    let document = format!(
        "[{{\"Other\": [1, 2], \"MinTimestamp\": 3, \"LogID\": \"{}\", \"MaxTimestamp\": 4}}, {}, {}]",
        first,
        log_json(&second, 0, u64::MAX),
        log_json(&first, 5, 6)
    );
    let coverage = CRLiteCoverage::from_mozilla_ct_logs_json(document.as_bytes());
    assert_eq!(coverage.len(), 2);
    assert_eq!(coverage.get(&[1u8; 32]), Some((5, 6)));
    assert_eq!(coverage.get(&[2u8; 32]), Some((0, u64::MAX)));
    assert_eq!(CRLiteCoverage::from_mozilla_ct_logs_json(b"[]").len(), 0);
}

#[test]
fn coverage_from_records_decodes_the_ids() {
    let good = base64::prelude::BASE64_STANDARD.encode([7u8; 32]);
    let records = vec![(good.clone(), 1u64, 2u64), (String::from("AAAA"), 3, 4)];
    let coverage = CRLiteCoverage::from_log_records(&records);
    assert_eq!(coverage.len(), 1);
    assert_eq!(coverage.get(&[7u8; 32]), Some((1, 2)));
    let fields = vec![
        (String::from("LogID"), Some(good), None),
        (String::from("MaxTimestamp"), None, Some(9u64)),
        (String::from("MinTimestamp"), None, Some(8u64)),
    ];
    let parsed = Some(vec![Some(fields.clone())]);
    assert_eq!(CRLiteCoverage::from_json_records(&parsed).get(&[7u8; 32]), Some((8, 9)));
    let with_other = Some(vec![Some(fields), None]);
    assert_eq!(CRLiteCoverage::from_json_records(&with_other).len(), 0);
    assert_eq!(CRLiteCoverage::from_json_records(&None).len(), 0);
}
