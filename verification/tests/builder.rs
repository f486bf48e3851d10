use clubcard::approximate::approximate_rank;
use clubcard::approximate::ribbon_width;
use clubcard::approximate::ApproximateRibbon;
use clubcard::approximate::ApproximateRibbonBuilder;
use clubcard::clubcard::Clubcard;
use clubcard::builder::BuilderState;
use clubcard::builder::ClubcardBuilder;
use clubcard::crlite::builder::CRLiteBuilderItem;
use clubcard::crlite::query::CRLiteCoverage;
use clubcard::crlite::query::CRLiteQuery;
use clubcard::exact::BuildError;
use clubcard::exact::ExactRibbon;
use clubcard::query::AsQuery;
use clubcard::query::Filterable;
use clubcard::query::Membership;

fn serial(j: usize) -> Vec<u8> {
    j.to_le_bytes().to_vec()
}

fn item(issuer: u8, j: usize, revoked: bool) -> CRLiteBuilderItem {
    if revoked {
        CRLiteBuilderItem::revoked([issuer; 32], serial(j))
    } else {
        CRLiteBuilderItem::not_revoked([issuer; 32], serial(j))
    }
}

/// Builds the filter for blocks `0..sizes.len()`, where block `i` has the universe
/// `0..universe` and the members `0..sizes[i]`.
fn build(sizes: &[usize], universe: usize) -> Clubcard<4, CRLiteCoverage, ()> {
    let mut builder = ClubcardBuilder::<4>::new();
    let mut approx = vec![];
    for (i, n) in sizes.iter().enumerate() {
        let mut b = builder.get_approx_builder(&[i as u8; 32]);
        for j in 0..*n {
            b.insert(item(i as u8, j, true));
        }
        b.set_universe_size(universe);
        approx.push(ApproximateRibbon::from(b));
    }
    builder.collect_approx_ribbons(approx);
    let mut exact = vec![];
    for (i, n) in sizes.iter().enumerate() {
        let mut b = builder.get_exact_builder(&[i as u8; 32]);
        for j in 0..universe {
            b.insert(item(i as u8, j, j < *n));
        }
        exact.push(ExactRibbon::from(b).expect("no two items share a row"));
    }
    builder.collect_exact_ribbons(exact);
    let mut coverage = CRLiteCoverage::new();
    coverage.insert([9u8; 32], 100, 200);
    builder.build::<CRLiteQuery>(coverage, ()).expect("every block has both ribbons")
}

#[test]
fn widths_leave_a_sixteenth_and_64() {
    assert_eq!(ribbon_width(0), 64);
    assert_eq!(ribbon_width(15), 79);
    assert_eq!(ribbon_width(16), 81);
    assert_eq!(ribbon_width(1000), 1126);
    assert_eq!(ribbon_width(1 << 18), (1 << 18) + (1 << 14) + 64);
    assert_eq!(ribbon_width(usize::MAX), usize::MAX);
}

#[test]
fn rank_is_the_logarithm_of_the_odds() {
    assert_eq!(approximate_rank(1 << 17, 1 << 18), 0);
    assert_eq!(approximate_rank(1 << 16, 1 << 18), 1);
    assert_eq!(approximate_rank(1 << 15, 1 << 18), 2);
    assert_eq!(approximate_rank(1 << 14, 1 << 18), 3);
    assert_eq!(approximate_rank(1 << 13, 1 << 18), 4);
    assert_eq!(approximate_rank(10, 30), 1);
    assert_eq!(approximate_rank(10, 29), 0);
    assert_eq!(approximate_rank(10, 5), 0);
    assert_eq!(approximate_rank(10, 0), 0);
    assert_eq!(approximate_rank(1, usize::MAX), 16);
    assert_eq!(approximate_rank(0, 1000), 16);
    assert_eq!(approximate_rank(1, (1 << 16) + 1), 16);
    assert_eq!(approximate_rank(1, 1 << 16), 15);
}

#[test]
fn approximate_ribbon_accepts_every_member() {
    let mut b = ApproximateRibbonBuilder::<4, CRLiteBuilderItem>::new(&[3u8; 32]);
    for j in 0..500 {
        b.insert(item(3, j, true));
    }
    b.set_universe_size(500 * 9);
    let ribbon = ApproximateRibbon::from(b);
    assert_eq!(ribbon.block, vec![3u8; 32]);
    assert_eq!(ribbon.width, 500 + 31 + 64);
    assert_eq!(ribbon.columns.len(), 3);
    for column in &ribbon.columns {
        assert_eq!(column.len(), ribbon.width / 64 + 4 + 1);
    }
    for j in 0..500 {
        assert!(ribbon.passes(&item(3, j, true).as_equation(ribbon.width)));
    }
    let accepted = (500..4500)
        .filter(|j| ribbon.passes(&item(3, *j, false).as_equation(ribbon.width)))
        .count();
    // about an eighth of the others
    assert!(accepted > 4000 / 16 && accepted < 4000 / 4, "{}", accepted);
    let copy = ribbon.duplicate();
    assert_eq!((copy.block, copy.width, copy.columns), (ribbon.block, ribbon.width, ribbon.columns));
}

#[test]
fn exact_phase_is_sound_for_every_item() {
    let sizes = [300, 40, 1, 0];
    let universe = 1200;
    let card = build(&sizes, universe);
    for (i, n) in sizes.iter().enumerate() {
        let issuer = [i as u8; 32];
        for j in 0..universe {
            let s = serial(j);
            let q = CRLiteQuery::new(&issuer, &s, None);
            assert_eq!(card.unchecked_contains(&q), j < *n, "block {} item {}", i, j);
        }
    }
}

#[test]
fn unknown_block_is_no_member() {
    let card = build(&[50, 50], 200);
    for j in 0..200 {
        let s = serial(j);
        assert!(!card.unchecked_contains(&CRLiteQuery::new(&[2u8; 32], &s, None)));
        assert!(!card.unchecked_contains(&CRLiteQuery::new(&[255u8; 32], &s, None)));
    }
    let empty = ClubcardBuilder::<4>::new()
        .build::<CRLiteQuery>(CRLiteCoverage::new(), ())
        .expect("no block, no mismatch");
    assert!(!empty.unchecked_contains(&CRLiteQuery::new(&[0u8; 32], &[], None)));
}

#[test]
fn universe_decides_before_the_ribbons() {
    let card = build(&[50], 200);
    let issuer = [0u8; 32];
    let member = serial(7);
    let other = serial(150);
    let inside = [([9u8; 32], 150u64)];
    let outside = [([9u8; 32], 201u64)];
    let unknown = [([8u8; 32], 150u64)];
    let second = [([8u8; 32], 150u64), ([9u8; 32], 100u64)];
    let none: [([u8; 32], u64); 0] = [];
    assert_eq!(card.contains(&CRLiteQuery::new(&issuer, &member, Some(&inside))), Membership::Member);
    assert_eq!(card.contains(&CRLiteQuery::new(&issuer, &other, Some(&inside))), Membership::Nonmember);
    assert_eq!(card.contains(&CRLiteQuery::new(&issuer, &member, Some(&second))), Membership::Member);
    for stamps in [&outside[..], &unknown[..], &none[..]] {
        for s in [&member, &other] {
            let q = CRLiteQuery::new(&issuer, s, Some(stamps));
            assert_eq!(card.contains(&q), Membership::NotInUniverse);
        }
    }
    assert_eq!(card.contains(&CRLiteQuery::new(&issuer, &member, None)), Membership::NotInUniverse);
    assert_eq!(
        card.contains(&CRLiteQuery::new(&[77u8; 32], &member, Some(&inside))),
        Membership::Nonmember
    );
}

#[test]
fn exact_ribbon_without_first_pass_is_a_mismatch() {
    let mut builder = ClubcardBuilder::<4>::new();
    let mut b = builder.get_exact_builder(&[5u8; 32]);
    for j in 0..20 {
        b.insert(item(5, j, j < 3));
    }
    let ribbon = ExactRibbon::from(b).expect("no two items share a row");
    assert!(ribbon.approx.is_none());
    for j in 0..20 {
        let s = serial(j);
        assert_eq!(ribbon.contains(&CRLiteQuery::new(&[5u8; 32], &s, None)), j < 3);
    }
    builder.collect_exact_ribbons(vec![ribbon]);
    match builder.build::<CRLiteQuery>(CRLiteCoverage::new(), ()) {
        Err(BuildError::Mismatch { block }) => assert_eq!(block, vec![5u8; 32]),
        _ => panic!("a block without first pass was taken"),
    }
}

#[test]
fn approximate_ribbon_without_second_pass_is_a_mismatch() {
    let mut builder = ClubcardBuilder::<4>::new();
    let mut approx = vec![];
    for i in [1u8, 2u8] {
        let mut b = builder.get_approx_builder(&[i; 32]);
        b.insert(item(i, 0, true));
        b.set_universe_size(4);
        approx.push(ApproximateRibbon::from(b));
    }
    builder.collect_approx_ribbons(approx);
    let mut b = builder.get_exact_builder(&[1u8; 32]);
    for j in 0..4 {
        b.insert(item(1, j, j == 0));
    }
    builder.collect_exact_ribbons(vec![ExactRibbon::from(b).expect("no two items share a row")]);
    match builder.build::<CRLiteQuery>(CRLiteCoverage::new(), ()) {
        Err(BuildError::Mismatch { block }) => assert_eq!(block, vec![2u8; 32]),
        _ => panic!("a block without second pass was taken"),
    }
}

#[test]
fn member_that_the_first_pass_rejects_is_a_mismatch() {
    let mut builder = ClubcardBuilder::<4>::new();
    let mut b = builder.get_approx_builder(&[1u8; 32]);
    for j in 0..10 {
        b.insert(item(1, j, true));
    }
    b.set_universe_size(1 << 20);
    let approx = ApproximateRibbon::from(b);
    assert_eq!(approx.columns.len(), 16);
    builder.collect_approx_ribbons(vec![approx]);
    let mut b = builder.get_exact_builder(&[1u8; 32]);
    for j in 0..10 {
        b.insert(item(1, j, true));
    }
    b.insert(item(1, 1000, true));
    match ExactRibbon::from(b) {
        Err(BuildError::Mismatch { block }) => assert_eq!(block, vec![1u8; 32]),
        _ => panic!("a member that the first pass rejects was taken"),
    }
}

#[test]
fn equal_rows_with_different_targets_are_a_collision() {
    let mut builder = ClubcardBuilder::<4>::new();
    let mut b = builder.get_approx_builder(&[1u8; 32]);
    for j in 0..10 {
        b.insert(item(1, j, true));
    }
    b.set_universe_size(20);
    builder.collect_approx_ribbons(vec![ApproximateRibbon::from(b)]);
    let mut b = builder.get_exact_builder(&[1u8; 32]);
    for j in 0..20 {
        b.insert(item(1, j, j < 10));
    }
    b.insert(item(1, 4, false));
    match ExactRibbon::from(b) {
        Err(BuildError::Collision { block }) => assert_eq!(block, vec![1u8; 32]),
        _ => panic!("a contradiction was taken"),
    }
}

#[test]
fn the_same_item_twice_is_no_collision() {
    let mut builder = ClubcardBuilder::<4>::new();
    let mut b = builder.get_exact_builder(&[1u8; 32]);
    for j in [1usize, 2, 1, 2, 3] {
        b.insert(item(1, j, j == 2));
    }
    let ribbon = ExactRibbon::from(b).expect("equal rows with equal targets");
    builder.collect_exact_ribbons(vec![ribbon]);
}

#[test]
fn builder_passes_through_its_states() {
    let mut builder = ClubcardBuilder::<4>::new();
    assert_eq!(builder.state(), BuilderState::CollectingApprox);
    let mut b = builder.get_approx_builder(&[1u8; 32]);
    b.insert(item(1, 0, true));
    assert_eq!(builder.state(), BuilderState::CollectingApprox);
    builder.collect_approx_ribbons(vec![ApproximateRibbon::from(b)]);
    assert_eq!(builder.state(), BuilderState::ApproxCollected);
    let mut b = builder.get_exact_builder(&[1u8; 32]);
    b.insert(item(1, 0, true));
    assert_eq!(builder.state(), BuilderState::ApproxCollected);
    builder.collect_exact_ribbons(vec![ExactRibbon::from(b).expect("one row")]);
    assert_eq!(builder.state(), BuilderState::CollectingExact);
    assert!(builder.build::<CRLiteQuery>(CRLiteCoverage::new(), ()).is_ok());
}

#[test]
fn later_ribbon_of_a_block_counts() {
    let mut builder = ClubcardBuilder::<4>::new();
    let mut ribbons = vec![];
    for round in 0..2 {
        let mut b = builder.get_approx_builder(&[1u8; 32]);
        b.insert(item(1, round, true));
        b.set_universe_size(2);
        builder.collect_approx_ribbons(vec![ApproximateRibbon::from(b)]);
        let mut b = builder.get_exact_builder(&[1u8; 32]);
        for j in 0..2 {
            b.insert(item(1, j, j == round));
        }
        ribbons.push(ExactRibbon::from(b).expect("no two items share a row"));
    }
    builder.collect_exact_ribbons(ribbons);
    let card = builder.build::<CRLiteQuery>(CRLiteCoverage::new(), ()).expect("both passes");
    assert!(!card.unchecked_contains(&CRLiteQuery::new(&[1u8; 32], &serial(0), None)));
    assert!(card.unchecked_contains(&CRLiteQuery::new(&[1u8; 32], &serial(1), None)));
}

#[test]
fn size_stays_near_the_entropy_bound() {
    let sizes = [1 << 13, 1 << 12, 1 << 11, 1 << 10, 1 << 9];
    let universe = 1 << 14;
    let card = build(&sizes, universe);
    let bits: usize = card.ribbons().iter().map(|r| r.size_in_bits()).sum();
    let bound: f64 = sizes
        .iter()
        .map(|k| (*k as f64) * ((universe as f64) / (*k as f64)).log2() + 1.44 * (*k as f64))
        .sum();
    assert!((bits as f64) < 1.25 * bound, "{} bits, bound {}", bits, bound);
    let first = &card.ribbons()[0];
    assert_eq!(first.size_in_bits(), 64 * first.solution.len());
    let last = &card.ribbons()[4];
    let columns = &last.approx.as_ref().expect("built on a first pass").columns;
    assert_eq!(columns.len(), 4);
    assert_eq!(last.size_in_bits(), 64 * (last.solution.len() + 4 * columns[0].len()));
}

#[test]
fn item_and_key_give_the_same_row() {
    let it = item(6, 77, true);
    let other = item(6, 77, false);
    let s = serial(77);
    let q = CRLiteQuery::new(&[6u8; 32], &s, None);
    for m in [0usize, 1, 2, 1000, usize::MAX] {
        let e = it.as_equation(m);
        let f = other.as_equation(m);
        let g = q.as_query(m);
        assert_eq!((e.start, e.coeffs, e.target), (g.start, g.coeffs, false));
        assert_eq!((f.start, f.coeffs, f.target), (g.start, g.coeffs, true));
        assert!(!g.target);
    }
    assert_eq!(it.block_id(), &[6u8; 32][..]);
    assert_eq!(q.block(), &[6u8; 32][..]);
    assert_eq!(Filterable::<4>::discriminant(&it), &s[..]);
    assert_eq!(AsQuery::<4>::discriminant(&q), &s[..]);
    assert!(it.included() && !other.included());
    let from: CRLiteQuery = CRLiteQuery::from(&it);
    assert_eq!((from.issuer, from.serial, from.log_timestamps), (&[6u8; 32], &s[..], None));
}
