use clubcard::approximate::ApproximateRibbon;
use clubcard::builder::ClubcardBuilder;
use clubcard::crlite::builder::CRLiteBuilderItem;
use clubcard::crlite::query::CRLiteCoverage;
use clubcard::crlite::query::CRLiteQuery;
use clubcard::exact::ExactRibbon;
use clubcard::query::Membership;

fn describe_approximate(r: &ApproximateRibbon<4>) -> String {
    format!("ApproximateRibbon({} columns of width {})", r.columns.len(), r.width)
}

fn describe_exact(r: &ExactRibbon<4>) -> String {
    format!("ExactRibbon(width {}, {} bits)", r.width, r.size_in_bits())
}

#[test]
fn test_crlite_clubcard() {
    let subset_sizes = [1 << 17, 1 << 16, 1 << 15, 1 << 14, 1 << 13];
    let universe_size = 1 << 18;

    let mut clubcard_builder = ClubcardBuilder::new();
    let mut approx_builders = vec![];
    for (i, n) in subset_sizes.iter().enumerate() {
        let mut r = clubcard_builder.get_approx_builder(&[i as u8; 32]);
        for j in 0usize..*n {
            let eq = CRLiteBuilderItem::revoked([i as u8; 32], j.to_le_bytes().to_vec());
            r.insert(eq);
        }
        r.set_universe_size(universe_size);
        approx_builders.push(r)
    }

    let approx_ribbons: Vec<ApproximateRibbon<4>> = approx_builders
        .drain(..)
        .map(ApproximateRibbon::from)
        .collect();

    println!("Approx ribbons:");
    for r in &approx_ribbons {
        println!("\t{}", describe_approximate(r));
    }

    clubcard_builder.collect_approx_ribbons(approx_ribbons);

    let mut exact_builders = vec![];
    for (i, n) in subset_sizes.iter().enumerate() {
        let mut r = clubcard_builder.get_exact_builder(&[i as u8; 32]);
        for j in 0usize..universe_size {
            let item = if j < *n {
                CRLiteBuilderItem::revoked([i as u8; 32], j.to_le_bytes().to_vec())
            } else {
                CRLiteBuilderItem::not_revoked([i as u8; 32], j.to_le_bytes().to_vec())
            };
            r.insert(item);
        }
        exact_builders.push(r)
    }

    let exact_ribbons: Vec<ExactRibbon<4>> = exact_builders
        .drain(..)
        .map(|b| ExactRibbon::from(b).expect("the rows of a block contradict one another"))
        .collect();

    println!("Exact ribbons:");
    for r in &exact_ribbons {
        println!("\t{}", describe_exact(r));
    }

    clubcard_builder.collect_exact_ribbons(exact_ribbons);

    let mut log_coverage = CRLiteCoverage::new();
    log_coverage.insert([0u8; 32], 0u64, u64::MAX);

    let clubcard = clubcard_builder
        .build::<CRLiteQuery>(log_coverage, Default::default())
        .expect("the tables of the two passes do not match");
    println!("{}", clubcard.ribbons().len());

    let sum_subset_sizes: usize = subset_sizes.iter().sum();
    let sum_universe_sizes: usize = subset_sizes.len() * universe_size;
    let min_size = (sum_subset_sizes as f64)
        * ((sum_universe_sizes as f64) / (sum_subset_sizes as f64)).log2()
        + 1.44 * ((sum_subset_sizes) as f64);
    println!("Size lower bound {}", min_size);
    println!("Checking construction");
    println!(
        "\texpecting {} included, {} excluded",
        sum_subset_sizes,
        subset_sizes.len() * universe_size - sum_subset_sizes
    );

    let mut included = 0;
    let mut excluded = 0;
    for i in 0..subset_sizes.len() {
        let issuer = [i as u8; 32];
        for j in 0..universe_size {
            let serial = j.to_le_bytes();
            let item = CRLiteQuery {
                issuer: &issuer,
                serial: &serial,
                log_timestamps: None,
            };
            if clubcard.unchecked_contains(&item) {
                included += 1;
            } else {
                excluded += 1;
            }
        }
    }
    println!("\tfound {} included, {} excluded", included, excluded);
    assert!(sum_subset_sizes == included);
    assert!(sum_universe_sizes - sum_subset_sizes == excluded);

    let issuer = [subset_sizes.len() as u8; 32];
    let serial = 0usize.to_le_bytes();
    let item = CRLiteQuery {
        issuer: &issuer,
        serial: &serial,
        log_timestamps: None,
    };
    assert!(!clubcard.unchecked_contains(&item));

    assert!(subset_sizes.len() > 0 && subset_sizes[0] > 0 && subset_sizes[0] < universe_size);
    let issuer = [0u8; 32];
    let revoked_serial = 0usize.to_le_bytes();
    let nonrevoked_serial = (universe_size - 1).to_le_bytes();

    let item = CRLiteQuery {
        issuer: &issuer,
        serial: &revoked_serial,
        log_timestamps: None,
    };
    assert!(matches!(
        clubcard.contains(&item),
        Membership::NotInUniverse
    ));

    let timestamps = [([0u8; 32], 100)];
    let item = CRLiteQuery {
        issuer: &issuer,
        serial: &revoked_serial,
        log_timestamps: Some(&timestamps),
    };
    assert!(matches!(clubcard.contains(&item), Membership::Member));

    let timestamps = [([0u8; 32], 100)];
    let item = CRLiteQuery {
        issuer: &issuer,
        serial: &nonrevoked_serial,
        log_timestamps: Some(&timestamps),
    };
    assert!(matches!(clubcard.contains(&item), Membership::Nonmember));

    let timestamps = [([1u8; 32], 100)];
    let item = CRLiteQuery {
        issuer: &issuer,
        serial: &revoked_serial,
        log_timestamps: Some(&timestamps),
    };
    assert!(matches!(
        clubcard.contains(&item),
        Membership::NotInUniverse
    ));
}
