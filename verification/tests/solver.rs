use clubcard::bits::parity;
use clubcard::bits::window;
use clubcard::equation::Equation;
use clubcard::ribbon::RibbonSolver;
use clubcard::ribbon::SolveError;

#[test]
fn parity_counts_the_bits() {
    assert!(!parity(0));
    assert!(parity(1));
    assert!(parity(0b1011));
    assert!(!parity(0b1001));
    assert!(!parity(u64::MAX));
    assert!(parity(1 << 63));
}

#[test]
fn window_reads_across_two_words() {
    let words = [u64::MAX, 0b101];
    assert_eq!(window(&words, 0, 0), u64::MAX);
    assert_eq!(window(&words, 0, 60), 0b101_1111);
    assert_eq!(window(&words, 1, 0), 0b101);
    assert_eq!(window(&words, 1, 2), 0b1);
    assert_eq!(window(&words, 2, 5), 0);
}

#[test]
fn eval_is_the_dot_product_with_the_window() {
    // coefficients at 0, 4 and 64: the unknowns 60, 64 and 124
    let eq = Equation::<2>::homogeneous(60, [0b10001, 1]);
    assert!(!eq.eval(&[0, 0]));
    assert!(eq.eval(&[1 << 60, 0]));
    assert!(!eq.eval(&[1 << 60, 1]));
    assert!(eq.eval(&[1 << 60, 1 | (1 << 60)]));
    assert!(!eq.eval(&[1 << 59, 2]));
    // what lies behind the last word counts as zero
    assert!(eq.eval(&[1 << 60]));
    assert!(!eq.eval(&[]));
}

#[test]
fn constructors_set_the_target() {
    let h = Equation::<2>::homogeneous(7, [3, 4]);
    assert_eq!((h.start, h.coeffs, h.target), (7, [3, 4], false));
    let i = Equation::<2>::inhomogeneous(7, [3, 4]);
    assert_eq!((i.start, i.coeffs, i.target), (7, [3, 4], true));
    let z = Equation::<2>::zero(9);
    assert!(z.is_zero() && !z.is_aligned() && !z.target);
    assert!(!h.is_zero() && h.is_aligned());
    assert!(!Equation::<2>::homogeneous(0, [2, 0]).is_aligned());
}

#[test]
fn align_moves_to_the_lowest_coefficient() {
    let mut eq = Equation::<2>::inhomogeneous(10, [0, 0b1100]);
    eq.align();
    assert_eq!((eq.start, eq.coeffs, eq.target), (10 + 64 + 2, [0b11, 0], true));
    let mut aligned = Equation::<2>::homogeneous(10, [0b101, 7]);
    aligned.align();
    assert_eq!((aligned.start, aligned.coeffs), (10, [0b101, 7]));
    let mut carried = Equation::<2>::homogeneous(0, [1 << 63, 0b11]);
    carried.align();
    assert_eq!((carried.start, carried.coeffs), (63, [0b111, 0]));
    let mut none = Equation::<2>::zero(5);
    none.align();
    assert_eq!((none.start, none.coeffs), (5, [0, 0]));
}

#[test]
fn add_sums_and_aligns() {
    let mut eq = Equation::<1>::inhomogeneous(3, [0b0111]);
    eq.add(&Equation::<1>::inhomogeneous(3, [0b0001]));
    assert_eq!((eq.start, eq.coeffs, eq.target), (4, [0b011], false));
    let mut same = Equation::<1>::homogeneous(3, [0b0101]);
    same.add(&Equation::<1>::inhomogeneous(3, [0b0101]));
    assert!(same.is_zero() && same.target);
}

#[test]
fn solver_solves_a_small_system() {
    // x0 + x1 = 1, x1 = 1, x1 + x2 + x5 = 0, x5 = 1
    let rows = [
        Equation::<1>::inhomogeneous(0, [0b11]),
        Equation::<1>::inhomogeneous(1, [0b1]),
        Equation::<1>::homogeneous(1, [0b10011]),
        Equation::<1>::inhomogeneous(5, [0b1]),
    ];
    let mut solver = RibbonSolver::<1>::new();
    for row in rows {
        solver.insert(row);
    }
    assert_eq!(solver.len(), 4);
    let ribbon = solver.build(6).expect("the system has a solution");
    assert_eq!(ribbon.width, 6);
    assert_eq!(ribbon.solution, vec![0b100010, 0]);
    for row in rows {
        assert_eq!(ribbon.evaluate(&row), row.target);
    }
}

#[test]
fn solver_accepts_rows_that_follow_from_others() {
    let mut solver = RibbonSolver::<1>::new();
    solver.insert(Equation::<1>::inhomogeneous(0, [0b11]));
    solver.insert(Equation::<1>::homogeneous(1, [0b11]));
    solver.insert(Equation::<1>::inhomogeneous(0, [0b101]));
    let ribbon = solver.build(3).expect("the third row is the sum of the others");
    for row in &solver.equations {
        assert_eq!(ribbon.evaluate(row), row.target);
    }
}

#[test]
fn solver_reports_equal_rows_with_different_targets() {
    let mut solver = RibbonSolver::<2>::new();
    solver.insert(Equation::<2>::homogeneous(17, [0b1011, 99]));
    solver.insert(Equation::<2>::inhomogeneous(17, [0b1011, 99]));
    assert_eq!(solver.build(1000).err(), Some(SolveError::Inconsistent));
}

#[test]
fn solver_reports_rows_that_contradict_their_sum() {
    let mut solver = RibbonSolver::<1>::new();
    solver.insert(Equation::<1>::inhomogeneous(0, [0b11]));
    solver.insert(Equation::<1>::homogeneous(1, [0b11]));
    solver.insert(Equation::<1>::homogeneous(0, [0b101]));
    assert_eq!(solver.build(3).err(), Some(SolveError::Inconsistent));
}

#[test]
fn solver_reports_a_width_beyond_memory() {
    let solver = RibbonSolver::<4>::new();
    assert_eq!(solver.build(usize::MAX).err(), Some(SolveError::TooWide));
    assert_eq!(solver.build_seeded(usize::MAX - 64, 1).err(), Some(SolveError::TooWide));
}

#[test]
fn solver_without_rows_gives_the_zero_solution() {
    let solver = RibbonSolver::<4>::new();
    let ribbon = solver.build(130).expect("no row, no contradiction");
    assert_eq!(ribbon.solution, vec![0u64; 130 / 64 + 4 + 1]);
}

#[test]
fn seeded_solutions_satisfy_the_rows_and_differ() {
    let mut solver = RibbonSolver::<1>::new();
    solver.insert(Equation::<1>::homogeneous(3, [0b1101]));
    solver.insert(Equation::<1>::homogeneous(40, [0b11]));
    let plain = solver.build_seeded(100, 0).expect("homogeneous");
    let first = solver.build_seeded(100, 1).expect("homogeneous");
    let second = solver.build_seeded(100, 2).expect("homogeneous");
    assert_eq!(plain.solution, vec![0u64; 100 / 64 + 1 + 1]);
    assert_ne!(first.solution, plain.solution);
    assert_ne!(first.solution, second.solution);
    for ribbon in [&plain, &first, &second] {
        for row in &solver.equations {
            assert!(!ribbon.evaluate(row));
        }
    }
}
