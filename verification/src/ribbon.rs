//! The ribbon solver: Gaussian elimination on a banded linear system over GF(2), and the solved
//! system as a static function from rows to bits.
use crate::bits::bit;
use crate::bits::bit_at;
use crate::bits::lemma_xor_sum_update;
use crate::bits::lemma_xor_sum_zero;
use crate::equation::dot_term;
use crate::equation::Equation;
use vstd::arithmetic::div_mod::lemma_add_mod_noop_right;
use vstd::arithmetic::div_mod::lemma_mod_add_multiples_vanish;
use vstd::arithmetic::div_mod::lemma_small_mod;
use vstd::prelude::*;

verus! {

/// Whether the assignment `z` satisfies every row of `rows`.
pub open spec fn solved_by<const W: usize>(rows: Seq<Equation<W>>, z: Seq<u64>) -> bool {
    forall|i: int| 0 <= i < rows.len() ==> (#[trigger] rows[i]).holds(z)
}

/// Whether some assignment of `words` words satisfies every row of `rows`.
pub open spec fn solvable<const W: usize>(rows: Seq<Equation<W>>, words: int) -> bool {
    exists|z: Seq<u64>| z.len() == words && #[trigger] solved_by(rows, z)
}

/// The number of words in a solution of width `m`: the `m` unknowns at which a row may start,
/// and room for the coefficients of a row that starts at the last of them.
pub open spec fn solution_words<const W: usize>(m: usize) -> int {
    m / 64 + W + 1
}

/// Whether a system of width `m` can be laid out in memory.
pub open spec fn fits<const W: usize>(m: usize) -> bool {
    64 * solution_words::<W>(m) + 64 * W <= usize::MAX
}

/// Why a system was not solved.
#[derive(Clone, Copy, Debug, PartialEq, Eq)]
pub enum SolveError {
    /// No assignment satisfies every row.
    Inconsistent,
    /// The width is beyond what can be laid out in memory.
    TooWide,
}

/// A solved system: an assignment of `solution`, packed 64 unknowns to the word, for a system
/// of width `width`.
#[derive(Debug)]
pub struct Ribbon<const W: usize> {
    pub width: usize,
    pub solution: Vec<u64>,
}

impl<const W: usize> Ribbon<W> {
    /// The bit that the ribbon gives for the row `eq`.
    pub open spec fn value(&self, eq: Equation<W>) -> bool {
        eq.value(self.solution@)
    }

    /// Evaluates the row `eq` against the solution. The target of `eq` plays no part.
    pub fn evaluate(&self, eq: &Equation<W>) -> (r: bool)
        ensures
            r == self.value(*eq),
    {
        eq.eval(self.solution.as_slice())
    }
}

/// Two rows with the same start and the same coefficients and different targets have no
/// common solution: a system that holds both is not solved, whatever its width.
pub proof fn lemma_collision_unsolvable<const W: usize>(
    rows: Seq<Equation<W>>,
    i: int,
    j: int,
    words: int,
)
    requires
        0 <= i < rows.len(),
        0 <= j < rows.len(),
        rows[i].start == rows[j].start,
        rows[i].coeffs == rows[j].coeffs,
        rows[i].target != rows[j].target,
    ensures
        !solvable(rows, words),
{
    assert forall|z: Seq<u64>| !#[trigger] solved_by(rows, z) by {
        if solved_by(rows, z) {
            assert(rows[i].holds(z) && rows[j].holds(z));
        }
    }
}

/// Whether every row of `rows` is either empty, with target zero, or aligned at its own index.
pub open spec fn echelon<const W: usize>(rows: Seq<Equation<W>>) -> bool {
    forall|p: int|
        0 <= p < rows.len() ==> {
            ||| (#[trigger] rows[p]).vanishes() && !rows[p].target
            ||| rows[p].aligned() && rows[p].start == p
        }
}

/// Whether the two systems have the same solutions among the assignments of `words` words.
pub open spec fn equivalent<const W: usize>(
    rows: Seq<Equation<W>>,
    eqs: Seq<Equation<W>>,
    words: int,
) -> bool {
    forall|z: Seq<u64>|
        z.len() == words ==> (#[trigger] solved_by(rows, z) <==> solved_by(eqs, z))
}

/// A row that starts behind the last unknown has the value zero.
proof fn lemma_value_out_of_range<const W: usize>(e: Equation<W>, z: Seq<u64>)
    requires
        e.start >= 64 * z.len(),
    ensures
        !e.value(z),
{
    lemma_xor_sum_zero(dot_term(e.coeffs@, z, e.start as int), 0, 64 * W);
}

/// Setting the unknown at the start of an aligned row flips the value of the row.
proof fn lemma_value_flip<const W: usize>(e: Equation<W>, z1: Seq<u64>, z2: Seq<u64>)
    requires
        e.aligned(),
        !bit_at(z1, e.start as int),
        bit_at(z2, e.start as int),
        forall|i: int| i != e.start ==> bit_at(z1, i) == bit_at(z2, i),
    ensures
        e.value(z2) == !e.value(z1),
{
    let f = dot_term(e.coeffs@, z1, e.start as int);
    let g = dot_term(e.coeffs@, z2, e.start as int);
    assert forall|j: int| 0 <= j < 64 * W && j != 0 implies #[trigger] f(j) == #[trigger] g(j) by {
        assert(bit_at(z1, e.start + j) == bit_at(z2, e.start + j));
    }
    lemma_xor_sum_update(f, g, 0, 64 * W, 0);
    assert(bit_at(e.coeffs@, 0) == bit(e.coeffs[0], 0));
}

/// Collects the rows of a linear system and solves it.
pub struct RibbonSolver<const W: usize> {
    pub equations: Vec<Equation<W>>,
}

impl<const W: usize> View for RibbonSolver<W> {
    type V = Seq<Equation<W>>;

    open spec fn view(&self) -> Seq<Equation<W>> {
        self.equations@
    }
}

impl<const W: usize> RibbonSolver<W> {
    /// A system without rows.
    pub fn new() -> (solver: Self)
        ensures
            solver@ == Seq::<Equation<W>>::empty(),
    {
        RibbonSolver { equations: Vec::new() }
    }

    /// Adds a row to the system.
    pub fn insert(&mut self, eq: Equation<W>)
        ensures
            final(self)@ == old(self)@.push(eq),
    {
        self.equations.push(eq);
    }

    /// The number of rows.
    pub fn len(&self) -> (n: usize)
        ensures
            n == self@.len(),
    {
        self.equations.len()
    }

    /// Solves the system for the width `m`. The result is a solution, with every unknown that
    /// the system leaves free set to zero, if there is one; else the error says that the system
    /// has none.
    pub fn build(&self, m: usize) -> (r: Result<Ribbon<W>, SolveError>)
        ensures
            match r {
                Ok(ribbon) => {
                    &&& fits::<W>(m)
                    &&& ribbon.width == m
                    &&& ribbon.solution@.len() == solution_words::<W>(m)
                    &&& solved_by(self@, ribbon.solution@)
                },
                Err(SolveError::Inconsistent) => fits::<W>(m) && !solvable(
                    self@,
                    solution_words::<W>(m),
                ),
                Err(SolveError::TooWide) => !fits::<W>(m),
            },
    {
        match self.build_seeded(m, 0) {
            Ok(ribbon) => Ok(ribbon),
            Err(e) => Err(e),
        }
    }

    /// Solves the system for the width `m`, and sets the unknowns that the system leaves free
    /// to bits drawn from `seed`; with the seed zero all of them are zero.
    pub fn build_seeded(&self, m: usize, seed: u64) -> (r: Result<Ribbon<W>, SolveError>)
        ensures
            match r {
                Ok(ribbon) => {
                    &&& fits::<W>(m)
                    &&& ribbon.width == m
                    &&& ribbon.solution@.len() == solution_words::<W>(m)
                    &&& solved_by(self@, ribbon.solution@)
                },
                Err(SolveError::Inconsistent) => fits::<W>(m) && !solvable(
                    self@,
                    solution_words::<W>(m),
                ),
                Err(SolveError::TooWide) => !fits::<W>(m),
            },
    {
        let rows = match eliminate(&self.equations, m) {
            Ok(rows) => rows,
            Err(e) => {
                return Err(e);
            },
        };
        let solution = back_substitute(&rows, m / 64 + W + 1, seed);
        Ok(Ribbon { width: m, solution })
    }
}

/// The number of words of a solution of width `m`, where the system fits in memory.
fn layout<const W: usize>(m: usize) -> (r: Option<usize>)
    ensures
        match r {
            Some(words) => fits::<W>(m) && words == solution_words::<W>(m),
            None => !fits::<W>(m),
        },
{
    let limit: usize = usize::MAX / 64;
    if W >= limit {
        return None;
    }
    let band: usize = 64 * W;
    let words: usize = match (m / 64).checked_add(W + 1) {
        Some(words) => words,
        None => {
            return None;
        },
    };
    if words > (usize::MAX - band) / 64 {
        return None;
    }
    Some(words)
}

/// Brings the system into echelon form: the result has the same solutions, and one row at most
/// for each unknown that a row may start at.
fn eliminate<const W: usize>(equations: &Vec<Equation<W>>, m: usize) -> (r: Result<
    Vec<Equation<W>>,
    SolveError,
>)
    ensures
        match r {
            Ok(rows) => {
                &&& fits::<W>(m)
                &&& rows@.len() == 64 * solution_words::<W>(m)
                &&& echelon(rows@)
                &&& equivalent(rows@, equations@, solution_words::<W>(m))
            },
            Err(SolveError::Inconsistent) => fits::<W>(m) && !solvable(
                equations@,
                solution_words::<W>(m),
            ),
            Err(SolveError::TooWide) => !fits::<W>(m),
        },
{
    let words: usize = match layout::<W>(m) {
        Some(words) => words,
        None => {
            return Err(SolveError::TooWide);
        },
    };
    let len: usize = 64 * words;
    let mut rows: Vec<Equation<W>> = Vec::new();
    let mut p: usize = 0;
    while p < len
        invariant
            p <= len,
            rows@.len() == p,
            forall|q: int| 0 <= q < p ==> (#[trigger] rows@[q]).vanishes() && !rows@[q].target,
        decreases len - p,
    {
        rows.push(Equation::zero(p));
        p += 1;
    }
    proof {
        assert forall|z: Seq<u64>| z.len() == words implies (#[trigger] solved_by(rows@, z)
            <==> solved_by(equations@.take(0), z)) by {
            assert forall|q: int| 0 <= q < rows@.len() implies (#[trigger] rows@[q]).holds(z) by {
                rows@[q].lemma_vanishing_value(z);
            }
        }
    }
    let mut idx: usize = 0;
    while idx < equations.len()
        invariant
            idx <= equations.len(),
            len == 64 * words,
            words == solution_words::<W>(m),
            fits::<W>(m),
            rows@.len() == len,
            echelon(rows@),
            equivalent(rows@, equations@.take(idx as int), words as int),
        decreases equations.len() - idx,
    {
        let given: Equation<W> = equations[idx];
        let ghost before = equations@.take(idx as int);
        let ghost after = equations@.take(idx + 1);
        assert(after == before.push(given));
        let mut e: Equation<W> = given;
        let mut conflict: bool = false;
        let mut done: bool = false;
        if e.start < len {
            e.align();
        }
        while !done
            invariant
                len == 64 * words,
                fits::<W>(m),
                words == solution_words::<W>(m),
                rows@.len() == len,
                echelon(rows@),
                after == before.push(given),
                before.len() == idx,
                !done ==> !conflict,
                e.start >= len || e.vanishes() || e.aligned(),
                !done ==> equivalent(rows@, before, words as int),
                !done ==> forall|z: Seq<u64>|
                    z.len() == words && solved_by(rows@, z) ==> (#[trigger] e.holds(z)
                        == given.holds(z)),
                done && !conflict ==> equivalent(rows@, after, words as int),
                done && conflict ==> !solvable(after, words as int),
            decreases
                    (if done {
                        0
                    } else if e.start >= len || e.vanishes() {
                        1
                    } else {
                        len - e.start + 1
                    }),
        {
            if e.start >= len || e.is_zero() {
                proof {
                    assert forall|z: Seq<u64>| z.len() == words implies !#[trigger] e.value(z) by {
                        if e.start >= len {
                            lemma_value_out_of_range(e, z);
                        } else {
                            e.lemma_vanishing_value(z);
                        }
                    }
                    if e.target {
                        assert forall|z: Seq<u64>| z.len() == words implies !#[trigger] solved_by(
                            after,
                            z,
                        ) by {
                            if solved_by(after, z) {
                                assert(after[idx as int].holds(z));
                                assert forall|i: int| 0 <= i < before.len() implies (
                                #[trigger] before[i]).holds(z) by {
                                    assert(after[i].holds(z));
                                }
                                assert(solved_by(before, z));
                                assert(solved_by(rows@, z));
                                assert(e.holds(z) == given.holds(z));
                                assert(!e.value(z));
                            }
                        }
                    } else {
                        assert forall|z: Seq<u64>| z.len() == words implies (#[trigger] solved_by(
                            rows@,
                            z,
                        ) <==> solved_by(after, z)) by {
                            assert(!e.value(z));
                            if solved_by(rows@, z) {
                                assert(solved_by(before, z));
                                assert(e.holds(z) == given.holds(z));
                                assert forall|i: int| 0 <= i < after.len() implies (
                                #[trigger] after[i]).holds(z) by {
                                    if i < idx {
                                        assert(before[i].holds(z));
                                    }
                                }
                            }
                            if solved_by(after, z) {
                                assert forall|i: int| 0 <= i < before.len() implies (
                                #[trigger] before[i]).holds(z) by {
                                    assert(after[i].holds(z));
                                }
                                assert(solved_by(before, z));
                            }
                        }
                    }
                }
                conflict = e.target;
                done = true;
            } else {
                let pivot: usize = e.start;
                let row: Equation<W> = rows[pivot];
                if row.is_aligned() {
                    let ghost prev = e;
                    proof {
                        row.lemma_aligned_not_vanishing();
                    }
                    e.add(&row);
                    proof {
                        assert forall|z: Seq<u64>|
                            z.len() == words && solved_by(rows@, z) implies (#[trigger] e.holds(z)
                            == given.holds(z)) by {
                            assert(rows@[pivot as int].holds(z));
                            assert(e.value(z) == (prev.value(z) != row.value(z)));
                            assert(prev.holds(z) == given.holds(z));
                        }
                    }
                } else {
                    let ghost old_rows = rows@;
                    rows.set(pivot, e);
                    proof {
                        assert forall|z: Seq<u64>| z.len() == words implies (#[trigger] solved_by(
                            rows@,
                            z,
                        ) <==> solved_by(after, z)) by {
                            old_rows[pivot as int].lemma_vanishing_value(z);
                            if solved_by(rows@, z) {
                                assert(rows@[pivot as int].holds(z));
                                assert forall|q: int| 0 <= q < old_rows.len() implies (
                                #[trigger] old_rows[q]).holds(z) by {
                                    if q != pivot {
                                        assert(rows@[q].holds(z));
                                    }
                                }
                                assert(solved_by(old_rows, z));
                                assert(solved_by(before, z));
                                assert(e.holds(z) == given.holds(z));
                                assert forall|i: int| 0 <= i < after.len() implies (
                                #[trigger] after[i]).holds(z) by {
                                    if i < idx {
                                        assert(before[i].holds(z));
                                    }
                                }
                            }
                            if solved_by(after, z) {
                                assert(after[idx as int].holds(z));
                                assert forall|i: int| 0 <= i < before.len() implies (
                                #[trigger] before[i]).holds(z) by {
                                    assert(after[i].holds(z));
                                }
                                assert(solved_by(before, z));
                                assert(solved_by(old_rows, z));
                                assert(e.holds(z) == given.holds(z));
                                assert forall|q: int| 0 <= q < rows@.len() implies (
                                #[trigger] rows@[q]).holds(z) by {
                                    if q != pivot {
                                        assert(old_rows[q].holds(z));
                                    }
                                }
                            }
                        }
                        assert forall|q: int| 0 <= q < rows@.len() implies {
                            ||| (#[trigger] rows@[q]).vanishes() && !rows@[q].target
                            ||| rows@[q].aligned() && rows@[q].start == q
                        } by {
                            if q != pivot {
                                assert(old_rows[q] == rows@[q]);
                            }
                        }
                    }
                    done = true;
                }
            }
        }
        if conflict {
            proof {
                assert forall|z: Seq<u64>| z.len() == words implies !#[trigger] solved_by(
                    equations@,
                    z,
                ) by {
                    if solved_by(equations@, z) {
                        assert forall|i: int| 0 <= i < after.len() implies (#[trigger] after[i]).holds(
                            z,
                        ) by {
                            assert(equations@[i].holds(z));
                        }
                        assert(solved_by(after, z));
                    }
                }
            }
            return Err(SolveError::Inconsistent);
        }
        idx += 1;
    }
    assert(equations@.take(idx as int) == equations@);
    Ok(rows)
}

/// One step of the generator that the free unknowns are drawn from: a linear congruential
/// generator modulo two to the 64.
fn next_state(state: u64) -> (next: u64)
    ensures
        next == state_after(state),
{
    let product: u64 = state.wrapping_mul(6364136223846793005u64);
    let next: u64 = product.wrapping_add(1442695040888963407u64);
    proof {
        let m: int = 0x1_0000_0000_0000_0000;
        let p: int = state * 6364136223846793005;
        assert(product == p % m);
        assert(next == (product + 1442695040888963407) % m) by {
            if product + 1442695040888963407 >= m {
                lemma_mod_add_multiples_vanish(product + 1442695040888963407 - m, m);
                lemma_small_mod((product + 1442695040888963407 - m) as nat, m as nat);
            } else {
                lemma_small_mod((product + 1442695040888963407) as nat, m as nat);
            }
        }
        lemma_add_mod_noop_right(1442695040888963407, p, m);
    }
    next
}

/// The state that follows `state` in the generator: `state` times 6364136223846793005, plus
/// 1442695040888963407, modulo two to the 64.
pub open spec fn state_after(state: u64) -> u64 {
    ((state * 6364136223846793005 + 1442695040888963407) % 0x1_0000_0000_0000_0000) as u64
}

/// Solves a system in echelon form from the last unknown down. An unknown without a row of its
/// own is free: it is zero where `seed` is zero, else a bit drawn from `seed`.
fn back_substitute<const W: usize>(rows: &Vec<Equation<W>>, words: usize, seed: u64) -> (z: Vec<
    u64,
>)
    requires
        rows@.len() == 64 * words,
        echelon(rows@),
    ensures
        z@.len() == words,
        solved_by(rows@, z@),
{
    let mut z: Vec<u64> = Vec::new();
    let mut n: usize = 0;
    while n < words
        invariant
            n <= words,
            z@.len() == n,
            forall|k: int| 0 <= k < n ==> z@[k] == 0,
        decreases words - n,
    {
        z.push(0);
        n += 1;
    }
    proof {
        assert forall|i: int| !bit_at(z@, i) by {
            let ju = (i % 64) as u64;
            assert((0u64 >> ju) & 1 == 0) by (bit_vector);
        }
    }
    let mut state: u64 = seed;
    let mut p: usize = rows.len();
    while p > 0
        invariant
            p <= rows@.len(),
            rows@.len() == 64 * words,
            echelon(rows@),
            z@.len() == words,
            forall|q: int| p <= q < rows@.len() ==> (#[trigger] rows@[q]).holds(z@),
            forall|i: int| i < p ==> !bit_at(z@, i),
        decreases p,
    {
        p -= 1;
        let row: Equation<W> = rows[p];
        let set: bool = if row.is_aligned() {
            row.eval(z.as_slice()) != row.target
        } else if seed == 0 {
            false
        } else {
            state = next_state(state);
            state >> 63 == 1
        };
        proof {
            if !row.aligned() {
                row.lemma_vanishing_value(z@);
            }
        }
        if set {
            let limb: usize = p / 64;
            let pos: usize = p % 64;
            let word: u64 = z[limb];
            let ghost z1 = z@;
            z.set(limb, word | (1u64 << pos));
            proof {
                let z2 = z@;
                let pu = pos as u64;
                assert forall|i: int| bit_at(z2, i) == (i == p || bit_at(z1, i)) by {
                    if 0 <= i < 64 * words {
                        let iu = (i % 64) as u64;
                        assert(pu < 64 && iu < 64 ==> (((word | (1u64 << pu)) >> iu) & 1 == 1 <==> (iu
                            == pu || (word >> iu) & 1 == 1))) by (bit_vector);
                    }
                }
                assert forall|q: int| p < q < rows@.len() implies (#[trigger] rows@[q]).holds(
                    z2,
                ) by {
                    if rows@[q].aligned() {
                        rows@[q].lemma_aligned_not_vanishing();
                        rows@[q].lemma_value_frame(z1, z2);
                    } else {
                        rows@[q].lemma_vanishing_value(z2);
                    }
                }
                if row.aligned() {
                    row.lemma_aligned_not_vanishing();
                    lemma_value_flip(row, z1, z2);
                } else {
                    row.lemma_vanishing_value(z2);
                }
            }
        }
    }
    z
}

} // verus!
