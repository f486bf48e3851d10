//! The first pass over a block: the ribbon that accepts every member of the block and few of
//! the other items.
use crate::bits::lemma_xor_sum_zero;
use crate::bytes::copy_bytes;
use crate::bytes::copy_words;
use crate::equation::Equation;
use crate::equation::dot_term;
use crate::query::Filterable;
use crate::query::same_row;
use crate::ribbon::RibbonSolver;
use crate::ribbon::fits;
use crate::ribbon::solution_words;
use crate::ribbon::solvable;
use crate::ribbon::solved_by;
use vstd::prelude::*;

verus! {

/// The most columns that an approximate ribbon has.
pub const MAX_RANK: usize = 16;

/// The width of the system that is solved for `n` rows: a sixteenth more than there are rows,
/// and 64.
pub open spec fn width_for(n: usize) -> usize {
    if n + n / 16 + 64 <= usize::MAX {
        (n + n / 16 + 64) as usize
    } else {
        usize::MAX
    }
}

/// Computes the width of the system that is solved for `n` rows.
pub fn ribbon_width(n: usize) -> (m: usize)
    ensures
        m == width_for(n),
{
    n.saturating_add(n / 16).saturating_add(64)
}

/// How often `t` can be doubled without passing `limit`, counted from `r` up to `MAX_RANK`.
pub open spec fn doublings(t: int, limit: int, r: int) -> int
    decreases MAX_RANK - r,
{
    if r < MAX_RANK && 2 * t <= limit {
        doublings(2 * t, limit, r + 1)
    } else {
        r
    }
}

/// The number of columns of the approximate ribbon for `k` members of a universe of `n` items:
/// the largest `r`, up to `MAX_RANK`, for which `k` times two to the `r` is at most the number
/// of the other items. With `r` columns about one in two to the `r` of the others is accepted.
pub open spec fn rank_for(k: usize, n: usize) -> int {
    if n < k {
        0
    } else {
        doublings(k as int, n - k, 0)
    }
}

/// Computes the number of columns of the approximate ribbon.
pub fn approximate_rank(k: usize, n: usize) -> (r: usize)
    ensures
        r == rank_for(k, n),
        r <= MAX_RANK,
{
    if n < k {
        return 0;
    }
    let limit: usize = n - k;
    let mut t: usize = k;
    let mut r: usize = 0;
    while r < MAX_RANK && t <= limit / 2
        invariant
            r <= MAX_RANK,
            limit == n - k,
            doublings(t as int, limit as int, r as int) == rank_for(k, n),
        decreases MAX_RANK - r,
    {
        t = 2 * t;
        r += 1;
    }
    r
}

/// The rows that stand for `items` in a system of width `m`.
pub open spec fn rows_of<const W: usize, T: Filterable<W>>(items: Seq<T>, m: usize) -> Seq<
    Equation<W>,
> {
    Seq::new(items.len(), |i: int| items[i].equation_spec(m))
}

/// What an approximate ribbon holds: the block it was built for, the width of its system, and
/// one solution of the system for each of its columns.
pub struct ApproximateView {
    pub block: Seq<u8>,
    pub width: usize,
    pub columns: Seq<Seq<u64>>,
}

impl ApproximateView {
    /// Whether the ribbon accepts the row `eq`: the row has the value zero in every column.
    pub open spec fn accepts<const W: usize>(self, eq: Equation<W>) -> bool {
        forall|c: int| 0 <= c < self.columns.len() ==> !eq.value(#[trigger] self.columns[c])
    }
}

/// The first pass over a block: a filter that accepts every member of the block that it was
/// built from, and of the other items about one in two to the number of its columns.
#[derive(Debug)]
pub struct ApproximateRibbon<const W: usize> {
    pub block: Vec<u8>,
    pub width: usize,
    pub columns: Vec<Vec<u64>>,
}

impl<const W: usize> View for ApproximateRibbon<W> {
    type V = ApproximateView;

    open spec fn view(&self) -> ApproximateView {
        ApproximateView {
            block: self.block@,
            width: self.width,
            columns: Seq::new(self.columns@.len(), |c: int| self.columns@[c]@),
        }
    }
}

/// What an approximate builder holds.
pub struct ApproximateBuilderView<T> {
    pub block: Seq<u8>,
    pub items: Seq<T>,
    pub universe_size: usize,
}

/// Collects the members of one block for the first pass.
pub struct ApproximateRibbonBuilder<const W: usize, T: Filterable<W>> {
    pub block: Vec<u8>,
    pub items: Vec<T>,
    pub universe_size: usize,
}

impl<const W: usize, T: Filterable<W>> View for ApproximateRibbonBuilder<W, T> {
    type V = ApproximateBuilderView<T>;

    open spec fn view(&self) -> ApproximateBuilderView<T> {
        ApproximateBuilderView {
            block: self.block@,
            items: self.items@,
            universe_size: self.universe_size,
        }
    }
}

impl<const W: usize, T: Filterable<W>> ApproximateRibbonBuilder<W, T> {
    /// A builder for the block `block`, without items, for a universe of unknown size.
    pub fn new(block: &[u8]) -> (builder: Self)
        ensures
            builder@ == (ApproximateBuilderView::<T> {
                block: block@,
                items: Seq::empty(),
                universe_size: 0,
            }),
    {
        ApproximateRibbonBuilder { block: copy_bytes(block), items: Vec::new(), universe_size: 0 }
    }

    /// Adds a member of the block.
    pub fn insert(&mut self, item: T)
        ensures
            final(self)@ == (ApproximateBuilderView::<T> {
                items: old(self)@.items.push(item),
                ..old(self)@
            }),
    {
        self.items.push(item);
    }

    /// Says how many items the block has in all, members and others.
    pub fn set_universe_size(&mut self, universe_size: usize)
        ensures
            final(self)@ == (ApproximateBuilderView::<T> { universe_size, ..old(self)@ }),
    {
        self.universe_size = universe_size;
    }
}

/// The value of a row under the assignment that is zero everywhere is zero.
proof fn lemma_value_of_zero<const W: usize>(e: Equation<W>, z: Seq<u64>)
    requires
        forall|k: int| 0 <= k < z.len() ==> z[k] == 0,
    ensures
        !e.value(z),
{
    let f = dot_term(e.coeffs@, z, e.start as int);
    assert forall|j: int| 0 <= j < 64 * W implies !#[trigger] f(j) by {
        let ju = ((e.start + j) % 64) as u64;
        assert((0u64 >> ju) & 1 == 0) by (bit_vector);
    }
    lemma_xor_sum_zero(f, 0, 64 * W);
}

impl<const W: usize> ApproximateRibbon<W> {
    /// Tells whether the ribbon accepts the row `eq`.
    pub fn passes(&self, eq: &Equation<W>) -> (r: bool)
        ensures
            r == self@.accepts(*eq),
    {
        let mut c: usize = 0;
        while c < self.columns.len()
            invariant
                c <= self.columns.len(),
                forall|k: int| 0 <= k < c ==> !eq.value(#[trigger] self@.columns[k]),
            decreases self.columns.len() - c,
        {
            if eq.eval(self.columns[c].as_slice()) {
                assert(eq.value(self@.columns[c as int]));
                return false;
            }
            c += 1;
        }
        true
    }

    /// Copies the ribbon.
    pub fn duplicate(&self) -> (copy: Self)
        ensures
            copy@ == self@,
    {
        let mut columns: Vec<Vec<u64>> = Vec::new();
        let mut c: usize = 0;
        while c < self.columns.len()
            invariant
                c <= self.columns.len(),
                columns@.len() == c,
                forall|k: int| 0 <= k < c ==> (#[trigger] columns@[k])@ == self.columns@[k]@,
            decreases self.columns.len() - c,
        {
            columns.push(copy_words(self.columns[c].as_slice()));
            c += 1;
        }
        let copy = ApproximateRibbon { block: copy_bytes(self.block.as_slice()), width: self.width, columns };
        assert(copy@.columns =~= self@.columns);
        copy
    }

    /// Solves the first pass: the ribbon accepts every item of the builder. Its width comes
    /// from the number of items, the number of its columns from the share that they have of
    /// the universe.
    pub fn from<T: Filterable<W>>(builder: ApproximateRibbonBuilder<W, T>) -> (ribbon: Self)
        ensures
            ribbon@.block == builder@.block,
            ribbon@.width == width_for(builder@.items.len() as usize),
            ribbon@.columns.len() == (if fits::<W>(ribbon@.width) {
                rank_for(builder@.items.len() as usize, builder@.universe_size)
            } else {
                0
            }),
            forall|c: int|
                0 <= c < ribbon@.columns.len() ==> (#[trigger] ribbon@.columns[c]).len()
                    == solution_words::<W>(ribbon@.width),
            forall|i: int|
                0 <= i < builder@.items.len() ==> ribbon@.accepts(
                    (#[trigger] builder@.items[i]).equation_spec(ribbon@.width),
                ),
    {
        let count: usize = builder.items.len();
        let m: usize = ribbon_width(count);
        let rank: usize = approximate_rank(count, builder.universe_size);
        let mut solver: RibbonSolver<W> = RibbonSolver::new();
        let mut i: usize = 0;
        while i < count
            invariant
                i <= count,
                count == builder.items@.len(),
                solver@.len() == i,
                forall|k: int|
                    0 <= k < i ==> same_row(
                        #[trigger] solver@[k],
                        builder.items@[k].equation_spec(m),
                    ) && !solver@[k].target,
            decreases count - i,
        {
            let e: Equation<W> = builder.items[i].as_equation(m);
            solver.insert(Equation::homogeneous(e.start, e.coeffs));
            i += 1;
        }
        proof {
            if fits::<W>(m) {
                let words = solution_words::<W>(m);
                let zero = Seq::new(words as nat, |k: int| 0u64);
                assert forall|k: int| 0 <= k < solver@.len() implies (#[trigger] solver@[k]).holds(
                    zero,
                ) by {
                    lemma_value_of_zero(solver@[k], zero);
                }
                assert(solved_by(solver@, zero));
                assert(solvable(solver@, words));
            }
        }
        let mut columns: Vec<Vec<u64>> = Vec::new();
        let mut c: usize = 0;
        let mut stop: bool = false;
        while c < rank && !stop
            invariant
                c <= rank <= MAX_RANK,
                fits::<W>(m) ==> solvable(solver@, solution_words::<W>(m)),
                fits::<W>(m) ==> !stop,
                c > 0 ==> fits::<W>(m),
                !stop ==> columns@.len() == c,
                stop ==> columns@.len() == 0,
                forall|k: int|
                    0 <= k < columns@.len() ==> solved_by(solver@, (#[trigger] columns@[k])@)
                        && columns@[k]@.len() == solution_words::<W>(m),
            decreases rank - c + (if stop { 0int } else { 1int }),
        {
            match solver.build_seeded(m, (c + 1) as u64) {
                Ok(solved) => {
                    columns.push(solved.solution);
                    c += 1;
                },
                Err(_) => {
                    stop = true;
                },
            }
        }
        let ribbon = ApproximateRibbon { block: builder.block, width: m, columns };
        proof {
            assert forall|i: int| 0 <= i < builder@.items.len() implies ribbon@.accepts(
                (#[trigger] builder@.items[i]).equation_spec(ribbon@.width),
            ) by {
                let eq = builder@.items[i].equation_spec(m);
                assert forall|k: int| 0 <= k < ribbon@.columns.len() implies !eq.value(
                    #[trigger] ribbon@.columns[k],
                ) by {
                    assert(solved_by(solver@, columns@[k]@));
                    assert(solver@[i].holds(columns@[k]@));
                }
            }
        }
        ribbon
    }
}

} // verus!
