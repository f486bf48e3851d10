//! The second pass over a block: the ribbon that is exact for every item of the block.
use crate::approximate::ribbon_width;
use crate::approximate::rows_of;
use crate::approximate::width_for;
use crate::approximate::ApproximateRibbon;
use crate::approximate::ApproximateView;
use crate::bytes::copy_bytes;
use crate::equation::Equation;
use crate::query::asks_about;
use crate::query::AsQuery;
use crate::query::Filterable;
use crate::ribbon::fits;
use crate::ribbon::solution_words;
use crate::ribbon::solvable;
use crate::ribbon::RibbonSolver;
use crate::ribbon::SolveError;
use vstd::prelude::*;

verus! {

/// Why a filter was not built.
#[derive(Debug)]
pub enum BuildError {
    /// The rows of the block contradict one another, as two equal rows with different targets
    /// do. The system is not tried again at another width.
    Collision { block: Vec<u8> },
    /// The two passes over the block do not match: one of them is missing, or the first
    /// rejects a member that the second was given.
    Mismatch { block: Vec<u8> },
    /// The block has more items than a system can be laid out for.
    TooLarge { block: Vec<u8> },
}

/// Whether the first pass, if there was one, accepts the item.
pub open spec fn accepted<const W: usize, T: Filterable<W>>(
    approx: Option<ApproximateView>,
    item: T,
) -> bool {
    match approx {
        Some(a) => a.accepts(item.equation_spec(a.width)),
        None => true,
    }
}

/// The items among `inserted` that the first pass accepts, in the order in which they came.
pub open spec fn kept<const W: usize, T: Filterable<W>>(
    approx: Option<ApproximateView>,
    inserted: Seq<T>,
) -> Seq<T>
    decreases inserted.len(),
{
    if inserted.len() == 0 {
        Seq::empty()
    } else if accepted::<W, T>(approx, inserted.last()) {
        kept::<W, T>(approx, inserted.drop_last()).push(inserted.last())
    } else {
        kept::<W, T>(approx, inserted.drop_last())
    }
}

/// Whether the first pass rejects a member among `inserted`.
pub open spec fn missed<const W: usize, T: Filterable<W>>(
    approx: Option<ApproximateView>,
    inserted: Seq<T>,
) -> bool {
    exists|i: int|
        0 <= i < inserted.len() && (#[trigger] inserted[i]).included_spec() && !accepted::<W, T>(
            approx,
            inserted[i],
        )
}

/// Every accepted item is among the kept ones.
pub proof fn lemma_kept_member<const W: usize, T: Filterable<W>>(
    approx: Option<ApproximateView>,
    inserted: Seq<T>,
    i: int,
) -> (j: int)
    requires
        0 <= i < inserted.len(),
        accepted::<W, T>(approx, inserted[i]),
    ensures
        0 <= j < kept::<W, T>(approx, inserted).len(),
        kept::<W, T>(approx, inserted)[j] == inserted[i],
    decreases inserted.len(),
{
    if i == inserted.len() - 1 {
        kept::<W, T>(approx, inserted).len() - 1
    } else {
        lemma_kept_member::<W, T>(approx, inserted.drop_last(), i)
    }
}

/// What an exact builder holds: its block, the first pass over the block if there was one, and
/// every item that was handed to it.
pub struct ExactBuilderView<T> {
    pub block: Seq<u8>,
    pub approx: Option<ApproximateView>,
    pub inserted: Seq<T>,
}

/// Collects the items of one block, members and others, for the second pass. It keeps those
/// that the first pass accepts.
pub struct ExactRibbonBuilder<const W: usize, T: Filterable<W>> {
    block: Vec<u8>,
    approx: Option<ApproximateRibbon<W>>,
    items: Vec<T>,
    missed: bool,
    inserted: Ghost<Seq<T>>,
}

impl<const W: usize, T: Filterable<W>> View for ExactRibbonBuilder<W, T> {
    type V = ExactBuilderView<T>;

    closed spec fn view(&self) -> ExactBuilderView<T> {
        ExactBuilderView {
            block: self.block@,
            approx: match self.approx {
                Some(a) => Some(a@),
                None => None,
            },
            inserted: self.inserted@,
        }
    }
}

impl<const W: usize, T: Filterable<W>> ExactRibbonBuilder<W, T> {
    /// Whether the builder holds what its history says.
    pub closed spec fn wf(&self) -> bool {
        &&& self.items@ == kept::<W, T>(self@.approx, self@.inserted)
        &&& self.missed == missed::<W, T>(self@.approx, self@.inserted)
    }

    /// A builder for the block `block` that rests on the first pass `approx`.
    pub fn new(block: &[u8], approx: Option<ApproximateRibbon<W>>) -> (builder: Self)
        ensures
            builder.wf(),
            builder@ == (ExactBuilderView::<T> {
                block: block@,
                approx: match approx {
                    Some(a) => Some(a@),
                    None => None,
                },
                inserted: Seq::empty(),
            }),
    {
        ExactRibbonBuilder {
            block: copy_bytes(block),
            approx,
            items: Vec::new(),
            missed: false,
            inserted: Ghost(Seq::empty()),
        }
    }

    /// Adds an item of the block, with its ground truth.
    pub fn insert(&mut self, item: T)
        requires
            old(self).wf(),
        ensures
            final(self).wf(),
            final(self)@ == (ExactBuilderView::<T> {
                inserted: old(self)@.inserted.push(item),
                ..old(self)@
            }),
    {
        let ghost given = item;
        let ghost history = self.inserted@;
        let keep: bool = match &self.approx {
            None => true,
            Some(a) => {
                if a.columns.len() == 0 {
                    true
                } else {
                    let e: Equation<W> = item.as_equation(a.width);
                    a.passes(&e)
                }
            },
        };
        proof {
            assert(history.push(given).drop_last() == history);
            assert(keep == accepted::<W, T>(self@.approx, given));
        }
        if keep {
            self.items.push(item);
        } else if item.included() {
            self.missed = true;
        }
        self.inserted = Ghost(history.push(given));
        proof {
            let approx = self@.approx;
            let now = history.push(given);
            if missed::<W, T>(approx, history) {
                let i = choose|i: int|
                    0 <= i < history.len() && (#[trigger] history[i]).included_spec() && !accepted::<
                        W,
                        T,
                    >(approx, history[i]);
                assert(now[i] == history[i]);
            }
            if !keep && given.included_spec() {
                assert(now[history.len() as int] == given);
            }
            if missed::<W, T>(approx, now) {
                let i = choose|i: int|
                    0 <= i < now.len() && (#[trigger] now[i]).included_spec() && !accepted::<W, T>(
                        approx,
                        now[i],
                    );
                if i < history.len() {
                    assert(history[i] == now[i]);
                }
            }
        }
    }
}

/// What an exact ribbon holds: its block, the first pass that it rests on, if any, and the
/// solution of the second pass with the width of its system.
pub struct ExactView {
    pub block: Seq<u8>,
    pub approx: Option<ApproximateView>,
    pub width: usize,
    pub solution: Seq<u64>,
}

impl ExactView {
    /// Whether the ribbon counts the item as a member: the first pass accepts it, and its row
    /// has the value zero in the solution of the second.
    pub open spec fn contains_item<const W: usize, T: Filterable<W>>(self, item: T) -> bool {
        accepted::<W, T>(self.approx, item) && !item.equation_spec(self.width).value(self.solution)
    }

    /// Whether the ribbon counts the key as a member.
    pub open spec fn contains_query<const W: usize, Q: AsQuery<W>>(self, q: Q) -> bool {
        &&& match self.approx {
            Some(a) => a.accepts(q.query_spec(a.width)),
            None => true,
        }
        &&& !q.query_spec(self.width).value(self.solution)
    }
}

/// The second pass over a block. It rests on the first: what the first rejects is no member,
/// and for what the first accepts the solution of the second says whether it is one.
#[derive(Debug)]
pub struct ExactRibbon<const W: usize> {
    pub block: Vec<u8>,
    pub approx: Option<ApproximateRibbon<W>>,
    pub width: usize,
    pub solution: Vec<u64>,
}

impl<const W: usize> View for ExactRibbon<W> {
    type V = ExactView;

    open spec fn view(&self) -> ExactView {
        ExactView {
            block: self.block@,
            approx: match self.approx {
                Some(a) => Some(a@),
                None => None,
            },
            width: self.width,
            solution: self.solution@,
        }
    }
}

/// The number of bits that the solutions of a ribbon take: 64 for each word of the second pass
/// and of every column of the first.
pub open spec fn bits_of(ribbon: ExactView) -> int {
    64 * ribbon.solution.len() + match ribbon.approx {
        Some(a) => column_bits(a.columns),
        None => 0,
    }
}

/// The number of bits that the columns take.
pub open spec fn column_bits(columns: Seq<Seq<u64>>) -> int
    decreases columns.len(),
{
    if columns.len() == 0 {
        0
    } else {
        column_bits(columns.drop_last()) + 64 * columns.last().len()
    }
}

/// The number of bits of `words` words, or `usize::MAX` where that number is larger.
fn word_bits(words: usize) -> (bits: usize)
    ensures
        bits == (if 64 * words <= usize::MAX {
            64 * words
        } else {
            usize::MAX as int
        }),
{
    if words > usize::MAX / 64 {
        usize::MAX
    } else {
        64 * words
    }
}

impl<const W: usize> ExactRibbon<W> {
    /// The number of bits that the solutions of the ribbon take, or `usize::MAX` where that
    /// number is larger.
    pub fn size_in_bits(&self) -> (bits: usize)
        ensures
            bits == (if bits_of(self@) <= usize::MAX {
                bits_of(self@)
            } else {
                usize::MAX as int
            }),
    {
        let mut bits: usize = word_bits(self.solution.len());
        match &self.approx {
            Some(a) => {
                let mut c: usize = 0;
                assert(a@.columns.take(0) =~= Seq::empty());
                while c < a.columns.len()
                    invariant
                        c <= a.columns@.len(),
                        bits == (if 64 * self.solution@.len() + column_bits(a@.columns.take(c as int))
                            <= usize::MAX {
                            64 * self.solution@.len() + column_bits(a@.columns.take(c as int))
                        } else {
                            usize::MAX as int
                        }),
                        column_bits(a@.columns.take(c as int)) >= 0,
                    decreases a.columns.len() - c,
                {
                    let ghost next = a@.columns.take(c + 1);
                    assert(next.drop_last() == a@.columns.take(c as int));
                    assert(next.last() == a.columns@[c as int]@);
                    bits = bits.saturating_add(word_bits(a.columns[c].len()));
                    c += 1;
                }
                assert(a@.columns.take(c as int) == a@.columns);
            },
            None => {},
        }
        bits
    }

    /// Tells whether the ribbon counts the key as a member.
    pub fn contains<Q: AsQuery<W>>(&self, q: &Q) -> (r: bool)
        ensures
            r == self@.contains_query(*q),
    {
        let pass: bool = match &self.approx {
            None => true,
            Some(a) => {
                if a.columns.len() == 0 {
                    true
                } else {
                    let e: Equation<W> = q.as_query(a.width);
                    a.passes(&e)
                }
            },
        };
        if !pass {
            return false;
        }
        let e: Equation<W> = q.as_query(self.width);
        !e.eval(self.solution.as_slice())
    }

    /// Solves the second pass. The ribbon is exact for every item that the builder was given:
    /// it counts the item as a member exactly if the item is one. There is no ribbon where the
    /// first pass rejects a member, or the rows of the kept items contradict one another.
    pub fn from<T: Filterable<W>>(builder: ExactRibbonBuilder<W, T>) -> (r: Result<
        Self,
        BuildError,
    >)
        requires
            builder.wf(),
        ensures
            match r {
                Ok(ribbon) => {
                    &&& ribbon@.block == builder@.block
                    &&& ribbon@.approx == builder@.approx
                    &&& ribbon@.width == exact_width::<W, T>(builder@)
                    &&& ribbon@.solution.len() == solution_words::<W>(ribbon@.width)
                    &&& !missed::<W, T>(builder@.approx, builder@.inserted)
                    &&& forall|i: int|
                        0 <= i < builder@.inserted.len() ==> ribbon@.contains_item::<W, T>(
                            #[trigger] builder@.inserted[i],
                        ) == builder@.inserted[i].included_spec()
                },
                Err(BuildError::Mismatch { block }) => {
                    &&& block@ == builder@.block
                    &&& missed::<W, T>(builder@.approx, builder@.inserted)
                },
                Err(BuildError::TooLarge { block }) => {
                    &&& block@ == builder@.block
                    &&& !missed::<W, T>(builder@.approx, builder@.inserted)
                    &&& !fits::<W>(exact_width::<W, T>(builder@))
                },
                Err(BuildError::Collision { block }) => {
                    &&& block@ == builder@.block
                    &&& !missed::<W, T>(builder@.approx, builder@.inserted)
                    &&& fits::<W>(exact_width::<W, T>(builder@))
                    &&& !solvable(
                        rows_of::<W, T>(
                            kept::<W, T>(builder@.approx, builder@.inserted),
                            exact_width::<W, T>(builder@),
                        ),
                        solution_words::<W>(exact_width::<W, T>(builder@)),
                    )
                },
            },
    {
        if builder.missed {
            return Err(BuildError::Mismatch { block: builder.block });
        }
        let count: usize = builder.items.len();
        let m: usize = ribbon_width(count);
        let mut solver: RibbonSolver<W> = RibbonSolver::new();
        let mut i: usize = 0;
        while i < count
            invariant
                i <= count,
                count == builder.items@.len(),
                solver@.len() == i,
                forall|k: int|
                    0 <= k < i ==> #[trigger] solver@[k] == builder.items@[k].equation_spec(m)
                        && solver@[k].target == !builder.items@[k].included_spec(),
            decreases count - i,
        {
            let e: Equation<W> = builder.items[i].as_equation(m);
            solver.insert(e);
            i += 1;
        }
        assert(solver@ =~= rows_of::<W, T>(builder.items@, m));
        match solver.build(m) {
            Ok(solved) => {
                let ribbon = ExactRibbon {
                    block: builder.block,
                    approx: builder.approx,
                    width: m,
                    solution: solved.solution,
                };
                proof {
                    let approx = builder@.approx;
                    let inserted = builder@.inserted;
                    assert forall|i: int| 0 <= i < inserted.len() implies ribbon@.contains_item::<
                        W,
                        T,
                    >(#[trigger] inserted[i]) == inserted[i].included_spec() by {
                        let item = inserted[i];
                        if accepted::<W, T>(approx, item) {
                            let j = lemma_kept_member::<W, T>(approx, inserted, i);
                            assert(solver@[j].holds(ribbon@.solution));
                            assert(builder.items@[j] == item);
                            assert(solver@[j] == item.equation_spec(m));
                        } else {
                            assert(!missed::<W, T>(approx, inserted));
                        }
                    }
                }
                Ok(ribbon)
            },
            Err(SolveError::Inconsistent) => Err(BuildError::Collision { block: builder.block }),
            Err(SolveError::TooWide) => Err(BuildError::TooLarge { block: builder.block }),
        }
    }
}

/// The width of the system of the second pass: that for the number of kept items.
pub open spec fn exact_width<const W: usize, T: Filterable<W>>(builder: ExactBuilderView<T>) -> usize {
    width_for(kept::<W, T>(builder.approx, builder.inserted).len() as usize)
}

/// A key that asks about an item gets the answer that the ribbon has for the item.
pub proof fn lemma_query_answers_item<const W: usize, Q: AsQuery<W>, T: Filterable<W>>(
    ribbon: ExactView,
    q: Q,
    item: T,
)
    requires
        asks_about::<W, Q, T>(&q, &item),
    ensures
        ribbon.contains_query::<W, Q>(q) == ribbon.contains_item::<W, T>(item),
{
    assert(q.query_spec(ribbon.width).coeffs == item.equation_spec(ribbon.width).coeffs);
    match ribbon.approx {
        Some(a) => {
            let e1 = q.query_spec(a.width);
            let e2 = item.equation_spec(a.width);
            assert(e1.coeffs == e2.coeffs && e1.start == e2.start);
            assert(a.accepts(e1) == a.accepts(e2)) by {
                assert forall|c: int| 0 <= c < a.columns.len() implies e1.value(a.columns[c])
                    == e2.value(a.columns[c]) by {}
            }
        },
        None => {},
    }
}

} // verus!
