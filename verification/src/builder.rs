//! The builder of the filter: it hands out the builders of the blocks and collects their
//! ribbons.
use crate::approximate::ApproximateRibbon;
use crate::approximate::ApproximateRibbonBuilder;
use crate::approximate::ApproximateView;
use crate::bytes::copy_bytes;
use crate::bytes::same_bytes;
use crate::clubcard::exact_views;
use crate::clubcard::has_block;
use crate::clubcard::Clubcard;
use crate::exact::BuildError;
use crate::exact::ExactBuilderView;
use crate::exact::ExactRibbon;
use crate::exact::ExactRibbonBuilder;
use crate::exact::ExactView;
use crate::query::Filterable;
use crate::query::Queryable;
use vstd::prelude::*;

verus! {

/// The views of the approximate ribbons of a table.
pub open spec fn approximate_views<const W: usize>(table: Seq<ApproximateRibbon<W>>) -> Seq<
    ApproximateView,
> {
    Seq::new(table.len(), |i: int| table[i]@)
}

/// The approximate ribbon of `block` in a table: the last one that came for the block.
pub open spec fn approximate_of(table: Seq<ApproximateView>, block: Seq<u8>) -> Option<
    ApproximateView,
>
    decreases table.len(),
{
    if table.len() == 0 {
        None
    } else if table.last().block == block {
        Some(table.last())
    } else {
        approximate_of(table.drop_last(), block)
    }
}

/// Whether the two tables match: every exact ribbon rests on a first pass, and every block
/// with an approximate ribbon has an exact one.
pub open spec fn tables_match(approx: Seq<ApproximateView>, exact: Seq<ExactView>) -> bool {
    &&& forall|i: int| 0 <= i < exact.len() ==> (#[trigger] exact[i]).approx is Some
    &&& forall|j: int| 0 <= j < approx.len() ==> has_block(exact, (#[trigger] approx[j]).block)
}

/// Whether `block` shows that the two tables do not match.
pub open spec fn mismatch_at(
    approx: Seq<ApproximateView>,
    exact: Seq<ExactView>,
    block: Seq<u8>,
) -> bool {
    ||| exists|i: int|
        0 <= i < exact.len() && (#[trigger] exact[i]).block == block && exact[i].approx is None
    ||| !has_block(exact, block) && exists|j: int|
        0 <= j < approx.len() && (#[trigger] approx[j]).block == block
}

/// How far a builder has come. It ends when `build` takes it.
#[derive(Clone, Copy, Debug, PartialEq, Eq)]
pub enum BuilderState {
    /// No ribbon has been collected.
    CollectingApprox,
    /// Ribbons of the first pass have been collected, none of the second.
    ApproxCollected,
    /// Ribbons of the second pass have been collected.
    CollectingExact,
}

/// How far a builder with the tables `view` has come.
pub open spec fn state_of(view: ClubcardBuilderView) -> BuilderState {
    if view.exact.len() > 0 {
        BuilderState::CollectingExact
    } else if view.approx.len() > 0 {
        BuilderState::ApproxCollected
    } else {
        BuilderState::CollectingApprox
    }
}

/// What a clubcard builder holds: the approximate and the exact ribbons that it has collected,
/// in the order in which they came.
pub struct ClubcardBuilderView {
    pub approx: Seq<ApproximateView>,
    pub exact: Seq<ExactView>,
}

/// Hands out the builders of the blocks and collects their ribbons.
pub struct ClubcardBuilder<const W: usize> {
    pub approx_ribbons: Vec<ApproximateRibbon<W>>,
    pub exact_ribbons: Vec<ExactRibbon<W>>,
}

impl<const W: usize> View for ClubcardBuilder<W> {
    type V = ClubcardBuilderView;

    open spec fn view(&self) -> ClubcardBuilderView {
        ClubcardBuilderView {
            approx: approximate_views(self.approx_ribbons@),
            exact: exact_views(self.exact_ribbons@),
        }
    }
}

impl<const W: usize> ClubcardBuilder<W> {
    /// A builder that has collected nothing.
    pub fn new() -> (builder: Self)
        ensures
            builder@.approx == Seq::<ApproximateView>::empty(),
            builder@.exact == Seq::<ExactView>::empty(),
    {
        let builder = ClubcardBuilder { approx_ribbons: Vec::new(), exact_ribbons: Vec::new() };
        assert(builder@.approx =~= Seq::<ApproximateView>::empty());
        assert(builder@.exact =~= Seq::<ExactView>::empty());
        builder
    }

    /// Tells how far the builder has come.
    pub fn state(&self) -> (state: BuilderState)
        ensures
            state == state_of(self@),
    {
        if self.exact_ribbons.len() > 0 {
            BuilderState::CollectingExact
        } else if self.approx_ribbons.len() > 0 {
            BuilderState::ApproxCollected
        } else {
            BuilderState::CollectingApprox
        }
    }

    /// A builder for the first pass over `block`.
    pub fn get_approx_builder<T: Filterable<W>>(&self, block: &[u8]) -> (builder:
        ApproximateRibbonBuilder<W, T>)
        ensures
            builder@.block == block@,
            builder@.items == Seq::<T>::empty(),
            builder@.universe_size == 0,
    {
        ApproximateRibbonBuilder::new(block)
    }

    /// Takes the ribbons of the first pass into the table.
    pub fn collect_approx_ribbons(&mut self, ribbons: Vec<ApproximateRibbon<W>>)
        ensures
            final(self)@.approx == old(self)@.approx + approximate_views(ribbons@),
            final(self)@.exact == old(self)@.exact,
    {
        let ghost given = ribbons@;
        let mut ribbons = ribbons;
        self.approx_ribbons.append(&mut ribbons);
        assert(self@.approx =~= old(self)@.approx + approximate_views(given));
    }

    /// A builder for the second pass over `block`. It rests on the approximate ribbon that the
    /// table has for the block.
    pub fn get_exact_builder<T: Filterable<W>>(&self, block: &[u8]) -> (builder: ExactRibbonBuilder<
        W,
        T,
    >)
        ensures
            builder.wf(),
            builder@ == (ExactBuilderView::<T> {
                block: block@,
                approx: approximate_of(self@.approx, block@),
                inserted: Seq::empty(),
            }),
    {
        let mut i: usize = self.approx_ribbons.len();
        assert(self@.approx.take(i as int) == self@.approx);
        while i > 0
            invariant
                i <= self.approx_ribbons@.len(),
                approximate_of(self@.approx, block@) == approximate_of(
                    self@.approx.take(i as int),
                    block@,
                ),
            decreases i,
        {
            i -= 1;
            let ghost prefix = self@.approx.take(i + 1);
            assert(prefix.drop_last() == self@.approx.take(i as int));
            assert(prefix.last() == self.approx_ribbons@[i as int]@);
            if same_bytes(self.approx_ribbons[i].block.as_slice(), block) {
                return ExactRibbonBuilder::new(block, Some(self.approx_ribbons[i].duplicate()));
            }
        }
        proof {
            assert(self@.approx.take(0).len() == 0);
        }
        ExactRibbonBuilder::new(block, None)
    }

    /// Takes the ribbons of the second pass into the table.
    pub fn collect_exact_ribbons(&mut self, ribbons: Vec<ExactRibbon<W>>)
        ensures
            final(self)@.exact == old(self)@.exact + exact_views(ribbons@),
            final(self)@.approx == old(self)@.approx,
    {
        let ghost given = ribbons@;
        let mut ribbons = ribbons;
        self.exact_ribbons.append(&mut ribbons);
        assert(self@.exact =~= old(self)@.exact + exact_views(given));
    }

    /// Tells whether the table has an exact ribbon for `block`.
    fn has_exact(&self, block: &[u8]) -> (r: bool)
        ensures
            r == has_block(self@.exact, block@),
    {
        let mut i: usize = 0;
        while i < self.exact_ribbons.len()
            invariant
                i <= self.exact_ribbons@.len(),
                forall|k: int| 0 <= k < i ==> (#[trigger] self@.exact[k]).block != block@,
            decreases self.exact_ribbons.len() - i,
        {
            if same_bytes(self.exact_ribbons[i].block.as_slice(), block) {
                assert(self@.exact[i as int].block == block@);
                return true;
            }
            i += 1;
        }
        false
    }

    /// Makes the filter from the ribbons of the second pass, where the two tables match; else
    /// the error names a block that shows that they do not.
    pub fn build<Q: Queryable<W>>(
        self,
        universe: Q::UniverseMetadata,
        partition: Q::PartitionMetadata,
    ) -> (r: Result<Clubcard<W, Q::UniverseMetadata, Q::PartitionMetadata>, BuildError>)
        ensures
            match r {
                Ok(card) => {
                    &&& tables_match(self@.approx, self@.exact)
                    &&& card@.ribbons == self@.exact
                    &&& card@.universe == universe
                    &&& card@.partition == partition
                },
                Err(BuildError::Mismatch { block }) => {
                    &&& !tables_match(self@.approx, self@.exact)
                    &&& mismatch_at(self@.approx, self@.exact, block@)
                },
                Err(_) => false,
            },
    {
        let mut i: usize = 0;
        while i < self.exact_ribbons.len()
            invariant
                i <= self.exact_ribbons@.len(),
                forall|k: int| 0 <= k < i ==> (#[trigger] self@.exact[k]).approx is Some,
            decreases self.exact_ribbons.len() - i,
        {
            if self.exact_ribbons[i].approx.is_none() {
                assert(self@.exact[i as int].approx is None);
                return Err(
                    BuildError::Mismatch { block: copy_bytes(self.exact_ribbons[i].block.as_slice()) },
                );
            }
            i += 1;
        }
        let mut j: usize = 0;
        while j < self.approx_ribbons.len()
            invariant
                j <= self.approx_ribbons@.len(),
                forall|k: int| 0 <= k < j ==> has_block(self@.exact, (#[trigger] self@.approx[k]).block),
            decreases self.approx_ribbons.len() - j,
        {
            if !self.has_exact(self.approx_ribbons[j].block.as_slice()) {
                assert(self@.approx[j as int].block == self.approx_ribbons@[j as int].block@);
                return Err(
                    BuildError::Mismatch { block: copy_bytes(self.approx_ribbons[j].block.as_slice()) },
                );
            }
            j += 1;
        }
        Ok(Clubcard::from_parts(universe, partition, self.exact_ribbons))
    }
}

} // verus!
