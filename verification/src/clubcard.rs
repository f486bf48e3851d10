//! The filter over all blocks.
use crate::bytes::same_bytes;
use crate::exact::lemma_query_answers_item;
use crate::exact::ExactRibbon;
use crate::exact::ExactView;
use crate::query::asks_about;
use crate::query::AsQuery;
use crate::query::Filterable;
use crate::query::Membership;
use crate::query::Queryable;
use vstd::prelude::*;

verus! {

/// The views of the exact ribbons of a table.
pub open spec fn exact_views<const W: usize>(table: Seq<ExactRibbon<W>>) -> Seq<ExactView> {
    Seq::new(table.len(), |i: int| table[i]@)
}

/// The exact ribbon of `block` in a table: the last one that came for the block.
pub open spec fn exact_of(table: Seq<ExactView>, block: Seq<u8>) -> Option<ExactView>
    decreases table.len(),
{
    if table.len() == 0 {
        None
    } else if table.last().block == block {
        Some(table.last())
    } else {
        exact_of(table.drop_last(), block)
    }
}

/// Whether the table has an exact ribbon for `block`.
pub open spec fn has_block(table: Seq<ExactView>, block: Seq<u8>) -> bool {
    exists|i: int| 0 <= i < table.len() && (#[trigger] table[i]).block == block
}

/// A table has an exact ribbon for a block exactly if the block has a last one.
pub proof fn lemma_exact_of(table: Seq<ExactView>, block: Seq<u8>)
    ensures
        has_block(table, block) <==> exact_of(table, block) is Some,
        exact_of(table, block) matches Some(r) ==> r.block == block && exists|i: int|
            0 <= i < table.len() && #[trigger] table[i] == r,
    decreases table.len(),
{
    if table.len() > 0 {
        let rest = table.drop_last();
        lemma_exact_of(rest, block);
        if table.last().block == block {
            assert(table[table.len() - 1] == table.last());
        } else {
            if has_block(table, block) {
                let i = choose|i: int| 0 <= i < table.len() && (#[trigger] table[i]).block == block;
                assert(rest[i] == table[i]);
            }
            if has_block(rest, block) {
                let i = choose|i: int| 0 <= i < rest.len() && (#[trigger] rest[i]).block == block;
                assert(table[i] == rest[i]);
            }
            if exact_of(rest, block) is Some {
                let r = exact_of(rest, block)->0;
                let i = choose|i: int| 0 <= i < rest.len() && #[trigger] rest[i] == r;
                assert(table[i] == r);
            }
        }
    }
}

/// What a clubcard holds: the exact ribbons of its blocks, each with the first pass that it
/// rests on, and what describes its universe and its blocks.
pub struct ClubcardView<U, P> {
    pub universe: U,
    pub partition: P,
    pub ribbons: Seq<ExactView>,
}

impl<U, P> ClubcardView<U, P> {
    /// The answer of the filter for the key `q`, whether or not the key lies in the universe:
    /// a key of a block without ribbon is no member; else the ribbon of the block decides.
    pub open spec fn unchecked_contains<const W: usize, Q: AsQuery<W>>(self, q: Q) -> bool {
        match exact_of(self.ribbons, q.block_spec()) {
            Some(ribbon) => ribbon.contains_query::<W, Q>(q),
            None => false,
        }
    }

    /// The answer of the filter for the key `q`: outside the universe whatever the ribbons
    /// say, else as the ribbons say.
    pub open spec fn contains<
        const W: usize,
        Q: Queryable<W, UniverseMetadata = U, PartitionMetadata = P>,
    >(self, q: Q) -> Membership {
        if !q.in_universe_spec(&self.universe) {
            Membership::NotInUniverse
        } else if self.unchecked_contains::<W, Q>(q) {
            Membership::Member
        } else {
            Membership::Nonmember
        }
    }
}

/// The filter. It never changes once it is built.
pub struct Clubcard<const W: usize, U, P> {
    universe: U,
    partition: P,
    ribbons: Vec<ExactRibbon<W>>,
}

impl<const W: usize, U, P> View for Clubcard<W, U, P> {
    type V = ClubcardView<U, P>;

    closed spec fn view(&self) -> ClubcardView<U, P> {
        ClubcardView {
            universe: self.universe,
            partition: self.partition,
            ribbons: exact_views(self.ribbons@),
        }
    }
}

impl<const W: usize, U, P> Clubcard<W, U, P> {
    /// The filter that holds the given parts.
    pub fn from_parts(universe: U, partition: P, ribbons: Vec<ExactRibbon<W>>) -> (card: Self)
        ensures
            card@ == (ClubcardView { universe, partition, ribbons: exact_views(ribbons@) }),
    {
        Clubcard { universe, partition, ribbons }
    }

    /// What describes the universe of the filter.
    pub fn universe(&self) -> (universe: &U)
        ensures
            *universe == self@.universe,
    {
        &self.universe
    }

    /// What describes the blocks of the filter.
    pub fn partition(&self) -> (partition: &P)
        ensures
            *partition == self@.partition,
    {
        &self.partition
    }

    /// The ribbons of the filter, in the order in which they were collected.
    pub fn ribbons(&self) -> (ribbons: &Vec<ExactRibbon<W>>)
        ensures
            exact_views(ribbons@) == self@.ribbons,
    {
        &self.ribbons
    }

    /// Tells whether the filter counts the key as a member, without asking whether the key
    /// lies in the universe. A key of a block that the filter has no ribbon for is no member.
    pub fn unchecked_contains<Q: AsQuery<W>>(&self, q: &Q) -> (r: bool)
        ensures
            r == self@.unchecked_contains::<W, Q>(*q),
            !has_block(self@.ribbons, q.block_spec()) ==> !r,
    {
        let block = q.block();
        proof {
            lemma_exact_of(self@.ribbons, q.block_spec());
        }
        let mut i: usize = self.ribbons.len();
        assert(self@.ribbons.take(i as int) == self@.ribbons);
        while i > 0
            invariant
                i <= self.ribbons@.len(),
                block@ == q.block_spec(),
                exact_of(self@.ribbons, block@) == exact_of(self@.ribbons.take(i as int), block@),
            decreases i,
        {
            i -= 1;
            let ghost prefix = self@.ribbons.take(i + 1);
            assert(prefix.drop_last() == self@.ribbons.take(i as int));
            assert(prefix.last() == self.ribbons@[i as int]@);
            if same_bytes(self.ribbons[i].block.as_slice(), block) {
                return self.ribbons[i].contains(q);
            }
        }
        proof {
            assert(self@.ribbons.take(0).len() == 0);
        }
        false
    }

    /// Answers the key `q`: outside the universe whatever the ribbons say, else as the ribbons
    /// say.
    pub fn contains<Q: Queryable<W, UniverseMetadata = U, PartitionMetadata = P>>(&self, q: &Q) -> (r:
        Membership)
        ensures
            r == self@.contains::<W, Q>(*q),
            !q.in_universe_spec(&self@.universe) ==> r == Membership::NotInUniverse,
    {
        if !q.in_universe(&self.universe) {
            Membership::NotInUniverse
        } else if self.unchecked_contains(q) {
            Membership::Member
        } else {
            Membership::Nonmember
        }
    }
}

/// The second pass is exact in the filter: where the ribbon that the filter has for the
/// block of an item gives the item its ground truth, the filter gives that answer to every key
/// that asks about the item.
pub proof fn lemma_exact_phase_sound<const W: usize, U, P, Q: AsQuery<W>, T: Filterable<W>>(
    card: ClubcardView<U, P>,
    q: Q,
    item: T,
)
    requires
        asks_about::<W, Q, T>(&q, &item),
        exact_of(card.ribbons, item.block_id_spec()) matches Some(ribbon)
            && ribbon.contains_item::<W, T>(item) == item.included_spec(),
    ensures
        card.unchecked_contains::<W, Q>(q) == item.included_spec(),
{
    let ribbon = exact_of(card.ribbons, item.block_id_spec())->0;
    lemma_query_answers_item::<W, Q, T>(ribbon, q, item);
}

} // verus!
