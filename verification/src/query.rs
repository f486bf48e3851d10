//! What the filter asks of the items it is built from and of the keys it is queried with.
use crate::equation::Equation;
use vstd::prelude::*;

verus! {

/// Whether two rows have the same start and the same coefficients, whatever their targets.
pub open spec fn same_row<const W: usize>(e1: Equation<W>, e2: Equation<W>) -> bool {
    e1.start == e2.start && e1.coeffs == e2.coeffs
}

/// An item of the set that a filter is built from.
pub trait Filterable<const W: usize> {
    /// The row that stands for the item in a system of width `m`.
    spec fn equation_spec(&self, m: usize) -> Equation<W>;

    /// The block that the item belongs to.
    spec fn block_id_spec(&self) -> Seq<u8>;

    /// What tells the item from the others of its block.
    spec fn discriminant_spec(&self) -> Seq<u8>;

    /// Whether the item is a member of the set.
    spec fn included_spec(&self) -> bool;

    /// The row that stands for the item in a system of width `m`. Its target is zero for a
    /// member and one for any other item.
    fn as_equation(&self, m: usize) -> (e: Equation<W>)
        ensures
            e == self.equation_spec(m),
            e.target == !self.included_spec(),
    ;

    /// The block that the item belongs to.
    fn block_id(&self) -> (b: &[u8])
        ensures
            b@ == self.block_id_spec(),
    ;

    /// What tells the item from the others of its block.
    fn discriminant(&self) -> (d: &[u8])
        ensures
            d@ == self.discriminant_spec(),
    ;

    /// Whether the item is a member of the set.
    fn included(&self) -> (r: bool)
        ensures
            r == self.included_spec(),
    ;
}

/// A key that a filter can be asked about.
pub trait AsQuery<const W: usize> {
    /// The block that the key belongs to.
    spec fn block_spec(&self) -> Seq<u8>;

    /// The row that stands for the key in a system of width `m`.
    spec fn query_spec(&self, m: usize) -> Equation<W>;

    /// What tells the key from the others of its block.
    spec fn discriminant_spec(&self) -> Seq<u8>;

    /// The block that the key belongs to.
    fn block(&self) -> (b: &[u8])
        ensures
            b@ == self.block_spec(),
    ;

    /// The row that stands for the key in a system of width `m`.
    fn as_query(&self, m: usize) -> (e: Equation<W>)
        ensures
            e == self.query_spec(m),
    ;

    /// What tells the key from the others of its block.
    fn discriminant(&self) -> (d: &[u8])
        ensures
            d@ == self.discriminant_spec(),
    ;
}

/// A key that knows whether the filter's answer for it can be relied on.
pub trait Queryable<const W: usize>: AsQuery<W> {
    /// What describes the keys that the publisher vouches for.
    type UniverseMetadata;

    /// What describes how the keys are split into blocks.
    type PartitionMetadata;

    /// Whether the key lies in the universe that `universe` describes.
    spec fn in_universe_spec(&self, universe: &Self::UniverseMetadata) -> bool;

    /// Whether the key lies in the universe that `universe` describes.
    fn in_universe(&self, universe: &Self::UniverseMetadata) -> (r: bool)
        ensures
            r == self.in_universe_spec(universe),
    ;
}

/// The answer of a filter.
#[derive(Clone, Copy, Debug, PartialEq, Eq)]
pub enum Membership {
    /// The key is in the set.
    Member,
    /// The key is in the universe, and not in the set.
    Nonmember,
    /// The key is outside the universe: the filter's bit says nothing of it.
    NotInUniverse,
}

/// Whether the key `q` asks about the item `t`: both lie in the same block and give the same
/// row at every width.
pub open spec fn asks_about<const W: usize, Q: AsQuery<W>, T: Filterable<W>>(q: &Q, t: &T) -> bool {
    &&& q.block_spec() == t.block_id_spec()
    &&& forall|m: usize| same_row(#[trigger] q.query_spec(m), t.equation_spec(m))
}

} // verus!
