//! A clubcard publishes a large set, split into blocks, as a compact filter that is exact for
//! every item that its publisher vouches for. For each block two linear systems over GF(2) are
//! solved: the first accepts every member of the block and few of the other items; the second
//! tells, for what the first accepts, the members from the others. A key outside the universe
//! of the publisher gets an answer of its own.
pub mod approximate;
pub mod bits;
pub mod builder;
pub mod bytes;
pub mod clubcard;
pub mod crlite;
pub mod equation;
pub mod exact;
pub mod query;
pub mod ribbon;
