//! An ordered map keyed by `u64`, implemented as a self-balancing binary
//! search tree using the AVL balancing discipline.
//!
//! The tree is modelled as a `Map<u64, V>`; every public operation carries a
//! contract over that model, and the structural invariants (binary-search
//! order, exact height bookkeeping, and the AVL balance bound) are captured by
//! [`AvlTree::well_formed`], which every operation preserves.

mod balance;
mod insert;
mod iter;
mod laws;
mod lookup;
mod remove;
mod tree;

pub use iter::Iter;
pub use laws::fib;
pub use laws::lemma_insert_then_get;
pub use tree::AvlTree;
