//! Active learning of deterministic finite acceptors with Angluin's L* algorithm.
//!
//! A learner asks a target acceptor membership queries to fill an observation
//! table, repairs the table until it is consistent and closed, builds a
//! hypothesis from it and checks that hypothesis against the target on every
//! word up to a bound, refining the table with each counterexample.
use vstd::prelude::*;

pub mod acceptor;
pub mod learner;
pub mod table;
pub mod word;

pub use acceptor::{RunError, DFA};
pub use learner::{learn, learn_within, LearnError};
pub use table::{ObservationTable, TableError};
pub use word::{Symbol, Word};

verus! {

} // verus!
