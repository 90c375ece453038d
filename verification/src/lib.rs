//! Finite automata: deterministic and nondeterministic automata over
//! characters, membership queries, and the usual algebra on deterministic
//! automata (union, intersection, complement, equivalence, minimization).
//!
//! Every operation carries a contract over a mathematical model of the
//! automaton, and the contract is proved.

use vstd::prelude::*;

pub mod alphabet;
pub mod dfa;
pub mod dfa_model;
pub mod error;
pub mod minimize;
pub mod nfa;
pub mod nfa_model;
pub mod refinement;
pub mod state_set;

pub use dfa::DFA;
pub use error::ConstructionError;
pub use nfa::{epsilons, TransitionTable, NFA};
pub use state_set::StateSet;

verus! {

/// A state transition: (current state, symbol, next state).
pub type Transition = (usize, char, usize);

/// What every automaton can do: decide whether it accepts a word.
pub trait Run {
    /// What the automaton decides of `word`: `Some(true)` where it accepts
    /// the word, `Some(false)` where it rejects it, `None` where the word is
    /// not one that the automaton can read.
    spec fn outcome(&self, word: Seq<char>) -> Option<bool>;

    /// Decides whether the automaton accepts `string`.
    fn run(&self, string: &str) -> (r: Option<bool>)
        ensures
            r == self.outcome(string@),
    ;
}

/// What an automaton decides depends on the automaton and the word alone:
/// two runs on one word give one outcome.
pub proof fn lemma_run_deterministic<A: Run>(automaton: &A, word: Seq<char>, first: Option<bool>, second: Option<bool>)
    requires
        first == automaton.outcome(word),
        second == automaton.outcome(word),
    ensures
        first == second,
{
}

} // verus!
