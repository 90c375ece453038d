//! Deterministic finite automata.

use vstd::prelude::*;
use vstd::set_lib::{lemma_int_range, lemma_len_subset, lemma_subset_equality, set_int_range};
use crate::alphabet::{
    ascending, column_map, find_symbol, first_index, is_first_index, lemma_first_index,
    lemma_first_index_no_duplicates, lemma_listed_symbol, sorted_symbols,
};
use crate::dfa_model::{
    combine, equivalent, is_product, lemma_closed_set_holds_reachable, lemma_complement_run, lemma_pair_is_state,
    lemma_product_language, lemma_reachable_step, lemma_run_from_total, lemma_same_validity, lemma_start_reachable,
    negate, pair_id,
    DfaView,
};
use crate::error::ConstructionError;
use crate::state_set::StateSet;
use crate::Run;
use crate::Transition;

verus! {

/// The fault of the `i`-th transition of a deterministic automaton with `n`
/// states, given the transitions before it; `None` where it has none.
pub open spec fn dfa_transition_fault(
    n: usize,
    alphabet: Seq<char>,
    ts: Seq<Transition>,
    i: int,
) -> Option<ConstructionError> {
    let (from, symbol, to) = ts[i];
    if !alphabet.contains(symbol) {
        Some(ConstructionError::UnknownSymbol { symbol })
    } else if from >= n {
        Some(ConstructionError::UnknownState { from, symbol, to, state: from })
    } else if to >= n {
        Some(ConstructionError::UnknownState { from, symbol, to, state: to })
    } else if exists|j: int| 0 <= j < i && (#[trigger] ts[j]).0 == from && ts[j].1 == symbol {
        Some(ConstructionError::DuplicateOrMissingTransition { from, symbol, to })
    } else {
        None
    }
}

/// The fault of the first faulty transition at or after position `i`.
pub open spec fn dfa_first_fault(
    n: usize,
    alphabet: Seq<char>,
    ts: Seq<Transition>,
    i: int,
) -> Option<ConstructionError>
    decreases ts.len() - i,
{
    if i < 0 || i >= ts.len() {
        None
    } else if dfa_transition_fault(n, alphabet, ts, i) is Some {
        dfa_transition_fault(n, alphabet, ts, i)
    } else {
        dfa_first_fault(n, alphabet, ts, i + 1)
    }
}

/// Where no transition has a fault, there is no first fault.
pub proof fn lemma_no_fault(n: usize, alphabet: Seq<char>, ts: Seq<Transition>, i: int)
    requires
        forall|t: int| 0 <= t < ts.len() ==> dfa_transition_fault(n, alphabet, ts, t) is None,
    ensures
        dfa_first_fault(n, alphabet, ts, i) is None,
    decreases ts.len() - i,
{
    if 0 <= i < ts.len() {
        lemma_no_fault(n, alphabet, ts, i + 1);
    }
}

/// Why a description of a deterministic automaton is refused, if it is: the
/// number of transitions is checked first, then the start state, then the
/// transitions in the order given.
pub open spec fn dfa_fault(
    n: usize,
    alphabet: Seq<char>,
    ts: Seq<Transition>,
    start: usize,
) -> Option<ConstructionError> {
    if ts.len() != n * alphabet.len() {
        Some(ConstructionError::ShapeError)
    } else if start >= n {
        Some(ConstructionError::InvalidStart)
    } else {
        dfa_first_fault(n, alphabet, ts, 0)
    }
}

/// A faulty transition makes for a first fault at or before it.
pub proof fn lemma_fault_found(n: usize, alphabet: Seq<char>, ts: Seq<Transition>, i: int, t: int)
    requires
        0 <= i <= t < ts.len(),
        dfa_transition_fault(n, alphabet, ts, t) is Some,
    ensures
        dfa_first_fault(n, alphabet, ts, i) is Some,
    decreases t - i,
{
    if dfa_transition_fault(n, alphabet, ts, i) is None {
        lemma_fault_found(n, alphabet, ts, i + 1, t);
    }
}

/// A description with another number of transitions than one for each state
/// and symbol is refused.
pub proof fn lemma_wrong_count_refused(n: usize, alphabet: Seq<char>, ts: Seq<Transition>, start: usize)
    requires
        ts.len() != n * alphabet.len(),
    ensures
        dfa_fault(n, alphabet, ts, start) == Some(ConstructionError::ShapeError),
{
}

/// A description in which two transitions leave one state on one symbol is
/// refused.
pub proof fn lemma_repeated_pair_refused(
    n: usize,
    alphabet: Seq<char>,
    ts: Seq<Transition>,
    start: usize,
    i: int,
    j: int,
)
    requires
        0 <= i < j < ts.len(),
        ts[i].0 == ts[j].0,
        ts[i].1 == ts[j].1,
    ensures
        dfa_fault(n, alphabet, ts, start) is Some,
{
    assert(dfa_transition_fault(n, alphabet, ts, j) is Some);
    lemma_fault_found(n, alphabet, ts, 0, j);
}

/// In a transition table in ascending order, `a` stands before `b`: it
/// leaves a state with a smaller number, or the same state on a smaller
/// symbol.
pub open spec fn precedes(a: Transition, b: Transition) -> bool {
    a.0 < b.0 || (a.0 == b.0 && a.1 < b.1)
}

/// `list` has a transition that leaves `s` on `c`.
pub open spec fn has_entry(list: Seq<Transition>, s: int, c: char) -> bool {
    exists|i: int| 0 <= i < list.len() && (#[trigger] list[i]).0 == s && list[i].1 == c
}

/// The members of `accept` that are states of an automaton with `n` states.
pub open spec fn accept_set(n: usize, accept: Seq<usize>) -> Set<int> {
    Set::new(|s: int| 0 <= s < n && exists|i: int| 0 <= i < accept.len() && #[trigger] accept[i] == s)
}

/// The cells of a table of `n` rows of `k` cells, counted row by row: cell
/// `j` of row `s` has a number below `n * k`.
pub proof fn lemma_flat_bound(s: int, j: int, n: int, k: int)
    requires
        0 <= s < n,
        0 <= j < k,
    ensures
        0 <= s * k + j < n * k,
        s * k + k <= n * k,
{
    assert(s * k + k <= n * k) by (nonlinear_arith)
        requires
            0 <= s < n,
            0 <= k,
    ;
    assert(0 <= s * k) by (nonlinear_arith)
        requires
            0 <= s,
            0 <= k,
    ;
}

/// Two cells with one number are one cell.
pub proof fn lemma_flat_injective(s1: int, j1: int, s2: int, j2: int, k: int)
    requires
        0 <= j1 < k,
        0 <= j2 < k,
        0 <= s1,
        0 <= s2,
        s1 * k + j1 == s2 * k + j2,
    ensures
        s1 == s2,
        j1 == j2,
{
    if s1 < s2 {
        assert(s1 * k + k <= s2 * k) by (nonlinear_arith)
            requires
                s1 < s2,
                0 <= k,
        ;
    } else if s2 < s1 {
        assert(s2 * k + k <= s1 * k) by (nonlinear_arith)
            requires
                s2 < s1,
                0 <= k,
        ;
    }
}

/// A table of `n` rows of `k` entries, all zero.
fn blank_table(n: usize, k: usize) -> (table: Vec<Vec<usize>>)
    ensures
        table@.len() == n,
        forall|s: int| 0 <= s < n ==> (#[trigger] table@[s])@.len() == k,
        forall|s: int, j: int| 0 <= s < n && 0 <= j < k ==> (#[trigger] table@[s]@[j]) == 0,
{
    let mut table: Vec<Vec<usize>> = Vec::new();
    while table.len() < n
        invariant
            table@.len() <= n,
            forall|s: int| 0 <= s < table@.len() ==> (#[trigger] table@[s])@.len() == k,
            forall|s: int, j: int| 0 <= s < table@.len() && 0 <= j < k ==> (#[trigger] table@[s]@[j]) == 0,
        decreases n - table@.len(),
    {
        let mut row: Vec<usize> = Vec::new();
        while row.len() < k
            invariant
                row@.len() <= k,
                forall|j: int| 0 <= j < row@.len() ==> row@[j] == 0,
            decreases k - row@.len(),
        {
            row.push(0);
        }
        table.push(row);
    }
    table
}

/// The set of the entries of `accept` that are below `n`.
fn accepting_states(n: usize, accept: &Vec<usize>) -> (set: StateSet)
    ensures
        set.capacity() == n,
        set@ == accept_set(n, accept@),
{
    let mut set = StateSet::new(n);
    let mut i: usize = 0;
    while i < accept.len()
        invariant
            i <= accept@.len(),
            set.capacity() == n,
            forall|s: int|
                set@.contains(s) <==> 0 <= s < n && exists|t: int| 0 <= t < i && #[trigger] accept@[t] == s,
        decreases accept@.len() - i,
    {
        let a = accept[i];
        if a < n {
            set.insert(a);
        }
        i += 1;
    }
    assert(set@ =~= accept_set(n, accept@));
    set
}

/// Pairs are numbered row by row: a pair that comes before `(i, j)` has a
/// smaller number.
pub proof fn lemma_pair_order(a: int, b: int, i: int, j: int, n2: int)
    requires
        0 <= a,
        0 <= b < n2,
        0 <= j < n2,
        a < i || a == i && b <= j,
    ensures
        0 <= pair_id(a, b, n2) <= pair_id(i, j, n2),
        pair_id(a, b, n2) == pair_id(i, j, n2) <==> a == i && b == j,
{
    if a < i {
        assert(a * n2 + n2 <= i * n2) by (nonlinear_arith)
            requires
                a < i,
                0 <= n2,
        ;
    }
    assert(0 <= a * n2) by (nonlinear_arith)
        requires
            0 <= a,
            0 <= n2,
    ;
}

/// A copy of a transition table.
fn copy_table(table: &Vec<Vec<usize>>) -> (copy: Vec<Vec<usize>>)
    ensures
        copy@.len() == table@.len(),
        forall|s: int| 0 <= s < table@.len() ==> (#[trigger] copy@[s])@ == table@[s]@,
{
    let mut copy: Vec<Vec<usize>> = Vec::new();
    let mut s: usize = 0;
    while s < table.len()
        invariant
            s <= table@.len(),
            copy@.len() == s,
            forall|t: int| 0 <= t < s ==> (#[trigger] copy@[t])@ == table@[t]@,
        decreases table@.len() - s,
    {
        copy.push(table[s].clone());
        s += 1;
    }
    copy
}

/// A deterministic finite automaton.
///
/// It has a set of states, numbered from 0, and an alphabet of symbols; from
/// each state there is exactly one transition on each symbol. It reads a word
/// symbol by symbol from the start state, and accepts the word if it ends in
/// an accepting state.
pub struct DFA {
    num_states: usize,
    alphabet: Vec<char>,
    start: usize,
    accept: StateSet,
    table: Vec<Vec<usize>>,
}

impl View for DFA {
    type V = DfaView;

    closed spec fn view(&self) -> DfaView {
        DfaView {
            num_states: self.num_states as nat,
            alphabet: self.alphabet@,
            start: self.start as int,
            accept: self.accept@,
            delta: Map::new(
                |k: (int, char)| 0 <= k.0 < self.num_states && self.alphabet@.contains(k.1),
                |k: (int, char)| self.table@[k.0]@[first_index(self.alphabet@, k.1)] as int,
            ),
        }
    }
}

impl DFA {
    #[verifier::type_invariant]
    spec fn inv(&self) -> bool {
        &&& self.start < self.num_states
        &&& self.alphabet@.no_duplicates()
        &&& self.accept.capacity() == self.num_states
        &&& self.table@.len() == self.num_states
        &&& forall|s: int| 0 <= s < self.num_states ==> (#[trigger] self.table@[s])@.len() == self.alphabet@.len()
        &&& forall|s: int, j: int|
            0 <= s < self.num_states && 0 <= j < self.alphabet@.len() ==> (#[trigger] self.table@[s]@[j])
                < self.num_states
    }

    /// The model of a value that meets the type's invariant is well formed.
    proof fn lemma_inv_wf(&self)
        requires
            self.inv(),
        ensures
            self@.wf(),
    {
        let m = self@;
        self.accept.lemma_bounded();
        assert forall|s: int, c: char| m.is_state(s) && m.has_symbol(c) implies m.is_state(
            #[trigger] m.step(s, c),
        ) by {
            let j = choose|j: int| 0 <= j < self.alphabet@.len() && self.alphabet@[j] == c;
            lemma_first_index_no_duplicates(self.alphabet@, j);
            assert(self.table@[s]@[j] < self.num_states);
        }
    }

    /// Builds an automaton with `num_states` states from a list of
    /// transitions.
    ///
    /// The description is refused unless it gives exactly one transition for
    /// each state and symbol; `dfa_fault` says which refusal comes. Entries
    /// of `accept` that are not states are ignored.
    pub fn new(
        num_states: usize,
        alphabet: &Vec<char>,
        transitions: &Vec<Transition>,
        start: usize,
        accept: &Vec<usize>,
    ) -> (r: Result<DFA, ConstructionError>)
        ensures
            match r {
                Ok(d) => {
                    &&& dfa_fault(num_states, alphabet@, transitions@, start) is None
                    &&& d@.wf()
                    &&& d@.num_states == num_states
                    &&& d@.alphabet == alphabet@
                    &&& d@.start == start
                    &&& d@.accept == accept_set(num_states, accept@)
                    &&& forall|i: int|
                        0 <= i < transitions@.len() ==> d@.step(
                            (#[trigger] transitions@[i]).0 as int,
                            transitions@[i].1,
                        ) == transitions@[i].2
                    &&& forall|s: int, c: char|
                        d@.is_state(s) && d@.has_symbol(c) ==> #[trigger] has_entry(transitions@, s, c)
                },
                Err(e) => dfa_fault(num_states, alphabet@, transitions@, start) == Some(e),
            },
    {
        let k = alphabet.len();
        let given = transitions.len();
        let size = match num_states.checked_mul(k) {
            Some(size) => size,
            None => {
                assert(transitions@.len() != num_states * alphabet@.len());
                return Err(ConstructionError::ShapeError);
            },
        };
        if given != size {
            return Err(ConstructionError::ShapeError);
        }
        if start >= num_states {
            return Err(ConstructionError::InvalidStart);
        }
        let mut table = blank_table(num_states, k);
        let mut filled = StateSet::new(size);
        let mut i: usize = 0;
        while i < transitions.len()
            invariant
                i <= transitions@.len(),
                k == alphabet@.len(),
                size == num_states * k,
                start < num_states,
                transitions@.len() == size,
                filled.capacity() == size,
                filled@.finite(),
                filled@.len() == i,
                table@.len() == num_states,
                forall|s: int| 0 <= s < num_states ==> (#[trigger] table@[s])@.len() == k,
                forall|s: int, j: int|
                    0 <= s < num_states && 0 <= j < k ==> (#[trigger] table@[s]@[j]) < num_states,
                forall|t: int| 0 <= t < i ==> dfa_transition_fault(num_states, alphabet@, transitions@, t) is None,
                forall|t: int|
                    0 <= t < i ==> filled@.contains(
                        (#[trigger] transitions@[t]).0 * k + first_index(alphabet@, transitions@[t].1),
                    ),
                forall|t: int|
                    0 <= t < i ==> table@[(#[trigger] transitions@[t]).0 as int]@[first_index(
                        alphabet@,
                        transitions@[t].1,
                    )] == transitions@[t].2,
                forall|x: int| #[trigger]
                    filled@.contains(x) ==> exists|t: int|
                        0 <= t < i && x == (#[trigger] transitions@[t]).0 * k + first_index(
                            alphabet@,
                            transitions@[t].1,
                        ),
                dfa_first_fault(num_states, alphabet@, transitions@, 0) == dfa_first_fault(
                    num_states,
                    alphabet@,
                    transitions@,
                    i as int,
                ),
            decreases transitions@.len() - i,
        {
            let (from, symbol, to) = transitions[i];
            assert(dfa_first_fault(num_states, alphabet@, transitions@, i as int) == if dfa_transition_fault(
                num_states,
                alphabet@,
                transitions@,
                i as int,
            ) is Some {
                dfa_transition_fault(num_states, alphabet@, transitions@, i as int)
            } else {
                dfa_first_fault(num_states, alphabet@, transitions@, i + 1)
            });
            let j = match find_symbol(alphabet, symbol) {
                Some(j) => j,
                None => {
                    return Err(ConstructionError::UnknownSymbol { symbol });
                },
            };
            if from >= num_states {
                return Err(ConstructionError::UnknownState { from, symbol, to, state: from });
            }
            if to >= num_states {
                return Err(ConstructionError::UnknownState { from, symbol, to, state: to });
            }
            proof {
                lemma_flat_bound(from as int, j as int, num_states as int, k as int);
            }
            let cell = from * k + j;
            let ghost seen = exists|t: int|
                0 <= t < i && (#[trigger] transitions@[t]).0 == from && transitions@[t].1 == symbol;
            proof {
                if filled@.contains(cell as int) {
                    let t = choose|t: int|
                        0 <= t < i && cell == (#[trigger] transitions@[t]).0 * k + first_index(
                            alphabet@,
                            transitions@[t].1,
                        );
                    assert(dfa_transition_fault(num_states, alphabet@, transitions@, t) is None);
                    let c = transitions@[t].1;
                    let ft = first_index(alphabet@, c);
                    lemma_listed_symbol(alphabet@, c);
                    lemma_flat_injective(from as int, j as int, transitions@[t].0 as int, ft, k as int);
                    assert(seen);
                }
                if seen {
                    let t = choose|t: int|
                        0 <= t < i && (#[trigger] transitions@[t]).0 == from && transitions@[t].1 == symbol;
                    assert(filled@.contains(transitions@[t].0 * k + first_index(alphabet@, transitions@[t].1)));
                }
            }
            if filled.contains(cell) {
                return Err(ConstructionError::DuplicateOrMissingTransition { from, symbol, to });
            }
            assert(dfa_transition_fault(num_states, alphabet@, transitions@, i as int) is None);
            filled.insert(cell);
            table[from][j] = to;
            proof {
                assert forall|t: int| 0 <= t < i + 1 implies table@[(#[trigger] transitions@[t]).0 as int]@[first_index(
                    alphabet@,
                    transitions@[t].1,
                )] == transitions@[t].2 by {
                    if t < i {
                        let c = transitions@[t].1;
                        let ft = first_index(alphabet@, c);
                        assert(dfa_transition_fault(num_states, alphabet@, transitions@, t) is None);
                        lemma_listed_symbol(alphabet@, c);
                        if transitions@[t].0 == from && ft == j {
                            assert(alphabet@[ft] == c);
                            assert(seen);
                        }
                    }
                }
                assert forall|x: int| #[trigger] filled@.contains(x) implies exists|t: int|
                    0 <= t < i + 1 && x == (#[trigger] transitions@[t]).0 * k + first_index(
                        alphabet@,
                        transitions@[t].1,
                    ) by {
                    if x == cell {
                        assert(x == transitions@[i as int].0 * k + first_index(alphabet@, transitions@[i as int].1));
                    } else {
                        let t = choose|t: int|
                            0 <= t < i && x == (#[trigger] transitions@[t]).0 * k + first_index(
                                alphabet@,
                                transitions@[t].1,
                            );
                        assert(0 <= t < i + 1);
                    }
                }
            }
            i += 1;
        }
        let accept_states = accepting_states(num_states, accept);
        proof {
            // Every cell was filled, each by its own transition.
            lemma_int_range(0, size as int);
            filled.lemma_bounded();
            assert(filled@.subset_of(set_int_range(0, size as int)));
            lemma_subset_equality(filled@, set_int_range(0, size as int));
            assert forall|j: int| 0 <= j < k implies is_first_index(alphabet@, alphabet@[j], j) by {
                lemma_flat_bound(0, j, num_states as int, k as int);
                assert(set_int_range(0, size as int).contains(0 * k + j));
                assert(filled@.contains(0 * k + j));
                let t = choose|t: int|
                    0 <= t < i && 0 * k + j == (#[trigger] transitions@[t]).0 * k + first_index(
                        alphabet@,
                        transitions@[t].1,
                    );
                let c = transitions@[t].1;
                assert(dfa_transition_fault(num_states, alphabet@, transitions@, t) is None);
                lemma_listed_symbol(alphabet@, c);
                lemma_flat_injective(0, j, transitions@[t].0 as int, first_index(alphabet@, c), k as int);
            }
            assert(alphabet@.no_duplicates()) by {
                assert forall|a: int, b: int|
                    0 <= a < alphabet@.len() && 0 <= b < alphabet@.len() && a != b implies alphabet@[a]
                    != alphabet@[b] by {
                    assert(is_first_index(alphabet@, alphabet@[a], a));
                    assert(is_first_index(alphabet@, alphabet@[b], b));
                }
            }
        }
        let d = DFA { num_states, alphabet: alphabet.clone(), start, accept: accept_states, table };
        proof {
            d.lemma_inv_wf();
            assert(d@.alphabet == alphabet@);
            assert forall|t: int| 0 <= t < transitions@.len() implies d@.step(
                (#[trigger] transitions@[t]).0 as int,
                transitions@[t].1,
            ) == transitions@[t].2 by {
                assert(dfa_transition_fault(num_states, alphabet@, transitions@, t) is None);
            }
            assert forall|s: int, c: char| d@.is_state(s) && d@.has_symbol(c) implies #[trigger] has_entry(
                transitions@,
                s,
                c,
            ) by {
                let j = choose|j: int| 0 <= j < alphabet@.len() && alphabet@[j] == c;
                lemma_first_index_no_duplicates(alphabet@, j);
                lemma_flat_bound(s, j, num_states as int, k as int);
                assert(set_int_range(0, size as int).contains(s * k + j));
                assert(filled@.contains(s * k + j));
                let t = choose|t: int|
                    0 <= t < i && s * k + j == (#[trigger] transitions@[t]).0 * k + first_index(
                        alphabet@,
                        transitions@[t].1,
                    );
                let ct = transitions@[t].1;
                assert(dfa_transition_fault(num_states, alphabet@, transitions@, t) is None);
                lemma_listed_symbol(alphabet@, ct);
                lemma_flat_injective(s, j, transitions@[t].0 as int, first_index(alphabet@, ct), k as int);
            }
        }
        Ok(d)
    }

    /// The product of two automata over the same symbols: it runs both side
    /// by side, and the pair of states `(i, j)` accepts where `f` says so
    /// of whether `i` and `j` accept.
    ///
    /// Returns `None` if the two do not read the same symbols.
    pub fn dfa_product<F: Fn(bool, bool) -> bool>(d1: &DFA, d2: &DFA, f: F) -> (r: Option<DFA>)
        requires
            forall|x: bool, y: bool| call_requires(f, (x, y)),
            d1@.num_states * d2@.num_states <= usize::MAX,
        ensures
            d1@.wf(),
            d2@.wf(),
            r is Some <==> d1@.same_symbols(d2@),
            r matches Some(p) ==> {
                &&& is_product(p@, d1@, d2@)
                &&& forall|i: int, j: int|
                    d1@.is_state(i) && d2@.is_state(j) ==> call_ensures(
                        f,
                        (d1@.accept.contains(i), d2@.accept.contains(j)),
                        p@.accept.contains(#[trigger] pair_id(i, j, d2@.num_states as int)),
                    )
            },
    {
        proof {
            use_type_invariant(d1);
            use_type_invariant(d2);
            d1.lemma_inv_wf();
            d2.lemma_inv_wf();
        }
        let cols = match column_map(&d1.alphabet, &d2.alphabet) {
            Some(cols) => cols,
            None => {
                proof {
                    if d1@.same_symbols(d2@) {
                        assert forall|c: char| d1.alphabet@.contains(c) <==> d2.alphabet@.contains(c) by {
                            assert(d1@.has_symbol(c) <==> d2@.has_symbol(c));
                        }
                    }
                }
                return None;
            },
        };
        let n1 = d1.num_states;
        let n2 = d2.num_states;
        let k = d1.alphabet.len();
        let n = n1 * n2;
        let mut accept = StateSet::new(n);
        let mut table: Vec<Vec<usize>> = Vec::new();
        let mut i: usize = 0;
        while i < n1
            invariant
                i <= n1,
                d1.inv(),
                d2.inv(),
                n1 == d1.num_states,
                n2 == d2.num_states,
                k == d1.alphabet@.len(),
                n == n1 * n2,
                cols@.len() == k,
                forall|t: int| 0 <= t < k ==> is_first_index(d2.alphabet@, d1.alphabet@[t], #[trigger] cols@[t] as int),
                forall|x: bool, y: bool| call_requires(f, (x, y)),
                accept.capacity() == n,
                table@.len() == i * n2,
                forall|s: int| 0 <= s < table@.len() ==> (#[trigger] table@[s])@.len() == k,
                forall|s: int, c: int| 0 <= s < table@.len() && 0 <= c < k ==> (#[trigger] table@[s]@[c]) < n,
                forall|a: int, b: int, c: int|
                    0 <= a < i && 0 <= b < n2 && 0 <= c < k ==> (#[trigger] table@[pair_id(a, b, n2 as int)]@[c])
                        == pair_id(d1.table@[a]@[c] as int, d2.table@[b]@[cols@[c] as int] as int, n2 as int),
                forall|a: int, b: int|
                    0 <= a < i && 0 <= b < n2 ==> call_ensures(
                        f,
                        (d1.accept@.contains(a), d2.accept@.contains(b)),
                        accept@.contains(#[trigger] pair_id(a, b, n2 as int)),
                    ),
                forall|x: int| accept@.contains(x) ==> 0 <= x < table@.len(),
            decreases n1 - i,
        {
            let mut j: usize = 0;
            while j < n2
                invariant
                    j <= n2,
                    i < n1,
                    d1.inv(),
                    d2.inv(),
                    n1 == d1.num_states,
                    n2 == d2.num_states,
                    k == d1.alphabet@.len(),
                    n == n1 * n2,
                    cols@.len() == k,
                    forall|t: int|
                        0 <= t < k ==> is_first_index(d2.alphabet@, d1.alphabet@[t], #[trigger] cols@[t] as int),
                    forall|x: bool, y: bool| call_requires(f, (x, y)),
                    accept.capacity() == n,
                    table@.len() == i * n2 + j,
                    forall|s: int| 0 <= s < table@.len() ==> (#[trigger] table@[s])@.len() == k,
                    forall|s: int, c: int|
                        0 <= s < table@.len() && 0 <= c < k ==> (#[trigger] table@[s]@[c]) < n,
                    forall|a: int, b: int, c: int|
                        (0 <= a < i && 0 <= b < n2 || a == i && 0 <= b < j) && 0 <= c < k ==> (
                        #[trigger] table@[pair_id(a, b, n2 as int)]@[c]) == pair_id(
                            d1.table@[a]@[c] as int,
                            d2.table@[b]@[cols@[c] as int] as int,
                            n2 as int,
                        ),
                    forall|a: int, b: int|
                        (0 <= a < i && 0 <= b < n2 || a == i && 0 <= b < j) ==> call_ensures(
                            f,
                            (d1.accept@.contains(a), d2.accept@.contains(b)),
                            accept@.contains(#[trigger] pair_id(a, b, n2 as int)),
                        ),
                    forall|x: int| accept@.contains(x) ==> 0 <= x < table@.len(),
                decreases n2 - j,
            {
                proof {
                    lemma_pair_is_state(i as int, j as int, n1 as int, n2 as int);
                }
                let id = i * n2 + j;
                let ghost before = accept@;
                let ghost table_before = table@;
                let accepting = f(d1.accept.contains(i), d2.accept.contains(j));
                if accepting {
                    accept.insert(id);
                }
                let mut row: Vec<usize> = Vec::new();
                let mut c: usize = 0;
                while c < k
                    invariant
                        c <= k,
                        i < n1,
                        j < n2,
                        d1.inv(),
                        d2.inv(),
                        n1 == d1.num_states,
                        n2 == d2.num_states,
                        k == d1.alphabet@.len(),
                        n == n1 * n2,
                        cols@.len() == k,
                        forall|t: int|
                            0 <= t < k ==> is_first_index(
                                d2.alphabet@,
                                d1.alphabet@[t],
                                #[trigger] cols@[t] as int,
                            ),
                        row@.len() == c,
                        forall|t: int| 0 <= t < c ==> #[trigger] row@[t] < n,
                        forall|t: int|
                            0 <= t < c ==> #[trigger] row@[t] == pair_id(
                                d1.table@[i as int]@[t] as int,
                                d2.table@[j as int]@[cols@[t] as int] as int,
                                n2 as int,
                            ),
                    decreases k - c,
                {
                    let s1 = d1.table[i][c];
                    assert(is_first_index(d2.alphabet@, d1.alphabet@[c as int], cols@[c as int] as int));
                    let s2 = d2.table[j][cols[c]];
                    proof {
                        lemma_pair_is_state(s1 as int, s2 as int, n1 as int, n2 as int);
                    }
                    row.push(s1 * n2 + s2);
                    c += 1;
                }
                table.push(row);
                proof {
                    assert forall|a: int, b: int, c: int|
                        (0 <= a < i && 0 <= b < n2 || a == i && 0 <= b < j + 1) && 0 <= c < k implies (
                    #[trigger] table@[pair_id(a, b, n2 as int)]@[c]) == pair_id(
                        d1.table@[a]@[c] as int,
                        d2.table@[b]@[cols@[c] as int] as int,
                        n2 as int,
                    ) by {
                        lemma_pair_order(a, b, i as int, j as int, n2 as int);
                        if a == i && b == j {
                        } else {
                            assert(table@[pair_id(a, b, n2 as int)] == table_before[pair_id(a, b, n2 as int)]);
                        }
                    }
                    assert forall|a: int, b: int|
                        (0 <= a < i && 0 <= b < n2 || a == i && 0 <= b < j + 1) implies call_ensures(
                        f,
                        (d1.accept@.contains(a), d2.accept@.contains(b)),
                        accept@.contains(#[trigger] pair_id(a, b, n2 as int)),
                    ) by {
                        lemma_pair_order(a, b, i as int, j as int, n2 as int);
                        if a == i && b == j {
                            assert(!before.contains(id as int));
                        } else {
                            assert(accept@.contains(pair_id(a, b, n2 as int)) == before.contains(
                                pair_id(a, b, n2 as int),
                            ));
                        }
                    }
                }
                j += 1;
            }
            proof {
                assert((i + 1) * n2 == i * n2 + n2) by (nonlinear_arith);
            }
            i += 1;
        }
        proof {
            lemma_pair_is_state(d1.start as int, d2.start as int, n1 as int, n2 as int);
        }
        let start = d1.start * n2 + d2.start;
        let p = DFA { num_states: n, alphabet: d1.alphabet.clone(), start, accept, table };
        proof {
            p.lemma_inv_wf();
            assert(p@.alphabet == d1@.alphabet);
            assert forall|a: int, b: int, c: char|
                d1@.is_state(a) && d2@.is_state(b) && d1@.has_symbol(c) implies #[trigger] p@.step(
                pair_id(a, b, n2 as int),
                c,
            ) == pair_id(d1@.step(a, c), d2@.step(b, c), n2 as int) by {
                let t = first_index(d1.alphabet@, c);
                lemma_listed_symbol(d1.alphabet@, c);
                assert(is_first_index(d2.alphabet@, d1.alphabet@[t], cols@[t] as int));
                lemma_first_index(d2.alphabet@, c, cols@[t] as int);
                lemma_pair_is_state(a, b, n1 as int, n2 as int);
                assert(table@[pair_id(a, b, n2 as int)]@[t] == pair_id(
                    d1.table@[a]@[t] as int,
                    d2.table@[b]@[cols@[t] as int] as int,
                    n2 as int,
                ));
            }
        }
        Some(p)
    }

    /// An automaton that accepts the words that `self` or `d2` accepts.
    ///
    /// Returns `None` if the two do not read the same symbols.
    pub fn union(&self, d2: &DFA) -> (r: Option<DFA>)
        requires
            self@.num_states * d2@.num_states <= usize::MAX,
        ensures
            self@.wf(),
            d2@.wf(),
            r is Some <==> self@.same_symbols(d2@),
            r matches Some(p) ==> {
                &&& is_product(p@, self@, d2@)
                &&& forall|i: int, j: int|
                    self@.is_state(i) && d2@.is_state(j) ==> p@.accept.contains(
                        #[trigger] pair_id(i, j, d2@.num_states as int),
                    ) == (self@.accept.contains(i) || d2@.accept.contains(j))
                &&& forall|w: Seq<char>| #[trigger]
                    p@.run(w) == combine(self@.run(w), d2@.run(w), |x: bool, y: bool| x || y)
            },
    {
        let either = |x: bool, y: bool| -> (z: bool)
            ensures
                z == (x || y),
            { x || y };
        let r = DFA::dfa_product(self, d2, either);
        proof {
            if let Some(p) = &r {
                assert forall|w: Seq<char>| #[trigger]
                    p@.run(w) == combine(self@.run(w), d2@.run(w), |x: bool, y: bool| x || y) by {
                    lemma_product_language(p@, self@, d2@, |x: bool, y: bool| x || y, w);
                }
            }
        }
        r
    }

    /// An automaton that accepts the words that both `self` and `d2` accept.
    ///
    /// Returns `None` if the two do not read the same symbols.
    pub fn intersect(&self, d2: &DFA) -> (r: Option<DFA>)
        requires
            self@.num_states * d2@.num_states <= usize::MAX,
        ensures
            self@.wf(),
            d2@.wf(),
            r is Some <==> self@.same_symbols(d2@),
            r matches Some(p) ==> {
                &&& is_product(p@, self@, d2@)
                &&& forall|i: int, j: int|
                    self@.is_state(i) && d2@.is_state(j) ==> p@.accept.contains(
                        #[trigger] pair_id(i, j, d2@.num_states as int),
                    ) == (self@.accept.contains(i) && d2@.accept.contains(j))
                &&& forall|w: Seq<char>| #[trigger]
                    p@.run(w) == combine(self@.run(w), d2@.run(w), |x: bool, y: bool| x && y)
            },
    {
        let both = |x: bool, y: bool| -> (z: bool)
            ensures
                z == (x && y),
            { x && y };
        let r = DFA::dfa_product(self, d2, both);
        proof {
            if let Some(p) = &r {
                assert forall|w: Seq<char>| #[trigger]
                    p@.run(w) == combine(self@.run(w), d2@.run(w), |x: bool, y: bool| x && y) by {
                    lemma_product_language(p@, self@, d2@, |x: bool, y: bool| x && y, w);
                }
            }
        }
        r
    }

    /// An automaton that accepts the words over the alphabet that `self`
    /// rejects, and rejects those that it accepts.
    pub fn complement(&self) -> (r: DFA)
        ensures
            self@.wf(),
            r@ == self@.complement(),
            r@.wf(),
            forall|w: Seq<char>| #[trigger] r@.run(w) == negate(self@.run(w)),
    {
        proof {
            use_type_invariant(self);
            self.lemma_inv_wf();
        }
        let n = self.num_states;
        let mut accept = StateSet::new(n);
        let mut s: usize = 0;
        while s < n
            invariant
                s <= n,
                n == self.num_states,
                accept.capacity() == n,
                forall|t: int| accept@.contains(t) <==> 0 <= t < s && !self.accept@.contains(t),
            decreases n - s,
        {
            if !self.accept.contains(s) {
                accept.insert(s);
            }
            s += 1;
        }
        let r = DFA {
            num_states: n,
            alphabet: self.alphabet.clone(),
            start: self.start,
            accept,
            table: copy_table(&self.table),
        };
        proof {
            assert(r@.accept =~= self@.complement().accept);
            assert(r@.alphabet == self@.alphabet);
            assert(r@.delta =~= self@.delta);
            assert forall|w: Seq<char>| #[trigger] r@.run(w) == negate(self@.run(w)) by {
                lemma_complement_run(self@, w);
            }
            lemma_complement_run(self@, Seq::<char>::empty());
        }
        r
    }

    /// The states that some word leads to from the start state.
    pub fn reachable_states(&self) -> (r: StateSet)
        ensures
            self@.wf(),
            r.capacity() == self@.num_states,
            forall|s: int| r@.contains(s) <==> self@.is_state(s) && self@.reachable(s),
    {
        proof {
            use_type_invariant(self);
            self.lemma_inv_wf();
            lemma_start_reachable(self@);
        }
        let ghost m = self@;
        let n = self.num_states;
        let k = self.alphabet.len();
        let mut reachable = StateSet::new(n);
        reachable.insert(self.start);
        let mut new_states = StateSet::new(n);
        new_states.insert(self.start);
        proof {
            reachable.lemma_bounded();
        }
        loop
            invariant
                self.inv(),
                m == self@,
                m.wf(),
                n == self.num_states,
                k == self.alphabet@.len(),
                reachable.capacity() == n,
                new_states.capacity() == n,
                reachable@.finite(),
                reachable@.len() <= n,
                reachable@.contains(m.start),
                new_states@.subset_of(reachable@),
                forall|s: int| reachable@.contains(s) ==> m.is_state(s) && m.reachable(s),
                forall|s: int, c: char|
                    reachable@.contains(s) && !new_states@.contains(s) && m.has_symbol(c) ==> reachable@.contains(
                        #[trigger] m.step(s, c),
                    ),
            ensures
                reachable.capacity() == n,
                reachable@.contains(m.start),
                forall|s: int| reachable@.contains(s) ==> m.is_state(s) && m.reachable(s),
                forall|s: int, c: char|
                    reachable@.contains(s) && m.has_symbol(c) ==> reachable@.contains(#[trigger] m.step(s, c)),
            decreases n - reachable@.len(),
        {
            let mut temp = StateSet::new(n);
            let mut s: usize = 0;
            while s < n
                invariant
                    s <= n,
                    self.inv(),
                    m == self@,
                    m.wf(),
                    n == self.num_states,
                    k == self.alphabet@.len(),
                    temp.capacity() == n,
                    new_states.capacity() == n,
                    new_states@.subset_of(reachable@),
                    forall|t: int| reachable@.contains(t) ==> m.is_state(t) && m.reachable(t),
                    forall|t: int| temp@.contains(t) ==> m.is_state(t) && m.reachable(t),
                    forall|t: int, c: char|
                        0 <= t < s && new_states@.contains(t) && m.has_symbol(c) ==> temp@.contains(
                            #[trigger] m.step(t, c),
                        ),
                decreases n - s,
            {
                if new_states.contains(s) {
                    let mut j: usize = 0;
                    while j < k
                        invariant
                            j <= k,
                            s < n,
                            self.inv(),
                            m == self@,
                            m.wf(),
                            n == self.num_states,
                            k == self.alphabet@.len(),
                            temp.capacity() == n,
                            m.is_state(s as int),
                            m.reachable(s as int),
                            forall|t: int| temp@.contains(t) ==> m.is_state(t) && m.reachable(t),
                            forall|t: int, c: char|
                                0 <= t < s && new_states@.contains(t) && m.has_symbol(c) ==> temp@.contains(
                                    #[trigger] m.step(t, c),
                                ),
                            forall|i: int|
                                0 <= i < j ==> temp@.contains(#[trigger] m.step(s as int, self.alphabet@[i])),
                        decreases k - j,
                    {
                        let next = self.table[s][j];
                        proof {
                            lemma_first_index_no_duplicates(self.alphabet@, j as int);
                            assert(m.has_symbol(self.alphabet@[j as int]));
                            assert(m.step(s as int, self.alphabet@[j as int]) == next);
                            lemma_reachable_step(m, s as int, self.alphabet@[j as int]);
                        }
                        temp.insert(next);
                        j += 1;
                    }
                    assert forall|c: char| m.has_symbol(c) implies temp@.contains(
                        #[trigger] m.step(s as int, c),
                    ) by {
                        let i = choose|i: int| 0 <= i < k && self.alphabet@[i] == c;
                        assert(temp@.contains(m.step(s as int, self.alphabet@[i])));
                    }
                }
                s += 1;
            }
            temp.difference_with(&reachable);
            let ghost before = reachable@;
            reachable.union_with(&temp);
            new_states = temp;
            proof {
                reachable.lemma_bounded();
                assert(before.subset_of(reachable@));
                lemma_len_subset(before, reachable@);
            }
            if new_states.is_empty() {
                break;
            }
            proof {
                let x = new_states@.choose();
                assert(new_states@.contains(x)) by {
                    if !new_states@.contains(x) {
                        assert(forall|y: int| !new_states@.contains(y));
                        assert(new_states@ =~= Set::<int>::empty());
                    }
                }
                assert(reachable@.contains(x) && !before.contains(x));
                assert(before.subset_of(reachable@.remove(x)));
                lemma_len_subset(before, reachable@.remove(x));
            }
        }
        proof {
            assert forall|s: int| m.is_state(s) && m.reachable(s) implies reachable@.contains(s) by {
                let w = choose|w: Seq<char>| m.run_from(m.start, w) == Some(s);
                lemma_closed_set_holds_reachable(m, reachable@, w);
            }
        }
        reachable
    }

    /// Whether the automaton accepts no word at all.
    pub fn accepts_none(&self) -> (b: bool)
        ensures
            b == forall|w: Seq<char>| !self@.accepts(w),
    {
        let ghost m = self@;
        if self.accept.is_empty() {
            return true;
        }
        let mut reachable = self.reachable_states();
        let ghost reached = reachable@;
        proof {
            use_type_invariant(self);
        }
        reachable.intersect_with(&self.accept);
        let b = reachable.is_empty();
        proof {
            if b {
                assert forall|w: Seq<char>| !m.accepts(w) by {
                    if m.accepts(w) {
                        let t = m.run_from(m.start, w)->0;
                        lemma_run_from_total(m, m.start, w);
                        assert(reached.contains(t));
                        assert(reachable@.contains(t));
                    }
                }
            } else {
                let t = reachable@.choose();
                assert(reachable@.contains(t)) by {
                    if !reachable@.contains(t) {
                        assert(forall|y: int| !reachable@.contains(y));
                        assert(reachable@ =~= Set::<int>::empty());
                    }
                }
                assert(reached.contains(t));
                let w = choose|w: Seq<char>| m.run_from(m.start, w) == Some(t);
                assert(m.accepts(w));
            }
        }
        b
    }

    /// Whether the two automata read the same symbols and accept the same
    /// words. Automata over different symbols are never equal.
    ///
    /// The answer is found on the automaton for the words that exactly one of
    /// the two accepts: they are equal where it accepts nothing.
    pub fn equals(&self, other: &DFA) -> (b: bool)
        requires
            (self@.num_states * other@.num_states) * (self@.num_states * other@.num_states) <= usize::MAX,
        ensures
            b == equivalent(self@, other@),
    {
        let ghost a = self@;
        let ghost o = other@;
        proof {
            let x = a.num_states * o.num_states;
            assert(x <= x * x) by (nonlinear_arith)
                requires
                    0 <= x,
            ;
            assert(o.num_states * a.num_states == x) by (nonlinear_arith)
                requires
                    x == a.num_states * o.num_states,
            ;
        }
        let not_other = other.complement();
        let only_self = match self.intersect(&not_other) {
            Some(d) => d,
            None => {
                proof {
                    if a.same_symbols(o) {
                        assert forall|c: char| a.has_symbol(c) <==> not_other@.has_symbol(c) by {
                            assert(a.has_symbol(c) <==> o.has_symbol(c));
                        }
                    }
                }
                return false;
            },
        };
        proof {
            assert forall|c: char| a.has_symbol(c) <==> o.has_symbol(c) by {
                assert(a.has_symbol(c) <==> not_other@.has_symbol(c));
            }
            assert(a.same_symbols(o));
        }
        let not_self = self.complement();
        let only_other = match other.intersect(&not_self) {
            Some(d) => d,
            None => {
                proof {
                    assert forall|c: char| o.has_symbol(c) <==> not_self@.has_symbol(c) by {
                        assert(a.has_symbol(c) <==> o.has_symbol(c));
                    }
                }
                return false;
            },
        };
        let differ = match only_self.union(&only_other) {
            Some(d) => d,
            None => {
                proof {
                    assert forall|c: char| only_self@.has_symbol(c) <==> only_other@.has_symbol(c) by {
                        assert(a.has_symbol(c) <==> o.has_symbol(c));
                    }
                }
                return false;
            },
        };
        let b = differ.accepts_none();
        proof {
            assert forall|w: Seq<char>| a.run(w) == o.run(w) <==> !differ@.accepts(w) by {
                lemma_same_validity(a, o, w);
                assert(differ@.run(w) == combine(only_self@.run(w), only_other@.run(w), |x: bool, y: bool| x || y));
                assert(only_self@.run(w) == combine(a.run(w), not_other@.run(w), |x: bool, y: bool| x && y));
                assert(only_other@.run(w) == combine(o.run(w), not_self@.run(w), |x: bool, y: bool| x && y));
                assert(not_other@.run(w) == negate(o.run(w)));
                assert(not_self@.run(w) == negate(a.run(w)));
            }
            if b {
                assert forall|w: Seq<char>| a.run(w) == o.run(w) by {
                    assert(!differ@.accepts(w));
                }
            } else {
                let w = choose|w: Seq<char>| differ@.accepts(w);
                assert(a.run(w) != o.run(w));
            }
        }
        b
    }

    /// The number of states.
    pub fn num_states(&self) -> (n: usize)
        ensures
            self@.wf(),
            n == self@.num_states,
    {
        proof {
            use_type_invariant(self);
            self.lemma_inv_wf();
        }
        self.num_states
    }

    /// The symbols, in the order in which the automaton was given them.
    pub fn alphabet(&self) -> (a: &Vec<char>)
        ensures
            a@ == self@.alphabet,
    {
        &self.alphabet
    }

    /// The start state.
    pub fn start(&self) -> (s: usize)
        ensures
            s == self@.start,
    {
        self.start
    }

    /// Whether `s` is an accepting state.
    pub fn is_accepting(&self, s: usize) -> (b: bool)
        ensures
            b == self@.accept.contains(s as int),
    {
        self.accept.contains(s)
    }

    /// The set of the accepting states.
    pub fn accept_states(&self) -> (set: StateSet)
        ensures
            set@ == self@.accept,
            set.capacity() == self@.num_states,
    {
        proof {
            use_type_invariant(self);
        }
        self.accept.duplicate()
    }

    /// The state that `s` goes to on the `j`-th symbol of the alphabet.
    pub fn target(&self, s: usize, j: usize) -> (t: usize)
        requires
            s < self@.num_states,
            j < self@.alphabet.len(),
        ensures
            t == self@.step(s as int, self@.alphabet[j as int]),
            t < self@.num_states,
    {
        proof {
            use_type_invariant(self);
            lemma_first_index_no_duplicates(self.alphabet@, j as int);
        }
        self.table[s][j]
    }

    /// The transition table in ascending order: by state, and for one state
    /// by symbol.
    pub fn transitions(&self) -> (list: Vec<Transition>)
        ensures
            forall|i: int|
                0 <= i < list@.len() ==> self@.is_state((#[trigger] list@[i]).0 as int) && self@.has_symbol(
                    list@[i].1,
                ) && list@[i].2 == self@.step(list@[i].0 as int, list@[i].1),
            forall|s: int, c: char| self@.is_state(s) && self@.has_symbol(c) ==> #[trigger] has_entry(list@, s, c),
            forall|i: int, j: int| 0 <= i < j < list@.len() ==> precedes(#[trigger] list@[i], #[trigger] list@[j]),
    {
        proof {
            use_type_invariant(self);
        }
        let ghost m = self@;
        let symbols = sorted_symbols(&self.alphabet);
        let mut list: Vec<Transition> = Vec::new();
        let mut s: usize = 0;
        while s < self.num_states
            invariant
                s <= self.num_states,
                self.inv(),
                m == self@,
                ascending(symbols@),
                forall|c: char| symbols@.contains(c) <==> self.alphabet@.contains(c),
                forall|i: int|
                    0 <= i < list@.len() ==> (#[trigger] list@[i]).0 < s && m.has_symbol(list@[i].1) && list@[i].2
                        == m.step(list@[i].0 as int, list@[i].1),
                forall|t: int, c: char| 0 <= t < s && m.has_symbol(c) ==> #[trigger] has_entry(list@, t, c),
                forall|i: int, j: int| 0 <= i < j < list@.len() ==> precedes(#[trigger] list@[i], #[trigger] list@[j]),
            decreases self.num_states - s,
        {
            let mut q: usize = 0;
            while q < symbols.len()
                invariant
                    q <= symbols@.len(),
                    s < self.num_states,
                    self.inv(),
                    m == self@,
                    ascending(symbols@),
                    forall|c: char| symbols@.contains(c) <==> self.alphabet@.contains(c),
                    forall|i: int|
                        0 <= i < list@.len() ==> (#[trigger] list@[i]).0 <= s && m.has_symbol(list@[i].1)
                            && list@[i].2 == m.step(list@[i].0 as int, list@[i].1),
                    forall|i: int, p: int|
                        0 <= i < list@.len() && (#[trigger] list@[i]).0 == s && q <= p < symbols@.len()
                            ==> list@[i].1 < #[trigger] symbols@[p],
                    forall|t: int, c: char| 0 <= t < s && m.has_symbol(c) ==> #[trigger] has_entry(list@, t, c),
                    forall|p: int| 0 <= p < q ==> has_entry(list@, s as int, #[trigger] symbols@[p]),
                    forall|i: int, j: int|
                        0 <= i < j < list@.len() ==> precedes(#[trigger] list@[i], #[trigger] list@[j]),
                decreases symbols@.len() - q,
            {
                let c = symbols[q];
                assert(symbols@.contains(c));
                let j = find_symbol(&self.alphabet, c).unwrap();
                let ghost before = list@;
                list.push((s, c, self.table[s][j]));
                proof {
                    let last = before.len() as int;
                    assert forall|i: int, k: int| 0 <= i < k < list@.len() implies precedes(
                        #[trigger] list@[i],
                        #[trigger] list@[k],
                    ) by {
                        if k < last {
                            assert(list@[i] == before[i] && list@[k] == before[k]);
                        } else {
                            assert(list@[i] == before[i]);
                            if before[i].0 == s {
                                assert(before[i].1 < symbols@[q as int]);
                            }
                        }
                    }
                    assert forall|t: int, x: char| has_entry(before, t, x) implies has_entry(list@, t, x) by {
                        let i = choose|i: int| 0 <= i < before.len() && (#[trigger] before[i]).0 == t && before[i].1 == x;
                        assert(list@[i] == before[i]);
                    }
                    assert forall|t: int, x: char| 0 <= t < s && m.has_symbol(x) implies #[trigger] has_entry(
                        list@,
                        t,
                        x,
                    ) by {
                        assert(has_entry(before, t, x));
                    }
                    assert forall|p: int| 0 <= p < q + 1 implies has_entry(list@, s as int, #[trigger] symbols@[p]) by {
                        if p < q {
                            assert(has_entry(before, s as int, symbols@[p]));
                        } else {
                            assert(list@[last].0 == s && list@[last].1 == symbols@[p]);
                        }
                    }
                    assert forall|i: int, p: int|
                        0 <= i < list@.len() && (#[trigger] list@[i]).0 == s && q + 1 <= p < symbols@.len() implies list@[i].1
                        < #[trigger] symbols@[p] by {
                        if i < last {
                            assert(list@[i] == before[i]);
                        } else {
                            assert(symbols@[q as int] < symbols@[p]);
                        }
                    }
                }
                q += 1;
            }
            proof {
                assert forall|t: int, c: char| 0 <= t < s + 1 && m.has_symbol(c) implies #[trigger] has_entry(
                    list@,
                    t,
                    c,
                ) by {
                    if t == s {
                        assert(symbols@.contains(c));
                        let p = choose|p: int| 0 <= p < symbols@.len() && symbols@[p] == c;
                        assert(has_entry(list@, s as int, symbols@[p]));
                    }
                }
            }
            s += 1;
        }
        list
    }

    /// The state that `s` goes to on `c`; `None` where `s` is not a state or
    /// `c` not a symbol of the alphabet.
    pub fn delta(&self, s: usize, c: char) -> (r: Option<usize>)
        ensures
            match r {
                Some(t) => self@.delta.dom().contains((s as int, c)) && t == self@.step(s as int, c),
                None => !self@.delta.dom().contains((s as int, c)),
            },
    {
        proof {
            use_type_invariant(self);
        }
        if s >= self.num_states {
            return None;
        }
        match find_symbol(&self.alphabet, c) {
            Some(j) => Some(self.table[s][j]),
            None => None,
        }
    }
}

impl Run for DFA {
    /// A deterministic automaton follows one transition per symbol from the
    /// start state; a word with a symbol outside the alphabet is invalid.
    open spec fn outcome(&self, word: Seq<char>) -> Option<bool> {
        self@.run(word)
    }

    fn run(&self, string: &str) -> (r: Option<bool>) {
        proof {
            use_type_invariant(self);
        }
        let ghost m = self@;
        let mut cur = self.start;
        assert(string@.skip(0) =~= string@);
        for c in it: string.chars()
            invariant
                it.seq() == string@,
                self.inv(),
                m == self@,
                cur < self.num_states,
                m.run_from(m.start, string@) == m.run_from(cur as int, string@.skip(it.index())),
        {
            let ghost rest = string@.skip(it.index());
            assert(rest.len() > 0 && rest[0] == c);
            assert(rest.drop_first() =~= string@.skip(it.index() + 1));
            match find_symbol(&self.alphabet, c) {
                Some(j) => {
                    assert(m.delta.dom().contains((cur as int, c)));
                    cur = self.table[cur][j];
                },
                None => {
                    assert(!m.delta.dom().contains((cur as int, c)));
                    return None;
                },
            }
        }
        assert(string@.skip(string@.len() as int) =~= Seq::<char>::empty());
        Some(self.accept.contains(cur))
    }
}

} // verus!
