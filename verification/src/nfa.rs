//! Nondeterministic finite automata.

use vstd::prelude::*;
use vstd::string::StrSliceExecFns;
use crate::alphabet::{
    ascending, find_symbol, first_index, is_first_index, lemma_first_index, lemma_listed_symbol, sorted_symbols,
};
use crate::error::ConstructionError;
use crate::nfa_model::{
    closure, epsilon_closed, lemma_closure_closed, lemma_closure_holds_set, lemma_closure_least, move_set, NfaView,
    Relation, EPSILON,
};
use crate::state_set::StateSet;
use crate::Run;
use crate::Transition;

verus! {

/// The fault of one transition of a nondeterministic automaton with `n`
/// states; `None` where it has none.
pub open spec fn nfa_transition_fault(n: nat, alphabet: Seq<char>, t: Transition) -> Option<ConstructionError> {
    let (from, symbol, to) = t;
    if symbol != EPSILON && !alphabet.contains(symbol) {
        Some(ConstructionError::UnknownSymbol { symbol })
    } else if from >= n {
        Some(ConstructionError::UnknownState { from, symbol, to, state: from })
    } else if to >= n {
        Some(ConstructionError::UnknownState { from, symbol, to, state: to })
    } else {
        None
    }
}

/// The fault of the first faulty transition at or after position `i`.
pub open spec fn nfa_first_fault(n: nat, alphabet: Seq<char>, ts: Seq<Transition>, i: int) -> Option<
    ConstructionError,
>
    decreases ts.len() - i,
{
    if i < 0 || i >= ts.len() {
        None
    } else if nfa_transition_fault(n, alphabet, ts[i]) is Some {
        nfa_transition_fault(n, alphabet, ts[i])
    } else {
        nfa_first_fault(n, alphabet, ts, i + 1)
    }
}

/// Why a description of a nondeterministic automaton is refused, if it is:
/// the alphabet is checked first, then the transitions in the order given.
pub open spec fn nfa_fault(n: nat, alphabet: Seq<char>, ts: Seq<Transition>) -> Option<ConstructionError> {
    if alphabet.contains(EPSILON) {
        Some(ConstructionError::ReservedSymbol)
    } else {
        nfa_first_fault(n, alphabet, ts, 0)
    }
}

/// The relation that holds the first `upto` transitions of a list.
pub open spec fn relation_of(ts: Seq<Transition>, upto: int) -> Relation {
    Set::new(
        |e: (int, char, int)|
            exists|i: int|
                0 <= i < upto && i < ts.len() && (#[trigger] ts[i]).0 == e.0 && ts[i].1 == e.1 && ts[i].2 == e.2,
    )
}

/// The set of the entries of a list.
pub open spec fn entries(list: Seq<usize>) -> Set<int> {
    Set::new(|s: int| exists|i: int| 0 <= i < list.len() && #[trigger] list[i] == s)
}

/// In a list of states and symbols in ascending order, `a` stands before
/// `b`: it has the smaller state, or the same state and the smaller symbol.
pub open spec fn key_precedes(a: (usize, char), b: (usize, char)) -> bool {
    a.0 < b.0 || (a.0 == b.0 && a.1 < b.1)
}

/// `list` has the entry `(s, c)`.
pub open spec fn has_key(list: Seq<(usize, char)>, s: int, c: char) -> bool {
    exists|i: int| 0 <= i < list.len() && (#[trigger] list[i]).0 == s && list[i].1 == c
}

/// `delta` has a transition that leaves `s` on `c`.
pub open spec fn leaves(delta: Relation, s: int, c: char) -> bool {
    exists|t: int| #[trigger] delta.contains((s, c, t))
}

/// The transitions of a nondeterministic automaton: for each state and each
/// symbol, and for each state and the empty word, the set of the states to
/// which the automaton may go.
pub struct TransitionTable {
    num_states: usize,
    symbols: Vec<char>,
    steps: Vec<Vec<StateSet>>,
    silent: Vec<StateSet>,
}

impl View for TransitionTable {
    type V = Relation;

    closed spec fn view(&self) -> Relation {
        Set::new(
            |e: (int, char, int)|
                0 <= e.0 < self.num_states && if e.1 == EPSILON {
                    self.silent@[e.0]@.contains(e.2)
                } else {
                    self.symbols@.contains(e.1) && self.steps@[e.0]@[first_index(self.symbols@, e.1)]@.contains(e.2)
                },
        )
    }
}

impl TransitionTable {
    /// The number of states that the table ranges over.
    pub closed spec fn states(&self) -> nat {
        self.num_states as nat
    }

    /// The symbols that the table has transitions on, besides the empty
    /// word.
    pub closed spec fn symbols(&self) -> Seq<char> {
        self.symbols@
    }

    /// The table has a set for each state and symbol, and each set ranges
    /// over the states.
    pub closed spec fn wf(&self) -> bool {
        &&& self.silent@.len() == self.num_states
        &&& self.steps@.len() == self.num_states
        &&& forall|s: int| 0 <= s < self.num_states ==> (#[trigger] self.silent@[s]).capacity() == self.num_states
        &&& forall|s: int| 0 <= s < self.num_states ==> (#[trigger] self.steps@[s])@.len() == self.symbols@.len()
        &&& forall|s: int, j: int|
            0 <= s < self.num_states && 0 <= j < self.symbols@.len() ==> (#[trigger] self.steps@[s]@[j]).capacity()
                == self.num_states
    }

    /// Every transition of a well-formed table goes from a state to a state,
    /// on one of its symbols or on the empty word.
    pub proof fn lemma_within(&self)
        requires
            self.wf(),
        ensures
            forall|s: int, c: char, t: int| #[trigger]
                self@.contains((s, c, t)) ==> 0 <= s < self.states() && 0 <= t < self.states() && (c == EPSILON
                    || self.symbols().contains(c)),
    {
        assert forall|s: int, c: char, t: int| #[trigger] self@.contains((s, c, t)) implies 0 <= s < self.states()
            && 0 <= t < self.states() && (c == EPSILON || self.symbols().contains(c)) by {
            if c == EPSILON {
                self.silent@[s].lemma_bounded();
            } else {
                lemma_listed_symbol(self.symbols@, c);
                self.steps@[s]@[first_index(self.symbols@, c)].lemma_bounded();
            }
        }
    }

    /// A table without transitions.
    pub fn new(num_states: usize, symbols: &Vec<char>) -> (table: TransitionTable)
        ensures
            table.wf(),
            table.states() == num_states,
            table.symbols() == symbols@,
            table@ == Set::<(int, char, int)>::empty(),
    {
        let k = symbols.len();
        let mut steps: Vec<Vec<StateSet>> = Vec::new();
        let mut silent: Vec<StateSet> = Vec::new();
        let mut s: usize = 0;
        while s < num_states
            invariant
                s <= num_states,
                k == symbols@.len(),
                steps@.len() == s,
                silent@.len() == s,
                forall|i: int| 0 <= i < s ==> (#[trigger] silent@[i]).capacity() == num_states && silent@[i]@
                    == Set::<int>::empty(),
                forall|i: int| 0 <= i < s ==> (#[trigger] steps@[i])@.len() == k,
                forall|i: int, j: int|
                    0 <= i < s && 0 <= j < k ==> (#[trigger] steps@[i]@[j]).capacity() == num_states
                        && steps@[i]@[j]@ == Set::<int>::empty(),
            decreases num_states - s,
        {
            let mut row: Vec<StateSet> = Vec::new();
            let mut j: usize = 0;
            while j < k
                invariant
                    j <= k,
                    row@.len() == j,
                    forall|i: int| 0 <= i < j ==> (#[trigger] row@[i]).capacity() == num_states && row@[i]@
                        == Set::<int>::empty(),
                decreases k - j,
            {
                row.push(StateSet::new(num_states));
                j += 1;
            }
            steps.push(row);
            silent.push(StateSet::new(num_states));
            s += 1;
        }
        let table = TransitionTable { num_states, symbols: symbols.clone(), steps, silent };
        proof {
            assert forall|e: (int, char, int)| !table@.contains(e) by {
                if 0 <= e.0 < num_states && e.1 != EPSILON && symbols@.contains(e.1) {
                    lemma_listed_symbol(symbols@, e.1);
                }
            }
            assert(table@ =~= Set::<(int, char, int)>::empty());
        }
        table
    }

    /// Adds the transition from `from` to `to` on `symbol`, unless it is
    /// faulty; a transition that is there already is added to no effect.
    pub fn insert(&mut self, from: usize, symbol: char, to: usize) -> (r: Result<(), ConstructionError>)
        requires
            old(self).wf(),
        ensures
            final(self).wf(),
            final(self).states() == old(self).states(),
            final(self).symbols() == old(self).symbols(),
            match r {
                Ok(_) => nfa_transition_fault(old(self).states(), old(self).symbols(), (from, symbol, to)) is None
                    && final(self)@ == old(self)@.insert((from as int, symbol, to as int)),
                Err(e) => nfa_transition_fault(old(self).states(), old(self).symbols(), (from, symbol, to)) == Some(
                    e,
                ) && final(self)@ == old(self)@,
            },
    {
        let ghost before = self@;
        let found = find_symbol(&self.symbols, symbol);
        if symbol != EPSILON && found.is_none() {
            return Err(ConstructionError::UnknownSymbol { symbol });
        }
        if from >= self.num_states {
            return Err(ConstructionError::UnknownState { from, symbol, to, state: from });
        }
        if to >= self.num_states {
            return Err(ConstructionError::UnknownState { from, symbol, to, state: to });
        }
        if symbol == EPSILON {
            self.silent[from].insert(to);
        } else {
            let j = found.unwrap();
            self.steps[from][j].insert(to);
        }
        proof {
            assert forall|e: (int, char, int)| self@.contains(e) <==> before.insert(
                (from as int, symbol, to as int),
            ).contains(e) by {
                if e.1 != EPSILON && self.symbols@.contains(e.1) {
                    lemma_listed_symbol(self.symbols@, e.1);
                }
            }
            assert(self@ =~= before.insert((from as int, symbol, to as int)));
        }
        Ok(())
    }

    /// The number of states that the table ranges over.
    pub fn num_states(&self) -> (n: usize)
        ensures
            n == self.states(),
    {
        self.num_states
    }

    /// The symbols that the table has transitions on, besides the empty
    /// word.
    pub fn alphabet(&self) -> (a: &Vec<char>)
        ensures
            a@ == self.symbols(),
    {
        &self.symbols
    }

    /// The states to which `s` may go on `c`; the empty set where `s` is no
    /// state or the table has no transitions on `c`.
    pub fn successors(&self, s: usize, c: char) -> (set: StateSet)
        requires
            self.wf(),
        ensures
            set.capacity() == self.states(),
            forall|t: int| set@.contains(t) <==> self@.contains((s as int, c, t)),
    {
        if s >= self.num_states {
            return StateSet::new(self.num_states);
        }
        if c == EPSILON {
            return self.silent[s].duplicate();
        }
        match find_symbol(&self.symbols, c) {
            Some(j) => self.steps[s][j].duplicate(),
            None => StateSet::new(self.num_states),
        }
    }

    /// The states and symbols, the empty word among them, on which the
    /// table has a transition, in ascending order: by state, and for one
    /// state by symbol.
    pub fn keys(&self) -> (list: Vec<(usize, char)>)
        requires
            self.wf(),
        ensures
            forall|i: int| 0 <= i < list@.len() ==> leaves(self@, (#[trigger] list@[i]).0 as int, list@[i].1),
            forall|s: int, c: char| #[trigger] leaves(self@, s, c) ==> has_key(list@, s, c),
            forall|i: int, j: int|
                0 <= i < j < list@.len() ==> key_precedes(#[trigger] list@[i], #[trigger] list@[j]),
    {
        proof {
            self.lemma_within();
        }
        let mut labels = self.symbols.clone();
        labels.push(EPSILON);
        let symbols = sorted_symbols(&labels);
        proof {
            assert(labels@ == self.symbols@.push(EPSILON));
            assert forall|c: char| symbols@.contains(c) <==> (c == EPSILON || self.symbols@.contains(c)) by {
                if self.symbols@.contains(c) {
                    let t = choose|t: int| 0 <= t < self.symbols@.len() && self.symbols@[t] == c;
                    assert(labels@[t] == c);
                }
                if c == EPSILON {
                    assert(labels@[self.symbols@.len() as int] == c);
                }
                if labels@.contains(c) {
                    let t = choose|t: int| 0 <= t < labels@.len() && labels@[t] == c;
                    if t < self.symbols@.len() {
                        assert(self.symbols@[t] == c);
                    }
                }
            }
        }
        let mut list: Vec<(usize, char)> = Vec::new();
        let mut s: usize = 0;
        while s < self.num_states
            invariant
                s <= self.num_states,
                self.wf(),
                ascending(symbols@),
                forall|c: char| symbols@.contains(c) <==> (c == EPSILON || self.symbols@.contains(c)),
                forall|i: int|
                    0 <= i < list@.len() ==> (#[trigger] list@[i]).0 < s && leaves(
                        self@,
                        list@[i].0 as int,
                        list@[i].1,
                    ),
                forall|t: int, c: char| 0 <= t < s && #[trigger] leaves(self@, t, c) ==> has_key(list@, t, c),
                forall|i: int, j: int|
                    0 <= i < j < list@.len() ==> key_precedes(#[trigger] list@[i], #[trigger] list@[j]),
            decreases self.num_states - s,
        {
            let mut q: usize = 0;
            while q < symbols.len()
                invariant
                    q <= symbols@.len(),
                    s < self.num_states,
                    self.wf(),
                    ascending(symbols@),
                    forall|i: int|
                        0 <= i < list@.len() ==> (#[trigger] list@[i]).0 <= s && leaves(
                            self@,
                            list@[i].0 as int,
                            list@[i].1,
                        ),
                    forall|i: int, p: int|
                        0 <= i < list@.len() && (#[trigger] list@[i]).0 == s && q <= p < symbols@.len()
                            ==> list@[i].1 < #[trigger] symbols@[p],
                    forall|t: int, c: char| 0 <= t < s && #[trigger] leaves(self@, t, c) ==> has_key(list@, t, c),
                    forall|p: int|
                        0 <= p < q && leaves(self@, s as int, #[trigger] symbols@[p]) ==> has_key(
                            list@,
                            s as int,
                            symbols@[p],
                        ),
                    forall|i: int, j: int|
                        0 <= i < j < list@.len() ==> key_precedes(#[trigger] list@[i], #[trigger] list@[j]),
                decreases symbols@.len() - q,
            {
                let c = symbols[q];
                let targets = self.successors(s, c);
                let ghost before = list@;
                if !targets.is_empty() {
                    list.push((s, c));
                    proof {
                        let last = before.len() as int;
                        let t = targets@.choose();
                        if !targets@.contains(t) {
                            assert(forall|y: int| !targets@.contains(y));
                            assert(targets@ =~= Set::<int>::empty());
                        }
                        assert(self@.contains((s as int, c, t)));
                        assert(leaves(self@, s as int, c));
                        assert forall|i: int, k: int| 0 <= i < k < list@.len() implies key_precedes(
                            #[trigger] list@[i],
                            #[trigger] list@[k],
                        ) by {
                            if k < last {
                                assert(list@[i] == before[i] && list@[k] == before[k]);
                            } else {
                                assert(list@[i] == before[i]);
                                if before[i].0 == s {
                                    assert(before[i].1 < symbols@[q as int]);
                                }
                            }
                        }
                        assert forall|i: int, p: int|
                            0 <= i < list@.len() && (#[trigger] list@[i]).0 == s && q + 1 <= p < symbols@.len() implies list@[i].1
                            < #[trigger] symbols@[p] by {
                            if i < last {
                                assert(list@[i] == before[i]);
                            } else {
                                assert(symbols@[q as int] < symbols@[p]);
                            }
                        }
                        assert(list@[last].0 == s && list@[last].1 == c);
                        assert(has_key(list@, s as int, c));
                    }
                } else {
                    proof {
                        if leaves(self@, s as int, c) {
                            let t = choose|t: int| #[trigger] self@.contains((s as int, c, t));
                            assert(targets@.contains(t));
                        }
                    }
                }
                proof {
                    assert forall|t: int, x: char| has_key(before, t, x) implies has_key(list@, t, x) by {
                        let i = choose|i: int| 0 <= i < before.len() && (#[trigger] before[i]).0 == t && before[i].1 == x;
                        assert(list@[i] == before[i]);
                    }
                    assert forall|t: int, x: char| 0 <= t < s && #[trigger] leaves(self@, t, x) implies has_key(
                        list@,
                        t,
                        x,
                    ) by {
                        assert(has_key(before, t, x));
                    }
                    assert forall|p: int|
                        0 <= p < q + 1 && leaves(self@, s as int, #[trigger] symbols@[p]) implies has_key(
                        list@,
                        s as int,
                        symbols@[p],
                    ) by {
                        if p < q {
                            assert(has_key(before, s as int, symbols@[p]));
                        }
                    }
                }
                q += 1;
            }
            proof {
                assert forall|t: int, c: char| 0 <= t < s + 1 && #[trigger] leaves(self@, t, c) implies has_key(
                    list@,
                    t,
                    c,
                ) by {
                    if t == s {
                        let u = choose|u: int| #[trigger] self@.contains((t, c, u));
                        assert(symbols@.contains(c));
                        let p = choose|p: int| 0 <= p < symbols@.len() && symbols@[p] == c;
                        assert(leaves(self@, s as int, symbols@[p]));
                    }
                }
            }
            s += 1;
        }
        proof {
            assert forall|t: int, c: char| #[trigger] leaves(self@, t, c) implies has_key(list@, t, c) by {
                let u = choose|u: int| #[trigger] self@.contains((t, c, u));
                assert(0 <= t < self.num_states);
            }
        }
        list
    }

    /// The states to which `s` may go on the empty word.
    fn silent_targets(&self, s: usize) -> (set: &StateSet)
        requires
            self.wf(),
            s < self.states(),
        ensures
            set.capacity() == self.states(),
            forall|t: int| set@.contains(t) <==> self@.contains((s as int, EPSILON, t)),
    {
        &self.silent[s]
    }

    /// The states to which `s` may go on the symbol that stands first at
    /// position `j`.
    fn targets(&self, s: usize, j: usize) -> (set: &StateSet)
        requires
            self.wf(),
            s < self.states(),
            is_first_index(self.symbols(), self.symbols()[j as int], j as int),
            self.symbols()[j as int] != EPSILON,
        ensures
            set.capacity() == self.states(),
            forall|t: int| set@.contains(t) <==> self@.contains((s as int, self.symbols()[j as int], t)),
    {
        proof {
            lemma_first_index(self.symbols@, self.symbols@[j as int], j as int);
        }
        &self.steps[s][j]
    }
}

/// Adds to `curr` every state that can be reached from one of its members
/// without reading anything.
///
/// The states are added round by round until a round adds none, so that
/// cycles of transitions on the empty word do no harm.
pub fn epsilons(curr: &mut StateSet, delta: &TransitionTable)
    requires
        delta.wf(),
        old(curr).capacity() == delta.states(),
    ensures
        final(curr)@ == closure(delta@, old(curr)@),
        final(curr).capacity() == old(curr).capacity(),
{
    let n = delta.num_states();
    let ghost from = curr@;
    let mut next = StateSet::new(n);
    proof {
        curr.lemma_bounded();
        lemma_closure_holds_set(delta@, from);
    }
    loop
        invariant_except_break
            next@ == Set::<int>::empty(),
        invariant
            delta.wf(),
            n == delta.states(),
            curr.capacity() == n,
            next.capacity() == n,
            curr@.finite(),
            curr@.len() <= n,
            from.subset_of(curr@),
            curr@.subset_of(closure(delta@, from)),
        ensures
            curr.capacity() == n,
            curr@ == closure(delta@, from),
        decreases n - curr@.len(),
    {
        let mut i: usize = 0;
        while i < n
            invariant
                i <= n,
                delta.wf(),
                n == delta.states(),
                curr.capacity() == n,
                next.capacity() == n,
                curr@.subset_of(closure(delta@, from)),
                next@.subset_of(closure(delta@, from)),
                forall|s: int, t: int|
                    0 <= s < i && curr@.contains(s) && #[trigger] delta@.contains((s, EPSILON, t)) ==> next@.contains(
                        t,
                    ),
            decreases n - i,
        {
            if curr.contains(i) {
                let targets = delta.silent_targets(i);
                proof {
                    lemma_closure_closed(delta@, from);
                    assert forall|t: int| targets@.contains(t) implies closure(delta@, from).contains(t) by {
                        assert(delta@.contains((i as int, EPSILON, t)));
                    }
                }
                next.union_with(targets);
            }
            i += 1;
        }
        if curr.is_superset(&next) {
            proof {
                curr.lemma_bounded();
                assert(epsilon_closed(delta@, curr@)) by {
                    assert forall|s: int, t: int| curr@.contains(s) && #[trigger] delta@.contains(
                        (s, EPSILON, t),
                    ) implies curr@.contains(t) by {
                        assert(next@.contains(t));
                    }
                }
                lemma_closure_least(delta@, from, curr@);
                assert(curr@ =~= closure(delta@, from));
            }
            break ;
        }
        let ghost before = curr@;
        curr.union_with(&next);
        next.clear();
        proof {
            curr.lemma_bounded();
            let x = choose|x: int| curr@.contains(x) && !before.contains(x);
            assert(curr@.contains(x) && !before.contains(x)) by {
                if forall|y: int| curr@.contains(y) ==> before.contains(y) {
                    assert(curr@ =~= before);
                }
            }
            assert(before.subset_of(curr@.remove(x)));
            vstd::set_lib::lemma_len_subset(before, curr@.remove(x));
        }
    }
}

/// Nondeterministic finite automaton.
///
/// Like a deterministic automaton, but from a state there may be no, one or
/// several transitions on a symbol, and there may be transitions on the
/// empty word, written `'_'`. It accepts a word if some way of reading it
/// ends in an accepting state.
pub struct NFA {
    num_states: usize,
    alphabet: Vec<char>,
    start: usize,
    accept: Vec<usize>,
    delta: TransitionTable,
}

impl View for NFA {
    type V = NfaView;

    closed spec fn view(&self) -> NfaView {
        NfaView {
            num_states: self.num_states as nat,
            alphabet: self.alphabet@,
            start: self.start as int,
            accept: entries(self.accept@),
            delta: self.delta@,
        }
    }
}

impl NFA {
    #[verifier::type_invariant]
    spec fn inv(&self) -> bool {
        &&& self.delta.wf()
        &&& self.delta.states() == self.num_states
        &&& self.delta.symbols() == self.alphabet@
        &&& !self.alphabet@.contains(EPSILON)
    }

    /// Builds an automaton with `num_states` states from a list of
    /// transitions, of which several may leave one state on one symbol.
    ///
    /// The description is refused if the alphabet lists `'_'`, or if a
    /// transition names a symbol or a state that does not exist; `nfa_fault`
    /// says which refusal comes. Neither the start state nor the accepting
    /// states are held to be states.
    pub fn new(
        num_states: usize,
        alphabet: &Vec<char>,
        transitions: &Vec<Transition>,
        start: usize,
        accept: &Vec<usize>,
    ) -> (r: Result<NFA, ConstructionError>)
        ensures
            match r {
                Ok(nfa) => {
                    &&& nfa_fault(num_states as nat, alphabet@, transitions@) is None
                    &&& nfa@.wf()
                    &&& nfa@.num_states == num_states
                    &&& nfa@.alphabet == alphabet@
                    &&& nfa@.start == start
                    &&& nfa@.accept == entries(accept@)
                    &&& nfa@.delta == relation_of(transitions@, transitions@.len() as int)
                },
                Err(e) => nfa_fault(num_states as nat, alphabet@, transitions@) == Some(e),
            },
    {
        if find_symbol(alphabet, EPSILON).is_some() {
            return Err(ConstructionError::ReservedSymbol);
        }
        let mut delta = TransitionTable::new(num_states, alphabet);
        let mut i: usize = 0;
        proof {
            assert(delta@ =~= relation_of(transitions@, 0));
        }
        while i < transitions.len()
            invariant
                i <= transitions@.len(),
                !alphabet@.contains(EPSILON),
                delta.wf(),
                delta.states() == num_states,
                delta.symbols() == alphabet@,
                delta@ == relation_of(transitions@, i as int),
                nfa_first_fault(num_states as nat, alphabet@, transitions@, 0) == nfa_first_fault(
                    num_states as nat,
                    alphabet@,
                    transitions@,
                    i as int,
                ),
            decreases transitions@.len() - i,
        {
            let (from, symbol, to) = transitions[i];
            match delta.insert(from, symbol, to) {
                Ok(_) => {},
                Err(e) => {
                    return Err(e);
                },
            }
            proof {
                let t = transitions@[i as int];
                assert forall|e: (int, char, int)| delta@.contains(e) <==> relation_of(
                    transitions@,
                    i + 1,
                ).contains(e) by {
                    if relation_of(transitions@, i as int).contains(e) {
                        let u = choose|u: int|
                            0 <= u < i && u < transitions@.len() && (#[trigger] transitions@[u]).0 == e.0
                                && transitions@[u].1 == e.1 && transitions@[u].2 == e.2;
                        assert(0 <= u < i + 1);
                    }
                    if e == (from as int, symbol, to as int) {
                        assert(t.0 == e.0 && t.1 == e.1 && t.2 == e.2);
                    }
                    if relation_of(transitions@, i + 1).contains(e) {
                        let u = choose|u: int|
                            0 <= u < i + 1 && u < transitions@.len() && (#[trigger] transitions@[u]).0 == e.0
                                && transitions@[u].1 == e.1 && transitions@[u].2 == e.2;
                        if u < i {
                            assert(relation_of(transitions@, i as int).contains(e));
                        }
                    }
                }
                assert(delta@ =~= relation_of(transitions@, i + 1));
            }
            i += 1;
        }
        let nfa = NFA { num_states, alphabet: alphabet.clone(), start, accept: accept.clone(), delta };
        proof {
            nfa.delta.lemma_within();
            assert(nfa@.accept == entries(accept@));
        }
        Ok(nfa)
    }
}

impl NFA {
    /// The number of states.
    pub fn num_states(&self) -> (n: usize)
        ensures
            self@.wf(),
            n == self@.num_states,
    {
        proof {
            use_type_invariant(self);
            self.delta.lemma_within();
        }
        self.num_states
    }

    /// The symbols, in the order in which the automaton was given them.
    pub fn alphabet(&self) -> (a: &Vec<char>)
        ensures
            a@ == self@.alphabet,
    {
        &self.alphabet
    }

    /// The start state.
    pub fn start(&self) -> (s: usize)
        ensures
            s == self@.start,
    {
        self.start
    }

    /// The accepting states, as the automaton was given them.
    pub fn accept(&self) -> (list: &Vec<usize>)
        ensures
            entries(list@) == self@.accept,
    {
        &self.accept
    }

    /// The transitions.
    pub fn table(&self) -> (table: &TransitionTable)
        ensures
            table.wf(),
            table@ == self@.delta,
            table.states() == self@.num_states,
            table.symbols() == self@.alphabet,
    {
        proof {
            use_type_invariant(self);
        }
        &self.delta
    }
}

/// Whether `list` has an entry that is a member of `set`.
fn holds_entry(list: &Vec<usize>, set: &StateSet) -> (b: bool)
    ensures
        b == exists|s: int| set@.contains(s) && #[trigger] entries(list@).contains(s),
{
    let mut i: usize = 0;
    while i < list.len()
        invariant
            i <= list@.len(),
            forall|t: int| 0 <= t < i ==> !set@.contains(#[trigger] list@[t] as int),
        decreases list@.len() - i,
    {
        if set.contains(list[i]) {
            assert(entries(list@).contains(list@[i as int] as int));
            return true;
        }
        i += 1;
    }
    proof {
        if exists|s: int| set@.contains(s) && #[trigger] entries(list@).contains(s) {
            let s = choose|s: int| set@.contains(s) && #[trigger] entries(list@).contains(s);
            let t = choose|t: int| 0 <= t < list@.len() && #[trigger] list@[t] == s;
            assert(!set@.contains(list@[t] as int));
        }
    }
    false
}

/// Whether `list` has the entry `x`.
fn lists(list: &Vec<usize>, x: usize) -> (b: bool)
    ensures
        b == entries(list@).contains(x as int),
{
    let mut i: usize = 0;
    while i < list.len()
        invariant
            i <= list@.len(),
            forall|t: int| 0 <= t < i ==> #[trigger] list@[t] != x,
        decreases list@.len() - i,
    {
        if list[i] == x {
            return true;
        }
        i += 1;
    }
    false
}

impl NFA {
    /// The states to which some member of `curr` may go on the symbol that
    /// stands first at position `j` of the alphabet.
    fn advance(&self, curr: &StateSet, j: usize) -> (next: StateSet)
        requires
            curr.capacity() == self@.num_states,
            is_first_index(self@.alphabet, self@.alphabet[j as int], j as int),
        ensures
            next.capacity() == self@.num_states,
            next@ == move_set(self@.delta, curr@, self@.alphabet[j as int]),
    {
        proof {
            use_type_invariant(self);
            self.delta.lemma_within();
        }
        let ghost c = self.alphabet@[j as int];
        let n = self.num_states;
        let mut next = StateSet::new(n);
        let mut s: usize = 0;
        assert(self.alphabet@.contains(c));
        while s < n
            invariant
                s <= n,
                self.inv(),
                n == self.num_states,
                c == self.alphabet@[j as int],
                c != EPSILON,
                is_first_index(self.alphabet@, c, j as int),
                curr.capacity() == n,
                next.capacity() == n,
                forall|t: int|
                    next@.contains(t) <==> exists|u: int|
                        0 <= u < s && curr@.contains(u) && #[trigger] self.delta@.contains((u, c, t)),
            decreases n - s,
        {
            if curr.contains(s) {
                let ghost before = next@;
                let targets = self.delta.targets(s, j);
                next.union_with(targets);
                proof {
                    assert forall|t: int| next@.contains(t) implies exists|u: int|
                        0 <= u < s + 1 && curr@.contains(u) && #[trigger] self.delta@.contains((u, c, t)) by {
                        if before.contains(t) {
                            let u = choose|u: int|
                                0 <= u < s && curr@.contains(u) && #[trigger] self.delta@.contains((u, c, t));
                            assert(0 <= u < s + 1);
                        } else {
                            assert(self.delta@.contains((s as int, c, t)));
                        }
                    }
                }
            }
            s += 1;
        }
        proof {
            assert forall|t: int| next@.contains(t) <==> move_set(self.delta@, curr@, c).contains(t) by {
                if move_set(self.delta@, curr@, c).contains(t) {
                    let u = choose|u: int| curr@.contains(u) && #[trigger] self.delta@.contains((u, c, t));
                    assert(0 <= u < n);
                }
            }
            assert(next@ =~= move_set(self.delta@, curr@, c));
        }
        next
    }

    /// The outcome for an automaton whose start state is no state, so that
    /// no transition leaves it.
    fn run_outside(&self, input: &str) -> (r: Option<bool>)
        requires
            self@.start >= self@.num_states,
        ensures
            r == self@.run(input@),
    {
        proof {
            use_type_invariant(self);
            self.delta.lemma_within();
        }
        let ghost m = self@;
        let ghost only = set![m.start];
        proof {
            // No transition leaves the start state, so it is alone in its closure.
            assert(epsilon_closed(m.delta, only));
            lemma_closure_least(m.delta, only, only);
            lemma_closure_holds_set(m.delta, only);
            assert(closure(m.delta, only) =~= only);
        }
        if input.unicode_len() == 0 {
            let b = lists(&self.accept, self.start);
            proof {
                if m.accepting(only) {
                    let s = choose|s: int| only.contains(s) && #[trigger] m.accept.contains(s);
                    assert(s == m.start);
                }
                if b {
                    assert(only.contains(m.start) && m.accept.contains(m.start));
                }
            }
            return Some(b);
        }
        let c = input.get_char(0);
        match find_symbol(&self.alphabet, c) {
            Some(_) => {
                proof {
                    assert(move_set(m.delta, only, c) =~= Set::<int>::empty());
                }
                Some(false)
            },
            None => None,
        }
    }
}

impl Run for NFA {
    /// A nondeterministic automaton follows every transition that it may
    /// take; a word with a symbol outside the alphabet is invalid, unless
    /// the word is rejected before that symbol is read.
    open spec fn outcome(&self, word: Seq<char>) -> Option<bool> {
        self@.run(word)
    }

    fn run(&self, input: &str) -> (r: Option<bool>) {
        proof {
            use_type_invariant(self);
        }
        if self.start >= self.num_states {
            return self.run_outside(input);
        }
        let ghost m = self@;
        let mut curr = StateSet::new(self.num_states);
        curr.insert(self.start);
        proof {
            assert(curr@ =~= set![m.start]);
        }
        epsilons(&mut curr, &self.delta);
        assert(input@.skip(0) =~= input@);
        for sym in it: input.chars()
            invariant
                it.seq() == input@,
                self.inv(),
                m == self@,
                curr.capacity() == self.num_states,
                m.run(input@) == m.run_from(curr@, input@.skip(it.index())),
        {
            let ghost rest = input@.skip(it.index());
            assert(rest.len() > 0 && rest[0] == sym);
            assert(rest.drop_first() =~= input@.skip(it.index() + 1));
            let j = match find_symbol(&self.alphabet, sym) {
                Some(j) => j,
                None => {
                    return None;
                },
            };
            let mut next = self.advance(&curr, j);
            if next.is_empty() {
                return Some(false);
            }
            epsilons(&mut next, &self.delta);
            curr = next;
        }
        assert(input@.skip(input@.len() as int) =~= Seq::<char>::empty());
        let b = holds_entry(&self.accept, &curr);
        proof {
            assert(m.accept == entries(self.accept@));
            if b {
                let s = choose|s: int| curr@.contains(s) && #[trigger] entries(self.accept@).contains(s);
                assert(curr@.contains(s) && m.accept.contains(s));
            }
            if m.accepting(curr@) {
                let s = choose|s: int| curr@.contains(s) && #[trigger] m.accept.contains(s);
                assert(curr@.contains(s) && entries(self.accept@).contains(s));
            }
        }
        Some(b)
    }
}

} // verus!
