//! The mathematical model of a deterministic automaton, and what holds of it.

use vstd::prelude::*;
use vstd::relations::injective_on;
use vstd::set_lib::{lemma_int_range, lemma_len_subset, lemma_map_size, set_int_range};

verus! {

/// A deterministic automaton as a mathematical object: states are the
/// integers `0..num_states`, and `delta` maps a state and a symbol to the
/// next state.
pub struct DfaView {
    pub num_states: nat,
    pub alphabet: Seq<char>,
    pub start: int,
    pub accept: Set<int>,
    pub delta: Map<(int, char), int>,
}

impl DfaView {
    /// Whether `s` is one of the states.
    pub open spec fn is_state(self, s: int) -> bool {
        0 <= s < self.num_states
    }

    /// Whether `c` is a symbol of the alphabet.
    pub open spec fn has_symbol(self, c: char) -> bool {
        self.alphabet.contains(c)
    }

    /// The state reached from `s` on `c`.
    pub open spec fn step(self, s: int, c: char) -> int {
        self.delta[(s, c)]
    }

    /// The transition function is total and single-valued on states and
    /// symbols, and stays within the states; no symbol is listed twice; the
    /// start state and the accepting states are states.
    pub open spec fn wf(self) -> bool {
        &&& self.is_state(self.start)
        &&& self.alphabet.no_duplicates()
        &&& forall|s: int| #[trigger] self.accept.contains(s) ==> self.is_state(s)
        &&& forall|s: int, c: char| #[trigger]
            self.delta.dom().contains((s, c)) <==> self.is_state(s) && self.has_symbol(c)
        &&& forall|s: int, c: char|
            self.is_state(s) && self.has_symbol(c) ==> self.is_state(#[trigger] self.step(s, c))
    }

    /// Every symbol of `w` is in the alphabet.
    pub open spec fn valid_word(self, w: Seq<char>) -> bool {
        forall|i: int| 0 <= i < w.len() ==> self.has_symbol(#[trigger] w[i])
    }

    /// The state reached from `s` after reading `w`, or `None` where a symbol
    /// has no transition.
    pub open spec fn run_from(self, s: int, w: Seq<char>) -> Option<int>
        decreases w.len(),
    {
        if w.len() == 0 {
            Some(s)
        } else if self.delta.dom().contains((s, w[0])) {
            self.run_from(self.step(s, w[0]), w.drop_first())
        } else {
            None
        }
    }

    /// Whether the automaton, started in `s`, ends in an accepting state on
    /// `w`; `None` where a symbol has no transition.
    pub open spec fn decide_from(self, s: int, w: Seq<char>) -> Option<bool> {
        match self.run_from(s, w) {
            Some(t) => Some(self.accept.contains(t)),
            None => None,
        }
    }

    /// The outcome of a membership query: accepted, rejected, or invalid.
    pub open spec fn run(self, w: Seq<char>) -> Option<bool> {
        self.decide_from(self.start, w)
    }

    /// Whether the automaton accepts `w`.
    pub open spec fn accepts(self, w: Seq<char>) -> bool {
        self.run(w) == Some(true)
    }

    /// Whether `s` is reached from the start state on some word.
    pub open spec fn reachable(self, s: int) -> bool {
        exists|w: Seq<char>| self.run_from(self.start, w) == Some(s)
    }

    /// The two automata read the same symbols, in whatever order they list
    /// them.
    pub open spec fn same_symbols(self, other: DfaView) -> bool {
        forall|c: char| self.has_symbol(c) <==> other.has_symbol(c)
    }

    /// The two automata give the same outcome on every word.
    pub open spec fn same_language(self, other: DfaView) -> bool {
        forall|w: Seq<char>| self.run(w) == other.run(w)
    }
}

/// In a well-formed automaton every state has exactly one transition on
/// every symbol, and it leads to a state.
pub proof fn lemma_delta_total(m: DfaView, s: int, c: char)
    requires
        m.wf(),
        m.is_state(s),
        m.has_symbol(c),
    ensures
        m.delta.dom().contains((s, c)),
        m.is_state(m.delta[(s, c)]),
{
    assert(m.is_state(m.step(s, c)));
}

/// Reading `u` and then `v` is reading `u + v`.
pub proof fn lemma_run_from_append(m: DfaView, s: int, u: Seq<char>, v: Seq<char>)
    ensures
        m.run_from(s, u + v) == match m.run_from(s, u) {
            Some(t) => m.run_from(t, v),
            None => None,
        },
    decreases u.len(),
{
    if u.len() == 0 {
        assert(u + v =~= v);
    } else {
        assert((u + v)[0] == u[0]);
        assert((u + v).drop_first() =~= u.drop_first() + v);
        if m.delta.dom().contains((s, u[0])) {
            lemma_run_from_append(m, m.step(s, u[0]), u.drop_first(), v);
        }
    }
}

/// Reading one more symbol `c` after `w`.
pub proof fn lemma_run_from_push(m: DfaView, s: int, w: Seq<char>, c: char)
    ensures
        m.run_from(s, w.push(c)) == match m.run_from(s, w) {
            Some(t) => if m.delta.dom().contains((t, c)) {
                Some(m.step(t, c))
            } else {
                None
            },
            None => None,
        },
{
    lemma_run_from_append(m, s, w, seq![c]);
    assert(w.push(c) =~= w + seq![c]);
    match m.run_from(s, w) {
        Some(t) => {
            assert(seq![c].drop_first() =~= Seq::<char>::empty());
            assert(seq![c][0] == c);
            if m.delta.dom().contains((t, c)) {
                assert(m.run_from(m.step(t, c), seq![c].drop_first()) == Some(m.step(t, c)));
            }
        },
        None => {},
    }
}

/// In a well-formed automaton a run from a state is defined exactly on the
/// words over the alphabet, and ends in a state.
pub proof fn lemma_run_from_total(m: DfaView, s: int, w: Seq<char>)
    requires
        m.wf(),
        m.is_state(s),
    ensures
        m.run_from(s, w) is Some <==> m.valid_word(w),
        m.run_from(s, w) matches Some(t) ==> m.is_state(t),
    decreases w.len(),
{
    if w.len() == 0 {
    } else {
        if m.delta.dom().contains((s, w[0])) {
            assert(m.has_symbol(w[0]));
            assert(m.is_state(m.step(s, w[0])));
            lemma_run_from_total(m, m.step(s, w[0]), w.drop_first());
            if m.valid_word(w.drop_first()) {
                assert forall|i: int| 0 <= i < w.len() implies m.has_symbol(#[trigger] w[i]) by {
                    if i > 0 {
                        assert(w[i] == w.drop_first()[i - 1]);
                    }
                }
            } else {
                let i = choose|i: int| 0 <= i < w.drop_first().len() && !m.has_symbol(#[trigger] w.drop_first()[i]);
                assert(w[i + 1] == w.drop_first()[i]);
            }
        } else {
            assert(!m.has_symbol(w[0]));
        }
    }
}

/// The number that the pair of states `(i, j)` has in a product automaton
/// whose second factor has `n2` states.
pub open spec fn pair_id(i: int, j: int, n2: int) -> int {
    i * n2 + j
}

/// `p` runs `a` and `b` side by side: its states are the pairs of their
/// states, numbered by `pair_id`, and it steps in both at once.
pub open spec fn is_product(p: DfaView, a: DfaView, b: DfaView) -> bool {
    &&& p.wf()
    &&& p.num_states == a.num_states * b.num_states
    &&& p.alphabet == a.alphabet
    &&& p.start == pair_id(a.start, b.start, b.num_states as int)
    &&& forall|i: int, j: int, c: char|
        a.is_state(i) && b.is_state(j) && a.has_symbol(c) ==> #[trigger] p.step(
            pair_id(i, j, b.num_states as int),
            c,
        ) == pair_id(a.step(i, c), b.step(j, c), b.num_states as int)
}

/// What two outcomes combine to under a connective: invalid where either is.
pub open spec fn combine(x: Option<bool>, y: Option<bool>, op: spec_fn(bool, bool) -> bool) -> Option<
    bool,
> {
    match (x, y) {
        (Some(a), Some(b)) => Some(op(a, b)),
        _ => None,
    }
}

/// A pair of states is a state of the product.
pub proof fn lemma_pair_is_state(i: int, j: int, n1: int, n2: int)
    requires
        0 <= i < n1,
        0 <= j < n2,
    ensures
        0 <= pair_id(i, j, n2) < n1 * n2,
{
    assert(i * n2 + n2 <= n1 * n2) by (nonlinear_arith)
        requires
            0 <= i < n1,
            0 <= n2,
    ;
    assert(0 <= i * n2) by (nonlinear_arith)
        requires
            0 <= i,
            0 <= n2,
    ;
}

/// A product, started in the pair `(i, j)`, ends in the pair of the states in
/// which its factors end.
pub proof fn lemma_product_run(p: DfaView, a: DfaView, b: DfaView, i: int, j: int, w: Seq<char>)
    requires
        a.wf(),
        b.wf(),
        a.same_symbols(b),
        is_product(p, a, b),
        a.is_state(i),
        b.is_state(j),
    ensures
        p.run_from(pair_id(i, j, b.num_states as int), w) == match (a.run_from(i, w), b.run_from(j, w)) {
            (Some(x), Some(y)) => Some(pair_id(x, y, b.num_states as int)),
            _ => None,
        },
        a.run_from(i, w) is Some <==> b.run_from(j, w) is Some,
    decreases w.len(),
{
    let n2 = b.num_states as int;
    lemma_pair_is_state(i, j, a.num_states as int, n2);
    if w.len() > 0 {
        let c = w[0];
        assert(a.has_symbol(c) <==> b.has_symbol(c));
        if a.has_symbol(c) {
            assert(p.has_symbol(c));
            assert(a.delta.dom().contains((i, c)));
            assert(b.delta.dom().contains((j, c)));
            assert(p.delta.dom().contains((pair_id(i, j, n2), c)));
            assert(a.is_state(a.step(i, c)));
            assert(b.is_state(b.step(j, c)));
            lemma_product_run(p, a, b, a.step(i, c), b.step(j, c), w.drop_first());
        } else {
            assert(!a.delta.dom().contains((i, c)));
            assert(!b.delta.dom().contains((j, c)));
            assert(!p.has_symbol(c));
            assert(!p.delta.dom().contains((pair_id(i, j, n2), c)));
        }
    }
}

/// A product whose pairs accept by `op` decides every word as `op` combines
/// what its factors decide.
pub proof fn lemma_product_language(
    p: DfaView,
    a: DfaView,
    b: DfaView,
    op: spec_fn(bool, bool) -> bool,
    w: Seq<char>,
)
    requires
        a.wf(),
        b.wf(),
        a.same_symbols(b),
        is_product(p, a, b),
        forall|i: int, j: int|
            a.is_state(i) && b.is_state(j) ==> p.accept.contains(#[trigger] pair_id(i, j, b.num_states as int))
                == op(a.accept.contains(i), b.accept.contains(j)),
    ensures
        p.run(w) == combine(a.run(w), b.run(w), op),
{
    lemma_product_run(p, a, b, a.start, b.start, w);
    lemma_run_from_total(a, a.start, w);
    lemma_run_from_total(b, b.start, w);
}

/// The opposite outcome; an invalid word stays invalid.
pub open spec fn negate(x: Option<bool>) -> Option<bool> {
    match x {
        Some(b) => Some(!b),
        None => None,
    }
}

impl DfaView {
    /// The same automaton with accepting and non-accepting states exchanged.
    pub open spec fn complement(self) -> DfaView {
        DfaView { accept: Set::new(|s: int| self.is_state(s) && !self.accept.contains(s)), ..self }
    }
}

/// The complement decides every word the other way.
pub proof fn lemma_complement_run(m: DfaView, w: Seq<char>)
    requires
        m.wf(),
    ensures
        m.complement().wf(),
        m.complement().run(w) == negate(m.run(w)),
{
    let c = m.complement();
    assert(c.wf()) by {
        assert forall|s: int, a: char| c.is_state(s) && c.has_symbol(a) implies c.is_state(
            #[trigger] c.step(s, a),
        ) by {
            assert(m.is_state(m.step(s, a)));
        }
    }
    lemma_same_moves(m, c, m.start, w);
    lemma_run_from_total(m, m.start, w);
}

/// Automata with the same transition function make the same moves.
pub proof fn lemma_same_moves(a: DfaView, b: DfaView, s: int, w: Seq<char>)
    requires
        a.delta == b.delta,
    ensures
        a.run_from(s, w) == b.run_from(s, w),
    decreases w.len(),
{
    if w.len() > 0 && a.delta.dom().contains((s, w[0])) {
        lemma_same_moves(a, b, a.step(s, w[0]), w.drop_first());
    }
}

/// Complementing twice gives the automaton back, and so the same outcome on
/// every word.
pub proof fn lemma_complement_involution(m: DfaView, w: Seq<char>)
    requires
        m.wf(),
    ensures
        m.complement().complement() == m,
        m.complement().complement().run(w) == m.run(w),
{
    assert(m.complement().complement().accept =~= m.accept);
}

/// A set of states that holds the start state and is closed under every
/// transition holds every state that a run from the start state visits.
pub proof fn lemma_closed_set_holds_reachable(m: DfaView, closed: Set<int>, w: Seq<char>)
    requires
        m.wf(),
        closed.contains(m.start),
        forall|s: int, c: char|
            closed.contains(s) && m.is_state(s) && m.has_symbol(c) ==> closed.contains(#[trigger] m.step(s, c)),
    ensures
        m.run_from(m.start, w) matches Some(t) ==> closed.contains(t) && m.is_state(t),
    decreases w.len(),
{
    if w.len() > 0 {
        let v = w.drop_last();
        let c = w.last();
        assert(w =~= v.push(c));
        lemma_run_from_push(m, m.start, v, c);
        lemma_closed_set_holds_reachable(m, closed, v);
        if let Some(t) = m.run_from(m.start, v) {
            if m.delta.dom().contains((t, c)) {
                assert(closed.contains(m.step(t, c)));
                assert(m.is_state(m.step(t, c)));
            }
        }
    }
}

/// A state reached on one symbol from a reachable state is reachable.
pub proof fn lemma_reachable_step(m: DfaView, s: int, c: char)
    requires
        m.wf(),
        m.is_state(s),
        m.reachable(s),
        m.has_symbol(c),
    ensures
        m.reachable(m.step(s, c)),
{
    let w = choose|w: Seq<char>| m.run_from(m.start, w) == Some(s);
    lemma_run_from_push(m, m.start, w, c);
    assert(m.run_from(m.start, w.push(c)) == Some(m.step(s, c)));
}

/// The start state is reachable.
pub proof fn lemma_start_reachable(m: DfaView)
    ensures
        m.reachable(m.start),
{
    assert(m.run_from(m.start, Seq::<char>::empty()) == Some(m.start));
}

/// Automata over the same symbols find the same words invalid.
pub proof fn lemma_same_validity(a: DfaView, b: DfaView, w: Seq<char>)
    requires
        a.wf(),
        b.wf(),
        a.same_symbols(b),
    ensures
        a.run(w) is Some <==> b.run(w) is Some,
        a.run(w) is Some <==> a.valid_word(w),
{
    lemma_run_from_total(a, a.start, w);
    lemma_run_from_total(b, b.start, w);
    if a.valid_word(w) {
        assert forall|i: int| 0 <= i < w.len() implies b.has_symbol(#[trigger] w[i]) by {
            assert(a.has_symbol(w[i]));
        }
    }
    if b.valid_word(w) {
        assert forall|i: int| 0 <= i < w.len() implies a.has_symbol(#[trigger] w[i]) by {
            assert(b.has_symbol(w[i]));
        }
    }
}

/// Two states from which the automaton decides every word alike.
pub open spec fn equivalent_states(m: DfaView, x: int, y: int) -> bool {
    forall|w: Seq<char>| m.decide_from(x, w) == m.decide_from(y, w)
}

/// Two states from which the automaton decides some word differently.
pub open spec fn distinguishable(m: DfaView, x: int, y: int) -> bool {
    exists|w: Seq<char>| m.decide_from(x, w) != m.decide_from(y, w)
}

/// No state can be left out and no two states merged: every state is
/// reached from the start state, and any two states are told apart by some
/// word.
pub open spec fn reduced(m: DfaView) -> bool {
    &&& forall|s: int| m.is_state(s) ==> m.reachable(s)
    &&& forall|s: int, t: int| m.is_state(s) && m.is_state(t) && s != t ==> distinguishable(m, s, t)
}

/// The two automata read the same symbols and give the same outcome on every
/// word.
pub open spec fn equivalent(a: DfaView, b: DfaView) -> bool {
    a.same_symbols(b) && a.same_language(b)
}

/// Every automaton is equivalent to itself.
pub proof fn lemma_equivalent_reflexive(a: DfaView)
    ensures
        equivalent(a, a),
{
}

/// Equivalence does not depend on the order of the two automata.
pub proof fn lemma_equivalent_symmetric(a: DfaView, b: DfaView)
    requires
        equivalent(a, b),
    ensures
        equivalent(b, a),
{
    assert forall|c: char| b.has_symbol(c) <==> a.has_symbol(c) by {
        assert(a.has_symbol(c) <==> b.has_symbol(c));
    }
    assert forall|w: Seq<char>| b.run(w) == a.run(w) by {
        assert(a.run(w) == b.run(w));
    }
}

/// Automata equivalent to a third one are equivalent to each other.
pub proof fn lemma_equivalent_transitive(a: DfaView, b: DfaView, c: DfaView)
    requires
        equivalent(a, b),
        equivalent(b, c),
    ensures
        equivalent(a, c),
{
    assert forall|x: char| a.has_symbol(x) <==> c.has_symbol(x) by {
        assert(a.has_symbol(x) <==> b.has_symbol(x));
        assert(b.has_symbol(x) <==> c.has_symbol(x));
    }
    assert forall|w: Seq<char>| a.run(w) == c.run(w) by {
        assert(a.run(w) == b.run(w));
        assert(b.run(w) == c.run(w));
    }
}

/// No well-formed automaton that is equivalent to `m` has fewer states.
pub open spec fn smallest(m: DfaView) -> bool {
    forall|other: DfaView| other.wf() && #[trigger] equivalent(m, other) ==> m.num_states <= other.num_states
}

/// A word that leads from the start state to `s`.
pub open spec fn access_word(m: DfaView, s: int) -> Seq<char> {
    choose|w: Seq<char>| m.run_from(m.start, w) == Some(s)
}

/// The state in which `other` is after the word that leads `m` to `s`.
pub open spec fn counterpart(m: DfaView, other: DfaView, s: int) -> int {
    other.run_from(other.start, access_word(m, s))->0
}

/// What an automaton decides of `w + v` is what it decides of `v` from the
/// state to which `w` leads.
pub proof fn lemma_decide_append(m: DfaView, w: Seq<char>, v: Seq<char>, s: int)
    requires
        m.run_from(m.start, w) == Some(s),
    ensures
        m.run(w + v) == m.decide_from(s, v),
{
    lemma_run_from_append(m, m.start, w, v);
}

/// In equivalent automata, the states to which one word leads decide every
/// further word alike.
pub proof fn lemma_counterpart_decides(m: DfaView, other: DfaView, s: int, v: Seq<char>)
    requires
        m.wf(),
        other.wf(),
        equivalent(m, other),
        m.is_state(s),
        m.reachable(s),
    ensures
        other.is_state(counterpart(m, other, s)),
        other.decide_from(counterpart(m, other, s), v) == m.decide_from(s, v),
{
    let w = access_word(m, s);
    lemma_same_validity(m, other, w);
    lemma_run_from_total(other, other.start, w);
    assert(m.run(w) is Some);
    assert(other.run(w) is Some);
    lemma_decide_append(m, w, v, s);
    lemma_decide_append(other, w, v, counterpart(m, other, s));
    assert(m.run(w + v) == other.run(w + v));
}

/// A reduced automaton is a smallest one: an equivalent automaton has a
/// state of its own for each of its states.
pub proof fn lemma_reduced_is_smallest(m: DfaView, other: DfaView)
    requires
        m.wf(),
        other.wf(),
        reduced(m),
        equivalent(m, other),
    ensures
        m.num_states <= other.num_states,
{
    let states = set_int_range(0, m.num_states as int);
    let f = |s: int| counterpart(m, other, s);
    lemma_int_range(0, m.num_states as int);
    lemma_int_range(0, other.num_states as int);
    assert(injective_on(f, states)) by {
        assert forall|s: int, t: int| states.contains(s) && states.contains(t) && #[trigger] f(s) == #[trigger] f(
            t,
        ) implies s == t by {
            if s != t {
                assert(m.is_state(s) && m.is_state(t));
                assert(m.reachable(s) && m.reachable(t));
                assert(distinguishable(m, s, t));
                let v = choose|v: Seq<char>| m.decide_from(s, v) != m.decide_from(t, v);
                lemma_counterpart_decides(m, other, s, v);
                lemma_counterpart_decides(m, other, t, v);
                assert(f(s) == counterpart(m, other, s));
                assert(f(t) == counterpart(m, other, t));
            }
        }
    }
    let image = states.map(f);
    lemma_map_size(states, image, f);
    assert(image.subset_of(set_int_range(0, other.num_states as int))) by {
        assert forall|y: int| image.contains(y) implies set_int_range(0, other.num_states as int).contains(y) by {
            let s = choose|s: int| states.contains(s) && y == f(s);
            assert(m.is_state(s));
            assert(m.reachable(s));
            lemma_counterpart_decides(m, other, s, Seq::<char>::empty());
        }
    }
    lemma_len_subset(image, set_int_range(0, other.num_states as int));
}

/// A reduced automaton is a smallest one among the automata that are
/// equivalent to it.
pub proof fn lemma_reduced_smallest(m: DfaView)
    requires
        m.wf(),
        reduced(m),
    ensures
        smallest(m),
{
    assert forall|other: DfaView| other.wf() && #[trigger] equivalent(m, other) implies m.num_states
        <= other.num_states by {
        lemma_reduced_is_smallest(m, other);
    }
}

/// Automata that are equivalent stay so when each is replaced by an
/// automaton for its language over its alphabet, such as its minimization.
pub proof fn lemma_equivalent_replaced(a: DfaView, b: DfaView, a2: DfaView, b2: DfaView)
    requires
        equivalent(a, b),
        a2.alphabet == a.alphabet,
        b2.alphabet == b.alphabet,
        a2.same_language(a),
        b2.same_language(b),
    ensures
        equivalent(a2, b2),
{
    assert forall|c: char| a2.has_symbol(c) <==> b2.has_symbol(c) by {
        assert(a.has_symbol(c) <==> b.has_symbol(c));
    }
    assert forall|w: Seq<char>| a2.run(w) == b2.run(w) by {
        assert(a2.run(w) == a.run(w));
        assert(a.run(w) == b.run(w));
        assert(b2.run(w) == b.run(w));
    }
}

} // verus!
