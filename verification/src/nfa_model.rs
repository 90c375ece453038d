//! The mathematical model of a nondeterministic automaton, and what holds
//! of it.

use vstd::prelude::*;

verus! {

/// The symbol that stands for the empty word: a transition on it is taken
/// without reading anything. It is no member of any alphabet.
pub const EPSILON: char = '_';

/// A transition relation: `(s, c, t)` is a member where the automaton may go
/// from `s` to `t` on `c`.
pub type Relation = Set<(int, char, int)>;

/// The states to which some member of `from` may go on `c`.
pub open spec fn move_set(delta: Relation, from: Set<int>, c: char) -> Set<int> {
    Set::new(|t: int| exists|s: int| from.contains(s) && #[trigger] delta.contains((s, c, t)))
}

/// There is a transition on the empty word from the `i`-th state of `p` to
/// the next.
pub open spec fn epsilon_edge(delta: Relation, p: Seq<int>, i: int) -> bool {
    delta.contains((p[i], EPSILON, p[i + 1]))
}

/// `p` is a walk along transitions on the empty word.
pub open spec fn is_epsilon_path(delta: Relation, p: Seq<int>) -> bool {
    &&& p.len() > 0
    &&& forall|i: int| 0 <= i < p.len() - 1 ==> #[trigger] epsilon_edge(delta, p, i)
}

/// `p` is a walk on the empty word from a member of `from` to `t`.
pub open spec fn leads_to(delta: Relation, from: Set<int>, p: Seq<int>, t: int) -> bool {
    is_epsilon_path(delta, p) && from.contains(p[0]) && p.last() == t
}

/// The states that can be reached from a member of `from` without reading
/// anything.
pub open spec fn closure(delta: Relation, from: Set<int>) -> Set<int> {
    Set::new(|t: int| exists|p: Seq<int>| #[trigger] leads_to(delta, from, p, t))
}

/// No transition on the empty word leaves `set`.
pub open spec fn epsilon_closed(delta: Relation, set: Set<int>) -> bool {
    forall|s: int, t: int| set.contains(s) && #[trigger] delta.contains((s, EPSILON, t)) ==> set.contains(t)
}

/// The closure of a set holds the set.
pub proof fn lemma_closure_holds_set(delta: Relation, from: Set<int>)
    ensures
        from.subset_of(closure(delta, from)),
{
    assert forall|s: int| from.contains(s) implies closure(delta, from).contains(s) by {
        assert(leads_to(delta, from, seq![s], s));
    }
}

/// No transition on the empty word leaves the closure of a set.
pub proof fn lemma_closure_closed(delta: Relation, from: Set<int>)
    ensures
        epsilon_closed(delta, closure(delta, from)),
{
    let c = closure(delta, from);
    assert forall|s: int, t: int| c.contains(s) && #[trigger] delta.contains((s, EPSILON, t)) implies c.contains(
        t,
    ) by {
        let p = choose|p: Seq<int>| #[trigger] leads_to(delta, from, p, s);
        let longer = p.push(t);
        assert forall|i: int| 0 <= i < longer.len() - 1 implies #[trigger] epsilon_edge(delta, longer, i) by {
            if i < p.len() - 1 {
                assert(epsilon_edge(delta, p, i));
                assert(longer[i] == p[i] && longer[i + 1] == p[i + 1]);
            }
        }
        assert(leads_to(delta, from, longer, t));
    }
}

/// A set that holds `from`, and that no transition on the empty word leaves,
/// holds the end of every walk from `from`.
pub proof fn lemma_closed_set_holds_path(delta: Relation, from: Set<int>, closed: Set<int>, p: Seq<int>)
    requires
        from.subset_of(closed),
        epsilon_closed(delta, closed),
        is_epsilon_path(delta, p),
        from.contains(p[0]),
    ensures
        closed.contains(p.last()),
    decreases p.len(),
{
    if p.len() > 1 {
        let q = p.drop_last();
        assert forall|i: int| 0 <= i < q.len() - 1 implies #[trigger] epsilon_edge(delta, q, i) by {
            assert(epsilon_edge(delta, p, i));
            assert(q[i] == p[i] && q[i + 1] == p[i + 1]);
        }
        lemma_closed_set_holds_path(delta, from, closed, q);
        assert(epsilon_edge(delta, p, p.len() - 2));
    }
}

/// The closure is the least set that holds `from` and that no transition on
/// the empty word leaves.
pub proof fn lemma_closure_least(delta: Relation, from: Set<int>, closed: Set<int>)
    requires
        from.subset_of(closed),
        epsilon_closed(delta, closed),
    ensures
        closure(delta, from).subset_of(closed),
{
    assert forall|t: int| closure(delta, from).contains(t) implies closed.contains(t) by {
        let p = choose|p: Seq<int>| #[trigger] leads_to(delta, from, p, t);
        lemma_closed_set_holds_path(delta, from, closed, p);
    }
}

/// Taking the closure a second time adds nothing.
pub proof fn lemma_closure_idempotent(delta: Relation, from: Set<int>)
    ensures
        closure(delta, closure(delta, from)) == closure(delta, from),
{
    let once = closure(delta, from);
    lemma_closure_closed(delta, from);
    lemma_closure_least(delta, once, once);
    lemma_closure_holds_set(delta, once);
    assert(closure(delta, once) =~= once);
}

/// A nondeterministic automaton as a mathematical object: from a state there
/// may be no, one or several transitions on a symbol, and transitions on the
/// empty word.
pub struct NfaView {
    pub num_states: nat,
    pub alphabet: Seq<char>,
    pub start: int,
    pub accept: Set<int>,
    pub delta: Relation,
}

impl NfaView {
    /// Whether `s` is one of the states.
    pub open spec fn is_state(self, s: int) -> bool {
        0 <= s < self.num_states
    }

    /// The alphabet does not list the symbol for the empty word, and every
    /// transition goes from a state to a state, on a symbol of the alphabet
    /// or on the empty word.
    pub open spec fn wf(self) -> bool {
        &&& !self.alphabet.contains(EPSILON)
        &&& forall|s: int, c: char, t: int| #[trigger]
            self.delta.contains((s, c, t)) ==> self.is_state(s) && self.is_state(t) && (c == EPSILON
                || self.alphabet.contains(c))
    }

    /// Whether `set` holds an accepting state.
    pub open spec fn accepting(self, set: Set<int>) -> bool {
        exists|s: int| set.contains(s) && #[trigger] self.accept.contains(s)
    }

    /// The outcome on `w` where the automaton may be in any state of `cur`:
    /// invalid at the first symbol outside the alphabet; rejected as soon as
    /// no state is left to be in; else accepted where, at the end of the
    /// word, it may be in an accepting state.
    pub open spec fn run_from(self, cur: Set<int>, w: Seq<char>) -> Option<bool>
        decreases w.len(),
    {
        if w.len() == 0 {
            Some(self.accepting(cur))
        } else if !self.alphabet.contains(w[0]) {
            None
        } else if move_set(self.delta, cur, w[0]) == Set::<int>::empty() {
            Some(false)
        } else {
            self.run_from(closure(self.delta, move_set(self.delta, cur, w[0])), w.drop_first())
        }
    }

    /// The outcome of a membership query: accepted, rejected, or invalid.
    pub open spec fn run(self, w: Seq<char>) -> Option<bool> {
        self.run_from(closure(self.delta, set![self.start]), w)
    }
}

impl NfaView {
    /// Every symbol of `w` is in the alphabet.
    pub open spec fn valid_word(self, w: Seq<char>) -> bool {
        forall|i: int| 0 <= i < w.len() ==> self.alphabet.contains(#[trigger] w[i])
    }

    /// The states in which the automaton may be after reading `w`, where it
    /// may have been in any state of `cur` before.
    pub open spec fn reach_from(self, cur: Set<int>, w: Seq<char>) -> Set<int>
        decreases w.len(),
    {
        if w.len() == 0 {
            cur
        } else {
            self.reach_from(closure(self.delta, move_set(self.delta, cur, w[0])), w.drop_first())
        }
    }

    /// The states in which the automaton may be after reading `w`.
    pub open spec fn reach(self, w: Seq<char>) -> Set<int> {
        self.reach_from(closure(self.delta, set![self.start]), w)
    }
}

/// From no state, no word leads to a state.
pub proof fn lemma_reach_from_nothing(m: NfaView, w: Seq<char>)
    ensures
        m.reach_from(Set::<int>::empty(), w) == Set::<int>::empty(),
    decreases w.len(),
{
    let nothing = Set::<int>::empty();
    if w.len() > 0 {
        assert(move_set(m.delta, nothing, w[0]) =~= nothing);
        lemma_closure_least(m.delta, nothing, nothing);
        assert(closure(m.delta, nothing) =~= nothing);
        lemma_reach_from_nothing(m, w.drop_first());
    }
}

/// On a word over the alphabet, the outcome is whether the word may lead to
/// an accepting state.
pub proof fn lemma_run_from_decides(m: NfaView, cur: Set<int>, w: Seq<char>)
    requires
        m.valid_word(w),
    ensures
        m.run_from(cur, w) == Some(m.accepting(m.reach_from(cur, w))),
    decreases w.len(),
{
    if w.len() > 0 {
        let next = move_set(m.delta, cur, w[0]);
        assert(m.alphabet.contains(w[0]));
        assert forall|i: int| 0 <= i < w.drop_first().len() implies m.alphabet.contains(
            #[trigger] w.drop_first()[i],
        ) by {
            assert(w.drop_first()[i] == w[i + 1]);
        }
        if next == Set::<int>::empty() {
            lemma_closure_least(m.delta, next, next);
            assert(closure(m.delta, next) =~= next);
            lemma_reach_from_nothing(m, w.drop_first());
        } else {
            lemma_run_from_decides(m, closure(m.delta, next), w.drop_first());
        }
    }
}

/// On a word over the alphabet, an automaton accepts exactly where the word
/// may lead from the start state to an accepting state.
pub proof fn lemma_run_decides(m: NfaView, w: Seq<char>)
    requires
        m.valid_word(w),
    ensures
        m.run(w) == Some(m.accepting(m.reach(w))),
{
    lemma_run_from_decides(m, closure(m.delta, set![m.start]), w);
}

} // verus!
