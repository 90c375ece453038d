//! Minimization of a deterministic automaton by partition refinement.

use vstd::prelude::*;
use crate::dfa::{accept_set, dfa_fault, dfa_transition_fault, has_entry, lemma_no_fault, DFA};
use crate::dfa_model::{equivalent, lemma_reachable_step, lemma_reduced_smallest, reduced, smallest, DfaView};
use crate::error::ConstructionError;
use crate::Transition;
use crate::refinement::{
    all_saturated, block_accepts, closed_under_steps, edge_witness, extends, goes_into, has_edge, holds_both, in_block,
    is_quotient, keeps_nonempty, lemma_finished, lemma_forget, lemma_initial, lemma_initial_saturated, lemma_pop,
    lemma_quotient, lemma_slack_nonnegative, lemma_slack_split, lemma_split, lemma_split_saturated,
    lemma_symbol_done, lemma_without_empty, partition_inv, replaces, saturated, slack, stable, work_inv,
};
use crate::state_set::StateSet;

verus! {

/// The sets that a list of state sets holds.
pub open spec fn views(v: Seq<StateSet>) -> Seq<Set<int>> {
    Seq::new(v.len(), |i: int| v[i]@)
}

/// Every set of the list ranges over `n` states.
pub open spec fn all_capacity(v: Seq<StateSet>, n: nat) -> bool {
    forall|i: int| 0 <= i < v.len() ==> (#[trigger] v[i]).capacity() == n
}

/// What holds of a partition `q` and a worklist `w` while the set `s` is
/// processed on the symbols from position `from` on.
pub open spec fn refining(m: DfaView, r: Set<int>, q: Seq<Set<int>>, w: Seq<Set<int>>, s: Set<int>, from: int) -> bool {
    &&& partition_inv(m, r, q)
    &&& work_inv(m, q, w, s, from)
    &&& all_saturated(m, r, q)
    &&& all_saturated(m, r, w)
    &&& saturated(m, r, s)
}

/// No block before position `pos` holds both a member of `x` and a state
/// outside `x`.
pub open spec fn pure_upto(q: Seq<Set<int>>, pos: int, x: Set<int>) -> bool {
    forall|i: int, a: int, b: int| #[trigger] holds_both(q, i, a, b) && i < pos ==> x.contains(a) == x.contains(b)
}

/// Whether `w` holds a set with the members of `y`.
fn holds(w: &Vec<StateSet>, y: &StateSet) -> (b: bool)
    ensures
        b == exists|t: int| 0 <= t < w@.len() && (#[trigger] w@[t])@ == y@,
{
    let mut t: usize = 0;
    while t < w.len()
        invariant
            t <= w@.len(),
            forall|u: int| 0 <= u < t ==> (#[trigger] w@[u])@ != y@,
        decreases w@.len() - t,
    {
        if w[t].equals(y) {
            return true;
        }
        t += 1;
    }
    false
}

/// The members of `reachable` that go on the `j`-th symbol into `set`.
fn preimage(d: &DFA, reachable: &StateSet, set: &StateSet, j: usize) -> (x: StateSet)
    requires
        reachable.capacity() == d@.num_states,
        j < d@.alphabet.len(),
    ensures
        x.capacity() == d@.num_states,
        forall|s: int| x@.contains(s) <==> goes_into(d@, reachable@, set@, d@.alphabet[j as int], s),
{
    let n = d.num_states();
    let mut x = StateSet::new(n);
    let mut s: usize = 0;
    while s < n
        invariant
            s <= n,
            n == d@.num_states,
            j < d@.alphabet.len(),
            reachable.capacity() == n,
            x.capacity() == n,
            forall|t: int| x@.contains(t) <==> 0 <= t < s && goes_into(d@, reachable@, set@, d@.alphabet[j as int], t),
        decreases n - s,
    {
        if reachable.contains(s) {
            let t = d.target(s, j);
            if set.contains(t) {
                x.insert(s);
            }
        }
        s += 1;
    }
    proof {
        reachable.lemma_bounded();
    }
    x
}

/// Splits every block of `parts` that `x` cuts in two, and puts on the
/// worklist both halves of a block that is on it, and the smaller half of
/// any other.
fn split_blocks(
    d: &DFA,
    Ghost(r): Ghost<Set<int>>,
    parts: &Vec<StateSet>,
    w: Vec<StateSet>,
    Ghost(s): Ghost<Set<int>>,
    j: usize,
    x: &StateSet,
) -> (out: (Vec<StateSet>, Vec<StateSet>))
    requires
        d@.wf(),
        closed_under_steps(d@, r),
        j < d@.alphabet.len(),
        x.capacity() == d@.num_states,
        forall|a: int| x@.contains(a) <==> goes_into(d@, r, s, d@.alphabet[j as int], a),
        all_capacity(parts@, d@.num_states),
        all_capacity(w@, d@.num_states),
        refining(d@, r, views(parts@), views(w@), s, j as int),
    ensures
        all_capacity(out.0@, d@.num_states),
        all_capacity(out.1@, d@.num_states),
        refining(d@, r, views(out.0@), views(out.1@), s, j as int),
        pure_upto(views(out.0@), out.0@.len() as int, x@),
        2 * slack(views(out.0@)) + out.1@.len() <= 2 * slack(views(parts@)) + w@.len(),
{
    let ghost m = d@;
    let ghost c = m.alphabet[j as int];
    let ghost w0 = w@;
    let mut w = w;
    let mut new_p: Vec<StateSet> = Vec::new();
    let mut idx: usize = 0;
    proof {
        assert(views(new_p@) + views(parts@).skip(0) =~= views(parts@));
    }
    while idx < parts.len()
        invariant
            idx <= parts@.len(),
            m == d@,
            m.wf(),
            closed_under_steps(m, r),
            j < m.alphabet.len(),
            c == m.alphabet[j as int],
            x.capacity() == m.num_states,
            forall|a: int| x@.contains(a) <==> goes_into(m, r, s, c, a),
            all_capacity(parts@, m.num_states),
            all_capacity(w@, m.num_states),
            all_capacity(new_p@, m.num_states),
            refining(m, r, views(new_p@) + views(parts@).skip(idx as int), views(w@), s, j as int),
            pure_upto(views(new_p@) + views(parts@).skip(idx as int), new_p@.len() as int, x@),
            2 * slack(views(new_p@) + views(parts@).skip(idx as int)) + w@.len() <= 2 * slack(views(parts@))
                + w0.len(),
        decreases parts@.len() - idx,
    {
        let ghost q = views(new_p@) + views(parts@).skip(idx as int);
        let ghost wv = views(w@);
        let ghost pos = new_p@.len() as int;
        let y = &parts[idx];
        proof {
            assert(q[pos] == y@);
            y.lemma_bounded();
        }
        let mut intersection = y.duplicate();
        intersection.intersect_with(x);
        let mut difference = y.duplicate();
        difference.difference_with(x);
        if intersection.is_empty() || difference.is_empty() {
            new_p.push(y.duplicate());
            proof {
                let q2 = views(new_p@) + views(parts@).skip(idx + 1);
                assert(q2 =~= q);
                assert forall|i: int, a: int, b: int| #[trigger] holds_both(q, i, a, b) && i < pos + 1 implies x@.contains(
                    a,
                ) == x@.contains(b) by {
                    if i == pos {
                        if intersection@ =~= Set::<int>::empty() {
                            assert(!y@.intersect(x@).contains(a));
                            assert(!y@.intersect(x@).contains(b));
                        } else {
                            assert(!y@.difference(x@).contains(a));
                            assert(!y@.difference(x@).contains(b));
                        }
                    }
                }
            }
        } else {
            let on_worklist = holds(&w, y);
            new_p.push(intersection.duplicate());
            new_p.push(difference.duplicate());
            if on_worklist {
                w.push(intersection);
                w.push(difference);
            } else if intersection.len() <= difference.len() {
                w.push(intersection);
            } else {
                w.push(difference);
            }
            proof {
                let q2 = views(new_p@) + views(parts@).skip(idx + 1);
                let wv2 = views(w@);
                let y1 = y@.intersect(x@);
                let y2 = y@.difference(x@);
                assert(replaces(q, q2, pos, y1, y2));
                assert(extends(wv, wv2));
                let added = wv2.len() - 1;
                assert(wv2[added] == y1 || wv2[added] == y2);
                lemma_split(m, r, q, q2, wv, wv2, s, j as int, pos, x@, added);
                lemma_slack_split(q, q2, pos, x@);
                assert(y@.subset_of(r)) by {
                    assert forall|a: int| y@.contains(a) implies r.contains(a) by {
                        assert(in_block(q, pos, a));
                    }
                }
                lemma_split_saturated(m, r, s, c, x@, y@);
                assert(all_saturated(m, r, q2)) by {
                    assert forall|i: int| 0 <= i < q2.len() implies saturated(m, r, #[trigger] q2[i]) by {
                        if i < pos {
                            assert(q2[i] == q[i]);
                        } else if i > pos + 1 {
                            assert(q2[i] == q[i - 1]);
                        }
                    }
                }
                assert(all_saturated(m, r, wv2)) by {
                    assert forall|t: int| 0 <= t < wv2.len() implies saturated(m, r, #[trigger] wv2[t]) by {
                        if t < wv.len() {
                            assert(wv2[t] == wv[t]);
                        }
                    }
                }
                assert forall|i: int, a: int, b: int| #[trigger] holds_both(q2, i, a, b) && i < pos + 2 implies x@.contains(
                    a,
                ) == x@.contains(b) by {
                    if i < pos {
                        assert(q2[i] == q[i]);
                        assert(holds_both(q, i, a, b));
                    }
                }
            }
        }
        idx += 1;
    }
    proof {
        assert(views(new_p@) + views(parts@).skip(parts@.len() as int) =~= views(new_p@));
    }
    (new_p, w)
}

/// The blocks of `parts` that have a member, in their order.
fn drop_empty(parts: &Vec<StateSet>) -> (out: (Vec<StateSet>, Ghost<Seq<int>>))
    ensures
        out.0@.len() <= parts@.len(),
        keeps_nonempty(views(parts@), views(out.0@), out.1@),
        forall|i: int| 0 <= i < out.0@.len() ==> (#[trigger] out.0@[i]).capacity() == parts@[out.1@[i]].capacity(),
        forall|i: int| 0 <= i < out.0@.len() ==> (#[trigger] out.0@[i])@ != Set::<int>::empty(),
{
    let mut kept: Vec<StateSet> = Vec::new();
    let ghost mut origin: Seq<int> = Seq::empty();
    let mut t: usize = 0;
    while t < parts.len()
        invariant
            t <= parts@.len(),
            kept@.len() <= t,
            origin.len() == kept@.len(),
            forall|i: int|
                0 <= i < kept@.len() ==> 0 <= #[trigger] origin[i] < t && kept@[i]@ == parts@[origin[i]]@
                    && kept@[i].capacity() == parts@[origin[i]].capacity(),
            forall|i: int, j: int| 0 <= i < j < kept@.len() ==> #[trigger] origin[i] < #[trigger] origin[j],
            forall|u: int|
                0 <= u < t && (#[trigger] parts@[u])@ != Set::<int>::empty() ==> exists|i: int|
                    0 <= i < kept@.len() && #[trigger] origin[i] == u,
            forall|i: int| 0 <= i < kept@.len() ==> (#[trigger] kept@[i])@ != Set::<int>::empty(),
        decreases parts@.len() - t,
    {
        if !parts[t].is_empty() {
            let ghost before = origin;
            kept.push(parts[t].duplicate());
            proof {
                origin = origin.push(t as int);
                assert forall|u: int|
                    0 <= u < t + 1 && (#[trigger] parts@[u])@ != Set::<int>::empty() implies exists|i: int|
                    0 <= i < kept@.len() && #[trigger] origin[i] == u by {
                    if u < t {
                        let i = choose|i: int| 0 <= i < before.len() && #[trigger] before[i] == u;
                        assert(origin[i] == u);
                    } else {
                        assert(origin[kept@.len() - 1] == u);
                    }
                }
            }
        }
        t += 1;
    }
    proof {
        let q = views(parts@);
        let q2 = views(kept@);
        assert forall|u: int, x: int| #[trigger] in_block(q, u, x) implies exists|i: int|
            0 <= i < q2.len() && #[trigger] origin[i] == u by {
            assert(parts@[u]@.contains(x));
            assert(parts@[u]@ != Set::<int>::empty());
        }
    }
    (kept, Ghost(origin))
}

/// The coarsest partition of `reachable` that the transitions respect and
/// that parts the accepting states from the others: its blocks are the
/// classes of states from which the automaton decides every word alike.
fn refine(d: &DFA, reachable: &StateSet) -> (parts: Vec<StateSet>)
    requires
        reachable.capacity() == d@.num_states,
        closed_under_steps(d@, reachable@),
    ensures
        all_capacity(parts@, d@.num_states),
        partition_inv(d@, reachable@, views(parts@)),
        stable(d@, views(parts@)),
        all_saturated(d@, reachable@, views(parts@)),
        forall|i: int| 0 <= i < parts@.len() ==> (#[trigger] parts@[i])@ != Set::<int>::empty(),
{
    let ghost m = d@;
    let ghost r = reachable@;
    let n = d.num_states();
    let k = d.alphabet().len();
    let accept = d.accept_states();
    let mut non_accept = reachable.duplicate();
    non_accept.difference_with(&accept);
    let mut reachable_accept = accept.duplicate();
    reachable_accept.intersect_with(reachable);
    let mut partitions: Vec<StateSet> = Vec::new();
    let mut w: Vec<StateSet> = Vec::new();
    partitions.push(reachable_accept.duplicate());
    partitions.push(non_accept);
    w.push(reachable_accept);
    let ghost nothing = Set::<int>::empty();
    proof {
        let q = views(partitions@);
        let wv = views(w@);
        assert(q[0] =~= r.intersect(m.accept));
        assert(q[1] =~= r.difference(m.accept));
        lemma_initial(m, r, q, wv, nothing);
        lemma_initial_saturated(m, r);
    }
    loop
        invariant
            m == d@,
            m.wf(),
            r == reachable@,
            n == m.num_states,
            k == m.alphabet.len(),
            nothing == Set::<int>::empty(),
            reachable.capacity() == n,
            closed_under_steps(m, r),
            all_capacity(partitions@, m.num_states),
            all_capacity(w@, m.num_states),
            refining(m, r, views(partitions@), views(w@), nothing, k as int),
        ensures
            all_capacity(partitions@, m.num_states),
            partition_inv(m, r, views(partitions@)),
            stable(m, views(partitions@)),
            all_saturated(m, r, views(partitions@)),
        decreases 2 * slack(views(partitions@)) + w@.len(),
    {
        let ghost w_before = views(w@);
        let ghost measure = 2 * slack(views(partitions@)) + w@.len();
        proof {
            lemma_slack_nonnegative(views(partitions@));
        }
        let set = match w.pop() {
            Some(set) => set,
            None => {
                proof {
                    lemma_finished(m, views(partitions@), views(w@), nothing);
                }
                break ;
            },
        };
        proof {
            assert(views(w@) =~= w_before.drop_last());
            assert(set@ == w_before.last());
            lemma_pop(m, views(partitions@), w_before, nothing);
        }
        let mut j: usize = 0;
        while j < k
            invariant
                j <= k,
                m == d@,
                m.wf(),
                r == reachable@,
                n == m.num_states,
                k == m.alphabet.len(),
                reachable.capacity() == n,
                set.capacity() == n,
                closed_under_steps(m, r),
                all_capacity(partitions@, m.num_states),
                all_capacity(w@, m.num_states),
                refining(m, r, views(partitions@), views(w@), set@, j as int),
                2 * slack(views(partitions@)) + w@.len() <= measure - 1,
            decreases k - j,
        {
            let x = preimage(d, reachable, &set, j);
            let (new_p, new_w) = split_blocks(d, Ghost(r), &partitions, w, Ghost(set@), j, &x);
            partitions = new_p;
            w = new_w;
            proof {
                let q = views(partitions@);
                assert forall|i: int, a: int, b: int| #[trigger] holds_both(q, i, a, b) implies (goes_into(
                    m,
                    r,
                    set@,
                    m.alphabet[j as int],
                    a,
                ) == goes_into(m, r, set@, m.alphabet[j as int], b)) by {
                    assert(x@.contains(a) == x@.contains(b));
                }
                lemma_symbol_done(m, r, q, views(w@), set@, j as int);
            }
            j += 1;
        }
        proof {
            lemma_forget(m, views(partitions@), views(w@), set@, nothing);
            lemma_slack_nonnegative(views(partitions@));
        }
    }
    let (kept, Ghost(origin)) = drop_empty(&partitions);
    proof {
        lemma_without_empty(m, r, views(partitions@), views(kept@), origin);
    }
    kept
}

/// The first block that holds `s`.
fn find_block(parts: &Vec<StateSet>, s: usize) -> (r: Option<usize>)
    ensures
        match r {
            Some(b) => in_block(views(parts@), b as int, s as int),
            None => forall|b: int| !in_block(views(parts@), b, s as int),
        },
{
    let mut b: usize = 0;
    while b < parts.len()
        invariant
            b <= parts@.len(),
            forall|i: int| 0 <= i < b ==> !in_block(views(parts@), i, s as int),
        decreases parts@.len() - b,
    {
        if parts[b].contains(s) {
            return Some(b);
        }
        b += 1;
    }
    None
}

/// Whether the two sets have a member in common.
fn intersects(p: &StateSet, other: &StateSet) -> (b: bool)
    requires
        p.capacity() == other.capacity(),
    ensures
        b == exists|x: int| p@.contains(x) && other@.contains(x),
{
    let mut common = p.duplicate();
    common.intersect_with(other);
    let b = !common.is_empty();
    proof {
        if b {
            let x = choose|x: int| common@.contains(x);
            if forall|x: int| !common@.contains(x) {
                assert(common@ =~= Set::<int>::empty());
            }
            assert(p@.contains(x) && other@.contains(x));
        } else if exists|x: int| p@.contains(x) && other@.contains(x) {
            let x = choose|x: int| p@.contains(x) && other@.contains(x);
            assert(common@.contains(x));
        }
    }
    b
}

/// The list `accept` names block `b`.
pub open spec fn listed(accept: Seq<usize>, b: int) -> bool {
    exists|i: int| 0 <= i < accept.len() && #[trigger] accept[i] == b
}

/// The `t`-th transition of a quotient leaves block `row` on the symbol at
/// position `col`, and goes where the member `rep` of that block goes.
pub open spec fn edge_ok(m: DfaView, q: Seq<Set<int>>, t: Transition, row: int, col: int, rep: int) -> bool {
    &&& 0 <= row < q.len()
    &&& 0 <= col < m.alphabet.len()
    &&& t.0 == row
    &&& t.1 == m.alphabet[col]
    &&& in_block(q, row, rep)
    &&& in_block(q, t.2 as int, m.step(rep, m.alphabet[col]))
}

/// The `t`-th transition of a quotient stands at the place of its block and
/// symbol, and goes where the chosen member of its block goes.
pub open spec fn entry_ok(
    m: DfaView,
    q: Seq<Set<int>>,
    ts: Seq<Transition>,
    rows: Seq<int>,
    cols: Seq<int>,
    reps: Seq<int>,
    k: int,
    bound: int,
    t: int,
) -> bool {
    &&& t == rows[t] * k + cols[t]
    &&& rows[t] < bound
    &&& edge_ok(m, q, ts[t], rows[t], cols[t], reps[rows[t]])
}

impl DFA {
    /// The smallest automaton that gives the same outcome on every word.
    ///
    /// States that cannot be reached are left out, and states from which
    /// every word is decided alike become one state. The result is built by
    /// the ordinary constructor, which never refuses it.
    pub fn minimize(&self) -> (res: Result<DFA, ConstructionError>)
        ensures
            self@.wf(),
            res matches Ok(min) && {
                &&& min@.wf()
                &&& min@.alphabet == self@.alphabet
                &&& min@.same_language(self@)
                &&& equivalent(min@, self@)
                &&& reduced(min@)
                &&& smallest(min@)
                &&& min@.num_states <= self@.num_states
            },
    {
        let ghost m = self@;
        let n = self.num_states();
        let reachable = self.reachable_states();
        let ghost r = reachable@;
        proof {
            assert forall|x: int, c: char| r.contains(x) && m.has_symbol(c) implies r.contains(
                #[trigger] m.step(x, c),
            ) by {
                lemma_reachable_step(m, x, c);
            }
        }
        let parts = refine(self, &reachable);
        let ghost q = views(parts@);
        let alphabet = self.alphabet();
        let k = alphabet.len();
        let blocks = parts.len();
        let accepting = self.accept_states();
        let initial = self.start();
        let mut transitions: Vec<Transition> = Vec::new();
        let mut start: usize = 0;
        let mut accept: Vec<usize> = Vec::new();
        let ghost mut reps: Seq<int> = Seq::empty();
        let ghost mut rows: Seq<int> = Seq::empty();
        let ghost mut cols: Seq<int> = Seq::empty();
        let mut idx: usize = 0;
        proof {
            crate::dfa_model::lemma_start_reachable(m);
            assert(r.contains(m.start));
            let i = choose|i: int| #[trigger] in_block(q, i, m.start);
            assert(in_block(q, i, m.start));
        }
        while idx < blocks
            invariant
                idx <= blocks,
                m == self@,
                m.wf(),
                r == reachable@,
                q == views(parts@),
                blocks == parts@.len(),
                alphabet@ == m.alphabet,
                k == alphabet@.len(),
                n == m.num_states,
                initial == m.start,
                accepting@ == m.accept,
                accepting.capacity() == n,
                all_capacity(parts@, m.num_states),
                closed_under_steps(m, r),
                partition_inv(m, r, q),
                forall|i: int| 0 <= i < parts@.len() ==> (#[trigger] parts@[i])@ != Set::<int>::empty(),
                reps.len() == idx,
                forall|i: int| 0 <= i < idx ==> in_block(q, i, #[trigger] reps[i]),
                transitions@.len() == idx * k,
                rows.len() == transitions@.len(),
                cols.len() == transitions@.len(),
                forall|t: int|
                    0 <= t < transitions@.len() ==> #[trigger] entry_ok(
                        m,
                        q,
                        transitions@,
                        rows,
                        cols,
                        reps,
                        k as int,
                        idx as int,
                        t,
                    ),
                start < blocks,
                (exists|i: int| 0 <= i < idx && in_block(q, i, m.start)) ==> in_block(q, start as int, m.start),
                forall|i: int| 0 <= i < accept@.len() ==> #[trigger] accept@[i] < idx,
                forall|b: int| 0 <= b < idx ==> (#[trigger] listed(accept@, b) <==> block_accepts(m, q, b)),
            decreases blocks - idx,
        {
            let p = &parts[idx];
            assert(p@ == q[idx as int]);
            if let Some(elem) = p.first() {
                proof {
                    let before = reps;
                    reps = reps.push(elem as int);
                    assert(in_block(q, idx as int, elem as int));
                    assert(r.contains(elem as int));
                    assert forall|t: int| 0 <= t < transitions@.len() implies #[trigger] entry_ok(
                        m,
                        q,
                        transitions@,
                        rows,
                        cols,
                        reps,
                        k as int,
                        idx + 1,
                        t,
                    ) by {
                        assert(entry_ok(m, q, transitions@, rows, cols, before, k as int, idx as int, t));
                    }
                }
                let mut j: usize = 0;
                while j < k
                    invariant
                        j <= k,
                        idx < blocks,
                        m == self@,
                        m.wf(),
                        q == views(parts@),
                        blocks == parts@.len(),
                        alphabet@ == m.alphabet,
                        k == alphabet@.len(),
                        n == m.num_states,
                        closed_under_steps(m, r),
                        partition_inv(m, r, q),
                        elem < n,
                        r.contains(elem as int),
                        reps.len() == idx + 1,
                        reps[idx as int] == elem,
                        in_block(q, idx as int, elem as int),
                        transitions@.len() == idx * k + j,
                        rows.len() == transitions@.len(),
                        cols.len() == transitions@.len(),
                        forall|t: int|
                            0 <= t < transitions@.len() ==> #[trigger] entry_ok(
                                m,
                                q,
                                transitions@,
                                rows,
                                cols,
                                reps,
                                k as int,
                                idx + 1,
                                t,
                            ),
                    decreases k - j,
                {
                    let dest = self.target(elem, j);
                    proof {
                        assert(m.has_symbol(m.alphabet[j as int]));
                        assert(r.contains(dest as int));
                    }
                    if let Some(b) = find_block(&parts, dest) {
                        let ghost before = transitions@;
                        let ghost rows_before = rows;
                        let ghost cols_before = cols;
                        transitions.push((idx, alphabet[j], b));
                        proof {
                            rows = rows.push(idx as int);
                            cols = cols.push(j as int);
                            assert forall|t: int| 0 <= t < transitions@.len() implies #[trigger] entry_ok(
                                m,
                                q,
                                transitions@,
                                rows,
                                cols,
                                reps,
                                k as int,
                                idx + 1,
                                t,
                            ) by {
                                if t < before.len() {
                                    assert(entry_ok(m, q, before, rows_before, cols_before, reps, k as int, idx + 1, t));
                                    assert(transitions@[t] == before[t]);
                                }
                            }
                        }
                    }
                    j += 1;
                }
                if p.contains(initial) {
                    start = idx;
                }
                if intersects(p, &accepting) {
                    let ghost before = accept@;
                    accept.push(idx);
                    proof {
                        let x = choose|x: int| p@.contains(x) && accepting@.contains(x);
                        assert(holds_both(q, idx as int, x, x) && m.accept.contains(x));
                        assert(accept@[before.len() as int] == idx);
                        assert forall|b: int| 0 <= b < idx implies (#[trigger] listed(accept@, b)
                            <==> block_accepts(m, q, b)) by {
                            if listed(before, b) {
                                let i = choose|i: int| 0 <= i < before.len() && #[trigger] before[i] == b;
                                assert(accept@[i] == b);
                            }
                            if listed(accept@, b) {
                                let i = choose|i: int| 0 <= i < accept@.len() && #[trigger] accept@[i] == b;
                                assert(before[i] == b);
                            }
                        }
                        assert(listed(accept@, idx as int));
                        assert(block_accepts(m, q, idx as int));
                    }
                } else {
                    proof {
                        if block_accepts(m, q, idx as int) {
                            let x = choose|x: int| #[trigger] holds_both(q, idx as int, x, x) && m.accept.contains(x);
                            assert(p@.contains(x) && accepting@.contains(x));
                        }
                        if listed(accept@, idx as int) {
                            let i = choose|i: int| 0 <= i < accept@.len() && #[trigger] accept@[i] == idx;
                        }
                    }
                }
                proof {
                    assert((idx + 1) * k == idx * k + k) by (nonlinear_arith);
                }
            }
            idx += 1;
        }
        let res = DFA::new(blocks, alphabet, &transitions, start, &accept);
        proof {
            let ts = transitions@;
            assert(in_block(q, start as int, m.start)) by {
                assert(r.contains(m.start)) by {
                    crate::dfa_model::lemma_start_reachable(m);
                }
                let i = choose|i: int| #[trigger] in_block(q, i, m.start);
                assert(in_block(q, i, m.start));
            }
            assert forall|t: int| 0 <= t < ts.len() implies dfa_transition_fault(blocks, alphabet@, ts, t) is None by {
                assert(entry_ok(m, q, ts, rows, cols, reps, k as int, blocks as int, t));
                assert(alphabet@.contains(ts[t].1));
                if exists|u: int| 0 <= u < t && (#[trigger] ts[u]).0 == ts[t].0 && ts[u].1 == ts[t].1 {
                    let u = choose|u: int| 0 <= u < t && (#[trigger] ts[u]).0 == ts[t].0 && ts[u].1 == ts[t].1;
                    assert(entry_ok(m, q, ts, rows, cols, reps, k as int, blocks as int, u));
                    assert(cols[u] == cols[t]);
                }
            }
            lemma_no_fault(blocks, alphabet@, ts, 0);
            assert(dfa_fault(blocks, alphabet@, ts, start) is None);
            let min = res->Ok_0@;
            assert forall|b: int| 0 <= b < q.len() implies (#[trigger] min.accept.contains(b) <==> block_accepts(
                m,
                q,
                b,
            )) by {
                assert(listed(accept@, b) <==> block_accepts(m, q, b));
                if min.accept.contains(b) {
                    let i = choose|i: int| 0 <= i < accept@.len() && #[trigger] accept@[i] == b;
                    assert(listed(accept@, b));
                }
                if listed(accept@, b) {
                    let i = choose|i: int| 0 <= i < accept@.len() && #[trigger] accept@[i] == b;
                    assert(accept_set(blocks, accept@).contains(b));
                }
            }
            assert forall|b: int, c: char| 0 <= b < q.len() && m.has_symbol(c) implies #[trigger] has_edge(
                m,
                q,
                min,
                b,
                c,
            ) by {
                assert(min.is_state(b) && min.has_symbol(c));
                assert(has_entry(ts, b, c));
                let t = choose|t: int| 0 <= t < ts.len() && (#[trigger] ts[t]).0 == b && ts[t].1 == c;
                assert(entry_ok(m, q, ts, rows, cols, reps, k as int, blocks as int, t));
                assert(min.step(ts[t].0 as int, ts[t].1) == ts[t].2);
                assert(edge_witness(m, q, min, b, c, reps[b]));
            }
            assert(is_quotient(m, r, q, min));
            lemma_quotient(m, r, q, min);
            lemma_reduced_smallest(min);
            assert(equivalent(min, m));
        }
        res
    }
}

} // verus!
