//! Partitions of the reachable states of a deterministic automaton, and the
//! facts by which splitting their blocks arrives at a partition that the
//! transitions respect.

use vstd::prelude::*;
use vstd::set_lib::lemma_set_disjoint_lens;
use crate::dfa_model::{distinguishable, equivalent_states, reduced, DfaView};

verus! {

/// Block `i` of `q` holds both `a` and `b`.
pub open spec fn holds_both(q: Seq<Set<int>>, i: int, a: int, b: int) -> bool {
    0 <= i < q.len() && q[i].contains(a) && q[i].contains(b)
}

/// Some block of `q` holds both `a` and `b`.
pub open spec fn together(q: Seq<Set<int>>, a: int, b: int) -> bool {
    exists|i: int| #[trigger] holds_both(q, i, a, b)
}

/// Block `i` of `q` holds `x`.
pub open spec fn in_block(q: Seq<Set<int>>, i: int, x: int) -> bool {
    0 <= i < q.len() && q[i].contains(x)
}

/// The blocks of `q` are disjoint and together make up `r`, and no block
/// holds both an accepting and a non-accepting state.
pub open spec fn partition_inv(m: DfaView, r: Set<int>, q: Seq<Set<int>>) -> bool {
    &&& forall|i: int, x: int| #[trigger] in_block(q, i, x) ==> r.contains(x)
    &&& forall|x: int| r.contains(x) ==> exists|i: int| #[trigger] in_block(q, i, x)
    &&& forall|i: int, j: int, x: int| #[trigger] in_block(q, i, x) && #[trigger] in_block(q, j, x) ==> i == j
    &&& forall|i: int, x: int, y: int| #[trigger]
        holds_both(q, i, x, y) ==> m.accept.contains(x) == m.accept.contains(y)
}

/// Exactly one of the states that `x` and `y` go to on `c` is in `t`.
pub open spec fn splits(m: DfaView, t: Set<int>, x: int, y: int, c: char) -> bool {
    t.contains(m.step(x, c)) != t.contains(m.step(y, c))
}

/// The `t`-th set on the worklist `w` tells `x` and `y` apart on `c`.
pub open spec fn split_by(m: DfaView, w: Seq<Set<int>>, t: int, x: int, y: int, c: char) -> bool {
    0 <= t < w.len() && splits(m, w[t], x, y, c)
}

/// The pair `x`, `y` is accounted for on the `j`-th symbol: either the
/// transitions take both into one block, or a set that is still to be
/// processed tells them apart: one on the worklist `w`, or the set `s` in
/// hand, whose symbols from position `from` on are still to come.
pub open spec fn settled(
    m: DfaView,
    q: Seq<Set<int>>,
    w: Seq<Set<int>>,
    s: Set<int>,
    from: int,
    x: int,
    y: int,
    j: int,
) -> bool {
    let c = m.alphabet[j];
    ||| together(q, m.step(x, c), m.step(y, c))
    ||| exists|t: int| #[trigger] split_by(m, w, t, x, y, c)
    ||| from <= j && splits(m, s, x, y, c)
}

/// `x` and `y` share block `i`, and `j` is the position of a symbol.
pub open spec fn obligation(q: Seq<Set<int>>, i: int, x: int, y: int, j: int, k: int) -> bool {
    holds_both(q, i, x, y) && 0 <= j < k
}

/// Every pair of states that share a block is accounted for on every symbol.
pub open spec fn work_inv(m: DfaView, q: Seq<Set<int>>, w: Seq<Set<int>>, s: Set<int>, from: int) -> bool {
    forall|i: int, x: int, y: int, j: int| #[trigger]
        obligation(q, i, x, y, j, m.alphabet.len() as int) ==> settled(m, q, w, s, from, x, y, j)
}

/// The transitions respect the blocks: states that share a block go, on each
/// symbol, to states that share a block.
pub open spec fn stable(m: DfaView, q: Seq<Set<int>>) -> bool {
    forall|i: int, x: int, y: int, j: int| #[trigger]
        obligation(q, i, x, y, j, m.alphabet.len() as int) ==> together(
            q,
            m.step(x, m.alphabet[j]),
            m.step(y, m.alphabet[j]),
        )
}

/// `r` is a set of states that the transitions do not leave.
pub open spec fn closed_under_steps(m: DfaView, r: Set<int>) -> bool {
    &&& forall|x: int| r.contains(x) ==> m.is_state(x)
    &&& forall|x: int, c: char| r.contains(x) && m.has_symbol(c) ==> r.contains(#[trigger] m.step(x, c))
}

/// `x` is a member of `r` that goes on `c` into `s`.
pub open spec fn goes_into(m: DfaView, r: Set<int>, s: Set<int>, c: char, x: int) -> bool {
    r.contains(x) && s.contains(m.step(x, c))
}

/// `q2` is `q` with block `pos` replaced by the two blocks `y1` and `y2`.
pub open spec fn replaces(q: Seq<Set<int>>, q2: Seq<Set<int>>, pos: int, y1: Set<int>, y2: Set<int>) -> bool {
    &&& 0 <= pos < q.len()
    &&& q2.len() == q.len() + 1
    &&& forall|i: int| 0 <= i < pos ==> #[trigger] q2[i] == q[i]
    &&& q2[pos] == y1
    &&& q2[pos + 1] == y2
    &&& forall|i: int| pos + 1 < i < q2.len() ==> #[trigger] q2[i] == q[i - 1]
}

/// `w2` is `w` with sets added at its end.
pub open spec fn extends(w: Seq<Set<int>>, w2: Seq<Set<int>>) -> bool {
    &&& w.len() <= w2.len()
    &&& forall|t: int| 0 <= t < w.len() ==> #[trigger] w2[t] == w[t]
}

/// The partition into accepting and non-accepting members of `r`, with the
/// accepting ones on the worklist, accounts for every pair.
pub proof fn lemma_initial(m: DfaView, r: Set<int>, q: Seq<Set<int>>, w: Seq<Set<int>>, s: Set<int>)
    requires
        m.wf(),
        closed_under_steps(m, r),
        q.len() == 2,
        q[0] == r.intersect(m.accept),
        q[1] == r.difference(m.accept),
        w.len() == 1,
        w[0] == q[0],
    ensures
        partition_inv(m, r, q),
        work_inv(m, q, w, s, m.alphabet.len() as int),
{
    assert forall|x: int| r.contains(x) implies exists|i: int| #[trigger] in_block(q, i, x) by {
        if m.accept.contains(x) {
            assert(in_block(q, 0, x));
        } else {
            assert(in_block(q, 1, x));
        }
    }
    assert forall|i: int, x: int, y: int, j: int| #[trigger]
        obligation(q, i, x, y, j, m.alphabet.len() as int) implies settled(
        m,
        q,
        w,
        s,
        m.alphabet.len() as int,
        x,
        y,
        j,
    ) by {
        let c = m.alphabet[j];
        assert(m.has_symbol(c));
        let a = m.step(x, c);
        let b = m.step(y, c);
        assert(r.contains(a) && r.contains(b));
        if m.accept.contains(a) == m.accept.contains(b) {
            if m.accept.contains(a) {
                assert(holds_both(q, 0, a, b));
            } else {
                assert(holds_both(q, 1, a, b));
            }
        } else {
            assert(split_by(m, w, 0, x, y, c));
        }
    }
}

/// Taking a set off the worklist to process it on every symbol keeps every
/// pair accounted for.
pub proof fn lemma_pop(m: DfaView, q: Seq<Set<int>>, w: Seq<Set<int>>, s: Set<int>)
    requires
        w.len() > 0,
        work_inv(m, q, w, s, m.alphabet.len() as int),
    ensures
        work_inv(m, q, w.drop_last(), w.last(), 0),
{
    let k = m.alphabet.len() as int;
    let w2 = w.drop_last();
    assert forall|i: int, x: int, y: int, j: int| #[trigger] obligation(q, i, x, y, j, k) implies settled(
        m,
        q,
        w2,
        w.last(),
        0,
        x,
        y,
        j,
    ) by {
        let c = m.alphabet[j];
        assert(settled(m, q, w, s, k, x, y, j));
        if together(q, m.step(x, c), m.step(y, c)) {
        } else {
            let t = choose|t: int| #[trigger] split_by(m, w, t, x, y, c);
            if t == w.len() - 1 {
                assert(splits(m, w.last(), x, y, c));
            } else {
                assert(split_by(m, w2, t, x, y, c));
            }
        }
    }
}

/// Once no block holds both a state that goes on the `j`-th symbol into `s`
/// and one that does not, `s` is done with that symbol.
pub proof fn lemma_symbol_done(m: DfaView, r: Set<int>, q: Seq<Set<int>>, w: Seq<Set<int>>, s: Set<int>, j: int)
    requires
        0 <= j < m.alphabet.len(),
        partition_inv(m, r, q),
        work_inv(m, q, w, s, j),
        forall|i: int, x: int, y: int| #[trigger]
            holds_both(q, i, x, y) ==> (goes_into(m, r, s, m.alphabet[j], x) == goes_into(
                m,
                r,
                s,
                m.alphabet[j],
                y,
            )),
    ensures
        work_inv(m, q, w, s, j + 1),
{
    let k = m.alphabet.len() as int;
    assert forall|i: int, x: int, y: int, j2: int| #[trigger] obligation(q, i, x, y, j2, k) implies settled(
        m,
        q,
        w,
        s,
        j + 1,
        x,
        y,
        j2,
    ) by {
        assert(settled(m, q, w, s, j, x, y, j2));
        if j2 == j {
            assert(holds_both(q, i, x, y));
            assert(in_block(q, i, x) && in_block(q, i, y));
            assert(r.contains(x) && r.contains(y));
            assert(goes_into(m, r, s, m.alphabet[j], x) == goes_into(m, r, s, m.alphabet[j], y));
            assert(!splits(m, s, x, y, m.alphabet[j]));
        }
    }
}

/// Splitting a block in two, and putting at least one of the two halves on
/// the worklist, keeps the partition a partition and every pair accounted
/// for.
pub proof fn lemma_split(
    m: DfaView,
    r: Set<int>,
    q: Seq<Set<int>>,
    q2: Seq<Set<int>>,
    w: Seq<Set<int>>,
    w2: Seq<Set<int>>,
    s: Set<int>,
    from: int,
    pos: int,
    x_set: Set<int>,
    added: int,
)
    requires
        partition_inv(m, r, q),
        work_inv(m, q, w, s, from),
        replaces(q, q2, pos, q[pos].intersect(x_set), q[pos].difference(x_set)),
        extends(w, w2),
        0 <= added < w2.len(),
        w2[added] == q[pos].intersect(x_set) || w2[added] == q[pos].difference(x_set),
    ensures
        partition_inv(m, r, q2),
        work_inv(m, q2, w2, s, from),
{
    let k = m.alphabet.len() as int;
    let y = q[pos];
    let y1 = y.intersect(x_set);
    let y2 = y.difference(x_set);
    // Where a block of the new partition comes from.
    let old_index = |i: int| if i <= pos { i } else { i - 1 };
    assert forall|i: int, x: int| #[trigger] in_block(q2, i, x) implies in_block(q, old_index(i), x) by {
        if i < pos {
            assert(q2[i] == q[i]);
        } else if i > pos + 1 {
            assert(q2[i] == q[i - 1]);
        }
    }
    assert forall|i: int, x: int| #[trigger] in_block(q2, i, x) implies r.contains(x) by {
        assert(in_block(q, old_index(i), x));
    }
    assert forall|x: int| r.contains(x) implies exists|i: int| #[trigger] in_block(q2, i, x) by {
        let i = choose|i: int| #[trigger] in_block(q, i, x);
        if i < pos {
            assert(q2[i] == q[i]);
            assert(in_block(q2, i, x));
        } else if i > pos {
            assert(q2[i + 1] == q[i]);
            assert(in_block(q2, i + 1, x));
        } else if x_set.contains(x) {
            assert(in_block(q2, pos, x));
        } else {
            assert(in_block(q2, pos + 1, x));
        }
    }
    assert forall|i: int, j: int, x: int| #[trigger] in_block(q2, i, x) && #[trigger] in_block(q2, j, x) implies i
        == j by {
        assert(in_block(q, old_index(i), x));
        assert(in_block(q, old_index(j), x));
    }
    assert forall|i: int, x: int, y: int| #[trigger] holds_both(q2, i, x, y) implies m.accept.contains(x)
        == m.accept.contains(y) by {
        assert(in_block(q2, i, x) && in_block(q2, i, y));
        assert(holds_both(q, old_index(i), x, y));
    }
    assert forall|i: int, x: int, y: int, j: int| #[trigger] obligation(q2, i, x, y, j, k) implies settled(
        m,
        q2,
        w2,
        s,
        from,
        x,
        y,
        j,
    ) by {
        let c = m.alphabet[j];
        let a = m.step(x, c);
        let b = m.step(y, c);
        assert(in_block(q2, i, x) && in_block(q2, i, y));
        assert(obligation(q, old_index(i), x, y, j, k));
        assert(settled(m, q, w, s, from, x, y, j));
        if together(q, a, b) {
            let i0 = choose|i0: int| #[trigger] holds_both(q, i0, a, b);
            if i0 < pos {
                assert(q2[i0] == q[i0]);
                assert(holds_both(q2, i0, a, b));
            } else if i0 > pos {
                assert(q2[i0 + 1] == q[i0]);
                assert(holds_both(q2, i0 + 1, a, b));
            } else if x_set.contains(a) && x_set.contains(b) {
                assert(holds_both(q2, pos, a, b));
            } else if !x_set.contains(a) && !x_set.contains(b) {
                assert(holds_both(q2, pos + 1, a, b));
            } else {
                assert(split_by(m, w2, added, x, y, c));
            }
        } else if exists|t: int| #[trigger] split_by(m, w, t, x, y, c) {
            let t = choose|t: int| #[trigger] split_by(m, w, t, x, y, c);
            assert(w2[t] == w[t]);
            assert(split_by(m, w2, t, x, y, c));
        } else {
        }
    }
}

/// When nothing is left to process, the transitions respect the blocks.
pub proof fn lemma_finished(m: DfaView, q: Seq<Set<int>>, w: Seq<Set<int>>, s: Set<int>)
    requires
        w.len() == 0,
        work_inv(m, q, w, s, m.alphabet.len() as int),
    ensures
        stable(m, q),
{
    let k = m.alphabet.len() as int;
    assert forall|i: int, x: int, y: int, j: int| #[trigger] obligation(q, i, x, y, j, k) implies together(
        q,
        m.step(x, m.alphabet[j]),
        m.step(y, m.alphabet[j]),
    ) by {
        assert(settled(m, q, w, s, k, x, y, j));
        if exists|t: int| #[trigger] split_by(m, w, t, x, y, m.alphabet[j]) {
            let t = choose|t: int| #[trigger] split_by(m, w, t, x, y, m.alphabet[j]);
        }
    }
}

/// By how much a block is larger than one state.
pub open spec fn weight(b: Set<int>) -> int {
    if b.len() >= 1 {
        b.len() - 1
    } else {
        0
    }
}

/// How many more splits the blocks of `q` allow: the sum of their weights.
pub open spec fn slack(q: Seq<Set<int>>) -> int
    decreases q.len(),
{
    if q.len() == 0 {
        0
    } else {
        slack(q.drop_last()) + weight(q.last())
    }
}

/// The slack of a partition is never negative.
pub proof fn lemma_slack_nonnegative(q: Seq<Set<int>>)
    ensures
        slack(q) >= 0,
    decreases q.len(),
{
    if q.len() > 0 {
        lemma_slack_nonnegative(q.drop_last());
    }
}

/// The slack of two lists of blocks, one after the other, is the sum of
/// their slacks.
pub proof fn lemma_slack_concat(a: Seq<Set<int>>, b: Seq<Set<int>>)
    ensures
        slack(a + b) == slack(a) + slack(b),
    decreases b.len(),
{
    if b.len() == 0 {
        assert(a + b =~= a);
    } else {
        assert((a + b).drop_last() =~= a + b.drop_last());
        assert((a + b).last() == b.last());
        lemma_slack_concat(a, b.drop_last());
    }
}

/// Splitting a block into two non-empty halves uses up one split.
pub proof fn lemma_slack_split(q: Seq<Set<int>>, q2: Seq<Set<int>>, pos: int, x_set: Set<int>)
    requires
        replaces(q, q2, pos, q[pos].intersect(x_set), q[pos].difference(x_set)),
        q[pos].finite(),
        q[pos].intersect(x_set) != Set::<int>::empty(),
        q[pos].difference(x_set) != Set::<int>::empty(),
    ensures
        slack(q2) == slack(q) - 1,
{
    let y = q[pos];
    let y1 = y.intersect(x_set);
    let y2 = y.difference(x_set);
    assert(y1.len() >= 1 && y2.len() >= 1 && y1.len() + y2.len() == y.len()) by {
        lemma_nonempty_len(y1);
        lemma_nonempty_len(y2);
        lemma_set_disjoint_lens(y1, y2);
        assert(y1.disjoint(y2));
        assert(y1 + y2 =~= y);
    }
    let head = q.take(pos);
    let tail = q.skip(pos + 1);
    assert(q =~= head + seq![y] + tail);
    assert(q2 =~= head + seq![y1, y2] + tail);
    lemma_slack_concat(head + seq![y], tail);
    lemma_slack_concat(head, seq![y]);
    lemma_slack_concat(head + seq![y1, y2], tail);
    lemma_slack_concat(head, seq![y1, y2]);
    assert(slack(seq![y]) == weight(y)) by {
        assert(seq![y].drop_last() =~= Seq::<Set<int>>::empty());
        assert(slack(seq![y].drop_last()) == 0);
        assert(seq![y].last() == y);
    }
    assert(slack(seq![y1, y2]) == weight(y1) + weight(y2)) by {
        assert(seq![y1, y2].drop_last() =~= seq![y1]);
        assert(seq![y1].drop_last() =~= Seq::<Set<int>>::empty());
        assert(slack(seq![y1].drop_last()) == 0);
        assert(seq![y1].last() == y1);
        assert(seq![y1, y2].last() == y2);
        assert(slack(seq![y1]) == weight(y1));
    }
}

/// A finite set with a member has at least one member.
pub proof fn lemma_nonempty_len(s: Set<int>)
    requires
        s.finite(),
        s != Set::<int>::empty(),
    ensures
        s.len() >= 1,
{
    if s.len() == 0 {
        assert(s =~= Set::<int>::empty()) by {
            assert forall|a: int| !s.contains(a) by {
                if s.contains(a) {
                    vstd::set::axiom_set_contains_len(s, a);
                }
            }
        }
    }
}

/// `t` holds, with each of its members, every member of `r` that is
/// equivalent to it.
pub open spec fn saturated(m: DfaView, r: Set<int>, t: Set<int>) -> bool {
    forall|x: int, y: int| t.contains(x) && r.contains(y) && #[trigger] equivalent_states(m, x, y) ==> t.contains(y)
}

/// Every set of `q` is saturated.
pub open spec fn all_saturated(m: DfaView, r: Set<int>, q: Seq<Set<int>>) -> bool {
    forall|i: int| 0 <= i < q.len() ==> saturated(m, r, #[trigger] q[i])
}

/// Equivalent states go, on each symbol, to equivalent states.
pub proof fn lemma_equivalent_step(m: DfaView, x: int, y: int, c: char)
    requires
        m.wf(),
        m.is_state(x),
        m.is_state(y),
        m.has_symbol(c),
        equivalent_states(m, x, y),
    ensures
        equivalent_states(m, m.step(x, c), m.step(y, c)),
{
    assert forall|w: Seq<char>| m.decide_from(m.step(x, c), w) == m.decide_from(m.step(y, c), w) by {
        let cw = seq![c] + w;
        assert(cw[0] == c);
        assert(cw.drop_first() =~= w);
        assert(m.decide_from(x, cw) == m.decide_from(y, cw));
        assert(m.delta.dom().contains((x, c)));
        assert(m.delta.dom().contains((y, c)));
    }
}

/// The accepting and the non-accepting members of `r` are saturated sets.
pub proof fn lemma_initial_saturated(m: DfaView, r: Set<int>)
    ensures
        saturated(m, r, r.intersect(m.accept)),
        saturated(m, r, r.difference(m.accept)),
{
    let e = Seq::<char>::empty();
    assert forall|x: int, y: int|
        r.intersect(m.accept).contains(x) && r.contains(y) && #[trigger] equivalent_states(
            m,
            x,
            y,
        ) implies r.intersect(m.accept).contains(y) by {
        assert(m.decide_from(x, e) == m.decide_from(y, e));
    }
    assert forall|x: int, y: int|
        r.difference(m.accept).contains(x) && r.contains(y) && #[trigger] equivalent_states(
            m,
            x,
            y,
        ) implies r.difference(m.accept).contains(y) by {
        assert(m.decide_from(x, e) == m.decide_from(y, e));
    }
}

/// The members of `r` that go on `c` into a saturated set are a saturated
/// set, and so are the two halves into which it splits a saturated block.
pub proof fn lemma_split_saturated(m: DfaView, r: Set<int>, s: Set<int>, c: char, x_set: Set<int>, y: Set<int>)
    requires
        m.wf(),
        closed_under_steps(m, r),
        m.has_symbol(c),
        saturated(m, r, s),
        saturated(m, r, y),
        y.subset_of(r),
        forall|x: int| x_set.contains(x) <==> goes_into(m, r, s, c, x),
    ensures
        saturated(m, r, y.intersect(x_set)),
        saturated(m, r, y.difference(x_set)),
{
    assert forall|a: int, b: int| r.contains(a) && r.contains(b) && #[trigger] equivalent_states(m, a, b) implies (
    x_set.contains(a) == x_set.contains(b)) by {
        lemma_equivalent_step(m, a, b, c);
        assert(equivalent_states(m, m.step(b, c), m.step(a, c)));
        assert(goes_into(m, r, s, c, a) == goes_into(m, r, s, c, b));
    }
    assert forall|a: int, b: int|
        y.intersect(x_set).contains(a) && r.contains(b) && #[trigger] equivalent_states(
            m,
            a,
            b,
        ) implies y.intersect(x_set).contains(b) by {
        assert(r.contains(a));
    }
    assert forall|a: int, b: int|
        y.difference(x_set).contains(a) && r.contains(b) && #[trigger] equivalent_states(
            m,
            a,
            b,
        ) implies y.difference(x_set).contains(b) by {
        assert(r.contains(a));
    }
}

/// States that are related go to related states and accept alike.
pub open spec fn simulation(a: DfaView, b: DfaView, rel: spec_fn(int, int) -> bool) -> bool {
    &&& forall|x: int, y: int| #[trigger] rel(x, y) ==> a.is_state(x) && b.is_state(y)
    &&& forall|x: int, y: int| #[trigger] rel(x, y) ==> a.accept.contains(x) == b.accept.contains(y)
    &&& forall|x: int, y: int, c: char|
        #[trigger] rel(x, y) && #[trigger] a.has_symbol(c) ==> rel(a.step(x, c), b.step(y, c))
}

/// Related states are reached by the same words, lead to related states, and
/// decide every word alike.
pub proof fn lemma_simulation(a: DfaView, b: DfaView, rel: spec_fn(int, int) -> bool, x: int, y: int, w: Seq<char>)
    requires
        a.wf(),
        b.wf(),
        a.same_symbols(b),
        simulation(a, b, rel),
        rel(x, y),
    ensures
        a.run_from(x, w) is Some <==> b.run_from(y, w) is Some,
        a.run_from(x, w) is Some ==> rel(a.run_from(x, w)->0, b.run_from(y, w)->0),
        a.decide_from(x, w) == b.decide_from(y, w),
    decreases w.len(),
{
    if w.len() > 0 {
        let c = w[0];
        assert(a.has_symbol(c) <==> b.has_symbol(c));
        if a.has_symbol(c) {
            assert(a.delta.dom().contains((x, c)));
            assert(b.delta.dom().contains((y, c)));
            lemma_simulation(a, b, rel, a.step(x, c), b.step(y, c), w.drop_first());
        } else {
            assert(!a.delta.dom().contains((x, c)));
            assert(!b.delta.dom().contains((y, c)));
        }
    }
}

/// Between two sets in hand, with no symbol left for either, nothing differs.
pub proof fn lemma_forget(m: DfaView, q: Seq<Set<int>>, w: Seq<Set<int>>, s: Set<int>, s2: Set<int>)
    requires
        work_inv(m, q, w, s, m.alphabet.len() as int),
    ensures
        work_inv(m, q, w, s2, m.alphabet.len() as int),
{
    let k = m.alphabet.len() as int;
    assert forall|i: int, x: int, y: int, j: int| #[trigger] obligation(q, i, x, y, j, k) implies settled(
        m,
        q,
        w,
        s2,
        k,
        x,
        y,
        j,
    ) by {
        assert(settled(m, q, w, s, k, x, y, j));
    }
}

/// `q2` lists, in their order, the blocks of `q` that have a member;
/// `origin` says where each was in `q`.
pub open spec fn keeps_nonempty(q: Seq<Set<int>>, q2: Seq<Set<int>>, origin: Seq<int>) -> bool {
    &&& origin.len() == q2.len()
    &&& forall|i: int| 0 <= i < q2.len() ==> 0 <= #[trigger] origin[i] < q.len() && q2[i] == q[origin[i]]
    &&& forall|i: int, j: int| 0 <= i < j < q2.len() ==> #[trigger] origin[i] < #[trigger] origin[j]
    &&& forall|t: int, x: int| #[trigger]
        in_block(q, t, x) ==> exists|i: int| 0 <= i < q2.len() && #[trigger] origin[i] == t
}

/// Leaving out the blocks without a member changes nothing of what holds of
/// a partition.
pub proof fn lemma_without_empty(m: DfaView, r: Set<int>, q: Seq<Set<int>>, q2: Seq<Set<int>>, origin: Seq<int>)
    requires
        partition_inv(m, r, q),
        stable(m, q),
        all_saturated(m, r, q),
        keeps_nonempty(q, q2, origin),
    ensures
        partition_inv(m, r, q2),
        stable(m, q2),
        all_saturated(m, r, q2),
{
    let k = m.alphabet.len() as int;
    assert forall|i: int, x: int| #[trigger] in_block(q2, i, x) implies in_block(q, origin[i], x) by {}
    assert forall|i: int, x: int| #[trigger] in_block(q2, i, x) implies r.contains(x) by {
        assert(in_block(q, origin[i], x));
    }
    assert forall|x: int| r.contains(x) implies exists|i: int| #[trigger] in_block(q2, i, x) by {
        let t = choose|t: int| #[trigger] in_block(q, t, x);
        let i = choose|i: int| 0 <= i < q2.len() && #[trigger] origin[i] == t;
        assert(in_block(q2, i, x));
    }
    assert forall|i: int, j: int, x: int| #[trigger] in_block(q2, i, x) && #[trigger] in_block(q2, j, x) implies i
        == j by {
        assert(in_block(q, origin[i], x));
        assert(in_block(q, origin[j], x));
        if i < j {
            assert(origin[i] < origin[j]);
        } else if j < i {
            assert(origin[j] < origin[i]);
        }
    }
    assert forall|i: int, x: int, y: int| #[trigger] holds_both(q2, i, x, y) implies m.accept.contains(x)
        == m.accept.contains(y) by {
        assert(holds_both(q, origin[i], x, y));
    }
    assert forall|i: int, x: int, y: int, j: int| #[trigger] obligation(q2, i, x, y, j, k) implies together(
        q2,
        m.step(x, m.alphabet[j]),
        m.step(y, m.alphabet[j]),
    ) by {
        let a = m.step(x, m.alphabet[j]);
        let b = m.step(y, m.alphabet[j]);
        assert(obligation(q, origin[i], x, y, j, k));
        let t = choose|t: int| #[trigger] holds_both(q, t, a, b);
        assert(in_block(q, t, a));
        let i2 = choose|i2: int| 0 <= i2 < q2.len() && #[trigger] origin[i2] == t;
        assert(holds_both(q2, i2, a, b));
    }
    assert forall|i: int| 0 <= i < q2.len() implies saturated(m, r, #[trigger] q2[i]) by {
        assert(q2[i] == q[origin[i]]);
    }
}

/// `min` is the quotient of `m` by the partition `q` of `r`: its states are
/// the blocks, the start state is the block of the start state, a block
/// accepts where it holds an accepting state, and a block goes on a symbol
/// to the block to which one of its members goes.
pub open spec fn is_quotient(m: DfaView, r: Set<int>, q: Seq<Set<int>>, min: DfaView) -> bool {
    &&& min.wf()
    &&& min.alphabet == m.alphabet
    &&& min.num_states == q.len()
    &&& in_block(q, min.start, m.start)
    &&& forall|b: int| 0 <= b < q.len() ==> (#[trigger] min.accept.contains(b) <==> block_accepts(m, q, b))
    &&& forall|b: int, c: char| 0 <= b < q.len() && m.has_symbol(c) ==> #[trigger] has_edge(m, q, min, b, c)
}

/// Block `b` of `q` holds an accepting state.
pub open spec fn block_accepts(m: DfaView, q: Seq<Set<int>>, b: int) -> bool {
    exists|x: int| #[trigger] holds_both(q, b, x, x) && m.accept.contains(x)
}

/// `x` is a member of block `b` that goes on `c` into the block to which
/// `b` goes in `min`.
pub open spec fn edge_witness(m: DfaView, q: Seq<Set<int>>, min: DfaView, b: int, c: char, x: int) -> bool {
    in_block(q, b, x) && in_block(q, min.step(b, c), m.step(x, c))
}

/// Block `b` goes in `min` on `c` to the block to which one of its members
/// goes in `m`.
pub open spec fn has_edge(m: DfaView, q: Seq<Set<int>>, min: DfaView, b: int, c: char) -> bool {
    exists|x: int| #[trigger] edge_witness(m, q, min, b, c, x)
}

/// `x` is a member of `r` in block `b` of `q`.
pub open spec fn block_of(r: Set<int>, q: Seq<Set<int>>) -> spec_fn(int, int) -> bool {
    |x: int, b: int| r.contains(x) && in_block(q, b, x)
}

/// A quotient by a partition that the transitions respect moves and accepts
/// as the members of its blocks do.
pub proof fn lemma_quotient_simulates(m: DfaView, r: Set<int>, q: Seq<Set<int>>, min: DfaView)
    requires
        m.wf(),
        closed_under_steps(m, r),
        partition_inv(m, r, q),
        stable(m, q),
        is_quotient(m, r, q, min),
    ensures
        simulation(m, min, block_of(r, q)),
{
    let rel = block_of(r, q);
    let k = m.alphabet.len() as int;
    assert forall|x: int, b: int| #[trigger] rel(x, b) implies m.accept.contains(x) == min.accept.contains(b) by {
        if min.accept.contains(b) {
            let x2 = choose|x2: int| #[trigger] holds_both(q, b, x2, x2) && m.accept.contains(x2);
            assert(holds_both(q, b, x, x2));
        } else if m.accept.contains(x) {
            assert(holds_both(q, b, x, x));
        }
    }
    assert forall|x: int, b: int, c: char| #[trigger] rel(x, b) && #[trigger] m.has_symbol(c) implies rel(
        m.step(x, c),
        min.step(b, c),
    ) by {
        let j = choose|j: int| 0 <= j < m.alphabet.len() && m.alphabet[j] == c;
        assert(has_edge(m, q, min, b, c));
        let e = choose|e: int| #[trigger] edge_witness(m, q, min, b, c, e);
        assert(obligation(q, b, x, e, j, k));
        let i0 = choose|i0: int| #[trigger] holds_both(q, i0, m.step(x, c), m.step(e, c));
        assert(in_block(q, i0, m.step(e, c)));
        assert(in_block(q, i0, m.step(x, c)));
    }
}

/// The quotient of an automaton by the partition of its reachable states
/// into classes of equivalent states gives the same outcome on every word,
/// and is reduced.
pub proof fn lemma_quotient(m: DfaView, r: Set<int>, q: Seq<Set<int>>, min: DfaView)
    requires
        m.wf(),
        forall|x: int| r.contains(x) <==> m.is_state(x) && m.reachable(x),
        closed_under_steps(m, r),
        partition_inv(m, r, q),
        stable(m, q),
        all_saturated(m, r, q),
        forall|b: int| 0 <= b < q.len() ==> #[trigger] q[b] != Set::<int>::empty(),
        is_quotient(m, r, q, min),
    ensures
        min.same_language(m),
        reduced(min),
{
    let rel = block_of(r, q);
    lemma_quotient_simulates(m, r, q, min);
    assert(rel(m.start, min.start)) by {
        assert(m.run_from(m.start, Seq::<char>::empty()) == Some(m.start));
    }
    assert forall|w: Seq<char>| min.run(w) == m.run(w) by {
        lemma_simulation(m, min, rel, m.start, min.start, w);
    }
    // A member of each block.
    let member = |b: int| choose|x: int| q[b].contains(x);
    assert forall|b: int| 0 <= b < q.len() implies in_block(q, b, #[trigger] member(b)) by {
        if forall|x: int| !q[b].contains(x) {
            assert(q[b] =~= Set::<int>::empty());
        }
    }
    assert forall|b: int| min.is_state(b) implies min.reachable(b) by {
        let x = member(b);
        assert(in_block(q, b, x));
        let w = choose|w: Seq<char>| m.run_from(m.start, w) == Some(x);
        lemma_simulation(m, min, rel, m.start, min.start, w);
        let b2 = min.run_from(min.start, w)->0;
        assert(rel(x, b2));
        assert(in_block(q, b2, x));
    }
    assert forall|b1: int, b2: int| min.is_state(b1) && min.is_state(b2) && b1 != b2 implies distinguishable(
        min,
        b1,
        b2,
    ) by {
        let x1 = member(b1);
        let x2 = member(b2);
        assert(in_block(q, b1, x1));
        assert(in_block(q, b2, x2));
        assert(!equivalent_states(m, x1, x2)) by {
            if equivalent_states(m, x1, x2) {
                assert(saturated(m, r, q[b1]));
                assert(in_block(q, b1, x2));
            }
        }
        let w = choose|w: Seq<char>| m.decide_from(x1, w) != m.decide_from(x2, w);
        lemma_simulation(m, min, rel, x1, b1, w);
        lemma_simulation(m, min, rel, x2, b2, w);
        assert(min.decide_from(b1, w) != min.decide_from(b2, w));
    }
}

} // verus!
