//! What holds of the minimized form of an automaton.
use crate::fa::Transition;
use crate::lang::Automaton;
use crate::lang::arises;
use crate::lang::image;
use crate::lang::inhabited;
use crate::lang::lemma_run_concat;
use crate::lang::run;
use crate::min::lemma_injective_bound;
use crate::lang::together;
use vstd::prelude::*;

verus! {

/// A state from which a run leads to a productive state is productive.
pub proof fn lemma_productive_run(a: Automaton, p: usize, v: Seq<i32>, q: usize)
    requires
        run(a.transitions, p, v, q),
        a.productive(q),
    ensures
        a.productive(p),
{
    let word = choose|word: Seq<i32>| #[trigger] a.accepts_from(q, word);
    let r = choose|r: usize| #[trigger] run(a.transitions, q, word, r) && a.finals.contains(r);
    lemma_run_concat(a.transitions, p, v, q, word, r);
    assert(a.accepts_from(p, v + word));
}

/// A state to which a run leads from a reachable state is reachable.
pub proof fn lemma_reachable_run(a: Automaton, p: usize, v: Seq<i32>, q: usize)
    requires
        run(a.transitions, p, v, q),
        a.reachable(p),
    ensures
        a.reachable(q),
{
    let u = choose|u: Seq<i32>| #[trigger] run(a.transitions, a.start, u, p);
    lemma_run_concat(a.transitions, a.start, u, p, v, q);
}

/// A run ends in a state.
pub proof fn lemma_run_state(a: Automaton, p: usize, v: Seq<i32>, q: usize)
    requires
        a.wf(),
        p < a.state_count,
        run(a.transitions, p, v, q),
    ensures
        q < a.state_count,
    decreases v.len(),
{
    if v.len() > 0 {
        let ts = a.transitions;
        let i = choose|i: int|
            0 <= i < ts.len() && (#[trigger] ts[i]).from == p && ts[i].on_input == v[0] && run(
                ts,
                ts[i].to,
                v.drop_first(),
                q,
            );
        lemma_run_state(a, ts[i].to, v.drop_first(), q);
    }
}

/// The states of a quotient run as the useful states do: a run between
/// useful states becomes a run between their blocks.
pub proof fn lemma_quotient_run(
    a: Automaton,
    m: Automaton,
    blk: Seq<Option<usize>>,
    p: usize,
    v: Seq<i32>,
    q: usize,
)
    requires
        a.wf(),
        m.is_quotient_of(a, blk),
        a.useful(p),
        a.useful(q),
        run(a.transitions, p, v, q),
    ensures
        run(m.transitions, blk[p as int].unwrap(), v, blk[q as int].unwrap()),
    decreases v.len(),
{
    if v.len() > 0 {
        let ts = a.transitions;
        let i = choose|i: int|
            0 <= i < ts.len() && (#[trigger] ts[i]).from == p && ts[i].on_input == v[0] && run(
                ts,
                ts[i].to,
                v.drop_first(),
                q,
            );
        a.lemma_useful_step(i);
        lemma_productive_run(a, ts[i].to, v.drop_first(), q);
        assert(a.useful(ts[i].to));
        lemma_quotient_run(a, m, blk, ts[i].to, v.drop_first(), q);
        assert(m.transitions.contains(image(ts[i], blk)));
        let k = choose|k: int| 0 <= k < m.transitions.len() && m.transitions[k] == image(ts[i], blk);
        assert(m.transitions[k].from == blk[p as int].unwrap());
    }
}

/// A word that is accepted from a useful state is accepted from its block
/// in a quotient.
pub proof fn lemma_quotient_accepts(
    a: Automaton,
    m: Automaton,
    blk: Seq<Option<usize>>,
    q: usize,
    word: Seq<i32>,
)
    requires
        a.wf(),
        m.is_quotient_of(a, blk),
        a.useful(q),
        a.accepts_from(q, word),
    ensures
        m.accepts_from(blk[q as int].unwrap(), word),
{
    let r = choose|r: usize| #[trigger] run(a.transitions, q, word, r) && a.finals.contains(r);
    lemma_reachable_run(a, q, word, r);
    lemma_run_state(a, q, word, r);
    a.lemma_accepts_empty(r);
    assert(a.useful(r));
    lemma_quotient_run(a, m, blk, q, word, r);
    assert(blk[r as int] is Some);
    assert(m.finals.contains(blk[r as int].unwrap()));
}

/// In an exact quotient of a deterministic automaton, a word that is
/// accepted from the block of a useful state is accepted from the state.
pub proof fn lemma_quotient_accepts_back(
    a: Automaton,
    m: Automaton,
    blk: Seq<Option<usize>>,
    q: usize,
    word: Seq<i32>,
)
    requires
        a.wf(),
        a.deterministic(),
        m.is_quotient_of(a, blk),
        m.merges_exactly(a, blk),
        a.useful(q),
        m.accepts_from(blk[q as int].unwrap(), word),
    ensures
        a.accepts_from(q, word),
    decreases word.len(),
{
    let s = blk[q as int].unwrap();
    let r = choose|r: usize| #[trigger] run(m.transitions, s, word, r) && m.finals.contains(r);
    if word.len() == 0 {
        assert(blk[q as int] is Some);
        assert(a.finals.contains(q));
        a.lemma_accepts_empty(q);
        assert(word =~= Seq::empty());
    } else {
        let ms = m.transitions;
        let k = choose|k: int|
            0 <= k < ms.len() && (#[trigger] ms[k]).from == s && ms[k].on_input == word[0] && run(
                ms,
                ms[k].to,
                word.drop_first(),
                r,
            );
        assert(arises(ms[k], a, blk));
        let i = choose|i: int|
            0 <= i < a.transitions.len() && a.useful((#[trigger] a.transitions[i]).from)
                && a.useful(a.transitions[i].to) && image(a.transitions[i], blk) == ms[k];
        let p = a.transitions[i].from;
        let successor = a.transitions[i].to;
        assert(p < a.state_count && successor < a.state_count);
        assert(blk[p as int] is Some && blk[successor as int] is Some && blk[q as int] is Some);
        assert(m.accepts_from(blk[successor as int].unwrap(), word.drop_first()));
        lemma_quotient_accepts_back(a, m, blk, successor, word.drop_first());
        a.lemma_accepts_prepend(i, word.drop_first());
        assert(seq![a.transitions[i].on_input] + word.drop_first() =~= word);
        assert(together(blk, p, q));
        assert(a.equivalent(p, q));
        assert(a.accepts_from(p, seq![a.transitions[i].on_input] + word.drop_first()));
        assert(a.accepts_from(p, word));
        assert(a.accepts_from(p, word) == a.accepts_from(q, word));
    }
}

/// An automaton in which the start state is not useful accepts no word.
pub proof fn lemma_accepts_useful(a: Automaton, word: Seq<i32>)
    requires
        a.wf(),
        a.accepts(word),
    ensures
        a.useful(a.start),
{
    assert(run(a.transitions, a.start, Seq::empty(), a.start));
    assert(a.reachable(a.start));
    assert(a.productive(a.start));
    let r = choose|r: usize| #[trigger] run(a.transitions, a.start, word, r) && a.finals.contains(r);
    if a.state_count == 0 {
        if word.len() == 0 {
        } else {
            let ts = a.transitions;
            let i = choose|i: int|
                0 <= i < ts.len() && (#[trigger] ts[i]).from == a.start && ts[i].on_input
                    == word[0] && run(ts, ts[i].to, word.drop_first(), r);
        }
    }
}

/// The minimized form of a deterministic automaton accepts the words that
/// the automaton accepts, and no others.
pub proof fn lemma_same_language(a: Automaton, m: Automaton, word: Seq<i32>)
    requires
        a.wf(),
        a.deterministic(),
        m.is_minimization_of(a),
    ensures
        m.accepts(word) == a.accepts(word),
{
    if a.useful(a.start) {
        let blk = choose|blk: Seq<Option<usize>>|
            #[trigger] m.is_quotient_of(a, blk) && (a.deterministic() ==> m.merges_exactly(a, blk));
        if a.accepts(word) {
            lemma_quotient_accepts(a, m, blk, a.start, word);
        }
        if m.accepts(word) {
            lemma_quotient_accepts_back(a, m, blk, a.start, word);
        }
    } else {
        if a.accepts(word) {
            lemma_accepts_useful(a, word);
        }
        if m.accepts(word) {
            lemma_accepts_useful(m, word);
            let v = choose|v: Seq<i32>| #[trigger] m.accepts_from(m.start, v);
            let r = choose|r: usize| #[trigger] run(m.transitions, m.start, v, r) && m.finals.contains(r);
        }
    }
}

/// Every state of the minimized form of an automaton lies on the way of an
/// accepted word, unless the minimized form is the automaton with one state
/// and no transition.
pub proof fn lemma_all_useful(a: Automaton, m: Automaton, s: usize)
    requires
        a.wf(),
        m.is_minimization_of(a),
        s < m.state_count,
    ensures
        m.useful(s) || m == Automaton::trivial(),
{
    if a.useful(a.start) {
        let blk = choose|blk: Seq<Option<usize>>|
            #[trigger] m.is_quotient_of(a, blk) && (a.deterministic() ==> m.merges_exactly(a, blk));
        assert(inhabited(blk, s));
        let q = choose|q: int| 0 <= q < blk.len() && #[trigger] blk[q] == Some(s);
        let q = q as usize;
        assert(blk[q as int] is Some);
        assert(a.useful(q));
        let v = choose|v: Seq<i32>| #[trigger] run(a.transitions, a.start, v, q);
        lemma_quotient_run(a, m, blk, a.start, v, q);
        assert(m.reachable(s));
        let word = choose|word: Seq<i32>| #[trigger] a.accepts_from(q, word);
        lemma_quotient_accepts(a, m, blk, q, word);
        assert(m.productive(s));
    }
}


/// A run on two words in a row passes through a state between them.
pub proof fn lemma_run_split(ts: Seq<Transition>, p: usize, v: Seq<i32>, u: Seq<i32>, r: usize) -> (q:
    usize)
    requires
        run(ts, p, v + u, r),
    ensures
        run(ts, p, v, q),
        run(ts, q, u, r),
    decreases v.len(),
{
    if v.len() == 0 {
        assert(v + u =~= u);
        p
    } else {
        let i = choose|i: int|
            0 <= i < ts.len() && (#[trigger] ts[i]).from == p && ts[i].on_input == (v + u)[0]
                && run(ts, ts[i].to, (v + u).drop_first(), r);
        assert((v + u).drop_first() =~= v.drop_first() + u);
        let q = lemma_run_split(ts, ts[i].to, v.drop_first(), u, r);
        assert((v + u)[0] == v[0]);
        q
    }
}

/// In a deterministic automaton a word leads from a state to one state at
/// most.
pub proof fn lemma_run_unique(a: Automaton, p: usize, v: Seq<i32>, q: usize, r: usize)
    requires
        a.deterministic(),
        run(a.transitions, p, v, q),
        run(a.transitions, p, v, r),
    ensures
        q == r,
    decreases v.len(),
{
    if v.len() > 0 {
        let ts = a.transitions;
        let i = choose|i: int|
            0 <= i < ts.len() && (#[trigger] ts[i]).from == p && ts[i].on_input == v[0] && run(
                ts,
                ts[i].to,
                v.drop_first(),
                q,
            );
        let j = choose|j: int|
            0 <= j < ts.len() && (#[trigger] ts[j]).from == p && ts[j].on_input == v[0] && run(
                ts,
                ts[j].to,
                v.drop_first(),
                r,
            );
        assert(ts[i].to == ts[j].to);
        lemma_run_unique(a, ts[i].to, v.drop_first(), q, r);
    }
}

/// In a deterministic automaton the words that are accepted behind a word
/// are those that are accepted from the state that the word leads to.
pub proof fn lemma_residual(a: Automaton, p: usize, v: Seq<i32>, q: usize, u: Seq<i32>)
    requires
        a.deterministic(),
        run(a.transitions, p, v, q),
    ensures
        a.accepts_from(p, v + u) <==> a.accepts_from(q, u),
{
    if a.accepts_from(p, v + u) {
        let r = choose|r: usize| #[trigger] run(a.transitions, p, v + u, r) && a.finals.contains(r);
        let between = lemma_run_split(a.transitions, p, v, u, r);
        lemma_run_unique(a, p, v, q, between);
    }
    if a.accepts_from(q, u) {
        let r = choose|r: usize| #[trigger] run(a.transitions, q, u, r) && a.finals.contains(r);
        lemma_run_concat(a.transitions, p, v, q, u, r);
    }
}

/// Every state of a quotient lies on the way of an accepted word.
pub proof fn lemma_quotient_useful(a: Automaton, m: Automaton, blk: Seq<Option<usize>>, s: usize) -> (q:
    usize)
    requires
        a.wf(),
        m.is_quotient_of(a, blk),
        s < m.state_count,
    ensures
        m.useful(s),
        q < a.state_count,
        a.useful(q),
        blk[q as int] == Some(s),
{
    assert(inhabited(blk, s));
    let q = choose|q: int| 0 <= q < blk.len() && #[trigger] blk[q] == Some(s);
    let q = q as usize;
    assert(blk[q as int] is Some);
    assert(a.useful(q));
    let v = choose|v: Seq<i32>| #[trigger] run(a.transitions, a.start, v, q);
    lemma_quotient_run(a, m, blk, a.start, v, q);
    assert(m.reachable(s));
    let word = choose|word: Seq<i32>| #[trigger] a.accepts_from(q, word);
    lemma_quotient_accepts(a, m, blk, q, word);
    assert(m.productive(s));
    q
}

/// Whether the same words are accepted by `a` and by `b`.
pub open spec fn same_language(a: Automaton, b: Automaton) -> bool {
    forall|word: Seq<i32>| #[trigger] a.accepts(word) == b.accepts(word)
}

/// A useful state of `a` with the block `s`.
pub open spec fn state_in(a: Automaton, blk: Seq<Option<usize>>, s: int) -> usize {
    choose|q: usize| q < a.state_count && a.useful(q) && blk[q as int] == Some(s as usize)
}

/// A word that leads from the start state of `a` to `state_in(a, blk, s)`.
pub open spec fn way_to(a: Automaton, blk: Seq<Option<usize>>, s: int) -> Seq<i32> {
    choose|v: Seq<i32>| #[trigger] run(a.transitions, a.start, v, state_in(a, blk, s))
}

/// The state of `other` that the word `way_to(a, blk, s)` leads to.
pub open spec fn met_in(other: Automaton, a: Automaton, blk: Seq<Option<usize>>, s: int) -> usize {
    choose|o: usize| #[trigger] run(other.transitions, other.start, way_to(a, blk, s), o)
}

/// What holds of the states and words that are chosen for a block.
pub proof fn lemma_met_in(
    a: Automaton,
    m: Automaton,
    blk: Seq<Option<usize>>,
    other: Automaton,
    s: int,
)
    requires
        a.wf(),
        a.deterministic(),
        m.is_quotient_of(a, blk),
        other.wf(),
        other.deterministic(),
        other.state_count > 0,
        same_language(other, a),
        0 <= s < m.state_count,
    ensures
        ({
            let q = state_in(a, blk, s);
            let v = way_to(a, blk, s);
            let o = met_in(other, a, blk, s);
            &&& q < a.state_count
            &&& a.useful(q)
            &&& blk[q as int] == Some(s as usize)
            &&& run(a.transitions, a.start, v, q)
            &&& run(other.transitions, other.start, v, o)
            &&& o < other.state_count
            &&& forall|u: Seq<i32>| #[trigger] a.accepts_from(q, u) == other.accepts_from(o, u)
        }),
{
    let member = lemma_quotient_useful(a, m, blk, s as usize);
    let q = state_in(a, blk, s);
    assert(a.reachable(q));
    let v = way_to(a, blk, s);
    let rest = choose|u: Seq<i32>| #[trigger] a.accepts_from(q, u);
    lemma_residual(a, a.start, v, q, rest);
    assert(a.accepts(v + rest));
    assert(other.accepts(v + rest) == a.accepts(v + rest));
    let r = choose|r: usize|
        #[trigger] run(other.transitions, other.start, v + rest, r) && other.finals.contains(r);
    let met = lemma_run_split(other.transitions, other.start, v, rest, r);
    let o = met_in(other, a, blk, s);
    lemma_run_state(other, other.start, v, o);
    assert forall|u: Seq<i32>| #[trigger] a.accepts_from(q, u) == other.accepts_from(o, u) by {
        lemma_residual(a, a.start, v, q, u);
        lemma_residual(other, other.start, v, o, u);
        assert(other.accepts(v + u) == a.accepts(v + u));
    }
}

/// No deterministic automaton with fewer states accepts the words that a
/// deterministic automaton accepts than its minimized form has. An automaton
/// without states is left aside: it accepts no word, as the minimized form
/// with one state does.
pub proof fn lemma_minimal(a: Automaton, m: Automaton, other: Automaton)
    requires
        a.wf(),
        a.deterministic(),
        m.is_minimization_of(a),
        other.wf(),
        other.deterministic(),
        other.state_count > 0,
        same_language(other, a),
    ensures
        m.state_count <= other.state_count,
{
    if a.useful(a.start) {
        let blk = choose|blk: Seq<Option<usize>>|
            #[trigger] m.is_quotient_of(a, blk) && (a.deterministic() ==> m.merges_exactly(a, blk));
        let f = |s: int| met_in(other, a, blk, s) as int;
        assert forall|s: int| 0 <= s < m.state_count implies 0 <= #[trigger] f(s)
            < other.state_count by {
            lemma_met_in(a, m, blk, other, s);
        }
        assert forall|s: int, t: int| 0 <= s < t < m.state_count implies #[trigger] f(s)
            != #[trigger] f(t) by {
            lemma_met_in(a, m, blk, other, s);
            lemma_met_in(a, m, blk, other, t);
            let p = state_in(a, blk, s);
            let q = state_in(a, blk, t);
            if f(s) == f(t) {
                let o = met_in(other, a, blk, s);
                assert forall|u: Seq<i32>| #[trigger]
                    a.accepts_from(p, u) == a.accepts_from(q, u) by {
                    assert(a.accepts_from(p, u) == other.accepts_from(o, u));
                    assert(a.accepts_from(q, u) == other.accepts_from(o, u));
                }
                assert(a.equivalent(p, q));
                assert(together(blk, p, q));
            }
        }
        lemma_injective_bound(f, m.state_count as int, other.state_count as int);
    }
}


/// The transition `t` with its states renamed by `r`.
pub open spec fn renamed(t: Transition, r: Seq<usize>) -> Transition {
    Transition { from: r[t.from as int], on_input: t.on_input, to: r[t.to as int] }
}

/// Whether `r` renames the states of `m` to those of `n`, one for one, so
/// that `n` has the start state, the accepting states and the transitions of
/// `m` under their new names, and as many transitions as `m`, each once.
pub open spec fn is_renaming(m: Automaton, n: Automaton, r: Seq<usize>) -> bool {
    &&& m.state_count == n.state_count
    &&& r.len() == m.state_count
    &&& forall|s: int| 0 <= s < r.len() ==> (#[trigger] r[s]) < n.state_count
    &&& forall|s: int, t: int|
        0 <= s < r.len() && 0 <= t < r.len() && (#[trigger] r[s]) == (#[trigger] r[t]) ==> s == t
    &&& n.start == r[m.start as int]
    &&& forall|s: int|
        0 <= s < r.len() ==> (n.finals.contains(#[trigger] r[s]) <==> m.finals.contains(s as usize))
    &&& m.transitions.len() == n.transitions.len()
    &&& m.transitions.no_duplicates()
    &&& n.transitions.no_duplicates()
    &&& forall|k: int|
        0 <= k < m.transitions.len() ==> n.transitions.contains(
            renamed(#[trigger] m.transitions[k], r),
        )
}

/// Whether `m` and `n` are one automaton up to the names of the states and
/// the order of the transitions.
pub open spec fn isomorphic(m: Automaton, n: Automaton) -> bool {
    exists|r: Seq<usize>| #[trigger] is_renaming(m, n, r)
}

/// The automaton with one state and no transition is its own minimized
/// form.
pub proof fn lemma_trivial_again(n: Automaton)
    requires
        n.is_minimization_of(Automaton::trivial()),
    ensures
        n == Automaton::trivial(),
{
    let t = Automaton::trivial();
    if t.useful(t.start) {
        let word = choose|word: Seq<i32>| #[trigger] t.accepts_from(t.start, word);
        let r = choose|r: usize| #[trigger] run(t.transitions, t.start, word, r) && t.finals.contains(r);
    }
}

/// The blocks of an exact quotient of a deterministic automaton accept
/// different words.
pub proof fn lemma_quotient_distinct(
    a: Automaton,
    m: Automaton,
    blk: Seq<Option<usize>>,
    s: usize,
    t: usize,
)
    requires
        a.wf(),
        a.deterministic(),
        m.is_quotient_of(a, blk),
        m.merges_exactly(a, blk),
        s < m.state_count,
        t < m.state_count,
        m.equivalent(s, t),
    ensures
        s == t,
{
    let p = lemma_quotient_useful(a, m, blk, s);
    let q = lemma_quotient_useful(a, m, blk, t);
    assert forall|u: Seq<i32>| #[trigger] a.accepts_from(p, u) == a.accepts_from(q, u) by {
        assert(m.accepts_from(s, u) == m.accepts_from(t, u));
        if a.accepts_from(p, u) {
            lemma_quotient_accepts(a, m, blk, p, u);
            lemma_quotient_accepts_back(a, m, blk, q, u);
        }
        if a.accepts_from(q, u) {
            lemma_quotient_accepts(a, m, blk, q, u);
            lemma_quotient_accepts_back(a, m, blk, p, u);
        }
    }
    assert(a.equivalent(p, q));
    assert(together(blk, p, q));
}

/// A quotient of an automaton whose states are all useful and accept
/// different words is that automaton under new names.
pub proof fn lemma_quotient_renames(m: Automaton, n: Automaton, blk: Seq<Option<usize>>)
    requires
        m.wf(),
        m.deterministic(),
        m.transitions.no_duplicates(),
        forall|s: usize| s < m.state_count ==> #[trigger] m.useful(s),
        forall|s: usize, t: usize|
            s < m.state_count && t < m.state_count && #[trigger] m.equivalent(s, t) ==> s == t,
        n.is_quotient_of(m, blk),
        n.merges_exactly(m, blk),
    ensures
        isomorphic(m, n),
{
    let count = m.state_count as int;
    let r = Seq::new(m.state_count as nat, |s: int| blk[s].unwrap());
    assert forall|s: int| 0 <= s < count implies blk[s] is Some && (#[trigger] r[s])
        < n.state_count by {
        assert(m.useful(s as usize));
        assert(blk[(s as usize) as int] is Some);
    }
    assert forall|s: int, t: int|
        0 <= s < r.len() && 0 <= t < r.len() && (#[trigger] r[s]) == (#[trigger] r[t]) implies s
        == t by {
        assert(blk[s] is Some && r[s] < n.state_count);
        assert(blk[t] is Some && r[t] < n.state_count);
        assert(m.useful(s as usize) && m.useful(t as usize));
        assert(together(blk, s as usize, t as usize));
        assert(m.equivalent(s as usize, t as usize));
    }
    // as many states
    let f = |s: int| r[s] as int;
    assert forall|s: int| 0 <= s < count implies 0 <= #[trigger] f(s) < n.state_count by {
        assert(r[s] < n.state_count);
    }
    assert forall|s: int, t: int| 0 <= s < t < count implies #[trigger] f(s) != #[trigger] f(t) by {
        if r[s] == r[t] {
        }
    }
    lemma_injective_bound(f, count, n.state_count as int);
    let g = |t: int| choose|q: int| 0 <= q < blk.len() && #[trigger] blk[q] == Some(t as usize);
    assert forall|t: int| 0 <= t < n.state_count implies 0 <= #[trigger] g(t) < count && blk[g(t)]
        == Some(t as usize) by {
        assert(inhabited(blk, t as usize));
    }
    assert forall|t: int, u: int| 0 <= t < u < n.state_count implies #[trigger] g(t)
        != #[trigger] g(u) by {
        assert(blk[g(t)] == Some(t as usize));
        assert(blk[g(u)] == Some(u as usize));
    }
    lemma_injective_bound(g, n.state_count as int, count);
    assert(m.state_count == n.state_count);
    // the accepting states
    assert forall|s: int| 0 <= s < r.len() implies (n.finals.contains(#[trigger] r[s])
        <==> m.finals.contains(s as usize)) by {
        assert(blk[s] is Some && r[s] < n.state_count);
        assert(blk[(s as usize) as int] is Some);
    }
    // the transitions
    let ms = m.transitions;
    let ns = n.transitions;
    assert forall|k: int| 0 <= k < ms.len() implies ns.contains(renamed(#[trigger] ms[k], r)) by {
        assert(ms[k].from < m.state_count && ms[k].to < m.state_count);
        assert(m.useful(ms[k].from) && m.useful(ms[k].to));
        assert(ns.contains(image(ms[k], blk)));
        assert(image(ms[k], blk) == renamed(ms[k], r));
    }
    let h = |k: int| ns.index_of(renamed(ms[k], r));
    assert forall|k: int| 0 <= k < ms.len() implies 0 <= #[trigger] h(k) < ns.len() && ns[h(k)]
        == renamed(ms[k], r) by {
        assert(ns.contains(renamed(ms[k], r)));
    }
    assert forall|k: int, l: int| 0 <= k < l < ms.len() implies #[trigger] h(k) != #[trigger] h(
        l,
    ) by {
        assert(ns[h(k)] == renamed(ms[k], r));
        assert(ns[h(l)] == renamed(ms[l], r));
        if h(k) == h(l) {
            assert(ms[k].from < m.state_count && ms[k].to < m.state_count);
            assert(ms[l].from < m.state_count && ms[l].to < m.state_count);
            assert(r[ms[k].from as int] == r[ms[l].from as int]);
            assert(r[ms[k].to as int] == r[ms[l].to as int]);
            assert(ms[k] == ms[l]);
        }
    }
    lemma_injective_bound(h, ms.len() as int, ns.len() as int);
    let e = |l: int|
        choose|i: int|
            0 <= i < ms.len() && m.useful((#[trigger] ms[i]).from) && m.useful(ms[i].to) && image(
                ms[i],
                blk,
            ) == ns[l];
    assert forall|l: int| 0 <= l < ns.len() implies 0 <= #[trigger] e(l) < ms.len() && image(
        ms[e(l)],
        blk,
    ) == ns[l] by {
        assert(arises(ns[l], m, blk));
    }
    assert forall|k: int, l: int| 0 <= k < l < ns.len() implies #[trigger] e(k) != #[trigger] e(
        l,
    ) by {
        assert(image(ms[e(k)], blk) == ns[k]);
        assert(image(ms[e(l)], blk) == ns[l]);
    }
    lemma_injective_bound(e, ns.len() as int, ms.len() as int);
    assert(m.useful(m.start));
    assert(blk[m.start as int] == Some(n.start));
    assert(is_renaming(m, n, r));
}

/// The minimized form of the minimized form of a deterministic automaton is
/// the minimized form under new names: as many states, and the same
/// transitions, each once.
pub proof fn lemma_idempotent(a: Automaton, m: Automaton, n: Automaton)
    requires
        a.wf(),
        a.deterministic(),
        m.is_minimization_of(a),
        n.is_minimization_of(m),
    ensures
        isomorphic(m, n),
{
    if a.useful(a.start) {
        let blk = choose|blk: Seq<Option<usize>>|
            #[trigger] m.is_quotient_of(a, blk) && (a.deterministic() ==> m.merges_exactly(a, blk));
        assert forall|s: usize| s < m.state_count implies #[trigger] m.useful(s) by {
            let q = lemma_quotient_useful(a, m, blk, s);
        }
        assert forall|s: usize, t: usize|
            s < m.state_count && t < m.state_count && #[trigger] m.equivalent(s, t) implies s
            == t by {
            lemma_quotient_distinct(a, m, blk, s, t);
        }
        assert(m.useful(m.start));
        let renaming = choose|renaming: Seq<Option<usize>>|
            #[trigger] n.is_quotient_of(m, renaming) && (m.deterministic() ==> n.merges_exactly(
                m,
                renaming,
            ));
        lemma_quotient_renames(m, n, renaming);
    } else {
        lemma_trivial_again(n);
        let r = seq![0usize];
        assert(m.transitions.no_duplicates());
        assert(is_renaming(m, n, r));
    }
}

} // verus!
