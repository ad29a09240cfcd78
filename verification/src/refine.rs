//! The invariants of the refinement of blocks and cords, and the steps
//! that keep them.
use crate::fa::End;
use crate::fa::Transition;
use crate::fa::end_of;
use crate::lang::Automaton;
use crate::lang::arises;
use crate::lang::connects;
use crate::lang::image;
use crate::lang::inhabited;
use crate::lang::lemma_run_restrict;
use crate::lang::lemma_run_sub;
use crate::lang::run;
use crate::lang::together;
use crate::reach::found;
use crate::reach::kept_from;
use crate::reach::retained;
use crate::min::MarkingView;
use crate::min::PartitionView;
use crate::reach::live_ends;
use vstd::prelude::*;

verus! {

/// The block of state `q`, or -1 for a discarded state.
pub open spec fn block_of(b: PartitionView, q: usize) -> int {
    match b.set_of[q as int] {
        Some(s) => s as int,
        None => -1,
    }
}

/// The cord of transition `t`.
pub open spec fn cord_of(c: PartitionView, t: int) -> int {
    match c.set_of[t] {
        Some(s) => s as int,
        None => -1,
    }
}

/// The blocks partition the useful states of `a`, the cords partition the
/// working transitions `w`, and `w` holds the transitions of `a` between
/// useful states.
pub open spec fn stage(a: Automaton, w: Seq<Transition>, b: PartitionView, c: PartitionView) -> bool {
    &&& a.wf()
    &&& b.valid()
    &&& b.set_of.len() == a.state_count
    &&& c.valid()
    &&& c.set_of.len() == w.len()
    &&& forall|q: usize| q < a.state_count ==> (#[trigger] b.live(q as int) <==> a.useful(q))
    &&& forall|t: int| 0 <= t < w.len() ==> (#[trigger] c.set_of[t]) is Some
    &&& live_ends(w, b.set_of)
    &&& forall|t: int| 0 <= t < w.len() ==> a.transitions.contains(#[trigger] w[t])
    &&& forall|j: int|
        0 <= j < a.transitions.len() && b.live((#[trigger] a.transitions[j]).from as int) && b.live(
            a.transitions[j].to as int,
        ) ==> w.contains(a.transitions[j])
}

/// The states of a block are all accepting or all not.
pub open spec fn finality_respected(a: Automaton, b: PartitionView) -> bool {
    forall|p: int, q: int|
        b.live(p) && b.live(q) && (#[trigger] b.set_of[p]) == (#[trigger] b.set_of[q]) ==> (
        a.finals.contains(p as usize) <==> a.finals.contains(q as usize))
}

/// The transitions of a cord have one symbol, and their states at `end`
/// lie in one block, as far as the blocks below `upto` go.
pub open spec fn cords_uniform(
    w: Seq<Transition>,
    b: PartitionView,
    c: PartitionView,
    end: End,
    upto: int,
) -> bool {
    forall|t: int, u: int|
        0 <= t < w.len() && 0 <= u < w.len() && (#[trigger] c.set_of[t]) == (
        #[trigger] c.set_of[u]) ==> w[t].on_input == w[u].on_input && (block_of(
            b,
            end_of(w[t], end),
        ) == block_of(b, end_of(w[u], end)) || block_of(b, end_of(w[t], end)) >= upto || block_of(
            b,
            end_of(w[u], end),
        ) >= upto)
}

/// Whether `q` is a live state in the block of the source of transition
/// `t`, which lies in a cord below `upto`.
pub open spec fn beside(
    w: Seq<Transition>,
    b: PartitionView,
    c: PartitionView,
    upto: int,
    t: int,
    q: int,
) -> bool {
    &&& 0 <= t < w.len()
    &&& b.live(q)
    &&& b.set_of[q] == b.set_of[w[t].from as int]
    &&& 0 <= cord_of(c, t) < upto
}

/// Whether `q` has a transition on the symbol of transition `t`, in the
/// cord of `t` or in one that is not below `upto`.
pub open spec fn follows(w: Seq<Transition>, c: PartitionView, upto: int, t: int, q: int) -> bool {
    exists|u: int|
        0 <= u < w.len() && (#[trigger] w[u]).from == q && w[u].on_input == w[t].on_input && (
        cord_of(c, u) == cord_of(c, t) || cord_of(c, u) >= upto)
}

/// Where a state has a transition in a cord below `upto`, every state of
/// its block has one on the same symbol, in that cord or in one that is not
/// below `upto`.
pub open spec fn blocks_follow(
    w: Seq<Transition>,
    b: PartitionView,
    c: PartitionView,
    upto: int,
) -> bool {
    forall|t: int, q: int| #[trigger] beside(w, b, c, upto, t, q) ==> follows(w, c, upto, t, q)
}

/// Equivalent useful states share a block.
pub open spec fn blocks_complete(a: Automaton, b: PartitionView) -> bool {
    forall|p: usize, q: usize|
        a.useful(p) && a.useful(q) && #[trigger] a.equivalent(p, q) ==> b.set_of[p as int]
            == b.set_of[q as int]
}

/// Whether the transitions `t` and `u` have one symbol, equivalent sources
/// and equivalent targets.
pub open spec fn alike(a: Automaton, w: Seq<Transition>, t: int, u: int) -> bool {
    &&& 0 <= t < w.len()
    &&& 0 <= u < w.len()
    &&& w[t].on_input == w[u].on_input
    &&& a.equivalent(w[t].from, w[u].from)
    &&& a.equivalent(w[t].to, w[u].to)
}

/// Transitions on one symbol between equivalent states share a cord.
pub open spec fn cords_complete(a: Automaton, w: Seq<Transition>, c: PartitionView) -> bool {
    forall|t: int, u: int| #[trigger] alike(a, w, t, u) ==> c.set_of[t] == c.set_of[u]
}

/// What holds of the blocks and the cords of a deterministic automaton
/// while the cords below `cc` have been used to split the blocks.
pub open spec fn exact(
    a: Automaton,
    w: Seq<Transition>,
    b: PartitionView,
    c: PartitionView,
    cc: int,
) -> bool {
    &&& blocks_follow(w, b, c, cc)
    &&& blocks_complete(a, b)
    &&& cords_complete(a, w, c)
}

/// The invariant of the refinement: the blocks below `bt` have been used
/// to split the cords by the targets of their transitions, the blocks below
/// `bs` by their sources, and the cords below `cc` to split the blocks.
pub open spec fn refined(
    a: Automaton,
    w: Seq<Transition>,
    b: PartitionView,
    c: PartitionView,
    bt: int,
    bs: int,
    cc: int,
) -> bool {
    &&& stage(a, w, b, c)
    &&& 0 <= bt <= b.sets.len()
    &&& 0 <= bs <= b.sets.len()
    &&& 0 <= cc <= c.sets.len()
    &&& finality_respected(a, b)
    &&& cords_uniform(w, b, c, End::Target, bt)
    &&& cords_uniform(w, b, c, End::Source, bs)
    &&& a.deterministic() ==> exact(a, w, b, c, cc)
}

/// A partition `after` that comes from splitting the sets of `before` by
/// `marked`: two live elements share a set afterwards where they shared one
/// before and either both or neither was marked, and an element that
/// changes its set moves to a new one.
pub open spec fn split_by(
    after: PartitionView,
    before: PartitionView,
    marked: spec_fn(usize) -> bool,
) -> bool {
    &&& after.valid()
    &&& after.set_of.len() == before.set_of.len()
    &&& after.sets.len() >= before.sets.len()
    &&& forall|x: int|
        0 <= x < before.set_of.len() ==> ((#[trigger] after.set_of[x]) is Some
            <==> before.set_of[x] is Some)
    &&& forall|x: int|
        0 <= x < before.set_of.len() ==> (#[trigger] after.set_of[x]) == before.set_of[x] || (
        after.set_of[x] matches Some(t) && t >= before.sets.len())
    &&& forall|x: int, y: int|
        before.live(x) && before.live(y) ==> ((#[trigger] after.set_of[x]) == (
        #[trigger] after.set_of[y]) <==> (before.set_of[x] == before.set_of[y] && (marked(
            x as usize,
        ) <==> marked(y as usize))))
}

/// Splitting the touched sets of a session splits its partition by its
/// marks.
pub proof fn lemma_split_by(m: MarkingView)
    requires
        m.valid(),
    ensures
        split_by(m.split().partition, m.partition, |x: usize| m.is_marked(x)),
        m.split().valid(),
        m.split().idle(),
{
    m.lemma_valid_from_start();
    m.lemma_split_from(0);
}

/// A transition of `w` is a transition of `a` between useful states.
pub proof fn lemma_working_transition(
    a: Automaton,
    w: Seq<Transition>,
    b: PartitionView,
    c: PartitionView,
    t: int,
) -> (j: int)
    requires
        stage(a, w, b, c),
        0 <= t < w.len(),
    ensures
        0 <= j < a.transitions.len(),
        a.transitions[j] == w[t],
        a.useful(w[t].from),
        a.useful(w[t].to),
        w[t].from < a.state_count,
        w[t].to < a.state_count,
{
    assert(a.transitions.contains(w[t]));
    let j = choose|j: int| 0 <= j < a.transitions.len() && a.transitions[j] == w[t];
    assert(b.live(w[t].from as int));
    assert(b.live(w[t].to as int));
    j
}

/// In a deterministic automaton, where a useful state has a transition,
/// an equivalent useful state has one on the same symbol to an equivalent
/// state.
pub proof fn lemma_equivalent_step(
    a: Automaton,
    w: Seq<Transition>,
    b: PartitionView,
    c: PartitionView,
    t: int,
    q: usize,
) -> (u: int)
    requires
        stage(a, w, b, c),
        a.deterministic(),
        0 <= t < w.len(),
        a.useful(q),
        a.equivalent(w[t].from, q),
    ensures
        0 <= u < w.len(),
        w[u].from == q,
        w[u].on_input == w[t].on_input,
        a.equivalent(w[t].to, w[u].to),
{
    let ts = a.transitions;
    let j = lemma_working_transition(a, w, b, c, t);
    let p = w[t].from;
    let x = w[t].on_input;
    let v = choose|v: Seq<i32>| #[trigger] a.accepts_from(w[t].to, v);
    a.lemma_accepts_prepend(j, v);
    let longer = seq![x] + v;
    assert(a.accepts_from(p, longer) == a.accepts_from(q, longer));
    let r = choose|r: usize| #[trigger] crate::lang::run(ts, q, longer, r) && a.finals.contains(r);
    let i = choose|i: int|
        0 <= i < ts.len() && (#[trigger] ts[i]).from == q && ts[i].on_input == longer[0]
            && crate::lang::run(ts, ts[i].to, longer.drop_first(), r);
    assert(longer.drop_first() =~= v);
    assert(a.accepts_from(ts[i].to, v));
    a.lemma_useful_step(i);
    assert(a.useful(ts[i].to));
    assert(b.live(ts[i].from as int));
    assert(b.live(ts[i].to as int));
    assert(w.contains(ts[i]));
    let u = choose|u: int| 0 <= u < w.len() && w[u] == ts[i];
    assert forall|v2: Seq<i32>| #[trigger]
        a.accepts_from(w[t].to, v2) == a.accepts_from(w[u].to, v2) by {
        let longer2 = seq![x] + v2;
        assert(a.accepts_from(p, longer2) == a.accepts_from(q, longer2));
        if a.accepts_from(w[t].to, v2) {
            a.lemma_accepts_prepend(j, v2);
            a.lemma_accepts_behind(i, v2);
        }
        if a.accepts_from(w[u].to, v2) {
            a.lemma_accepts_prepend(i, v2);
            a.lemma_accepts_behind(j, v2);
        }
    }
    u
}

/// Every state is equivalent to itself.
pub proof fn lemma_equivalent_refl(a: Automaton, p: usize)
    ensures
        a.equivalent(p, p),
{
}


/// Splitting the blocks keeps the stage.
pub proof fn lemma_stage_blocks(
    a: Automaton,
    w: Seq<Transition>,
    b: PartitionView,
    c: PartitionView,
    b2: PartitionView,
    marked: spec_fn(usize) -> bool,
)
    requires
        stage(a, w, b, c),
        split_by(b2, b, marked),
    ensures
        stage(a, w, b2, c),
{
    assert forall|q: usize| q < a.state_count implies (#[trigger] b2.live(q as int) <==> a.useful(
        q,
    )) by {
        assert(b2.set_of[q as int] is Some <==> b.set_of[q as int] is Some);
        assert(b.live(q as int) <==> a.useful(q));
    }
    assert(live_ends(w, b2.set_of)) by {
        assert forall|i: int| 0 <= i < w.len() implies (#[trigger] w[i]).from < b2.set_of.len()
            && w[i].to < b2.set_of.len() && b2.set_of[w[i].from as int] is Some
            && b2.set_of[w[i].to as int] is Some by {
            assert(b.set_of[w[i].from as int] is Some);
            assert(b.set_of[w[i].to as int] is Some);
        }
    }
    assert forall|j: int|
        0 <= j < a.transitions.len() && b2.live((#[trigger] a.transitions[j]).from as int)
            && b2.live(a.transitions[j].to as int) implies w.contains(a.transitions[j]) by {
        assert(b.live(a.transitions[j].from as int));
        assert(b.live(a.transitions[j].to as int));
    }
}

/// Splitting the cords keeps the stage.
pub proof fn lemma_stage_cords(
    a: Automaton,
    w: Seq<Transition>,
    b: PartitionView,
    c: PartitionView,
    c2: PartitionView,
    marked: spec_fn(usize) -> bool,
)
    requires
        stage(a, w, b, c),
        split_by(c2, c, marked),
    ensures
        stage(a, w, b, c2),
{
    assert forall|t: int| 0 <= t < w.len() implies (#[trigger] c2.set_of[t]) is Some by {
        assert(c.set_of[t] is Some);
    }
}

/// Splitting the blocks keeps the cords uniform.
pub proof fn lemma_uniform_blocks(
    w: Seq<Transition>,
    b: PartitionView,
    c: PartitionView,
    end: End,
    upto: int,
    b2: PartitionView,
    marked: spec_fn(usize) -> bool,
)
    requires
        cords_uniform(w, b, c, end, upto),
        split_by(b2, b, marked),
        live_ends(w, b.set_of),
        upto <= b.sets.len(),
    ensures
        cords_uniform(w, b2, c, end, upto),
{
    assert forall|t: int, u: int|
        0 <= t < w.len() && 0 <= u < w.len() && (#[trigger] c.set_of[t]) == (
        #[trigger] c.set_of[u]) implies w[t].on_input == w[u].on_input && (block_of(
        b2,
        end_of(w[t], end),
    ) == block_of(b2, end_of(w[u], end)) || block_of(b2, end_of(w[t], end)) >= upto || block_of(
        b2,
        end_of(w[u], end),
    ) >= upto) by {
        let x = end_of(w[t], end) as int;
        let y = end_of(w[u], end) as int;
        assert(w[t].from < b.set_of.len() && w[t].to < b.set_of.len());
        assert(w[u].from < b.set_of.len() && w[u].to < b.set_of.len());
        assert(b2.set_of[x] == b.set_of[x] || (b2.set_of[x] matches Some(s) && s >= b.sets.len()));
        assert(b2.set_of[y] == b.set_of[y] || (b2.set_of[y] matches Some(s) && s >= b.sets.len()));
    }
}

/// Splitting the cords keeps them uniform.
pub proof fn lemma_uniform_cords(
    w: Seq<Transition>,
    b: PartitionView,
    c: PartitionView,
    end: End,
    upto: int,
    c2: PartitionView,
    marked: spec_fn(usize) -> bool,
)
    requires
        cords_uniform(w, b, c, end, upto),
        split_by(c2, c, marked),
        c.set_of.len() == w.len(),
        forall|t: int| 0 <= t < w.len() ==> (#[trigger] c.set_of[t]) is Some,
    ensures
        cords_uniform(w, b, c2, end, upto),
{
    assert forall|t: int, u: int|
        0 <= t < w.len() && 0 <= u < w.len() && (#[trigger] c2.set_of[t]) == (
        #[trigger] c2.set_of[u]) implies w[t].on_input == w[u].on_input && (block_of(
        b,
        end_of(w[t], end),
    ) == block_of(b, end_of(w[u], end)) || block_of(b, end_of(w[t], end)) >= upto || block_of(
        b,
        end_of(w[u], end),
    ) >= upto) by {
        assert(c.live(t) && c.live(u));
        assert(c.set_of[t] == c.set_of[u]);
    }
}

/// Splitting the cords by the block `k` at one end of their transitions
/// makes them uniform up to that block.
pub proof fn lemma_uniform_next(
    w: Seq<Transition>,
    b: PartitionView,
    c: PartitionView,
    end: End,
    k: int,
    c2: PartitionView,
    marked: spec_fn(usize) -> bool,
)
    requires
        cords_uniform(w, b, c, end, k),
        split_by(c2, c, marked),
        c.set_of.len() == w.len(),
        forall|t: int| 0 <= t < w.len() ==> (#[trigger] c.set_of[t]) is Some,
        forall|t: usize|
            t < w.len() ==> (#[trigger] marked(t) <==> block_of(b, end_of(w[t as int], end)) == k),
    ensures
        cords_uniform(w, b, c2, end, k + 1),
{
    assert forall|t: int, u: int|
        0 <= t < w.len() && 0 <= u < w.len() && (#[trigger] c2.set_of[t]) == (
        #[trigger] c2.set_of[u]) implies w[t].on_input == w[u].on_input && (block_of(
        b,
        end_of(w[t], end),
    ) == block_of(b, end_of(w[u], end)) || block_of(b, end_of(w[t], end)) >= k + 1 || block_of(
        b,
        end_of(w[u], end),
    ) >= k + 1) by {
        assert(c.live(t) && c.live(u));
        assert(c.set_of[t] == c.set_of[u]);
        assert(marked(t as usize) <==> marked(u as usize));
    }
}

/// Splitting the blocks keeps accepting and other states apart.
pub proof fn lemma_finality_blocks(
    a: Automaton,
    b: PartitionView,
    b2: PartitionView,
    marked: spec_fn(usize) -> bool,
)
    requires
        finality_respected(a, b),
        split_by(b2, b, marked),
    ensures
        finality_respected(a, b2),
{
    assert forall|p: int, q: int|
        b2.live(p) && b2.live(q) && (#[trigger] b2.set_of[p]) == (
        #[trigger] b2.set_of[q]) implies (a.finals.contains(p as usize) <==> a.finals.contains(
        q as usize,
    )) by {
        assert(b.live(p) && b.live(q));
        assert(b.set_of[p] == b.set_of[q]);
    }
}

/// Splitting the blocks by the sources of the transitions of cord `cc`
/// keeps equivalent states together.
pub proof fn lemma_complete_blocks(
    a: Automaton,
    w: Seq<Transition>,
    b: PartitionView,
    c: PartitionView,
    cc: int,
    b2: PartitionView,
    marked: spec_fn(usize) -> bool,
)
    requires
        stage(a, w, b, c),
        a.deterministic(),
        blocks_complete(a, b),
        cords_complete(a, w, c),
        split_by(b2, b, marked),
        forall|x: usize|
            #[trigger] marked(x) <==> exists|t: int|
                0 <= t < w.len() && #[trigger] cord_of(c, t) == cc && w[t].from == x,
    ensures
        blocks_complete(a, b2),
{
    assert forall|p: usize, q: usize|
        a.useful(p) && a.useful(q) && #[trigger] a.equivalent(p, q) implies b2.set_of[p as int]
        == b2.set_of[q as int] by {
        assert(b.set_of[p as int] == b.set_of[q as int]);
        assert(b.live(p as int) && b.live(q as int));
        assert(a.equivalent(q, p)) by {
            assert forall|v: Seq<i32>| #[trigger]
                a.accepts_from(q, v) == a.accepts_from(p, v) by {
                assert(a.accepts_from(p, v) == a.accepts_from(q, v));
            }
        }
        if marked(p) {
            let t = choose|t: int|
                0 <= t < w.len() && #[trigger] cord_of(c, t) == cc && w[t].from == p;
            let u = lemma_equivalent_step(a, w, b, c, t, q);
            assert(alike(a, w, t, u));
            assert(cord_of(c, u) == cc);
        }
        if marked(q) {
            let t = choose|t: int|
                0 <= t < w.len() && #[trigger] cord_of(c, t) == cc && w[t].from == q;
            let u = lemma_equivalent_step(a, w, b, c, t, p);
            assert(alike(a, w, t, u));
            assert(cord_of(c, u) == cc);
        }
        assert(marked(p) <==> marked(q));
    }
}

/// Two transitions of a deterministic automaton with one source and one
/// symbol share a cord.
pub proof fn lemma_same_step(
    a: Automaton,
    w: Seq<Transition>,
    b: PartitionView,
    c: PartitionView,
    t: int,
    u: int,
)
    requires
        stage(a, w, b, c),
        a.deterministic(),
        cords_complete(a, w, c),
        0 <= t < w.len(),
        0 <= u < w.len(),
        w[t].from == w[u].from,
        w[t].on_input == w[u].on_input,
    ensures
        c.set_of[t] == c.set_of[u],
{
    let jt = lemma_working_transition(a, w, b, c, t);
    let ju = lemma_working_transition(a, w, b, c, u);
    assert(a.transitions[jt].to == a.transitions[ju].to);
    lemma_equivalent_refl(a, w[t].from);
    lemma_equivalent_refl(a, w[t].to);
    assert(alike(a, w, t, u));
}

/// Splitting the blocks by the sources of the transitions of cord `cc`
/// makes the blocks follow that cord too.
pub proof fn lemma_follow_blocks(
    a: Automaton,
    w: Seq<Transition>,
    b: PartitionView,
    c: PartitionView,
    bs: int,
    cc: int,
    b2: PartitionView,
    marked: spec_fn(usize) -> bool,
)
    requires
        stage(a, w, b, c),
        a.deterministic(),
        blocks_follow(w, b, c, cc),
        cords_complete(a, w, c),
        cords_uniform(w, b, c, End::Source, bs),
        0 <= cc < c.sets.len(),
        split_by(b2, b, marked),
        forall|x: usize|
            #[trigger] marked(x) <==> exists|t: int|
                0 <= t < w.len() && #[trigger] cord_of(c, t) == cc && w[t].from == x,
    ensures
        blocks_follow(w, b2, c, cc + 1),
{
    assert forall|t: int, q: int| #[trigger] beside(w, b2, c, cc + 1, t, q) implies follows(
        w,
        c,
        cc + 1,
        t,
        q,
    ) by {
        let p = w[t].from;
        assert(p < b.set_of.len());
        assert(b.set_of[p as int] is Some);
        assert(b.set_of[q] is Some <==> b2.set_of[q] is Some);
        assert(b.live(p as int) && b.live(q));
        assert(b2.set_of[q] == b2.set_of[p as int]);
        assert(b.set_of[q] == b.set_of[p as int] && (marked(q as usize) <==> marked(p)));
        if cord_of(c, t) == cc {
            assert(marked(p));
            let u = choose|u: int|
                0 <= u < w.len() && #[trigger] cord_of(c, u) == cc && w[u].from == q as usize;
            assert(c.set_of[t] is Some && c.set_of[u] is Some);
            assert(c.set_of[u] == c.set_of[t]);
            assert(w[u].from == q);
        } else {
            assert(beside(w, b, c, cc, t, q));
            assert(follows(w, c, cc, t, q));
            let u0 = choose|u: int|
                0 <= u < w.len() && (#[trigger] w[u]).from == q && w[u].on_input == w[t].on_input
                    && (cord_of(c, u) == cord_of(c, t) || cord_of(c, u) >= cc);
            if cord_of(c, u0) == cc {
                assert(marked(q as usize));
                let t3 = choose|t3: int|
                    0 <= t3 < w.len() && #[trigger] cord_of(c, t3) == cc && w[t3].from == p;
                assert(c.set_of[t3] is Some && c.set_of[u0] is Some);
                assert(c.set_of[t3] == c.set_of[u0]);
                assert(w[t3].on_input == w[u0].on_input);
                lemma_same_step(a, w, b, c, t, t3);
                assert(false);
            }
            assert(w[u0].from == q);
        }
    }
}

/// Splitting the blocks by the sources of the transitions of cord `cc`
/// keeps what holds of a deterministic automaton and goes on to the next
/// cord.
pub proof fn lemma_exact_blocks(
    a: Automaton,
    w: Seq<Transition>,
    b: PartitionView,
    c: PartitionView,
    bs: int,
    cc: int,
    b2: PartitionView,
    marked: spec_fn(usize) -> bool,
)
    requires
        stage(a, w, b, c),
        a.deterministic(),
        exact(a, w, b, c, cc),
        cords_uniform(w, b, c, End::Source, bs),
        0 <= cc < c.sets.len(),
        split_by(b2, b, marked),
        forall|x: usize|
            #[trigger] marked(x) <==> exists|t: int|
                0 <= t < w.len() && #[trigger] cord_of(c, t) == cc && w[t].from == x,
    ensures
        exact(a, w, b2, c, cc + 1),
{
    lemma_complete_blocks(a, w, b, c, cc, b2, marked);
    lemma_follow_blocks(a, w, b, c, bs, cc, b2, marked);
}

/// Splitting the cords by the block `k` at one end of their transitions
/// keeps what holds of a deterministic automaton.
pub proof fn lemma_exact_cords(
    a: Automaton,
    w: Seq<Transition>,
    b: PartitionView,
    c: PartitionView,
    cc: int,
    end: End,
    k: int,
    c2: PartitionView,
    marked: spec_fn(usize) -> bool,
)
    requires
        stage(a, w, b, c),
        exact(a, w, b, c, cc),
        0 <= cc <= c.sets.len(),
        split_by(c2, c, marked),
        forall|t: usize|
            t < w.len() ==> (#[trigger] marked(t) <==> block_of(b, end_of(w[t as int], end)) == k),
    ensures
        exact(a, w, b, c2, cc),
{
    assert(cords_complete(a, w, c2)) by {
        assert forall|t: int, u: int| #[trigger] alike(a, w, t, u) implies c2.set_of[t]
            == c2.set_of[u] by {
            let jt = lemma_working_transition(a, w, b, c, t);
            let ju = lemma_working_transition(a, w, b, c, u);
            assert(c.set_of[t] == c.set_of[u]);
            assert(b.set_of[w[t].from as int] == b.set_of[w[u].from as int]);
            assert(b.set_of[w[t].to as int] == b.set_of[w[u].to as int]);
            assert(marked(t as usize) <==> marked(u as usize));
            assert(c.set_of[t] is Some && c.set_of[u] is Some);
            assert(c.live(t) && c.live(u));
        }
    }
    assert(blocks_follow(w, b, c2, cc)) by {
        assert forall|t: int, q: int| #[trigger] beside(w, b, c2, cc, t, q) implies follows(
            w,
            c2,
            cc,
            t,
            q,
        ) by {
            assert(c2.set_of[t] == c.set_of[t] || (c2.set_of[t] matches Some(s) && s
                >= c.sets.len()));
            assert(c.set_of[t] is Some);
            assert(cord_of(c, t) == cord_of(c2, t));
            assert(beside(w, b, c, cc, t, q));
            assert(follows(w, c, cc, t, q));
            let u0 = choose|u: int|
                0 <= u < w.len() && (#[trigger] w[u]).from == q && w[u].on_input == w[t].on_input
                    && (cord_of(c, u) == cord_of(c, t) || cord_of(c, u) >= cc);
            assert(c2.set_of[u0] == c.set_of[u0] || (c2.set_of[u0] matches Some(s) && s
                >= c.sets.len()));
            assert(c.set_of[u0] is Some);
            assert(w[u0].from == q);
        }
    }
}

/// Splitting the blocks by the sources of the transitions of cord `cc`
/// keeps the invariant of the refinement and goes on to the next cord.
pub proof fn lemma_refine_blocks(
    a: Automaton,
    w: Seq<Transition>,
    b: PartitionView,
    c: PartitionView,
    bt: int,
    bs: int,
    cc: int,
    b2: PartitionView,
    marked: spec_fn(usize) -> bool,
)
    requires
        refined(a, w, b, c, bt, bs, cc),
        cc < c.sets.len(),
        split_by(b2, b, marked),
        forall|x: usize|
            #[trigger] marked(x) <==> exists|t: int|
                0 <= t < w.len() && #[trigger] cord_of(c, t) == cc && w[t].from == x,
    ensures
        refined(a, w, b2, c, bt, bs, cc + 1),
{
    lemma_stage_blocks(a, w, b, c, b2, marked);
    lemma_finality_blocks(a, b, b2, marked);
    lemma_uniform_blocks(w, b, c, End::Target, bt, b2, marked);
    lemma_uniform_blocks(w, b, c, End::Source, bs, b2, marked);
    if a.deterministic() {
        lemma_exact_blocks(a, w, b, c, bs, cc, b2, marked);
    }
}

/// Splitting the cords by the block `bt` at the target of their
/// transitions keeps the invariant of the refinement and goes on to the next
/// block for the targets.
pub proof fn lemma_refine_cords_by_target(
    a: Automaton,
    w: Seq<Transition>,
    b: PartitionView,
    c: PartitionView,
    bt: int,
    bs: int,
    cc: int,
    c2: PartitionView,
    marked: spec_fn(usize) -> bool,
)
    requires
        refined(a, w, b, c, bt, bs, cc),
        bt < b.sets.len(),
        split_by(c2, c, marked),
        forall|t: usize|
            t < w.len() ==> (#[trigger] marked(t) <==> block_of(b, w[t as int].to) == bt),
    ensures
        refined(a, w, b, c2, bt + 1, bs, cc),
{
    lemma_stage_cords(a, w, b, c, c2, marked);
    assert forall|t: usize| t < w.len() implies (#[trigger] marked(t) <==> block_of(
        b,
        end_of(w[t as int], End::Target),
    ) == bt) by {}
    lemma_uniform_next(w, b, c, End::Target, bt, c2, marked);
    lemma_uniform_cords(w, b, c, End::Source, bs, c2, marked);
    if a.deterministic() {
        lemma_exact_cords(a, w, b, c, cc, End::Target, bt, c2, marked);
    }
}

/// Splitting the cords by the block `bs` at the source of their
/// transitions keeps the invariant of the refinement and goes on to the next
/// block for the sources.
pub proof fn lemma_refine_cords_by_source(
    a: Automaton,
    w: Seq<Transition>,
    b: PartitionView,
    c: PartitionView,
    bt: int,
    bs: int,
    cc: int,
    c2: PartitionView,
    marked: spec_fn(usize) -> bool,
)
    requires
        refined(a, w, b, c, bt, bs, cc),
        bs < b.sets.len(),
        split_by(c2, c, marked),
        forall|t: usize|
            t < w.len() ==> (#[trigger] marked(t) <==> block_of(b, w[t as int].from) == bs),
    ensures
        refined(a, w, b, c2, bt, bs + 1, cc),
{
    lemma_stage_cords(a, w, b, c, c2, marked);
    assert forall|t: usize| t < w.len() implies (#[trigger] marked(t) <==> block_of(
        b,
        end_of(w[t as int], End::Source),
    ) == bs) by {}
    lemma_uniform_next(w, b, c, End::Source, bs, c2, marked);
    lemma_uniform_cords(w, b, c, End::Target, bt, c2, marked);
    if a.deterministic() {
        lemma_exact_cords(a, w, b, c, cc, End::Source, bs, c2, marked);
    }
}


/// The marks of `v` are those of `v0` and the live elements of `s`; the
/// partition has changed at most in the order within its sets.
pub open spec fn marked_with(v: MarkingView, v0: MarkingView, s: Set<usize>) -> bool {
    &&& v.valid()
    &&& v.partition.set_of == v0.partition.set_of
    &&& v.partition.sets.len() == v0.partition.sets.len()
    &&& forall|x: usize|
        #[trigger] v.is_marked(x) <==> v0.is_marked(x) || (s.contains(x) && v0.partition.live(
            x as int,
        ))
}

/// Before anything is marked, the marks are those of the start.
pub proof fn lemma_marked_with_start(v0: MarkingView)
    requires
        v0.valid(),
    ensures
        marked_with(v0, v0, Set::empty()),
{
}

/// Marking one more element adds it to the marks.
pub proof fn lemma_marked_with_step(v: MarkingView, v0: MarkingView, s: Set<usize>, e: usize)
    requires
        marked_with(v, v0, s),
        e < v.partition.universe(),
    ensures
        marked_with(v.mark(e), v0, s.insert(e)),
{
    v.lemma_mark(e);
    let w = v.mark(e);
    assert forall|x: usize| #[trigger]
        w.is_marked(x) <==> v0.is_marked(x) || (s.insert(e).contains(x) && v0.partition.live(
            x as int,
        )) by {
        assert(w.is_marked(x) <==> (v.is_marked(x) || (x == e && v.partition.live(e as int))));
    }
}

/// In a session without marks no element is marked.
pub proof fn lemma_idle_unmarked(v: MarkingView)
    requires
        v.valid(),
        v.idle(),
    ensures
        forall|x: usize| !#[trigger] v.is_marked(x),
{
    assert forall|x: usize| !#[trigger] v.is_marked(x) by {
        if x < v.partition.set_of.len() {
            if let Some(s) = v.partition.set_of[x as int] {
                assert(v.marked[s as int] == 0);
                assert(v.marked_of(s as int) =~= Seq::empty());
            }
        }
    }
}

/// A set lists the elements that have it as their set, and no others.
pub proof fn lemma_member(p: PartitionView, s: int, x: usize)
    requires
        p.valid(),
        0 <= s < p.sets.len(),
    ensures
        p.sets[s].contains(x) <==> (x < p.set_of.len() && p.set_of[x as int] == Some(s as usize)),
{
    if p.sets[s].contains(x) {
        let i = choose|i: int| 0 <= i < p.sets[s].len() && p.sets[s][i] == x;
        assert(p.set_of[p.sets[s][i] as int] == Some(s as usize));
    }
}

/// What the search from the start state leaves: the reachable states, and
/// the transitions from reachable states.
pub open spec fn forward_pruned(a: Automaton, w: Seq<Transition>, b: PartitionView) -> bool {
    &&& a.wf()
    &&& b.valid()
    &&& b.set_of.len() == a.state_count
    &&& b.sets.len() == 1
    &&& forall|q: usize| q < a.state_count ==> (#[trigger] b.live(q as int) <==> a.reachable(q))
    &&& live_ends(w, b.set_of)
    &&& forall|t: int| 0 <= t < w.len() ==> a.transitions.contains(#[trigger] w[t])
    &&& forall|j: int|
        0 <= j < a.transitions.len() && a.reachable((#[trigger] a.transitions[j]).from)
            ==> w.contains(a.transitions[j])
}

/// What the two searches leave: the useful states in one block, and the
/// transitions between useful states.
pub open spec fn pruned(a: Automaton, w: Seq<Transition>, b: PartitionView) -> bool {
    &&& a.wf()
    &&& b.valid()
    &&& b.set_of.len() == a.state_count
    &&& b.sets.len() == 1
    &&& forall|q: usize| q < a.state_count ==> (#[trigger] b.live(q as int) <==> a.useful(q))
    &&& live_ends(w, b.set_of)
    &&& forall|t: int| 0 <= t < w.len() ==> a.transitions.contains(#[trigger] w[t])
    &&& forall|j: int|
        0 <= j < a.transitions.len() && b.live((#[trigger] a.transitions[j]).from as int) && b.live(
            a.transitions[j].to as int,
        ) ==> w.contains(a.transitions[j])
}

/// The search from the start state along the transitions leaves the
/// reachable states and the transitions from reachable states.
pub proof fn lemma_forward_pruned(
    a: Automaton,
    v0: MarkingView,
    v1: MarkingView,
    w1: Seq<Transition>,
)
    requires
        a.wf(),
        a.state_count > 0,
        v0.valid(),
        v0.partition.set_of.len() == a.state_count,
        forall|x: usize| #[trigger] v0.is_marked(x) <==> x == a.start,
        found(v1, v0, a.transitions, End::Source),
        retained(w1, a.transitions, v1.partition.set_of, End::Source),
    ensures
        forward_pruned(a, w1, v1.partition),
{
    let b = v1.partition;
    let ts = a.transitions;
    assert forall|q: usize| q < a.state_count implies (#[trigger] b.live(q as int)
        <==> a.reachable(q)) by {
        if b.live(q as int) {
            let p = choose|p: usize| v0.is_marked(p) && #[trigger] connects(ts, End::Source, p, q);
            assert(p == a.start);
        }
        if a.reachable(q) {
            assert(v0.is_marked(a.start));
            assert(connects(ts, End::Source, a.start, q));
        }
    }
    assert forall|t: int| 0 <= t < w1.len() implies a.transitions.contains(#[trigger] w1[t]) by {
        assert(kept_from(w1[t], ts, b.set_of, End::Source));
    }
    assert forall|j: int|
        0 <= j < ts.len() && a.reachable((#[trigger] ts[j]).from) implies w1.contains(ts[j]) by {
        assert(b.live(ts[j].from as int));
        assert(end_of(ts[j], End::Source) == ts[j].from);
    }
    assert(live_ends(w1, b.set_of)) by {
        assert forall|i: int| 0 <= i < w1.len() implies (#[trigger] w1[i]).from < b.set_of.len()
            && w1[i].to < b.set_of.len() && b.set_of[w1[i].from as int] is Some
            && b.set_of[w1[i].to as int] is Some by {
            assert(kept_from(w1[i], ts, b.set_of, End::Source));
            let j = choose|j: int| 0 <= j < ts.len() && ts[j] == w1[i];
            assert(ts[j].from < a.state_count && ts[j].to < a.state_count);
            assert(b.live(ts[j].from as int));
            a.lemma_useful_step(j);
            assert(b.live(ts[j].to as int));
        }
    }
}

/// No reachable state is accepting: the automaton accepts no word.
pub proof fn lemma_no_final(a: Automaton, w1: Seq<Transition>, v: MarkingView)
    requires
        forward_pruned(a, w1, v.partition),
        v.valid(),
        forall|x: usize|
            #[trigger] v.is_marked(x) <==> v.partition.live(x as int) && a.finals.contains(x),
        v.marked[0] == 0,
    ensures
        !a.useful(a.start),
{
    if a.useful(a.start) {
        let word = choose|word: Seq<i32>| #[trigger] a.accepts_from(a.start, word);
        let r = choose|r: usize| #[trigger] run(a.transitions, a.start, word, r) && a.finals.contains(r);
        assert(a.reachable(r));
        assert(v.partition.live(r as int));
        assert(v.is_marked(r));
        let s = v.partition.set_of[r as int].unwrap();
        assert(s < v.partition.sets.len());
        assert(v.marked_of(0) =~= Seq::empty());
    }
}

/// The search from the reachable accepting states against the transitions
/// leaves the useful states and the transitions between useful states.
pub proof fn lemma_backward_pruned(
    a: Automaton,
    w1: Seq<Transition>,
    v1: MarkingView,
    v2: MarkingView,
    w2: Seq<Transition>,
)
    requires
        forward_pruned(a, w1, v1.partition),
        v1.valid(),
        forall|x: usize|
            #[trigger] v1.is_marked(x) <==> v1.partition.live(x as int) && a.finals.contains(x),
        found(v2, v1, w1, End::Target),
        retained(w2, w1, v2.partition.set_of, End::Target),
    ensures
        pruned(a, w2, v2.partition),
{
    let b1 = v1.partition;
    let b = v2.partition;
    let ts = a.transitions;
    let keep = |x: usize| a.reachable(x);
    assert forall|j: int| 0 <= j < ts.len() && keep((#[trigger] ts[j]).from) implies w1.contains(
        ts[j],
    ) && keep(ts[j].to) by {
        a.lemma_useful_step(j);
    }
    assert forall|q: usize| q < a.state_count implies (#[trigger] b.live(q as int) <==> a.useful(
        q,
    )) by {
        if b.live(q as int) {
            let f = choose|f: usize| v1.is_marked(f) && #[trigger] connects(w1, End::Target, f, q);
            let word = choose|word: Seq<i32>| #[trigger] run(w1, q, word, f);
            lemma_run_sub(w1, ts, q, word, f);
            assert(a.accepts_from(q, word));
            if word.len() == 0 {
                assert(a.reachable(f));
            } else {
                let i = choose|i: int|
                    0 <= i < w1.len() && (#[trigger] w1[i]).from == q && w1[i].on_input == word[0]
                        && run(w1, w1[i].to, word.drop_first(), f);
                assert(b1.live(w1[i].from as int));
            }
        }
        if a.useful(q) {
            let word = choose|word: Seq<i32>| #[trigger] a.accepts_from(q, word);
            let r = choose|r: usize| #[trigger] run(ts, q, word, r) && a.finals.contains(r);
            lemma_run_restrict(ts, w1, keep, q, word, r);
            assert(b1.live(r as int));
            assert(v1.is_marked(r));
            assert(connects(w1, End::Target, r, q));
        }
    }
    assert forall|t: int| 0 <= t < w2.len() implies a.transitions.contains(#[trigger] w2[t]) by {
        assert(kept_from(w2[t], w1, b.set_of, End::Target));
        let i = choose|i: int| 0 <= i < w1.len() && w1[i] == w2[t];
        assert(ts.contains(w1[i]));
    }
    assert(live_ends(w2, b.set_of)) by {
        assert forall|t: int| 0 <= t < w2.len() implies (#[trigger] w2[t]).from < b.set_of.len()
            && w2[t].to < b.set_of.len() && b.set_of[w2[t].from as int] is Some
            && b.set_of[w2[t].to as int] is Some by {
            assert(kept_from(w2[t], w1, b.set_of, End::Target));
            let i = choose|i: int| 0 <= i < w1.len() && w1[i] == w2[t];
            assert(ts.contains(w1[i]));
            let j = choose|j: int| 0 <= j < ts.len() && ts[j] == w1[i];
            assert(b1.live(w1[i].from as int));
            assert(b.live(ts[j].to as int));
            a.lemma_useful_step(j);
            assert(a.useful(ts[j].from));
            assert(b.live(ts[j].from as int));
        }
    }
    assert forall|j: int|
        0 <= j < ts.len() && b.live((#[trigger] ts[j]).from as int) && b.live(
            ts[j].to as int,
        ) implies w2.contains(ts[j]) by {
        assert(a.useful(ts[j].from));
        assert(w1.contains(ts[j]));
        let i = choose|i: int| 0 <= i < w1.len() && w1[i] == ts[j];
        assert(end_of(w1[i], End::Target) == ts[j].to);
    }
}

/// The blocks that part the accepting states from the others and the cords
/// that part the transitions by their symbols are where the refinement
/// starts.
pub proof fn lemma_refined_init(
    a: Automaton,
    w: Seq<Transition>,
    b0: PartitionView,
    b: PartitionView,
    marked: spec_fn(usize) -> bool,
    c: PartitionView,
    keys: Seq<i32>,
)
    requires
        pruned(a, w, b0),
        split_by(b, b0, marked),
        forall|x: usize| #[trigger] marked(x) <==> b0.live(x as int) && a.finals.contains(x),
        w.len() <= usize::MAX,
        c.is_grouping_of(PartitionView::initial(w.len()), keys),
        keys.len() == w.len(),
        forall|t: int| 0 <= t < w.len() ==> #[trigger] keys[t] == w[t].on_input,
    ensures
        refined(a, w, b, c, 1, 1, 0),
{
    let c0 = PartitionView::initial(w.len());
    assert forall|t: int| 0 <= t < w.len() implies (#[trigger] c.set_of[t]) is Some by {
        assert(c0.set_of[t] is Some);
    }
    assert(stage(a, w, b0, c));
    lemma_stage_blocks(a, w, b0, c, b, marked);
    assert(finality_respected(a, b)) by {
        assert forall|p: int, q: int|
            b.live(p) && b.live(q) && (#[trigger] b.set_of[p]) == (
            #[trigger] b.set_of[q]) implies (a.finals.contains(p as usize) <==> a.finals.contains(
            q as usize,
        )) by {
            assert(b0.live(p) && b0.live(q));
            assert(marked(p as usize) <==> marked(q as usize));
        }
    }
    assert forall|t: int, u: int|
        0 <= t < w.len() && 0 <= u < w.len() && (#[trigger] c.set_of[t]) == (
        #[trigger] c.set_of[u]) implies w[t].on_input == w[u].on_input by {
        assert(c.live(t) && c.live(u));
        assert(keys[t] == w[t].on_input && keys[u] == w[u].on_input);
    }
    assert(b0.sets[0].len() > 0);
    assert(b.sets.len() >= 1);
    assert(cords_uniform(w, b, c, End::Target, 1));
    assert(cords_uniform(w, b, c, End::Source, 1));
    if a.deterministic() {
        assert(blocks_complete(a, b)) by {
            assert forall|p: usize, q: usize|
                a.useful(p) && a.useful(q) && #[trigger] a.equivalent(
                    p,
                    q,
                ) implies b.set_of[p as int] == b.set_of[q as int] by {
                assert(b0.live(p as int) && b0.live(q as int));
                let s = b0.set_of[p as int].unwrap();
                let t = b0.set_of[q as int].unwrap();
                assert(s < b0.sets.len() && t < b0.sets.len());
                a.lemma_accepts_empty(p);
                a.lemma_accepts_empty(q);
                assert(a.accepts_from(p, Seq::empty()) == a.accepts_from(q, Seq::empty()));
                assert(marked(p) <==> marked(q));
            }
        }
        assert(cords_complete(a, w, c)) by {
            assert forall|t: int, u: int| #[trigger] alike(a, w, t, u) implies c.set_of[t]
                == c.set_of[u] by {
                assert(c.set_of[t] is Some && c.set_of[u] is Some);
                assert(c.live(t) && c.live(u));
                assert(keys[t] == w[t].on_input && keys[u] == w[u].on_input);
            }
        }
        assert(blocks_follow(w, b, c, 0));
    }
}


/// Whether `m` has a state for each block, the block of the start state as
/// its start state, the blocks of the accepting states as its accepting
/// states, and for each cord the transition between the blocks of the ends
/// of the first transition of the cord.
pub open spec fn built_from(
    m: Automaton,
    a: Automaton,
    w: Seq<Transition>,
    b: PartitionView,
    c: PartitionView,
) -> bool {
    &&& m.state_count == b.sets.len()
    &&& b.set_of[a.start as int] == Some(m.start)
    &&& forall|s: usize|
        #[trigger] m.finals.contains(s) <==> exists|f: int|
            0 <= f < b.set_of.len() && a.finals.contains(f as usize) && #[trigger] b.set_of[f]
                == Some(s)
    &&& m.transitions.len() == c.sets.len()
    &&& forall|k: int|
        0 <= k < c.sets.len() ==> #[trigger] m.transitions[k] == image(
            w[c.sets[k][0] as int],
            b.set_of,
        )
}

/// The refinement is at its end: every cord has been used to split the
/// blocks, and every block to split the cords.
pub open spec fn stable(
    a: Automaton,
    w: Seq<Transition>,
    b: PartitionView,
    c: PartitionView,
) -> bool {
    exists|bt: int, bs: int|
        #[trigger] refined(a, w, b, c, bt, bs, c.sets.len() as int) && (w.len() == 0 || (bt
            == b.sets.len() && bs == b.sets.len()))
}

/// At the end of the refinement the transitions of a cord lead from one
/// block to one block on one symbol.
pub proof fn lemma_stable_cords(
    a: Automaton,
    w: Seq<Transition>,
    b: PartitionView,
    c: PartitionView,
    t: int,
    u: int,
)
    requires
        stable(a, w, b, c),
        0 <= t < w.len(),
        0 <= u < w.len(),
        c.set_of[t] == c.set_of[u],
    ensures
        image(w[t], b.set_of) == image(w[u], b.set_of),
        stage(a, w, b, c),
{
    let (bt, bs) = choose|bt: int, bs: int|
        #[trigger] refined(a, w, b, c, bt, bs, c.sets.len() as int) && (w.len() == 0 || (bt
            == b.sets.len() && bs == b.sets.len()));
    assert(w[t].from < b.set_of.len() && w[t].to < b.set_of.len());
    assert(w[u].from < b.set_of.len() && w[u].to < b.set_of.len());
    assert(b.set_of[w[t].from as int] is Some && b.set_of[w[t].to as int] is Some);
    assert(b.set_of[w[u].from as int] is Some && b.set_of[w[u].to as int] is Some);
    assert(block_of(b, w[t].from) < b.sets.len());
    assert(block_of(b, w[u].from) < b.sets.len());
    assert(block_of(b, w[t].to) < b.sets.len());
    assert(block_of(b, w[u].to) < b.sets.len());
    assert(block_of(b, end_of(w[t], End::Target)) == block_of(b, end_of(w[u], End::Target)));
    assert(block_of(b, end_of(w[t], End::Source)) == block_of(b, end_of(w[u], End::Source)));
}

/// At the end of the refinement of a deterministic automaton, where a
/// state has a transition, every state of its block has one in the same cord.
pub proof fn lemma_stable_follow(
    a: Automaton,
    w: Seq<Transition>,
    b: PartitionView,
    c: PartitionView,
    t: int,
    q: usize,
) -> (u: int)
    requires
        stable(a, w, b, c),
        a.deterministic(),
        0 <= t < w.len(),
        q < b.set_of.len(),
        b.set_of[q as int] == b.set_of[w[t].from as int],
    ensures
        0 <= u < w.len(),
        w[u].from == q,
        c.set_of[u] == c.set_of[t],
{
    let (bt, bs) = choose|bt: int, bs: int|
        #[trigger] refined(a, w, b, c, bt, bs, c.sets.len() as int) && (w.len() == 0 || (bt
            == b.sets.len() && bs == b.sets.len()));
    let cc = c.sets.len() as int;
    assert(w[t].from < b.set_of.len());
    assert(b.set_of[w[t].from as int] is Some);
    assert(c.set_of[t] is Some);
    assert(cord_of(c, t) < cc);
    assert(beside(w, b, c, cc, t, q as int));
    assert(follows(w, c, cc, t, q as int));
    let u = choose|u: int|
        0 <= u < w.len() && (#[trigger] w[u]).from == q as int && w[u].on_input == w[t].on_input
            && (cord_of(c, u) == cord_of(c, t) || cord_of(c, u) >= cc);
    assert(c.set_of[u] is Some);
    assert(cord_of(c, u) < cc);
    u
}

/// At the end of the refinement of a deterministic automaton the states
/// of a block accept the same words.
pub proof fn lemma_stable_accepts(
    a: Automaton,
    w: Seq<Transition>,
    b: PartitionView,
    c: PartitionView,
    p: usize,
    q: usize,
    word: Seq<i32>,
)
    requires
        stable(a, w, b, c),
        a.deterministic(),
        a.useful(p),
        a.useful(q),
        b.set_of[p as int] == b.set_of[q as int],
        a.accepts_from(p, word),
    ensures
        a.accepts_from(q, word),
    decreases word.len(),
{
    let (bt, bs) = choose|bt: int, bs: int|
        #[trigger] refined(a, w, b, c, bt, bs, c.sets.len() as int) && (w.len() == 0 || (bt
            == b.sets.len() && bs == b.sets.len()));
    let ts = a.transitions;
    assert(b.live(p as int) && b.live(q as int));
    let r = choose|r: usize| #[trigger] run(ts, p, word, r) && a.finals.contains(r);
    if word.len() == 0 {
        assert(a.finals.contains(q));
        assert(run(ts, q, word, q));
    } else {
        let i = choose|i: int|
            0 <= i < ts.len() && (#[trigger] ts[i]).from == p && ts[i].on_input == word[0] && run(
                ts,
                ts[i].to,
                word.drop_first(),
                r,
            );
        assert(a.accepts_from(ts[i].to, word.drop_first()));
        a.lemma_useful_step(i);
        assert(a.useful(ts[i].to));
        assert(b.live(ts[i].to as int));
        assert(w.contains(ts[i]));
        let t = choose|t: int| 0 <= t < w.len() && w[t] == ts[i];
        let u = lemma_stable_follow(a, w, b, c, t, q);
        lemma_stable_cords(a, w, b, c, t, u);
        let j = lemma_working_transition(a, w, b, c, u);
        assert(b.set_of[w[t].to as int] == b.set_of[w[u].to as int]);
        lemma_stable_accepts(a, w, b, c, w[t].to, w[u].to, word.drop_first());
        a.lemma_accepts_prepend(j, word.drop_first());
        assert(seq![ts[j].on_input] + word.drop_first() =~= word);
    }
}

/// The automaton that is built from the blocks and cords at the end of the
/// refinement is a quotient of the useful states.
pub proof fn lemma_stable_quotient(
    m: Automaton,
    a: Automaton,
    w: Seq<Transition>,
    b: PartitionView,
    c: PartitionView,
)
    requires
        stable(a, w, b, c),
        a.useful(a.start),
        built_from(m, a, w, b, c),
    ensures
        m.wf(),
        m.is_quotient_of(a, b.set_of),
{
    let (bt, bs) = choose|bt: int, bs: int|
        #[trigger] refined(a, w, b, c, bt, bs, c.sets.len() as int) && (w.len() == 0 || (bt
            == b.sets.len() && bs == b.sets.len()));
    let blk = b.set_of;
    assert forall|q: usize| q < a.state_count implies ((#[trigger] blk[q as int]) is Some
        <==> a.useful(q)) by {
        assert(b.live(q as int) <==> a.useful(q));
    }
    assert forall|s: usize| s < m.state_count implies #[trigger] inhabited(blk, s) by {
        assert(b.sets[s as int].len() > 0);
        let q = b.sets[s as int][0];
        assert(blk[q as int] == Some(s));
    }
    assert forall|q: usize| q < a.state_count && (#[trigger] blk[q as int]) is Some implies (
    m.finals.contains(blk[q as int].unwrap()) <==> a.finals.contains(q)) by {
        let s = blk[q as int].unwrap();
        if m.finals.contains(s) {
            let f = choose|f: int|
                0 <= f < b.set_of.len() && a.finals.contains(f as usize) && #[trigger] b.set_of[f]
                    == Some(s);
            assert(b.live(f) && b.live(q as int));
        }
        if a.finals.contains(q) {
            assert(b.set_of[q as int] == Some(s));
        }
    }
    assert forall|k: int| 0 <= k < m.transitions.len() implies arises(
        #[trigger] m.transitions[k],
        a,
        blk,
    ) by {
        assert(c.sets[k].len() > 0);
        let r = c.sets[k][0] as int;
        assert(r < c.set_of.len());
        let i = lemma_working_transition(a, w, b, c, r);
        assert(image(a.transitions[i], blk) == m.transitions[k]);
    }
    assert forall|i: int|
        0 <= i < a.transitions.len() && a.useful((#[trigger] a.transitions[i]).from) && a.useful(
            a.transitions[i].to,
        ) implies m.transitions.contains(image(a.transitions[i], blk)) by {
        assert(a.transitions[i].from < a.state_count && a.transitions[i].to < a.state_count);
        assert(b.live(a.transitions[i].from as int));
        assert(b.live(a.transitions[i].to as int));
        assert(w.contains(a.transitions[i]));
        let t = choose|t: int| 0 <= t < w.len() && w[t] == a.transitions[i];
        assert(c.set_of[t] is Some);
        let k = c.set_of[t].unwrap() as int;
        assert(c.sets[k].len() > 0);
        let r = c.sets[k][0] as int;
        assert(c.set_of[r] == Some(k as usize));
        lemma_stable_cords(a, w, b, c, t, r);
        assert(m.transitions[k] == image(w[t], blk));
    }
    assert(m.wf()) by {
        assert(b.live(a.start as int));
        assert forall|k: int| 0 <= k < m.transitions.len() implies (
        #[trigger] m.transitions[k]).from < m.state_count && m.transitions[k].to
            < m.state_count by {
            assert(c.sets[k].len() > 0);
            let r = c.sets[k][0] as int;
            assert(r < c.set_of.len());
            assert(w[r].from < b.set_of.len() && w[r].to < b.set_of.len());
            assert(b.set_of[w[r].from as int] is Some && b.set_of[w[r].to as int] is Some);
        }
        assert forall|s: usize| m.finals.contains(s) implies s < m.state_count by {
            let f = choose|f: int|
                0 <= f < b.set_of.len() && a.finals.contains(f as usize) && #[trigger] b.set_of[f]
                    == Some(s);
        }
    }
}

/// The automaton that is built from the blocks and cords at the end of the
/// refinement of a deterministic automaton merges the equivalent states and
/// no others, is deterministic and lists no transition twice.
pub proof fn lemma_stable_exact(
    m: Automaton,
    a: Automaton,
    w: Seq<Transition>,
    b: PartitionView,
    c: PartitionView,
)
    requires
        stable(a, w, b, c),
        a.deterministic(),
        built_from(m, a, w, b, c),
    ensures
        m.merges_exactly(a, b.set_of),
{
    let (bt, bs) = choose|bt: int, bs: int|
        #[trigger] refined(a, w, b, c, bt, bs, c.sets.len() as int) && (w.len() == 0 || (bt
            == b.sets.len() && bs == b.sets.len()));
    let blk = b.set_of;
    assert forall|p: usize, q: usize| a.useful(p) && a.useful(q) implies (#[trigger] together(
        blk,
        p,
        q,
    ) <==> a.equivalent(p, q)) by {
        if blk[p as int] == blk[q as int] {
            assert forall|word: Seq<i32>| #[trigger]
                a.accepts_from(p, word) == a.accepts_from(q, word) by {
                if a.accepts_from(p, word) {
                    lemma_stable_accepts(a, w, b, c, p, q, word);
                }
                if a.accepts_from(q, word) {
                    lemma_stable_accepts(a, w, b, c, q, p, word);
                }
            }
        }
    }
    assert forall|k: int, l: int|
        0 <= k < m.transitions.len() && 0 <= l < m.transitions.len() && (
        #[trigger] m.transitions[k]).from == (#[trigger] m.transitions[l]).from
            && m.transitions[k].on_input == m.transitions[l].on_input implies k == l by {
        assert(c.sets[k].len() > 0 && c.sets[l].len() > 0);
        let r = c.sets[k][0] as int;
        let s = c.sets[l][0] as int;
        assert(c.set_of[r] == Some(k as usize));
        assert(c.set_of[s] == Some(l as usize));
        assert(w[r].from < b.set_of.len() && w[s].from < b.set_of.len());
        assert(b.set_of[w[r].from as int] is Some && b.set_of[w[s].from as int] is Some);
        let u = lemma_stable_follow(a, w, b, c, r, w[s].from);
        lemma_stable_cords(a, w, b, c, r, u);
        lemma_same_step(a, w, b, c, u, s);
    }
    assert(m.transitions.no_duplicates());
    assert(m.deterministic());
}

/// The automaton that is built from the blocks and cords at the end of the
/// refinement is a minimized form.
pub proof fn lemma_stable(
    m: Automaton,
    a: Automaton,
    w: Seq<Transition>,
    b: PartitionView,
    c: PartitionView,
)
    requires
        stable(a, w, b, c),
        a.useful(a.start),
        built_from(m, a, w, b, c),
    ensures
        m.is_minimization_of(a),
{
    lemma_stable_quotient(m, a, w, b, c);
    if a.deterministic() {
        lemma_stable_exact(m, a, w, b, c);
    }
    assert(m.is_quotient_of(a, b.set_of));
}


/// Marks that come on top of marks add up.
pub proof fn lemma_marked_with_more(
    v: MarkingView,
    v1: MarkingView,
    v0: MarkingView,
    s1: Set<usize>,
    s0: Set<usize>,
)
    requires
        marked_with(v, v1, s1),
        marked_with(v1, v0, s0),
    ensures
        marked_with(v, v0, s0.union(s1)),
{
    assert forall|x: usize| #[trigger]
        v.is_marked(x) <==> v0.is_marked(x) || (s0.union(s1).contains(x) && v0.partition.live(
            x as int,
        )) by {
        assert(v.is_marked(x) <==> v1.is_marked(x) || (s1.contains(x) && v1.partition.live(
            x as int,
        )));
        assert(v1.is_marked(x) <==> v0.is_marked(x) || (s0.contains(x) && v0.partition.live(
            x as int,
        )));
    }
}

/// The invariant of the refinement does not depend on the order of the
/// elements within the blocks and the cords.
pub proof fn lemma_refined_reordered(
    a: Automaton,
    w: Seq<Transition>,
    b: PartitionView,
    c: PartitionView,
    bt: int,
    bs: int,
    cc: int,
    b2: PartitionView,
    c2: PartitionView,
)
    requires
        refined(a, w, b, c, bt, bs, cc),
        b2.valid(),
        b2.set_of == b.set_of,
        b2.sets.len() == b.sets.len(),
        c2.valid(),
        c2.set_of == c.set_of,
        c2.sets.len() == c.sets.len(),
    ensures
        refined(a, w, b2, c2, bt, bs, cc),
{
    assert(stage(a, w, b2, c2)) by {
        assert forall|q: usize| q < a.state_count implies (#[trigger] b2.live(q as int)
            <==> a.useful(q)) by {
            assert(b.live(q as int) <==> a.useful(q));
        }
        assert forall|j: int|
            0 <= j < a.transitions.len() && b2.live((#[trigger] a.transitions[j]).from as int)
                && b2.live(a.transitions[j].to as int) implies w.contains(a.transitions[j]) by {
            assert(b.live(a.transitions[j].from as int));
            assert(b.live(a.transitions[j].to as int));
        }
    }
    assert(finality_respected(a, b2)) by {
        assert forall|p: int, q: int|
            b2.live(p) && b2.live(q) && (#[trigger] b2.set_of[p]) == (
            #[trigger] b2.set_of[q]) implies (a.finals.contains(p as usize)
            <==> a.finals.contains(q as usize)) by {
            assert(b.live(p) && b.live(q));
        }
    }
    assert(cords_uniform(w, b2, c2, End::Target, bt)) by {
        assert forall|t: int, u: int|
            0 <= t < w.len() && 0 <= u < w.len() && (#[trigger] c2.set_of[t]) == (
            #[trigger] c2.set_of[u]) implies w[t].on_input == w[u].on_input && (block_of(
            b2,
            end_of(w[t], End::Target),
        ) == block_of(b2, end_of(w[u], End::Target)) || block_of(b2, end_of(w[t], End::Target))
            >= bt || block_of(b2, end_of(w[u], End::Target)) >= bt) by {
            assert(block_of(b2, end_of(w[t], End::Target)) == block_of(
                b,
                end_of(w[t], End::Target),
            ));
            assert(block_of(b2, end_of(w[u], End::Target)) == block_of(
                b,
                end_of(w[u], End::Target),
            ));
        }
    }
    assert(cords_uniform(w, b2, c2, End::Source, bs)) by {
        assert forall|t: int, u: int|
            0 <= t < w.len() && 0 <= u < w.len() && (#[trigger] c2.set_of[t]) == (
            #[trigger] c2.set_of[u]) implies w[t].on_input == w[u].on_input && (block_of(
            b2,
            end_of(w[t], End::Source),
        ) == block_of(b2, end_of(w[u], End::Source)) || block_of(b2, end_of(w[t], End::Source))
            >= bs || block_of(b2, end_of(w[u], End::Source)) >= bs) by {
            assert(block_of(b2, end_of(w[t], End::Source)) == block_of(
                b,
                end_of(w[t], End::Source),
            ));
            assert(block_of(b2, end_of(w[u], End::Source)) == block_of(
                b,
                end_of(w[u], End::Source),
            ));
        }
    }
    if a.deterministic() {
        assert(blocks_follow(w, b2, c2, cc)) by {
            assert forall|t: int, q: int| #[trigger] beside(w, b2, c2, cc, t, q) implies follows(
                w,
                c2,
                cc,
                t,
                q,
            ) by {
                assert(cord_of(c2, t) == cord_of(c, t));
                assert(beside(w, b, c, cc, t, q));
                assert(follows(w, c, cc, t, q));
                let u = choose|u: int|
                    0 <= u < w.len() && (#[trigger] w[u]).from == q && w[u].on_input
                        == w[t].on_input && (cord_of(c, u) == cord_of(c, t) || cord_of(c, u) >= cc);
                assert(cord_of(c2, u) == cord_of(c, u));
                assert(w[u].from == q);
            }
        }
        assert(blocks_complete(a, b2));
        assert(cords_complete(a, w, c2)) by {
            assert forall|t: int, u: int| #[trigger] alike(a, w, t, u) implies c2.set_of[t]
                == c2.set_of[u] by {
                assert(c.set_of[t] == c.set_of[u]);
            }
        }
    }
}

/// What the marks on the sources of the transitions of a cord say.
pub open spec fn sources_of(w: Seq<Transition>, c: PartitionView, cc: int) -> Set<usize> {
    Set::new(|x: usize| exists|t: int| 0 <= t < w.len() && #[trigger] cord_of(c, t) == cc && w[t].from == x)
}

/// The transitions that have a state of block `k` at their `end`.
pub open spec fn incident_to(w: Seq<Transition>, b: PartitionView, end: End, k: int) -> Set<usize> {
    Set::new(|t: usize| t < w.len() && block_of(b, end_of(w[t as int], end)) == k)
}

/// Splitting the blocks that hold the marked sources of the transitions of
/// cord `cc` goes on to the next cord.
pub proof fn lemma_blocks_step(
    a: Automaton,
    w: Seq<Transition>,
    b: PartitionView,
    c: PartitionView,
    bt: int,
    bs: int,
    cc: int,
    v0: MarkingView,
    v: MarkingView,
)
    requires
        refined(a, w, b, c, bt, bs, cc),
        cc < c.sets.len(),
        v0.valid(),
        v0.idle(),
        v0.partition == b,
        marked_with(v, v0, sources_of(w, c, cc)),
    ensures
        refined(a, w, v.split().partition, c, bt, bs, cc + 1),
        v.split().valid(),
        v.split().idle(),
{
    lemma_idle_unmarked(v0);
    lemma_refined_reordered(a, w, b, c, bt, bs, cc, v.partition, c);
    lemma_split_by(v);
    let marked = |x: usize| v.is_marked(x);
    assert forall|x: usize|
        #[trigger] marked(x) <==> exists|t: int|
            0 <= t < w.len() && #[trigger] cord_of(c, t) == cc && w[t].from == x by {
        assert(v.is_marked(x) <==> v0.is_marked(x) || (sources_of(w, c, cc).contains(x)
            && v0.partition.live(x as int)));
        if exists|t: int| 0 <= t < w.len() && #[trigger] cord_of(c, t) == cc && w[t].from == x {
            let t = choose|t: int|
                0 <= t < w.len() && #[trigger] cord_of(c, t) == cc && w[t].from == x;
            assert(w[t].from < b.set_of.len() && b.set_of[w[t].from as int] is Some);
        }
    }
    lemma_refine_blocks(a, w, v.partition, c, bt, bs, cc, v.split().partition, marked);
}

/// Splitting the cords that hold the marked transitions into block `k` goes
/// on to the next block for the targets.
pub proof fn lemma_cords_step_target(
    a: Automaton,
    w: Seq<Transition>,
    b: PartitionView,
    c: PartitionView,
    k: int,
    bs: int,
    cc: int,
    v0: MarkingView,
    v: MarkingView,
)
    requires
        refined(a, w, b, c, k, bs, cc),
        k < b.sets.len(),
        v0.valid(),
        v0.idle(),
        v0.partition == c,
        marked_with(v, v0, incident_to(w, b, End::Target, k)),
    ensures
        refined(a, w, b, v.split().partition, k + 1, bs, cc),
        v.split().valid(),
        v.split().idle(),
{
    lemma_idle_unmarked(v0);
    lemma_refined_reordered(a, w, b, c, k, bs, cc, b, v.partition);
    lemma_split_by(v);
    let marked = |x: usize| v.is_marked(x);
    assert forall|t: usize| t < w.len() implies (#[trigger] marked(t) <==> block_of(
        b,
        w[t as int].to,
    ) == k) by {
        assert(v.is_marked(t) <==> v0.is_marked(t) || (incident_to(w, b, End::Target, k).contains(
            t,
        ) && v0.partition.live(t as int)));
        assert(c.set_of[t as int] is Some);
    }
    lemma_refine_cords_by_target(a, w, b, v.partition, k, bs, cc, v.split().partition, marked);
}

/// Splitting the cords that hold the marked transitions from block `k` goes
/// on to the next block for the sources.
pub proof fn lemma_cords_step_source(
    a: Automaton,
    w: Seq<Transition>,
    b: PartitionView,
    c: PartitionView,
    bt: int,
    k: int,
    cc: int,
    v0: MarkingView,
    v: MarkingView,
)
    requires
        refined(a, w, b, c, bt, k, cc),
        k < b.sets.len(),
        v0.valid(),
        v0.idle(),
        v0.partition == c,
        marked_with(v, v0, incident_to(w, b, End::Source, k)),
    ensures
        refined(a, w, b, v.split().partition, bt, k + 1, cc),
        v.split().valid(),
        v.split().idle(),
{
    lemma_idle_unmarked(v0);
    lemma_refined_reordered(a, w, b, c, bt, k, cc, b, v.partition);
    lemma_split_by(v);
    let marked = |x: usize| v.is_marked(x);
    assert forall|t: usize| t < w.len() implies (#[trigger] marked(t) <==> block_of(
        b,
        w[t as int].from,
    ) == k) by {
        assert(v.is_marked(t) <==> v0.is_marked(t) || (incident_to(w, b, End::Source, k).contains(
            t,
        ) && v0.partition.live(t as int)));
        assert(c.set_of[t as int] is Some);
    }
    lemma_refine_cords_by_source(a, w, b, v.partition, bt, k, cc, v.split().partition, marked);
}

/// The blocks after the accepting useful states have been parted from the
/// others, and the cords by symbol, are where the refinement starts.
pub proof fn lemma_seeded(
    a: Automaton,
    w: Seq<Transition>,
    v0: MarkingView,
    v: MarkingView,
    c: PartitionView,
    keys: Seq<i32>,
)
    requires
        pruned(a, w, v0.partition),
        v0.valid(),
        v0.idle(),
        marked_with(v, v0, a.finals),
        w.len() <= usize::MAX,
        c.is_grouping_of(PartitionView::initial(w.len()), keys),
        keys.len() == w.len(),
        forall|t: int| 0 <= t < w.len() ==> #[trigger] keys[t] == w[t].on_input,
    ensures
        refined(a, w, v.split().partition, c, 1, 1, 0),
{
    lemma_idle_unmarked(v0);
    lemma_split_by(v);
    let marked = |x: usize| v.is_marked(x);
    assert(pruned(a, w, v.partition)) by {
        assert forall|q: usize| q < a.state_count implies (#[trigger] v.partition.live(q as int)
            <==> a.useful(q)) by {
            assert(v0.partition.live(q as int) <==> a.useful(q));
        }
        assert forall|j: int|
            0 <= j < a.transitions.len() && v.partition.live(
                (#[trigger] a.transitions[j]).from as int,
            ) && v.partition.live(a.transitions[j].to as int) implies w.contains(
            a.transitions[j],
        ) by {
            assert(v0.partition.live(a.transitions[j].from as int));
            assert(v0.partition.live(a.transitions[j].to as int));
        }
    }
    assert forall|x: usize| #[trigger] marked(x) <==> v.partition.live(x as int)
        && a.finals.contains(x) by {
        assert(v.is_marked(x) <==> v0.is_marked(x) || (a.finals.contains(x)
            && v0.partition.live(x as int)));
    }
    lemma_refined_init(a, w, v.partition, v.split().partition, marked, c, keys);
}


/// Where some state is useful the start state is.
pub proof fn lemma_useful_start(a: Automaton, q: usize)
    requires
        a.wf(),
        a.useful(q),
    ensures
        a.useful(a.start),
{
    let v = choose|v: Seq<i32>| #[trigger] run(a.transitions, a.start, v, q);
    let word = choose|word: Seq<i32>| #[trigger] a.accepts_from(q, word);
    let r = choose|r: usize| #[trigger] run(a.transitions, q, word, r) && a.finals.contains(r);
    crate::lang::lemma_run_concat(a.transitions, a.start, v, q, word, r);
    assert(a.accepts_from(a.start, v + word));
    assert(run(a.transitions, a.start, Seq::empty(), a.start));
}

/// A reachable accepting state is useful.
pub proof fn lemma_useful_final(a: Automaton, q: usize)
    requires
        a.wf(),
        a.reachable(q),
        a.finals.contains(q),
    ensures
        a.useful(q),
{
    a.lemma_accepts_empty(q);
}

/// At the end of the refinement the stage stands.
pub proof fn lemma_stable_stage(
    a: Automaton,
    w: Seq<Transition>,
    b: PartitionView,
    c: PartitionView,
)
    requires
        stable(a, w, b, c),
    ensures
        stage(a, w, b, c),
{
}

} // verus!
