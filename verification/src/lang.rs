//! Finite automata as mathematical objects: runs, accepted words, and the
//! states that matter for the accepted language.
use crate::fa::End;
use crate::fa::Transition;
use crate::fa::end_of;
use vstd::prelude::*;

verus! {

/// A finite automaton over the states `0..state_count`.
pub struct Automaton {
    pub state_count: usize,
    pub start: usize,
    pub transitions: Seq<Transition>,
    pub finals: Set<usize>,
}

impl Automaton {
    /// The start state, the accepting states and both ends of every
    /// transition are states. An automaton without states has no start state.
    pub open spec fn wf(self) -> bool {
        &&& self.state_count > 0 ==> self.start < self.state_count
        &&& forall|i: int|
            0 <= i < self.transitions.len() ==> (#[trigger] self.transitions[i]).from
                < self.state_count && self.transitions[i].to < self.state_count
        &&& forall|q: usize| self.finals.contains(q) ==> q < self.state_count
    }

    /// No state has two transitions on one symbol that lead to different
    /// states.
    pub open spec fn deterministic(self) -> bool {
        forall|i: int, j: int|
            0 <= i < self.transitions.len() && 0 <= j < self.transitions.len() && (
            #[trigger] self.transitions[i]).from == (#[trigger] self.transitions[j]).from
                && self.transitions[i].on_input == self.transitions[j].on_input
                ==> self.transitions[i].to == self.transitions[j].to
    }
}


/// Whether reading the word `w` along transitions of `ts` can lead from
/// state `q` to state `r`.
pub open spec fn run(ts: Seq<Transition>, q: usize, w: Seq<i32>, r: usize) -> bool
    decreases w.len(),
{
    if w.len() == 0 {
        q == r
    } else {
        exists|i: int|
            0 <= i < ts.len() && (#[trigger] ts[i]).from == q && ts[i].on_input == w[0] && run(
                ts,
                ts[i].to,
                w.drop_first(),
                r,
            )
    }
}

/// Whether transitions of `ts` connect `p` with `q`: from `p` to `q` when
/// followed from their source, from `q` to `p` when followed from their
/// target.
pub open spec fn connects(ts: Seq<Transition>, end: End, p: usize, q: usize) -> bool {
    match end {
        End::Source => exists|w: Seq<i32>| #[trigger] run(ts, p, w, q),
        End::Target => exists|w: Seq<i32>| #[trigger] run(ts, q, w, p),
    }
}

/// The state at the other end of a transition.
pub open spec fn other_end_of(t: Transition, end: End) -> usize {
    match end {
        End::Source => t.to,
        End::Target => t.from,
    }
}

/// A run goes on by one more transition.
pub proof fn lemma_run_push(ts: Seq<Transition>, p: usize, w: Seq<i32>, i: int)
    requires
        0 <= i < ts.len(),
        run(ts, p, w, ts[i].from),
    ensures
        run(ts, p, w.push(ts[i].on_input), ts[i].to),
    decreases w.len(),
{
    let longer = w.push(ts[i].on_input);
    if w.len() == 0 {
        assert(longer.drop_first() =~= Seq::empty());
        assert(run(ts, ts[i].to, longer.drop_first(), ts[i].to));
        assert(longer[0] == ts[i].on_input);
    } else {
        let j = choose|j: int|
            0 <= j < ts.len() && (#[trigger] ts[j]).from == p && ts[j].on_input == w[0] && run(
                ts,
                ts[j].to,
                w.drop_first(),
                ts[i].from,
            );
        lemma_run_push(ts, ts[j].to, w.drop_first(), i);
        assert(longer.drop_first() =~= w.drop_first().push(ts[i].on_input));
        assert(longer[0] == w[0]);
    }
}

/// A run starts with one more transition.
pub proof fn lemma_run_prepend(ts: Seq<Transition>, i: int, w: Seq<i32>, r: usize)
    requires
        0 <= i < ts.len(),
        run(ts, ts[i].to, w, r),
    ensures
        run(ts, ts[i].from, seq![ts[i].on_input] + w, r),
{
    let longer = seq![ts[i].on_input] + w;
    assert(longer.drop_first() =~= w);
    assert(longer[0] == ts[i].on_input);
}

/// Two runs in a row make one.
pub proof fn lemma_run_concat(
    ts: Seq<Transition>,
    p: usize,
    v: Seq<i32>,
    q: usize,
    w: Seq<i32>,
    r: usize,
)
    requires
        run(ts, p, v, q),
        run(ts, q, w, r),
    ensures
        run(ts, p, v + w, r),
    decreases v.len(),
{
    if v.len() == 0 {
        assert(v + w =~= w);
    } else {
        let j = choose|j: int|
            0 <= j < ts.len() && (#[trigger] ts[j]).from == p && ts[j].on_input == v[0] && run(
                ts,
                ts[j].to,
                v.drop_first(),
                q,
            );
        lemma_run_concat(ts, ts[j].to, v.drop_first(), q, w, r);
        assert((v + w).drop_first() =~= v.drop_first() + w);
        assert((v + w)[0] == v[0]);
    }
}

/// A set of states that no transition leaves holds every state that a run
/// from one of its states leads to.
pub proof fn lemma_closed_forward(
    ts: Seq<Transition>,
    inside: spec_fn(usize) -> bool,
    p: usize,
    w: Seq<i32>,
    q: usize,
)
    requires
        inside(p),
        forall|i: int| 0 <= i < ts.len() && inside((#[trigger] ts[i]).from) ==> inside(ts[i].to),
        run(ts, p, w, q),
    ensures
        inside(q),
    decreases w.len(),
{
    if w.len() > 0 {
        let j = choose|j: int|
            0 <= j < ts.len() && (#[trigger] ts[j]).from == p && ts[j].on_input == w[0] && run(
                ts,
                ts[j].to,
                w.drop_first(),
                q,
            );
        lemma_closed_forward(ts, inside, ts[j].to, w.drop_first(), q);
    }
}

/// A set of states that no transition enters holds every state from which
/// a run leads to one of its states.
pub proof fn lemma_closed_backward(
    ts: Seq<Transition>,
    inside: spec_fn(usize) -> bool,
    p: usize,
    w: Seq<i32>,
    q: usize,
)
    requires
        inside(q),
        forall|i: int| 0 <= i < ts.len() && inside((#[trigger] ts[i]).to) ==> inside(ts[i].from),
        run(ts, p, w, q),
    ensures
        inside(p),
    decreases w.len(),
{
    if w.len() > 0 {
        let j = choose|j: int|
            0 <= j < ts.len() && (#[trigger] ts[j]).from == p && ts[j].on_input == w[0] && run(
                ts,
                ts[j].to,
                w.drop_first(),
                q,
            );
        lemma_closed_backward(ts, inside, ts[j].to, w.drop_first(), q);
    }
}

/// A set of states that holds the other end of each of its transitions
/// holds every state that is connected with one of its states.
pub proof fn lemma_closed(
    ts: Seq<Transition>,
    end: End,
    inside: spec_fn(usize) -> bool,
    p: usize,
    q: usize,
)
    requires
        inside(p),
        forall|i: int|
            0 <= i < ts.len() && inside(end_of(#[trigger] ts[i], end)) ==> inside(
                other_end_of(ts[i], end),
            ),
        connects(ts, end, p, q),
    ensures
        inside(q),
{
    match end {
        End::Source => {
            let w = choose|w: Seq<i32>| #[trigger] run(ts, p, w, q);
            assert forall|i: int| 0 <= i < ts.len() && inside((#[trigger] ts[i]).from) implies inside(
                ts[i].to,
            ) by {
                assert(inside(end_of(ts[i], end)));
            }
            lemma_closed_forward(ts, inside, p, w, q);
        },
        End::Target => {
            let w = choose|w: Seq<i32>| #[trigger] run(ts, q, w, p);
            assert forall|i: int| 0 <= i < ts.len() && inside((#[trigger] ts[i]).to) implies inside(
                ts[i].from,
            ) by {
                assert(inside(end_of(ts[i], end)));
            }
            lemma_closed_backward(ts, inside, q, w, p);
        },
    }
}

/// A state is connected with itself, and a connection goes on by one more
/// transition.
pub proof fn lemma_connects_step(ts: Seq<Transition>, end: End, p: usize, i: int)
    requires
        0 <= i < ts.len(),
        connects(ts, end, p, end_of(ts[i], end)),
    ensures
        connects(ts, end, p, other_end_of(ts[i], end)),
        connects(ts, end, p, p),
{
    assert(run(ts, p, Seq::empty(), p));
    match end {
        End::Source => {
            let w = choose|w: Seq<i32>| #[trigger] run(ts, p, w, ts[i].from);
            lemma_run_push(ts, p, w, i);
        },
        End::Target => {
            let w = choose|w: Seq<i32>| #[trigger] run(ts, ts[i].to, w, p);
            lemma_run_prepend(ts, i, w, p);
        },
    }
}

impl Automaton {
    /// Whether the word `w` leads from state `q` to an accepting state.
    pub open spec fn accepts_from(self, q: usize, w: Seq<i32>) -> bool {
        exists|r: usize| #[trigger] run(self.transitions, q, w, r) && self.finals.contains(r)
    }

    /// Whether the automaton accepts the word `w`.
    pub open spec fn accepts(self, w: Seq<i32>) -> bool {
        self.accepts_from(self.start, w)
    }

    /// Whether some word leads from the start state to `q`.
    pub open spec fn reachable(self, q: usize) -> bool {
        exists|w: Seq<i32>| #[trigger] run(self.transitions, self.start, w, q)
    }

    /// Whether some word leads from `q` to an accepting state.
    pub open spec fn productive(self, q: usize) -> bool {
        exists|w: Seq<i32>| #[trigger] self.accepts_from(q, w)
    }

    /// Whether `q` is a state that lies on the way of some accepted word.
    pub open spec fn useful(self, q: usize) -> bool {
        q < self.state_count && self.reachable(q) && self.productive(q)
    }

    /// Whether the same words lead from `p` and from `q` to an accepting
    /// state.
    pub open spec fn equivalent(self, p: usize, q: usize) -> bool {
        forall|w: Seq<i32>| #[trigger] self.accepts_from(p, w) == self.accepts_from(q, w)
    }

    /// The automaton with one state, which is not accepting, and without
    /// transitions. It accepts no word.
    pub open spec fn trivial() -> Automaton {
        Automaton { state_count: 1, start: 0, transitions: Seq::empty(), finals: Set::empty() }
    }
}


impl Automaton {
    /// The empty word leads from a state to an accepting state when the
    /// state is accepting.
    pub proof fn lemma_accepts_empty(self, q: usize)
        ensures
            self.accepts_from(q, Seq::empty()) <==> self.finals.contains(q),
    {
        if self.finals.contains(q) {
            assert(run(self.transitions, q, Seq::empty(), q));
        }
    }

    /// A word that is accepted from the target of a transition is accepted
    /// from its source behind the symbol of the transition.
    pub proof fn lemma_accepts_prepend(self, i: int, w: Seq<i32>)
        requires
            0 <= i < self.transitions.len(),
            self.accepts_from(self.transitions[i].to, w),
        ensures
            self.accepts_from(self.transitions[i].from, seq![self.transitions[i].on_input] + w),
    {
        let r = choose|r: usize|
            #[trigger] run(self.transitions, self.transitions[i].to, w, r) && self.finals.contains(
                r,
            );
        lemma_run_prepend(self.transitions, i, w, r);
    }

    /// In a deterministic automaton a word that is accepted from the source
    /// of a transition behind its symbol is accepted from its target.
    pub proof fn lemma_accepts_behind(self, i: int, w: Seq<i32>)
        requires
            self.deterministic(),
            0 <= i < self.transitions.len(),
            self.accepts_from(self.transitions[i].from, seq![self.transitions[i].on_input] + w),
        ensures
            self.accepts_from(self.transitions[i].to, w),
    {
        let ts = self.transitions;
        let longer = seq![ts[i].on_input] + w;
        let r = choose|r: usize| #[trigger] run(ts, ts[i].from, longer, r) && self.finals.contains(r);
        let j = choose|j: int|
            0 <= j < ts.len() && (#[trigger] ts[j]).from == ts[i].from && ts[j].on_input
                == longer[0] && run(ts, ts[j].to, longer.drop_first(), r);
        assert(longer.drop_first() =~= w);
        assert(ts[j].to == ts[i].to);
    }

    /// The target of a transition from a reachable state is reachable, and
    /// the source of a transition to a productive state is productive.
    pub proof fn lemma_useful_step(self, i: int)
        requires
            0 <= i < self.transitions.len(),
        ensures
            self.reachable(self.transitions[i].from) ==> self.reachable(self.transitions[i].to),
            self.productive(self.transitions[i].to) ==> self.productive(self.transitions[i].from),
    {
        let ts = self.transitions;
        if self.reachable(ts[i].from) {
            let w = choose|w: Seq<i32>| #[trigger] run(ts, self.start, w, ts[i].from);
            lemma_run_push(ts, self.start, w, i);
        }
        if self.productive(ts[i].to) {
            let w = choose|w: Seq<i32>| #[trigger] self.accepts_from(ts[i].to, w);
            self.lemma_accepts_prepend(i, w);
        }
    }
}


/// A run along transitions of `small` is a run along transitions of `big`
/// when `big` holds every transition of `small`.
pub proof fn lemma_run_sub(
    small: Seq<Transition>,
    big: Seq<Transition>,
    q: usize,
    w: Seq<i32>,
    r: usize,
)
    requires
        forall|i: int| 0 <= i < small.len() ==> big.contains(#[trigger] small[i]),
        run(small, q, w, r),
    ensures
        run(big, q, w, r),
    decreases w.len(),
{
    if w.len() > 0 {
        let i = choose|i: int|
            0 <= i < small.len() && (#[trigger] small[i]).from == q && small[i].on_input == w[0]
                && run(small, small[i].to, w.drop_first(), r);
        lemma_run_sub(small, big, small[i].to, w.drop_first(), r);
        assert(big.contains(small[i]));
        let j = choose|j: int| 0 <= j < big.len() && big[j] == small[i];
        assert(big[j].from == q);
    }
}

/// A run along transitions of `big` from a state in `keep` is a run along
/// transitions of `small` when `small` holds every transition of `big` from a
/// state in `keep`, and no such transition leaves `keep`.
pub proof fn lemma_run_restrict(
    big: Seq<Transition>,
    small: Seq<Transition>,
    keep: spec_fn(usize) -> bool,
    q: usize,
    w: Seq<i32>,
    r: usize,
)
    requires
        forall|j: int|
            0 <= j < big.len() && keep((#[trigger] big[j]).from) ==> small.contains(big[j])
                && keep(big[j].to),
        keep(q),
        run(big, q, w, r),
    ensures
        run(small, q, w, r),
        keep(r),
    decreases w.len(),
{
    if w.len() > 0 {
        let j = choose|j: int|
            0 <= j < big.len() && (#[trigger] big[j]).from == q && big[j].on_input == w[0] && run(
                big,
                big[j].to,
                w.drop_first(),
                r,
            );
        lemma_run_restrict(big, small, keep, big[j].to, w.drop_first(), r);
        assert(small.contains(big[j]));
        let i = choose|i: int| 0 <= i < small.len() && small[i] == big[j];
        assert(small[i].from == q);
    }
}

/// The transition between the blocks of the ends of `t`.
pub open spec fn image(t: Transition, blk: Seq<Option<usize>>) -> Transition {
    Transition {
        from: blk[t.from as int].unwrap(),
        on_input: t.on_input,
        to: blk[t.to as int].unwrap(),
    }
}

/// Whether `p` and `q` have one block.
pub open spec fn together(blk: Seq<Option<usize>>, p: usize, q: usize) -> bool {
    blk[p as int] == blk[q as int]
}

/// Whether some state has the block `s`.
pub open spec fn inhabited(blk: Seq<Option<usize>>, s: usize) -> bool {
    exists|q: int| 0 <= q < blk.len() && #[trigger] blk[q] == Some(s)
}

/// Whether `t` is the image of a transition of `a` between useful states.
pub open spec fn arises(t: Transition, a: Automaton, blk: Seq<Option<usize>>) -> bool {
    exists|i: int|
        0 <= i < a.transitions.len() && a.useful((#[trigger] a.transitions[i]).from) && a.useful(
            a.transitions[i].to,
        ) && image(a.transitions[i], blk) == t
}

impl Automaton {
    /// Whether this automaton is what becomes of the useful states of `a`
    /// when each is replaced by its block under `blk`, which maps the useful
    /// states onto the states of this automaton and no other state anywhere:
    /// the start state is the block of the start state, the accepting states
    /// are the blocks of the accepting states, a block holds accepting states
    /// only or none, and the transitions are the images of the transitions
    /// between useful states.
    pub open spec fn is_quotient_of(self, a: Automaton, blk: Seq<Option<usize>>) -> bool {
        &&& blk.len() == a.state_count
        &&& forall|q: usize|
            q < a.state_count ==> ((#[trigger] blk[q as int]) is Some <==> a.useful(q))
        &&& forall|q: usize|
            q < a.state_count ==> ((#[trigger] blk[q as int]) matches Some(s) ==> s
                < self.state_count)
        &&& forall|s: usize| s < self.state_count ==> #[trigger] inhabited(blk, s)
        &&& a.useful(a.start)
        &&& blk[a.start as int] == Some(self.start)
        &&& forall|q: usize|
            q < a.state_count && (#[trigger] blk[q as int]) is Some ==> (self.finals.contains(
                blk[q as int].unwrap(),
            ) <==> a.finals.contains(q))
        &&& forall|k: int|
            0 <= k < self.transitions.len() ==> arises(#[trigger] self.transitions[k], a, blk)
        &&& forall|i: int|
            0 <= i < a.transitions.len() && a.useful((#[trigger] a.transitions[i]).from)
                && a.useful(a.transitions[i].to) ==> self.transitions.contains(
                image(a.transitions[i], blk),
            )
    }

    /// Whether `blk` puts two useful states of `a` in one block exactly when
    /// they are equivalent, and this automaton is deterministic and lists no
    /// transition twice.
    pub open spec fn merges_exactly(self, a: Automaton, blk: Seq<Option<usize>>) -> bool {
        &&& forall|p: usize, q: usize|
            a.useful(p) && a.useful(q) ==> (#[trigger] together(blk, p, q) <==> a.equivalent(p, q))
        &&& self.transitions.no_duplicates()
        &&& self.deterministic()
    }

    /// Whether this automaton is a minimized form of `a`. Where `a` accepts
    /// no word, it is the automaton with one state and no transition.
    /// Otherwise it is a quotient of the useful states of `a`, and where `a`
    /// is deterministic the quotient merges the equivalent states and no
    /// others.
    pub open spec fn is_minimization_of(self, a: Automaton) -> bool {
        &&& self.wf()
        &&& if a.useful(a.start) {
            exists|blk: Seq<Option<usize>>|
                #[trigger] self.is_quotient_of(a, blk) && (a.deterministic()
                    ==> self.merges_exactly(a, blk))
        } else {
            self == Automaton::trivial()
        }
    }
}

} // verus!
