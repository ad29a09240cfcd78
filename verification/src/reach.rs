//! The search for the states that are connected with the marked ones, as it
//! is seen in the marks of a session.
use crate::fa::End;
use crate::fa::Transition;
use crate::fa::end_of;
use crate::lang::connects;
use crate::lang::lemma_closed;
use crate::lang::lemma_connects_step;
use crate::lang::other_end_of;
use crate::min::MarkingView;
use vstd::prelude::*;

verus! {

/// Every transition that has `x` at its `end` has a marked state at its
/// other end.
pub open spec fn closed_at(v: MarkingView, ts: Seq<Transition>, end: End, x: usize) -> bool {
    forall|i: int|
        0 <= i < ts.len() && end_of(#[trigger] ts[i], end) == x ==> v.is_marked(
            other_end_of(ts[i], end),
        )
}

/// The first `upto` elements of set 0 are closed.
pub open spec fn closed_upto(v: MarkingView, ts: Seq<Transition>, end: End, upto: int) -> bool {
    forall|k: int| 0 <= k < upto ==> closed_at(v, ts, end, #[trigger] v.partition.sets[0][k])
}

/// Every state that is marked in `v` is connected with one that is marked
/// in set 0 of `v0`, and every state that is marked in set 0 of `v0` is
/// marked in `v`.
pub open spec fn grown_from(v: MarkingView, v0: MarkingView, ts: Seq<Transition>, end: End) -> bool {
    &&& v.partition.set_of == v0.partition.set_of
    &&& v.partition.sets.len() == v0.partition.sets.len()
    &&& forall|x: usize|
        #[trigger] v.is_marked(x) ==> exists|k: int|
            0 <= k < v0.marked[0] && #[trigger] connects(ts, end, v0.partition.sets[0][k], x)
    &&& forall|k: int| 0 <= k < v0.marked[0] ==> v.is_marked(#[trigger] seed(v0, k))
}

/// The marked element at position `k` of set 0.
pub open spec fn seed(v0: MarkingView, k: int) -> usize {
    v0.partition.sets[0][k]
}

/// Both ends of every transition are live states.
pub open spec fn live_ends(ts: Seq<Transition>, set_of: Seq<Option<usize>>) -> bool {
    forall|i: int|
        0 <= i < ts.len() ==> (#[trigger] ts[i]).from < set_of.len() && ts[i].to < set_of.len()
            && set_of[ts[i].from as int] is Some && set_of[ts[i].to as int] is Some
}

/// Whether `t` is a transition of `before` whose `end` is live.
pub open spec fn kept_from(
    t: Transition,
    before: Seq<Transition>,
    set_of: Seq<Option<usize>>,
    end: End,
) -> bool {
    before.contains(t) && set_of[end_of(t, end) as int] is Some
}

/// `after` keeps of `before` the transitions whose `end` is live, and no
/// other.
pub open spec fn retained(
    after: Seq<Transition>,
    before: Seq<Transition>,
    set_of: Seq<Option<usize>>,
    end: End,
) -> bool {
    &&& forall|i: int| 0 <= i < after.len() ==> kept_from(#[trigger] after[i], before, set_of, end)
    &&& forall|j: int|
        0 <= j < before.len() && set_of[end_of(#[trigger] before[j], end) as int] is Some
            ==> after.contains(before[j])
}

/// Nothing has been searched yet.
pub proof fn lemma_search_start(v0: MarkingView, ts: Seq<Transition>, end: End)
    requires
        v0.valid(),
        v0.partition.sets.len() == 1,
    ensures
        grown_from(v0, v0, ts, end),
        closed_upto(v0, ts, end, 0),
{
    assert forall|x: usize| #[trigger] v0.is_marked(x) implies exists|k: int|
        0 <= k < v0.marked[0] && #[trigger] connects(ts, end, v0.partition.sets[0][k], x) by {
        assert(crate::lang::run(ts, x, Seq::empty(), x));
        assert(connects(ts, end, x, x));
        let s = v0.partition.set_of[x as int].unwrap();
        assert(s < v0.partition.sets.len());
        let prefix = v0.marked_of(0);
        let k = choose|k: int| 0 <= k < prefix.len() && prefix[k] == x;
        assert(v0.partition.sets[0][k] == x);
    }
    assert forall|k: int| 0 <= k < v0.marked[0] implies v0.is_marked(#[trigger] seed(v0, k)) by {
        assert(v0.marked_of(0)[k] == v0.partition.sets[0][k]);
    }
}

/// Marking the other end of a transition at a marked state keeps the
/// search sound and keeps closed what was closed.
pub proof fn lemma_search_mark(
    v: MarkingView,
    v0: MarkingView,
    ts: Seq<Transition>,
    end: End,
    upto: int,
    i: int,
)
    requires
        v.valid(),
        v.partition.sets.len() == 1,
        grown_from(v, v0, ts, end),
        closed_upto(v, ts, end, upto),
        upto <= v.marked[0],
        live_ends(ts, v.partition.set_of),
        0 <= i < ts.len(),
        v.is_marked(end_of(ts[i], end)),
    ensures
        ({
            let w = v.mark(other_end_of(ts[i], end));
            &&& w.valid()
            &&& grown_from(w, v0, ts, end)
            &&& closed_upto(w, ts, end, upto)
            &&& w.is_marked(other_end_of(ts[i], end))
            &&& forall|x: usize| v.is_marked(x) ==> #[trigger] w.is_marked(x)
            &&& forall|k: int|
                0 <= k < v.marked[0] ==> #[trigger] w.partition.sets[0][k] == v.partition.sets[0][k]
            &&& v.marked[0] <= w.marked[0]
        }),
{
    let e = other_end_of(ts[i], end);
    let w = v.mark(e);
    assert(ts[i].from < v.partition.set_of.len() && ts[i].to < v.partition.set_of.len());
    v.lemma_mark(e);
    assert(w.is_marked(e));
    assert forall|x: usize| #[trigger] w.is_marked(x) implies exists|k: int|
        0 <= k < v0.marked[0] && #[trigger] connects(ts, end, v0.partition.sets[0][k], x) by {
        if v.is_marked(x) {
        } else {
            assert(v.is_marked(end_of(ts[i], end)));
            let k = choose|k: int|
                0 <= k < v0.marked[0] && #[trigger] connects(
                    ts,
                    end,
                    v0.partition.sets[0][k],
                    end_of(ts[i], end),
                );
            lemma_connects_step(ts, end, v0.partition.sets[0][k], i);
        }
    }
    assert forall|k: int| 0 <= k < v0.marked[0] implies w.is_marked(#[trigger] seed(v0, k)) by {
        assert(v.is_marked(seed(v0, k)));
    }
    assert forall|k: int| 0 <= k < upto implies closed_at(
        w,
        ts,
        end,
        #[trigger] w.partition.sets[0][k],
    ) by {
        assert(w.partition.sets[0][k] == v.partition.sets[0][k]);
        assert(closed_at(v, ts, end, v.partition.sets[0][k]));
        assert forall|j: int|
            0 <= j < ts.len() && end_of(#[trigger] ts[j], end)
                == w.partition.sets[0][k] implies w.is_marked(other_end_of(ts[j], end)) by {
            assert(v.is_marked(other_end_of(ts[j], end)));
        }
    }
}

/// The states that the finished search has marked, and no other, stay live
/// when the unmarked ones are discarded.
pub open spec fn found(
    after: MarkingView,
    v0: MarkingView,
    ts: Seq<Transition>,
    end: End,
) -> bool {
    &&& after.valid()
    &&& after.idle()
    &&& after.partition.sets.len() == 1
    &&& after.partition.set_of.len() == v0.partition.set_of.len()
    &&& forall|q: usize|
        q < v0.partition.set_of.len() ==> (#[trigger] after.partition.live(q as int)
            <==> exists|p: usize| v0.is_marked(p) && #[trigger] connects(ts, end, p, q))
}

/// Once every marked state is closed, the marked states are those that are
/// connected with a state that was marked at the start.
pub proof fn lemma_search_done(v: MarkingView, v0: MarkingView, ts: Seq<Transition>, end: End)
    requires
        v.valid(),
        v0.valid(),
        v.partition.sets.len() == 1,
        grown_from(v, v0, ts, end),
        closed_upto(v, ts, end, v.marked[0] as int),
        v0.marked[0] > 0,
    ensures
        found(v.discard(), v0, ts, end),
{
    let inside = |x: usize| v.is_marked(x);
    assert forall|i: int|
        0 <= i < ts.len() && inside(end_of(#[trigger] ts[i], end)) implies inside(
        other_end_of(ts[i], end),
    ) by {
        let x = end_of(ts[i], end);
        assert(v.partition.set_of[x as int] == Some(0usize)) by {
            let s = v.partition.set_of[x as int].unwrap();
            assert(s < v.partition.sets.len());
        }
        let prefix = v.marked_of(0);
        let k = choose|k: int| 0 <= k < prefix.len() && prefix[k] == x;
        assert(v.partition.sets[0][k] == x);
        assert(closed_at(v, ts, end, v.partition.sets[0][k]));
    }
    assert forall|q: usize|
        (exists|p: usize| v0.is_marked(p) && #[trigger] connects(ts, end, p, q)) implies #[trigger] v.is_marked(
        q,
    ) by {
        let p = choose|p: usize| v0.is_marked(p) && #[trigger] connects(ts, end, p, q);
        let s = v0.partition.set_of[p as int].unwrap();
        assert(s < v0.partition.sets.len());
        let prefix = v0.marked_of(0);
        let k = choose|k: int| 0 <= k < prefix.len() && prefix[k] == p;
        assert(seed(v0, k) == p);
        assert(v.is_marked(p));
        lemma_closed(ts, end, inside, p, q);
    }
    assert forall|q: usize| #[trigger] v.is_marked(q) implies exists|p: usize|
        v0.is_marked(p) && #[trigger] connects(ts, end, p, q) by {
        let k = choose|k: int|
            0 <= k < v0.marked[0] && #[trigger] connects(ts, end, v0.partition.sets[0][k], q);
        let p = v0.partition.sets[0][k];
        assert(v0.marked_of(0)[k] == p);
        assert(v0.partition.set_of[p as int] == Some(0usize));
        assert(v0.is_marked(p));
    }
    let first = seed(v0, 0);
    assert(v0.partition.sets[0].len() > 0);
    assert(v.is_marked(first));
    assert(v.partition.set_of[first as int] == Some(0usize)) by {
        let s = v.partition.set_of[first as int].unwrap();
        assert(s < v.partition.sets.len());
    }
    if v.marked[0] == 0 {
        assert(v.marked_of(0) =~= Seq::empty());
    }
    v.lemma_discard();
    let after = v.discard();
    assert forall|q: usize| q < v0.partition.set_of.len() implies (#[trigger] after.partition.live(
        q as int,
    ) <==> exists|p: usize| v0.is_marked(p) && #[trigger] connects(ts, end, p, q)) by {
        assert(after.partition.set_of[q as int] == match v.partition.set_of[q as int] {
            Some(s) => if v.marked[s as int] == 0 || v.is_marked(q) {
                Some(s)
            } else {
                None
            },
            None => None,
        });
        if let Some(s) = v.partition.set_of[q as int] {
            assert(s < v.partition.sets.len());
        }
        assert(after.partition.live(q as int) <==> v.is_marked(q));
    }
}

} // verus!
