//! Deterministic finite automata and their minimization.
use crate::lang::Automaton;
use crate::lang::other_end_of;
use crate::min::MarkingView;
use crate::min::Partition;
use crate::min::PartitionMarking;
use crate::min::PartitionMarks;
use crate::min::PartitionView;
use crate::min::grouped_by;
use crate::min::reserve;
use crate::refine::built_from;
use crate::refine::cord_of;
use crate::refine::forward_pruned;
use crate::refine::incident_to;
use crate::refine::lemma_backward_pruned;
use crate::refine::lemma_blocks_step;
use crate::refine::lemma_cords_step_source;
use crate::refine::lemma_cords_step_target;
use crate::refine::lemma_forward_pruned;
use crate::refine::lemma_idle_unmarked;
use crate::refine::lemma_marked_with_more;
use crate::refine::lemma_marked_with_start;
use crate::refine::lemma_marked_with_step;
use crate::refine::lemma_member;
use crate::refine::lemma_no_final;
use crate::refine::lemma_seeded;
use crate::refine::lemma_stable;
use crate::refine::marked_with;
use crate::refine::pruned;
use crate::refine::refined;
use crate::refine::sources_of;
use crate::refine::stable;
use crate::reach::closed_at;
use crate::reach::closed_upto;
use crate::reach::found;
use crate::reach::kept_from;
use crate::reach::grown_from;
use crate::reach::lemma_search_done;
use crate::reach::lemma_search_mark;
use crate::reach::lemma_search_start;
use crate::reach::live_ends;
use crate::reach::retained;
use std::collections::HashSet;
use vstd::prelude::*;

verus! {

broadcast use vstd::std_specs::hash::group_hash_axioms;

/// A transition from state `from` to state `to` on the symbol `on_input`.
#[derive(Clone, Copy, Debug, PartialEq, Eq)]
pub struct Transition {
    pub from: usize,
    pub on_input: i32,
    pub to: usize,
}

/// Which end of a transition is meant.
#[derive(Clone, Copy)]
pub enum End {
    Source,
    Target,
}

/// The state at the given end of a transition.
pub open spec fn end_of(t: Transition, end: End) -> usize {
    match end {
        End::Source => t.from,
        End::Target => t.to,
    }
}

/// The source of a transition.
fn get_from(t: &Transition) -> (state: usize)
    ensures
        state == t.from,
{
    t.from
}

/// The target of a transition.
fn get_to(t: &Transition) -> (state: usize)
    ensures
        state == t.to,
{
    t.to
}

/// The state at the given end of a transition.
fn get_end(t: &Transition, end: End) -> (state: usize)
    ensures
        state == end_of(*t, end),
{
    match end {
        End::Source => get_from(t),
        End::Target => get_to(t),
    }
}

/// The state at the other end of a transition.
fn get_other_end(t: &Transition, end: End) -> (state: usize)
    ensures
        state == other_end_of(*t, end),
{
    match end {
        End::Source => get_to(t),
        End::Target => get_from(t),
    }
}

/// Marks the state at the other end of every transition that has `state`
/// at its `end`.
fn mark_adjacent(
    marked: &mut crate::min::PartitionMarkedSetIterator,
    adjacent_transitions: &AdjacentTransitions,
    transitions: &Vec<Transition>,
    end: End,
    state: usize,
    Ghost(v0): Ghost<MarkingView>,
)
    requires
        old(marked).wf(),
        old(marked).set == 0,
        old(marked).position() >= 1,
        old(marked).position() <= old(marked).marking().marked[0],
        old(marked).marking().partition.sets[0][old(marked).position() - 1] == state,
        old(marked).marking().is_marked(state),
        v0.valid(),
        v0.partition.sets.len() == 1,
        state < v0.partition.universe(),
        live_ends(transitions@, v0.partition.set_of),
        adjacent_transitions.indexes(transitions@, end, v0.partition.universe() as usize),
        grown_from(old(marked).marking(), v0, transitions@, end),
        closed_upto(old(marked).marking(), transitions@, end, old(marked).position() - 1),
    ensures
        final(marked).wf(),
        final(marked).set == 0,
        final(marked).position() == old(marked).position(),
        grown_from(final(marked).marking(), v0, transitions@, end),
        closed_upto(final(marked).marking(), transitions@, end, final(marked).position()),
        *final(final(marked).partition_marking) == *final(old(marked).partition_marking),
        *final(final(marked).partition_marking.partition) == *final(old(marked).partition_marking.partition),
        *final(final(marked).partition_marking.marks) == *final(old(marked).partition_marking.marks),
{
    let ghost ts = transitions@;
    let ghost at = marked.position() - 1;
    let total = transitions.len();
    proof {
        assert(adjacent_transitions.bucket(state as int) == incident(ts, end, state as int));
        lemma_incident_members(ts, end, state as int);
    }
    let listed = adjacent_transitions.of(state);
    let mut k: usize = 0;
    while k < listed.len()
        invariant
            k <= listed@.len(),
            marked.wf(),
            marked.set == 0,
            0 <= at,
            marked.position() == at + 1,
            ts == transitions@,
            v0.valid(),
            v0.partition.sets.len() == 1,
            live_ends(ts, v0.partition.set_of),
            forall|j: int|
                0 <= j < listed@.len() ==> (#[trigger] listed@[j]) < ts.len() && end_of(
                    ts[listed@[j] as int],
                    end,
                ) == state,
            grown_from(marked.marking(), v0, ts, end),
            closed_upto(marked.marking(), ts, end, at),
            marked.marking().is_marked(state),
            at < marked.marking().marked[0],
            marked.marking().partition.sets[0][at] == state,
            forall|j: int|
                0 <= j < k ==> marked.marking().is_marked(
                    other_end_of(ts[(#[trigger] listed@[j]) as int], end),
                ),
            *final(marked.partition_marking) == *final(old(marked).partition_marking),
            *final(marked.partition_marking.partition) == *final(old(marked).partition_marking.partition),
            *final(marked.partition_marking.marks) == *final(old(marked).partition_marking.marks),
        decreases listed@.len() - k,
    {
        let transition = listed[k];
        let other = get_other_end(&transitions[transition], end);
        let ghost v = marked.marking();
        proof {
            marked.lemma_walk();
            lemma_search_mark(v, v0, ts, end, at, transition as int);
        }
        marked.mark(other);
        proof {
            let w = marked.marking();
            assert(w == v.mark(other));
            assert(other == other_end_of(ts[transition as int], end));
            assert(0 <= at < v.marked[0]);
            assert(w.partition.sets[0][at] == v.partition.sets[0][at]);
            assert forall|j: int| 0 <= j < k + 1 implies w.is_marked(
                other_end_of(ts[(#[trigger] listed@[j]) as int], end),
            ) by {
                if j < k {
                    assert(v.is_marked(other_end_of(ts[listed@[j] as int], end)));
                }
            }
        }
        k = k + 1;
    }
    proof {
        let v = marked.marking();
        assert(closed_at(v, ts, end, state)) by {
            assert forall|i: int|
                0 <= i < ts.len() && end_of(#[trigger] ts[i], end) == state implies v.is_marked(
                other_end_of(ts[i], end),
            ) by {
                assert(listed@.contains(i as usize));
                let j = choose|j: int| 0 <= j < listed@.len() && listed@[j] == i as usize;
                assert(v.is_marked(other_end_of(ts[listed@[j] as int], end)));
            }
        }
        assert(closed_upto(v, ts, end, at + 1)) by {
            assert forall|k: int| 0 <= k < at + 1 implies closed_at(
                v,
                ts,
                end,
                #[trigger] v.partition.sets[0][k],
            ) by {}
        }
    }
}

/// Marks every state that is connected with a marked state of set 0.
fn search(
    block_marking: &mut PartitionMarking,
    adjacent_transitions: &AdjacentTransitions,
    transitions: &Vec<Transition>,
    end: End,
)
    requires
        old(block_marking).wf(),
        old(block_marking)@.partition.universe() < usize::MAX,
        old(block_marking)@.partition.sets.len() == 1,
        live_ends(transitions@, old(block_marking)@.partition.set_of),
        adjacent_transitions.indexes(
            transitions@,
            end,
            old(block_marking)@.partition.universe() as usize,
        ),
    ensures
        final(block_marking).wf(),
        final(block_marking)@.partition.sets.len() == 1,
        grown_from(final(block_marking)@, old(block_marking)@, transitions@, end),
        closed_upto(
            final(block_marking)@,
            transitions@,
            end,
            final(block_marking)@.marked[0] as int,
        ),
        *final(final(block_marking).partition) == *final(old(block_marking).partition),
        *final(final(block_marking).marks) == *final(old(block_marking).marks),
{
    let ghost v0 = block_marking@;
    let ghost ts = transitions@;
    let ghost n = v0.partition.universe();
    proof {
        block_marking.lemma_session();
        lemma_search_start(v0, ts, end);
    }
    let mut marked = block_marking.marked_in_set_mut(0);
    loop
        invariant
            marked.wf(),
            marked.set == 0,
            ts == transitions@,
            v0.valid(),
            v0.partition.universe() == n,
            n < usize::MAX,
            v0.partition.sets.len() == 1,
            live_ends(ts, v0.partition.set_of),
            adjacent_transitions.indexes(ts, end, n as usize),
            grown_from(marked.marking(), v0, ts, end),
            closed_upto(marked.marking(), ts, end, marked.position()),
            *final(marked.partition_marking) == after_borrow(*block_marking),
            *final(marked.partition_marking.partition) == *final(old(block_marking).partition),
            *final(marked.partition_marking.marks) == *final(old(block_marking).marks),
        ensures
            marked.wf(),
            marked.set == 0,
            marked.position() == marked.marking().marked[0],
            grown_from(marked.marking(), v0, ts, end),
            closed_upto(marked.marking(), ts, end, marked.position()),
            *final(marked.partition_marking) == after_borrow(*block_marking),
            *final(marked.partition_marking.partition) == *final(old(block_marking).partition),
            *final(marked.partition_marking.marks) == *final(old(block_marking).marks),
        decreases n - marked.position(),
    {
        let ghost at = marked.position();
        proof {
            marked.lemma_walk();
            marked.marking().partition.lemma_set_bound(0);
        }
        match marked.next() {
            Some(state) => {
                proof {
                    marked.lemma_walk();
                    let v = marked.marking();
                    assert(v.partition.sets[0][at] < n);
                    assert(v.marked_of(0)[at] == state);
                    assert(v.partition.set_of[state as int] == Some(0usize));
                    assert(v.is_marked(state));
                }
                mark_adjacent(&mut marked, adjacent_transitions, transitions, end, state, Ghost(v0));
            },
            None => {
                proof {
                    marked.lemma_walk();
                }
                break ;
            },
        }
    }
    proof {
        marked.lemma_walk();
    }
}

/// A copy of `transitions`.
fn copy_transitions(transitions: &Vec<Transition>) -> (copy: Vec<Transition>)
    ensures
        copy@ == transitions@,
{
    let mut copy: Vec<Transition> = Vec::new();
    let mut i: usize = 0;
    while i < transitions.len()
        invariant
            i <= transitions@.len(),
            copy@ == transitions@.take(i as int),
        decreases transitions@.len() - i,
    {
        copy.push(transitions[i]);
        proof {
            assert(copy@ =~= transitions@.take(i + 1));
        }
        i = i + 1;
    }
    proof {
        assert(transitions@.take(transitions@.len() as int) =~= transitions@);
    }
    copy
}

/// Groups the transitions by their symbols.
fn partition_by_input(cord_marking: &mut PartitionMarking, transitions: &Vec<Transition>) -> (keys:
    Ghost<Seq<i32>>)
    requires
        old(cord_marking).wf(),
        old(cord_marking)@.partition == PartitionView::initial(transitions@.len()),
    ensures
        final(cord_marking).wf(),
        final(cord_marking)@.idle(),
        final(cord_marking)@.partition.is_grouping_of(
            PartitionView::initial(transitions@.len()),
            keys@,
        ),
        keys@.len() == transitions@.len(),
        forall|t: int|
            0 <= t < transitions@.len() ==> #[trigger] keys@[t] == transitions@[t].on_input,
        *final(final(cord_marking).partition) == *final(old(cord_marking).partition),
        *final(final(cord_marking).marks) == *final(old(cord_marking).marks),
{
    let ghost opened = cord_marking@;
    let ghost w = transitions@;
    let by_input = |transition: &usize| -> (input: i32)
        requires
            *transition < transitions@.len(),
        ensures
            input == transitions@[*transition as int].on_input,
        { transitions[*transition].on_input };
    proof {
        assert forall|e: usize| opened.partition.live(e as int) implies call_requires(
            by_input,
            (&e,),
        ) by {
            assert(e < w.len());
        }
    }
    cord_marking.partition_by(by_input);
    let ghost keys = choose|keys: Seq<i32>|
        #[trigger] grouped_by(by_input, opened.partition, cord_marking@.partition, keys);
    proof {
        assert forall|t: int| 0 <= t < w.len() implies #[trigger] keys[t] == w[t].on_input by {
            let e = t as usize;
            assert(opened.partition.live(e as int));
            assert(call_ensures(by_input, (&e,), keys[e as int]));
        }
    }
    Ghost(keys)
}

/// Marks the source of every transition of the cord `cord_set`.
fn mark_sources(
    block_marking: &mut PartitionMarking,
    cords: &Partition,
    cord_set: usize,
    transitions: &Vec<Transition>,
)
    requires
        old(block_marking).wf(),
        cords.wf(),
        cord_set < cords@.sets.len(),
        cords@.universe() == transitions@.len(),
        forall|t: int|
            0 <= t < transitions@.len() ==> (#[trigger] transitions@[t]).from
                < old(block_marking)@.partition.universe(),
    ensures
        final(block_marking).wf(),
        marked_with(
            final(block_marking)@,
            old(block_marking)@,
            sources_of(transitions@, cords@, cord_set as int),
        ),
        *final(final(block_marking).partition) == *final(old(block_marking).partition),
        *final(final(block_marking).marks) == *final(old(block_marking).marks),
{
    let ghost v0 = block_marking@;
    let ghost ts = transitions@;
    let ghost c = cords@;
    let members = cords.set(cord_set);
    proof {
        cords.lemma_view_valid();
        block_marking.lemma_session();
        lemma_marked_with_start(v0);
        assert(Set::<usize>::empty() =~= Set::new(
            |x: usize| exists|j: int| 0 <= j < 0 && ts[(#[trigger] members@[j]) as int].from == x,
        ));
    }
    let mut k: usize = 0;
    while k < members.len()
        invariant
            k <= members@.len(),
            ts == transitions@,
            c.valid(),
            cord_set < c.sets.len(),
            c.set_of.len() == ts.len(),
            members@ == c.sets[cord_set as int],
            block_marking.wf(),
            forall|t: int|
                0 <= t < ts.len() ==> (#[trigger] ts[t]).from < v0.partition.universe(),
            marked_with(
                block_marking@,
                v0,
                Set::new(
                    |x: usize|
                        exists|j: int| 0 <= j < k && ts[(#[trigger] members@[j]) as int].from == x,
                ),
            ),
            *final(block_marking.partition) == *final(old(block_marking).partition),
            *final(block_marking.marks) == *final(old(block_marking).marks),
        decreases members@.len() - k,
    {
        let transition = members[k];
        proof {
            assert(c.sets[cord_set as int][k as int] < c.set_of.len());
        }
        let source = get_from(&transitions[transition]);
        let ghost v = block_marking@;
        let ghost before = Set::new(
            |x: usize| exists|j: int| 0 <= j < k && ts[(#[trigger] members@[j]) as int].from == x,
        );
        proof {
            lemma_marked_with_step(v, v0, before, source);
        }
        block_marking.mark(source);
        proof {
            let after = Set::new(
                |x: usize|
                    exists|j: int| 0 <= j < k + 1 && ts[(#[trigger] members@[j]) as int].from == x,
            );
            assert forall|x: usize| before.insert(source).contains(x) <==> after.contains(x) by {
                if before.contains(x) {
                    let j = choose|j: int|
                        0 <= j < k && ts[(#[trigger] members@[j]) as int].from == x;
                    assert(ts[members@[j] as int].from == x);
                }
                if x == source {
                    assert(ts[members@[k as int] as int].from == x);
                }
            }
            assert(before.insert(source) =~= after);
        }
        k = k + 1;
    }
    proof {
        let reached = Set::new(
            |x: usize|
                exists|j: int|
                    0 <= j < members@.len() && ts[(#[trigger] members@[j]) as int].from == x,
        );
        let wanted = sources_of(ts, c, cord_set as int);
        assert forall|x: usize| reached.contains(x) <==> wanted.contains(x) by {
            if reached.contains(x) {
                let j = choose|j: int|
                    0 <= j < members@.len() && ts[(#[trigger] members@[j]) as int].from == x;
                let t = members@[j] as int;
                assert(c.set_of[c.sets[cord_set as int][j] as int] == Some(cord_set));
                assert(cord_of(c, t) == cord_set);
            }
            if wanted.contains(x) {
                let t = choose|t: int|
                    0 <= t < ts.len() && #[trigger] cord_of(c, t) == cord_set && ts[t].from == x;
                lemma_member(c, cord_set as int, t as usize);
                let j = choose|j: int| 0 <= j < members@.len() && members@[j] == t as usize;
                assert(ts[members@[j] as int].from == x);
            }
        }
        assert(reached =~= wanted);
    }
}

/// Marks every element of `listed`.
fn mark_listed(marking: &mut PartitionMarking, listed: &Vec<usize>)
    requires
        old(marking).wf(),
        forall|i: int|
            0 <= i < listed@.len() ==> (#[trigger] listed@[i]) < old(marking)@.partition.universe(),
    ensures
        final(marking).wf(),
        marked_with(final(marking)@, old(marking)@, listed@.to_set()),
        *final(final(marking).partition) == *final(old(marking).partition),
        *final(final(marking).marks) == *final(old(marking).marks),
{
    let ghost v0 = marking@;
    proof {
        marking.lemma_session();
        lemma_marked_with_start(v0);
        assert(listed@.take(0).to_set() =~= Set::empty());
    }
    let mut k: usize = 0;
    while k < listed.len()
        invariant
            k <= listed@.len(),
            marking.wf(),
            forall|i: int|
                0 <= i < listed@.len() ==> (#[trigger] listed@[i]) < v0.partition.universe(),
            marked_with(marking@, v0, listed@.take(k as int).to_set()),
            *final(marking.partition) == *final(old(marking).partition),
            *final(marking.marks) == *final(old(marking).marks),
        decreases listed@.len() - k,
    {
        let element = listed[k];
        let ghost v = marking@;
        proof {
            lemma_marked_with_step(v, v0, listed@.take(k as int).to_set(), element);
        }
        marking.mark(element);
        proof {
            let before = listed@.take(k as int);
            let after = listed@.take(k + 1);
            assert forall|x: usize| before.to_set().insert(element).contains(x)
                <==> after.to_set().contains(x) by {
                if before.contains(x) {
                    let j = choose|j: int| 0 <= j < before.len() && before[j] == x;
                    assert(after[j] == x);
                }
                if x == element {
                    assert(after[k as int] == x);
                }
                if after.contains(x) {
                    let j = choose|j: int| 0 <= j < after.len() && after[j] == x;
                    if j < k {
                        assert(before[j] == x);
                    }
                }
            }
            assert(before.to_set().insert(element) =~= after.to_set());
        }
        k = k + 1;
    }
    proof {
        assert(listed@.take(listed@.len() as int) =~= listed@);
    }
}

/// Marks every transition that has a state of the block `block_set` at its
/// `end`.
fn mark_incident(
    cord_marking: &mut PartitionMarking,
    blocks: &Partition,
    block_set: usize,
    adjacency: &AdjacentTransitions,
    transitions: &Vec<Transition>,
    end: End,
)
    requires
        old(cord_marking).wf(),
        old(cord_marking)@.partition.universe() == transitions@.len(),
        blocks.wf(),
        block_set < blocks@.sets.len(),
        blocks@.universe() < usize::MAX,
        adjacency.indexes(transitions@, end, blocks@.universe() as usize),
        forall|t: int|
            0 <= t < transitions@.len() ==> end_of(#[trigger] transitions@[t], end)
                < blocks@.universe(),
    ensures
        final(cord_marking).wf(),
        marked_with(
            final(cord_marking)@,
            old(cord_marking)@,
            incident_to(transitions@, blocks@, end, block_set as int),
        ),
        *final(final(cord_marking).partition) == *final(old(cord_marking).partition),
        *final(final(cord_marking).marks) == *final(old(cord_marking).marks),
{
    let ghost v0 = cord_marking@;
    let ghost ts = transitions@;
    let ghost b = blocks@;
    let total = transitions.len();
    let members = blocks.set(block_set);
    proof {
        blocks.lemma_view_valid();
        cord_marking.lemma_session();
        lemma_marked_with_start(v0);
        assert(Set::<usize>::empty() =~= Set::new(
            |t: usize|
                t < ts.len() && exists|j: int|
                    0 <= j < 0 && #[trigger] members@[j] == end_of(ts[t as int], end),
        ));
    }
    let mut k: usize = 0;
    while k < members.len()
        invariant
            k <= members@.len(),
            ts == transitions@,
            ts.len() <= usize::MAX,
            b == blocks@,
            b.valid(),
            block_set < b.sets.len(),
            b.set_of.len() < usize::MAX,
            members@ == b.sets[block_set as int],
            adjacency.indexes(ts, end, b.set_of.len() as usize),
            v0.partition.universe() == ts.len(),
            cord_marking.wf(),
            marked_with(
                cord_marking@,
                v0,
                Set::new(
                    |t: usize|
                        t < ts.len() && exists|j: int|
                            0 <= j < k && #[trigger] members@[j] == end_of(ts[t as int], end),
                ),
            ),
            *final(cord_marking.partition) == *final(old(cord_marking).partition),
            *final(cord_marking.marks) == *final(old(cord_marking).marks),
        decreases members@.len() - k,
    {
        let state = members[k];
        let ghost v = cord_marking@;
        let ghost before = Set::new(
            |t: usize|
                t < ts.len() && exists|j: int|
                    0 <= j < k && #[trigger] members@[j] == end_of(ts[t as int], end),
        );
        proof {
            assert(b.sets[block_set as int][k as int] < b.set_of.len());
            assert(adjacency.bucket(state as int) == incident(ts, end, state as int));
            lemma_incident_members(ts, end, state as int);
        }
        let listed = adjacency.of(state);
        mark_listed(cord_marking, &listed);
        proof {
            lemma_marked_with_more(cord_marking@, v, v0, listed@.to_set(), before);
            let after = Set::new(
                |t: usize|
                    t < ts.len() && exists|j: int|
                        0 <= j < k + 1 && #[trigger] members@[j] == end_of(ts[t as int], end),
            );
            assert forall|t: usize| before.union(listed@.to_set()).contains(t)
                <==> after.contains(t) by {
                if before.contains(t) {
                    let j = choose|j: int|
                        0 <= j < k && #[trigger] members@[j] == end_of(ts[t as int], end);
                    assert(members@[j] == end_of(ts[t as int], end));
                }
                if listed@.contains(t) {
                    let i = choose|i: int| 0 <= i < listed@.len() && listed@[i] == t;
                    assert(listed@[i] < ts.len());
                    assert(members@[k as int] == end_of(ts[t as int], end));
                }
                if after.contains(t) {
                    let j = choose|j: int|
                        0 <= j < k + 1 && #[trigger] members@[j] == end_of(ts[t as int], end);
                    if j == k {
                        assert(end_of(ts[t as int], end) == state);
                        assert(listed@.contains(t));
                    } else {
                        assert(before.contains(t));
                    }
                }
            }
            assert(before.union(listed@.to_set()) =~= after);
        }
        k = k + 1;
    }
    proof {
        let reached = Set::new(
            |t: usize|
                t < ts.len() && exists|j: int|
                    0 <= j < members@.len() && #[trigger] members@[j] == end_of(
                        ts[t as int],
                        end,
                    ),
        );
        let wanted = incident_to(ts, b, end, block_set as int);
        assert forall|t: usize| reached.contains(t) <==> wanted.contains(t) by {
            if t < ts.len() {
                let x = end_of(ts[t as int], end);
                lemma_member(b, block_set as int, x);
                if reached.contains(t) {
                    let j = choose|j: int|
                        0 <= j < members@.len() && #[trigger] members@[j] == x;
                    assert(members@.contains(x));
                }
                if wanted.contains(t) {
                    assert(members@.contains(x));
                    let j = choose|j: int| 0 <= j < members@.len() && members@[j] == x;
                    assert(members@[j] == end_of(ts[t as int], end));
                }
            }
        }
        assert(reached =~= wanted);
    }
}

/// The transitions whose `end` is a live element of `partition`, in their
/// order.
fn retain_live(partition: &Partition, transitions: &Vec<Transition>, end: End) -> (kept: Vec<
    Transition,
>)
    requires
        partition.wf(),
        forall|i: int|
            0 <= i < transitions@.len() ==> end_of(#[trigger] transitions@[i], end)
                < partition@.universe(),
    ensures
        retained(kept@, transitions@, partition@.set_of, end),
{
    let ghost ts = transitions@;
    let ghost set_of = partition@.set_of;
    let count = transitions.len();
    let mut kept: Vec<Transition> = Vec::new();
    let mut i: usize = 0;
    proof {
        assert(ts.take(0) =~= Seq::empty());
    }
    while i < count
        invariant
            i <= count,
            count == ts.len(),
            ts == transitions@,
            partition.wf(),
            set_of == partition@.set_of,
            forall|j: int| 0 <= j < ts.len() ==> end_of(#[trigger] ts[j], end) < set_of.len(),
            retained(kept@, ts.take(i as int), set_of, end),
        decreases count - i,
    {
        let transition = transitions[i];
        let state = get_end(&transition, end);
        let ghost kept0 = kept@;
        let live = partition.set_of(state).is_some();
        if live {
            kept.push(transition);
        }
        proof {
            let now = ts.take(i + 1);
            let was = ts.take(i as int);
            assert(now[i as int] == transition);
            assert forall|a: int| 0 <= a < kept@.len() implies kept_from(
                #[trigger] kept@[a],
                now,
                set_of,
                end,
            ) by {
                if a < kept0.len() {
                    assert(kept@[a] == kept0[a]);
                    assert(kept_from(kept0[a], was, set_of, end));
                    let j = choose|j: int| 0 <= j < was.len() && was[j] == kept0[a];
                    assert(now[j] == was[j]);
                } else {
                    assert(now[i as int] == transition);
                }
            }
            assert forall|j: int|
                0 <= j < now.len() && set_of[end_of(#[trigger] now[j], end) as int]
                    is Some implies kept@.contains(now[j]) by {
                if j < i {
                    assert(was[j] == now[j]);
                    assert(kept0.contains(was[j]));
                    let a = choose|a: int| 0 <= a < kept0.len() && kept0[a] == was[j];
                    assert(kept@[a] == now[j]);
                } else {
                    assert(kept@[kept0.len() as int] == now[j]);
                }
            }
        }
        i = i + 1;
    }
    proof {
        assert(ts.take(count as int) =~= ts);
    }
    kept
}

/// A finite automaton over the states `0..state_count` with symbols of type
/// `i32`: a start state, transitions in the order in which they were added,
/// and a set of accepting states.
pub struct DFA {
    state_count: usize,
    start_state: usize,
    transitions: Vec<Transition>,
    final_states: HashSet<usize>,
}

impl View for DFA {
    type V = Automaton;

    closed spec fn view(&self) -> Automaton {
        Automaton {
            state_count: self.state_count,
            start: self.start_state,
            transitions: self.transitions@,
            finals: self.final_states@,
        }
    }
}

impl DFA {
    /// The automaton is well-formed and small enough for a table with one
    /// entry more than it has states.
    pub open spec fn wf(&self) -> bool {
        &&& self@.wf()
        &&& self@.state_count < usize::MAX
    }

    /// An automaton with `state_count` states, no transition and no
    /// accepting state.
    pub fn new(state_count: usize, start_state: usize) -> (dfa: DFA)
        requires
            state_count < usize::MAX,
            state_count > 0 ==> start_state < state_count,
        ensures
            dfa.wf(),
            dfa@ == (Automaton {
                state_count,
                start: start_state,
                transitions: Seq::empty(),
                finals: Set::empty(),
            }),
    {
        DFA {
            state_count: state_count,
            start_state: start_state,
            transitions: Vec::new(),
            final_states: HashSet::new(),
        }
    }

    /// The number of states.
    pub fn state_count(&self) -> (count: usize)
        ensures
            count == self@.state_count,
    {
        self.state_count
    }

    /// The start state.
    pub fn start_state(&self) -> (state: usize)
        ensures
            state == self@.start,
    {
        self.start_state
    }

    /// Appends a transition.
    pub fn add_transition(&mut self, from_state: usize, on_input: i32, to_state: usize)
        requires
            old(self).wf(),
            from_state < old(self)@.state_count,
            to_state < old(self)@.state_count,
        ensures
            final(self).wf(),
            final(self)@ == (Automaton {
                transitions: old(self)@.transitions.push(
                    Transition { from: from_state, on_input: on_input, to: to_state },
                ),
                ..old(self)@
            }),
    {
        self.transitions.push(Transition { from: from_state, on_input: on_input, to: to_state });
    }

    /// Makes `state` accepting, and says whether it was not so before.
    pub fn add_final_state(&mut self, state: usize) -> (added: bool)
        requires
            old(self).wf(),
            state < old(self)@.state_count,
        ensures
            final(self).wf(),
            final(self)@ == (Automaton { finals: old(self)@.finals.insert(state), ..old(self)@ }),
            added == !old(self)@.finals.contains(state),
    {
        self.final_states.insert(state)
    }

    /// Searches from the marked states of set 0 along the transitions, which
    /// are followed from their `end`, discards every state that the search
    /// does not find, and drops the transitions whose `end` is discarded.
    fn discard_not_reachable(
        &self,
        block_marking: &mut PartitionMarking,
        adjacent_transitions: &mut AdjacentTransitions,
        transitions: &mut Vec<Transition>,
        end: End,
    )
        requires
            self.wf(),
            old(block_marking).wf(),
            old(block_marking)@.partition.universe() == self@.state_count,
            old(block_marking)@.partition.sets.len() == 1,
            old(block_marking)@.marked[0] > 0,
            live_ends(old(transitions)@, old(block_marking)@.partition.set_of),
        ensures
            final(block_marking).wf(),
            found(final(block_marking)@, old(block_marking)@, old(transitions)@, end),
            retained(
                final(transitions)@,
                old(transitions)@,
                final(block_marking)@.partition.set_of,
                end,
            ),
            *final(final(block_marking).partition) == *final(old(block_marking).partition),
            *final(final(block_marking).marks) == *final(old(block_marking).marks),
    {
        let ghost v0 = block_marking@;
        let ghost ts = transitions@;
        proof {
            block_marking.lemma_session();
        }
        adjacent_transitions.build_adjacency(self.state_count, transitions, end);
        search(block_marking, adjacent_transitions, transitions, end);
        proof {
            block_marking.lemma_session();
            lemma_search_done(block_marking@, v0, ts, end);
        }
        block_marking.discard_unmarked();
        let kept = retain_live(block_marking.partition(), transitions, end);
        *transitions = kept;
    }

    /// The smallest automaton that accepts the words that this automaton
    /// accepts: the states that lie on the way of no accepted word are
    /// dropped, and the states from which the same words are accepted become
    /// one state. Where no word is accepted, the result has one state, which
    /// is not accepting, and no transition.
    ///
    /// The states are parted into blocks and the transitions into cords. A
    /// cord is split by the blocks at both ends of its transitions, so that
    /// in the end each cord stands for one transition between blocks.
    ///
    /// The automaton is meant to be deterministic. Where a state has two
    /// transitions on one symbol to different states, the result is still
    /// made of blocks of useful states with the transitions between them, but
    /// the blocks need not be those of the states that accept the same words.
    pub fn minimize(&self) -> (minimal: DFA)
        requires
            self.wf(),
        ensures
            minimal.wf(),
            minimal@.is_minimization_of(self@),
    {
        let ghost a = self@;
        let n = self.state_count;
        if n == 0 {
            return DFA::new(1, 0);
        }
        let mut transitions = copy_transitions(&self.transitions);

        // Shared data structures
        let mut marks = PartitionMarks::new(self.transitions.len());
        let mut adjacent_transitions = AdjacentTransitions::new(n, self.transitions.len());
        let mut outgoing_transitions = AdjacentTransitions::new(n, self.transitions.len());

        let mut blocks = Partition::new(n);
        let ghost seeded: MarkingView;
        let ghost pruned_blocks: MarkingView;
        {
            let mut block_marking = blocks.begin_marking(&mut marks);
            let useful = self.prune(&mut block_marking, &mut adjacent_transitions, &mut transitions);
            if !useful {
                return DFA::new(1, 0);
            }
            proof {
                pruned_blocks = block_marking@;
            }

            // Split final states from non-final
            self.mark_final_states(&mut block_marking);
            proof {
                seeded = block_marking@;
                crate::refine::lemma_split_by(seeded);
            }
            block_marking.split_sets();
            proof {
                block_marking.lemma_session();
            }
        }
        let ghost w = transitions@;

        // Cords partition to manage transitions
        let mut cords = Partition::new(transitions.len());
        let ghost keys: Seq<i32>;
        {
            let mut cord_marking = cords.begin_marking(&mut marks);

            // Split transitions by input
            let Ghost(inputs) = partition_by_input(&mut cord_marking, &transitions);
            proof {
                keys = inputs;
                cord_marking.lemma_session();
            }
        }
        proof {
            lemma_seeded(a, w, pruned_blocks, seeded, cords@, keys);
            blocks.lemma_view_valid();
            cords.lemma_view_valid();
        }

        // Split blocks and cords
        adjacent_transitions.build_adjacency(n, &transitions, End::Target);
        outgoing_transitions.build_adjacency(n, &transitions, End::Source);
        let mut block_set: usize = 1;
        let mut cord_set: usize = 0;
        while cord_set < cords.set_count()
            invariant
                blocks.wf(),
                cords.wf(),
                marks.idle(),
                w == transitions@,
                n == a.state_count,
                n < usize::MAX,
                adjacent_transitions.indexes(w, End::Target, n),
                outgoing_transitions.indexes(w, End::Source, n),
                refined(a, w, blocks@, cords@, block_set as int, block_set as int, cord_set as int),
                cord_set > 0 ==> block_set == blocks@.sets.len(),
            decreases w.len() - cord_set,
        {
            proof {
                cords@.lemma_count_bound();
            }
            {
                let mut block_marking = blocks.begin_marking(&mut marks);
                let ghost opened = block_marking@;
                proof {
                    block_marking.lemma_session();
                }
                mark_sources(&mut block_marking, &cords, cord_set, &transitions);
                proof {
                    lemma_blocks_step(
                        a,
                        w,
                        opened.partition,
                        cords@,
                        block_set as int,
                        block_set as int,
                        cord_set as int,
                        opened,
                        block_marking@,
                    );
                }
                block_marking.split_sets();
                proof {
                    block_marking.lemma_session();
                }
            }

            let mut cord_marking = cords.begin_marking(&mut marks);
            proof {
                cord_marking.lemma_session();
            }
            while block_set < blocks.set_count()
                invariant
                    blocks.wf(),
                    cord_marking.wf(),
                    cord_marking@.idle(),
                    cord_marking@.valid(),
                    w == transitions@,
                    n == a.state_count,
                    n < usize::MAX,
                    cord_set < w.len(),
                    adjacent_transitions.indexes(w, End::Target, n),
                    outgoing_transitions.indexes(w, End::Source, n),
                    refined(
                        a,
                        w,
                        blocks@,
                        cord_marking@.partition,
                        block_set as int,
                        block_set as int,
                        cord_set + 1,
                    ),
                    *final(cord_marking.partition) == after_borrow(cords),
                    *final(cord_marking.marks) == after_borrow(marks),
                decreases n - block_set,
            {
                proof {
                    blocks.lemma_view_valid();
                    blocks@.lemma_count_bound();
                }
                // by the transitions that lead into the block
                let ghost before = cord_marking@;
                mark_incident(
                    &mut cord_marking,
                    &blocks,
                    block_set,
                    &adjacent_transitions,
                    &transitions,
                    End::Target,
                );
                proof {
                    lemma_cords_step_target(
                        a,
                        w,
                        blocks@,
                        before.partition,
                        block_set as int,
                        block_set as int,
                        cord_set + 1,
                        before,
                        cord_marking@,
                    );
                }
                cord_marking.split_sets();

                // by the transitions that leave the block
                let ghost between = cord_marking@;
                mark_incident(
                    &mut cord_marking,
                    &blocks,
                    block_set,
                    &outgoing_transitions,
                    &transitions,
                    End::Source,
                );
                proof {
                    lemma_cords_step_source(
                        a,
                        w,
                        blocks@,
                        between.partition,
                        block_set + 1,
                        block_set as int,
                        cord_set + 1,
                        between,
                        cord_marking@,
                    );
                }
                cord_marking.split_sets();
                block_set = block_set + 1;
            }
            proof {
                cord_marking.lemma_session();
            }
            cord_set = cord_set + 1;
        }
        proof {
            blocks.lemma_view_valid();
            cords.lemma_view_valid();
            blocks@.lemma_count_bound();
            assert(stable(a, w, blocks@, cords@)) by {
                if w.len() > 0 {
                    if cords@.sets.len() == 0 {
                        assert(cords@.set_of[0] is Some);
                    }
                }
                assert(refined(
                    a,
                    w,
                    blocks@,
                    cords@,
                    block_set as int,
                    block_set as int,
                    cords@.sets.len() as int,
                ));
            }
        }

        // Generate minimized DFA
        self.build(&blocks, &cords, &transitions)
    }

    /// Discards the states that no word leads to from the start state, and
    /// then those from which no word leads to an accepting state, with the
    /// transitions at such states. Says whether any state is left.
    fn prune(
        &self,
        block_marking: &mut PartitionMarking,
        adjacent_transitions: &mut AdjacentTransitions,
        transitions: &mut Vec<Transition>,
    ) -> (useful: bool)
        requires
            self.wf(),
            self@.state_count > 0,
            old(block_marking).wf(),
            old(block_marking)@.idle(),
            old(block_marking)@.partition == PartitionView::initial(self@.state_count as nat),
            old(transitions)@ == self@.transitions,
        ensures
            final(block_marking).wf(),
            useful == self@.useful(self@.start),
            useful ==> final(block_marking)@.idle() && final(block_marking)@.valid() && pruned(
                self@,
                final(transitions)@,
                final(block_marking)@.partition,
            ),
            *final(final(block_marking).partition) == *final(old(block_marking).partition),
            *final(final(block_marking).marks) == *final(old(block_marking).marks),
    {
        let ghost a = self@;
        let ghost opened = block_marking@;
        proof {
            block_marking.lemma_session();
            lemma_idle_unmarked(opened);
            opened.lemma_mark(self.start_state);
        }

        // Reachable from start
        block_marking.mark(self.start_state);
        let ghost started = block_marking@;
        proof {
            assert(started.is_marked(self.start_state));
            assert(started.partition.set_of[self.start_state as int] == Some(0usize));
            if started.marked[0] == 0 {
                assert(started.marked_of(0) =~= Seq::empty());
            }
            assert(live_ends(transitions@, started.partition.set_of)) by {
                assert forall|i: int| 0 <= i < transitions@.len() implies (
                #[trigger] transitions@[i]).from < started.partition.set_of.len()
                    && transitions@[i].to < started.partition.set_of.len()
                    && started.partition.set_of[transitions@[i].from as int] is Some
                    && started.partition.set_of[transitions@[i].to as int] is Some by {
                    assert(a.transitions[i].from < a.state_count);
                }
            }
            assert forall|x: usize| #[trigger] started.is_marked(x) <==> x == a.start by {
                assert(started.is_marked(x) <==> (opened.is_marked(x) || (x == a.start
                    && opened.partition.live(a.start as int))));
            }
        }
        self.discard_not_reachable(block_marking, adjacent_transitions, transitions, End::Source);
        let ghost w1 = transitions@;
        let ghost reached = block_marking@;
        proof {
            lemma_forward_pruned(a, started, reached, w1);
        }

        // Reachable from final
        self.mark_final_states(block_marking);
        let ghost finals_marked = block_marking@;
        proof {
            lemma_idle_unmarked(reached);
            assert(forward_pruned(a, w1, finals_marked.partition)) by {
                assert forall|q: usize| q < a.state_count implies (
                #[trigger] finals_marked.partition.live(q as int) <==> a.reachable(q)) by {
                    assert(reached.partition.live(q as int) <==> a.reachable(q));
                }
            }
            assert forall|x: usize| #[trigger]
                finals_marked.is_marked(x) <==> finals_marked.partition.live(x as int)
                    && a.finals.contains(x) by {
                assert(finals_marked.is_marked(x) <==> reached.is_marked(x) || (
                a.finals.contains(x) && reached.partition.live(x as int)));
            }
        }
        let found_finals = block_marking.marked_in_set(0);
        if found_finals.len() == 0 {
            proof {
                lemma_no_final(a, w1, finals_marked);
            }
            return false;
        }
        proof {
            let x = found_finals@[0];
            assert(finals_marked.partition.sets[0][0] == x);
            assert(finals_marked.partition.set_of[x as int] == Some(0usize));
            assert(finals_marked.marked_of(0)[0] == x);
            assert(finals_marked.is_marked(x));
            crate::refine::lemma_useful_final(a, x);
            crate::refine::lemma_useful_start(a, x);
        }
        self.discard_not_reachable(block_marking, adjacent_transitions, transitions, End::Target);
        proof {
            lemma_backward_pruned(a, w1, finals_marked, block_marking@, transitions@);
        }
        true
    }

    /// The automaton with the blocks as its states and one transition for
    /// each cord.
    fn build(&self, blocks: &Partition, cords: &Partition, transitions: &Vec<Transition>) -> (min_dfa:
        DFA)
        requires
            self.wf(),
            blocks.wf(),
            cords.wf(),
            stable(self@, transitions@, blocks@, cords@),
            self@.useful(self@.start),
        ensures
            min_dfa.wf(),
            min_dfa@.is_minimization_of(self@),
    {
        let ghost a = self@;
        let ghost w = transitions@;
        let ghost b = blocks@;
        let ghost c = cords@;
        let n = self.state_count;
        proof {
            blocks.lemma_view_valid();
            cords.lemma_view_valid();
            b.lemma_count_bound();
            crate::refine::lemma_stable_stage(a, w, b, c);
            assert(b.live(a.start as int));
        }
        let start = blocks.set_of(self.start_state).unwrap();
        let mut min_dfa = DFA::new(blocks.set_count(), start);

        // Set final states
        let mut state: usize = 0;
        while state < n
            invariant
                state <= n,
                n == a.state_count,
                a == self@,
                self.wf(),
                blocks.wf(),
                b == blocks@,
                b.valid(),
                b.set_of.len() == n,
                min_dfa.wf(),
                min_dfa@.state_count == b.sets.len(),
                min_dfa@.start == start,
                min_dfa@.transitions == Seq::<Transition>::empty(),
                forall|s: usize|
                    #[trigger] min_dfa@.finals.contains(s) <==> exists|f: int|
                        0 <= f < state && a.finals.contains(f as usize) && #[trigger] b.set_of[f]
                            == Some(s),
            decreases n - state,
        {
            let ghost before = min_dfa@.finals;
            if self.final_states.contains(&state) {
                // not all final states may have been reachable
                if let Some(set) = blocks.set_of(state) {
                    min_dfa.add_final_state(set);
                }
            }
            proof {
                assert forall|s: usize|
                    #[trigger] min_dfa@.finals.contains(s) <==> exists|f: int|
                        0 <= f < state + 1 && a.finals.contains(f as usize)
                            && #[trigger] b.set_of[f] == Some(s) by {
                    if before.contains(s) {
                        let f = choose|f: int|
                            0 <= f < state && a.finals.contains(f as usize)
                                && #[trigger] b.set_of[f] == Some(s);
                        assert(b.set_of[f] == Some(s));
                    }
                    if exists|f: int|
                        0 <= f < state + 1 && a.finals.contains(f as usize)
                            && #[trigger] b.set_of[f] == Some(s) {
                        let f = choose|f: int|
                            0 <= f < state + 1 && a.finals.contains(f as usize)
                                && #[trigger] b.set_of[f] == Some(s);
                        if f < state {
                            assert(b.set_of[f] == Some(s));
                        }
                    }
                }
            }
            state = state + 1;
        }

        // Create transitions
        let ghost finals = min_dfa@.finals;
        let count = cords.set_count();
        let mut set: usize = 0;
        while set < count
            invariant
                set <= count,
                count == c.sets.len(),
                w == transitions@,
                blocks.wf(),
                cords.wf(),
                b == blocks@,
                c == cords@,
                b.valid(),
                c.valid(),
                c.set_of.len() == w.len(),
                b.set_of.len() == n,
                live_ends(w, b.set_of),
                min_dfa.wf(),
                min_dfa@.state_count == b.sets.len(),
                min_dfa@.start == start,
                min_dfa@.finals == finals,
                min_dfa@.transitions.len() == set,
                forall|k: int|
                    0 <= k < set ==> #[trigger] min_dfa@.transitions[k] == crate::lang::image(
                        w[c.sets[k][0] as int],
                        b.set_of,
                    ),
            decreases count - set,
        {
            proof {
                assert(c.sets[set as int].len() > 0);
                assert(c.sets[set as int][0] < c.set_of.len());
            }
            let transition = transitions[cords.some_element_of(set)];
            proof {
                assert(transition.from < n && transition.to < n);
                assert(b.set_of[transition.from as int] is Some);
                assert(b.set_of[transition.to as int] is Some);
                assert(b.set_of[transition.from as int].unwrap() < b.sets.len());
                assert(b.set_of[transition.to as int].unwrap() < b.sets.len());
            }
            let from = blocks.set_of(transition.from).unwrap();
            let to = blocks.set_of(transition.to).unwrap();
            let ghost before = min_dfa@.transitions;
            min_dfa.add_transition(from, transition.on_input, to);
            proof {
                assert forall|k: int| 0 <= k < set + 1 implies #[trigger] min_dfa@.transitions[k]
                    == crate::lang::image(w[c.sets[k][0] as int], b.set_of) by {
                    if k < set {
                        assert(min_dfa@.transitions[k] == before[k]);
                    }
                }
            }
            set = set + 1;
        }
        proof {
            assert(built_from(min_dfa@, a, w, b, c));
            lemma_stable(min_dfa@, a, w, b, c);
        }
        min_dfa
    }

    /// Marks every accepting state.
    fn mark_final_states(&self, block_marking: &mut PartitionMarking)
        requires
            self.wf(),
            old(block_marking).wf(),
            old(block_marking)@.partition.universe() == self@.state_count,
        ensures
            final(block_marking).wf(),
            marked_with(final(block_marking)@, old(block_marking)@, self@.finals),
            *final(final(block_marking).partition) == *final(old(block_marking).partition),
            *final(final(block_marking).marks) == *final(old(block_marking).marks),
    {
        let n = self.state_count;
        let ghost v0 = block_marking@;
        let ghost finals = self@.finals;
        proof {
            block_marking.lemma_session();
            lemma_marked_with_start(v0);
            assert(Set::<usize>::empty() =~= Set::new(|x: usize| x < 0 && finals.contains(x)));
        }
        let mut state: usize = 0;
        while state < n
            invariant
                state <= n,
                n == self@.state_count,
                finals == self@.finals,
                v0.partition.universe() == n,
                block_marking.wf(),
                marked_with(
                    block_marking@,
                    v0,
                    Set::new(|x: usize| x < state && finals.contains(x)),
                ),
                *final(block_marking.partition) == *final(old(block_marking).partition),
                *final(block_marking.marks) == *final(old(block_marking).marks),
            decreases n - state,
        {
            let ghost v = block_marking@;
            let ghost before = Set::new(|x: usize| x < state && finals.contains(x));
            let ghost after = Set::new(|x: usize| x < state + 1 && finals.contains(x));
            if self.final_states.contains(&state) {
                proof {
                    lemma_marked_with_step(v, v0, before, state);
                }
                block_marking.mark(state);
                proof {
                    assert(before.insert(state) =~= after);
                }
            } else {
                proof {
                    assert(before =~= after);
                }
            }
            state = state + 1;
        }
        proof {
            assert(Set::new(|x: usize| x < n && finals.contains(x)) =~= finals);
        }
    }

    /// The transitions, in the order in which they were added.
    pub fn transitions(&self) -> (transitions: &Vec<Transition>)
        ensures
            transitions@ == self@.transitions,
    {
        &self.transitions
    }

    /// The accepting states.
    pub fn final_states(&self) -> (states: &HashSet<usize>)
        ensures
            states@ == self@.finals,
    {
        &self.final_states
    }
}


/// The indices of the transitions of `ts` whose `end` is the state `s`, the
/// latest first.
pub open spec fn incident(ts: Seq<Transition>, end: End, s: int) -> Seq<usize>
    decreases ts.len(),
{
    if ts.len() == 0 {
        Seq::empty()
    } else {
        let rest = incident(ts.drop_last(), end, s);
        if end_of(ts.last(), end) == s {
            seq![(ts.len() - 1) as usize] + rest
        } else {
            rest
        }
    }
}

/// The number of transitions of `ts` whose `end` is a state below `s`.
pub open spec fn incident_below(ts: Seq<Transition>, end: End, s: int) -> int
    decreases s,
{
    if s <= 0 {
        0
    } else {
        incident_below(ts, end, s - 1) + incident(ts, end, s - 1).len()
    }
}

/// One more transition is listed first at the state at its end, and
/// nowhere else.
pub proof fn lemma_incident_push(ts: Seq<Transition>, t: Transition, end: End, s: int)
    ensures
        incident(ts.push(t), end, s) == if end_of(t, end) == s {
            seq![ts.len() as usize] + incident(ts, end, s)
        } else {
            incident(ts, end, s)
        },
{
    assert(ts.push(t).drop_last() =~= ts);
}

/// One more transition counts below every state above the state at its
/// end.
pub proof fn lemma_below_push(ts: Seq<Transition>, t: Transition, end: End, s: int)
    ensures
        incident_below(ts.push(t), end, s) == incident_below(ts, end, s) + if end_of(t, end) < s {
            1int
        } else {
            0int
        },
    decreases s,
{
    if s > 0 {
        lemma_below_push(ts, t, end, s - 1);
        lemma_incident_push(ts, t, end, s - 1);
    }
}

/// The count of the transitions below a state grows with the state.
pub proof fn lemma_below_monotone(ts: Seq<Transition>, end: End, s: int, u: int)
    requires
        s <= u,
    ensures
        incident_below(ts, end, s) <= incident_below(ts, end, u),
        0 <= incident_below(ts, end, s),
    decreases u,
{
    if s <= 0 {
        if u > 0 {
            lemma_below_monotone(ts, end, s, u - 1);
        }
    } else if s < u {
        lemma_below_monotone(ts, end, s, u - 1);
    } else {
        lemma_below_monotone(ts, end, s - 1, s - 1);
    }
}

/// Every transition with its end below `n` is counted once.
pub proof fn lemma_below_total(ts: Seq<Transition>, end: End, n: int)
    requires
        forall|i: int| 0 <= i < ts.len() ==> 0 <= end_of(#[trigger] ts[i], end) < n,
    ensures
        incident_below(ts, end, n) == ts.len(),
        forall|u: int| u >= n ==> incident(ts, end, u).len() == 0,
    decreases ts.len(),
{
    if ts.len() == 0 {
        assert(ts =~= Seq::empty());
        lemma_below_empty(end, n);
    } else {
        let init = ts.drop_last();
        assert(init.push(ts.last()) =~= ts);
        assert forall|i: int| 0 <= i < init.len() implies 0 <= end_of(#[trigger] init[i], end)
            < n by {
            assert(init[i] == ts[i]);
        }
        lemma_below_total(init, end, n);
        assert(0 <= end_of(ts[ts.len() - 1], end) < n);
        lemma_below_push(init, ts.last(), end, n);
        assert forall|u: int| u >= n implies incident(ts, end, u).len() == 0 by {
            lemma_incident_push(init, ts.last(), end, u);
        }
    }
}

/// Without transitions every count is zero.
pub proof fn lemma_below_empty(end: End, n: int)
    ensures
        incident_below(Seq::<Transition>::empty(), end, n) == 0,
    decreases n,
{
    if n > 0 {
        lemma_below_empty(end, n - 1);
    }
}

/// A longer prefix has at least as many transitions at a state.
pub proof fn lemma_incident_prefix(ts: Seq<Transition>, end: End, s: int, i: int, j: int)
    requires
        0 <= i <= j <= ts.len(),
    ensures
        incident(ts.take(i), end, s).len() <= incident(ts.take(j), end, s).len(),
        incident(ts.take(i), end, s).len() <= i,
    decreases j,
{
    if i < j {
        lemma_incident_prefix(ts, end, s, i, j - 1);
        assert(ts.take(j - 1).push(ts[j - 1]) =~= ts.take(j));
        lemma_incident_push(ts.take(j - 1), ts[j - 1], end, s);
    } else if i > 0 {
        lemma_incident_prefix(ts, end, s, i - 1, i - 1);
        assert(ts.take(i - 1).push(ts[i - 1]) =~= ts.take(i));
        lemma_incident_push(ts.take(i - 1), ts[i - 1], end, s);
    }
}

/// `incident` lists exactly the transitions at `s`, each once.
pub proof fn lemma_incident_members(ts: Seq<Transition>, end: End, s: int)
    requires
        ts.len() <= usize::MAX,
    ensures
        forall|k: int|
            0 <= k < incident(ts, end, s).len() ==> (#[trigger] incident(ts, end, s)[k]) < ts.len()
                && end_of(ts[incident(ts, end, s)[k] as int], end) == s,
        forall|i: int|
            0 <= i < ts.len() && end_of(#[trigger] ts[i], end) == s ==> incident(
                ts,
                end,
                s,
            ).contains(i as usize),
        forall|k: int, l: int|
            0 <= k < l < incident(ts, end, s).len() ==> (#[trigger] incident(ts, end, s)[k]) > (
            #[trigger] incident(ts, end, s)[l]),
    decreases ts.len(),
{
    if ts.len() > 0 {
        let init = ts.drop_last();
        let rest = incident(init, end, s);
        let all = incident(ts, end, s);
        lemma_incident_members(init, end, s);
        assert forall|i: int| 0 <= i < ts.len() && end_of(#[trigger] ts[i], end) == s implies all.contains(
            i as usize,
        ) by {
            if i < ts.len() - 1 {
                assert(init[i] == ts[i]);
                let k = choose|k: int| 0 <= k < rest.len() && rest[k] == i as usize;
                if end_of(ts.last(), end) == s {
                    assert(all[k + 1] == i as usize);
                } else {
                    assert(all[k] == i as usize);
                }
            } else {
                assert(all[0] == i as usize);
            }
        }
        assert forall|k: int| 0 <= k < all.len() implies (#[trigger] all[k]) < ts.len() && end_of(
            ts[all[k] as int],
            end,
        ) == s by {
            if end_of(ts.last(), end) == s {
                if k > 0 {
                    assert(all[k] == rest[k - 1]);
                    assert(init[rest[k - 1] as int] == ts[rest[k - 1] as int]);
                }
            } else {
                assert(init[rest[k] as int] == ts[rest[k] as int]);
            }
        }
        assert forall|k: int, l: int| 0 <= k < l < all.len() implies (#[trigger] all[k]) > (
        #[trigger] all[l]) by {
            if end_of(ts.last(), end) == s {
                assert(all[l] == rest[l - 1]);
                if k > 0 {
                    assert(all[k] == rest[k - 1]);
                }
            }
        }
    }
}

/// For each state the indices of the transitions that have it at one end.
struct AdjacentTransitions {
    adjacent: Vec<usize>,
    offset: Vec<usize>,
}

impl AdjacentTransitions {
    /// The transitions listed for state `s`.
    spec fn bucket(&self, s: int) -> Seq<usize> {
        self.adjacent@.subrange(self.offset@[s] as int, self.offset@[s + 1] as int)
    }

    /// The table lists for each of the `n` states the transitions of `ts`
    /// that have it at their `end`, the latest first.
    spec fn indexes(&self, ts: Seq<Transition>, end: End, n: usize) -> bool {
        &&& self.offset@.len() == n + 1
        &&& self.adjacent@.len() == ts.len()
        &&& forall|s: int|
            #![trigger self.bucket(s)]
            #![trigger self.offset@[s]]
            0 <= s < n ==> self.offset@[s] <= self.offset@[s + 1] <= self.adjacent@.len()
                && self.bucket(s) == incident(ts, end, s)
    }

    /// After the first `i` transitions have been counted.
    spec fn counted(&self, ts: Seq<Transition>, end: End, n: usize, i: int) -> bool {
        &&& self.offset@.len() == n + 1
        &&& forall|s: int|
            0 <= s <= n ==> (#[trigger] self.offset@[s]) == incident(ts.take(i), end, s).len()
    }

    /// After the counts up to state `upto` have been summed up.
    spec fn summed(&self, ts: Seq<Transition>, end: End, n: usize, upto: int) -> bool {
        &&& self.offset@.len() == n + 1
        &&& forall|s: int|
            0 <= s <= n ==> (#[trigger] self.offset@[s]) == if s <= upto {
                incident_below(ts, end, s + 1)
            } else {
                incident(ts, end, s).len() as int
            }
    }

    /// After the first `i` transitions have been put in their places.
    spec fn placed(&self, ts: Seq<Transition>, end: End, n: usize, i: int) -> bool {
        &&& self.offset@.len() == n + 1
        &&& self.adjacent@.len() == ts.len()
        &&& forall|s: int|
            0 <= s <= n ==> (#[trigger] self.offset@[s]) == incident_below(ts, end, s + 1)
                - incident(ts.take(i), end, s).len()
        &&& forall|s: int|
            0 <= s < n ==> #[trigger] self.adjacent@.subrange(
                self.offset@[s] as int,
                incident_below(ts, end, s + 1),
            ) == incident(ts.take(i), end, s)
    }

    /// A table that lists nothing yet, with room for `state_count` states
    /// and `transition_count` transitions where the memory allows it.
    fn new(state_count: usize, transition_count: usize) -> (table: AdjacentTransitions)
        requires
            state_count < usize::MAX,
        ensures
            table.adjacent@ == Seq::<usize>::empty(),
            table.offset@ == Seq::<usize>::empty(),
    {
        let mut adjacent: Vec<usize> = Vec::new();
        let mut offset: Vec<usize> = Vec::new();
        reserve(&mut adjacent, transition_count);
        reserve(&mut offset, state_count + 1);
        AdjacentTransitions { adjacent, offset }
    }

    /// Sorts the transitions by the state at their `end`, by counting.
    fn build_adjacency(&mut self, state_count: usize, transitions: &Vec<Transition>, end: End)
        requires
            state_count < usize::MAX,
            forall|i: int|
                0 <= i < transitions@.len() ==> end_of(#[trigger] transitions@[i], end)
                    < state_count,
        ensures
            final(self).indexes(transitions@, end, state_count),
    {
        let ghost ts = transitions@;
        let n = state_count;
        let m = transitions.len();
        self.offset.clear();
        let mut s: usize = 0;
        while s < n + 1
            invariant
                n < usize::MAX,
                s <= n + 1,
                self.offset@.len() == s,
                forall|u: int| 0 <= u < s ==> (#[trigger] self.offset@[u]) == 0,
            decreases n + 1 - s,
        {
            self.offset.push(0);
            s = s + 1;
        }
        proof {
            assert(ts.take(0) =~= Seq::empty());
        }
        let mut i: usize = 0;
        while i < m
            invariant
                i <= m,
                m == ts.len(),
                ts == transitions@,
                forall|k: int| 0 <= k < ts.len() ==> end_of(#[trigger] ts[k], end) < n,
                self.counted(ts, end, n, i as int),
            decreases m - i,
        {
            let state = get_end(&transitions[i], end);
            proof {
                lemma_incident_prefix(ts, end, state as int, i as int, i as int);
                assert(ts.take(i as int).push(ts[i as int]) =~= ts.take(i + 1));
                assert forall|u: int| 0 <= u <= n implies incident(ts.take(i + 1), end, u).len()
                    == incident(ts.take(i as int), end, u).len() + if u == state {
                    1int
                } else {
                    0int
                } by {
                    lemma_incident_push(ts.take(i as int), ts[i as int], end, u);
                }
            }
            self.offset[state] = self.offset[state] + 1;
            i = i + 1;
        }
        proof {
            assert(ts.take(m as int) =~= ts);
            lemma_below_total(ts, end, n as int);
            assert(incident_below(ts, end, 1) == incident_below(ts, end, 0) + incident(
                ts,
                end,
                0,
            ).len());
        }
        let mut state: usize = 0;
        while state < n
            invariant
                state <= n,
                n < usize::MAX,
                m == ts.len(),
                incident_below(ts, end, n as int) == m,
                forall|u: int| u >= n ==> incident(ts, end, u).len() == 0,
                self.summed(ts, end, n, state as int),
            decreases n - state,
        {
            proof {
                if state + 2 <= n {
                    lemma_below_monotone(ts, end, state + 2, n as int);
                }
                if state + 1 == n {
                    assert(incident_below(ts, end, n + 1) == incident_below(ts, end, n as int)
                        + incident(ts, end, n as int).len());
                }
                assert(incident_below(ts, end, state + 2) == incident_below(ts, end, state + 1)
                    + incident(ts, end, state + 1).len());
            }
            self.offset[state + 1] = self.offset[state + 1] + self.offset[state];
            state = state + 1;
        }
        self.adjacent.clear();
        let mut k: usize = 0;
        while k < m
            invariant
                k <= m,
                self.adjacent@.len() == k,
                self.offset@.len() == n + 1,
                self.summed(ts, end, n, n as int),
            decreases m - k,
        {
            self.adjacent.push(0);
            k = k + 1;
        }
        proof {
            assert(ts.take(0) =~= Seq::empty());
            assert forall|u: int| 0 <= u < n implies #[trigger] self.adjacent@.subrange(
                self.offset@[u] as int,
                incident_below(ts, end, u + 1),
            ) == incident(ts.take(0), end, u) by {
                lemma_below_monotone(ts, end, u + 1, n as int);
                assert(self.adjacent@.subrange(
                    self.offset@[u] as int,
                    incident_below(ts, end, u + 1),
                ) =~= Seq::empty());
            }
        }
        let mut i: usize = 0;
        while i < m
            invariant
                i <= m,
                m == ts.len(),
                ts == transitions@,
                n < usize::MAX,
                forall|k: int| 0 <= k < ts.len() ==> end_of(#[trigger] ts[k], end) < n,
                incident_below(ts, end, n as int) == m,
                self.placed(ts, end, n, i as int),
            decreases m - i,
        {
            let state = get_end(&transitions[i], end);
            let ghost before = *self;
            proof {
                lemma_incident_prefix(ts, end, state as int, i + 1, m as int);
                assert(ts.take(m as int) =~= ts);
                assert(ts.take(i as int).push(ts[i as int]) =~= ts.take(i + 1));
                lemma_incident_push(ts.take(i as int), ts[i as int], end, state as int);
                lemma_below_monotone(ts, end, state as int, state as int);
                lemma_below_monotone(ts, end, state + 1, n as int);
                assert(incident_below(ts, end, state + 1) == incident_below(ts, end, state as int)
                    + incident(ts, end, state as int).len());
            }
            let position = self.offset[state] - 1;
            self.offset[state] = position;
            self.adjacent[position] = i;
            proof {
                assert forall|u: int| 0 <= u <= n implies (#[trigger] self.offset@[u])
                    == incident_below(ts, end, u + 1) - incident(ts.take(i + 1), end, u).len() by {
                    lemma_incident_push(ts.take(i as int), ts[i as int], end, u);
                }
                assert forall|u: int| 0 <= u < n implies #[trigger] self.adjacent@.subrange(
                    self.offset@[u] as int,
                    incident_below(ts, end, u + 1),
                ) == incident(ts.take(i + 1), end, u) by {
                    lemma_incident_push(ts.take(i as int), ts[i as int], end, u);
                    let old_range = before.adjacent@.subrange(
                        before.offset@[u] as int,
                        incident_below(ts, end, u + 1),
                    );
                    assert(old_range == incident(ts.take(i as int), end, u));
                    let new_range = self.adjacent@.subrange(
                        self.offset@[u] as int,
                        incident_below(ts, end, u + 1),
                    );
                    lemma_incident_prefix(ts, end, u, i as int, m as int);
                    lemma_below_monotone(ts, end, u, u);
                    lemma_below_monotone(ts, end, u + 1, n as int);
                    assert(incident_below(ts, end, u + 1) == incident_below(ts, end, u)
                        + incident(ts, end, u).len());
                    if u == state {
                        assert(new_range =~= seq![i] + old_range);
                    } else {
                        if u < state {
                            lemma_below_monotone(ts, end, u + 1, state as int);
                        } else {
                            lemma_below_monotone(ts, end, state + 1, u);
                        }
                        assert(new_range =~= old_range);
                    }
                }
            }
            i = i + 1;
        }
        proof {
            assert(ts.take(m as int) =~= ts);
            assert forall|u: int|
                #![trigger self.bucket(u)]
                #![trigger self.offset@[u]]
                0 <= u < n implies self.offset@[u] <= self.offset@[u + 1] <= self.adjacent@.len()
                && self.bucket(u) == incident(ts, end, u) by {
                assert(incident_below(ts, end, u + 1) == incident_below(ts, end, u) + incident(
                    ts,
                    end,
                    u,
                ).len());
                assert(incident_below(ts, end, u + 2) == incident_below(ts, end, u + 1)
                    + incident(ts, end, u + 1).len());
                lemma_below_total(ts, end, n as int);
                lemma_below_monotone(ts, end, u + 1, n as int);
                assert(self.offset@[u] == incident_below(ts, end, u));
                assert(self.offset@[u + 1] == incident_below(ts, end, u + 1));
                assert(self.adjacent@.subrange(
                    self.offset@[u] as int,
                    incident_below(ts, end, u + 1),
                ) == incident(ts, end, u));
            }
            assert(self.offset@.len() == n + 1);
            assert(self.adjacent@.len() == ts.len());
            assert(self.indexes(ts, end, n));
        }
    }

    /// The transitions listed for `state`.
    fn of(&self, state: usize) -> (listed: Vec<usize>)
        requires
            state + 1 < self.offset@.len(),
            self.offset@[state as int] <= self.offset@[state + 1] <= self.adjacent@.len(),
        ensures
            listed@ == self.bucket(state as int),
    {
        let first = self.offset[state];
        let entries = self.offset.len();
        assert(state + 1 < entries);
        let past = self.offset[state + 1];
        let mut listed: Vec<usize> = Vec::new();
        let mut i: usize = first;
        while i < past
            invariant
                first <= i <= past <= self.adjacent@.len(),
                listed@ == self.adjacent@.subrange(first as int, i as int),
            decreases past - i,
        {
            listed.push(self.adjacent[i]);
            proof {
                assert(listed@ =~= self.adjacent@.subrange(first as int, i + 1));
            }
            i = i + 1;
        }
        listed
    }
}

} // verus!
