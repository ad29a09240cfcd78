use dfa_minimizer::fa::Transition;
use dfa_minimizer::fa::DFA;
use std::collections::HashSet;

const A: i32 = 'a' as i32;
const B: i32 = 'b' as i32;

fn automaton(states: usize, start: usize, transitions: &[(usize, i32, usize)], finals: &[usize]) -> DFA {
    let mut dfa = DFA::new(states, start);
    for &(from, on_input, to) in transitions {
        dfa.add_transition(from, on_input, to);
    }
    for &state in finals {
        dfa.add_final_state(state);
    }
    dfa
}

fn accepts(dfa: &DFA, word: &[i32]) -> bool {
    if dfa.state_count() == 0 {
        return false;
    }
    let mut state = dfa.start_state();
    for &symbol in word {
        let step = dfa.transitions().iter().find(|t| t.from == state && t.on_input == symbol);
        match step {
            Some(transition) => state = transition.to,
            None => return false,
        }
    }
    dfa.final_states().contains(&state)
}

fn words(alphabet: &[i32], length: usize) -> Vec<Vec<i32>> {
    let mut all = vec![Vec::new()];
    let mut last = vec![Vec::new()];
    for _ in 0..length {
        let mut next = Vec::new();
        for word in &last {
            for &symbol in alphabet {
                let mut longer: Vec<i32> = word.clone();
                longer.push(symbol);
                next.push(longer);
            }
        }
        all.extend(next.iter().cloned());
        last = next;
    }
    all
}

fn assert_same_language(dfa: &DFA, other: &DFA, alphabet: &[i32], length: usize) {
    for word in words(alphabet, length) {
        assert_eq!(accepts(dfa, &word), accepts(other, &word), "word {:?}", word);
    }
}

fn assert_trivial(dfa: &DFA) {
    assert_eq!(dfa.state_count(), 1);
    assert_eq!(dfa.start_state(), 0);
    assert_eq!(dfa.transitions().len(), 0);
    assert_eq!(dfa.final_states().len(), 0);
}

fn triples(dfa: &DFA) -> HashSet<(usize, i32, usize)> {
    dfa.transitions().iter().map(|t| (t.from, t.on_input, t.to)).collect()
}

#[test]
fn new_automaton_is_empty() {
    let dfa = DFA::new(3, 2);
    assert_eq!(dfa.state_count(), 3);
    assert_eq!(dfa.start_state(), 2);
    assert_eq!(dfa.transitions().len(), 0);
    assert_eq!(dfa.final_states().len(), 0);
}

#[test]
fn add_transition_appends() {
    let mut dfa = DFA::new(2, 0);
    dfa.add_transition(0, 7, 1);
    dfa.add_transition(1, -3, 0);
    assert_eq!(
        dfa.transitions(),
        &vec![Transition { from: 0, on_input: 7, to: 1 }, Transition { from: 1, on_input: -3, to: 0 }]
    );
}

#[test]
fn add_final_state_says_whether_it_was_new() {
    let mut dfa = DFA::new(2, 0);
    assert!(dfa.add_final_state(1));
    assert!(!dfa.add_final_state(1));
    assert!(dfa.add_final_state(0));
    assert_eq!(dfa.final_states().len(), 2);
    assert!(dfa.final_states().contains(&1));
}

#[test]
fn minimal_automaton_stays_as_it_is() {
    let dfa = automaton(2, 0, &[(0, A, 1), (1, A, 1)], &[1]);
    let minimal = dfa.minimize();
    assert_eq!(minimal.state_count(), 2);
    assert_eq!(minimal.transitions().len(), 2);
    let start = minimal.start_state();
    let other = 1 - start;
    assert_eq!(triples(&minimal), HashSet::from([(start, A, other), (other, A, other)]));
    assert_eq!(minimal.final_states(), &HashSet::from([other]));
    assert_same_language(&dfa, &minimal, &[A], 5);
}

#[test]
fn states_with_one_behaviour_merge() {
    let dfa = automaton(3, 0, &[(0, A, 2), (1, A, 2)], &[2]);
    let minimal = dfa.minimize();
    assert_eq!(minimal.state_count(), 2);
    assert_same_language(&dfa, &minimal, &[A], 4);
}

#[test]
fn reachable_states_with_one_behaviour_merge() {
    // 3 -a-> 0, 3 -b-> 1, and both 0 and 1 go to the accepting state 2 on a
    let dfa = automaton(4, 3, &[(3, A, 0), (3, B, 1), (0, A, 2), (1, A, 2)], &[2]);
    let minimal = dfa.minimize();
    assert_eq!(minimal.state_count(), 3);
    assert_eq!(minimal.transitions().len(), 3);
    assert_eq!(minimal.final_states().len(), 1);
    let start = minimal.start_state();
    let middle = minimal.transitions().iter().find(|t| t.from == start).unwrap().to;
    let last = *minimal.final_states().iter().next().unwrap();
    assert_eq!(
        triples(&minimal),
        HashSet::from([(start, A, middle), (start, B, middle), (middle, A, last)])
    );
    assert_same_language(&dfa, &minimal, &[A, B], 4);
}

#[test]
fn unreachable_state_vanishes() {
    let dfa = automaton(3, 0, &[(0, A, 2), (1, B, 2), (1, A, 1)], &[2]);
    let minimal = dfa.minimize();
    assert_eq!(minimal.state_count(), 2);
    assert_eq!(minimal.transitions().len(), 1);
    let start = minimal.start_state();
    let other = 1 - start;
    assert_eq!(minimal.transitions()[0], Transition { from: start, on_input: A, to: other });
    assert_eq!(minimal.final_states(), &HashSet::from([other]));
}

#[test]
fn unreachable_final_state_leaves_the_rejecting_automaton() {
    let dfa = automaton(3, 0, &[(0, A, 1), (2, A, 2)], &[2]);
    let minimal = dfa.minimize();
    assert_trivial(&minimal);
}

#[test]
fn dead_state_vanishes() {
    // state 2 is reachable but no accepting state can be reached from it
    let dfa = automaton(3, 0, &[(0, A, 1), (0, B, 2), (2, A, 2)], &[1]);
    let minimal = dfa.minimize();
    assert_eq!(minimal.state_count(), 2);
    assert_eq!(minimal.transitions().len(), 1);
    assert_eq!(minimal.transitions()[0].on_input, A);
    assert_same_language(&dfa, &minimal, &[A, B], 4);
}

#[test]
fn cords_of_two_symbols_stay_apart() {
    let dfa = automaton(2, 0, &[(0, A, 1), (0, B, 1)], &[1]);
    let minimal = dfa.minimize();
    assert_eq!(minimal.state_count(), 2);
    let start = minimal.start_state();
    let other = 1 - start;
    assert_eq!(minimal.transitions().len(), 2);
    assert_eq!(triples(&minimal), HashSet::from([(start, A, other), (start, B, other)]));
}

#[test]
fn automaton_without_states() {
    let dfa = DFA::new(0, 0);
    assert_trivial(&dfa.minimize());
}

#[test]
fn automaton_without_transitions() {
    let minimal = automaton(3, 1, &[], &[1, 2]).minimize();
    assert_eq!(minimal.state_count(), 1);
    assert_eq!(minimal.start_state(), 0);
    assert_eq!(minimal.transitions().len(), 0);
    assert_eq!(minimal.final_states(), &HashSet::from([0]));
}

#[test]
fn automaton_without_final_states() {
    let minimal = automaton(2, 0, &[(0, A, 1), (1, A, 0)], &[]).minimize();
    assert_trivial(&minimal);
}

#[test]
fn start_state_that_reaches_no_final_state() {
    let minimal = automaton(3, 0, &[(0, A, 0), (1, A, 2)], &[2]).minimize();
    assert_trivial(&minimal);
}

#[test]
fn input_is_not_changed() {
    let dfa = automaton(3, 0, &[(0, A, 2), (1, A, 2)], &[2]);
    let _ = dfa.minimize();
    assert_eq!(dfa.state_count(), 3);
    assert_eq!(dfa.start_state(), 0);
    assert_eq!(dfa.transitions().len(), 2);
    assert_eq!(dfa.final_states(), &HashSet::from([2]));
}

#[test]
fn two_sources_of_one_symbol_into_one_state_keep_their_transitions() {
    // 0 and 1 differ (only 0 has a transition on b), both go to 2 on a
    let dfa = automaton(3, 0, &[(0, A, 2), (1, A, 2), (0, B, 1)], &[2]);
    let minimal = dfa.minimize();
    assert_eq!(minimal.state_count(), 3);
    assert_eq!(minimal.transitions().len(), 3);
    assert_same_language(&dfa, &minimal, &[A, B], 4);
}

#[test]
fn duplicate_transitions_collapse() {
    let dfa = automaton(2, 0, &[(0, A, 1), (0, A, 1), (1, B, 1), (1, B, 1)], &[1]);
    let minimal = dfa.minimize();
    assert_eq!(minimal.state_count(), 2);
    assert_eq!(minimal.transitions().len(), 2);
    assert_same_language(&dfa, &minimal, &[A, B], 4);
}

/// Accepts the words over {a, b} with an even number of a, written with
/// six states where two would do.
fn even_number_of_a() -> DFA {
    automaton(
        6,
        0,
        &[
            (0, A, 1),
            (0, B, 2),
            (1, A, 2),
            (1, B, 3),
            (2, A, 3),
            (2, B, 4),
            (3, A, 4),
            (3, B, 5),
            (4, A, 5),
            (4, B, 0),
            (5, A, 0),
            (5, B, 1),
        ],
        &[0, 2, 4],
    )
}

#[test]
fn language_is_kept() {
    let dfa = even_number_of_a();
    let minimal = dfa.minimize();
    assert_same_language(&dfa, &minimal, &[A, B], 7);
}

#[test]
fn known_minimal_form_is_reached() {
    let minimal = even_number_of_a().minimize();
    assert_eq!(minimal.state_count(), 2);
    assert_eq!(minimal.transitions().len(), 4);
    let even = minimal.start_state();
    let odd = 1 - even;
    assert_eq!(
        triples(&minimal),
        HashSet::from([(even, A, odd), (odd, A, even), (even, B, even), (odd, B, odd)])
    );
    assert_eq!(minimal.final_states(), &HashSet::from([even]));
}

#[test]
fn minimizing_twice_changes_nothing_but_names() {
    let once = even_number_of_a().minimize();
    let twice = once.minimize();
    assert_eq!(twice.state_count(), once.state_count());
    assert_eq!(twice.transitions().len(), once.transitions().len());
    assert_eq!(twice.final_states().len(), once.final_states().len());
    // the renaming is fixed by the start states
    let rename = |state: usize| if state == once.start_state() { twice.start_state() } else { 1 - twice.start_state() };
    let renamed: HashSet<(usize, i32, usize)> =
        once.transitions().iter().map(|t| (rename(t.from), t.on_input, rename(t.to))).collect();
    assert_eq!(renamed, triples(&twice));
    assert_same_language(&once, &twice, &[A, B], 6);
}

#[test]
fn every_state_of_the_result_is_useful() {
    let dfa = automaton(
        6,
        0,
        &[(0, A, 1), (1, B, 2), (2, A, 3), (0, B, 4), (4, A, 4), (5, A, 3), (3, B, 3)],
        &[3],
    );
    let minimal = dfa.minimize();
    let count = minimal.state_count();
    // forward
    let mut reached = vec![false; count];
    reached[minimal.start_state()] = true;
    for _ in 0..count {
        for t in minimal.transitions() {
            if reached[t.from] {
                reached[t.to] = true;
            }
        }
    }
    // backward
    let mut productive = vec![false; count];
    for &state in minimal.final_states() {
        productive[state] = true;
    }
    for _ in 0..count {
        for t in minimal.transitions() {
            if productive[t.to] {
                productive[t.from] = true;
            }
        }
    }
    assert!(reached.iter().all(|&r| r));
    assert!(productive.iter().all(|&p| p));
    assert_eq!(count, 4);
    assert_same_language(&dfa, &minimal, &[A, B], 6);
}

#[test]
fn longer_chain_is_refined_to_the_end() {
    // accepts exactly the word aaaa
    let dfa = automaton(5, 0, &[(0, A, 1), (1, A, 2), (2, A, 3), (3, A, 4)], &[4]);
    let minimal = dfa.minimize();
    assert_eq!(minimal.state_count(), 5);
    assert_eq!(minimal.transitions().len(), 4);
    assert_same_language(&dfa, &minimal, &[A], 6);
}

/// A sequence of numbers that looks random and is the same in every run.
struct Numbers(u64);

impl Numbers {
    fn next(&mut self, below: usize) -> usize {
        self.0 = self.0.wrapping_mul(6364136223846793005).wrapping_add(1442695040888963407);
        ((self.0 >> 33) as usize) % below
    }
}

fn some_automaton(numbers: &mut Numbers) -> DFA {
    let states = 1 + numbers.next(7);
    let mut dfa = DFA::new(states, numbers.next(states));
    for from in 0..states {
        for &symbol in &[A, B] {
            if numbers.next(4) != 0 {
                dfa.add_transition(from, symbol, numbers.next(states));
            }
        }
    }
    for state in 0..states {
        if numbers.next(3) == 0 {
            dfa.add_final_state(state);
        }
    }
    dfa
}

/// The number of classes of useful states that accept the same words of
/// up to `length` symbols, or 1 where no state is useful.
fn classes(dfa: &DFA, length: usize) -> usize {
    let all = words(&[A, B], length);
    let run = |from: usize, word: &[i32]| -> Option<usize> {
        let mut state = from;
        for &symbol in word {
            state = dfa.transitions().iter().find(|t| t.from == state && t.on_input == symbol)?.to;
        }
        Some(state)
    };
    let mut reachable = HashSet::new();
    for word in &all {
        if let Some(state) = run(dfa.start_state(), word) {
            reachable.insert(state);
        }
    }
    let mut signatures = HashSet::new();
    for &state in &reachable {
        let signature: Vec<bool> = all
            .iter()
            .map(|word| run(state, word).map_or(false, |end| dfa.final_states().contains(&end)))
            .collect();
        if signature.iter().any(|&accepted| accepted) {
            signatures.insert(signature);
        }
    }
    signatures.len().max(1)
}

#[test]
fn many_automata_keep_their_language_and_get_as_small_as_can_be() {
    let mut numbers = Numbers(7);
    for _ in 0..300 {
        let dfa = some_automaton(&mut numbers);
        let minimal = dfa.minimize();
        assert_same_language(&dfa, &minimal, &[A, B], 8);
        assert_eq!(minimal.state_count(), classes(&dfa, 8));
        let again = minimal.minimize();
        assert_eq!(again.state_count(), minimal.state_count());
        assert_eq!(again.transitions().len(), minimal.transitions().len());
        assert_same_language(&minimal, &again, &[A, B], 8);
        let pairs: HashSet<(usize, i32)> =
            minimal.transitions().iter().map(|t| (t.from, t.on_input)).collect();
        assert_eq!(pairs.len(), minimal.transitions().len());
    }
}
