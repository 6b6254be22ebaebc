use automata_min::automaton::Automaton;
use automata_min::partition::{finality_split, get_quotient, refine_once, Successors};
use automata_min::partition::successors_of;
use automata_min::prune::remove_unreachable_states;
use automata_min::quotient::minify;
use automata_min::rename::pretify_automata;

const LAMBDA: char = 'λ';

fn automaton(
    states: &[u64],
    alphabet: &[char],
    start: u64,
    finals: &[u64],
    transitions: &[(u64, char, u64)],
) -> Automaton {
    Automaton {
        states: states.to_vec(),
        alphabet: alphabet.to_vec(),
        start,
        finals: finals.to_vec(),
        transitions: transitions.to_vec(),
    }
}

#[test]
fn pruning_twice_changes_nothing_more() {
    let m = automaton(&[1, 4, 7, 9], &['a'], 4, &[9], &[(4, 'a', 9), (1, 'a', 4), (7, 'a', 7)]);
    let once = remove_unreachable_states(&m);
    assert_eq!(once.states, vec![4, 9]);
    assert_eq!(once.transitions, vec![(4, 'a', 9)]);
    let twice = remove_unreachable_states(&once);
    assert_eq!(twice, once);
}

#[test]
fn start_without_transitions_is_kept() {
    let m = automaton(&[2, 5, 8], &['a'], 5, &[8], &[(2, 'a', 8)]);
    let p = remove_unreachable_states(&m);
    assert_eq!(p.states, vec![5]);
    assert_eq!(p.start, 5);
    assert_eq!(p.finals, Vec::<u64>::new());
    assert_eq!(p.transitions, Vec::<(u64, char, u64)>::new());
}

#[test]
fn unreachable_final_state_is_dropped() {
    let m = automaton(&[0, 1, 2], &['a'], 0, &[1, 2], &[(0, 'a', 1)]);
    let p = remove_unreachable_states(&m);
    assert_eq!(p.states, vec![0, 1]);
    assert_eq!(p.finals, vec![1]);
}

#[test]
fn minify_is_idempotent() {
    let m = automaton(
        &[0, 1, 2, 3, 4],
        &['a', 'b'],
        0,
        &[3],
        &[(0, 'a', 1), (0, 'b', 2), (1, 'a', 3), (2, 'a', 3), (4, 'b', 0)],
    );
    let once = minify(&m);
    assert_eq!(once.states, vec![0, 1, 3]);
    assert_eq!(once.transitions, vec![(0, 'a', 1), (0, 'b', 1), (1, 'a', 3)]);
    let twice = minify(&once);
    assert_eq!(twice, once);
}

#[test]
fn minify_merges_equivalent_final_states() {
    let m = automaton(&[0, 1, 2], &['a'], 0, &[1, 2], &[(0, 'a', 1), (1, 'a', 2), (2, 'a', 1)]);
    let r = minify(&m);
    assert_eq!(r.states, vec![0, 1]);
    assert_eq!(r.finals, vec![1]);
    assert_eq!(r.transitions, vec![(0, 'a', 1), (1, 'a', 1)]);
}

#[test]
fn epsilon_is_ignored_by_the_partition() {
    // 1 and 2 differ only on an epsilon transition, so they stay together
    let m = automaton(&[0, 1, 2, 3], &['a'], 0, &[3], &[(0, 'a', 1), (0, 'a', 2), (1, LAMBDA, 0)]);
    let rep = get_quotient(&m);
    assert_eq!(rep, vec![0, 1, 1, 3]);
}

#[test]
fn base_split_separates_finality() {
    let m = automaton(&[0, 1, 2, 3], &['a'], 0, &[1, 3], &[]);
    assert_eq!(finality_split(&m), vec![0, 1, 0, 1]);
}

#[test]
fn one_round_splits_by_successor_class() {
    let m = automaton(&[0, 1, 2], &['a'], 0, &[2], &[(0, 'a', 2), (1, 'a', 1)]);
    let base = finality_split(&m);
    assert_eq!(base, vec![0, 0, 2]);
    assert_eq!(refine_once(&m, &base), vec![0, 1, 2]);
}

#[test]
fn successor_classes() {
    let m = automaton(&[0, 1, 2], &['a', 'b'], 0, &[2], &[(0, 'a', 1), (0, 'a', 2), (1, 'a', 1), (1, 'b', 9)]);
    let rep = vec![0, 0, 2];
    assert_eq!(successors_of(&m, &rep, 0, 'a'), Successors::Mixed);
    assert_eq!(successors_of(&m, &rep, 1, 'a'), Successors::Class(0));
    assert_eq!(successors_of(&m, &rep, 2, 'a'), Successors::Dead);
    assert_eq!(successors_of(&m, &rep, 1, 'b'), Successors::Mixed);
}

#[test]
fn renaming_is_a_bijection() {
    let m = automaton(&[3, 10, 20, 40], &['a'], 20, &[3, 40], &[(20, 'a', 3), (3, 'a', 40), (40, 'a', 10)]);
    let r = pretify_automata(&m);
    assert_eq!(r.states, vec![0, 1, 2, 3]);
    assert_eq!(r.start, 0);
    assert_eq!(r.finals, vec![1, 3]);
    assert_eq!(r.transitions, vec![(0, 'a', 1), (1, 'a', 3), (3, 'a', 2)]);
}
