use automata_min::automaton::Automaton;
use automata_min::closure::{get_relation_matrix, warshall};
use automata_min::partition::get_quotient;
use automata_min::prune::{get_reachable_states, remove_unreachable_states, remove_unreachable_states_with_params};
use automata_min::quotient::{apply_quotient, minify};
use automata_min::rename::pretify_automata;

const LAMBDA: char = 'λ';

fn automaton(
    states: &[u64],
    alphabet: &[char],
    start: u64,
    finals: &[u64],
    transitions: &[(u64, char, u64)],
) -> Automaton {
    Automaton {
        states: states.to_vec(),
        alphabet: alphabet.to_vec(),
        start,
        finals: finals.to_vec(),
        transitions: transitions.to_vec(),
    }
}

// States q0..q3 are 0..3.
fn four_state_cycle() -> Automaton {
    automaton(
        &[0, 1, 2, 3],
        &['a', 'b'],
        0,
        &[1],
        &[(0, 'a', 0), (0, 'b', 1), (1, 'a', 1), (1, 'b', 2), (2, 'a', 0), (2, 'b', 2), (3, 'a', 3)],
    )
}

// States q0..q3 are 0..3.
fn mergeable() -> Automaton {
    automaton(&[0, 1, 2, 3], &['a', 'b'], 0, &[3], &[(0, 'a', 1), (0, 'b', 2), (1, 'a', 3), (2, 'a', 3)])
}

// States FS and S are 0 and 1.
fn two_state_loop() -> Automaton {
    automaton(&[0, 1], &['a'], 1, &[0], &[(1, 'a', 0), (0, 'a', 0)])
}

#[test]
fn get_relation_matrix_test() {
    let rm = get_relation_matrix(&four_state_cycle());
    let rm_expected = vec![
        vec![true, true, false, false],
        vec![false, true, true, false],
        vec![true, false, true, false],
        vec![false, false, false, true],
    ];
    assert_eq!(rm, rm_expected);
}

#[test]
fn warshall_test() {
    let rm = vec![
        vec![true, true, false, false],
        vec![false, true, true, false],
        vec![true, false, true, false],
        vec![false, false, false, true],
    ];
    let r = warshall(&rm);
    let r_expected = vec![
        vec![true, true, true, false],
        vec![true, true, true, false],
        vec![true, true, true, false],
        vec![false, false, false, true],
    ];
    assert_eq!(r, r_expected);
}

#[test]
fn get_reachable_states_test() {
    let r = vec![
        vec![true, true, true, false],
        vec![true, true, true, false],
        vec![true, true, true, false],
        vec![false, false, false, true],
    ];
    let states = get_reachable_states(&four_state_cycle(), &r);
    assert_eq!(states, vec![0, 1, 2]);
}

#[test]
fn remove_unreachable_states_with_params_test() {
    let m = four_state_cycle();
    let reachable_states = vec![0, 1, 2];
    let m_new = remove_unreachable_states_with_params(&m, &reachable_states);
    let delta_expected =
        vec![(0, 'a', 0), (0, 'b', 1), (1, 'a', 1), (1, 'b', 2), (2, 'a', 0), (2, 'b', 2)];
    assert_eq!(m_new.states, reachable_states);
    assert_eq!(m_new.transitions, delta_expected);
}

#[test]
fn get_quotient_test() {
    // classes {q0}, {q1, q2}, {q3}, each led by its smallest state
    let quotient = get_quotient(&mergeable());
    assert_eq!(quotient, vec![0, 1, 1, 3]);
}

#[test]
fn apply_quotient_test() {
    let m = mergeable();
    let quotient = vec![0, 1, 1, 3];
    let min_m = apply_quotient(&m, &quotient);
    // the class {q1, q2} is named after q1
    let m_expected = automaton(&[0, 1, 3], &['a', 'b'], 0, &[3], &[(0, 'a', 1), (0, 'b', 1), (1, 'a', 3)]);
    assert_eq!(min_m, m_expected);
}

/// The start state is reachable only at the start of a chain, so it must be
/// in the reachable set by default.
#[test]
fn remove_unreachable_states_test_case_1() {
    let m = two_state_loop();
    let min_m = remove_unreachable_states(&m);
    assert_eq!(min_m, m);
}

/// States reachable only through epsilon transitions.
#[test]
fn remove_unreachable_states_test_case_2() {
    // 01q0, 01q1, 02q0, 02q1, 0f0, 0q0 are 0..5
    let m = automaton(
        &[0, 1, 2, 3, 4, 5],
        &['a', 'b'],
        5,
        &[4],
        &[(0, 'a', 1), (1, LAMBDA, 4), (2, 'b', 3), (3, LAMBDA, 4), (5, LAMBDA, 0), (5, LAMBDA, 2)],
    );
    let min_m = remove_unreachable_states(&m);
    assert_eq!(min_m, m);
}

#[test]
fn minify_simple_test_case() {
    let m = two_state_loop();
    let min_m = minify(&m);
    assert_eq!(min_m, m);
}

#[test]
fn pretify_automata_test() {
    // 00q01 and 01q00 are 0 and 1
    let ugly_m = automaton(&[0, 1], &['a'], 1, &[0], &[(1, 'a', 0)]);
    let m_expected = automaton(&[0, 1], &['a'], 0, &[1], &[(0, 'a', 1)]);
    let m = pretify_automata(&ugly_m);
    assert_eq!(m, m_expected);
}
