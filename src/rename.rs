use vstd::prelude::*;
use crate::automaton::{Automaton, AutomatonView, find_u64, lemma_index_of, lemma_sorted_unique};
use crate::prune::copy_chars;

verus! {

/// Every final state and every transition endpoint of `a` is a state.
pub open spec fn mentions_only_states(a: AutomatonView) -> bool {
    &&& forall|i: int| 0 <= i < a.finals.len() ==> a.states.contains(#[trigger] a.finals[i])
    &&& forall|i: int|
        0 <= i < a.transitions.len() ==> a.states.contains((#[trigger] a.transitions[i]).0)
            && a.states.contains(a.transitions[i].2)
}

/// The canonical name of state `q`: the start state is `0`, the other states
/// follow in their natural order as `1, 2, ...`.
pub open spec fn canonical_name(a: AutomatonView, q: u64) -> u64 {
    if q == a.start {
        0
    } else if a.index_of(q) < a.index_of(a.start) {
        (a.index_of(q) + 1) as u64
    } else {
        a.index_of(q) as u64
    }
}

/// `a` with every state renamed to its canonical name.
pub open spec fn renamed(a: AutomatonView) -> AutomatonView {
    AutomatonView {
        states: Seq::new(a.states.len(), |i: int| i as u64),
        alphabet: a.alphabet,
        start: 0,
        finals: a.finals.map_values(|q: u64| canonical_name(a, q)),
        transitions: a.transitions.map_values(
            |t: (u64, char, u64)| (canonical_name(a, t.0), t.1, canonical_name(a, t.2)),
        ),
    }
}

/// The canonical name of a state, computed.
fn canonical_name_of(m: &Automaton, si: usize, q: u64) -> (r: u64)
    requires
        m@.well_formed(),
        m@.states.contains(q),
        si < m@.states.len(),
        m@.states[si as int] == m@.start,
    ensures
        r == canonical_name(m@, q),
{
    proof {
        lemma_index_of(m@, si as int);
    }
    if q == m.start {
        return 0;
    }
    let p = match find_u64(&m.states, q) {
        Some(p) => p,
        None => 0,
    };
    proof {
        lemma_index_of(m@, p as int);
    }
    if p < si {
        (p + 1) as u64
    } else {
        p as u64
    }
}

/// Renames the states of `m` to `0, 1, ...`: the start state becomes `0`
/// and the other states follow in their natural order. Final marks and
/// transitions follow their states.
pub fn pretify_automata(m: &Automaton) -> (r: Automaton)
    requires
        m@.well_formed(),
        mentions_only_states(m@),
    ensures
        r@ == renamed(m@),
{
    let ghost a = m@;
    let n = m.states.len();
    let si = match find_u64(&m.states, m.start) {
        Some(k) => k,
        None => 0,
    };
    let mut states: Vec<u64> = Vec::new();
    let mut i: usize = 0;
    while i < n
        invariant
            n == a.states.len(),
            i <= n,
            states@ =~= Seq::new(i as nat, |k: int| k as u64),
        decreases n - i,
    {
        states.push(i as u64);
        i = i + 1;
    }
    let ghost fq = |q: u64| canonical_name(a, q);
    let mut finals: Vec<u64> = Vec::new();
    let mut i: usize = 0;
    while i < m.finals.len()
        invariant
            a == m@,
            a.well_formed(),
            mentions_only_states(a),
            si < a.states.len(),
            a.states[si as int] == a.start,
            fq == (|q: u64| canonical_name(a, q)),
            i <= a.finals.len(),
            finals@ =~= a.finals.take(i as int).map_values(fq),
        decreases a.finals.len() - i,
    {
        let x = canonical_name_of(m, si, m.finals[i]);
        finals.push(x);
        i = i + 1;
    }
    let ghost ft = |t: (u64, char, u64)| (canonical_name(a, t.0), t.1, canonical_name(a, t.2));
    let mut transitions: Vec<(u64, char, u64)> = Vec::new();
    let mut i: usize = 0;
    while i < m.transitions.len()
        invariant
            a == m@,
            a.well_formed(),
            mentions_only_states(a),
            si < a.states.len(),
            a.states[si as int] == a.start,
            ft == (|t: (u64, char, u64)| (canonical_name(a, t.0), t.1, canonical_name(a, t.2))),
            i <= a.transitions.len(),
            transitions@ =~= a.transitions.take(i as int).map_values(ft),
        decreases a.transitions.len() - i,
    {
        let t = m.transitions[i];
        assert(a.transitions[i as int] == t);
        let s = canonical_name_of(m, si, t.0);
        let d = canonical_name_of(m, si, t.2);
        transitions.push((s, t.1, d));
        i = i + 1;
    }
    let alphabet = copy_chars(&m.alphabet);
    proof {
        assert(a.finals.take(a.finals.len() as int) =~= a.finals);
        assert(a.transitions.take(a.transitions.len() as int) =~= a.transitions);
        assert(states@ =~= renamed(a).states);
    }
    Automaton { states, alphabet, start: 0, finals, transitions }
}

/// Renaming is a bijection from the states onto `0..n`: the start state
/// gets `0`, every state gets a name below the number of states, distinct
/// states get distinct names, and every name below that number is given.
pub proof fn lemma_renaming_bijective(a: AutomatonView, x: u64, y: u64, k: u64)
    requires
        a.well_formed(),
        a.states.contains(x),
        a.states.contains(y),
        k < a.states.len(),
    ensures
        canonical_name(a, a.start) == 0,
        canonical_name(a, x) < a.states.len(),
        x != y ==> canonical_name(a, x) != canonical_name(a, y),
        exists|z: u64| a.states.contains(z) && canonical_name(a, z) == k,
{
    let s = choose|i: int| 0 <= i < a.states.len() && a.states[i] == a.start;
    lemma_index_of(a, s);
    let ix = choose|i: int| 0 <= i < a.states.len() && a.states[i] == x;
    lemma_index_of(a, ix);
    let iy = choose|i: int| 0 <= i < a.states.len() && a.states[i] == y;
    lemma_index_of(a, iy);
    if x != y {
        if x != a.start && y != a.start {
            assert(ix != iy);
            assert(ix != s && iy != s);
        }
    }
    let z = if k == 0 {
        a.start
    } else if (k as int) <= s {
        a.states[k - 1]
    } else {
        a.states[k as int]
    };
    if k != 0 {
        if (k as int) <= s {
            lemma_index_of(a, k - 1);
            if a.states[k - 1] == a.start {
                lemma_sorted_unique(a.states, k - 1, s);
            }
        } else {
            lemma_index_of(a, k as int);
        }
    }
    assert(a.states.contains(z));
    assert(canonical_name(a, z) == k);
}

} // verus!
