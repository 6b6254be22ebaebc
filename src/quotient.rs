use vstd::prelude::*;
use crate::automaton::{Automaton, AutomatonView, find_u64, lemma_index_of, strictly_sorted};
use crate::partition::{get_quotient, is_equivalence_partition, is_partition};
use crate::prune::{
    copy_chars, lemma_filter_step, lemma_pruned_well_formed, pruned, remove_unreachable_states,
};

verus! {

/// The name of the class of state `q`: the smallest state of the class.
pub open spec fn class_name(a: AutomatonView, rep: Seq<usize>, q: u64) -> u64 {
    a.states[rep[a.index_of(q)] as int]
}

/// `q` is a state of `a` that comes first in its class.
pub open spec fn heads_class(a: AutomatonView, rep: Seq<usize>, q: u64) -> bool {
    a.states.contains(q) && rep[a.index_of(q)] == a.index_of(q)
}

/// `q` names the class of some final state of `a`.
pub open spec fn lifted_final(a: AutomatonView, rep: Seq<usize>, q: u64) -> bool {
    exists|u: int|
        0 <= u < a.finals.len() && a.states.contains(#[trigger] a.finals[u]) && q == class_name(
            a,
            rep,
            a.finals[u],
        )
}

/// Transition `u` of `a`, between states of `a`, lifted to their classes.
pub open spec fn lifts_to(a: AutomatonView, rep: Seq<usize>, u: int, t: (u64, char, u64)) -> bool {
    let s = a.transitions[u];
    &&& a.states.contains(s.0)
    &&& a.states.contains(s.2)
    &&& t == (class_name(a, rep, s.0), s.1, class_name(a, rep, s.2))
}

/// `t` is the lift of some transition of `a` to the classes of `rep`.
pub open spec fn lifted_transition(a: AutomatonView, rep: Seq<usize>, t: (u64, char, u64)) -> bool {
    exists|u: int| 0 <= u < a.transitions.len() && #[trigger] lifts_to(a, rep, u, t)
}

/// `q` is the quotient of `a` by the partition `rep`: one state per class,
/// named after its smallest member; the class of the start state starts; the
/// classes of final states are final; each transition between states leads
/// from the class of its source to the class of its destination, each lifted
/// transition listed once.
pub open spec fn is_quotient(a: AutomatonView, rep: Seq<usize>, q: AutomatonView) -> bool {
    &&& q.states == a.states.filter(|x: u64| heads_class(a, rep, x))
    &&& q.alphabet == a.alphabet
    &&& q.start == class_name(a, rep, a.start)
    &&& q.finals.no_duplicates()
    &&& forall|x: u64| #[trigger] q.finals.contains(x) <==> lifted_final(a, rep, x)
    &&& q.transitions.no_duplicates()
    &&& forall|t: (u64, char, u64)| #[trigger] q.transitions.contains(t) <==> lifted_transition(a, rep, t)
}

/// Whether `t` is one of the entries of `v`.
fn contains_transition(v: &Vec<(u64, char, u64)>, t: (u64, char, u64)) -> (r: bool)
    ensures
        r == v@.contains(t),
{
    let mut i: usize = 0;
    while i < v.len()
        invariant
            i <= v@.len(),
            forall|k: int| 0 <= k < i ==> v@[k] != t,
        decreases v@.len() - i,
    {
        let e = v[i];
        if e.0 == t.0 && e.1 == t.1 && e.2 == t.2 {
            assert(v@[i as int] == t);
            return true;
        }
        i = i + 1;
    }
    false
}

/// The name of the class of the state at position `i`.
fn name_at(m: &Automaton, rep: &Vec<usize>, i: usize) -> (r: u64)
    requires
        m@.well_formed(),
        is_partition(rep@, m@.states.len()),
        i < m@.states.len(),
    ensures
        r == class_name(m@, rep@, m@.states[i as int]),
{
    proof {
        lemma_index_of(m@, i as int);
    }
    m.states[rep[i]]
}

/// Builds the quotient of `m` by the partition `rep` of its states.
pub fn apply_quotient(m: &Automaton, rep: &Vec<usize>) -> (r: Automaton)
    requires
        m@.well_formed(),
        is_partition(rep@, m@.states.len()),
    ensures
        is_quotient(m@, rep@, r@),
{
    let ghost a = m@;
    let ghost ph = |x: u64| heads_class(a, rep@, x);
    let n = m.states.len();
    let mut states: Vec<u64> = Vec::new();
    let mut i: usize = 0;
    while i < n
        invariant
            a == m@,
            n == a.states.len(),
            a.well_formed(),
            is_partition(rep@, n as nat),
            ph == (|x: u64| heads_class(a, rep@, x)),
            i <= n,
            states@ == a.states.take(i as int).filter(ph),
        decreases n - i,
    {
        proof {
            lemma_filter_step(a.states, ph, i as int);
            lemma_index_of(a, i as int);
            assert(a.states.contains(a.states[i as int]));
        }
        if rep[i] == i {
            states.push(m.states[i]);
        }
        i = i + 1;
    }
    proof {
        assert(a.states.take(n as int) =~= a.states);
    }
    let si = match find_u64(&m.states, m.start) {
        Some(k) => k,
        None => 0,
    };
    let start = name_at(m, rep, si);
    let mut finals: Vec<u64> = Vec::new();
    let mut u: usize = 0;
    while u < m.finals.len()
        invariant
            a == m@,
            a.well_formed(),
            is_partition(rep@, a.states.len()),
            u <= a.finals.len(),
            finals@.no_duplicates(),
            forall|x: u64|
                #[trigger] finals@.contains(x) <==> exists|w: int|
                    0 <= w < u && a.states.contains(#[trigger] a.finals[w]) && x == class_name(
                        a,
                        rep@,
                        a.finals[w],
                    ),
        decreases a.finals.len() - u,
    {
        let f = m.finals[u];
        match find_u64(&m.states, f) {
            Some(k) => {
                let x = name_at(m, rep, k);
                let ghost old_finals = finals@;
                if find_u64(&finals, x).is_none() {
                    finals.push(x);
                    assert(finals@[old_finals.len() as int] == x);
                }
                proof {
                    assert(a.finals[u as int] == f);
                    assert forall|y: u64| #[trigger] finals@.contains(y) <==> exists|w: int|
                        0 <= w < u + 1 && a.states.contains(#[trigger] a.finals[w]) && y
                            == class_name(a, rep@, a.finals[w]) by {
                        if finals@.contains(y) && y != x {
                            assert(old_finals.contains(y));
                        }
                        if y == x {
                            assert(finals@.contains(x));
                        }
                        if y != x && exists|w: int|
                            0 <= w < u + 1 && a.states.contains(#[trigger] a.finals[w]) && y
                                == class_name(a, rep@, a.finals[w]) {
                            assert(old_finals.contains(y));
                            let k2 = choose|k2: int| 0 <= k2 < old_finals.len() && old_finals[k2] == y;
                            assert(finals@[k2] == y);
                        }
                    }
                }
            },
            None => {
                proof {
                    assert(a.finals[u as int] == f);
                    assert forall|y: u64| #[trigger] finals@.contains(y) <==> exists|w: int|
                        0 <= w < u + 1 && a.states.contains(#[trigger] a.finals[w]) && y
                            == class_name(a, rep@, a.finals[w]) by {
                        if exists|w: int|
                            0 <= w < u + 1 && a.states.contains(#[trigger] a.finals[w]) && y
                                == class_name(a, rep@, a.finals[w]) {
                            let w = choose|w: int|
                                0 <= w < u + 1 && a.states.contains(#[trigger] a.finals[w]) && y
                                    == class_name(a, rep@, a.finals[w]);
                            assert(w < u);
                        }
                    }
                }
            },
        }
        u = u + 1;
    }
    let mut transitions: Vec<(u64, char, u64)> = Vec::new();
    let mut u: usize = 0;
    while u < m.transitions.len()
        invariant
            a == m@,
            a.well_formed(),
            is_partition(rep@, a.states.len()),
            u <= a.transitions.len(),
            transitions@.no_duplicates(),
            forall|t: (u64, char, u64)|
                #[trigger] transitions@.contains(t) <==> exists|w: int|
                    0 <= w < u && #[trigger] lifts_to(a, rep@, w, t),
        decreases a.transitions.len() - u,
    {
        let tr = m.transitions[u];
        assert(a.transitions[u as int] == tr);
        let ghost old_tr = transitions@;
        match (find_u64(&m.states, tr.0), find_u64(&m.states, tr.2)) {
            (Some(ks), Some(kd)) => {
                let t = (name_at(m, rep, ks), tr.1, name_at(m, rep, kd));
                if !contains_transition(&transitions, t) {
                    transitions.push(t);
                    assert(transitions@[old_tr.len() as int] == t);
                }
                proof {
                    assert(lifts_to(a, rep@, u as int, t));
                    assert forall|y: (u64, char, u64)| #[trigger] transitions@.contains(y) <==> exists|w: int|
                        0 <= w < u + 1 && #[trigger] lifts_to(a, rep@, w, y) by {
                        if transitions@.contains(y) && y != t {
                            assert(old_tr.contains(y));
                        }
                        if y == t {
                            assert(transitions@.contains(t));
                        }
                        if y != t && exists|w: int| 0 <= w < u + 1 && #[trigger] lifts_to(a, rep@, w, y) {
                            let w = choose|w: int| 0 <= w < u + 1 && #[trigger] lifts_to(a, rep@, w, y);
                            assert(w < u);
                            assert(old_tr.contains(y));
                            let k2 = choose|k2: int| 0 <= k2 < old_tr.len() && old_tr[k2] == y;
                            assert(transitions@[k2] == y);
                        }
                    }
                }
            },
            _ => {
                proof {
                    assert forall|y: (u64, char, u64)| #[trigger] transitions@.contains(y) <==> exists|w: int|
                        0 <= w < u + 1 && #[trigger] lifts_to(a, rep@, w, y) by {
                        if exists|w: int| 0 <= w < u + 1 && #[trigger] lifts_to(a, rep@, w, y) {
                            let w = choose|w: int| 0 <= w < u + 1 && #[trigger] lifts_to(a, rep@, w, y);
                            assert(w < u);
                        }
                    }
                }
            },
        }
        u = u + 1;
    }
    let alphabet = copy_chars(&m.alphabet);
    proof {
        lemma_index_of(a, si as int);
        assert forall|x: u64| #[trigger] finals@.contains(x) <==> lifted_final(a, rep@, x) by {}
        assert forall|t: (u64, char, u64)| #[trigger] transitions@.contains(t) <==> lifted_transition(
            a,
            rep@,
            t,
        ) by {}
    }
    Automaton { states, alphabet, start, finals, transitions }
}

/// Minimises `m`: removes its unreachable states, partitions the rest into
/// equivalence classes, and builds the quotient by that partition.
pub fn minify(m: &Automaton) -> (r: Automaton)
    requires
        m@.well_formed(),
    ensures
        exists|rep: Seq<usize>|
            is_equivalence_partition(pruned(m@), rep) && is_quotient(pruned(m@), rep, r@),
{
    let p = remove_unreachable_states(m);
    proof {
        lemma_pruned_well_formed(m@);
    }
    let rep = get_quotient(&p);
    let r = apply_quotient(&p, &rep);
    assert(is_quotient(pruned(m@), rep@, r@));
    r
}

} // verus!
