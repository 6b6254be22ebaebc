use vstd::prelude::*;
use crate::automaton::{
    Automaton, AutomatonView, contains_u64, edge, find_u64, lemma_index_of, strictly_sorted,
};
use crate::closure::{
    closure, get_relation_matrix, is_square, is_walk, lemma_closure_is_reachability, matrix_view, warshall,
};

verus! {

/// The adjacency matrix of `a` over its ordered states.
pub open spec fn relation_of(a: AutomatonView) -> Seq<Seq<bool>> {
    Seq::new(
        a.states.len(),
        |i: int| Seq::new(a.states.len(), |j: int| edge(a, a.states[i], a.states[j])),
    )
}

/// `q` is a state of `a` that the row of the start state marks in `r`, or is
/// the start state itself.
pub open spec fn marked_reachable(a: AutomatonView, r: Seq<Seq<bool>>, q: u64) -> bool {
    a.states.contains(q) && (q == a.start || r[a.index_of(a.start)][a.index_of(q)])
}

/// `q` is reachable from the start state of `a` through zero or more
/// transitions on symbols of the alphabet or on epsilon.
pub open spec fn reachable(a: AutomatonView, q: u64) -> bool {
    a.states.contains(q) && (q == a.start || closure(
        relation_of(a),
        a.index_of(a.start),
        a.index_of(q),
    ))
}

/// `a` restricted to the states in `keep`: the other states, the final
/// states among them and the transitions leaving them are dropped.
pub open spec fn restricted(a: AutomatonView, keep: Seq<u64>) -> AutomatonView {
    AutomatonView {
        states: a.states.filter(|q: u64| keep.contains(q)),
        alphabet: a.alphabet,
        start: a.start,
        finals: a.finals.filter(|q: u64| keep.contains(q)),
        transitions: a.transitions.filter(|t: (u64, char, u64)| keep.contains(t.0)),
    }
}

/// `a` without its unreachable states.
pub open spec fn pruned(a: AutomatonView) -> AutomatonView {
    AutomatonView {
        states: a.states.filter(|q: u64| reachable(a, q)),
        alphabet: a.alphabet,
        start: a.start,
        finals: a.finals.filter(|q: u64| reachable(a, q)),
        transitions: a.transitions.filter(|t: (u64, char, u64)| reachable(a, t.0)),
    }
}

/// Filtering a prefix one element longer adds that element when it passes.
pub proof fn lemma_filter_step<A>(s: Seq<A>, pred: spec_fn(A) -> bool, i: int)
    requires
        0 <= i < s.len(),
    ensures
        s.take(i + 1).filter(pred) == if pred(s[i]) {
            s.take(i).filter(pred).push(s[i])
        } else {
            s.take(i).filter(pred)
        },
{
    reveal(Seq::filter);
    assert(s.take(i + 1).drop_last() =~= s.take(i));
}

/// Filters agree when their predicates agree on the elements.
pub proof fn lemma_filter_same<A>(s: Seq<A>, p1: spec_fn(A) -> bool, p2: spec_fn(A) -> bool)
    requires
        forall|i: int| 0 <= i < s.len() ==> p1(s[i]) == p2(s[i]),
    ensures
        s.filter(p1) == s.filter(p2),
    decreases s.len(),
{
    reveal(Seq::filter);
    if s.len() > 0 {
        lemma_filter_same(s.drop_last(), p1, p2);
    }
}

/// A filter that every element passes keeps the sequence.
pub proof fn lemma_filter_all<A>(s: Seq<A>, pred: spec_fn(A) -> bool)
    requires
        forall|i: int| 0 <= i < s.len() ==> pred(s[i]),
    ensures
        s.filter(pred) == s,
    decreases s.len(),
{
    reveal(Seq::filter);
    if s.len() > 0 {
        lemma_filter_all(s.drop_last(), pred);
        assert(s.drop_last().push(s.last()) =~= s);
    }
}

/// The states that the closure matrix `r` marks as reachable from the start
/// state, together with the start state, in their natural order.
pub fn get_reachable_states(m: &Automaton, r: &Vec<Vec<bool>>) -> (res: Vec<u64>)
    requires
        m@.well_formed(),
        is_square(matrix_view(r@), m@.states.len()),
    ensures
        res@ == m@.states.filter(|q: u64| marked_reachable(m@, matrix_view(r@), q)),
{
    let ghost rv = matrix_view(r@);
    let ghost pred = |q: u64| marked_reachable(m@, rv, q);
    let n = m.states.len();
    let si = match find_u64(&m.states, m.start) {
        Some(i) => i,
        None => 0,
    };
    proof {
        lemma_index_of(m@, si as int);
        assert(rv[si as int] == r@[si as int]@);
    }
    let mut res: Vec<u64> = Vec::new();
    let mut k: usize = 0;
    while k < n
        invariant
            n == m.states@.len(),
            m@.well_formed(),
            rv == matrix_view(r@),
            is_square(rv, n as nat),
            si < n,
            m@.index_of(m.start) == si,
            rv[si as int] == r@[si as int]@,
            pred == (|q: u64| marked_reachable(m@, rv, q)),
            k <= n,
            res@ == m@.states.take(k as int).filter(pred),
        decreases n - k,
    {
        let q = m.states[k];
        proof {
            lemma_filter_step(m@.states, pred, k as int);
            lemma_index_of(m@, k as int);
            assert(m@.states.contains(q));
        }
        if q == m.start || r[si][k] {
            res.push(q);
        }
        k = k + 1;
    }
    proof {
        assert(m@.states.take(n as int) =~= m@.states);
    }
    res
}

/// Copies `m` without the states outside `keep`, without the final states
/// outside `keep`, and without the transitions whose source is outside
/// `keep`. Transitions that lead out of `keep` stay.
pub fn remove_unreachable_states_with_params(m: &Automaton, keep: &Vec<u64>) -> (r: Automaton)
    ensures
        r@ == restricted(m@, keep@),
{
    let ghost pk = |q: u64| keep@.contains(q);
    let ghost pt = |t: (u64, char, u64)| keep@.contains(t.0);
    let mut states: Vec<u64> = Vec::new();
    let mut i: usize = 0;
    while i < m.states.len()
        invariant
            i <= m.states@.len(),
            pk == (|q: u64| keep@.contains(q)),
            states@ == m@.states.take(i as int).filter(pk),
        decreases m.states@.len() - i,
    {
        proof {
            lemma_filter_step(m@.states, pk, i as int);
        }
        if contains_u64(keep, m.states[i]) {
            states.push(m.states[i]);
        }
        i = i + 1;
    }
    let mut finals: Vec<u64> = Vec::new();
    let mut i: usize = 0;
    while i < m.finals.len()
        invariant
            i <= m.finals@.len(),
            pk == (|q: u64| keep@.contains(q)),
            finals@ == m@.finals.take(i as int).filter(pk),
        decreases m.finals@.len() - i,
    {
        proof {
            lemma_filter_step(m@.finals, pk, i as int);
        }
        if contains_u64(keep, m.finals[i]) {
            finals.push(m.finals[i]);
        }
        i = i + 1;
    }
    let mut transitions: Vec<(u64, char, u64)> = Vec::new();
    let mut i: usize = 0;
    while i < m.transitions.len()
        invariant
            i <= m.transitions@.len(),
            pt == (|t: (u64, char, u64)| keep@.contains(t.0)),
            transitions@ == m@.transitions.take(i as int).filter(pt),
        decreases m.transitions@.len() - i,
    {
        proof {
            lemma_filter_step(m@.transitions, pt, i as int);
        }
        let t = m.transitions[i];
        if contains_u64(keep, t.0) {
            transitions.push(t);
        }
        i = i + 1;
    }
    let alphabet = copy_chars(&m.alphabet);
    proof {
        assert(m@.states.take(m@.states.len() as int) =~= m@.states);
        assert(m@.finals.take(m@.finals.len() as int) =~= m@.finals);
        assert(m@.transitions.take(m@.transitions.len() as int) =~= m@.transitions);
    }
    Automaton { states, alphabet, start: m.start, finals, transitions }
}

/// A copy of a vector of symbols.
pub fn copy_chars(v: &Vec<char>) -> (r: Vec<char>)
    ensures
        r@ == v@,
{
    let mut r: Vec<char> = Vec::new();
    let mut i: usize = 0;
    while i < v.len()
        invariant
            i <= v@.len(),
            r@ == v@.take(i as int),
        decreases v@.len() - i,
    {
        r.push(v[i]);
        proof {
            assert(v@.take(i + 1) =~= v@.take(i as int).push(v@[i as int]));
        }
        i = i + 1;
    }
    proof {
        assert(v@.take(v@.len() as int) =~= v@);
    }
    r
}

/// Removes the states that cannot be reached from the start state, through
/// transitions on symbols of the alphabet or on epsilon, with their final
/// marks and outgoing transitions. The start state always stays.
pub fn remove_unreachable_states(m: &Automaton) -> (r: Automaton)
    requires
        m@.well_formed(),
    ensures
        r@ == pruned(m@),
{
    let rel = get_relation_matrix(m);
    proof {
        assert forall|i: int| 0 <= i < m@.states.len() implies #[trigger] matrix_view(rel@)[i]
            =~= relation_of(m@)[i] by {
            assert(matrix_view(rel@)[i].len() == m@.states.len());
        }
        assert(matrix_view(rel@) =~= relation_of(m@));
    }
    let star = warshall(&rel);
    let keep = get_reachable_states(m, &star);
    let r = remove_unreachable_states_with_params(m, &keep);
    proof {
        let a = m@;
        let rv = matrix_view(star@);
        let pm = |q: u64| marked_reachable(a, rv, q);
        let pr = |q: u64| reachable(a, q);
        let si = a.index_of(a.start);
        assert(exists|i: int| 0 <= i < a.states.len() && a.states[i] == a.start);
        assert forall|q: u64| a.states.contains(q) implies pm(q) == pr(q) by {
            let j = a.index_of(q);
            assert(0 <= j < a.states.len());
            assert(0 <= si < a.states.len());
            assert(rel@.len() == a.states.len());
            assert(matrix_view(rel@) == relation_of(a));
            assert(rv[si][j] == closure(matrix_view(rel@), si, j));
        }
        assert forall|q: u64| keep@.contains(q) <==> pr(q) by {
            broadcast use vstd::seq_lib::group_filter_ensures;

            if keep@.contains(q) {
                let k = choose|k: int| 0 <= k < keep@.len() && keep@[k] == q;
                assert(pm(keep@[k]));
            }
            if pr(q) {
                let k = choose|k: int| 0 <= k < a.states.len() && a.states[k] == q;
                assert(pm(a.states[k]));
            }
        }
        lemma_filter_same(a.states, |q: u64| keep@.contains(q), pr);
        lemma_filter_same(a.finals, |q: u64| keep@.contains(q), pr);
        lemma_filter_same(
            a.transitions,
            |t: (u64, char, u64)| keep@.contains(t.0),
            |t: (u64, char, u64)| reachable(a, t.0),
        );
    }
    r
}

/// A filter keeps a sorted sequence sorted.
pub proof fn lemma_filter_sorted(s: Seq<u64>, pred: spec_fn(u64) -> bool)
    requires
        strictly_sorted(s),
    ensures
        strictly_sorted(s.filter(pred)),
    decreases s.len(),
{
    reveal(Seq::filter);
    if s.len() > 0 {
        let rest = s.drop_last();
        lemma_filter_sorted(rest, pred);
        if pred(s.last()) {
            let f = rest.filter(pred);
            assert forall|i: int| 0 <= i < f.len() implies f[i] < s.last() by {
                assert(f.contains(f[i]));
                rest.lemma_filter_contains_rev(pred, f[i]);
                let k = choose|k: int| 0 <= k < rest.len() && rest[k] == f[i];
                assert(s[k] < s[s.len() - 1]);
            }
        }
    }
}

/// The start state survives pruning: every automaton keeps it, even one
/// whose start state has no outgoing transition.
pub proof fn lemma_pruning_keeps_start(a: AutomatonView)
    requires
        a.well_formed(),
    ensures
        pruned(a).states.contains(a.start),
        pruned(a).start == a.start,
{
    let k = choose|k: int| 0 <= k < a.states.len() && a.states[k] == a.start;
    a.states.lemma_filter_contains(|q: u64| reachable(a, q), k);
}

/// Pruning yields an automaton of the same shape.
pub proof fn lemma_pruned_well_formed(a: AutomatonView)
    requires
        a.well_formed(),
    ensures
        pruned(a).well_formed(),
{
    lemma_filter_sorted(a.states, |q: u64| reachable(a, q));
    a.states.lemma_filter_len(|q: u64| reachable(a, q));
    lemma_pruning_keeps_start(a);
}

/// Pruning an automaton all of whose states are reachable, and whose final
/// states and transition sources are states, gives it back unchanged.
pub proof fn lemma_pruning_idempotent(a: AutomatonView)
    requires
        a.well_formed(),
        forall|i: int| 0 <= i < a.states.len() ==> reachable(a, #[trigger] a.states[i]),
        forall|i: int| 0 <= i < a.finals.len() ==> a.states.contains(#[trigger] a.finals[i]),
        forall|i: int| 0 <= i < a.transitions.len() ==> a.states.contains((#[trigger] a.transitions[i]).0),
    ensures
        pruned(a) == a,
{
    let pr = |q: u64| reachable(a, q);
    lemma_filter_all(a.states, pr);
    assert forall|i: int| 0 <= i < a.finals.len() implies pr(a.finals[i]) by {
        let k = choose|k: int| 0 <= k < a.states.len() && a.states[k] == a.finals[i];
        assert(reachable(a, a.states[k]));
    }
    lemma_filter_all(a.finals, pr);
    let pt = |t: (u64, char, u64)| reachable(a, t.0);
    assert forall|i: int| 0 <= i < a.transitions.len() implies pt(a.transitions[i]) by {
        let k = choose|k: int| 0 <= k < a.states.len() && a.states[k] == a.transitions[i].0;
        assert(reachable(a, a.states[k]));
    }
    lemma_filter_all(a.transitions, pt);
}

/// A state is reachable exactly when it is the start state or some walk of
/// transitions (on symbols of the alphabet or on epsilon) leads to it from
/// the start state.
pub proof fn lemma_reachable_by_walk(a: AutomatonView, q: u64)
    requires
        a.well_formed(),
        a.states.contains(q),
    ensures
        reachable(a, q) <==> (q == a.start || exists|w: Seq<int>|
            is_walk(relation_of(a), w) && w[0] == a.index_of(a.start) && w.last() == a.index_of(q)),
{
    assert(exists|i: int| 0 <= i < a.states.len() && a.states[i] == a.start);
    lemma_closure_is_reachability(relation_of(a), a.index_of(a.start), a.index_of(q));
}

} // verus!
