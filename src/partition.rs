use vstd::prelude::*;
use crate::automaton::{Automaton, AutomatonView, contains_u64, find_u64, lemma_index_of};

verus! {

/// A partition of the states `0..n` (by position): each state points at the
/// smallest member of its class, which points at itself.
pub open spec fn is_partition(rep: Seq<usize>, n: nat) -> bool {
    &&& rep.len() == n
    &&& forall|i: int| 0 <= i < n ==> (#[trigger] rep[i]) <= i && rep[rep[i] as int] == rep[i]
}

/// Where the transitions of one state on one symbol lead, seen through a
/// partition: nowhere, into one class (named by its smallest member), or
/// into no single class.
#[derive(Debug, PartialEq, Eq, Structural)]
pub enum Successors {
    Dead,
    Class(usize),
    Mixed,
}

/// Transition `u` of `a` leaves state `p` on symbol `c`.
pub open spec fn leaves(a: AutomatonView, u: int, p: u64, c: char) -> bool {
    a.transitions[u].0 == p && a.transitions[u].1 == c
}

/// Transition `u` leads to a state of the class `r` of partition `rep`.
pub open spec fn lands_in(a: AutomatonView, rep: Seq<usize>, u: int, r: usize) -> bool {
    a.states.contains(a.transitions[u].2) && rep[a.index_of(a.transitions[u].2)] == r
}

/// Every transition of `p` on `c` leads into the class `r`.
pub open spec fn all_land_in(a: AutomatonView, rep: Seq<usize>, p: u64, c: char, r: usize) -> bool {
    forall|u: int| 0 <= u < a.transitions.len() && #[trigger] leaves(a, u, p, c) ==> lands_in(a, rep, u, r)
}

/// The class, under `rep`, of the set of successors of state `p` on `c`.
pub open spec fn successor_class(a: AutomatonView, rep: Seq<usize>, p: u64, c: char) -> Successors {
    if !(exists|u: int| 0 <= u < a.transitions.len() && #[trigger] leaves(a, u, p, c)) {
        Successors::Dead
    } else if exists|r: usize| all_land_in(a, rep, p, c, r) {
        Successors::Class(choose|r: usize| all_land_in(a, rep, p, c, r))
    } else {
        Successors::Mixed
    }
}

/// States `p` and `q` agree, on every symbol of the alphabet, on the class
/// of their successors, and that class is defined.
pub open spec fn agree(a: AutomatonView, rep: Seq<usize>, p: u64, q: u64) -> bool {
    forall|k: int|
        0 <= k < a.alphabet.len() ==> successor_class(a, rep, p, #[trigger] a.alphabet[k])
            == successor_class(a, rep, q, a.alphabet[k]) && successor_class(a, rep, p, a.alphabet[k])
            != Successors::Mixed
}

/// Computes the class of the successors of state `p` on symbol `c`.
pub fn successors_of(m: &Automaton, rep: &Vec<usize>, p: u64, c: char) -> (s: Successors)
    requires
        m@.well_formed(),
        is_partition(rep@, m@.states.len()),
    ensures
        s == successor_class(m@, rep@, p, c),
{
    let ghost a = m@;
    let nt = m.transitions.len();
    let mut first: usize = 0;
    while first < nt && !(m.transitions[first].0 == p && m.transitions[first].1 == c)
        invariant
            nt == a.transitions.len(),
            a == m@,
            first <= nt,
            forall|u: int| 0 <= u < first ==> !#[trigger] leaves(a, u, p, c),
        decreases nt - first,
    {
        first = first + 1;
    }
    if first == nt {
        return Successors::Dead;
    }
    assert(leaves(a, first as int, p, c));
    let d0 = m.transitions[first].2;
    let r0 = match find_u64(&m.states, d0) {
        None => {
            assert(!exists|r: usize| all_land_in(a, rep@, p, c, r)) by {
                if exists|r: usize| all_land_in(a, rep@, p, c, r) {
                    let r = choose|r: usize| all_land_in(a, rep@, p, c, r);
                    assert(lands_in(a, rep@, first as int, r));
                }
            }
            return Successors::Mixed;
        },
        Some(idx) => {
            proof {
                lemma_index_of(a, idx as int);
            }
            rep[idx]
        },
    };
    assert(lands_in(a, rep@, first as int, r0));
    let mut ok = true;
    let mut t: usize = 0;
    while t < nt
        invariant
            nt == a.transitions.len(),
            a == m@,
            a.well_formed(),
            is_partition(rep@, a.states.len()),
            t <= nt,
            ok <==> forall|u: int|
                0 <= u < t && #[trigger] leaves(a, u, p, c) ==> lands_in(a, rep@, u, r0),
        decreases nt - t,
    {
        let tr = m.transitions[t];
        assert(tr == a.transitions[t as int]);
        if tr.0 == p && tr.1 == c {
            let good = match find_u64(&m.states, tr.2) {
                None => false,
                Some(idx) => {
                    proof {
                        lemma_index_of(a, idx as int);
                        assert(a.states.contains(tr.2));
                        assert(a.index_of(tr.2) == idx);
                    }
                    rep[idx] == r0
                },
            };
            assert(good == lands_in(a, rep@, t as int, r0));
            ok = ok && good;
        }
        proof {
            assert forall|u: int|
                0 <= u < t + 1 && #[trigger] leaves(a, u, p, c) && ok implies lands_in(a, rep@, u, r0) by {
            }
            if !ok {
                if exists|u: int| 0 <= u < t && #[trigger] leaves(a, u, p, c) && !lands_in(a, rep@, u, r0) {
                    let u = choose|u: int|
                        0 <= u < t && #[trigger] leaves(a, u, p, c) && !lands_in(a, rep@, u, r0);
                    assert(leaves(a, u, p, c));
                } else {
                    assert(leaves(a, t as int, p, c) && !lands_in(a, rep@, t as int, r0));
                }
            }
        }
        t = t + 1;
    }
    if ok {
        assert(all_land_in(a, rep@, p, c, r0));
        let ghost r = choose|r: usize| all_land_in(a, rep@, p, c, r);
        assert(lands_in(a, rep@, first as int, r));
        Successors::Class(r0)
    } else {
        assert(!exists|r: usize| all_land_in(a, rep@, p, c, r)) by {
            if exists|r: usize| all_land_in(a, rep@, p, c, r) {
                let r = choose|r: usize| all_land_in(a, rep@, p, c, r);
                assert(lands_in(a, rep@, first as int, r));
                assert(r == r0);
            }
        }
        Successors::Mixed
    }
}

/// Whether states `p` and `q` agree on every symbol of the alphabet.
pub fn agree_on_alphabet(m: &Automaton, rep: &Vec<usize>, p: u64, q: u64) -> (r: bool)
    requires
        m@.well_formed(),
        is_partition(rep@, m@.states.len()),
    ensures
        r == agree(m@, rep@, p, q),
{
    let mut k: usize = 0;
    while k < m.alphabet.len()
        invariant
            m@.well_formed(),
            is_partition(rep@, m@.states.len()),
            k <= m@.alphabet.len(),
            forall|x: int|
                0 <= x < k ==> successor_class(m@, rep@, p, #[trigger] m@.alphabet[x])
                    == successor_class(m@, rep@, q, m@.alphabet[x]) && successor_class(
                    m@,
                    rep@,
                    p,
                    m@.alphabet[x],
                ) != Successors::Mixed,
        decreases m@.alphabet.len() - k,
    {
        let c = m.alphabet[k];
        let sp = successors_of(m, rep, p, c);
        let sq = successors_of(m, rep, q, c);
        let same = match (sp, sq) {
            (Successors::Dead, Successors::Dead) => true,
            (Successors::Class(x), Successors::Class(y)) => x == y,
            _ => false,
        };
        if !same {
            assert(!(successor_class(m@, rep@, p, m@.alphabet[k as int]) == successor_class(
                m@,
                rep@,
                q,
                m@.alphabet[k as int],
            ) && successor_class(m@, rep@, p, m@.alphabet[k as int]) != Successors::Mixed));
            return false;
        }
        k = k + 1;
    }
    true
}

/// In the round that refines `rep` into `next`, state `i` may join the class
/// started by state `j`: `j` starts a class of `next`, lies in the class of
/// `i` under `rep`, and agrees with `i`.
pub open spec fn may_join(a: AutomatonView, rep: Seq<usize>, next: Seq<usize>, j: int, i: int) -> bool {
    &&& next[j] == j
    &&& rep[j] == rep[i]
    &&& agree(a, rep, a.states[j], a.states[i])
}

/// `next` is one refinement round of `rep`: each state, in order, joins the
/// first earlier class of `next` that it may join, or starts a class of its
/// own when there is none.
pub open spec fn refines_once(a: AutomatonView, rep: Seq<usize>, next: Seq<usize>) -> bool {
    &&& next.len() == a.states.len()
    &&& forall|i: int|
        0 <= i < a.states.len() ==> #[trigger] next[i] <= i && (forall|j: int|
            0 <= j < next[i] ==> !may_join(a, rep, next, j, i)) && (next[i] == i || may_join(
            a,
            rep,
            next,
            next[i] as int,
            i,
        ))
}

/// State `i` is final in `a`.
pub open spec fn final_at(a: AutomatonView, i: int) -> bool {
    a.finals.contains(a.states[i])
}

/// The partition respects finality: a class never mixes final and
/// non-final states.
pub open spec fn respects_finality(a: AutomatonView, rep: Seq<usize>) -> bool {
    forall|i: int| 0 <= i < a.states.len() ==> final_at(a, #[trigger] rep[i] as int) == final_at(a, i)
}

/// The coarse split into final and non-final states.
pub open spec fn is_finality_split(a: AutomatonView, rep: Seq<usize>) -> bool {
    &&& rep.len() == a.states.len()
    &&& forall|i: int|
        0 <= i < a.states.len() ==> #[trigger] rep[i] <= i && final_at(a, rep[i] as int) == final_at(a, i)
            && forall|j: int| 0 <= j < rep[i] ==> final_at(a, j) != final_at(a, i)
}

/// A stable partition: every state agrees with the first state of its class.
pub open spec fn is_stable(a: AutomatonView, rep: Seq<usize>) -> bool {
    forall|i: int|
        0 <= i < a.states.len() ==> #[trigger] rep[i] == i || agree(a, rep, a.states[rep[i] as int], a.states[i])
}

/// How far the partition is from the one with singleton classes.
pub open spec fn slack(rep: Seq<usize>, k: int) -> int
    decreases k,
{
    if k <= 0 {
        0
    } else {
        slack(rep, k - 1) + (k - 1 - rep[k - 1])
    }
}

proof fn lemma_slack(rep: Seq<usize>, next: Seq<usize>, k: int)
    requires
        0 <= k <= rep.len(),
        next.len() == rep.len(),
        forall|i: int| 0 <= i < rep.len() ==> rep[i] <= #[trigger] next[i] <= i,
    ensures
        0 <= slack(next, k) <= slack(rep, k),
        (exists|i: int| 0 <= i < k && next[i] != rep[i]) ==> slack(next, k) < slack(rep, k),
    decreases k,
{
    if k > 0 {
        lemma_slack(rep, next, k - 1);
        assert(rep[k - 1] <= next[k - 1] <= k - 1);
        if exists|i: int| 0 <= i < k && next[i] != rep[i] {
            let i = choose|i: int| 0 <= i < k && next[i] != rep[i];
            if i < k - 1 {
                assert(exists|i: int| 0 <= i < k - 1 && next[i] != rep[i]);
            }
        }
    }
}

/// The finality of each state, by position.
fn finality(m: &Automaton) -> (fin: Vec<bool>)
    ensures
        fin@.len() == m@.states.len(),
        forall|i: int| 0 <= i < m@.states.len() ==> #[trigger] fin@[i] == final_at(m@, i),
{
    let mut fin: Vec<bool> = Vec::new();
    let mut i: usize = 0;
    while i < m.states.len()
        invariant
            i <= m@.states.len(),
            fin@.len() == i,
            forall|k: int| 0 <= k < i ==> #[trigger] fin@[k] == final_at(m@, k),
        decreases m@.states.len() - i,
    {
        fin.push(contains_u64(&m.finals, m.states[i]));
        i = i + 1;
    }
    fin
}

/// The base partition: the non-final states and the final states, each
/// class that is not empty.
pub fn finality_split(m: &Automaton) -> (rep: Vec<usize>)
    ensures
        is_finality_split(m@, rep@),
        is_partition(rep@, m@.states.len()),
        respects_finality(m@, rep@),
{
    let fin = finality(m);
    let n = m.states.len();
    let mut rep: Vec<usize> = Vec::new();
    let mut i: usize = 0;
    while i < n
        invariant
            n == m@.states.len(),
            fin@.len() == n,
            forall|k: int| 0 <= k < n ==> #[trigger] fin@[k] == final_at(m@, k),
            i <= n,
            rep@.len() == i,
            forall|p: int|
                0 <= p < i ==> #[trigger] rep@[p] <= p && final_at(m@, rep@[p] as int) == final_at(m@, p)
                    && forall|j: int| 0 <= j < rep@[p] ==> final_at(m@, j) != final_at(m@, p),
        decreases n - i,
    {
        let mut j: usize = 0;
        while fin[j] != fin[i]
            invariant
                n == m@.states.len(),
                fin@.len() == n,
                i < n,
                j <= i,
                forall|k: int| 0 <= k < j ==> fin@[k] != fin@[i as int],
            decreases i - j,
        {
            j = j + 1;
        }
        let ghost before = rep@;
        rep.push(j);
        proof {
            assert forall|p: int| 0 <= p < i + 1 implies #[trigger] rep@[p] <= p && final_at(
                m@,
                rep@[p] as int,
            ) == final_at(m@, p) && forall|j2: int|
                0 <= j2 < rep@[p] ==> final_at(m@, j2) != final_at(m@, p) by {
                if p < i {
                    assert(rep@[p] == before[p]);
                } else {
                    assert(fin@[j as int] == fin@[i as int]);
                    assert forall|j2: int| 0 <= j2 < rep@[p] implies final_at(m@, j2) != final_at(m@, p) by {
                        assert(fin@[j2] != fin@[i as int]);
                    }
                }
            }
        }
        i = i + 1;
    }
    proof {
        assert forall|i: int| 0 <= i < n implies (#[trigger] rep@[i]) <= i && rep@[rep@[i] as int]
            == rep@[i] by {
            let r = rep@[i] as int;
            if rep@[r] < r {
                assert(final_at(m@, rep@[r] as int) != final_at(m@, i));
            }
        }
    }
    rep
}

/// One refinement round: each state, in order, joins the first earlier
/// class that lies in its class under `rep` and agrees with it on every
/// symbol, or starts a class of its own.
pub fn refine_once(m: &Automaton, rep: &Vec<usize>) -> (next: Vec<usize>)
    requires
        m@.well_formed(),
        is_partition(rep@, m@.states.len()),
    ensures
        refines_once(m@, rep@, next@),
        is_partition(next@, m@.states.len()),
        forall|i: int| 0 <= i < m@.states.len() ==> rep@[#[trigger] next@[i] as int] == rep@[i],
{
    let n = m.states.len();
    let mut next: Vec<usize> = Vec::new();
    let mut i: usize = 0;
    while i < n
        invariant
            n == m@.states.len(),
            m@.well_formed(),
            is_partition(rep@, n as nat),
            i <= n,
            next@.len() == i,
            forall|p: int|
                0 <= p < i ==> #[trigger] next@[p] <= p && next@[next@[p] as int] == next@[p]
                    && rep@[next@[p] as int] == rep@[p] && (forall|j: int|
                    0 <= j < next@[p] ==> !may_join(m@, rep@, next@, j, p)) && (next@[p] == p
                    || may_join(m@, rep@, next@, next@[p] as int, p)),
        decreases n - i,
    {
        let mut j: usize = 0;
        let mut found = false;
        while j < i && !found
            invariant
                n == m@.states.len(),
                m@.well_formed(),
                is_partition(rep@, n as nat),
                i < n,
                j <= i,
                next@.len() == i,
                found ==> j < i && may_join(m@, rep@, next@.push(j), j as int, i as int),
                forall|k: int| 0 <= k < j ==> !may_join(m@, rep@, next@.push(i), k, i as int),
            decreases i - j + (if found { 0int } else { 1 }),
        {
            if next[j] == j && rep[j] == rep[i] && agree_on_alphabet(m, rep, m.states[j], m.states[i]) {
                found = true;
            } else {
                j = j + 1;
            }
        }
        let target = if found { j } else { i };
        let ghost before = next@;
        next.push(target);
        proof {
            assert forall|p: int| 0 <= p < i implies #[trigger] next@[p] == before[p] by {}
            assert forall|j2: int, p: int| 0 <= j2 < i && 0 <= p <= i implies
                may_join(m@, rep@, next@, j2, p) == may_join(m@, rep@, before.push(i), j2, p) by {}
            assert forall|j2: int, p: int| 0 <= j2 <= p < i implies
                may_join(m@, rep@, next@, j2, p) == may_join(m@, rep@, before, j2, p) by {}
            if found {
                assert(may_join(m@, rep@, before.push(j), j as int, i as int));
            }
            assert forall|p: int| 0 <= p < i + 1 implies #[trigger] next@[p] <= p && next@[next@[p] as int]
                == next@[p] && rep@[next@[p] as int] == rep@[p] && (forall|j2: int|
                0 <= j2 < next@[p] ==> !may_join(m@, rep@, next@, j2, p)) && (next@[p] == p
                || may_join(m@, rep@, next@, next@[p] as int, p)) by {
                if p < i {
                    assert(next@[p] == before[p]);
                    assert(next@[before[p] as int] == before[before[p] as int]);
                    assert forall|j2: int| 0 <= j2 < next@[p] implies !may_join(m@, rep@, next@, j2, p) by {
                        assert(!may_join(m@, rep@, before, j2, p));
                    }
                    if next@[p] != p {
                        assert(may_join(m@, rep@, before, before[p] as int, p));
                    }
                } else {
                    assert forall|j2: int| 0 <= j2 < next@[p] implies !may_join(m@, rep@, next@, j2, p) by {
                        assert(!may_join(m@, rep@, before.push(i), j2, i as int));
                    }
                    if found {
                        assert(before.push(j)[j as int] == j);
                        assert(next@[j as int] == j);
                        assert(may_join(m@, rep@, next@, j as int, p));
                    }
                }
            }
        }
        i = i + 1;
    }
    next
}

/// `c` lists the partitions that refinement goes through: the split by
/// finality first, then each one a refinement round of the one before.
pub open spec fn is_refinement_chain(a: AutomatonView, c: Seq<Seq<usize>>) -> bool {
    &&& c.len() >= 1
    &&& is_finality_split(a, c[0])
    &&& forall|t: int| 0 <= t < c.len() - 1 ==> refines_once(a, #[trigger] c[t], c[t + 1])
}

/// `rep` is the partition into equivalence classes: the first partition of
/// the refinement chain that a further round leaves unchanged.
pub open spec fn is_equivalence_partition(a: AutomatonView, rep: Seq<usize>) -> bool {
    &&& is_partition(rep, a.states.len())
    &&& respects_finality(a, rep)
    &&& refines_once(a, rep, rep)
    &&& exists|c: Seq<Seq<usize>>|
        is_refinement_chain(a, c) && c.last() == rep && forall|t: int|
            0 <= t < c.len() - 1 ==> #[trigger] c[t] != c[t + 1]
}

/// Whether two partitions are equal.
fn same_partition(a: &Vec<usize>, b: &Vec<usize>) -> (r: bool)
    ensures
        r == (a@ == b@),
{
    if a.len() != b.len() {
        return false;
    }
    let mut i: usize = 0;
    while i < a.len()
        invariant
            a@.len() == b@.len(),
            i <= a@.len(),
            forall|k: int| 0 <= k < i ==> a@[k] == b@[k],
        decreases a@.len() - i,
    {
        if a[i] != b[i] {
            return false;
        }
        i = i + 1;
    }
    assert(a@ =~= b@);
    true
}

/// The partition of the states of `m` into equivalence classes: starting
/// from the split into final and non-final states, refinement rounds repeat
/// until a round leaves the partition as it was. States agree when, on every
/// symbol of the alphabet (epsilon left out), their successors lie in one
/// and the same class.
pub fn get_quotient(m: &Automaton) -> (rep: Vec<usize>)
    requires
        m@.well_formed(),
    ensures
        is_equivalence_partition(m@, rep@),
{
    let n = m.states.len();
    let mut rep = finality_split(m);
    let mut done = false;
    let ghost mut chain: Seq<Seq<usize>> = seq![rep@];
    while !done
        invariant
            n == m@.states.len(),
            m@.well_formed(),
            is_refinement_chain(m@, chain),
            chain.last() == rep@,
            forall|t: int| 0 <= t < chain.len() - 1 ==> #[trigger] chain[t] != chain[t + 1],
            is_partition(rep@, n as nat),
            respects_finality(m@, rep@),
            done ==> refines_once(m@, rep@, rep@),
        decreases slack(rep@, n as int) + (if done { 0int } else { 1 }),
    {
        let next = refine_once(m, &rep);
        proof {
            assert forall|i: int| 0 <= i < n implies rep@[i] <= #[trigger] next@[i] <= i by {
                assert(rep@[next@[i] as int] == rep@[i]);
            }
            lemma_slack(rep@, next@, n as int);
        }
        if same_partition(&next, &rep) {
            done = true;
        } else {
            proof {
                if forall|i: int| 0 <= i < n ==> next@[i] == rep@[i] {
                    assert(next@ =~= rep@);
                }
                assert forall|i: int| 0 <= i < n implies final_at(m@, #[trigger] next@[i] as int)
                    == final_at(m@, i) by {
                    assert(rep@[next@[i] as int] == rep@[i]);
                    assert(final_at(m@, rep@[next@[i] as int] as int) == final_at(m@, next@[i] as int));
                }
            }
            proof {
                let c2 = chain.push(next@);
                assert forall|t: int| 0 <= t < c2.len() - 1 implies refines_once(m@, #[trigger] c2[t], c2[t + 1]) by {
                    if t < chain.len() - 1 {
                        assert(c2[t] == chain[t] && c2[t + 1] == chain[t + 1]);
                    }
                }
                assert forall|t: int| 0 <= t < c2.len() - 1 implies #[trigger] c2[t] != c2[t + 1] by {
                    if t < chain.len() - 1 {
                        assert(c2[t] == chain[t] && c2[t + 1] == chain[t + 1]);
                    }
                }
                chain = c2;
            }
            rep = next;
        }
    }
    rep
}

/// A partition that one more refinement round leaves unchanged is stable:
/// every state agrees with the first state of its class, under that same
/// partition.
pub proof fn lemma_fixed_point_is_stable(a: AutomatonView, rep: Seq<usize>)
    requires
        refines_once(a, rep, rep),
    ensures
        is_stable(a, rep),
{
    assert forall|i: int| 0 <= i < a.states.len() implies #[trigger] rep[i] == i || agree(
        a,
        rep,
        a.states[rep[i] as int],
        a.states[i],
    ) by {
        if rep[i] != i {
            assert(may_join(a, rep, rep, rep[i] as int, i));
        }
    }
}

/// A refinement round has one outcome: two results of refining the same
/// partition are equal.
pub proof fn lemma_refinement_deterministic(a: AutomatonView, rep: Seq<usize>, n1: Seq<usize>, n2: Seq<usize>)
    requires
        refines_once(a, rep, n1),
        refines_once(a, rep, n2),
    ensures
        n1 == n2,
{
    lemma_refinement_prefix(a, rep, n1, n2, a.states.len() as int);
    assert(n1 =~= n2);
}

proof fn lemma_refinement_prefix(a: AutomatonView, rep: Seq<usize>, n1: Seq<usize>, n2: Seq<usize>, i: int)
    requires
        refines_once(a, rep, n1),
        refines_once(a, rep, n2),
        0 <= i <= a.states.len(),
    ensures
        forall|k: int| 0 <= k < i ==> n1[k] == n2[k],
    decreases i,
{
    if i > 0 {
        let p = i - 1;
        lemma_refinement_prefix(a, rep, n1, n2, p);
        assert forall|j: int| 0 <= j < p implies may_join(a, rep, n1, j, p) == may_join(a, rep, n2, j, p) by {
            assert(n1[j] == n2[j]);
        }
        let x = n1[p] as int;
        let y = n2[p] as int;
        if x < y {
            assert(may_join(a, rep, n1, x, p));
            assert(!may_join(a, rep, n2, x, p));
        } else if y < x {
            assert(may_join(a, rep, n2, y, p));
            assert(!may_join(a, rep, n1, y, p));
        }
    }
}

/// The split by finality has one outcome.
pub proof fn lemma_finality_split_unique(a: AutomatonView, r1: Seq<usize>, r2: Seq<usize>)
    requires
        is_finality_split(a, r1),
        is_finality_split(a, r2),
    ensures
        r1 == r2,
{
    assert forall|i: int| 0 <= i < a.states.len() implies r1[i] == r2[i] by {
        if r1[i] < r2[i] {
            assert(final_at(a, r1[i] as int) != final_at(a, i));
        } else if r2[i] < r1[i] {
            assert(final_at(a, r2[i] as int) != final_at(a, i));
        }
    }
    assert(r1 =~= r2);
}

proof fn lemma_chains_agree(a: AutomatonView, c1: Seq<Seq<usize>>, c2: Seq<Seq<usize>>, t: int)
    requires
        is_refinement_chain(a, c1),
        is_refinement_chain(a, c2),
        0 <= t < c1.len(),
        t < c2.len(),
    ensures
        c1[t] == c2[t],
    decreases t,
{
    if t == 0 {
        lemma_finality_split_unique(a, c1[0], c2[0]);
    } else {
        lemma_chains_agree(a, c1, c2, t - 1);
        assert(refines_once(a, c1[t - 1], c1[t]));
        assert(refines_once(a, c2[t - 1], c2[t]));
        lemma_refinement_deterministic(a, c1[t - 1], c1[t], c2[t]);
    }
}

/// The partition into equivalence classes is unique.
pub proof fn lemma_equivalence_partition_unique(a: AutomatonView, r1: Seq<usize>, r2: Seq<usize>)
    requires
        is_equivalence_partition(a, r1),
        is_equivalence_partition(a, r2),
    ensures
        r1 == r2,
{
    let c1 = choose|c: Seq<Seq<usize>>|
        is_refinement_chain(a, c) && c.last() == r1 && forall|t: int|
            0 <= t < c.len() - 1 ==> #[trigger] c[t] != c[t + 1];
    let c2 = choose|c: Seq<Seq<usize>>|
        is_refinement_chain(a, c) && c.last() == r2 && forall|t: int|
            0 <= t < c.len() - 1 ==> #[trigger] c[t] != c[t + 1];
    if c1.len() < c2.len() {
        let t = c1.len() - 1;
        lemma_chains_agree(a, c1, c2, t);
        assert(refines_once(a, c2[t], c2[t + 1]));
        lemma_refinement_deterministic(a, r1, r1, c2[t + 1]);
        assert(c2[t] != c2[t + 1]);
    } else if c2.len() < c1.len() {
        let t = c2.len() - 1;
        lemma_chains_agree(a, c1, c2, t);
        assert(refines_once(a, c1[t], c1[t + 1]));
        lemma_refinement_deterministic(a, r2, r2, c1[t + 1]);
        assert(c1[t] != c1[t + 1]);
    } else {
        lemma_chains_agree(a, c1, c2, c1.len() - 1);
    }
}

} // verus!
