use vstd::prelude::*;

verus! {

/// The reserved symbol that labels an epsilon transition. It never belongs
/// to an alphabet.
pub const EPSILON: char = 'λ';

/// A finite automaton over `u64` state labels.
///
/// `states` lists the states in strictly increasing order (their natural
/// order); `transitions` holds triples `(source, symbol, destination)`, where
/// the symbol is drawn from `alphabet` or is `EPSILON`.
#[derive(Debug, PartialEq, Eq)]
pub struct Automaton {
    pub states: Vec<u64>,
    pub alphabet: Vec<char>,
    pub start: u64,
    pub finals: Vec<u64>,
    pub transitions: Vec<(u64, char, u64)>,
}

/// The mathematical value of an automaton: the sequences its vectors hold.
pub struct AutomatonView {
    pub states: Seq<u64>,
    pub alphabet: Seq<char>,
    pub start: u64,
    pub finals: Seq<u64>,
    pub transitions: Seq<(u64, char, u64)>,
}

impl View for Automaton {
    type V = AutomatonView;

    open spec fn view(&self) -> AutomatonView {
        AutomatonView {
            states: self.states@,
            alphabet: self.alphabet@,
            start: self.start,
            finals: self.finals@,
            transitions: self.transitions@,
        }
    }
}

/// A sequence of labels in strictly increasing order.
pub open spec fn strictly_sorted(s: Seq<u64>) -> bool {
    forall|i: int, j: int| 0 <= i < j < s.len() ==> s[i] < s[j]
}

/// A symbol that counts as an edge: one of the alphabet, or epsilon.
pub open spec fn counts_as_edge(a: AutomatonView, c: char) -> bool {
    a.alphabet.contains(c) || c == EPSILON
}

/// State `q` is a direct successor of state `p` on some symbol of the
/// alphabet or on epsilon.
pub open spec fn edge(a: AutomatonView, p: u64, q: u64) -> bool {
    exists|t: int|
        0 <= t < a.transitions.len() && (#[trigger] a.transitions[t]).0 == p
            && a.transitions[t].2 == q && counts_as_edge(a, a.transitions[t].1)
}

impl AutomatonView {
    /// The shape every algorithm here relies on: states in their natural
    /// order and a start state among them.
    pub open spec fn well_formed(self) -> bool {
        &&& strictly_sorted(self.states)
        &&& self.states.contains(self.start)
        &&& self.states.len() < usize::MAX
    }

    /// The position of state `q` in the ordered state list.
    pub open spec fn index_of(self, q: u64) -> int {
        choose|i: int| 0 <= i < self.states.len() && self.states[i] == q
    }
}

/// Position of `x` in `v`, if it is there.
pub fn find_u64(v: &Vec<u64>, x: u64) -> (r: Option<usize>)
    ensures
        match r {
            Some(i) => i < v@.len() && v@[i as int] == x,
            None => !v@.contains(x),
        },
        r.is_some() <==> v@.contains(x),
{
    let mut i: usize = 0;
    while i < v.len()
        invariant
            i <= v@.len(),
            forall|k: int| 0 <= k < i ==> v@[k] != x,
        decreases v@.len() - i,
    {
        if v[i] == x {
            return Some(i);
        }
        i = i + 1;
    }
    None
}

/// Whether `x` is one of the entries of `v`.
pub fn contains_u64(v: &Vec<u64>, x: u64) -> (r: bool)
    ensures
        r == v@.contains(x),
{
    find_u64(v, x).is_some()
}

/// In a strictly sorted sequence a label has one position.
pub proof fn lemma_sorted_unique(s: Seq<u64>, i: int, j: int)
    requires
        strictly_sorted(s),
        0 <= i < s.len(),
        0 <= j < s.len(),
        s[i] == s[j],
    ensures
        i == j,
{
    if i < j {
        assert(s[i] < s[j]);
    } else if j < i {
        assert(s[j] < s[i]);
    }
}

/// `index_of` picks the one position that holds a state.
pub proof fn lemma_index_of(a: AutomatonView, i: int)
    requires
        strictly_sorted(a.states),
        0 <= i < a.states.len(),
    ensures
        a.index_of(a.states[i]) == i,
{
    let q = a.states[i];
    assert(exists|k: int| 0 <= k < a.states.len() && a.states[k] == q);
    let j = a.index_of(q);
    lemma_sorted_unique(a.states, i, j);
}

} // verus!
