use vstd::prelude::*;
use crate::automaton::{Automaton, AutomatonView, counts_as_edge, edge, EPSILON};

verus! {

/// The mathematical value of a boolean matrix.
pub open spec fn matrix_view(m: Seq<Vec<bool>>) -> Seq<Seq<bool>> {
    m.map_values(|r: Vec<bool>| r@)
}

/// An `n` by `n` matrix.
pub open spec fn is_square(m: Seq<Seq<bool>>, n: nat) -> bool {
    &&& m.len() == n
    &&& forall|i: int| 0 <= i < n ==> (#[trigger] m[i]).len() == n
}

/// There is a path of length one or more from `i` to `j` in `m` whose
/// intermediate vertices all lie below `k`.
pub open spec fn path_below(m: Seq<Seq<bool>>, k: nat, i: int, j: int) -> bool
    decreases k,
{
    if k == 0 {
        m[i][j]
    } else {
        path_below(m, (k - 1) as nat, i, j) || (path_below(m, (k - 1) as nat, i, k - 1)
            && path_below(m, (k - 1) as nat, k - 1, j))
    }
}

/// The transitive closure of a square matrix: entry `(i, j)` says that some
/// path of length one or more leads from `i` to `j`.
pub open spec fn closure(m: Seq<Seq<bool>>, i: int, j: int) -> bool {
    path_below(m, m.len(), i, j)
}

/// One-step reachability between the states of `a`, in the order of
/// `a.states`.
pub open spec fn is_relation_matrix(a: AutomatonView, r: Seq<Seq<bool>>) -> bool {
    &&& is_square(r, a.states.len())
    &&& forall|i: int, j: int|
        0 <= i < a.states.len() && 0 <= j < a.states.len() ==> (#[trigger] r[i][j] <==> edge(
            a,
            a.states[i],
            a.states[j],
        ))
}

/// Builds the adjacency matrix of `m`: entry `(i, j)` is set when the `j`-th
/// state is a direct successor of the `i`-th on a symbol of the alphabet or
/// on epsilon.
pub fn get_relation_matrix(m: &Automaton) -> (r: Vec<Vec<bool>>)
    ensures
        is_relation_matrix(m@, matrix_view(r@)),
{
    let n = m.states.len();
    let mut matrix: Vec<Vec<bool>> = Vec::new();
    let mut i: usize = 0;
    while i < n
        invariant
            n == m.states@.len(),
            i <= n,
            matrix@.len() == i,
            forall|p: int| 0 <= p < i ==> (#[trigger] matrix@[p])@.len() == n,
            forall|p: int, q: int|
                0 <= p < i && 0 <= q < n ==> (#[trigger] matrix@[p]@[q] <==> edge(
                    m@,
                    m@.states[p],
                    m@.states[q],
                )),
        decreases n - i,
    {
        let mut row: Vec<bool> = Vec::new();
        let mut j: usize = 0;
        while j < n
            invariant
                n == m.states@.len(),
                i < n,
                j <= n,
                row@.len() == j,
                forall|q: int|
                    0 <= q < j ==> (#[trigger] row@[q] <==> edge(m@, m@.states[i as int], m@.states[q])),
            decreases n - j,
        {
            let p = m.states[i];
            let q = m.states[j];
            let mut found = false;
            let mut t: usize = 0;
            while t < m.transitions.len()
                invariant
                    t <= m.transitions@.len(),
                    n == m.states@.len(),
                    i < n,
                    j < n,
                    p == m@.states[i as int],
                    q == m@.states[j as int],
                    found <==> exists|u: int|
                        0 <= u < t && (#[trigger] m@.transitions[u]).0 == p && m@.transitions[u].2 == q
                            && counts_as_edge(m@, m@.transitions[u].1),
                decreases m.transitions@.len() - t,
            {
                let tr = m.transitions[t];
                let hit = tr.0 == p && tr.2 == q && (tr.1 == EPSILON || contains_char(
                    &m.alphabet,
                    tr.1,
                ));
                if hit {
                    found = true;
                }
                proof {
                    if hit {
                        assert(m@.transitions[t as int] == tr);
                    }
                    assert forall|u: int|
                        0 <= u < t + 1 && (#[trigger] m@.transitions[u]).0 == p && m@.transitions[u].2
                            == q && counts_as_edge(m@, m@.transitions[u].1) implies found by {
                        if u == t {
                            assert(hit);
                        }
                    }
                }
                t = t + 1;
            }
            row.push(found);
            j = j + 1;
        }
        matrix.push(row);
        i = i + 1;
    }
    matrix
}

/// Whether `c` is one of the entries of `v`.
pub fn contains_char(v: &Vec<char>, c: char) -> (r: bool)
    ensures
        r == v@.contains(c),
{
    let mut i: usize = 0;
    while i < v.len()
        invariant
            i <= v@.len(),
            forall|k: int| 0 <= k < i ==> v@[k] != c,
        decreases v@.len() - i,
    {
        if v[i] == c {
            return true;
        }
        i = i + 1;
    }
    false
}

/// Transitive closure by Warshall's algorithm: for each intermediate vertex
/// `k` in turn (outermost), entry `(i, j)` is set when `(i, k)` and `(k, j)`
/// are.
pub fn warshall(matrix: &Vec<Vec<bool>>) -> (r: Vec<Vec<bool>>)
    requires
        is_square(matrix_view(matrix@), matrix@.len()),
    ensures
        is_square(matrix_view(r@), matrix@.len()),
        forall|i: int, j: int|
            0 <= i < matrix@.len() && 0 <= j < matrix@.len() ==> (#[trigger] matrix_view(r@)[i][j]
                <==> closure(matrix_view(matrix@), i, j)),
{
    let n = matrix.len();
    let ghost a = matrix_view(matrix@);
    let mut r: Vec<Vec<bool>> = Vec::new();
    let mut i: usize = 0;
    while i < n
        invariant
            n == matrix@.len(),
            a == matrix_view(matrix@),
            is_square(a, n as nat),
            i <= n,
            r@.len() == i,
            forall|p: int| 0 <= p < i ==> (#[trigger] r@[p])@.len() == n,
            forall|p: int, q: int| 0 <= p < i && 0 <= q < n ==> #[trigger] r@[p]@[q] == a[p][q],
        decreases n - i,
    {
        let mut row: Vec<bool> = Vec::new();
        let mut j: usize = 0;
        while j < n
            invariant
                n == matrix@.len(),
                a == matrix_view(matrix@),
                is_square(a, n as nat),
                i < n,
                j <= n,
                row@.len() == j,
                forall|q: int| 0 <= q < j ==> #[trigger] row@[q] == a[i as int][q],
            decreases n - j,
        {
            assert(a[i as int] == matrix@[i as int]@);
            row.push(matrix[i][j]);
            j = j + 1;
        }
        r.push(row);
        i = i + 1;
    }
    let mut k: usize = 0;
    while k < n
        invariant
            n == matrix@.len(),
            a == matrix_view(matrix@),
            a.len() == n,
            k <= n,
            r@.len() == n,
            forall|p: int| 0 <= p < n ==> (#[trigger] r@[p])@.len() == n,
            forall|p: int, q: int|
                0 <= p < n && 0 <= q < n ==> #[trigger] r@[p]@[q] == path_below(a, k as nat, p, q),
        decreases n - k,
    {
        let mut next: Vec<Vec<bool>> = Vec::new();
        let mut i: usize = 0;
        while i < n
            invariant
                n == matrix@.len(),
                a.len() == n,
                k < n,
                i <= n,
                r@.len() == n,
                forall|p: int| 0 <= p < n ==> (#[trigger] r@[p])@.len() == n,
                forall|p: int, q: int|
                    0 <= p < n && 0 <= q < n ==> #[trigger] r@[p]@[q] == path_below(a, k as nat, p, q),
                next@.len() == i,
                forall|p: int| 0 <= p < i ==> (#[trigger] next@[p])@.len() == n,
                forall|p: int, q: int|
                    0 <= p < i && 0 <= q < n ==> #[trigger] next@[p]@[q] == path_below(
                        a,
                        (k + 1) as nat,
                        p,
                        q,
                    ),
            decreases n - i,
        {
            let mut row: Vec<bool> = Vec::new();
            let mut j: usize = 0;
            while j < n
                invariant
                    n == matrix@.len(),
                    a.len() == n,
                    k < n,
                    i < n,
                    j <= n,
                    r@.len() == n,
                    forall|p: int| 0 <= p < n ==> (#[trigger] r@[p])@.len() == n,
                    forall|p: int, q: int|
                        0 <= p < n && 0 <= q < n ==> #[trigger] r@[p]@[q] == path_below(
                            a,
                            k as nat,
                            p,
                            q,
                        ),
                    row@.len() == j,
                    forall|q: int|
                        0 <= q < j ==> #[trigger] row@[q] == path_below(a, (k + 1) as nat, i as int, q),
                decreases n - j,
            {
                let v = r[i][j] || (r[i][k] && r[k][j]);
                row.push(v);
                j = j + 1;
            }
            next.push(row);
            i = i + 1;
        }
        r = next;
        k = k + 1;
    }
    proof {
        assert forall|i: int, j: int|
            0 <= i < n && 0 <= j < n implies #[trigger] matrix_view(r@)[i][j] == closure(a, i, j) by {
            assert(matrix_view(r@)[i] == r@[i]@);
        }
    }
    r
}

/// `w` is a walk in `m` of one step or more: every vertex is an index of
/// `m` and every step is an entry of `m`.
pub open spec fn is_walk(m: Seq<Seq<bool>>, w: Seq<int>) -> bool {
    &&& w.len() >= 2
    &&& forall|p: int| 0 <= p < w.len() ==> 0 <= #[trigger] w[p] < m.len()
    &&& forall|p: int| 0 <= p < w.len() - 1 ==> #[trigger] m[w[p]][w[p + 1]]
}

/// The vertices strictly inside `w` all lie below `k`.
pub open spec fn inner_below(w: Seq<int>, k: int) -> bool {
    forall|p: int| 0 < p < w.len() - 1 ==> #[trigger] w[p] < k
}

/// A path recorded by `path_below` is a walk with its inner vertices below
/// `k`.
proof fn lemma_path_below_walk(m: Seq<Seq<bool>>, k: nat, i: int, j: int)
    requires
        is_square(m, m.len()),
        k <= m.len(),
        0 <= i < m.len(),
        0 <= j < m.len(),
        path_below(m, k, i, j),
    ensures
        exists|w: Seq<int>| is_walk(m, w) && w[0] == i && w.last() == j && inner_below(w, k as int),
    decreases k,
{
    if k == 0 {
        let w = seq![i, j];
        assert(is_walk(m, w) && w[0] == i && w.last() == j && inner_below(w, 0));
    } else {
        let h = (k - 1) as nat;
        if path_below(m, h, i, j) {
            lemma_path_below_walk(m, h, i, j);
            let w = choose|w: Seq<int>| is_walk(m, w) && w[0] == i && w.last() == j && inner_below(w, h as int);
            assert(inner_below(w, k as int));
        } else {
            lemma_path_below_walk(m, h, i, h as int);
            lemma_path_below_walk(m, h, h as int, j);
            let w1 = choose|w: Seq<int>| is_walk(m, w) && w[0] == i && w.last() == h && inner_below(w, h as int);
            let w2 = choose|w: Seq<int>| is_walk(m, w) && w[0] == h && w.last() == j && inner_below(w, h as int);
            let w = w1 + w2.drop_first();
            assert forall|p: int| 0 <= p < w.len() - 1 implies #[trigger] m[w[p]][w[p + 1]] by {
                if p < w1.len() - 1 {
                    assert(m[w1[p]][w1[p + 1]]);
                } else if p == w1.len() - 1 {
                    assert(is_walk(m, w2));
                    assert(m[w2[0]][w2[0int + 1]]);
                    assert(w[p] == w2[0] && w[p + 1] == w2[1]);
                } else {
                    let q = p - w1.len() + 1;
                    assert(m[w2[q]][w2[q + 1]]);
                }
            }
            assert forall|p: int| 0 <= p < w.len() implies 0 <= #[trigger] w[p] < m.len() by {
                if p >= w1.len() {
                    assert(w[p] == w2[p - w1.len() + 1]);
                }
            }
            assert forall|p: int| 0 < p < w.len() - 1 implies #[trigger] w[p] < k by {
                if p >= w1.len() {
                    assert(w[p] == w2[p - w1.len() + 1]);
                }
            }
            assert(is_walk(m, w) && w[0] == i && w.last() == j && inner_below(w, k as int));
        }
    }
}

/// A walk whose inner vertices lie below `k` is recorded by `path_below`.
proof fn lemma_walk_path_below(m: Seq<Seq<bool>>, k: nat, w: Seq<int>)
    requires
        is_square(m, m.len()),
        k <= m.len(),
        is_walk(m, w),
        inner_below(w, k as int),
    ensures
        path_below(m, k, w[0], w.last()),
    decreases k, w.len(),
{
    if k == 0 {
        if w.len() > 2 {
            assert(w[1] < 0);
        }
        assert(m[w[0]][w[0int + 1]]);
    } else {
        let h = (k - 1) as nat;
        if inner_below(w, h as int) {
            lemma_walk_path_below(m, h, w);
        } else {
            let p = choose|p: int| 0 < p < w.len() - 1 && !(#[trigger] w[p] < h);
            assert(w[p] == h);
            let w1 = w.take(p + 1);
            let w2 = w.subrange(p, w.len() as int);
            assert forall|q: int| 0 <= q < w1.len() - 1 implies #[trigger] m[w1[q]][w1[q + 1]] by {
                assert(m[w[q]][w[q + 1]]);
            }
            assert forall|q: int| 0 <= q < w2.len() - 1 implies #[trigger] m[w2[q]][w2[q + 1]] by {
                assert(m[w[q + p]][w[q + p + 1]]);
            }
            assert forall|q: int| 0 <= q < w2.len() implies 0 <= #[trigger] w2[q] < m.len() by {
                assert(w2[q] == w[q + p]);
            }
            assert forall|q: int| 0 < q < w2.len() - 1 implies #[trigger] w2[q] < k by {
                assert(w2[q] == w[q + p]);
            }
            lemma_walk_path_below(m, k, w1);
            lemma_walk_path_below(m, k, w2);
            assert(path_below(m, h, w[0], h as int));
            assert(path_below(m, h, h as int, w.last()));
        }
    }
}

/// The closure marks exactly the pairs joined by a walk: entry `(i, j)` is
/// set when, and only when, some walk of one step or more leads from `i` to
/// `j`.
pub proof fn lemma_closure_is_reachability(m: Seq<Seq<bool>>, i: int, j: int)
    requires
        is_square(m, m.len()),
        0 <= i < m.len(),
        0 <= j < m.len(),
    ensures
        closure(m, i, j) <==> exists|w: Seq<int>| is_walk(m, w) && w[0] == i && w.last() == j,
{
    if closure(m, i, j) {
        lemma_path_below_walk(m, m.len(), i, j);
    }
    if exists|w: Seq<int>| is_walk(m, w) && w[0] == i && w.last() == j {
        let w = choose|w: Seq<int>| is_walk(m, w) && w[0] == i && w.last() == j;
        lemma_walk_path_below(m, m.len(), w);
    }
}

} // verus!
