//! Epsilon closures and the direct-transition table of an automaton.

use vstd::prelude::*;

use crate::matrix::{Matrix, INVALID};
use crate::alphabet::is_column_of;
use crate::nfa::{
    closure, direct, eps_edge, eps_path, first_target, lemma_direct_any_symbol, num_states, Nfa,
    Transition,
};

verus! {

/// The states marked in a membership vector.
pub open spec fn bset(v: Seq<bool>) -> Set<int> {
    Set::new(|x: int| 0 <= x < v.len() && v[x])
}

/// The states listed in `v`.
pub open spec fn state_set(v: Seq<usize>) -> Set<int> {
    Set::new(|x: int| exists|i: int| 0 <= i < v.len() && v[i] as int == x)
}

/// `v` lists states in strictly increasing order, all below `n`.
pub open spec fn canonical(v: Seq<usize>, n: int) -> bool {
    &&& forall|i: int, j: int| 0 <= i < j < v.len() ==> v[i] < v[j]
    &&& forall|i: int| 0 <= i < v.len() ==> v[i] < n
}

/// The number of marked entries.
pub open spec fn count_true(v: Seq<bool>) -> nat
    decreases v.len(),
{
    if v.len() == 0 {
        0
    } else {
        count_true(v.drop_last()) + if v.last() {
            1nat
        } else {
            0nat
        }
    }
}

proof fn lemma_count_true_bound(v: Seq<bool>)
    ensures
        count_true(v) <= v.len(),
    decreases v.len(),
{
    if v.len() > 0 {
        lemma_count_true_bound(v.drop_last());
    }
}

proof fn lemma_count_true_mark(v: Seq<bool>, i: int)
    requires
        0 <= i < v.len(),
        !v[i],
    ensures
        count_true(v.update(i, true)) == count_true(v) + 1,
    decreases v.len(),
{
    let w = v.update(i, true);
    if i == v.len() - 1 {
        assert(w.drop_last() =~= v.drop_last());
    } else {
        assert(w.drop_last() =~= v.drop_last().update(i, true));
        lemma_count_true_mark(v.drop_last(), i);
    }
}

/// Every state on an epsilon path from `root` lies in a vector that holds `root` and is
/// closed under epsilon links.
proof fn lemma_closed_holds_paths(nfa: &Nfa, root: int, v: Seq<bool>, b: int, k: nat)
    requires
        v.len() == num_states(nfa),
        0 <= root < v.len(),
        v[root],
        forall|x: int, y: int| 0 <= x < v.len() && v[x] && #[trigger] eps_edge(nfa, x, y) ==> v[y],
        eps_path(nfa, root, b, k),
    ensures
        0 <= b < v.len(),
        v[b],
    decreases k,
{
    if k > 0 {
        let m = choose|m: int| eps_path(nfa, root, m, (k - 1) as nat) && #[trigger] eps_edge(nfa, m, b);
        lemma_closed_holds_paths(nfa, root, v, m, (k - 1) as nat);
    }
}

/// The closure of a state lies among the automaton's states.
pub proof fn lemma_closure_in_range(nfa: &Nfa, a: int)
    requires
        0 <= a < num_states(nfa),
    ensures
        forall|b: int| #[trigger] closure(nfa, a).contains(b) ==> 0 <= b < num_states(nfa),
        closure(nfa, a).contains(a),
{
    let full = Seq::new(num_states(nfa) as nat, |i: int| true);
    assert forall|b: int| #[trigger] closure(nfa, a).contains(b) implies 0 <= b < num_states(nfa) by {
        let k = choose|k: nat| #[trigger] eps_path(nfa, a, b, k);
        lemma_closed_holds_paths(nfa, a, full, b, k);
    }
    assert(eps_path(nfa, a, a, 0));
}

/// The membership vector of the epsilon closure of `root`, found with an explicit worklist.
fn closure_flags(nfa: &Nfa, root: usize) -> (vis: Vec<bool>)
    requires
        nfa.wf(),
        root < nfa.states@.len(),
    ensures
        vis@.len() == nfa.states@.len(),
        bset(vis@) == closure(nfa, root as int),
{
    let n = nfa.states.len();
    let mut vis: Vec<bool> = vec![false; n];
    let mut stack: Vec<usize> = Vec::new();
    proof {
        assert(count_true(vis@) == 0) by {
            lemma_count_false(n as nat);
            assert(vis@ =~= Seq::new(n as nat, |i: int| false));
        }
        lemma_count_true_mark(vis@, root as int);
        assert(eps_path(nfa, root as int, root as int, 0));
    }
    vis.set(root, true);
    stack.push(root);
    proof {
        assert forall|x: int, y: int|
            0 <= x < n && vis@[x] && !stack@.contains(x as usize) && #[trigger] eps_edge(nfa, x, y)
                implies vis@[y] by {
            assert(stack@[0] == root);
        }
    }
    while stack.len() > 0
        invariant
            nfa.wf(),
            n == nfa.states@.len(),
            root < n,
            vis@.len() == n,
            vis@[root as int],
            forall|i: int| 0 <= i < stack@.len() ==> #[trigger] stack@[i] < n && vis@[stack@[i] as int],
            forall|x: int|
                0 <= x < n && #[trigger] vis@[x] ==> exists|k: nat| eps_path(nfa, root as int, x, k),
            forall|x: int, y: int|
                0 <= x < n && vis@[x] && !stack@.contains(x as usize) && #[trigger] eps_edge(nfa, x, y)
                    ==> vis@[y],
            count_true(vis@) <= n,
        decreases 2 * (n - count_true(vis@)) + stack@.len(),
    {
        let ghost measure = 2 * (n - count_true(vis@)) + stack@.len();
        let ghost stack_full = stack@;
        let t = stack.pop().unwrap();
        proof {
            assert(stack_full == stack@.push(t));
            assert forall|x: int, y: int|
                0 <= x < n && x != t && vis@[x] && !stack@.contains(x as usize) && #[trigger] eps_edge(
                    nfa,
                    x,
                    y,
                ) implies vis@[y] by {
                if stack_full.contains(x as usize) {
                    let i = choose|i: int| 0 <= i < stack_full.len() && stack_full[i] == x as usize;
                    if i < stack@.len() {
                        assert(stack@[i] == stack_full[i]);
                    }
                }
            }
        }
        let links = &nfa.states[t].epsilon_links;
        let mut j: usize = 0;
        while j < links.len()
            invariant
                nfa.wf(),
                n == nfa.states@.len(),
                root < n,
                t < n,
                links == nfa.states@[t as int].epsilon_links,
                0 <= j <= links@.len(),
                vis@.len() == n,
                vis@[root as int],
                vis@[t as int],
                forall|i: int| 0 <= i < stack@.len() ==> #[trigger] stack@[i] < n && vis@[stack@[i] as int],
                forall|x: int|
                    0 <= x < n && #[trigger] vis@[x] ==> exists|k: nat| eps_path(nfa, root as int, x, k),
                forall|x: int, y: int|
                    0 <= x < n && x != t && vis@[x] && !stack@.contains(x as usize) && #[trigger] eps_edge(
                        nfa,
                        x,
                        y,
                    ) ==> vis@[y],
                forall|i: int| 0 <= i < j ==> vis@[#[trigger] links@[i] as int],
                count_true(vis@) <= n,
                2 * (n - count_true(vis@)) + stack@.len() < measure,
            decreases links@.len() - j,
        {
            let e = links[j];
            assert(e < n);
            if !vis[e] {
                let ghost stack_before = stack@;
                let ghost vis_before = vis@;
                proof {
                    let k = choose|k: nat| eps_path(nfa, root as int, t as int, k);
                    assert(links@.contains(e));
                    assert(eps_edge(nfa, t as int, e as int));
                    assert(eps_path(nfa, root as int, e as int, k + 1));
                    lemma_count_true_mark(vis@, e as int);
                    lemma_count_true_bound(vis@.update(e as int, true));
                }
                vis.set(e, true);
                stack.push(e);
                proof {
                    assert forall|x: int, y: int|
                        0 <= x < n && x != t && vis@[x] && !stack@.contains(x as usize)
                            && #[trigger] eps_edge(nfa, x, y) implies vis@[y] by {
                        assert(stack@[stack@.len() - 1] == e);
                        assert(stack@ == stack_before.push(e));
                        if x != e {
                            assert(vis_before[x]);
                            if stack_before.contains(x as usize) {
                                let i = choose|i: int|
                                    0 <= i < stack_before.len() && stack_before[i] == x as usize;
                                assert(stack@[i] == stack_before[i]);
                            }
                            assert(vis_before[y]);
                        }
                    }
                }
            }
            j = j + 1;
        }
        proof {
            assert forall|x: int, y: int|
                0 <= x < n && vis@[x] && !stack@.contains(x as usize) && #[trigger] eps_edge(nfa, x, y)
                    implies vis@[y] by {
                if x == t {
                    let i = choose|i: int| 0 <= i < links@.len() && links@[i] == y as usize;
                    assert(vis@[links@[i] as int]);
                }
            }
        }
    }
    proof {
        assert forall|x: int, y: int| 0 <= x < n && vis@[x] && #[trigger] eps_edge(nfa, x, y) implies vis@[y] by {
            assert(!stack@.contains(x as usize));
        }
        assert forall|b: int| closure(nfa, root as int).contains(b) implies bset(vis@).contains(b) by {
            let k = choose|k: nat| #[trigger] eps_path(nfa, root as int, b, k);
            lemma_closed_holds_paths(nfa, root as int, vis@, b, k);
        }
        assert forall|b: int| bset(vis@).contains(b) implies closure(nfa, root as int).contains(b) by {
            assert(vis@[b]);
        }
        assert(bset(vis@) =~= closure(nfa, root as int));
    }
    vis
}

proof fn lemma_count_false(m: nat)
    ensures
        count_true(Seq::new(m, |i: int| false)) == 0,
    decreases m,
{
    if m > 0 {
        assert(Seq::new(m, |i: int| false).drop_last() =~= Seq::new((m - 1) as nat, |i: int| false));
        lemma_count_false((m - 1) as nat);
    }
}

/// The marked positions of `v`, in increasing order.
pub fn members(v: &Vec<bool>) -> (r: Vec<usize>)
    ensures
        canonical(r@, v@.len() as int),
        state_set(r@) == bset(v@),
{
    let mut r: Vec<usize> = Vec::new();
    let mut i: usize = 0;
    while i < v.len()
        invariant
            0 <= i <= v@.len(),
            canonical(r@, i as int),
            state_set(r@) == Set::new(|x: int| 0 <= x < i && v@[x]),
        decreases v@.len() - i,
    {
        let ghost before = r@;
        if v[i] {
            r.push(i);
        }
        proof {
            assert(state_set(r@) =~= Set::new(|x: int| 0 <= x < i + 1 && v@[x])) by {
                assert forall|x: int| Set::new(|x: int| 0 <= x < i + 1 && v@[x]).contains(x) implies state_set(
                    r@,
                ).contains(x) by {
                    if x < i {
                        assert(state_set(before).contains(x));
                        let k = choose|k: int| 0 <= k < before.len() && before[k] as int == x;
                        assert(r@[k] == before[k]);
                    } else {
                        assert(r@[r@.len() - 1] == i);
                    }
                }
                assert forall|x: int| state_set(r@).contains(x) implies Set::new(
                    |x: int| 0 <= x < i + 1 && v@[x],
                ).contains(x) by {
                    let k = choose|k: int| 0 <= k < r@.len() && r@[k] as int == x;
                    if k < before.len() {
                        assert(before[k] == r@[k]);
                        assert(state_set(before).contains(x));
                    }
                }
            }
        }
        i = i + 1;
    }
    proof {
        assert(state_set(r@) =~= bset(v@));
    }
    r
}

/// For every state, the states reachable from it along epsilon links, itself included,
/// listed in increasing order.
pub fn eps_matrix(nfa: &Nfa) -> (r: Vec<Vec<usize>>)
    requires
        nfa.wf(),
    ensures
        r@.len() == nfa.states@.len(),
        forall|s: int|
            0 <= s < r@.len() ==> {
                &&& canonical(#[trigger] r@[s]@, num_states(nfa))
                &&& state_set(r@[s]@) == closure(nfa, s)
            },
{
    let n = nfa.states.len();
    let mut r: Vec<Vec<usize>> = Vec::new();
    let mut s: usize = 0;
    while s < n
        invariant
            nfa.wf(),
            n == nfa.states@.len(),
            0 <= s <= n,
            r@.len() == s,
            forall|q: int|
                0 <= q < s ==> {
                    &&& canonical(#[trigger] r@[q]@, n as int)
                    &&& state_set(r@[q]@) == closure(nfa, q)
                },
        decreases n - s,
    {
        let flags = closure_flags(nfa, s);
        let list = members(&flags);
        r.push(list);
        s = s + 1;
    }
    r
}

/// The target of the first transition in `links` whose range holds `sym`, or `INVALID`.
fn find_target(links: &Vec<Transition>, sym: u32) -> (r: usize)
    ensures
        r == first_target(links@, sym),
{
    let mut i: usize = 0;
    assert(links@.subrange(0, links@.len() as int) =~= links@);
    while i < links.len()
        invariant
            0 <= i <= links@.len(),
            first_target(links@, sym) == first_target(links@.subrange(i as int, links@.len() as int), sym),
        decreases links@.len() - i,
    {
        let ghost rest = links@.subrange(i as int, links@.len() as int);
        assert(rest.drop_first() =~= links@.subrange(i + 1, links@.len() as int));
        if links[i].start <= sym && sym <= links[i].end {
            return links[i].target;
        }
        i = i + 1;
    }
    assert(links@.subrange(i as int, links@.len() as int).len() == 0);
    INVALID
}

/// The table `(state, column) -> state` of the automaton, ignoring epsilon links.
pub fn nfa_matrix(nfa: &Nfa) -> (m: Matrix)
    requires
        nfa.wf(),
    ensures
        m.wf(),
        m@.len() == nfa.states@.len(),
        m.spec_columns() == nfa.alphabet@.len(),
        forall|q: int, c: int|
            0 <= q < m@.len() && 0 <= c < m.spec_columns() ==> #[trigger] m@[q][c] == direct(nfa, q, c),
        forall|q: int, c: int, sym: u32|
            0 <= q < m@.len() && #[trigger] is_column_of(nfa.alphabet@, sym, c) ==> #[trigger] m@[q][c]
                == first_target(nfa.states@[q].links@, sym),
{
    let n = nfa.states.len();
    let columns = nfa.alphabet.len();
    let mut m = Matrix::new(n, columns);
    let mut q: usize = 0;
    while q < n
        invariant
            nfa.wf(),
            n == nfa.states@.len(),
            columns == nfa.alphabet@.len(),
            0 <= q <= n,
            m.wf(),
            m@.len() == n,
            m.spec_columns() == columns,
            forall|p: int, c: int| 0 <= p < q && 0 <= c < columns ==> #[trigger] m@[p][c] == direct(nfa, p, c),
        decreases n - q,
    {
        let mut c: usize = 0;
        while c < columns
            invariant
                nfa.wf(),
                n == nfa.states@.len(),
                columns == nfa.alphabet@.len(),
                0 <= q < n,
                0 <= c <= columns,
                m.wf(),
                m@.len() == n,
                m.spec_columns() == columns,
                forall|p: int, d: int|
                    0 <= p < q && 0 <= d < columns ==> #[trigger] m@[p][d] == direct(nfa, p, d),
                forall|d: int| 0 <= d < c ==> #[trigger] m@[q as int][d] == direct(nfa, q as int, d),
            decreases columns - c,
        {
            let t = find_target(&nfa.states[q].links, nfa.alphabet.division(c));
            let ghost before = m@;
            m.set(q, c, t);
            proof {
                assert forall|p: int, d: int| 0 <= p < q && 0 <= d < columns implies #[trigger] m@[p][d]
                    == direct(nfa, p, d) by {
                    assert(m@[p] == before[p]);
                }
                assert forall|d: int| 0 <= d < c + 1 implies #[trigger] m@[q as int][d] == direct(
                    nfa,
                    q as int,
                    d,
                ) by {
                    if d < c {
                        assert(m@[q as int][d] == before[q as int][d]);
                    }
                }
            }
            c = c + 1;
        }
        q = q + 1;
    }
    proof {
        assert forall|q: int, c: int, sym: u32|
            0 <= q < m@.len() && #[trigger] is_column_of(nfa.alphabet@, sym, c) implies #[trigger] m@[q][c]
            == first_target(nfa.states@[q].links@, sym) by {
            lemma_direct_any_symbol(nfa, q, c, sym);
        }
    }
    m
}

/// A canonical list is fixed by the states it lists.
pub proof fn lemma_canonical_unique(a: Seq<usize>, b: Seq<usize>, n: int)
    requires
        canonical(a, n),
        canonical(b, n),
        state_set(a) == state_set(b),
    ensures
        a == b,
    decreases a.len(),
{
    if a.len() == 0 {
        if b.len() > 0 {
            assert(state_set(b).contains(b[0] as int));
        }
        assert(b =~= a);
    } else {
        assert(state_set(a).contains(a[0] as int));
        assert(b.len() > 0);
        assert(state_set(b).contains(b[0] as int));
        let j = choose|j: int| 0 <= j < b.len() && b[j] as int == a[0] as int;
        let i = choose|i: int| 0 <= i < a.len() && a[i] as int == b[0] as int;
        if j > 0 {
            assert(b[0] < b[j]);
        }
        if i > 0 {
            assert(a[0] < a[i]);
        }
        assert(a[0] == b[0]);
        let ra = a.drop_first();
        let rb = b.drop_first();
        assert(state_set(ra) =~= state_set(rb)) by {
            assert forall|x: int| state_set(ra).contains(x) implies state_set(rb).contains(x) by {
                let k = choose|k: int| 0 <= k < ra.len() && ra[k] as int == x;
                assert(a[k + 1] > a[0]);
                assert(state_set(a).contains(x));
                let m = choose|m: int| 0 <= m < b.len() && b[m] as int == x;
                assert(m != 0);
                assert(rb[m - 1] == b[m]);
            }
            assert forall|x: int| state_set(rb).contains(x) implies state_set(ra).contains(x) by {
                let k = choose|k: int| 0 <= k < rb.len() && rb[k] as int == x;
                assert(b[k + 1] > b[0]);
                assert(state_set(b).contains(x));
                let m = choose|m: int| 0 <= m < a.len() && a[m] as int == x;
                assert(m != 0);
                assert(ra[m - 1] == a[m]);
            }
        }
        assert(canonical(ra, n)) by {
            assert forall|x: int, y: int| 0 <= x < y < ra.len() implies ra[x] < ra[y] by {
                assert(a[x + 1] < a[y + 1]);
            }
        }
        assert(canonical(rb, n)) by {
            assert forall|x: int, y: int| 0 <= x < y < rb.len() implies rb[x] < rb[y] by {
                assert(b[x + 1] < b[y + 1]);
            }
        }
        lemma_canonical_unique(ra, rb, n);
        assert(a =~= seq![a[0]] + ra);
        assert(b =~= seq![b[0]] + rb);
    }
}

} // verus!
