//! Deterministic automata and their construction from nondeterministic ones by subset
//! construction.
//!
//! During construction each discovered state set is kept as a membership vector (one flag
//! per nondeterministic state), and the list of these vectors serves as the dictionary from
//! state set to state identifier: a new set is looked up by a linear scan (`find_flags`),
//! not through a hash map. vstd gives a hash or ordered map a usable contract only for
//! keys with a known key model, such as integers, and a vector of flags is not one of
//! them, so a map keyed by state sets would leave every lookup unproved. The scan compares
//! vectors element by element, which is equality of sets, and the construction loop keeps
//! the list free of duplicates (its `no_duplicates` invariant), so each set has exactly
//! one identifier.

use vstd::arithmetic::power2::{lemma_pow2_unfold, pow2};
use vstd::prelude::*;
use vstd::set_lib::{lemma_map_size, lemma_set_disjoint_lens};

use crate::alphabet::{column_of, SealedSegmentation};
use crate::closure::{
    bset, canonical, eps_matrix, lemma_closure_in_range, members, nfa_matrix, state_set,
};
use crate::matrix::{Matrix, INVALID};
use crate::nfa::{closure, direct, eps_edge, eps_path, first_target, num_states, Nfa, Transition};

verus! {

/// The identifier of the start state of every deterministic automaton built here.
pub const START_STATE: usize = 0;

/// State `q` of `s` leads to `t` on column `c`: `t` is in the closure of `q`'s direct target.
pub open spec fn contributes(nfa: &Nfa, s: Set<int>, c: int, q: int, t: int) -> bool {
    &&& s.contains(q)
    &&& 0 <= q < num_states(nfa)
    &&& direct(nfa, q, c) != INVALID
    &&& closure(nfa, direct(nfa, q, c) as int).contains(t)
}

/// The set of states that the set `s` moves to on column `c`: the union of the epsilon
/// closures of the direct targets of its members.
pub open spec fn step(nfa: &Nfa, s: Set<int>, c: int) -> Set<int> {
    Set::new(|t: int| exists|q: int| #[trigger] contributes(nfa, s, c, q, t))
}

/// The members of `s` that complete a rule.
pub open spec fn exported(nfa: &Nfa, s: Set<int>) -> Set<int> {
    s.filter(|q: int| nfa.states@[q].export)
}

/// A deterministic automaton over a sealed alphabet.
#[derive(Clone, Debug, PartialEq, Eq)]
pub struct Dfa {
    /// The disjoint symbol intervals; one matrix column for each.
    pub alphabet: SealedSegmentation,
    /// The transition matrix: `links[state][column]` is the next state, or `INVALID`.
    pub links: Matrix,
    /// For each state, the states of the nondeterministic automaton it stands for.
    pub sources: Vec<Vec<usize>>,
    /// For each state, those of its sources that complete a rule.
    pub exported_sources: Vec<Vec<usize>>,
}

/// Position (`i2`, `c2`) comes before (`i`, `c`) in row-major order.
pub open spec fn precedes(i2: int, c2: int, i: int, c: int) -> bool {
    i2 < i || (i2 == i && c2 < c)
}

/// State `v` stands in `links` at a position before (`i`, `c`).
pub open spec fn seen_before(links: Seq<Seq<usize>>, cols: int, i: int, c: int, v: usize) -> bool {
    exists|i2: int, c2: int|
        0 <= i2 < links.len() && 0 <= c2 < cols && precedes(i2, c2, i, c) && #[trigger] links[i2][c2]
            == v
}

/// States are numbered in the order in which a row-by-row scan of the matrix meets them:
/// every state but the start stands in a row above its own, and a state that stands
/// somewhere for the first time comes after every lower-numbered state but the start.
pub open spec fn discovery_ordered(links: Seq<Seq<usize>>, cols: int) -> bool {
    &&& forall|j: int| 1 <= j < links.len() ==> #[trigger] seen_before(links, cols, j, 0, j as usize)
    &&& forall|i: int, c: int|
        0 <= i < links.len() && 0 <= c < cols && #[trigger] links[i][c] != INVALID && links[i][c]
            != 0 && !seen_before(links, cols, i, c, links[i][c]) ==> forall|k: int|
            1 <= k < links[i][c] ==> #[trigger] seen_before(links, cols, i, c, k as usize)
}

/// `dfa` is the subset construction of `nfa`: state 0 stands for the closure of the start
/// state, each transition leads to the state standing for the set that `step` gives, or
/// to none when that set is empty, no two states stand for the same set, and states are
/// numbered in discovery order.
pub open spec fn is_subset_construction(nfa: &Nfa, dfa: &Dfa) -> bool {
    let rows = dfa.links@.len();
    &&& dfa.alphabet.wf()
    &&& dfa.alphabet@ == nfa.alphabet@
    &&& dfa.links.wf()
    &&& dfa.links.spec_columns() == nfa.alphabet@.len()
    &&& 1 <= rows <= usize::MAX
    &&& dfa.sources@.len() == rows
    &&& dfa.exported_sources@.len() == rows
    &&& state_set(dfa.sources@[0]@) == closure(nfa, nfa.start as int)
    &&& forall|i: int| 0 <= i < rows ==> canonical(#[trigger] dfa.sources@[i]@, num_states(nfa))
    &&& forall|i: int|
        0 <= i < rows ==> canonical(#[trigger] dfa.exported_sources@[i]@, num_states(nfa))
    &&& forall|i: int|
        0 <= i < rows ==> state_set(#[trigger] dfa.exported_sources@[i]@) == exported(
            nfa,
            state_set(dfa.sources@[i]@),
        )
    &&& forall|i: int, j: int|
        0 <= i < j < rows ==> state_set(#[trigger] dfa.sources@[i]@) != state_set(
            #[trigger] dfa.sources@[j]@,
        )
    &&& forall|i: int, c: int|
        0 <= i < rows && 0 <= c < dfa.links.spec_columns() ==> transition_ok(nfa, dfa, i, c)
    &&& discovery_ordered(dfa.links@, dfa.links.spec_columns() as int)
}

/// The cell at (`i`, `c`) is `INVALID` exactly when `step` gives the empty set, and
/// otherwise names the state that stands for that set.
pub open spec fn transition_ok(nfa: &Nfa, dfa: &Dfa, i: int, c: int) -> bool {
    let t = step(nfa, state_set(dfa.sources@[i]@), c);
    let v = dfa.links@[i][c];
    if t == Set::<int>::empty() {
        v == INVALID
    } else {
        &&& v < dfa.links@.len()
        &&& state_set(dfa.sources@[v as int]@) == t
    }
}

proof fn lemma_first_target_valid(links: Seq<Transition>, sym: u32, n: int)
    requires
        forall|k: int| 0 <= k < links.len() ==> #[trigger] links[k].target < n,
    ensures
        first_target(links, sym) == INVALID || first_target(links, sym) < n,
    decreases links.len(),
{
    if links.len() > 0 {
        assert forall|k: int| 0 <= k < links.drop_first().len() implies #[trigger] links.drop_first()[k].target
            < n by {
            assert(links.drop_first()[k] == links[k + 1]);
        }
        lemma_first_target_valid(links.drop_first(), sym, n);
    }
}

/// A direct target is either `INVALID` or a state of the automaton.
proof fn lemma_direct_valid(nfa: &Nfa, q: int, c: int)
    requires
        nfa.wf(),
        0 <= q < num_states(nfa),
    ensures
        direct(nfa, q, c) == INVALID || direct(nfa, q, c) < num_states(nfa),
{
    let links = nfa.states@[q].links@;
    assert forall|k: int| 0 <= k < links.len() implies #[trigger] links[k].target < num_states(nfa) by {
        assert(nfa.states@[q].links@[k].target < nfa.states@.len());
    }
    lemma_first_target_valid(links, nfa.alphabet@[c], num_states(nfa));
}

/// Two membership vectors of one length are equal when they mark the same states.
proof fn lemma_bset_injective(a: Seq<bool>, b: Seq<bool>)
    requires
        a.len() == b.len(),
        bset(a) == bset(b),
    ensures
        a == b,
{
    assert forall|i: int| 0 <= i < a.len() implies a[i] == b[i] by {
        assert(bset(a).contains(i) == a[i]);
        assert(bset(b).contains(i) == b[i]);
    }
    assert(a =~= b);
}

/// There are at most `2^n` distinct membership vectors of length `n`.
proof fn lemma_flags_bound(s: Set<Seq<bool>>, n: nat)
    requires
        s.finite(),
        forall|v: Seq<bool>| #[trigger] s.contains(v) ==> v.len() == n,
    ensures
        s.len() <= pow2(n),
    decreases n,
{
    if n == 0 {
        assert(s.subset_of(set![Seq::<bool>::empty()])) by {
            assert forall|v: Seq<bool>| #[trigger] s.contains(v) implies v == Seq::<bool>::empty() by {
                assert(v =~= Seq::<bool>::empty());
            }
        }
        vstd::set_lib::lemma_len_subset(s, set![Seq::<bool>::empty()]);
        assert(pow2(0) == 1) by {
            vstd::arithmetic::power2::lemma_pow2(0);
            vstd::arithmetic::power::lemma_pow0(2);
        }
    } else {
        let m = (n - 1) as nat;
        let st = s.filter(|v: Seq<bool>| v.last());
        let sf = s.filter(|v: Seq<bool>| !v.last());
        let cut = |v: Seq<bool>| v.drop_last();
        assert(st.finite() && sf.finite());
        assert(vstd::relations::injective_on(cut, st)) by {
            assert forall|a: Seq<bool>, b: Seq<bool>|
                st.contains(a) && st.contains(b) && #[trigger] cut(a) == #[trigger] cut(b) implies a == b by {
                assert(a =~= a.drop_last().push(true));
                assert(b =~= b.drop_last().push(true));
            }
        }
        assert(vstd::relations::injective_on(cut, sf)) by {
            assert forall|a: Seq<bool>, b: Seq<bool>|
                sf.contains(a) && sf.contains(b) && #[trigger] cut(a) == #[trigger] cut(b) implies a == b by {
                assert(a =~= a.drop_last().push(false));
                assert(b =~= b.drop_last().push(false));
            }
        }
        lemma_map_size(st, st.map(cut), cut);
        lemma_map_size(sf, sf.map(cut), cut);
        lemma_flags_bound(st.map(cut), m);
        lemma_flags_bound(sf.map(cut), m);
        assert(st + sf =~= s);
        assert(st.disjoint(sf));
        lemma_set_disjoint_lens(st, sf);
        lemma_pow2_unfold(n);
    }
}

/// A sequence of distinct membership vectors of length `n` has at most `2^n` entries.
proof fn lemma_distinct_flags_bound(views: Seq<Seq<bool>>, n: nat)
    requires
        forall|k: int| 0 <= k < views.len() ==> #[trigger] views[k].len() == n,
        views.no_duplicates(),
    ensures
        views.len() <= pow2(n),
{
    views.unique_seq_to_set();
    assert forall|v: Seq<bool>| #[trigger] views.to_set().contains(v) implies v.len() == n by {
        let k = choose|k: int| 0 <= k < views.len() && views[k] == v;
    }
    lemma_flags_bound(views.to_set(), n);
}

/// Whether two membership vectors are equal.
fn same_flags(a: &Vec<bool>, b: &Vec<bool>) -> (r: bool)
    ensures
        r == (a@ == b@),
{
    if a.len() != b.len() {
        return false;
    }
    let mut i: usize = 0;
    while i < a.len()
        invariant
            a@.len() == b@.len(),
            0 <= i <= a@.len(),
            forall|k: int| 0 <= k < i ==> a@[k] == b@[k],
        decreases a@.len() - i,
    {
        if a[i] != b[i] {
            return false;
        }
        i = i + 1;
    }
    assert(a@ =~= b@);
    true
}

/// The position of `m` in `sets`, if it is there: the dictionary lookup of the construction,
/// a linear scan over the discovered state sets.
fn find_flags(sets: &Vec<Vec<bool>>, m: &Vec<bool>) -> (r: Option<usize>)
    ensures
        r matches Some(k) ==> k < sets@.len() && sets@[k as int]@ == m@,
        r is None ==> forall|k: int| 0 <= k < sets@.len() ==> #[trigger] sets@[k]@ != m@,
{
    let mut k: usize = 0;
    while k < sets.len()
        invariant
            0 <= k <= sets@.len(),
            forall|j: int| 0 <= j < k ==> #[trigger] sets@[j]@ != m@,
        decreases sets@.len() - k,
    {
        if same_flags(&sets[k], m) {
            return Some(k);
        }
        k = k + 1;
    }
    None
}

/// The membership vector of `step(nfa, bset(s), c)`, and whether that set is non-empty.
fn step_flags(
    nfa: &Nfa,
    nfa_mat: &Matrix,
    eps_mat: &Vec<Vec<usize>>,
    s: &Vec<bool>,
    c: usize,
) -> (r: (Vec<bool>, bool))
    requires
        nfa.wf(),
        nfa_mat.wf(),
        nfa_mat@.len() == nfa.states@.len(),
        nfa_mat.spec_columns() == nfa.alphabet@.len(),
        forall|q: int, d: int|
            0 <= q < nfa_mat@.len() && 0 <= d < nfa_mat.spec_columns() ==> #[trigger] nfa_mat@[q][d]
                == direct(nfa, q, d),
        eps_mat@.len() == nfa.states@.len(),
        forall|q: int|
            0 <= q < eps_mat@.len() ==> {
                &&& canonical(#[trigger] eps_mat@[q]@, num_states(nfa))
                &&& state_set(eps_mat@[q]@) == closure(nfa, q)
            },
        s@.len() == nfa.states@.len(),
        c < nfa.alphabet@.len(),
    ensures
        r.0@.len() == nfa.states@.len(),
        bset(r.0@) == step(nfa, bset(s@), c as int),
        r.1 == (step(nfa, bset(s@), c as int) != Set::<int>::empty()),
{
    let n = s.len();
    let ghost set = bset(s@);
    let mut member: Vec<bool> = vec![false; n];
    let mut any = false;
    let mut q: usize = 0;
    while q < n
        invariant
            nfa.wf(),
            nfa_mat.wf(),
            n == nfa.states@.len(),
            s@.len() == n,
            set == bset(s@),
            nfa_mat@.len() == n,
            nfa_mat.spec_columns() == nfa.alphabet@.len(),
            forall|p: int, d: int|
                0 <= p < nfa_mat@.len() && 0 <= d < nfa_mat.spec_columns() ==> #[trigger] nfa_mat@[p][d]
                    == direct(nfa, p, d),
            eps_mat@.len() == n,
            forall|p: int|
                0 <= p < eps_mat@.len() ==> {
                    &&& canonical(#[trigger] eps_mat@[p]@, num_states(nfa))
                    &&& state_set(eps_mat@[p]@) == closure(nfa, p)
                },
            c < nfa.alphabet@.len(),
            0 <= q <= n,
            member@.len() == n,
            forall|t: int|
                0 <= t < n ==> (#[trigger] member@[t] <==> exists|p: int|
                    0 <= p < q && #[trigger] contributes(nfa, set, c as int, p, t)),
            any <==> exists|t: int| 0 <= t < n && #[trigger] member@[t],
        decreases n - q,
    {
        let ghost before = member@;
        if s[q] {
            let tgt = nfa_mat.get(q, c);
            if tgt != INVALID {
                proof {
                    lemma_direct_valid(nfa, q as int, c as int);
                }
                let list = &eps_mat[tgt];
                let mut j: usize = 0;
                while j < list.len()
                    invariant
                        n == nfa.states@.len(),
                        member@.len() == n,
                        list == eps_mat@[tgt as int],
                        canonical(list@, n as int),
                        0 <= j <= list@.len(),
                        forall|t: int|
                            0 <= t < n ==> (#[trigger] member@[t] <==> (before[t] || exists|i: int|
                                0 <= i < j && list@[i] as int == t)),
                        any <==> exists|t: int| 0 <= t < n && #[trigger] member@[t],
                    decreases list@.len() - j,
                {
                    let x = list[j];
                    member.set(x, true);
                    any = true;
                    proof {
                        assert(member@[x as int]);
                    }
                    j = j + 1;
                }
                proof {
                    let cl = closure(nfa, tgt as int);
                    assert(state_set(list@) == cl);
                    assert forall|t: int| 0 <= t < n implies (#[trigger] member@[t] <==> exists|p: int|
                        0 <= p < q + 1 && #[trigger] contributes(nfa, set, c as int, p, t)) by {
                        if member@[t] {
                            if !before[t] {
                                let i = choose|i: int| 0 <= i < list@.len() && list@[i] as int == t;
                                assert(state_set(list@).contains(t));
                                assert(contributes(nfa, set, c as int, q as int, t));
                            } else {
                                let p = choose|p: int|
                                    0 <= p < q && #[trigger] contributes(nfa, set, c as int, p, t);
                                assert(contributes(nfa, set, c as int, p, t));
                            }
                        } else {
                            assert forall|p: int| 0 <= p < q + 1 implies !#[trigger] contributes(
                                nfa,
                                set,
                                c as int,
                                p,
                                t,
                            ) by {
                                if p == q {
                                    if contributes(nfa, set, c as int, p, t) {
                                        assert(cl.contains(t));
                                        assert(state_set(list@).contains(t));
                                    }
                                }
                            }
                        }
                    }
                }
            } else {
                proof {
                    assert forall|t: int| 0 <= t < n implies (#[trigger] member@[t] <==> exists|p: int|
                        0 <= p < q + 1 && #[trigger] contributes(nfa, set, c as int, p, t)) by {
                        if member@[t] {
                            let p = choose|p: int|
                                0 <= p < q && #[trigger] contributes(nfa, set, c as int, p, t);
                            assert(contributes(nfa, set, c as int, p, t));
                        } else {
                            assert(!contributes(nfa, set, c as int, q as int, t));
                        }
                    }
                }
            }
        } else {
            proof {
                assert forall|t: int| 0 <= t < n implies (#[trigger] member@[t] <==> exists|p: int|
                    0 <= p < q + 1 && #[trigger] contributes(nfa, set, c as int, p, t)) by {
                    if member@[t] {
                        let p = choose|p: int|
                            0 <= p < q && #[trigger] contributes(nfa, set, c as int, p, t);
                        assert(contributes(nfa, set, c as int, p, t));
                    } else {
                        assert(!set.contains(q as int));
                        assert(!contributes(nfa, set, c as int, q as int, t));
                    }
                }
            }
        }
        q = q + 1;
    }
    proof {
        let st = step(nfa, set, c as int);
        assert forall|t: int| #[trigger] st.contains(t) implies bset(member@).contains(t) by {
            let p = choose|p: int| #[trigger] contributes(nfa, set, c as int, p, t);
            lemma_direct_valid(nfa, p, c as int);
            lemma_closure_in_range(nfa, direct(nfa, p, c as int) as int);
            assert(0 <= t < n);
        }
        assert forall|t: int| bset(member@).contains(t) implies #[trigger] st.contains(t) by {
            assert(member@[t]);
        }
        assert(bset(member@) =~= st);
        if any {
            let t = choose|t: int| 0 <= t < n && #[trigger] member@[t];
            assert(st.contains(t));
        } else {
            assert(st =~= Set::<int>::empty());
        }
    }
    (member, any)
}

/// The members of `v` that complete a rule, in the same order.
fn exported_of(nfa: &Nfa, v: &Vec<usize>) -> (r: Vec<usize>)
    requires
        nfa.wf(),
        canonical(v@, num_states(nfa)),
    ensures
        canonical(r@, num_states(nfa)),
        state_set(r@) == exported(nfa, state_set(v@)),
{
    let mut r: Vec<usize> = Vec::new();
    let mut i: usize = 0;
    while i < v.len()
        invariant
            nfa.wf(),
            canonical(v@, num_states(nfa)),
            0 <= i <= v@.len(),
            canonical(r@, num_states(nfa)),
            forall|k: int| 0 <= k < r@.len() ==> exists|j: int| 0 <= j < i && v@[j] == #[trigger] r@[k],
            state_set(r@) == exported(nfa, state_set(v@.subrange(0, i as int))),
        decreases v@.len() - i,
    {
        let ghost before = r@;
        let q = v[i];
        if nfa.states[q].export {
            proof {
                assert forall|k: int| 0 <= k < before.len() implies before[k] < q by {
                    let j = choose|j: int| 0 <= j < i && v@[j] == #[trigger] before[k];
                }
            }
            r.push(q);
        }
        proof {
            let pre = v@.subrange(0, i as int);
            let post = v@.subrange(0, i + 1);
            assert(state_set(post) =~= state_set(pre).insert(q as int)) by {
                assert forall|x: int| state_set(post).contains(x) implies state_set(pre).insert(
                    q as int,
                ).contains(x) by {
                    let j = choose|j: int| 0 <= j < post.len() && post[j] as int == x;
                    if j < i {
                        assert(pre[j] == post[j]);
                    }
                }
                assert forall|x: int| state_set(pre).insert(q as int).contains(x) implies state_set(
                    post,
                ).contains(x) by {
                    if x == q as int {
                        assert(post[i as int] == q);
                    } else {
                        let j = choose|j: int| 0 <= j < pre.len() && pre[j] as int == x;
                        assert(post[j] == pre[j]);
                    }
                }
            }
            assert forall|k: int| 0 <= k < r@.len() implies exists|j: int|
                0 <= j < i + 1 && v@[j] == #[trigger] r@[k] by {
                if k < before.len() {
                    let j = choose|j: int| 0 <= j < i && v@[j] == #[trigger] before[k];
                    assert(v@[j] == r@[k]);
                } else {
                    assert(v@[i as int] == r@[k]);
                }
            }
            assert(state_set(r@) =~= exported(nfa, state_set(post))) by {
                assert forall|x: int| state_set(r@).contains(x) implies exported(
                    nfa,
                    state_set(post),
                ).contains(x) by {
                    let k = choose|k: int| 0 <= k < r@.len() && r@[k] as int == x;
                    if k < before.len() {
                        assert(before[k] == r@[k]);
                        assert(state_set(before).contains(x));
                    }
                }
                assert forall|x: int| exported(nfa, state_set(post)).contains(x) implies state_set(
                    r@,
                ).contains(x) by {
                    if x == q as int {
                        assert(r@[r@.len() - 1] == q);
                    } else {
                        assert(exported(nfa, state_set(pre)).contains(x));
                        let k = choose|k: int| 0 <= k < before.len() && before[k] as int == x;
                        assert(r@[k] == before[k]);
                    }
                }
            }
        }
        i = i + 1;
    }
    assert(v@.subrange(0, v@.len() as int) =~= v@);
    r
}

impl Dfa {
    /// Builds the deterministic automaton of `nfa` by subset construction. States are
    /// numbered in the order in which they are discovered, row by row and column by column.
    pub fn from_nfa(nfa: &Nfa) -> (dfa: Dfa)
        requires
            nfa.wf(),
        ensures
            dfa.wf(),
            is_subset_construction(nfa, &dfa),
    {
        let n = nfa.states.len();
        let columns = nfa.alphabet.len();
        let nfa_mat = nfa_matrix(nfa);
        let eps_mat = eps_matrix(nfa);
        let mut links = Matrix::new(0, columns);
        let mut sets: Vec<Vec<bool>> = Vec::new();
        let mut first: Vec<bool> = vec![false; n];
        let start_list = &eps_mat[nfa.start];
        let mut j: usize = 0;
        while j < start_list.len()
            invariant
                n == nfa.states@.len(),
                first@.len() == n,
                canonical(start_list@, n as int),
                0 <= j <= start_list@.len(),
                forall|t: int|
                    0 <= t < n ==> (#[trigger] first@[t] <==> exists|i: int|
                        0 <= i < j && start_list@[i] as int == t),
            decreases start_list@.len() - j,
        {
            first.set(start_list[j], true);
            j = j + 1;
        }
        proof {
            let cl = closure(nfa, nfa.start as int);
            lemma_closure_in_range(nfa, nfa.start as int);
            assert forall|t: int| bset(first@).contains(t) implies cl.contains(t) by {
                let i = choose|i: int| 0 <= i < start_list@.len() && start_list@[i] as int == t;
                assert(state_set(start_list@).contains(t));
            }
            assert forall|t: int| cl.contains(t) implies bset(first@).contains(t) by {
                assert(state_set(start_list@).contains(t));
                let i = choose|i: int| 0 <= i < start_list@.len() && start_list@[i] as int == t;
                assert(first@[t]);
            }
            assert(bset(first@) =~= cl);
        }
        sets.push(first);
        let ghost mut views: Seq<Seq<bool>> = seq![sets@[0]@];
        let ghost mut disc: Seq<(int, int)> = seq![(0int, 0int)];
        proof {
            vstd::arithmetic::power2::lemma_pow2_pos(n as nat);
        }
        let mut i: usize = 0;
        while i < sets.len()
            invariant
                nfa.wf(),
                n == nfa.states@.len(),
                columns == nfa.alphabet@.len(),
                nfa_mat.wf(),
                nfa_mat@.len() == n,
                nfa_mat.spec_columns() == columns,
                forall|q: int, d: int|
                    0 <= q < nfa_mat@.len() && 0 <= d < nfa_mat.spec_columns()
                        ==> #[trigger] nfa_mat@[q][d] == direct(nfa, q, d),
                eps_mat@.len() == n,
                forall|q: int|
                    0 <= q < eps_mat@.len() ==> {
                        &&& canonical(#[trigger] eps_mat@[q]@, num_states(nfa))
                        &&& state_set(eps_mat@[q]@) == closure(nfa, q)
                    },
                views.len() == sets@.len(),
                forall|k: int| 0 <= k < views.len() ==> #[trigger] views[k] == sets@[k]@,
                forall|k: int| 0 <= k < views.len() ==> #[trigger] views[k].len() == n,
                views.no_duplicates(),
                views.len() <= pow2(n as nat),
                sets@.len() >= 1,
                bset(sets@[0]@) == closure(nfa, nfa.start as int),
                0 <= i <= sets@.len(),
                links.wf(),
                links@.len() == i,
                links.spec_columns() == columns,
                forall|r: int, d: int|
                    0 <= r < i && 0 <= d < columns ==> #[trigger] cell_ok(
                        nfa,
                        views,
                        links@[r][d],
                        r,
                        d,
                    ),
                disc.len() == views.len(),
                discovery_inv(links@, columns as int, disc, i as int, 0),
            decreases 2 * pow2(n as nat) - sets@.len() - i,
        {
            let ghost links_above = links@;
            links.new_row();
            proof {
                assert forall|r: int| 0 <= r < i implies links@[r] == links_above[r] by {}
                assert(discovery_inv(links@, columns as int, disc, i as int, 0));
            }
            let ghost count_before = sets@.len();
            assert(views[i as int] == sets@[i as int]@);
            let mut c: usize = 0;
            while c < columns
                invariant
                    nfa.wf(),
                    n == nfa.states@.len(),
                    columns == nfa.alphabet@.len(),
                    nfa_mat.wf(),
                    nfa_mat@.len() == n,
                    nfa_mat.spec_columns() == columns,
                    forall|q: int, d: int|
                        0 <= q < nfa_mat@.len() && 0 <= d < nfa_mat.spec_columns()
                            ==> #[trigger] nfa_mat@[q][d] == direct(nfa, q, d),
                    eps_mat@.len() == n,
                    forall|q: int|
                        0 <= q < eps_mat@.len() ==> {
                            &&& canonical(#[trigger] eps_mat@[q]@, num_states(nfa))
                            &&& state_set(eps_mat@[q]@) == closure(nfa, q)
                        },
                    views.len() == sets@.len(),
                    forall|k: int| 0 <= k < views.len() ==> #[trigger] views[k] == sets@[k]@,
                    forall|k: int| 0 <= k < views.len() ==> #[trigger] views[k].len() == n,
                    views.no_duplicates(),
                    views.len() <= pow2(n as nat),
                    sets@.len() >= 1,
                    bset(sets@[0]@) == closure(nfa, nfa.start as int),
                    0 <= i < sets@.len(),
                    count_before <= sets@.len(),
                    sets@[i as int]@.len() == n,
                    0 <= c <= columns,
                    links.wf(),
                    links@.len() == i + 1,
                    links.spec_columns() == columns,
                    forall|r: int, d: int|
                        0 <= r < i && 0 <= d < columns ==> #[trigger] cell_ok(
                            nfa,
                            views,
                            links@[r][d],
                            r,
                            d,
                        ),
                    forall|d: int|
                        0 <= d < c ==> #[trigger] cell_ok(nfa, views, links@[i as int][d], i as int, d),
                    forall|d: int| c <= d < columns ==> #[trigger] links@[i as int][d] == INVALID,
                    disc.len() == views.len(),
                    discovery_inv(links@, columns as int, disc, i as int, c as int),
                decreases columns - c,
            {
                let (member, nonempty) = step_flags(nfa, &nfa_mat, &eps_mat, &sets[i], c);
                let ghost views_before = views;
                let ghost links_before = links@;
                let ghost disc_before = disc;
                if nonempty {
                    let id = match find_flags(&sets, &member) {
                        Some(k) => k,
                        None => {
                            let k = sets.len();
                            proof {
                                views = views.push(member@);
                                disc = disc.push((i as int, c as int));
                                assert forall|a: int, b: int|
                                    0 <= a < views.len() && 0 <= b < views.len() && a != b implies views[a]
                                    != views[b] by {
                                    if a < views_before.len() && b < views_before.len() {
                                        assert(views_before[a] != views_before[b]);
                                    } else if a < views_before.len() {
                                        assert(views[a] == sets@[a]@);
                                    } else {
                                        assert(views[b] == sets@[b]@);
                                    }
                                }
                                lemma_distinct_flags_bound(views, n as nat);
                            }
                            sets.push(member);
                            k
                        },
                    };
                    links.set(i, c, id);
                } else {
                    proof {
                        assert(links@[i as int][c as int] == INVALID);
                    }
                }
                proof {
                    assert forall|k: int| 0 <= k < views_before.len() implies views[k]
                        == views_before[k] by {
                    }
                    assert forall|r: int, d: int|
                        0 <= r < i + 1 && 0 <= d < columns && (r < i || d < c) implies #[trigger] cell_ok(
                        nfa,
                        views,
                        links@[r][d],
                        r,
                        d,
                    ) by {
                        assert(links@[r][d] == links_before[r][d]);
                        assert(cell_ok(nfa, views_before, links_before[r][d], r, d));
                        lemma_cell_ok_grow(nfa, views_before, views, links_before[r][d], r, d);
                    }
                    assert(cell_ok(nfa, views, links@[i as int][c as int], i as int, c as int));
                    assert forall|d: int| c + 1 <= d < columns implies #[trigger] links@[i as int][d]
                        == INVALID by {
                        assert(links@[i as int][d] == links_before[i as int][d]);
                    }
                    lemma_discovery_step(
                        links_before,
                        links@,
                        columns as int,
                        disc_before,
                        disc,
                        i as int,
                        c as int,
                    );
                }
                c = c + 1;
            }
            proof {
                lemma_discovery_next_row(links@, columns as int, disc, i as int);
            }
            i = i + 1;
        }
        proof {
            lemma_discovery_ordered(links@, columns as int, disc);
        }
        let mut sources: Vec<Vec<usize>> = Vec::new();
        let mut exported_sources: Vec<Vec<usize>> = Vec::new();
        let mut k: usize = 0;
        while k < sets.len()
            invariant
                nfa.wf(),
                n == nfa.states@.len(),
                0 <= k <= sets@.len(),
                views.len() == sets@.len(),
                forall|j: int| 0 <= j < views.len() ==> #[trigger] views[j] == sets@[j]@,
                forall|j: int| 0 <= j < views.len() ==> #[trigger] views[j].len() == n,
                sources@.len() == k,
                exported_sources@.len() == k,
                forall|j: int|
                    0 <= j < k ==> {
                        &&& canonical(#[trigger] sources@[j]@, n as int)
                        &&& state_set(sources@[j]@) == bset(views[j])
                        &&& canonical(exported_sources@[j]@, n as int)
                        &&& state_set(exported_sources@[j]@) == exported(nfa, state_set(sources@[j]@))
                    },
            decreases sets@.len() - k,
        {
            assert(views[k as int] == sets@[k as int]@);
            let list = members(&sets[k]);
            let ex = exported_of(nfa, &list);
            sources.push(list);
            exported_sources.push(ex);
            proof {
                assert(sources@[k as int] == list);
                assert(exported_sources@[k as int] == ex);
            }
            k = k + 1;
        }
        let dfa = Dfa { alphabet: nfa.alphabet.seal(), links, sources, exported_sources };
        proof {
            assert forall|a: int, b: int|
                0 <= a < b < dfa.links@.len() implies state_set(#[trigger] dfa.sources@[a]@)
                != state_set(#[trigger] dfa.sources@[b]@) by {
                if bset(views[a]) == bset(views[b]) {
                    lemma_bset_injective(views[a], views[b]);
                }
            }
            assert forall|r: int, d: int|
                0 <= r < dfa.links@.len() && 0 <= d < dfa.links.spec_columns() implies transition_ok(
                nfa,
                &dfa,
                r,
                d,
            ) by {
                assert(cell_ok(nfa, views, dfa.links@[r][d], r, d));
                assert(state_set(dfa.sources@[r]@) == bset(views[r]));
                let v = dfa.links@[r][d];
                if v != INVALID {
                    assert(state_set(dfa.sources@[v as int]@) == bset(views[v as int]));
                }
            }
            assert(dfa.links@.len() == sets@.len());
            assert(state_set(dfa.sources@[0]@) == bset(views[0]));
            assert(dfa.alphabet@ == nfa.alphabet@);
            assert forall|r: int| 0 <= r < dfa.links@.len() implies canonical(
                #[trigger] dfa.sources@[r]@,
                num_states(nfa),
            ) by {}
            assert forall|r: int| 0 <= r < dfa.links@.len() implies canonical(
                #[trigger] dfa.exported_sources@[r]@,
                num_states(nfa),
            ) by {
                assert(canonical(dfa.sources@[r]@, n as int));
            }
            assert forall|r: int| 0 <= r < dfa.links@.len() implies state_set(
                #[trigger] dfa.exported_sources@[r]@,
            ) == exported(nfa, state_set(dfa.sources@[r]@)) by {
                assert(canonical(dfa.sources@[r]@, n as int));
            }
        }
        dfa
    }
}

/// Bookkeeping of the construction loop at position (`i`, `c`): `disc[k]` is where state
/// `k` was first placed, those places come in the order of the states, and no cell before
/// (`i`, `c`) names a state ahead of its first place.
spec fn discovery_inv(links: Seq<Seq<usize>>, cols: int, disc: Seq<(int, int)>, i: int, c: int) -> bool {
    &&& forall|k: int|
        1 <= k < disc.len() ==> {
            &&& 0 <= #[trigger] disc[k].0 < k
            &&& 0 <= disc[k].1 < cols
            &&& precedes(disc[k].0, disc[k].1, i, c)
            &&& disc[k].0 < links.len()
            &&& links[disc[k].0][disc[k].1] == k as usize
        }
    &&& forall|k1: int, k2: int|
        1 <= k1 < k2 < disc.len() ==> precedes(
            #[trigger] disc[k1].0,
            disc[k1].1,
            #[trigger] disc[k2].0,
            disc[k2].1,
        )
    &&& forall|r: int, d: int|
        0 <= r < links.len() && 0 <= d < cols && precedes(r, d, i, c) && #[trigger] links[r][d]
            != INVALID && links[r][d] >= 1 ==> links[r][d] < disc.len() && !precedes(
            r,
            d,
            disc[links[r][d] as int].0,
            disc[links[r][d] as int].1,
        )
}

/// The cell `v` at (`r`, `c`) agrees with `step` over the state sets in `views`.
pub open spec fn cell_ok(nfa: &Nfa, views: Seq<Seq<bool>>, v: usize, r: int, c: int) -> bool {
    let t = step(nfa, bset(views[r]), c);
    if t == Set::<int>::empty() {
        v == INVALID
    } else {
        &&& v < views.len()
        &&& bset(views[v as int]) == t
    }
}

proof fn lemma_cell_ok_grow(
    nfa: &Nfa,
    views: Seq<Seq<bool>>,
    more: Seq<Seq<bool>>,
    v: usize,
    r: int,
    c: int,
)
    requires
        0 <= r < views.len(),
        views.len() <= more.len(),
        forall|k: int| 0 <= k < views.len() ==> more[k] == views[k],
        cell_ok(nfa, views, v, r, c),
    ensures
        cell_ok(nfa, more, v, r, c),
{
    assert(more[r] == views[r]);
    if v != INVALID && v < views.len() {
        assert(more[v as int] == views[v as int]);
    }
}

/// The state that `dfa` moves to from `state` on `sym`, or `INVALID`.
pub open spec fn matrix_next(dfa: &Dfa, state: int, sym: u32) -> usize {
    dfa.links.cell(state, column_of(dfa.alphabet@, sym))
}

impl Dfa {
    /// Alphabet and matrix agree: one column for each interval.
    pub open spec fn wf(&self) -> bool {
        &&& self.alphabet.wf()
        &&& self.links.wf()
        &&& self.links.spec_columns() == self.alphabet@.len()
        &&& self.sources@.len() == self.links@.len()
        &&& self.exported_sources@.len() == self.links@.len()
    }

    /// The state reached from `current_state` on `symbol`, or `INVALID` if there is no
    /// transition (also when `current_state` is not a state).
    pub fn next_state(&self, current_state: usize, symbol: u32) -> (r: usize)
        requires
            self.wf(),
        ensures
            r == matrix_next(self, current_state as int, symbol),
    {
        let ix = self.alphabet.index_of_symbol(symbol);
        self.links.get(current_state, ix)
    }
}

proof fn lemma_discovery_step(
    before: Seq<Seq<usize>>,
    after: Seq<Seq<usize>>,
    cols: int,
    disc_before: Seq<(int, int)>,
    disc: Seq<(int, int)>,
    i: int,
    c: int,
)
    requires
        0 <= i < before.len(),
        0 <= c < cols,
        before[i].len() == cols,
        discovery_inv(before, cols, disc_before, i, c),
        before[i][c] == INVALID,
        i < disc_before.len(),
        after.len() == before.len(),
        forall|r: int| 0 <= r < after.len() && r != i ==> after[r] == before[r],
        after[i].len() == cols,
        forall|d: int| 0 <= d < cols && d != c ==> after[i][d] == before[i][d],
        disc == disc_before || disc == disc_before.push((i, c)),
        disc == disc_before ==> after[i][c] == INVALID || after[i][c] < disc.len(),
        disc != disc_before ==> after[i][c] == disc_before.len(),
    ensures
        discovery_inv(after, cols, disc, i, c + 1),
{
    assert forall|k: int| 1 <= k < disc.len() implies {
        &&& 0 <= #[trigger] disc[k].0 < k
        &&& 0 <= disc[k].1 < cols
        &&& precedes(disc[k].0, disc[k].1, i, c + 1)
        &&& disc[k].0 < after.len()
        &&& after[disc[k].0][disc[k].1] == k as usize
    } by {
        if k < disc_before.len() {
            assert(disc[k] == disc_before[k]);
            let (r, d) = disc[k];
            if r == i {
                assert(d != c);
            }
        }
    }
    assert forall|k1: int, k2: int| 1 <= k1 < k2 < disc.len() implies precedes(
        #[trigger] disc[k1].0,
        disc[k1].1,
        #[trigger] disc[k2].0,
        disc[k2].1,
    ) by {
        assert(disc[k1] == disc_before[k1]);
        if k2 < disc_before.len() {
            assert(disc[k2] == disc_before[k2]);
        }
    }
    assert forall|r: int, d: int|
        0 <= r < after.len() && 0 <= d < cols && precedes(r, d, i, c + 1) && #[trigger] after[r][d]
            != INVALID && after[r][d] >= 1 implies after[r][d] < disc.len() && !precedes(
        r,
        d,
        disc[after[r][d] as int].0,
        disc[after[r][d] as int].1,
    ) by {
        let v = after[r][d];
        if r == i && d == c {
            if disc != disc_before {
                assert(disc[v as int] == (i, c));
            } else if v >= 1 {
                assert(precedes(disc[v as int].0, disc[v as int].1, i, c));
            }
        } else {
            assert(after[r][d] == before[r][d]);
            assert(precedes(r, d, i, c));
            assert(disc[v as int] == disc_before[v as int]);
        }
    }
}

proof fn lemma_discovery_next_row(links: Seq<Seq<usize>>, cols: int, disc: Seq<(int, int)>, i: int)
    requires
        discovery_inv(links, cols, disc, i, cols),
    ensures
        discovery_inv(links, cols, disc, i + 1, 0),
{
    assert forall|k: int| 1 <= k < disc.len() implies precedes(
        #[trigger] disc[k].0,
        disc[k].1,
        i + 1,
        0,
    ) by {}
    assert forall|r: int, d: int|
        0 <= r < links.len() && 0 <= d < cols && precedes(r, d, i + 1, 0) && #[trigger] links[r][d]
            != INVALID && links[r][d] >= 1 implies links[r][d] < disc.len() && !precedes(
        r,
        d,
        disc[links[r][d] as int].0,
        disc[links[r][d] as int].1,
    ) by {
        assert(precedes(r, d, i, cols));
    }
}

proof fn lemma_discovery_ordered(links: Seq<Seq<usize>>, cols: int, disc: Seq<(int, int)>)
    requires
        disc.len() == links.len(),
        forall|r: int| 0 <= r < links.len() ==> #[trigger] links[r].len() == cols,
        discovery_inv(links, cols, disc, links.len() as int, 0),
    ensures
        discovery_ordered(links, cols),
{
    assert forall|j: int| 1 <= j < links.len() implies #[trigger] seen_before(
        links,
        cols,
        j,
        0,
        j as usize,
    ) by {
        let (r, d) = disc[j];
        assert(links[r][d] == j as usize);
    }
    assert forall|i: int, c: int|
        0 <= i < links.len() && 0 <= c < cols && #[trigger] links[i][c] != INVALID && links[i][c]
            != 0 && !seen_before(links, cols, i, c, links[i][c]) implies forall|k: int|
        1 <= k < links[i][c] ==> #[trigger] seen_before(links, cols, i, c, k as usize) by {
        let v = links[i][c] as int;
        assert(precedes(i, c, links.len() as int, 0));
        let (r, d) = disc[v];
        assert(links[r][d] == v as usize);
        if precedes(r, d, i, c) {
            assert(seen_before(links, cols, i, c, links[i][c]));
        }
        assert(r == i && d == c);
        assert forall|k: int| 1 <= k < v implies #[trigger] seen_before(
            links,
            cols,
            i,
            c,
            k as usize,
        ) by {
            let (r2, d2) = disc[k];
            assert(precedes(r2, d2, r, d));
            assert(links[r2][d2] == k as usize);
        }
    }
}

proof fn lemma_eps_path_concat(nfa: &Nfa, a: int, b: int, t: int, k1: nat, k2: nat)
    requires
        eps_path(nfa, a, b, k1),
        eps_path(nfa, b, t, k2),
    ensures
        eps_path(nfa, a, t, k1 + k2),
    decreases k2,
{
    if k2 > 0 {
        let m = choose|m: int| eps_path(nfa, b, m, (k2 - 1) as nat) && #[trigger] eps_edge(nfa, m, t);
        lemma_eps_path_concat(nfa, a, b, m, k1, (k2 - 1) as nat);
        assert(eps_path(nfa, a, m, (k1 + k2 - 1) as nat) && eps_edge(nfa, m, t));
    }
}

/// A state reached from `b` along epsilon links is in the closure of every state whose
/// closure holds `b`.
pub proof fn lemma_closure_transitive(nfa: &Nfa, a: int, b: int, t: int)
    requires
        closure(nfa, a).contains(b),
        closure(nfa, b).contains(t),
    ensures
        closure(nfa, a).contains(t),
{
    let k1 = choose|k: nat| #[trigger] eps_path(nfa, a, b, k);
    let k2 = choose|k: nat| #[trigger] eps_path(nfa, b, t, k);
    lemma_eps_path_concat(nfa, a, b, t, k1, k2);
}

/// State `i` stands for the set that `step` gives from a state in a row above it.
pub open spec fn reached_by_step(nfa: &Nfa, dfa: &Dfa, i: int) -> bool {
    exists|r: int, c: int|
        0 <= r < i && 0 <= c < dfa.links.spec_columns() && state_set(dfa.sources@[i]@)
            == #[trigger] step(nfa, state_set(dfa.sources@[r]@), c)
}

/// The sources of every state of a subset construction are closed under epsilon links:
/// state 0 stands for the closure of the start state and every other state for a `step`
/// of a state in a row above it. The exported sources are among the sources.
pub proof fn lemma_sources_closure_stable(nfa: &Nfa, dfa: &Dfa)
    requires
        nfa.wf(),
        is_subset_construction(nfa, dfa),
    ensures
        forall|i: int, q: int|
            0 <= i < dfa.sources@.len() && #[trigger] state_set(dfa.sources@[i]@).contains(q)
                ==> closure(nfa, q).subset_of(state_set(dfa.sources@[i]@)),
        forall|i: int|
            1 <= i < dfa.sources@.len() ==> #[trigger] reached_by_step(nfa, dfa, i),
        forall|i: int|
            0 <= i < dfa.sources@.len() ==> #[trigger] state_set(
                dfa.exported_sources@[i]@,
            ).subset_of(state_set(dfa.sources@[i]@)),
{
    let links = dfa.links@;
    let cols = dfa.links.spec_columns() as int;
    assert forall|i: int| 1 <= i < dfa.sources@.len() implies #[trigger] reached_by_step(nfa, dfa, i) by {
        assert(seen_before(links, cols, i, 0, i as usize));
        let (r, c) = choose|r: int, c: int|
            0 <= r < links.len() && 0 <= c < cols && precedes(r, c, i, 0) && #[trigger] links[r][c]
                == i as usize;
        assert(transition_ok(nfa, dfa, r, c));
        if step(nfa, state_set(dfa.sources@[r]@), c) == Set::<int>::empty() {
            assert(links[r][c] == INVALID);
        }
    }
    assert forall|i: int, q: int|
        0 <= i < dfa.sources@.len() && #[trigger] state_set(dfa.sources@[i]@).contains(q)
            implies closure(nfa, q).subset_of(state_set(dfa.sources@[i]@)) by {
        let set = state_set(dfa.sources@[i]@);
        if i == 0 {
            assert forall|t: int| closure(nfa, q).contains(t) implies set.contains(t) by {
                lemma_closure_transitive(nfa, nfa.start as int, q, t);
            }
        } else {
            assert(reached_by_step(nfa, dfa, i));
            let (r, c) = choose|r: int, c: int|
                0 <= r < i && 0 <= c < cols && state_set(dfa.sources@[i]@) == #[trigger] step(
                    nfa,
                    state_set(dfa.sources@[r]@),
                    c,
                );
            let from = state_set(dfa.sources@[r]@);
            assert forall|t: int| closure(nfa, q).contains(t) implies set.contains(t) by {
                let p = choose|p: int| #[trigger] contributes(nfa, from, c, p, q);
                lemma_closure_transitive(nfa, direct(nfa, p, c) as int, q, t);
                assert(contributes(nfa, from, c, p, t));
            }
        }
    }
}

} // verus!
