//! The subset construction is unique: its contract fixes every transition and every
//! state's set, so repeated constructions from one automaton agree exactly.

use vstd::prelude::*;

use crate::closure::{lemma_canonical_unique, state_set};
use crate::dfa::{is_subset_construction, precedes, seen_before, step, transition_ok, Dfa};
use crate::matrix::INVALID;
use crate::nfa::{closure, num_states, Nfa};

verus! {

/// The two matrices agree at every position before (`i`, `c`).
spec fn cells_agree(l1: Seq<Seq<usize>>, l2: Seq<Seq<usize>>, cols: int, i: int, c: int) -> bool {
    forall|r: int, d: int|
        0 <= r && 0 <= d < cols && precedes(r, d, i, c) ==> r < l1.len() && r < l2.len()
            && #[trigger] l1[r][d] == l2[r][d]
}

/// The start state and every state met before (`i`, `c`) stand for the same set in both.
spec fn sets_agree(d1: &Dfa, d2: &Dfa, cols: int, i: int, c: int) -> bool {
    forall|k: int|
        0 <= k < d1.links@.len() && (k == 0 || seen_before(d1.links@, cols, i, c, k as usize))
            ==> #[trigger] same_set_at(d1, d2, k)
}

/// State `k` exists in both and stands for the same set.
spec fn same_set_at(d1: &Dfa, d2: &Dfa, k: int) -> bool {
    k < d2.links@.len() && state_set(d1.sources@[k]@) == state_set(d2.sources@[k]@)
}

spec fn agree(d1: &Dfa, d2: &Dfa, cols: int, i: int, c: int) -> bool {
    cells_agree(d1.links@, d2.links@, cols, i, c) && sets_agree(d1, d2, cols, i, c)
}

/// The contract, kept closed so that each proof below opens only the facts it uses.
#[verifier::opaque]
spec fn built(nfa: &Nfa, d: &Dfa) -> bool {
    is_subset_construction(nfa, d)
}

proof fn fact_basic(nfa: &Nfa, d: &Dfa)
    requires
        built(nfa, d),
    ensures
        1 <= d.links@.len() <= usize::MAX,
        d.links.spec_columns() == nfa.alphabet@.len(),
        d.sources@.len() == d.links@.len(),
        state_set(d.sources@[0]@) == closure(nfa, nfa.start as int),
        forall|r: int| 0 <= r < d.links@.len() ==> #[trigger] d.links@[r].len() == d.links.spec_columns(),
{
    reveal(built);
}

proof fn fact_transition(nfa: &Nfa, d: &Dfa, r: int, c: int)
    requires
        built(nfa, d),
        0 <= r < d.links@.len(),
        0 <= c < d.links.spec_columns(),
    ensures
        transition_ok(nfa, d, r, c),
{
    reveal(built);
}

proof fn fact_distinct(nfa: &Nfa, d: &Dfa, a: int, b: int)
    requires
        built(nfa, d),
        0 <= a < d.links@.len(),
        0 <= b < d.links@.len(),
        a != b,
    ensures
        state_set(d.sources@[a]@) != state_set(d.sources@[b]@),
{
    reveal(built);
    if b < a {
        assert(state_set(d.sources@[b]@) != state_set(d.sources@[a]@));
    }
}

proof fn fact_reached(nfa: &Nfa, d: &Dfa, j: int)
    requires
        built(nfa, d),
        1 <= j < d.links@.len(),
    ensures
        seen_before(d.links@, d.links.spec_columns() as int, j, 0, j as usize),
{
    reveal(built);
}

proof fn fact_fresh(nfa: &Nfa, d: &Dfa, i: int, c: int, k: int)
    requires
        built(nfa, d),
        0 <= i < d.links@.len(),
        0 <= c < d.links.spec_columns(),
        d.links@[i][c] != INVALID,
        d.links@[i][c] != 0,
        !seen_before(d.links@, d.links.spec_columns() as int, i, c, d.links@[i][c]),
        1 <= k < d.links@[i][c],
    ensures
        seen_before(d.links@, d.links.spec_columns() as int, i, c, k as usize),
{
    reveal(built);
}

/// A cell that holds a state names one of the automaton's rows.
proof fn fact_valid_cell(nfa: &Nfa, d: &Dfa, r: int, c: int)
    requires
        built(nfa, d),
        0 <= r < d.links@.len(),
        0 <= c < d.links.spec_columns(),
        d.links@[r][c] < d.links@.len() || d.links@[r][c] != INVALID,
    ensures
        d.links@[r][c] < d.links@.len(),
{
    reveal(built);
    assert(transition_ok(nfa, d, r, c));
}

proof fn lemma_seen_same(l1: Seq<Seq<usize>>, l2: Seq<Seq<usize>>, cols: int, i: int, c: int, v: usize)
    requires
        cells_agree(l1, l2, cols, i, c),
    ensures
        seen_before(l1, cols, i, c, v) == seen_before(l2, cols, i, c, v),
{
    if seen_before(l1, cols, i, c, v) {
        let (r, d) = choose|r: int, d: int|
            0 <= r < l1.len() && 0 <= d < cols && precedes(r, d, i, c) && #[trigger] l1[r][d] == v;
        assert(l2[r][d] == v);
    }
    if seen_before(l2, cols, i, c, v) {
        let (r, d) = choose|r: int, d: int|
            0 <= r < l2.len() && 0 <= d < cols && precedes(r, d, i, c) && #[trigger] l2[r][d] == v;
        assert(l1[r][d] == l2[r][d]);
    }
}

proof fn lemma_agree_step(nfa: &Nfa, d1: &Dfa, d2: &Dfa, cols: int, i: int, c: int)
    requires
        built(nfa, d1),
        built(nfa, d2),
        d2.links.spec_columns() == cols,
        cols == d1.links.spec_columns(),
        0 <= i < d1.links@.len(),
        i < d2.links@.len(),
        0 <= c < cols,
        agree(d1, d2, cols, i, c),
    ensures
        agree(d1, d2, cols, i, c + 1),
{
    let l1 = d1.links@;
    let l2 = d2.links@;
    fact_basic(nfa, d1);
    fact_basic(nfa, d2);
    assert(state_set(d1.sources@[i]@) == state_set(d2.sources@[i]@)) by {
        if i > 0 {
            fact_reached(nfa, d1, i);
            let (r, d) = choose|r: int, d: int|
                0 <= r < l1.len() && 0 <= d < cols && precedes(r, d, i, 0) && #[trigger] l1[r][d]
                    == i as usize;
            assert(precedes(r, d, i, c));
            assert(seen_before(l1, cols, i, c, i as usize));
        }
        assert(same_set_at(d1, d2, i));
    }
    let t = step(nfa, state_set(d1.sources@[i]@), c);
    fact_transition(nfa, d1, i, c);
    fact_transition(nfa, d2, i, c);
    let v1 = l1[i][c];
    let v2 = l2[i][c];
    if t != Set::<int>::empty() {
        let old1 = v1 == 0 || seen_before(l1, cols, i, c, v1);
        let old2 = v2 == 0 || seen_before(l2, cols, i, c, v2);
        lemma_seen_same(l1, l2, cols, i, c, v1);
        lemma_seen_same(l1, l2, cols, i, c, v2);
        if old1 {
            assert(same_set_at(d1, d2, v1 as int));
            if v1 != v2 {
                fact_distinct(nfa, d2, v1 as int, v2 as int);
            }
        } else if old2 {
            if v2 != 0 {
                let (r, d) = choose|r: int, d: int|
                    0 <= r < l1.len() && 0 <= d < cols && precedes(r, d, i, c) && #[trigger] l1[r][d]
                        == v2;
                fact_valid_cell(nfa, d1, r, d);
            }
            assert(same_set_at(d1, d2, v2 as int));
            if v1 != v2 {
                fact_distinct(nfa, d1, v1 as int, v2 as int);
            }
        } else {
            if v1 < v2 {
                fact_fresh(nfa, d2, i, c, v1 as int);
            } else if v2 < v1 {
                fact_fresh(nfa, d1, i, c, v2 as int);
            }
        }
    }
    assert(v1 == v2);
    assert forall|r: int, d: int| 0 <= r && 0 <= d < cols && precedes(r, d, i, c + 1) implies r < l1.len()
        && r < l2.len() && #[trigger] l1[r][d] == l2[r][d] by {
        if !(r == i && d == c) {
            assert(precedes(r, d, i, c));
        }
    }
    assert forall|k: int|
        0 <= k < l1.len() && (k == 0 || seen_before(l1, cols, i, c + 1, k as usize)) implies #[trigger] same_set_at(d1, d2, k) by {
        if k != 0 && !seen_before(l1, cols, i, c, k as usize) {
            let (r, d) = choose|r: int, d: int|
                0 <= r < l1.len() && 0 <= d < cols && precedes(r, d, i, c + 1) && #[trigger] l1[r][d]
                    == k as usize;
            if !(r == i && d == c) {
                assert(precedes(r, d, i, c));
                assert(seen_before(l1, cols, i, c, k as usize));
            }
            assert(v1 == k as usize);
            assert(t != Set::<int>::empty());
            assert(state_set(d2.sources@[v2 as int]@) == t);
        }
        assert(same_set_at(d1, d2, k));
    }
}

proof fn lemma_agree_upto(nfa: &Nfa, d1: &Dfa, d2: &Dfa, cols: int, i: int, c: int)
    requires
        built(nfa, d1),
        built(nfa, d2),
        d2.links.spec_columns() == cols,
        cols == d1.links.spec_columns(),
        0 <= i,
        0 <= c <= cols,
        (i < d1.links@.len() && i < d2.links@.len()) || c == 0,
        i <= d1.links@.len(),
        i <= d2.links@.len(),
    ensures
        agree(d1, d2, cols, i, c),
    decreases i, c,
{
    let l1 = d1.links@;
    let l2 = d2.links@;
    fact_basic(nfa, d1);
    fact_basic(nfa, d2);
    if c > 0 {
        lemma_agree_upto(nfa, d1, d2, cols, i, c - 1);
        lemma_agree_step(nfa, d1, d2, cols, i, c - 1);
    } else if i > 0 {
        lemma_agree_upto(nfa, d1, d2, cols, i - 1, cols);
        assert forall|r: int, d: int| 0 <= r && 0 <= d < cols && precedes(r, d, i, 0) implies r
            < l1.len() && r < l2.len() && #[trigger] l1[r][d] == l2[r][d] by {
            assert(precedes(r, d, i - 1, cols));
        }
        assert forall|k: int|
            0 <= k < l1.len() && (k == 0 || seen_before(l1, cols, i, 0, k as usize)) implies #[trigger] same_set_at(d1, d2, k) by {
            if k != 0 {
                let (r, d) = choose|r: int, d: int|
                    0 <= r < l1.len() && 0 <= d < cols && precedes(r, d, i, 0) && #[trigger] l1[r][d]
                        == k as usize;
                assert(precedes(r, d, i - 1, cols));
                assert(seen_before(l1, cols, i - 1, cols, k as usize));
            }
            assert(same_set_at(d1, d2, k));
        }
    } else {
        assert forall|k: int|
            0 <= k < l1.len() && (k == 0 || seen_before(l1, cols, 0, 0, k as usize)) implies #[trigger] same_set_at(d1, d2, k) by {
            if k != 0 {
                let (r, d) = choose|r: int, d: int|
                    0 <= r < l1.len() && 0 <= d < cols && precedes(r, d, 0, 0) && #[trigger] l1[r][d]
                        == k as usize;
            }
        }
    }
}

proof fn lemma_built_unique(nfa: &Nfa, d1: &Dfa, d2: &Dfa)
    requires
        built(nfa, d1),
        built(nfa, d2),
    ensures
        d1.links@ == d2.links@,
        forall|k: int|
            0 <= k < d1.links@.len() ==> #[trigger] state_set(d1.sources@[k]@) == state_set(
                d2.sources@[k]@,
            ),
{
    let l1 = d1.links@;
    let l2 = d2.links@;
    let cols = d1.links.spec_columns() as int;
    fact_basic(nfa, d1);
    fact_basic(nfa, d2);
    if l1.len() < l2.len() {
        let m = l1.len() as int;
        lemma_agree_upto(nfa, d1, d2, cols, m, 0);
        fact_reached(nfa, d2, m);
        let (r, d) = choose|r: int, d: int|
            0 <= r < l2.len() && 0 <= d < cols && precedes(r, d, m, 0) && #[trigger] l2[r][d]
                == m as usize;
        assert(l1[r][d] == l2[r][d]);
        fact_valid_cell(nfa, d1, r, d);
    } else if l2.len() < l1.len() {
        let m = l2.len() as int;
        lemma_agree_upto(nfa, d1, d2, cols, m, 0);
        fact_reached(nfa, d1, m);
        let (r, d) = choose|r: int, d: int|
            0 <= r < l1.len() && 0 <= d < cols && precedes(r, d, m, 0) && #[trigger] l1[r][d]
                == m as usize;
        assert(l1[r][d] == l2[r][d]);
        fact_valid_cell(nfa, d2, r, d);
    } else {
        let m = l1.len() as int;
        lemma_agree_upto(nfa, d1, d2, cols, m, 0);
        assert forall|r: int| 0 <= r < m implies #[trigger] l1[r] == l2[r] by {
            assert forall|d: int| 0 <= d < cols implies l1[r][d] == l2[r][d] by {
                assert(precedes(r, d, m, 0));
            }
            assert(l1[r] =~= l2[r]);
        }
        assert(l1 =~= l2);
        assert forall|k: int| 0 <= k < m implies #[trigger] state_set(d1.sources@[k]@) == state_set(
            d2.sources@[k]@,
        ) by {
            if k > 0 {
                fact_reached(nfa, d1, k);
                let (r, d) = choose|r: int, d: int|
                    0 <= r < l1.len() && 0 <= d < cols && precedes(r, d, k, 0) && #[trigger] l1[r][d]
                        == k as usize;
                assert(precedes(r, d, m, 0));
                assert(seen_before(l1, cols, m, 0, k as usize));
            }
            assert(same_set_at(d1, d2, k));
        }
    }
}

/// Two subset constructions of one automaton are the same: equal transition matrices and
/// equal source lists. Determinization is therefore deterministic: two runs on one
/// automaton yield identical results.
pub proof fn lemma_subset_construction_unique(nfa: &Nfa, d1: &Dfa, d2: &Dfa)
    requires
        is_subset_construction(nfa, d1),
        is_subset_construction(nfa, d2),
    ensures
        d1.links@ == d2.links@,
        d1.sources@.len() == d2.sources@.len(),
        forall|k: int| 0 <= k < d1.sources@.len() ==> #[trigger] d1.sources@[k]@ == d2.sources@[k]@,
        d1.exported_sources@.len() == d2.exported_sources@.len(),
        forall|k: int|
            0 <= k < d1.exported_sources@.len() ==> #[trigger] d1.exported_sources@[k]@
                == d2.exported_sources@[k]@,
{
    reveal(built);
    lemma_built_unique(nfa, d1, d2);
    assert forall|k: int| 0 <= k < d1.sources@.len() implies #[trigger] d1.sources@[k]@
        == d2.sources@[k]@ by {
        assert(state_set(d1.sources@[k]@) == state_set(d2.sources@[k]@));
        lemma_canonical_unique(d1.sources@[k]@, d2.sources@[k]@, num_states(nfa));
    }
    assert forall|k: int| 0 <= k < d1.exported_sources@.len() implies #[trigger] d1.exported_sources@[k]@
        == d2.exported_sources@[k]@ by {
        assert(d1.sources@[k]@ == d2.sources@[k]@);
        lemma_canonical_unique(
            d1.exported_sources@[k]@,
            d2.exported_sources@[k]@,
            num_states(nfa),
        );
    }
}

} // verus!
