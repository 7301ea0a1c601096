//! The nondeterministic automaton that determinization starts from.

use vstd::prelude::*;

use crate::alphabet::{divisions_wf, is_column_of, Segmentation, EOF};
use crate::matrix::INVALID;

verus! {

/// A transition on every symbol of `start ..= end` to `target`.
#[derive(Clone, Copy, Debug, PartialEq, Eq)]
pub struct Transition {
    pub start: u32,
    pub end: u32,
    pub target: usize,
}

/// One state: its epsilon links, its symbol transitions, and whether it completes a rule.
#[derive(Clone, Debug, PartialEq, Eq)]
pub struct State {
    pub epsilon_links: Vec<usize>,
    pub links: Vec<Transition>,
    pub export: bool,
}

/// An automaton whose states are numbered by their position in `states`.
#[derive(Clone, Debug, PartialEq, Eq)]
pub struct Nfa {
    pub start: usize,
    pub alphabet: Segmentation,
    pub states: Vec<State>,
}

/// The number of states of `nfa`.
pub open spec fn num_states(nfa: &Nfa) -> int {
    nfa.states@.len() as int
}

/// There is an epsilon link from `a` to `b`.
pub open spec fn eps_edge(nfa: &Nfa, a: int, b: int) -> bool {
    &&& 0 <= a < num_states(nfa)
    &&& 0 <= b < num_states(nfa)
    &&& nfa.states@[a].epsilon_links@.contains(b as usize)
}

/// `b` is reached from `a` along exactly `k` epsilon links.
pub open spec fn eps_path(nfa: &Nfa, a: int, b: int, k: nat) -> bool
    decreases k,
{
    if k == 0 {
        a == b
    } else {
        exists|m: int| eps_path(nfa, a, m, (k - 1) as nat) && #[trigger] eps_edge(nfa, m, b)
    }
}

/// The epsilon closure of `a`: `a` and every state reached from it along epsilon links.
pub open spec fn closure(nfa: &Nfa, a: int) -> Set<int> {
    Set::new(|b: int| exists|k: nat| #[trigger] eps_path(nfa, a, b, k))
}

/// The target of the first transition in `links` whose range holds `sym`, or `INVALID`.
pub open spec fn first_target(links: Seq<Transition>, sym: u32) -> usize
    decreases links.len(),
{
    if links.len() == 0 {
        INVALID
    } else if links[0].start <= sym <= links[0].end {
        links[0].target
    } else {
        first_target(links.drop_first(), sym)
    }
}

/// The range of `t` is a union of whole columns of the alphabet with divisions `d`: it
/// starts at a division and ends right before one, or at the largest symbol.
pub open spec fn aligned(d: Seq<u32>, t: Transition) -> bool {
    &&& d.contains(t.start)
    &&& (t.end == EOF || d.contains((t.end + 1) as u32))
}

/// The target that state `q` reaches, ignoring epsilon links, on the symbols of column `c`.
/// It is read at the column's first symbol; in a well-formed automaton every transition is
/// aligned with the columns, so every symbol of the column gives the same target (see
/// `lemma_direct_any_symbol`).
pub open spec fn direct(nfa: &Nfa, q: int, c: int) -> usize {
    first_target(nfa.states@[q].links@, nfa.alphabet@[c])
}

proof fn lemma_aligned_same_test(d: Seq<u32>, t: Transition, c: int, sym: u32)
    requires
        divisions_wf(d),
        aligned(d, t),
        is_column_of(d, sym, c),
    ensures
        (t.start <= d[c] && d[c] <= t.end) == (t.start <= sym && sym <= t.end),
{
    let j = choose|j: int| 0 <= j < d.len() && d[j] == t.start;
    if j > c {
        assert(d[c + 1] <= d[j]) by {
            if c + 1 < j {
                assert(d[c + 1] < d[j]);
            }
        }
    } else if j < c {
        assert(d[j] < d[c]);
    }
    if t.end != EOF {
        let m = choose|m: int| 0 <= m < d.len() && d[m] == (t.end + 1) as u32;
        if m > c {
            assert(d[c + 1] <= d[m]) by {
                if c + 1 < m {
                    assert(d[c + 1] < d[m]);
                }
            }
        } else if m < c {
            assert(d[m] < d[c]);
        }
    }
}

proof fn lemma_first_target_aligned(d: Seq<u32>, links: Seq<Transition>, c: int, sym: u32)
    requires
        divisions_wf(d),
        forall|k: int| 0 <= k < links.len() ==> aligned(d, #[trigger] links[k]),
        is_column_of(d, sym, c),
    ensures
        first_target(links, sym) == first_target(links, d[c]),
    decreases links.len(),
{
    if links.len() > 0 {
        lemma_aligned_same_test(d, links[0], c, sym);
        let rest = links.drop_first();
        assert forall|k: int| 0 <= k < rest.len() implies aligned(d, #[trigger] rest[k]) by {
            assert(rest[k] == links[k + 1]);
        }
        lemma_first_target_aligned(d, rest, c, sym);
    }
}

/// In a well-formed automaton, every symbol of column `c` leads from `q` to the same
/// target, ignoring epsilon links: the one that `direct` gives.
pub proof fn lemma_direct_any_symbol(nfa: &Nfa, q: int, c: int, sym: u32)
    requires
        nfa.wf(),
        0 <= q < num_states(nfa),
        is_column_of(nfa.alphabet@, sym, c),
    ensures
        first_target(nfa.states@[q].links@, sym) == direct(nfa, q, c),
{
    let links = nfa.states@[q].links@;
    assert forall|k: int| 0 <= k < links.len() implies aligned(nfa.alphabet@, #[trigger] links[k]) by {
        assert(aligned(nfa.alphabet@, nfa.states@[q].links@[k]));
    }
    lemma_first_target_aligned(nfa.alphabet@, links, c, sym);
}

impl Nfa {
    /// States, links and alphabet are consistent: every identifier names a state.
    pub open spec fn wf(&self) -> bool {
        &&& self.alphabet.wf()
        &&& 0 <= self.start < self.states@.len()
        &&& self.states@.len() < INVALID
        &&& forall|q: int, k: int|
            0 <= q < self.states@.len() && 0 <= k < self.states@[q].epsilon_links@.len()
                ==> #[trigger] self.states@[q].epsilon_links@[k] < self.states@.len()
        &&& forall|q: int, k: int|
            0 <= q < self.states@.len() && 0 <= k < self.states@[q].links@.len()
                ==> #[trigger] self.states@[q].links@[k].target < self.states@.len()
        &&& forall|q: int, k: int|
            0 <= q < self.states@.len() && 0 <= k < self.states@[q].links@.len() ==> aligned(
                self.alphabet@,
                #[trigger] self.states@[q].links@[k],
            )
    }

    /// An automaton with one state, the start state, and an alphabet of one interval.
    pub fn new() -> (r: Self)
        ensures
            r.wf(),
            r.start == 0,
            r.states@.len() == 1,
            r.alphabet@ == seq![0u32],
            r.states@[0].epsilon_links@.len() == 0,
            r.states@[0].links@.len() == 0,
            !r.states@[0].export,
    {
        let s = State { epsilon_links: Vec::new(), links: Vec::new(), export: false };
        let mut states: Vec<State> = Vec::new();
        states.push(s);
        Nfa { start: 0, alphabet: Segmentation::new(), states }
    }

    /// Adds a state with no links and returns its identifier.
    pub fn new_state(&mut self) -> (id: usize)
        requires
            old(self).wf(),
            old(self).states@.len() + 1 < INVALID,
        ensures
            final(self).wf(),
            id == old(self).states@.len(),
            final(self).start == old(self).start,
            final(self).alphabet == old(self).alphabet,
            final(self).states@.len() == old(self).states@.len() + 1,
            final(self).states@.subrange(0, id as int) == old(self).states@,
            final(self).states@[id as int].epsilon_links@.len() == 0,
            final(self).states@[id as int].links@.len() == 0,
            !final(self).states@[id as int].export,
    {
        let id = self.states.len();
        self.states.push(State { epsilon_links: Vec::new(), links: Vec::new(), export: false });
        assert(self.states@.subrange(0, id as int) =~= old(self).states@);
        id
    }

    /// Adds a state that completes a rule and returns its identifier.
    pub fn new_state_exported(&mut self) -> (id: usize)
        requires
            old(self).wf(),
            old(self).states@.len() + 1 < INVALID,
        ensures
            final(self).wf(),
            id == old(self).states@.len(),
            final(self).start == old(self).start,
            final(self).alphabet == old(self).alphabet,
            final(self).states@.len() == old(self).states@.len() + 1,
            final(self).states@.subrange(0, id as int) == old(self).states@,
            final(self).states@[id as int].epsilon_links@.len() == 0,
            final(self).states@[id as int].links@.len() == 0,
            final(self).states@[id as int].export,
    {
        let id = self.states.len();
        self.states.push(State { epsilon_links: Vec::new(), links: Vec::new(), export: true });
        assert(self.states@.subrange(0, id as int) =~= old(self).states@);
        id
    }

    /// Marks state `id` as completing a rule, or not.
    pub fn set_export(&mut self, id: usize, export: bool)
        requires
            old(self).wf(),
            id < old(self).states@.len(),
        ensures
            final(self).wf(),
            final(self).start == old(self).start,
            final(self).alphabet == old(self).alphabet,
            final(self).states@ == old(self).states@.update(
                id as int,
                State { export, ..old(self).states@[id as int] },
            ),
    {
        let mut s = State { epsilon_links: Vec::new(), links: Vec::new(), export };
        core::mem::swap(&mut s, &mut self.states[id]);
        s.export = export;
        self.states.set(id, s);
        proof {
            let n = self.states@;
            assert forall|q: int, k: int|
                0 <= q < n.len() && 0 <= k < n[q].epsilon_links@.len() implies #[trigger] n[q].epsilon_links@[k]
                < n.len() by {
                assert(n[q].epsilon_links == old(self).states@[q].epsilon_links);
            }
            assert forall|q: int, k: int|
                0 <= q < n.len() && 0 <= k < n[q].links@.len() implies #[trigger] n[q].links@[k].target
                < n.len() by {
                assert(n[q].links == old(self).states@[q].links);
            }
        }
    }

    /// Adds an epsilon link from `source` to `target`.
    pub fn connect_eps(&mut self, source: usize, target: usize)
        requires
            old(self).wf(),
            source < old(self).states@.len(),
            target < old(self).states@.len(),
        ensures
            final(self).wf(),
            final(self).start == old(self).start,
            final(self).alphabet == old(self).alphabet,
            final(self).states@.len() == old(self).states@.len(),
            forall|q: int|
                0 <= q < final(self).states@.len() && q != source ==> #[trigger] final(self).states@[q]
                    == old(self).states@[q],
            final(self).states@[source as int].epsilon_links@ == old(
                self,
            ).states@[source as int].epsilon_links@.push(target),
            final(self).states@[source as int].links == old(self).states@[source as int].links,
            final(self).states@[source as int].export == old(self).states@[source as int].export,
    {
        let mut s = State { epsilon_links: Vec::new(), links: Vec::new(), export: false };
        core::mem::swap(&mut s, &mut self.states[source]);
        s.epsilon_links.push(target);
        self.states.set(source, s);
        proof {
            let n = self.states@;
            assert forall|q: int, k: int|
                0 <= q < n.len() && 0 <= k < n[q].epsilon_links@.len() implies #[trigger] n[q].epsilon_links@[k]
                < n.len() by {
                if q != source {
                    assert(n[q] == old(self).states@[q]);
                } else if k < n[q].epsilon_links@.len() - 1 {
                    assert(n[q].epsilon_links@[k] == old(self).states@[q].epsilon_links@[k]);
                }
            }
            assert forall|q: int, k: int|
                0 <= q < n.len() && 0 <= k < n[q].links@.len() implies #[trigger] n[q].links@[k].target
                < n.len() by {
                assert(n[q].links == old(self).states@[q].links);
            }
        }
    }

    /// Adds a transition from `source` to `target` on the symbols `start ..= end`, and
    /// splits the alphabet so that this range is a union of whole columns.
    pub fn connect(&mut self, source: usize, target: usize, start: u32, end: u32)
        requires
            old(self).wf(),
            source < old(self).states@.len(),
            target < old(self).states@.len(),
            start <= end,
        ensures
            final(self).wf(),
            final(self).start == old(self).start,
            final(self).alphabet@.to_set() == if end < EOF {
                old(self).alphabet@.to_set().insert(start).insert((end + 1) as u32)
            } else {
                old(self).alphabet@.to_set().insert(start)
            },
            final(self).states@.len() == old(self).states@.len(),
            forall|q: int|
                0 <= q < final(self).states@.len() && q != source ==> #[trigger] final(self).states@[q]
                    == old(self).states@[q],
            final(self).states@[source as int].links@ == old(
                self,
            ).states@[source as int].links@.push(Transition { start, end, target }),
            final(self).states@[source as int].epsilon_links == old(
                self,
            ).states@[source as int].epsilon_links,
            final(self).states@[source as int].export == old(self).states@[source as int].export,
    {
        self.alphabet.insert(start, end);
        let mut s = State { epsilon_links: Vec::new(), links: Vec::new(), export: false };
        core::mem::swap(&mut s, &mut self.states[source]);
        s.links.push(Transition { start, end, target });
        self.states.set(source, s);
        proof {
            let n = self.states@;
            assert forall|q: int, k: int|
                0 <= q < n.len() && 0 <= k < n[q].epsilon_links@.len() implies #[trigger] n[q].epsilon_links@[k]
                < n.len() by {
                assert(n[q].epsilon_links == old(self).states@[q].epsilon_links);
            }
            assert forall|q: int, k: int|
                0 <= q < n.len() && 0 <= k < n[q].links@.len() implies #[trigger] n[q].links@[k].target
                < n.len() by {
                if q != source {
                    assert(n[q] == old(self).states@[q]);
                } else if k < n[q].links@.len() - 1 {
                    assert(n[q].links@[k] == old(self).states@[q].links@[k]);
                }
            }
            let d0 = old(self).alphabet@;
            let d1 = self.alphabet@;
            assert forall|x: u32| d0.contains(x) implies d1.contains(x) by {
                assert(d0.to_set().contains(x));
                assert(d1.to_set().contains(x));
            }
            assert(d1.to_set().contains(start));
            if end < EOF {
                assert(d1.to_set().contains((end + 1) as u32));
            }
            assert forall|q: int, k: int|
                0 <= q < n.len() && 0 <= k < n[q].links@.len() implies aligned(
                d1,
                #[trigger] n[q].links@[k],
            ) by {
                if q != source {
                    assert(n[q] == old(self).states@[q]);
                    assert(aligned(d0, n[q].links@[k]));
                } else if k < n[q].links@.len() - 1 {
                    assert(n[q].links@[k] == old(self).states@[q].links@[k]);
                    assert(aligned(d0, n[q].links@[k]));
                }
            }
        }
    }
}

} // verus!
