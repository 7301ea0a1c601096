//! Walking an input against a deterministic automaton, one symbol at a time.

use vstd::prelude::*;

use crate::alphabet::EOF;
use crate::alphabet::range_end;
use crate::codegen::{branch_column, branch_next};
use crate::dfa::{matrix_next, Dfa, START_STATE};
use crate::matrix::INVALID;

verus! {

/// The symbols of a text: the code point of each character, in order.
pub open spec fn symbols_of(s: Seq<char>) -> Seq<u32> {
    s.map_values(|ch: char| ch as u32)
}

/// The input position and the current state of a scan.
#[derive(Clone, Debug)]
pub struct Parser {
    /// The symbols to scan.
    pub input: Vec<u32>,
    /// How many symbols have been consumed: the index of the current one.
    pub position: usize,
    /// The symbol under the cursor, `EOF` once the input has run out.
    pub current_input: u32,
    /// The current state.
    pub dfa_state: usize,
}

/// The symbol at `position`, or `EOF` past the end.
pub open spec fn symbol_at(input: Seq<u32>, position: int) -> u32 {
    if 0 <= position < input.len() {
        input[position]
    } else {
        EOF
    }
}

impl Parser {
    /// The cursor agrees with the input: the current symbol is the one at the position.
    pub open spec fn wf(&self) -> bool {
        &&& self.position <= self.input@.len()
        &&& self.current_input == symbol_at(self.input@, self.position as int)
    }

    /// A scan of `input` in the start state with its first symbol loaded.
    pub fn new(input: &str) -> (p: Parser)
        ensures
            p.wf(),
            p.input@ == symbols_of(input@),
            p.position == 0,
            p.dfa_state == START_STATE,
    {
        let mut symbols: Vec<u32> = Vec::new();
        for ch in it: input.chars()
            invariant
                symbols@ == symbols_of(it.seq().subrange(0, it.index() as int)),
        {
            symbols.push(ch as u32);
        }
        let mut p = Parser { input: symbols, position: 0, current_input: EOF, dfa_state: START_STATE };
        p.init();
        p
    }

    /// Loads the symbol at the current position.
    fn init(&mut self)
        requires
            old(self).position <= old(self).input@.len(),
        ensures
            final(self).wf(),
            final(self).input@ == old(self).input@,
            final(self).position == old(self).position,
            final(self).dfa_state == old(self).dfa_state,
    {
        if self.position < self.input.len() {
            self.current_input = self.input[self.position];
        } else {
            self.current_input = EOF;
        }
    }

    /// Consumes the current symbol and loads the next one, or `EOF` if there is none.
    /// At the end of the input nothing changes.
    pub fn next_input_char(&mut self)
        requires
            old(self).wf(),
        ensures
            final(self).wf(),
            final(self).input@ == old(self).input@,
            final(self).dfa_state == old(self).dfa_state,
            final(self).position == if old(self).position < old(self).input@.len() {
                old(self).position + 1
            } else {
                old(self).position as int
            },
    {
        if self.position < self.input.len() {
            self.position = self.position + 1;
        }
        self.init();
    }
}

impl Parser {
    /// One step through the transition matrix: moves to the next state and consumes the
    /// symbol, or, with no transition, changes nothing and returns `false`.
    pub fn step(&mut self, dfa: &Dfa) -> (moved: bool)
        requires
            old(self).wf(),
            dfa.wf(),
        ensures
            final(self).wf(),
            final(self).input@ == old(self).input@,
            moved == (matrix_next(dfa, old(self).dfa_state as int, old(self).current_input)
                != INVALID),
            moved ==> final(self).dfa_state == matrix_next(
                dfa,
                old(self).dfa_state as int,
                old(self).current_input,
            ),
            moved ==> final(self).position == if old(self).position < old(self).input@.len() {
                old(self).position + 1
            } else {
                old(self).position as int
            },
            !moved ==> *final(self) == *old(self),
    {
        let next = dfa.next_state(self.dfa_state, self.current_input);
        if next == INVALID {
            false
        } else {
            self.dfa_state = next;
            self.next_input_char();
            true
        }
    }

    /// One step as the generated routine of the current state takes it: the intervals are
    /// tested in column order and the first that holds the symbol decides.
    pub fn step_branches(&mut self, dfa: &Dfa) -> (moved: bool)
        requires
            old(self).wf(),
            dfa.wf(),
        ensures
            final(self).wf(),
            final(self).input@ == old(self).input@,
            moved == (branch_next(dfa, old(self).dfa_state as int, old(self).current_input)
                != INVALID),
            moved ==> final(self).dfa_state == branch_next(
                dfa,
                old(self).dfa_state as int,
                old(self).current_input,
            ),
            moved ==> final(self).position == if old(self).position < old(self).input@.len() {
                old(self).position + 1
            } else {
                old(self).position as int
            },
            !moved ==> *final(self) == *old(self),
    {
        let ranges = dfa.alphabet.ranges();
        let sym = self.current_input;
        let mut c: usize = 0;
        while c < ranges.len()
            invariant
                dfa.wf(),
                ranges@.len() == dfa.alphabet@.len(),
                forall|i: int|
                    0 <= i < ranges@.len() ==> ranges@[i] == (
                        dfa.alphabet@[i],
                        range_end(dfa.alphabet@, i),
                    ),
                0 <= c <= ranges@.len(),
                *self == *old(self),
                self.wf(),
                sym == self.current_input,
                branch_column(dfa.alphabet@, sym, 0) == branch_column(dfa.alphabet@, sym, c as int),
            decreases ranges@.len() - c,
        {
            let (start, end) = ranges[c];
            if start <= sym && sym <= end {
                let target = dfa.links.get(self.dfa_state, c);
                if target == INVALID {
                    return false;
                }
                self.dfa_state = target;
                self.next_input_char();
                return true;
            }
            c = c + 1;
        }
        false
    }
}

} // verus!
