//! Generating one branch-based stepping routine per state, plus a dispatch table.
//!
//! The routine of a state tests the current symbol against the alphabet's intervals in
//! column order. The first interval that holds it decides: with no transition the routine
//! does nothing, otherwise it moves to the target state and consumes the symbol.

use vstd::prelude::*;

use crate::alphabet::{column_of, divisions_wf, is_column_of, lemma_column_exists, range_end};
use crate::dfa::{matrix_next, Dfa};
use crate::matrix::INVALID;
use crate::text::{decimal, push_decimal};

verus! {

/// The first column, from `c` on, whose interval holds `sym`; -1 if there is none.
pub open spec fn branch_column(d: Seq<u32>, sym: u32, c: int) -> int
    decreases d.len() - c,
{
    if c < 0 || c >= d.len() {
        -1
    } else if d[c] <= sym && sym <= range_end(d, c) {
        c
    } else {
        branch_column(d, sym, c + 1)
    }
}

/// The state that the generated routine of `state` moves to on `sym`, or `INVALID` when it
/// leaves the state and the input as they are.
pub open spec fn branch_next(dfa: &Dfa, state: int, sym: u32) -> usize {
    let c = branch_column(dfa.alphabet@, sym, 0);
    if c < 0 {
        INVALID
    } else {
        dfa.links.cell(state, c)
    }
}

/// The final state and the number of consumed symbols when `input` is fed to the matrix
/// from `state` until a transition is missing or the input runs out.
pub open spec fn drive_matrix(dfa: &Dfa, state: int, input: Seq<u32>) -> (int, nat)
    decreases input.len(),
{
    if input.len() == 0 {
        (state, 0)
    } else {
        let next = matrix_next(dfa, state, input[0]);
        if next == INVALID {
            (state, 0)
        } else {
            let (last, count) = drive_matrix(dfa, next as int, input.drop_first());
            (last, count + 1)
        }
    }
}

/// The same walk made with the generated routines.
pub open spec fn drive_branches(dfa: &Dfa, state: int, input: Seq<u32>) -> (int, nat)
    decreases input.len(),
{
    if input.len() == 0 {
        (state, 0)
    } else {
        let next = branch_next(dfa, state, input[0]);
        if next == INVALID {
            (state, 0)
        } else {
            let (last, count) = drive_branches(dfa, next as int, input.drop_first());
            (last, count + 1)
        }
    }
}

proof fn lemma_branch_column_from(d: Seq<u32>, sym: u32, col: int, c: int)
    requires
        divisions_wf(d),
        is_column_of(d, sym, col),
        0 <= c <= col,
    ensures
        branch_column(d, sym, c) == col,
    decreases col - c,
{
    if c < col {
        assert(d[c + 1] <= d[col]) by {
            if c + 1 < col {
                assert(d[c + 1] < d[col]);
            }
        }
        assert(range_end(d, c) < d[c + 1]);
        lemma_branch_column_from(d, sym, col, c + 1);
    }
}

/// The interval tests of a generated routine pick the column that the alphabet's lookup
/// gives, so one generated step is one matrix step.
pub proof fn lemma_branch_step_matches(dfa: &Dfa, state: int, sym: u32)
    requires
        dfa.wf(),
    ensures
        branch_next(dfa, state, sym) == matrix_next(dfa, state, sym),
{
    let d = dfa.alphabet@;
    lemma_column_exists(d, sym);
    let col = column_of(d, sym);
    lemma_branch_column_from(d, sym, col, 0);
}

/// Driving the generated routines over any input ends in the same state, after the same
/// number of consumed symbols, as driving the transition matrix.
pub proof fn lemma_generated_routines_match_matrix(dfa: &Dfa, state: int, input: Seq<u32>)
    requires
        dfa.wf(),
    ensures
        drive_branches(dfa, state, input) == drive_matrix(dfa, state, input),
    decreases input.len(),
{
    if input.len() > 0 {
        lemma_branch_step_matches(dfa, state, input[0]);
        let next = matrix_next(dfa, state, input[0]);
        if next != INVALID {
            lemma_generated_routines_match_matrix(dfa, next as int, input.drop_first());
        }
    }
}

/// The text of the branch for column `c` in the routine of state `row`.
pub open spec fn branch_text(dfa: &Dfa, row: int, c: int) -> Seq<char> {
    branch_parts(
        c == 0,
        dfa.alphabet@[c],
        range_end(dfa.alphabet@, c),
        dfa.links@[row][c],
    )
}

/// The branches for the first `k` columns of the routine of state `row`.
pub open spec fn branches_text(dfa: &Dfa, row: int, k: int) -> Seq<char>
    decreases k,
{
    if k <= 0 {
        Seq::empty()
    } else {
        branches_text(dfa, row, k - 1) + branch_text(dfa, row, k - 1)
    }
}

/// The routine of state `row`.
pub open spec fn routine_text(dfa: &Dfa, row: int) -> Seq<char> {
    "fn step_state"@ + decimal(row as nat) + "(parser: &mut Parser) {\n"@ + branches_text(
        dfa,
        row,
        dfa.links.spec_columns() as int,
    ) + "    }\n"@ + "}\n\n"@
}

/// The routines of the first `k` states.
pub open spec fn routines_text(dfa: &Dfa, k: int) -> Seq<char>
    decreases k,
{
    if k <= 0 {
        Seq::empty()
    } else {
        routines_text(dfa, k - 1) + routine_text(dfa, k - 1)
    }
}

/// The dispatch-table entries of the first `k` states.
pub open spec fn table_text(k: int) -> Seq<char>
    decreases k,
{
    if k <= 0 {
        Seq::empty()
    } else {
        table_text(k - 1) + "    step_state"@ + decimal((k - 1) as nat) + ",\n"@
    }
}

/// The generated source: every routine, then the dispatch table indexed by state.
pub open spec fn steps_code(dfa: &Dfa) -> Seq<char> {
    routines_text(dfa, dfa.links@.len() as int) + "\n"@
        + "const STEPS_LOOKUP_TABLE: &[fn(&mut Parser)] = &[\n"@ + table_text(
        dfa.links@.len() as int,
    ) + "];\n"@
}

/// The text of one branch, from its parts.
pub open spec fn branch_parts(first: bool, start: u32, end: u32, target: usize) -> Seq<char> {
    (if first {
        "    if parser.current_input >= "@
    } else {
        "    } else if parser.current_input >= "@
    }) + decimal(start as nat) + " && parser.current_input <= "@ + decimal(end as nat) + " {\n"@
        + if target == INVALID {
        "        // invalid\n"@
    } else {
        "        parser.dfa_state = "@ + decimal(target as nat) + ";\n"@
            + "        parser.next_input_char();\n"@
    }
}

fn push_branch(out: &mut String, first: bool, start: u32, end: u32, target: usize)
    ensures
        final(out)@ == old(out)@ + branch_parts(first, start, end, target),
{
    let ghost s0 = out@;
    if first {
        out.append("    if parser.current_input >= ");
    } else {
        out.append("    } else if parser.current_input >= ");
    }
    let ghost s1 = out@;
    push_decimal(out, start as usize);
    out.append(" && parser.current_input <= ");
    push_decimal(out, end as usize);
    out.append(" {\n");
    let ghost s2 = out@;
    if target == INVALID {
        out.append("        // invalid\n");
    } else {
        out.append("        parser.dfa_state = ");
        push_decimal(out, target);
        out.append(";\n");
        out.append("        parser.next_input_char();\n");
    }
    assert(out@ =~= s0 + branch_parts(first, start, end, target));
}

fn push_routine(out: &mut String, dfa: &Dfa, row: usize)
    requires
        dfa.wf(),
        row < dfa.links@.len(),
    ensures
        final(out)@ == old(out)@ + routine_text(dfa, row as int),
{
    let ranges = dfa.alphabet.ranges();
    let columns = dfa.links.columns();
    out.append("fn step_state");
    push_decimal(out, row);
    out.append("(parser: &mut Parser) {\n");
    let ghost head = out@;
    let mut c: usize = 0;
    while c < columns
        invariant
            dfa.wf(),
            row < dfa.links@.len(),
            columns == dfa.links.spec_columns(),
            ranges@.len() == dfa.alphabet@.len(),
            forall|i: int|
                0 <= i < ranges@.len() ==> ranges@[i] == (
                    dfa.alphabet@[i],
                    range_end(dfa.alphabet@, i),
                ),
            0 <= c <= columns,
            out@ == head + branches_text(dfa, row as int, c as int),
        decreases columns - c,
    {
        let (start, end) = ranges[c];
        let target = dfa.links.get(row, c);
        push_branch(out, c == 0, start, end, target);
        assert(out@ =~= head + branches_text(dfa, row as int, c + 1));
        c = c + 1;
    }
    out.append("    }\n");
    out.append("}\n\n");
    assert(final(out)@ =~= old(out)@ + routine_text(dfa, row as int));
}

/// Generates one stepping routine per state and a dispatch table indexed by state.
pub fn gen_parser_steps_code(dfa: &Dfa) -> (out: String)
    requires
        dfa.wf(),
    ensures
        out@ == steps_code(dfa),
{
    let rows = dfa.links.rows();
    let mut out = String::new();
    let mut row: usize = 0;
    while row < rows
        invariant
            dfa.wf(),
            rows == dfa.links@.len(),
            0 <= row <= rows,
            out@ == routines_text(dfa, row as int),
        decreases rows - row,
    {
        push_routine(&mut out, dfa, row);
        row = row + 1;
    }
    out.append("\n");
    out.append("const STEPS_LOOKUP_TABLE: &[fn(&mut Parser)] = &[\n");
    let ghost head = out@;
    let mut k: usize = 0;
    while k < rows
        invariant
            0 <= k <= rows,
            out@ == head + table_text(k as int),
        decreases rows - k,
    {
        out.append("    step_state");
        push_decimal(&mut out, k);
        out.append(",\n");
        assert(out@ =~= head + table_text(k + 1));
        k = k + 1;
    }
    out.append("];\n");
    assert(out@ =~= steps_code(dfa));
    out
}

} // verus!
