//! A graph-description text of a deterministic automaton, for visualization tools.

use vstd::prelude::*;

use crate::alphabet::range_end;
use crate::dfa::Dfa;
use crate::matrix::INVALID;
use crate::text::{decimal, push_decimal};

verus! {

/// The first `k` entries of `v`, separated by ", ".
pub open spec fn items_text(v: Seq<usize>, k: int) -> Seq<char>
    decreases k,
{
    if k <= 0 {
        Seq::empty()
    } else if k == 1 {
        decimal(v[0] as nat)
    } else {
        items_text(v, k - 1) + ", "@ + decimal(v[k - 1] as nat)
    }
}

/// `v` written as a bracketed list: `[0, 3, 4]`.
pub open spec fn list_text(v: Seq<usize>) -> Seq<char> {
    "["@ + items_text(v, v.len() as int) + "]"@
}

/// The node of state `row`, labelled with its sources.
pub open spec fn node_text(row: int, sources: Seq<usize>) -> Seq<char> {
    "node_"@ + decimal(row as nat) + "[label=\""@ + decimal(row as nat) + " ("@ + list_text(sources)
        + ")\"]\n"@
}

/// The edge for column `c` of state `row`, labelled with the column's interval; nothing
/// when there is no transition.
pub open spec fn edge_text(dfa: &Dfa, row: int, c: int) -> Seq<char> {
    let target = dfa.links@[row][c];
    if target == INVALID {
        Seq::empty()
    } else {
        "node_"@ + decimal(row as nat) + " -> node_"@ + decimal(target as nat) + "[label=\""@
            + decimal(dfa.alphabet@[c] as nat) + "..="@ + decimal(
            range_end(dfa.alphabet@, c) as nat,
        ) + "\"]\n"@
    }
}

/// The edges for the first `k` columns of state `row`.
pub open spec fn edges_text(dfa: &Dfa, row: int, k: int) -> Seq<char>
    decreases k,
{
    if k <= 0 {
        Seq::empty()
    } else {
        edges_text(dfa, row, k - 1) + edge_text(dfa, row, k - 1)
    }
}

/// The nodes and edges of the first `k` states.
pub open spec fn graph_body(dfa: &Dfa, k: int) -> Seq<char>
    decreases k,
{
    if k <= 0 {
        Seq::empty()
    } else {
        graph_body(dfa, k - 1) + node_text(k - 1, dfa.sources@[k - 1]@) + edges_text(
            dfa,
            k - 1,
            dfa.links.spec_columns() as int,
        )
    }
}

/// The node style line of the graph.
pub open spec fn style_text() -> Seq<char> {
    "node [shape=circle style=filled fillcolor=\"#4385f5\" fontcolor=\"#FFFFFF\" color=white penwidth=5.0 margin=0.1]"@
}

/// The whole graph description.
pub open spec fn graphviz_text(dfa: &Dfa) -> Seq<char> {
    "digraph G {\n"@ + style_text() + "\n"@ + graph_body(dfa, dfa.links@.len() as int) + "\n}\n"@
}

fn push_list(out: &mut String, v: &Vec<usize>)
    ensures
        final(out)@ == old(out)@ + list_text(v@),
{
    out.append("[");
    let ghost head = out@;
    let mut k: usize = 0;
    while k < v.len()
        invariant
            0 <= k <= v@.len(),
            out@ == head + items_text(v@, k as int),
        decreases v@.len() - k,
    {
        let ghost before = out@;
        if k > 0 {
            out.append(", ");
        }
        push_decimal(out, v[k]);
        assert(out@ =~= head + items_text(v@, k + 1));
        k = k + 1;
    }
    out.append("]");
    assert(final(out)@ =~= old(out)@ + list_text(v@));
}

fn push_node(out: &mut String, row: usize, sources: &Vec<usize>)
    ensures
        final(out)@ == old(out)@ + node_text(row as int, sources@),
{
    out.append("node_");
    push_decimal(out, row);
    out.append("[label=\"");
    push_decimal(out, row);
    out.append(" (");
    push_list(out, sources);
    out.append(")\"]\n");
    assert(final(out)@ =~= old(out)@ + node_text(row as int, sources@));
}

fn push_edge(out: &mut String, row: usize, target: usize, start: u32, end: u32)
    ensures
        final(out)@ == old(out)@ + "node_"@ + decimal(row as nat) + " -> node_"@ + decimal(
            target as nat,
        ) + "[label=\""@ + decimal(start as nat) + "..="@ + decimal(end as nat) + "\"]\n"@,
{
    out.append("node_");
    push_decimal(out, row);
    out.append(" -> node_");
    push_decimal(out, target);
    out.append("[label=\"");
    push_decimal(out, start as usize);
    out.append("..=");
    push_decimal(out, end as usize);
    out.append("\"]\n");
}

fn push_cell_edge(out: &mut String, dfa: &Dfa, row: usize, c: usize, start: u32, end: u32)
    requires
        dfa.wf(),
        row < dfa.links@.len(),
        c < dfa.links.spec_columns(),
        start == dfa.alphabet@[c as int],
        end == range_end(dfa.alphabet@, c as int),
    ensures
        final(out)@ == old(out)@ + edge_text(dfa, row as int, c as int),
{
    let target = dfa.links.get(row, c);
    if target != INVALID {
        push_edge(out, row, target, start, end);
    }
}

impl Dfa {
    /// The automaton in GraphViz's dot language: one node per state, labelled with its
    /// sources, and one edge per transition, labelled with the symbol interval.
    pub fn as_graphviz_code(&self) -> (out: String)
        requires
            self.wf(),
        ensures
            out@ == graphviz_text(self),
    {
        let ranges = self.alphabet.ranges();
        let rows = self.links.rows();
        let columns = self.links.columns();
        let mut out = String::new();
        out.append("digraph G {\n");
        out.append(
            "node [shape=circle style=filled fillcolor=\"#4385f5\" fontcolor=\"#FFFFFF\" color=white penwidth=5.0 margin=0.1]",
        );
        out.append("\n");
        let ghost head = out@;
        let mut row: usize = 0;
        while row < rows
            invariant
                self.wf(),
                rows == self.links@.len(),
                columns == self.links.spec_columns(),
                ranges@.len() == self.alphabet@.len(),
                forall|i: int|
                    0 <= i < ranges@.len() ==> ranges@[i] == (
                        self.alphabet@[i],
                        range_end(self.alphabet@, i),
                    ),
                0 <= row <= rows,
                out@ == head + graph_body(self, row as int),
            decreases rows - row,
        {
            push_node(&mut out, row, &self.sources[row]);
            let ghost mid = out@;
            let mut c: usize = 0;
            while c < columns
                invariant
                    self.wf(),
                    rows == self.links@.len(),
                    columns == self.links.spec_columns(),
                    ranges@.len() == self.alphabet@.len(),
                    forall|i: int|
                        0 <= i < ranges@.len() ==> ranges@[i] == (
                            self.alphabet@[i],
                            range_end(self.alphabet@, i),
                        ),
                    0 <= row < rows,
                    0 <= c <= columns,
                    out@ == mid + edges_text(self, row as int, c as int),
                decreases columns - c,
            {
                let (start, end) = ranges[c];
                push_cell_edge(&mut out, self, row, c, start, end);
                assert(out@ =~= mid + edges_text(self, row as int, c + 1));
                c = c + 1;
            }
            assert(out@ =~= head + graph_body(self, row + 1));
            row = row + 1;
        }
        out.append("\n}\n");
        assert(out@ =~= graphviz_text(self));
        out
    }
}

} // verus!
