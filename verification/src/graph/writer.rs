use crate::graph::reader::{digits_value, number_of};
use crate::graph::Edge;
use crate::weight::Weight;
use vstd::prelude::*;

verus! {

/// The character for a decimal digit.
pub open spec fn digit_char(d: int) -> char {
    if d == 0 {
        '0'
    } else if d == 1 {
        '1'
    } else if d == 2 {
        '2'
    } else if d == 3 {
        '3'
    } else if d == 4 {
        '4'
    } else if d == 5 {
        '5'
    } else if d == 6 {
        '6'
    } else if d == 7 {
        '7'
    } else if d == 8 {
        '8'
    } else {
        '9'
    }
}

/// A number in decimal digits, without leading zeros.
pub open spec fn decimal_of(v: nat) -> Seq<char>
    decreases v,
{
    if v < 10 {
        seq![digit_char(v as int)]
    } else {
        decimal_of(v / 10).push(digit_char((v % 10) as int))
    }
}

/// A weight in decimal digits, with a minus sign in front where it is negative.
pub open spec fn signed_decimal_of(w: int) -> Seq<char> {
    if w < 0 {
        seq!['-'] + decimal_of((-w) as nat)
    } else {
        decimal_of(w as nat)
    }
}

/// The line that stores an edge: source, target and weight, with commas between them and
/// a line feed at the end.
pub open spec fn line_of(e: Edge) -> Seq<char> {
    decimal_of(e.source as nat) + seq![','] + decimal_of(e.target as nat) + seq![','] + signed_decimal_of(
        e.weight as int,
    ) + seq!['\n']
}

/// The text that stores the first `k` edges: one line per edge, in their order.
pub open spec fn text_of(edges: Seq<Edge>, k: int) -> Seq<char>
    decreases k,
{
    if k <= 0 {
        Seq::empty()
    } else {
        text_of(edges, k - 1) + line_of(edges[k - 1])
    }
}

/// What is written can be read: the digits of a number hold that number.
pub proof fn lemma_decimal_reads_back(v: nat)
    ensures
        decimal_of(v).len() > 0,
        digits_value(decimal_of(v)) == Some(v as int),
        decimal_of(v)[0] != '+',
        v <= usize::MAX ==> number_of(decimal_of(v)) == Some(v as usize),
    decreases v,
{
    if v < 10 {
        let s = decimal_of(v);
        assert(s.drop_last() =~= Seq::<char>::empty());
        assert(digits_value(s.drop_last()) == Some(0int));
        assert(s.last() == digit_char(v as int));
    } else {
        lemma_decimal_reads_back(v / 10);
        let s = decimal_of(v);
        assert(s.drop_last() =~= decimal_of(v / 10));
        assert(s.last() == digit_char((v % 10) as int));
        assert(s[0] == decimal_of(v / 10)[0]);
    }
}

fn digit(d: usize) -> (c: char)
    requires
        d < 10,
    ensures
        c == digit_char(d as int),
{
    if d == 0 {
        '0'
    } else if d == 1 {
        '1'
    } else if d == 2 {
        '2'
    } else if d == 3 {
        '3'
    } else if d == 4 {
        '4'
    } else if d == 5 {
        '5'
    } else if d == 6 {
        '6'
    } else if d == 7 {
        '7'
    } else if d == 8 {
        '8'
    } else {
        '9'
    }
}

/// Appends a number in decimal digits to the text.
fn push_decimal(text: &mut Vec<char>, value: u64)
    ensures
        final(text)@ == old(text)@ + decimal_of(value as nat),
    decreases value,
{
    if value >= 10 {
        push_decimal(text, value / 10);
    }
    text.push(digit((value % 10) as usize));
    proof {
        assert(text@ =~= old(text)@ + decimal_of(value as nat));
    }
}

/// Appends a weight in decimal digits to the text, with a minus sign in front where it is
/// negative.
fn push_weight(text: &mut Vec<char>, weight: Weight)
    ensures
        final(text)@ == old(text)@ + signed_decimal_of(weight as int),
{
    if weight < 0 {
        text.push('-');
        // the magnitude of the smallest weight does not fit a weight, but fits a machine word
        let magnitude: u64 = if weight == i64::MIN {
            0x8000_0000_0000_0000
        } else {
            (-weight) as u64
        };
        push_decimal(text, magnitude);
        proof {
            assert(text@ =~= old(text)@ + signed_decimal_of(weight as int));
        }
    } else {
        push_decimal(text, weight as u64);
    }
}

/// The line that stores an edge: `source,target,weight` and a line feed.
pub fn edge_line(edge: Edge) -> (line: Vec<char>)
    ensures
        line@ == line_of(edge),
{
    let mut line: Vec<char> = Vec::new();
    push_decimal(&mut line, edge.source as u64);
    line.push(',');
    push_decimal(&mut line, edge.target as u64);
    line.push(',');
    push_weight(&mut line, edge.weight);
    line.push('\n');
    proof {
        assert(line@ =~= line_of(edge));
    }
    line
}

/// Write the graph into a text: one line per edge, `source,target,weight`, in the order of
/// the edges.
pub fn store_graph(edges: &[Edge]) -> (text: Vec<char>)
    ensures
        text@ == text_of(edges@, edges@.len() as int),
{
    let mut text: Vec<char> = Vec::new();
    let mut i: usize = 0;
    while i < edges.len()
        invariant
            i <= edges@.len(),
            text@ == text_of(edges@, i as int),
        decreases edges@.len() - i,
    {
        let e = edges[i];
        let ghost before = text@;
        push_decimal(&mut text, e.source as u64);
        text.push(',');
        push_decimal(&mut text, e.target as u64);
        text.push(',');
        push_weight(&mut text, e.weight);
        text.push('\n');
        proof {
            assert(text@ =~= before + line_of(e));
        }
        i += 1;
    }
    text
}

} // verus!
