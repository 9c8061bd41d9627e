use crate::graph::Node;
use vstd::prelude::*;

verus! {

/// Why a graph could not be read.
#[derive(Debug, Clone, Copy, PartialEq, Eq, Structural)]
pub enum ReadError {
    /// There is no line but comments
    NoHeader,
    /// The header has fewer than three fields
    ShortHeader,
    /// The second field of the header is no number
    BadNodeCount,
    /// The third field of the header is no number
    BadEdgeCount,
    /// There are more edge lines than the header announced
    TooManyEdges,
    /// The edge line with this number, counted from one, does not hold exactly two fields
    BadEdge(usize),
    /// The first field of the edge line with this number is no number
    BadFirstNode(usize),
    /// The second field of the edge line with this number is no number
    BadSecondNode(usize),
    /// A node of the edge line with this number is zero or greater than the number of nodes
    NodeOutOfRange(usize),
}

/// A line that starts with `%` is a comment.
pub open spec fn is_comment(line: Seq<char>) -> bool {
    line.len() > 0 && line[0] == '%'
}

/// The lines that are no comments, in their order.
pub open spec fn content_of(lines: Seq<Vec<char>>) -> Seq<Seq<char>>
    decreases lines.len(),
{
    if lines.len() == 0 {
        Seq::empty()
    } else if is_comment(lines.last()@) {
        content_of(lines.drop_last())
    } else {
        content_of(lines.drop_last()).push(lines.last()@)
    }
}

/// The fields of a line: the pieces between its single spaces. Two spaces in a row hold an
/// empty field between them.
pub open spec fn fields_of(line: Seq<char>) -> Seq<Seq<char>>
    decreases line.len(),
{
    if line.len() == 0 {
        seq![Seq::<char>::empty()]
    } else if line.last() == ' ' {
        fields_of(line.drop_last()).push(Seq::<char>::empty())
    } else {
        let f = fields_of(line.drop_last());
        f.update(f.len() - 1, f.last().push(line.last()))
    }
}

/// The characters that count as white space at the ends of a line.
pub open spec fn is_space(c: char) -> bool {
    c == ' ' || ('\u{9}' <= c && c <= '\u{d}') || c == '\u{85}' || c == '\u{a0}' || c == '\u{1680}' || (
    '\u{2000}' <= c && c <= '\u{200a}') || c == '\u{2028}' || c == '\u{2029}' || c == '\u{202f}' || c
        == '\u{205f}' || c == '\u{3000}'
}

/// The number of characters of white space at the start of a line.
pub open spec fn leading_space(line: Seq<char>) -> int
    decreases line.len(),
{
    if line.len() == 0 || !is_space(line[0]) {
        0
    } else {
        1 + leading_space(line.drop_first())
    }
}

/// The position behind the last character that is no white space, or `0`.
pub open spec fn content_end(line: Seq<char>) -> int
    decreases line.len(),
{
    if line.len() == 0 {
        0
    } else if !is_space(line.last()) {
        line.len() as int
    } else {
        content_end(line.drop_last())
    }
}

/// The line without the white space at its ends.
pub open spec fn trimmed(line: Seq<char>) -> Seq<char> {
    if leading_space(line) >= content_end(line) {
        Seq::empty()
    } else {
        line.subrange(leading_space(line), content_end(line))
    }
}

/// The value of a run of decimal digits, or `None` if some character is no digit.
pub open spec fn digits_value(s: Seq<char>) -> Option<int>
    decreases s.len(),
{
    if s.len() == 0 {
        Some(0)
    } else if '0' <= s.last() && s.last() <= '9' {
        match digits_value(s.drop_last()) {
            Some(v) => Some(v * 10 + (s.last() as int - '0' as int)),
            None => None,
        }
    } else {
        None
    }
}

/// The number that a field holds: decimal digits, at least one, with an optional `+` in
/// front, and a value that fits a machine word.
pub open spec fn number_of(s: Seq<char>) -> Option<usize> {
    let digits = if s.len() > 0 && s[0] == '+' {
        s.drop_first()
    } else {
        s
    };
    if digits.len() == 0 {
        None
    } else {
        match digits_value(digits) {
            Some(v) => if v <= usize::MAX {
                Some(v as usize)
            } else {
                None
            },
            None => None,
        }
    }
}

/// The header of a graph file: its second and third field are the numbers of nodes and
/// edges.
pub open spec fn header_of(content: Seq<Seq<char>>) -> Result<(usize, usize), ReadError> {
    if content.len() == 0 {
        Err(ReadError::NoHeader)
    } else {
        let fields = fields_of(content[0]);
        if fields.len() < 3 {
            Err(ReadError::ShortHeader)
        } else {
            match number_of(fields[1]) {
                None => Err(ReadError::BadNodeCount),
                Some(n) => match number_of(fields[2]) {
                    None => Err(ReadError::BadEdgeCount),
                    Some(m) => Ok((n, m)),
                },
            }
        }
    }
}

/// The edge that the edge line with the number `line`, counted from zero, holds: two nodes,
/// counted from one in the file and from zero in the graph.
pub open spec fn edge_of(content: Seq<char>, line: int, n: usize, m: usize) -> Result<(Node, Node), ReadError> {
    let fields = fields_of(trimmed(content));
    if line >= m {
        Err(ReadError::TooManyEdges)
    } else if fields.len() != 2 {
        Err(ReadError::BadEdge((line + 1) as usize))
    } else {
        match number_of(fields[0]) {
            None => Err(ReadError::BadFirstNode((line + 1) as usize)),
            Some(u) => match number_of(fields[1]) {
                None => Err(ReadError::BadSecondNode((line + 1) as usize)),
                Some(v) => if u == 0 || v == 0 || u > n || v > n {
                    Err(ReadError::NodeOutOfRange((line + 1) as usize))
                } else {
                    Ok(((u - 1) as usize, (v - 1) as usize))
                },
            },
        }
    }
}

/// The edges of the first `k` edge lines, or the error of the first line that holds none.
pub open spec fn edges_of(rest: Seq<Seq<char>>, k: int, n: usize, m: usize, undirected: bool) -> Result<
    Seq<(Node, Node)>,
    ReadError,
>
    decreases k,
{
    if k <= 0 {
        Ok(Seq::empty())
    } else {
        match edges_of(rest, k - 1, n, m, undirected) {
            Err(e) => Err(e),
            Ok(edges) => match edge_of(rest[k - 1], k - 1, n, m) {
                Err(e) => Err(e),
                Ok((u, v)) => if undirected {
                    Ok(edges.push((u, v)).push((v, u)))
                } else {
                    Ok(edges.push((u, v)))
                },
            },
        }
    }
}

/// What the lines of a graph file hold: the number of nodes and the edges.
pub open spec fn graph_of(lines: Seq<Vec<char>>, undirected: bool) -> Result<(usize, Seq<(Node, Node)>), ReadError> {
    let content = content_of(lines);
    match header_of(content) {
        Err(e) => Err(e),
        Ok((n, m)) => match edges_of(content.drop_first(), content.len() - 1, n, m, undirected) {
            Err(e) => Err(e),
            Ok(edges) => Ok((n, edges)),
        },
    }
}

/// Splits a line into its fields.
fn split_fields(line: &[char]) -> (fields: Vec<Vec<char>>)
    ensures
        fields@.len() == fields_of(line@).len(),
        forall|i: int| 0 <= i < fields@.len() ==> (#[trigger] fields@[i])@ == fields_of(line@)[i],
{
    let mut fields: Vec<Vec<char>> = Vec::new();
    let mut cur: Vec<char> = Vec::new();
    let mut i: usize = 0;
    assert(line@.take(0) =~= Seq::<char>::empty());
    while i < line.len()
        invariant
            i <= line@.len(),
            fields_of(line@.take(i as int)).len() == fields@.len() + 1,
            forall|k: int| 0 <= k < fields@.len() ==> (#[trigger] fields@[k])@ == fields_of(line@.take(i as int))[k],
            fields_of(line@.take(i as int))[fields@.len() as int] == cur@,
        decreases line@.len() - i,
    {
        let c = line[i];
        proof {
            let next = line@.take(i as int + 1);
            assert(next.drop_last() =~= line@.take(i as int));
            assert(next.last() == c);
        }
        if c == ' ' {
            fields.push(cur);
            cur = Vec::new();
        } else {
            cur.push(c);
        }
        i += 1;
    }
    proof {
        assert(line@.take(line@.len() as int) =~= line@);
    }
    fields.push(cur);
    fields
}

/// Returns *true* if the character is white space.
fn char_is_space(c: char) -> (b: bool)
    ensures
        b == is_space(c),
{
    c == ' ' || ('\u{9}' <= c && c <= '\u{d}') || c == '\u{85}' || c == '\u{a0}' || c == '\u{1680}' || (
    '\u{2000}' <= c && c <= '\u{200a}') || c == '\u{2028}' || c == '\u{2029}' || c == '\u{202f}' || c
        == '\u{205f}' || c == '\u{3000}'
}

/// The leading white space of a line ends where the first other character stands.
proof fn lemma_leading_space(line: Seq<char>, k: int)
    requires
        0 <= k <= line.len(),
        forall|i: int| 0 <= i < k ==> is_space(#[trigger] line[i]),
        k == line.len() || !is_space(line[k]),
    ensures
        leading_space(line) == k,
    decreases k,
{
    if k > 0 {
        let rest = line.drop_first();
        assert forall|i: int| 0 <= i < k - 1 implies is_space(#[trigger] rest[i]) by {
            assert(rest[i] == line[i + 1]);
        }
        lemma_leading_space(rest, k - 1);
    }
}

/// The content of a line ends behind its last character that is no white space.
proof fn lemma_content_end(line: Seq<char>, k: int)
    requires
        0 <= k <= line.len(),
        forall|i: int| k <= i < line.len() ==> is_space(#[trigger] line[i]),
        k == 0 || !is_space(line[k - 1]),
    ensures
        content_end(line) == k,
    decreases line.len(),
{
    if line.len() > k {
        let rest = line.drop_last();
        lemma_content_end(rest, k);
    }
}

/// The line without the white space at its ends.
fn trim(line: &[char]) -> (r: Vec<char>)
    ensures
        r@ == trimmed(line@),
{
    let len = line.len();
    let mut start: usize = 0;
    while start < len && char_is_space(line[start])
        invariant
            start <= len,
            len == line@.len(),
            forall|i: int| 0 <= i < start ==> is_space(#[trigger] line@[i]),
        decreases len - start,
    {
        start += 1;
    }
    let mut end: usize = len;
    while end > 0 && char_is_space(line[end - 1])
        invariant
            end <= len,
            len == line@.len(),
            forall|i: int| end <= i < len ==> is_space(#[trigger] line@[i]),
        decreases end,
    {
        end -= 1;
    }
    proof {
        lemma_leading_space(line@, start as int);
        lemma_content_end(line@, end as int);
    }
    let mut r: Vec<char> = Vec::new();
    if start >= end {
        assert(r@ =~= Seq::<char>::empty());
        return r;
    }
    let mut i: usize = start;
    while i < end
        invariant
            start <= i <= end,
            end <= len,
            len == line@.len(),
            r@ == line@.subrange(start as int, i as int),
        decreases end - i,
    {
        r.push(line[i]);
        proof {
            assert(line@.subrange(start as int, i as int + 1) =~= line@.subrange(start as int, i as int).push(
                line@[i as int],
            ));
        }
        i += 1;
    }
    r
}

/// Once the digits read so far exceed a machine word, so does every continuation.
proof fn lemma_digits_grow(s: Seq<char>, k: int)
    requires
        0 <= k <= s.len(),
        digits_value(s) is Some,
    ensures
        digits_value(s.take(k)) is Some,
        0 <= digits_value(s.take(k)).unwrap() <= digits_value(s).unwrap(),
    decreases s.len() - k,
{
    lemma_digits_sign(s);
    if k == s.len() {
        assert(s.take(k) =~= s);
    } else {
        let shorter = s.drop_last();
        assert(shorter.take(k) =~= s.take(k));
        lemma_digits_sign(shorter);
        lemma_digits_grow(shorter, k);
    }
}

proof fn lemma_digits_sign(s: Seq<char>)
    ensures
        digits_value(s) is Some ==> digits_value(s).unwrap() >= 0,
    decreases s.len(),
{
    if s.len() > 0 {
        lemma_digits_sign(s.drop_last());
    }
}

/// If a prefix holds a character that is no digit, the whole holds no number.
proof fn lemma_digits_fail(s: Seq<char>, k: int)
    requires
        0 <= k <= s.len(),
        digits_value(s.take(k)) is None,
    ensures
        digits_value(s) is None,
    decreases s.len() - k,
{
    if k == s.len() {
        assert(s.take(k) =~= s);
    } else {
        let shorter = s.drop_last();
        assert(shorter.take(k) =~= s.take(k));
        lemma_digits_fail(shorter, k);
    }
}

/// Reads the number that a field holds.
fn parse_number(field: &[char]) -> (r: Option<usize>)
    ensures
        r == number_of(field@),
{
    let len = field.len();
    let start: usize = if len > 0 && field[0] == '+' {
        1
    } else {
        0
    };
    if start == len {
        return None;
    }
    let ghost digits = field@.subrange(start as int, len as int);
    proof {
        if start == 1 {
            assert(digits =~= field@.drop_first());
        } else {
            assert(digits =~= field@);
        }
        assert(digits.take(0) =~= Seq::<char>::empty());
    }
    let mut value: usize = 0;
    let mut i: usize = start;
    while i < len
        invariant
            start <= i <= len,
            len == field@.len(),
            digits == field@.subrange(start as int, len as int),
            digits.len() > 0,
            number_of(field@) == match digits_value(digits) {
                Some(v) => if v <= usize::MAX {
                    Some(v as usize)
                } else {
                    None
                },
                None => None,
            },
            digits_value(digits.take(i - start)) == Some(value as int),
        decreases len - i,
    {
        let c = field[i];
        proof {
            let next = digits.take(i - start + 1);
            assert(next.drop_last() =~= digits.take(i - start));
            assert(next.last() == c);
        }
        if !('0' <= c && c <= '9') {
            proof {
                let next = digits.take(i - start + 1);
                assert(digits_value(next) is None);
                lemma_digits_fail(digits, i - start + 1);
            }
            return None;
        }
        let digit: usize = (c as u32 - '0' as u32) as usize;
        proof {
            let next = digits.take(i - start + 1);
            assert(digit == c as int - '0' as int);
            assert(digits_value(next) == Some(value * 10 + digit));
        }
        if value > (usize::MAX - digit) / 10 {
            proof {
                let next = digits.take(i - start + 1);
                assert(digits_value(next).unwrap() > usize::MAX) by (nonlinear_arith)
                    requires
                        digits_value(next).unwrap() == value * 10 + digit,
                        value > (usize::MAX - digit) / 10,
                        0 <= digit <= 9,
                ;
                if digits_value(digits) is Some {
                    lemma_digits_grow(digits, i - start + 1);
                }
            }
            return None;
        }
        value = value * 10 + digit;
        i += 1;
    }
    proof {
        assert(digits.take(len - start) =~= digits);
    }
    Some(value)
}

/// Parses the header of a graph file, the first of the lines given, and returns the numbers
/// of nodes and edges.
pub fn parse_header(content: &Vec<Vec<char>>) -> (r: Result<(usize, usize), ReadError>)
    ensures
        r == header_of(content@.map_values(|l: Vec<char>| l@)),
{
    let ghost lines = content@.map_values(|l: Vec<char>| l@);
    if content.len() == 0 {
        return Err(ReadError::NoHeader);
    }
    proof {
        assert(lines[0] == content@[0]@);
    }
    let fields = split_fields(content[0].as_slice());
    if fields.len() < 3 {
        return Err(ReadError::ShortHeader);
    }
    let n = match parse_number(fields[1].as_slice()) {
        Some(n) => n,
        None => {
            return Err(ReadError::BadNodeCount);
        },
    };
    let m = match parse_number(fields[2].as_slice()) {
        Some(m) => m,
        None => {
            return Err(ReadError::BadEdgeCount);
        },
    };
    Ok((n, m))
}

/// Reads the edge that an edge line holds.
fn parse_edge(content: &[char], line: usize, n: usize, m: usize) -> (r: Result<(Node, Node), ReadError>)
    requires
        line < usize::MAX,
    ensures
        r == edge_of(content@, line as int, n, m),
{
    if line >= m {
        return Err(ReadError::TooManyEdges);
    }
    let clean = trim(content);
    let fields = split_fields(clean.as_slice());
    if fields.len() != 2 {
        return Err(ReadError::BadEdge(line + 1));
    }
    let u = match parse_number(fields[0].as_slice()) {
        Some(u) => u,
        None => {
            return Err(ReadError::BadFirstNode(line + 1));
        },
    };
    let v = match parse_number(fields[1].as_slice()) {
        Some(v) => v,
        None => {
            return Err(ReadError::BadSecondNode(line + 1));
        },
    };
    if u == 0 || v == 0 || u > n || v > n {
        return Err(ReadError::NodeOutOfRange(line + 1));
    }
    Ok((u - 1, v - 1))
}

/// Reads a graph from the lines of a file: skips the comments, reads the numbers of nodes
/// and edges off the header, and one edge off every line after it. With `undirected`, every
/// edge is followed by its reverse.
pub fn read_graph_from_file(lines: &Vec<Vec<char>>, undirected: bool) -> (r: Result<
    (usize, Vec<(Node, Node)>),
    ReadError,
>)
    ensures
        match (r, graph_of(lines@, undirected)) {
            (Ok((n, edges)), Ok((n2, edges2))) => n == n2 && edges@ == edges2,
            (Err(e), Err(e2)) => e == e2,
            _ => false,
        },
{
    let mut content: Vec<Vec<char>> = Vec::new();
    let mut i: usize = 0;
    assert(lines@.take(0) =~= Seq::<Vec<char>>::empty());
    while i < lines.len()
        invariant
            i <= lines@.len(),
            content@.map_values(|l: Vec<char>| l@) == content_of(lines@.take(i as int)),
        decreases lines@.len() - i,
    {
        let ghost before = content@.map_values(|l: Vec<char>| l@);
        proof {
            let next = lines@.take(i as int + 1);
            assert(next.drop_last() =~= lines@.take(i as int));
            assert(next.last() == lines@[i as int]);
        }
        if !(lines[i].len() > 0 && lines[i][0] == '%') {
            content.push(lines[i].clone());
            proof {
                assert(content@[content@.len() - 1]@ == lines@[i as int]@);
                assert(content@.map_values(|l: Vec<char>| l@) =~= before.push(lines@[i as int]@));
            }
        }
        i += 1;
    }
    proof {
        assert(lines@.take(lines@.len() as int) =~= lines@);
    }
    let ghost texts = content@.map_values(|l: Vec<char>| l@);
    let (n, m) = match parse_header(&content) {
        Ok(header) => header,
        Err(e) => {
            return Err(e);
        },
    };
    let ghost rest = texts.drop_first();
    let mut edges: Vec<(Node, Node)> = Vec::new();
    let mut k: usize = 1;
    while k < content.len()
        invariant
            1 <= k <= content@.len(),
            texts == content@.map_values(|l: Vec<char>| l@),
            rest == texts.drop_first(),
            rest.len() == content@.len() - 1,
            graph_of(lines@, undirected) == match edges_of(rest, rest.len() as int, n, m, undirected) {
                Err(e) => Err::<(usize, Seq<(Node, Node)>), ReadError>(e),
                Ok(edges) => Ok((n, edges)),
            },
            edges_of(rest, k - 1, n, m, undirected) == Ok::<Seq<(Node, Node)>, ReadError>(edges@),
        decreases content@.len() - k,
    {
        proof {
            assert(rest[k - 1] == content@[k as int]@);
        }
        match parse_edge(content[k].as_slice(), k - 1, n, m) {
            Err(e) => {
                proof {
                    assert(edges_of(rest, k as int, n, m, undirected) == Err::<Seq<(Node, Node)>, ReadError>(e));
                    lemma_edges_error(rest, k as int, rest.len() as int, n, m, undirected);
                }
                return Err(e);
            },
            Ok((u, v)) => {
                edges.push((u, v));
                if undirected {
                    edges.push((v, u));
                }
            },
        }
        k += 1;
    }
    Ok((n, edges))
}

/// Once a line holds no edge, its error is that of the whole.
proof fn lemma_edges_error(rest: Seq<Seq<char>>, k: int, total: int, n: usize, m: usize, undirected: bool)
    requires
        0 <= k <= total,
        edges_of(rest, k, n, m, undirected) is Err,
    ensures
        edges_of(rest, total, n, m, undirected) == edges_of(rest, k, n, m, undirected),
    decreases total - k,
{
    if k < total {
        lemma_edges_error(rest, k, total - 1, n, m, undirected);
    }
}

} // verus!
