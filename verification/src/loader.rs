//! The edge-list format: one edge per line, two numbers separated by white
//! space. Lines with another number of tokens are passed over.

use crate::network::{with_edge, Adjacency, Graph};
use vstd::prelude::*;

verus! {

/// `b` is an ASCII white-space byte: a blank, a tab, a line feed, a
/// vertical tab, a form feed or a carriage return.
pub open spec fn is_space(b: u8) -> bool {
    b == 32 || (9 <= b && b <= 13)
}

/// `b` is an ASCII digit.
pub open spec fn is_digit(b: u8) -> bool {
    48 <= b && b <= 57
}

/// The tokens of a line: its longest runs of bytes that are not white
/// space, from left to right.
pub open spec fn tokens(line: Seq<u8>) -> Seq<Seq<u8>>
    decreases line.len(),
{
    if line.len() == 0 {
        Seq::empty()
    } else if is_space(line.last()) {
        tokens(line.drop_last())
    } else if line.len() >= 2 && !is_space(line[line.len() - 2]) {
        let before = tokens(line.drop_last());
        before.drop_last().push(before.last().push(line.last()))
    } else {
        tokens(line.drop_last()).push(seq![line.last()])
    }
}

/// The number that the decimal digits `digits` write. A byte that is no
/// digit counts as 0.
pub open spec fn digits_value(digits: Seq<u8>) -> nat
    decreases digits.len(),
{
    if digits.len() == 0 {
        0
    } else {
        let d: nat = if is_digit(digits.last()) {
            (digits.last() - 48) as nat
        } else {
            0
        };
        digits_value(digits.drop_last()) * 10 + d
    }
}

/// The digits of a token: the token without a plus sign in front.
pub open spec fn unsigned_part(token: Seq<u8>) -> Seq<u8> {
    if token.len() > 0 && token[0] == 43 {
        token.drop_first()
    } else {
        token
    }
}

/// The number that a token writes: one or more decimal digits, a plus sign
/// allowed in front, with a value that a machine word holds. Any other
/// token writes no number.
pub open spec fn number_of(token: Seq<u8>) -> Option<usize> {
    let digits = unsigned_part(token);
    if digits.len() > 0 && (forall|i: int| 0 <= i < digits.len() ==> is_digit(#[trigger] digits[i]))
        && digits_value(digits) <= usize::MAX {
        Some(digits_value(digits) as usize)
    } else {
        None
    }
}

/// What a line of an edge list says.
#[derive(Clone, Copy, Debug, PartialEq, Eq, Structural)]
pub enum ParsedLine {
    /// The line does not have exactly two tokens, and is passed over.
    Skipped,
    /// The line names the edge between two nodes.
    Edge(usize, usize),
    /// The line has two tokens, and one of them writes no number.
    BadNumber,
}

/// What `line` says.
pub open spec fn line_meaning(line: Seq<u8>) -> ParsedLine {
    let t = tokens(line);
    if t.len() != 2 {
        ParsedLine::Skipped
    } else {
        match (number_of(t[0]), number_of(t[1])) {
            (Some(u), Some(v)) => ParsedLine::Edge(u, v),
            _ => ParsedLine::BadNumber,
        }
    }
}

/// The graph that the lines build, edge by edge from the first line to the
/// last; none where a line holds a bad number.
pub open spec fn graph_of_lines(lines: Seq<Seq<u8>>) -> Option<Adjacency>
    decreases lines.len(),
{
    if lines.len() == 0 {
        Some(Map::empty())
    } else {
        match (graph_of_lines(lines.drop_last()), line_meaning(lines.last())) {
            (Some(g), ParsedLine::Skipped) => Some(g),
            (Some(g), ParsedLine::Edge(u, v)) => Some(with_edge(g, u, v)),
            _ => None,
        }
    }
}

/// The contents of each of `list`.
pub open spec fn contents(list: Seq<Vec<u8>>) -> Seq<Seq<u8>> {
    Seq::new(list.len(), |i: int| list[i]@)
}

/// A line that has two tokens, one of which writes no number.
#[derive(Clone, Copy, Debug, PartialEq, Eq, Structural)]
pub struct ParseError {
    /// The place of the line among the lines given, counted from 0.
    pub line: usize,
}

/// The value of a prefix of some digits is at most the value of them all.
proof fn lemma_value_grows(digits: Seq<u8>, i: int)
    requires
        0 <= i <= digits.len(),
    ensures
        digits_value(digits.take(i)) <= digits_value(digits),
    decreases digits.len(),
{
    if i == digits.len() {
        assert(digits.take(i) =~= digits);
    } else {
        lemma_value_grows(digits.drop_last(), i);
        assert(digits.drop_last().take(i) =~= digits.take(i));
    }
}

/// The tokens of `line`.
fn split_tokens(line: &[u8]) -> (done: Vec<Vec<u8>>)
    ensures
        contents(done@) == tokens(line@),
{
    let mut done: Vec<Vec<u8>> = Vec::new();
    let mut current: Vec<u8> = Vec::new();
    let mut i: usize = 0;
    proof {
        assert(contents(done@) =~= Seq::<Seq<u8>>::empty());
    }
    while i < line.len()
        invariant
            0 <= i <= line@.len(),
            current@.len() > 0 <==> (i > 0 && !is_space(line@[i - 1])),
            tokens(line@.take(i as int)) == if current@.len() > 0 {
                contents(done@).push(current@)
            } else {
                contents(done@)
            },
        decreases line@.len() - i,
    {
        let b = line[i];
        let ghost old_done = done@;
        let ghost old_current = current@;
        proof {
            let t = line@.take(i + 1);
            assert(t.drop_last() =~= line@.take(i as int));
            assert(t.last() == b);
            if i > 0 {
                assert(t[t.len() - 2] == line@[i - 1]);
            }
        }
        if b == 32 || (9 <= b && b <= 13) {
            if current.len() > 0 {
                done.push(current);
                current = Vec::new();
                proof {
                    assert(contents(done@) =~= contents(old_done).push(old_current));
                }
            }
        } else {
            current.push(b);
            proof {
                if old_current.len() > 0 {
                    let before = contents(old_done).push(old_current);
                    assert(before.drop_last() =~= contents(old_done));
                    assert(before.last() == old_current);
                } else {
                    assert(current@ =~= seq![b]);
                }
            }
        }
        i += 1;
    }
    proof {
        assert(line@.take(line@.len() as int) =~= line@);
    }
    if current.len() > 0 {
        let ghost old_done = done@;
        done.push(current);
        proof {
            assert(contents(done@) =~= contents(old_done).push(current@));
        }
    }
    done
}

/// The number that `token` writes, if it writes one.
pub fn parse_number(token: &Vec<u8>) -> (number: Option<usize>)
    ensures
        number == number_of(token@),
{
    let start: usize = if token.len() > 0 && token[0] == 43 { 1 } else { 0 };
    let ghost digits = unsigned_part(token@);
    proof {
        assert(digits.len() == token@.len() - start);
        assert forall|k: int| 0 <= k < digits.len() implies #[trigger] digits[k] == token@[k
            + start] by {}
    }
    if start >= token.len() {
        return None;
    }
    let mut value: usize = 0;
    let mut i: usize = start;
    while i < token.len()
        invariant
            start <= i <= token@.len(),
            digits == unsigned_part(token@),
            digits.len() == token@.len() - start,
            forall|k: int| 0 <= k < digits.len() ==> #[trigger] digits[k] == token@[k + start],
            forall|k: int| 0 <= k < i - start ==> is_digit(#[trigger] digits[k]),
            value == digits_value(digits.take(i - start)),
        decreases token@.len() - i,
    {
        let b = token[i];
        proof {
            let t = digits.take(i - start + 1);
            assert(t.drop_last() =~= digits.take(i - start));
            assert(digits[i - start] == b);
            assert(t.last() == b);
            lemma_value_grows(digits, i - start + 1);
            assert(digits_value(t) == value * 10 + if is_digit(b) {
                (b - 48) as nat
            } else {
                0
            });
        }
        if b < 48 || b > 57 {
            proof {
                assert(!is_digit(digits[i - start]));
            }
            return None;
        }
        let d: usize = (b - 48) as usize;
        if value > (usize::MAX - d) / 10 {
            proof {
                assert(value * 10 + d > usize::MAX);
            }
            return None;
        }
        value = value * 10 + d;
        i += 1;
    }
    proof {
        assert(digits.take(digits.len() as int) =~= digits);
    }
    Some(value)
}

/// Reads one line of an edge list.
pub fn parse_edge_line(line: &[u8]) -> (parsed: ParsedLine)
    ensures
        parsed == line_meaning(line@),
{
    let parts = split_tokens(line);
    proof {
        assert(contents(parts@).len() == parts@.len());
    }
    if parts.len() != 2 {
        return ParsedLine::Skipped;
    }
    proof {
        assert(contents(parts@)[0] == parts@[0]@);
        assert(contents(parts@)[1] == parts@[1]@);
    }
    match (parse_number(&parts[0]), parse_number(&parts[1])) {
        (Some(u), Some(v)) => ParsedLine::Edge(u, v),
        _ => ParsedLine::BadNumber,
    }
}

/// Builds the graph of an edge list, line by line. The first line that
/// holds a bad number ends the reading, and the error names it.
pub fn load_graph_from_lines(lines: &Vec<Vec<u8>>) -> (result: Result<Graph, ParseError>)
    ensures
        match result {
            Ok(graph) => graph_of_lines(contents(lines@)) == Some(graph@),
            Err(error) => {
                &&& graph_of_lines(contents(lines@)) is None
                &&& error.line < lines@.len()
                &&& line_meaning(lines@[error.line as int]@) == ParsedLine::BadNumber
                &&& forall|j: int|
                    0 <= j < error.line ==> line_meaning(#[trigger] lines@[j]@)
                        != ParsedLine::BadNumber
            },
        },
{
    let mut graph = Graph::new();
    let ghost all = contents(lines@);
    let mut i: usize = 0;
    while i < lines.len()
        invariant
            0 <= i <= lines@.len(),
            all == contents(lines@),
            graph_of_lines(all.take(i as int)) == Some(graph@),
            forall|j: int| 0 <= j < i ==> line_meaning(#[trigger] lines@[j]@) != ParsedLine::BadNumber,
        decreases lines@.len() - i,
    {
        proof {
            let t = all.take(i + 1);
            assert(t.drop_last() =~= all.take(i as int));
            assert(t.last() == lines@[i as int]@);
        }
        match parse_edge_line(lines[i].as_slice()) {
            ParsedLine::Skipped => {},
            ParsedLine::Edge(u, v) => {
                graph.add_edge(u, v);
            },
            ParsedLine::BadNumber => {
                proof {
                    lemma_bad_line_spoils(all, i as int);
                }
                return Err(ParseError { line: i });
            },
        }
        i += 1;
    }
    proof {
        assert(all.take(all.len() as int) =~= all);
    }
    Ok(graph)
}

/// Lines with a bad number among the first `i + 1` build no graph.
proof fn lemma_bad_line_spoils(lines: Seq<Seq<u8>>, i: int)
    requires
        0 <= i < lines.len(),
        line_meaning(lines[i]) == ParsedLine::BadNumber,
    ensures
        graph_of_lines(lines) is None,
    decreases lines.len(),
{
    if i < lines.len() - 1 {
        lemma_bad_line_spoils(lines.drop_last(), i);
    }
}

} // verus!
