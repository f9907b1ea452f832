//! Reading an edge list: lines, whitespace-separated tokens, edges.
use crate::graph::{adjacency_lists, adjacency_of, build_graph, buildable, Edge};
use crate::text::{parse_vertex, parse_weight, vertex_of, weight_of, Weight, MAX_VERTEX};
use graphix::GraphRep;
use vstd::prelude::*;

verus! {

/// Why a read failed: a line of three tokens held a token that is not a
/// number of the kind it should be.
#[derive(Clone, Copy, Debug, PartialEq, Eq, Structural)]
pub enum ReadError {
    /// The first or second token is not a vertex index.
    InvalidVertex,
    /// The third token is not a weight.
    InvalidWeight,
}

pub open spec fn is_newline(c: u8) -> bool {
    c == 10
}

/// Whitespace within a line: space, tab, carriage return, vertical tab,
/// form feed.
pub open spec fn is_space(c: u8) -> bool {
    c == 32 || c == 9 || c == 13 || c == 11 || c == 12
}

/// The lines of `s`: the runs between newlines, including the (possibly
/// empty) run after the last one.
pub open spec fn split_lines(s: Seq<u8>) -> Seq<Seq<u8>>
    decreases s.len(),
{
    if s.len() == 0 {
        seq![Seq::empty()]
    } else {
        let ls = split_lines(s.drop_last());
        if is_newline(s.last()) {
            ls.push(Seq::empty())
        } else {
            ls.update(ls.len() - 1, ls.last().push(s.last()))
        }
    }
}

/// The tokens of a line: its maximal runs of bytes that are not whitespace.
pub open spec fn tokens(s: Seq<u8>) -> Seq<Seq<u8>>
    decreases s.len(),
{
    if s.len() == 0 {
        Seq::empty()
    } else {
        let t = tokens(s.drop_last());
        let c = s.last();
        if is_space(c) {
            t
        } else if s.len() > 1 && !is_space(s[s.len() - 2]) {
            t.update(t.len() - 1, t.last().push(c))
        } else {
            t.push(seq![c])
        }
    }
}

/// What one line contributes: nothing unless it has exactly three tokens;
/// then an edge, or the error for its first token that is not a number.
pub open spec fn line_edge(line: Seq<u8>) -> Option<Result<Edge, ReadError>> {
    let t = tokens(line);
    if t.len() != 3 {
        None
    } else if vertex_of(t[0]).is_none() || vertex_of(t[1]).is_none() {
        Some(Err(ReadError::InvalidVertex))
    } else if weight_of(t[2]).is_none() {
        Some(Err(ReadError::InvalidWeight))
    } else {
        Some(Ok((vertex_of(t[0]).unwrap(), vertex_of(t[1]).unwrap(), weight_of(t[2]).unwrap())))
    }
}

/// The edges of a sequence of lines, in order, or the error of the first
/// line that fails.
pub open spec fn edges_of_lines(ls: Seq<Seq<u8>>) -> Result<Seq<Edge>, ReadError>
    decreases ls.len(),
{
    if ls.len() == 0 {
        Ok(Seq::empty())
    } else {
        match edges_of_lines(ls.drop_last()) {
            Err(e) => Err(e),
            Ok(es) => match line_edge(ls.last()) {
                None => Ok(es),
                Some(Ok(e)) => Ok(es.push(e)),
                Some(Err(e)) => Err(e),
            },
        }
    }
}

/// The edges of a source text.
pub open spec fn edges_of(source: Seq<u8>) -> Result<Seq<Edge>, ReadError> {
    edges_of_lines(split_lines(source))
}

pub proof fn lemma_split_lines_nonempty(s: Seq<u8>)
    ensures
        split_lines(s).len() >= 1,
    decreases s.len(),
{
    if s.len() > 0 {
        lemma_split_lines_nonempty(s.drop_last());
    }
}

/// The token ranges `toks` of `s[a..b]` are its tokens, in order.
pub open spec fn tokens_at(s: Seq<u8>, toks: Seq<(usize, usize)>, a: int, b: int) -> bool {
    let t = tokens(s.subrange(a, b));
    &&& toks.len() == t.len()
    &&& forall|k: int|
        0 <= k < toks.len() ==> a <= (#[trigger] toks[k]).0 < toks[k].1 <= b
            && s.subrange(toks[k].0 as int, toks[k].1 as int) == t[k]
}

/// The edge, if any, of the line `s[a..b]` whose token ranges are `toks`.
fn edge_of_line(s: &[u8], toks: &Vec<(usize, usize)>, a: usize, b: usize) -> (r: Option<
    Result<Edge, ReadError>,
>)
    requires
        a <= b <= s@.len(),
        tokens_at(s@, toks@, a as int, b as int),
    ensures
        r == line_edge(s@.subrange(a as int, b as int)),
{
    if toks.len() != 3 {
        return None;
    }
    let ghost t = tokens(s@.subrange(a as int, b as int));
    let (s0, e0) = toks[0];
    let (s1, e1) = toks[1];
    let (s2, e2) = toks[2];
    assert(t[0] == s@.subrange(s0 as int, e0 as int));
    assert(t[1] == s@.subrange(s1 as int, e1 as int));
    assert(t[2] == s@.subrange(s2 as int, e2 as int));
    let u = parse_vertex(s, s0, e0);
    let v = parse_vertex(s, s1, e1);
    match (u, v) {
        (Some(u), Some(v)) => match parse_weight(s, s2, e2) {
            Some(w) => Some(Ok((u, v, w))),
            None => Some(Err(ReadError::InvalidWeight)),
        },
        _ => Some(Err(ReadError::InvalidVertex)),
    }
}

/// The edges of a source text, in the order of its lines.
///
/// Lines are separated by newlines; a line counts when it holds exactly
/// three whitespace-separated tokens: source vertex, target vertex, weight.
/// Any other line is passed over. The read fails with the error of the
/// first counted line that holds a token which is not a number.
pub fn parse_edges(source: &[u8]) -> (r: Result<Vec<Edge>, ReadError>)
    ensures
        match r {
            Ok(es) => edges_of(source@) == Ok::<Seq<Edge>, ReadError>(es@),
            Err(e) => edges_of(source@) == Err::<Seq<Edge>, ReadError>(e),
        },
        r matches Ok(es) ==> buildable(es@),
{
    let n = source.len();
    let mut edges: Vec<Edge> = Vec::new();
    let mut failed: Option<ReadError> = None;
    let mut toks: Vec<(usize, usize)> = Vec::new();
    let mut line_start: usize = 0;
    let mut i: usize = 0;
    proof {
        assert(split_lines(source@.subrange(0, 0)) =~= seq![Seq::<u8>::empty()]);
        assert(edges_of_lines(Seq::<Seq<u8>>::empty()) == Ok::<Seq<Edge>, ReadError>(Seq::empty()));
        assert(edges@ =~= Seq::<Edge>::empty());
        assert(source@.subrange(0, 0) =~= Seq::<u8>::empty());
    }
    while i < n
        invariant
            line_start <= i <= n == source@.len(),
            split_lines(source@.subrange(0, i as int)).len() >= 1,
            split_lines(source@.subrange(0, i as int)).last() == source@.subrange(
                line_start as int,
                i as int,
            ),
            match failed {
                None => edges_of_lines(split_lines(source@.subrange(0, i as int)).drop_last())
                    == Ok::<Seq<Edge>, ReadError>(edges@),
                Some(e) => edges_of_lines(split_lines(source@.subrange(0, i as int)).drop_last())
                    == Err::<Seq<Edge>, ReadError>(e),
            },
            tokens_at(source@, toks@, line_start as int, i as int),
            toks@.len() <= i - line_start,
            i > line_start && !is_space(source@[i - 1]) ==> toks@.len() > 0 && toks@.last().1
                == i,
            edges@.len() * 3 <= line_start,
            forall|k: int|
                0 <= k < edges@.len() ==> (#[trigger] edges@[k]).0 <= MAX_VERTEX && edges@[k].1
                    <= MAX_VERTEX,
        decreases n - i,
    {
        let c = source[i];
        let ghost pre = source@.subrange(0, i as int);
        let ghost cur = source@.subrange(line_start as int, i as int);
        let ghost ls = split_lines(pre);
        assert(source@.subrange(0, i + 1).drop_last() =~= pre);
        assert(source@.subrange(line_start as int, i + 1).drop_last() =~= cur);
        if c == 10 {
            proof {
                lemma_split_lines_nonempty(pre);
                assert(split_lines(source@.subrange(0, i + 1)).drop_last() =~= ls);
                assert(ls =~= ls.drop_last().push(cur));
                assert(ls.drop_last().push(cur).drop_last() =~= ls.drop_last());
            }
            if failed.is_none() {
                let le = edge_of_line(source, &toks, line_start, i);
                match le {
                    None => {},
                    Some(Ok(e)) => {
                        edges.push(e);
                    },
                    Some(Err(x)) => {
                        failed = Some(x);
                    },
                }
            }
            toks = Vec::new();
            line_start = i + 1;
            proof {
                assert(split_lines(source@.subrange(0, i + 1)).last() =~= Seq::<u8>::empty());
                assert(source@.subrange(line_start as int, i + 1) =~= Seq::<u8>::empty());
            }
        } else {
            let ghost nxt = source@.subrange(line_start as int, i + 1);
            proof {
                lemma_split_lines_nonempty(pre);
                assert(split_lines(source@.subrange(0, i + 1)).drop_last() =~= ls.drop_last());
                assert(nxt =~= cur.push(c));
            }
            if c == 32 || c == 9 || c == 13 || c == 11 || c == 12 {
                assert(tokens(nxt) == tokens(cur));
            } else if i > line_start && !(source[i - 1] == 32 || source[i - 1] == 9 || source[i
                - 1] == 13 || source[i - 1] == 11 || source[i - 1] == 12) {
                let ghost prev = toks@;
                let k = toks.len() - 1;
                let (a, _) = toks[k];
                toks.set(k, (a, i + 1));
                proof {
                    assert(nxt[nxt.len() - 2] == source@[i - 1]);
                    let t = tokens(cur);
                    assert(tokens(nxt) == t.update(t.len() - 1, t.last().push(c)));
                    assert(source@.subrange(a as int, i + 1) =~= source@.subrange(
                        a as int,
                        i as int,
                    ).push(c));
                    assert forall|j: int| 0 <= j < toks@.len() implies line_start <= (
                    #[trigger] toks@[j]).0 < toks@[j].1 <= i + 1 && source@.subrange(
                        toks@[j].0 as int,
                        toks@[j].1 as int,
                    ) == tokens(nxt)[j] by {
                        if j < k {
                            assert(toks@[j] == prev[j]);
                        }
                    }
                }
            } else {
                let ghost prev = toks@;
                toks.push((i, i + 1));
                proof {
                    let t = tokens(cur);
                    assert(tokens(nxt) == t.push(seq![c]));
                    assert(source@.subrange(i as int, i + 1) =~= seq![c]);
                    assert forall|j: int| 0 <= j < toks@.len() implies line_start <= (
                    #[trigger] toks@[j]).0 < toks@[j].1 <= i + 1 && source@.subrange(
                        toks@[j].0 as int,
                        toks@[j].1 as int,
                    ) == tokens(nxt)[j] by {
                        if j < toks@.len() - 1 {
                            assert(toks@[j] == prev[j]);
                        }
                    }
                }
            }
        }
        i = i + 1;
    }
    proof {
        let ls = split_lines(source@.subrange(0, i as int));
        assert(source@.subrange(0, i as int) =~= source@);
        assert(ls =~= ls.drop_last().push(ls.last()));
    }
    if failed.is_none() {
        let le = edge_of_line(source, &toks, line_start, i);
        match le {
            None => {},
            Some(Ok(e)) => {
                edges.push(e);
            },
            Some(Err(x)) => {
                failed = Some(x);
            },
        }
    }
    match failed {
        Some(e) => Err(e),
        None => Ok(edges),
    }
}

/// Reads a graph from the text of an edge list: the graph built from
/// `parse_edges(source)`, or its error. Its vertices are `0 ..= m` for the
/// largest endpoint `m`; with no edges it has no vertex.
pub fn read(source: &[u8]) -> (r: Result<GraphRep<Weight>, ReadError>)
    ensures
        match r {
            Ok(g) => edges_of(source@) is Ok && adjacency_lists(g) == adjacency_of(
                edges_of(source@)->Ok_0,
            ),
            Err(e) => edges_of(source@) == Err::<Seq<Edge>, ReadError>(e),
        },
{
    match parse_edges(source) {
        Ok(edges) => Ok(build_graph(edges)),
        Err(e) => Err(e),
    }
}

} // verus!
