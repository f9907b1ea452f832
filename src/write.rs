//! Writing a graph back as an edge list, each undirected edge once.
use crate::graph::{adjacency_lists, neighbours, vertices, Edge, HalfEdge};
use crate::text::{nat_text, push_nat, push_weight, weight_text, Weight};
use graphix::GraphRep;
use vstd::prelude::*;

verus! {

/// The same edge walked from its other end.
pub open spec fn mirror(e: Edge) -> Edge {
    (e.1, e.0, e.2)
}

/// Two entries stand for one undirected edge: the same endpoints, in
/// either order, and the same weight.
pub open spec fn same_edge(a: Edge, b: Edge) -> bool {
    a == b || a == mirror(b)
}

/// `e`, in one direction or the other, is among `out`.
pub open spec fn already_written(out: Seq<Edge>, e: Edge) -> bool {
    exists|i: int| 0 <= i < out.len() && same_edge(#[trigger] out[i], e)
}

/// The entries of `s` in order, each left out when it or its mirror came
/// before.
pub open spec fn dedup(s: Seq<Edge>) -> Seq<Edge>
    decreases s.len(),
{
    if s.len() == 0 {
        Seq::empty()
    } else {
        let d = dedup(s.drop_last());
        if already_written(d, s.last()) {
            d
        } else {
            d.push(s.last())
        }
    }
}

/// The adjacency list of `u` as edges leaving `u`.
pub open spec fn edges_leaving(u: usize, adj: Seq<HalfEdge>) -> Seq<Edge> {
    adj.map_values(|h: HalfEdge| (u, h.0, h.1))
}

/// The edges leaving vertices `0 .. n`, vertex by vertex, each list in
/// its own order.
pub open spec fn walk(adj: Seq<Seq<HalfEdge>>, n: nat) -> Seq<Edge>
    decreases n,
{
    if n == 0 {
        Seq::empty()
    } else {
        walk(adj, (n - 1) as nat) + edges_leaving((n - 1) as usize, adj[n - 1])
    }
}

/// The edges that writing a graph with adjacency lists `adj` emits.
pub open spec fn written_edges(adj: Seq<Seq<HalfEdge>>) -> Seq<Edge> {
    dedup(walk(adj, adj.len()))
}

/// The line of one edge: `u v weight` and a newline.
pub open spec fn line_text(e: Edge) -> Seq<u8> {
    nat_text(e.0 as nat) + seq![32u8] + nat_text(e.1 as nat) + seq![32u8] + weight_text(e.2)
        + seq![10u8]
}

/// The lines of a sequence of edges, in order.
pub open spec fn edges_text(es: Seq<Edge>) -> Seq<u8>
    decreases es.len(),
{
    if es.len() == 0 {
        Seq::empty()
    } else {
        edges_text(es.drop_last()) + line_text(es.last())
    }
}

fn is_written(out: &Vec<Edge>, e: Edge) -> (r: bool)
    ensures
        r == already_written(out@, e),
{
    let mut i: usize = 0;
    while i < out.len()
        invariant
            i <= out@.len(),
            forall|j: int| 0 <= j < i ==> !same_edge(#[trigger] out@[j], e),
        decreases out.len() - i,
    {
        let (a, b, w) = out[i];
        if w == e.2 && ((a == e.0 && b == e.1) || (a == e.1 && b == e.0)) {
            assert(same_edge(out@[i as int], e));
            return true;
        }
        i = i + 1;
    }
    false
}

/// The edges of a graph as they are written: vertices in increasing
/// order, each adjacency list in its own order, an entry left out when
/// the same edge (same endpoints in either order, same weight) was
/// already taken.
pub fn write_edges(g: &GraphRep<Weight>) -> (r: Vec<Edge>)
    ensures
        r@ == written_edges(adjacency_lists(*g)),
{
    let ghost adj = adjacency_lists(*g);
    let n = vertices(g);
    let mut out: Vec<Edge> = Vec::new();
    let mut u: usize = 0;
    while u < n
        invariant
            u <= n == adj.len(),
            adj == adjacency_lists(*g),
            out@ == dedup(walk(adj, u as nat)),
        decreases n - u,
    {
        let list = neighbours(g, u);
        let mut j: usize = 0;
        assert(edges_leaving(u, list@).subrange(0, 0) =~= Seq::<Edge>::empty());
        assert(walk(adj, u as nat) + Seq::<Edge>::empty() =~= walk(adj, u as nat));
        while j < list.len()
            invariant
                u < n == adj.len(),
                adj == adjacency_lists(*g),
                list@ == adj[u as int],
                j <= list@.len(),
                out@ == dedup(walk(adj, u as nat) + edges_leaving(u, list@).subrange(0, j as int)),
            decreases list.len() - j,
        {
            let (v, w, _) = list[j];
            let e: Edge = (u, v, w);
            let ghost done = walk(adj, u as nat) + edges_leaving(u, list@).subrange(0, j as int);
            let ghost next = walk(adj, u as nat) + edges_leaving(u, list@).subrange(
                0,
                j + 1,
            );
            assert(next.drop_last() =~= done);
            assert(next.last() == e);
            if !is_written(&out, e) {
                out.push(e);
            }
            j = j + 1;
        }
        assert(edges_leaving(u, list@).subrange(0, j as int) =~= edges_leaving(u, list@));
        u = u + 1;
    }
    out
}

fn push_line(out: &mut Vec<u8>, e: Edge)
    ensures
        final(out)@ == old(out)@ + line_text(e),
{
    let ghost start = out@;
    push_nat(out, e.0 as u64);
    out.push(32);
    push_nat(out, e.1 as u64);
    out.push(32);
    push_weight(out, e.2);
    out.push(10);
    assert(out@ =~= start + line_text(e));
}

/// Writes a graph as the text of an edge list: one line `u v weight` for
/// each edge of `write_edges(g)`, in that order.
pub fn write(g: &GraphRep<Weight>) -> (r: Vec<u8>)
    ensures
        r@ == edges_text(written_edges(adjacency_lists(*g))),
{
    let es = write_edges(g);
    let mut out: Vec<u8> = Vec::new();
    let mut i: usize = 0;
    assert(es@.subrange(0, 0) =~= Seq::<Edge>::empty());
    while i < es.len()
        invariant
            i <= es@.len(),
            out@ == edges_text(es@.subrange(0, i as int)),
        decreases es.len() - i,
    {
        assert(es@.subrange(0, i + 1).drop_last() =~= es@.subrange(0, i as int));
        push_line(&mut out, es[i]);
        i = i + 1;
    }
    assert(es@.subrange(0, i as int) =~= es@);
    out
}

} // verus!
