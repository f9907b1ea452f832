//! What writing a graph guarantees about the edges it emits.
use crate::graph::{adjacency_lists, Edge};
use crate::text::Weight;
use crate::write::{already_written, dedup, mirror, same_edge, walk, written_edges};
use graphix::GraphRep;
use vstd::prelude::*;

verus! {

/// Every entry that `dedup` keeps is an entry of its input.
pub proof fn lemma_dedup_from_input(s: Seq<Edge>)
    ensures
        forall|j: int| 0 <= j < dedup(s).len() ==> s.contains(#[trigger] dedup(s)[j]),
    decreases s.len(),
{
    if s.len() > 0 {
        lemma_dedup_from_input(s.drop_last());
        let d = dedup(s.drop_last());
        assert forall|j: int| 0 <= j < dedup(s).len() implies s.contains(#[trigger] dedup(s)[j]) by {
            if j < d.len() {
                assert(dedup(s)[j] == d[j]);
                let k = choose|k: int| 0 <= k < s.drop_last().len() && s.drop_last()[k] == d[j];
                assert(s[k] == d[j]);
            } else {
                assert(s[s.len() - 1] == dedup(s)[j]);
            }
        }
    }
}

/// Every entry of the input is kept by `dedup`, itself or as its mirror.
pub proof fn lemma_dedup_covers(s: Seq<Edge>)
    ensures
        forall|i: int| 0 <= i < s.len() ==> already_written(dedup(s), #[trigger] s[i]),
    decreases s.len(),
{
    if s.len() > 0 {
        lemma_dedup_covers(s.drop_last());
        let d = dedup(s.drop_last());
        assert forall|i: int| 0 <= i < s.len() implies already_written(dedup(s), #[trigger] s[i]) by {
            if i < s.len() - 1 {
                assert(s[i] == s.drop_last()[i]);
                assert(already_written(d, s.drop_last()[i]));
                let k = choose|k: int| 0 <= k < d.len() && same_edge(#[trigger] d[k], s.drop_last()[i]);
                assert(dedup(s)[k] == d[k]);
            } else if !already_written(d, s.last()) {
                assert(same_edge(dedup(s)[d.len() as int], s[i]));
            }
        }
    }
}

/// No two entries that `dedup` keeps stand for the same undirected edge.
pub proof fn lemma_dedup_distinct(s: Seq<Edge>)
    ensures
        forall|i: int, j: int|
            0 <= i < j < dedup(s).len() ==> !same_edge(#[trigger] dedup(s)[j], #[trigger] dedup(s)[i]),
    decreases s.len(),
{
    if s.len() > 0 {
        lemma_dedup_distinct(s.drop_last());
        let d = dedup(s.drop_last());
        assert forall|i: int, j: int|
            0 <= i < j < dedup(s).len() implies !same_edge(#[trigger] dedup(s)[j], #[trigger] dedup(s)[i]) by {
            if j < d.len() {
                assert(dedup(s)[j] == d[j] && dedup(s)[i] == d[i]);
            } else {
                assert(dedup(s)[i] == d[i]);
                if same_edge(dedup(s)[j], d[i]) {
                    assert(same_edge(d[i], s.last()));
                }
            }
        }
    }
}

/// An undirected edge whose entry appears in a graph's adjacency lists —
/// from one end, or from both as a mirrored pair — is written exactly
/// once: some written line stands for it, and no two do.
pub proof fn law_edge_written_once(g: GraphRep<Weight>, e: Edge)
    requires
        walk(adjacency_lists(g), adjacency_lists(g).len()).contains(e),
    ensures
        already_written(written_edges(adjacency_lists(g)), e),
        forall|i: int, j: int|
            0 <= i < j < written_edges(adjacency_lists(g)).len() ==> !(same_edge(
                #[trigger] written_edges(adjacency_lists(g))[i],
                e,
            ) && same_edge(#[trigger] written_edges(adjacency_lists(g))[j], e)),
{
    let s = walk(adjacency_lists(g), adjacency_lists(g).len());
    let d = written_edges(adjacency_lists(g));
    lemma_dedup_covers(s);
    lemma_dedup_distinct(s);
    let k = choose|k: int| 0 <= k < s.len() && s[k] == e;
    assert(already_written(dedup(s), s[k]));
    assert forall|i: int, j: int| 0 <= i < j < d.len() implies !(same_edge(#[trigger] d[i], e)
        && same_edge(#[trigger] d[j], e)) by {
        assert(!same_edge(d[j], d[i]));
    }
}

/// Two entries between the same vertices with different weights are
/// different edges: writing keeps a line for each.
pub proof fn law_distinct_weights_kept(g: GraphRep<Weight>, u: usize, v: usize, w1: Weight, w2: Weight)
    requires
        walk(adjacency_lists(g), adjacency_lists(g).len()).contains((u, v, w1)),
        walk(adjacency_lists(g), adjacency_lists(g).len()).contains((v, u, w2)),
        w1 != w2,
    ensures
        exists|i: int, j: int|
            0 <= i < written_edges(adjacency_lists(g)).len() && 0 <= j < written_edges(
                adjacency_lists(g),
            ).len() && i != j && same_edge(
                #[trigger] written_edges(adjacency_lists(g))[i],
                (u, v, w1),
            ) && same_edge(#[trigger] written_edges(adjacency_lists(g))[j], (v, u, w2)),
{
    let d = written_edges(adjacency_lists(g));
    law_edge_written_once(g, (u, v, w1));
    law_edge_written_once(g, (v, u, w2));
    let i = choose|i: int| 0 <= i < d.len() && same_edge(#[trigger] d[i], (u, v, w1));
    let j = choose|j: int| 0 <= j < d.len() && same_edge(#[trigger] d[j], (v, u, w2));
    assert(d[i].2 == w1 && d[j].2 == w2);
}

} // verus!
