//! Writing a graph and reading the text back loses no edge.
use crate::text::{
    all_digits, count_digits, count_points, digits_value, is_decimal_body, is_digit, is_point,
    nat_text, scale_of, sign_len, unsigned_text, vertex_of, weight_of, weight_text, zeros, Weight,
    MAX_VERTEX,
};
use crate::graph::{adjacency, adjacency_of, half_edges, max_endpoint, vertex_count, Edge, HalfEdge};
use crate::laws::{lemma_dedup_covers, lemma_dedup_from_input};
use crate::read::{
    edges_of, edges_of_lines, is_newline, is_space, lemma_split_lines_nonempty, line_edge,
    split_lines, tokens, ReadError,
};
use crate::write::{
    already_written, dedup, edges_leaving, edges_text, line_text, mirror, same_edge, walk,
    written_edges,
};
use vstd::prelude::*;

verus! {

proof fn lemma_nat_text(n: nat)
    ensures
        nat_text(n).len() >= 1,
        all_digits(nat_text(n)),
        digits_value(nat_text(n)) == n,
        count_points(nat_text(n)) == 0,
        count_digits(nat_text(n)) == nat_text(n).len(),
    decreases n,
{
    let t = nat_text(n);
    if n < 10 {
        assert(t.drop_last() =~= Seq::<u8>::empty());
        assert(t.last() == (n + 48) as u8);
        assert(is_digit(t.last()));
        assert(!is_point(t.last()));
        assert(count_points(Seq::<u8>::empty()) == 0);
        assert(count_digits(Seq::<u8>::empty()) == 0);
        assert(digits_value(Seq::<u8>::empty()) == 0);
        assert(digits_value(t) == digits_value(t.drop_last()) * 10 + (t.last() - 48) as nat);
    } else {
        lemma_nat_text(n / 10);
        let d = (n % 10 + 48) as u8;
        assert(t.drop_last() =~= nat_text(n / 10));
        assert(t.last() == d);
        assert(is_digit(d));
        assert(!is_point(d));
        assert((n / 10) * 10 + n % 10 == n) by (nonlinear_arith);
        assert(digits_value(t) == digits_value(t.drop_last()) * 10 + (t.last() - 48) as nat);
        assert forall|i: int| 0 <= i < t.len() implies is_digit(#[trigger] t[i]) by {
            if i < t.len() - 1 {
                assert(t[i] == nat_text(n / 10)[i]);
            }
        }
    }
}

/// Bytes after `a` that agree in value keep agreeing.
proof fn lemma_digits_value_congruent(a: Seq<u8>, a2: Seq<u8>, b: Seq<u8>)
    requires
        digits_value(a) == digits_value(a2),
    ensures
        digits_value(a + b) == digits_value(a2 + b),
    decreases b.len(),
{
    if b.len() == 0 {
        assert(a + b =~= a);
        assert(a2 + b =~= a2);
    } else {
        lemma_digits_value_congruent(a, a2, b.drop_last());
        assert((a + b).drop_last() =~= a + b.drop_last());
        assert((a2 + b).drop_last() =~= a2 + b.drop_last());
    }
}

proof fn lemma_counts_additive(a: Seq<u8>, b: Seq<u8>)
    ensures
        count_points(a + b) == count_points(a) + count_points(b),
        count_digits(a + b) == count_digits(a) + count_digits(b),
    decreases b.len(),
{
    if b.len() == 0 {
        assert(a + b =~= a);
    } else {
        lemma_counts_additive(a, b.drop_last());
        assert((a + b).drop_last() =~= a + b.drop_last());
    }
}

proof fn lemma_zeros(m: nat)
    ensures
        digits_value(seq![48u8, 46u8] + zeros(m)) == 0,
        count_points(zeros(m)) == 0,
        count_digits(zeros(m)) == m,
    decreases m,
{
    let p = seq![48u8, 46u8];
    if m == 0 {
        assert(p + zeros(m) =~= p);
        assert(p.drop_last() =~= seq![48u8]);
        assert(seq![48u8].drop_last() =~= Seq::<u8>::empty());
        assert(digits_value(Seq::<u8>::empty()) == 0);
        assert(seq![48u8].last() == 48u8);
        assert(digits_value(seq![48u8]) == 0);
        assert(zeros(m) =~= Seq::<u8>::empty());
    } else {
        lemma_zeros((m - 1) as nat);
        assert((p + zeros(m)).drop_last() =~= p + zeros((m - 1) as nat));
        assert((p + zeros(m)).last() == 48u8);
        assert(zeros(m).drop_last() =~= zeros((m - 1) as nat));
        assert(zeros(m).last() == 48u8);
    }
}

/// After a decimal point, the scale counts the digits that follow.
proof fn lemma_scale_after_point(a: Seq<u8>, b: Seq<u8>)
    requires
        count_points(b) == 0,
    ensures
        scale_of(a.push(46u8) + b) == b.len(),
        count_points(a.push(46u8) + b) > 0,
    decreases b.len(),
{
    if b.len() == 0 {
        assert(a.push(46u8) + b =~= a.push(46u8));
        assert(a.push(46u8).drop_last() =~= a);
    } else {
        assert(count_points(b.drop_last()) == 0);
        lemma_scale_after_point(a, b.drop_last());
        assert((a.push(46u8) + b).drop_last() =~= a.push(46u8) + b.drop_last());
    }
}

proof fn lemma_scale_without_point(s: Seq<u8>)
    requires
        count_points(s) == 0,
    ensures
        scale_of(s) == 0,
{
    if s.len() > 0 {
        assert(count_points(s.drop_last()) == 0);
    }
}

/// What the unsigned text of a weight is made of.
pub open spec fn reads_as_body(body: Seq<u8>, digits: u64, scale: usize) -> bool {
    &&& is_decimal_body(body)
    &&& digits_value(body) == digits
    &&& scale_of(body) == scale
    &&& is_digit(body[0])
    &&& forall|i: int| 0 <= i < body.len() ==> 46 <= #[trigger] body[i] <= 57
}

proof fn lemma_unsigned_text_split(digits: u64, scale: usize)
    requires
        scale > 0,
        nat_text(digits as nat).len() > scale,
    ensures
        reads_as_body(unsigned_text(digits, scale), digits, scale),
{
    let t = nat_text(digits as nat);
    let k = scale as int;
    lemma_nat_text(digits as nat);
    let body = unsigned_text(digits, scale);
    let a = t.subrange(0, t.len() - k);
    let b = t.subrange(t.len() - k, t.len() as int);
    assert(a + b =~= t);
    assert(body =~= a.push(46u8) + b);
    assert(a.push(46u8).drop_last() =~= a);
    lemma_digits_value_congruent(a, a.push(46u8), b);
    lemma_counts_additive(a, b);
    lemma_counts_additive(a.push(46u8), b);
    lemma_counts_additive(a, seq![46u8]);
    assert(seq![46u8].drop_last() =~= Seq::<u8>::empty());
    assert(a.push(46u8) =~= a + seq![46u8]);
    assert(count_points(b) == 0);
    lemma_scale_after_point(a, b);
    assert(body[0] == t[0]);
    assert forall|i: int| 0 <= i < body.len() implies 46 <= #[trigger] body[i] <= 57 by {
        if i < t.len() - k {
            assert(body[i] == t[i]);
        } else if i > t.len() - k {
            assert(body[i] == t[i - 1]);
        }
    }
    assert forall|i: int| 0 <= i < body.len() implies is_digit(#[trigger] body[i]) || is_point(
        body[i],
    ) by {
        assert(46 <= body[i] <= 57);
        if i < t.len() - k {
            assert(body[i] == t[i]);
        } else if i > t.len() - k {
            assert(body[i] == t[i - 1]);
        }
    }
}

#[verifier::rlimit(50)]
proof fn lemma_unsigned_text_padded(digits: u64, scale: usize)
    requires
        scale > 0,
        nat_text(digits as nat).len() <= scale,
    ensures
        reads_as_body(unsigned_text(digits, scale), digits, scale),
{
    let t = nat_text(digits as nat);
    let k = scale as int;
    lemma_nat_text(digits as nat);
    let body = unsigned_text(digits, scale);
    let m = (k - t.len()) as nat;
    let p = seq![48u8, 46u8];
    lemma_zeros(m);
    assert(digits_value(Seq::<u8>::empty()) == 0);
    lemma_digits_value_congruent(p + zeros(m), Seq::<u8>::empty(), t);
    assert(Seq::<u8>::empty() + t =~= t);
    assert(p + zeros(m) + t =~= p + (zeros(m) + t));
    assert(body =~= seq![48u8].push(46u8) + (zeros(m) + t));
    lemma_counts_additive(zeros(m), t);
    lemma_scale_after_point(seq![48u8], zeros(m) + t);
    lemma_counts_additive(p, zeros(m) + t);
    assert(p.drop_last() =~= seq![48u8]);
    assert(seq![48u8].drop_last() =~= Seq::<u8>::empty());
    assert(count_points(Seq::<u8>::empty()) == 0);
    assert(count_digits(Seq::<u8>::empty()) == 0);
    assert(seq![48u8].last() == 48u8);
    assert(count_points(seq![48u8]) == 0);
    assert(count_digits(seq![48u8]) == 1);
    assert(p.last() == 46u8);
    assert(count_points(p) == 1);
    assert(count_digits(p) == 1);
    assert forall|i: int| 0 <= i < body.len() implies 46 <= #[trigger] body[i] <= 57 && (is_digit(
        body[i],
    ) || is_point(body[i])) by {
        if i >= 2 + m {
            assert(body[i] == t[i - 2 - m]);
        }
    }
}

proof fn lemma_unsigned_text(digits: u64, scale: usize)
    ensures
        reads_as_body(unsigned_text(digits, scale), digits, scale),
{
    let t = nat_text(digits as nat);
    lemma_nat_text(digits as nat);
    if scale == 0 {
        lemma_scale_without_point(t);
        assert(is_digit(t[0]));
        assert forall|i: int| 0 <= i < t.len() implies 46 <= #[trigger] t[i] <= 57 by {
            assert(is_digit(t[i]));
        }
    } else if t.len() > scale {
        lemma_unsigned_text_split(digits, scale);
    } else {
        lemma_unsigned_text_padded(digits, scale);
    }
}

/// The text of a weight reads back as that weight.
pub proof fn lemma_weight_text(w: Weight)
    ensures
        weight_of(weight_text(w)) == Some(w),
        forall|i: int| 0 <= i < weight_text(w).len() ==> 45 <= #[trigger] weight_text(w)[i] <= 57,
        weight_text(w).len() > 0,
{
    let body = unsigned_text(w.digits, w.scale);
    lemma_unsigned_text(w.digits, w.scale);
    let tok = weight_text(w);
    if w.negative {
        assert(tok =~= seq![45u8] + body);
        assert(tok.subrange(sign_len(tok), tok.len() as int) =~= body);
        assert forall|i: int| 0 <= i < tok.len() implies 45 <= #[trigger] tok[i] <= 57 by {
            if i > 0 {
                assert(tok[i] == body[i - 1]);
            }
        }
    } else {
        assert(tok.subrange(sign_len(tok), tok.len() as int) =~= body);
    }
}

/// The digits of a vertex index read back as that index.
pub proof fn lemma_vertex_text(v: usize)
    requires
        v <= MAX_VERTEX,
    ensures
        vertex_of(nat_text(v as nat)) == Some(v),
        forall|i: int| 0 <= i < nat_text(v as nat).len() ==> is_digit(#[trigger] nat_text(v as nat)[i]),
        nat_text(v as nat).len() > 0,
{
    lemma_nat_text(v as nat);
}

pub open spec fn is_word(x: Seq<u8>) -> bool {
    x.len() > 0 && forall|i: int| 0 <= i < x.len() ==> 45 <= #[trigger] x[i] <= 57
}

proof fn lemma_tokens_word(x: Seq<u8>)
    requires
        is_word(x),
    ensures
        tokens(x) == seq![x],
    decreases x.len(),
{
    assert(!is_space(x.last()));
    if x.len() == 1 {
        assert(x.drop_last() =~= Seq::<u8>::empty());
        assert(tokens(Seq::<u8>::empty()) =~= Seq::<Seq<u8>>::empty());
        assert(seq![x.last()] =~= x);
        assert(tokens(x) =~= seq![x]);
    } else {
        assert(is_word(x.drop_last()));
        lemma_tokens_word(x.drop_last());
        assert(!is_space(x[x.len() - 2]));
        assert(x.drop_last().push(x.last()) =~= x);
        assert(tokens(x) =~= seq![x]);
    }
}

proof fn lemma_tokens_append_word(x: Seq<u8>, y: Seq<u8>)
    requires
        is_word(y),
    ensures
        tokens(x.push(32u8) + y) == tokens(x).push(y),
    decreases y.len(),
{
    let s = x.push(32u8) + y;
    assert(!is_space(y.last()));
    assert(s.last() == y.last());
    if y.len() == 1 {
        assert(s.drop_last() =~= x.push(32u8));
        assert(x.push(32u8).drop_last() =~= x);
        assert(tokens(x.push(32u8)) == tokens(x));
        assert(s[s.len() - 2] == 32u8);
        assert(seq![y.last()] =~= y);
    } else {
        assert(is_word(y.drop_last()));
        lemma_tokens_append_word(x, y.drop_last());
        assert(s.drop_last() =~= x.push(32u8) + y.drop_last());
        assert(s[s.len() - 2] == y[y.len() - 2]);
        assert(!is_space(y[y.len() - 2]));
        assert(y.drop_last().push(y.last()) =~= y);
        assert(tokens(s) =~= tokens(x).push(y));
    }
}

/// A line of text without its newline.
pub open spec fn line_body(e: Edge) -> Seq<u8> {
    nat_text(e.0 as nat) + seq![32u8] + nat_text(e.1 as nat) + seq![32u8] + weight_text(e.2)
}

proof fn lemma_line_body(e: Edge)
    requires
        e.0 <= MAX_VERTEX,
        e.1 <= MAX_VERTEX,
    ensures
        line_edge(line_body(e)) == Some(Ok::<Edge, ReadError>(e)),
        line_text(e) == line_body(e).push(10u8),
        forall|i: int| 0 <= i < line_body(e).len() ==> !is_newline(#[trigger] line_body(e)[i]),
{
    let a = nat_text(e.0 as nat);
    let b = nat_text(e.1 as nat);
    let c = weight_text(e.2);
    lemma_vertex_text(e.0);
    lemma_vertex_text(e.1);
    lemma_weight_text(e.2);
    assert(is_word(a));
    assert(is_word(b));
    assert(is_word(c));
    lemma_tokens_word(a);
    lemma_tokens_append_word(a, b);
    lemma_tokens_append_word(a.push(32u8) + b, c);
    assert(line_body(e) =~= (a.push(32u8) + b).push(32u8) + c);
    assert(seq![a].push(b).push(c) =~= seq![a, b, c]);
    assert(line_text(e) =~= line_body(e).push(10u8));
    let l = line_body(e);
    assert forall|i: int| 0 <= i < l.len() implies !is_newline(#[trigger] l[i]) by {
        if i < a.len() {
            assert(l[i] == a[i]);
        } else if i == a.len() {
        } else if i < a.len() + 1 + b.len() {
            assert(l[i] == b[i - a.len() - 1]);
        } else if i == a.len() + 1 + b.len() {
        } else {
            assert(l[i] == c[i - a.len() - 2 - b.len()]);
        }
    }
}

proof fn lemma_split_lines_append(x: Seq<u8>, y: Seq<u8>)
    requires
        forall|i: int| 0 <= i < y.len() ==> !is_newline(#[trigger] y[i]),
    ensures
        split_lines(x + y) == split_lines(x).update(
            split_lines(x).len() - 1,
            split_lines(x).last() + y,
        ),
    decreases y.len(),
{
    lemma_split_lines_nonempty(x);
    if y.len() == 0 {
        assert(x + y =~= x);
        assert(split_lines(x).last() + y =~= split_lines(x).last());
        assert(split_lines(x).update(split_lines(x).len() - 1, split_lines(x).last())
            =~= split_lines(x));
    } else {
        lemma_split_lines_append(x, y.drop_last());
        assert((x + y).drop_last() =~= x + y.drop_last());
        assert(!is_newline(y.last()));
        assert((split_lines(x).last() + y.drop_last()).push(y.last()) =~= split_lines(x).last()
            + y);
        assert(split_lines(x + y) =~= split_lines(x).update(
            split_lines(x).len() - 1,
            split_lines(x).last() + y,
        ));
    }
}

pub open spec fn vertices_in_range(es: Seq<Edge>) -> bool {
    forall|i: int| 0 <= i < es.len() ==> (#[trigger] es[i]).0 <= MAX_VERTEX && es[i].1 <= MAX_VERTEX
}

proof fn lemma_edges_text_lines(es: Seq<Edge>)
    requires
        vertices_in_range(es),
    ensures
        split_lines(edges_text(es)).len() >= 1,
        split_lines(edges_text(es)).last() == Seq::<u8>::empty(),
        edges_of_lines(split_lines(edges_text(es)).drop_last()) == Ok::<Seq<Edge>, ReadError>(es),
    decreases es.len(),
{
    if es.len() == 0 {
        assert(split_lines(Seq::<u8>::empty()).drop_last() =~= Seq::<Seq<u8>>::empty());
        assert(es =~= Seq::<Edge>::empty());
    } else {
        let e = es.last();
        let x = edges_text(es.drop_last());
        assert(vertices_in_range(es.drop_last())) by {
            assert forall|i: int| 0 <= i < es.drop_last().len() implies (
            #[trigger] es.drop_last()[i]).0 <= MAX_VERTEX && es.drop_last()[i].1 <= MAX_VERTEX by {
                assert(es.drop_last()[i] == es[i]);
            }
        }
        lemma_edges_text_lines(es.drop_last());
        lemma_line_body(e);
        let sx = split_lines(x);
        let body = line_body(e);
        lemma_split_lines_append(x, body);
        assert(sx.last() + body =~= body);
        let s1 = split_lines(x + body);
        assert(s1 =~= sx.drop_last().push(body));
        assert(edges_text(es) =~= (x + body).push(10u8));
        assert((x + body).push(10u8).drop_last() =~= x + body);
        assert(split_lines(edges_text(es)) == s1.push(Seq::<u8>::empty()));
        assert(split_lines(edges_text(es)).drop_last() =~= s1);
        assert(s1.drop_last() =~= sx.drop_last());
        assert(es.drop_last().push(e) =~= es);
    }
}

/// Text written from edges whose endpoints are valid vertex indices reads
/// back as exactly those edges, in order.
pub proof fn lemma_edges_text_reads_back(es: Seq<Edge>)
    requires
        vertices_in_range(es),
    ensures
        edges_of(edges_text(es)) == Ok::<Seq<Edge>, ReadError>(es),
{
    lemma_edges_text_lines(es);
    let s = split_lines(edges_text(es));
    assert(tokens(Seq::<u8>::empty()).len() == 0);
    assert(s.drop_last().push(s.last()) =~= s);
}

proof fn lemma_max_endpoint(es: Seq<Edge>)
    ensures
        forall|i: int|
            0 <= i < es.len() ==> (#[trigger] es[i]).0 <= max_endpoint(es) && es[i].1
                <= max_endpoint(es),
        max_endpoint(es) <= usize::MAX,
    decreases es.len(),
{
    if es.len() > 0 {
        lemma_max_endpoint(es.drop_last());
        assert forall|i: int| 0 <= i < es.len() implies (#[trigger] es[i]).0 <= max_endpoint(es)
            && es[i].1 <= max_endpoint(es) by {
            if i < es.len() - 1 {
                assert(es[i] == es.drop_last()[i]);
            }
        }
    }
}

proof fn lemma_adjacency_has(es: Seq<Edge>, i: int)
    requires
        0 <= i < es.len(),
    ensures
        adjacency(es, es[i].0).contains((es[i].1, es[i].2, i as usize)),
    decreases es.len(),
{
    let u = es[i].0;
    let pre = adjacency(es.drop_last(), u);
    let h = half_edges(es.last(), (es.len() - 1) as nat, u);
    assert(adjacency(es, u) == pre + h);
    if i == es.len() - 1 {
        assert((pre + h)[pre.len() as int] == (es[i].1, es[i].2, i as usize));
    } else {
        assert(es.drop_last()[i] == es[i]);
        lemma_adjacency_has(es.drop_last(), i);
        let k = choose|k: int| 0 <= k < pre.len() && pre[k] == (es[i].1, es[i].2, i as usize);
        assert((pre + h)[k] == pre[k]);
    }
}

/// Each half-edge at `u` comes from an edge with `u` as its source or its
/// target.
pub open spec fn half_edge_of(es: Seq<Edge>, u: usize, h: HalfEdge) -> bool {
    exists|i: int|
        0 <= i < es.len() && ((es[i].0 == u && h == (es[i].1, es[i].2, i as usize)) || (es[i].1
            == u && h == (#[trigger] es[i].0, es[i].2, i as usize)))
}

proof fn lemma_adjacency_from(es: Seq<Edge>, u: usize)
    ensures
        forall|k: int|
            0 <= k < adjacency(es, u).len() ==> half_edge_of(es, u, #[trigger] adjacency(es, u)[k]),
    decreases es.len(),
{
    if es.len() > 0 {
        let d = es.drop_last();
        lemma_adjacency_from(d, u);
        let pre = adjacency(d, u);
        let n = (es.len() - 1) as nat;
        let e = es.last();
        let h = half_edges(e, n, u);
        assert forall|k: int| 0 <= k < adjacency(es, u).len() implies half_edge_of(
            es,
            u,
            #[trigger] adjacency(es, u)[k],
        ) by {
            let x = adjacency(es, u)[k];
            if k < pre.len() {
                assert(x == pre[k]);
                let i = choose|i: int|
                    0 <= i < d.len() && ((d[i].0 == u && x == (d[i].1, d[i].2, i as usize)) || (
                    d[i].1 == u && x == (#[trigger] d[i].0, d[i].2, i as usize)));
                assert(es[i] == d[i]);
            } else {
                let m = n as int;
                assert(es[m] == e);
                assert(x == h[k - pre.len()]);
            }
        }
    }
}

proof fn lemma_walk_has(adj: Seq<Seq<HalfEdge>>, n: nat, u: int, k: int)
    requires
        0 <= u < n <= adj.len(),
        0 <= k < adj[u].len(),
        n <= usize::MAX + 1,
    ensures
        walk(adj, n).contains((u as usize, adj[u][k].0, adj[u][k].1)),
    decreases n,
{
    let pre = walk(adj, (n - 1) as nat);
    let l = edges_leaving((n - 1) as usize, adj[n - 1]);
    assert(walk(adj, n) == pre + l);
    if u == n - 1 {
        assert((pre + l)[pre.len() + k] == l[k]);
    } else {
        lemma_walk_has(adj, (n - 1) as nat, u, k);
        let j = choose|j: int| 0 <= j < pre.len() && pre[j] == (u as usize, adj[u][k].0, adj[u][k].1);
        assert((pre + l)[j] == pre[j]);
    }
}

/// An entry of the walk leaves vertex `u` along one of its half-edges.
pub open spec fn walked_from(adj: Seq<Seq<HalfEdge>>, n: nat, x: Edge) -> bool {
    exists|u: int, k: int|
        0 <= u < n && 0 <= k < adj[u].len() && x == (u as usize, (#[trigger] adj[u][k]).0, adj[u][k].1)
}

proof fn lemma_walk_from(adj: Seq<Seq<HalfEdge>>, n: nat)
    requires
        n <= adj.len(),
        n <= usize::MAX + 1,
    ensures
        forall|j: int| 0 <= j < walk(adj, n).len() ==> walked_from(adj, n, #[trigger] walk(adj, n)[j]),
    decreases n,
{
    if n > 0 {
        lemma_walk_from(adj, (n - 1) as nat);
        let pre = walk(adj, (n - 1) as nat);
        let l = edges_leaving((n - 1) as usize, adj[n - 1]);
        assert forall|j: int| 0 <= j < walk(adj, n).len() implies walked_from(
            adj,
            n,
            #[trigger] walk(adj, n)[j],
        ) by {
            let x = walk(adj, n)[j];
            if j < pre.len() {
                assert(x == pre[j]);
                let (u, k) = choose|u: int, k: int|
                    0 <= u < n - 1 && 0 <= k < adj[u].len() && pre[j] == (
                    u as usize,
                    (#[trigger] adj[u][k]).0,
                    adj[u][k].1,
                );
            } else {
                let k = j - pre.len();
                assert(x == l[k]);
                let u = n - 1;
                assert(x == (u as usize, adj[u][k].0, adj[u][k].1));
            }
        }
    }
}

/// The edges written from the graph built from `es` are, as undirected
/// edges with their weights, exactly the edges of `es`.
pub proof fn lemma_written_same_edges(es: Seq<Edge>)
    ensures
        forall|e: Edge|
            already_written(written_edges(adjacency_of(es)), e) <==> already_written(es, e),
        vertices_in_range(es) ==> vertices_in_range(written_edges(adjacency_of(es))),
{
    let adj = adjacency_of(es);
    let n = adj.len();
    let w = walk(adj, n);
    let d = written_edges(adj);
    lemma_max_endpoint(es);
    assert(n == vertex_count(es));
    lemma_walk_from(adj, n);
    lemma_dedup_covers(w);
    lemma_dedup_from_input(w);
    // Every entry of the walk is an edge of `es`, in one direction.
    assert forall|j: int| 0 <= j < w.len() implies exists|i: int|
        0 <= i < es.len() && same_edge(#[trigger] w[j], es[i]) by {
        let x = w[j];
        let (u, k) = choose|u: int, k: int|
            0 <= u < n && 0 <= k < adj[u].len() && x == (u as usize, (#[trigger] adj[u][k]).0, adj[u][k].1);
        lemma_adjacency_from(es, u as usize);
        assert(adj[u] == adjacency(es, u as usize));
        let h = adj[u][k];
        assert(half_edge_of(es, u as usize, adjacency(es, u as usize)[k]));
        let i = choose|i: int|
            0 <= i < es.len() && ((es[i].0 == u as usize && h == (es[i].1, es[i].2, i as usize)) || (
            es[i].1 == u as usize && h == (#[trigger] es[i].0, es[i].2, i as usize)));
        assert(same_edge(x, es[i]));
    }
    // Every edge of `es` is an entry of the walk.
    assert forall|i: int| 0 <= i < es.len() implies w.contains(#[trigger] es[i]) by {
        let u = es[i].0;
        lemma_adjacency_has(es, i);
        let a = adjacency(es, u);
        let k = choose|k: int| 0 <= k < a.len() && a[k] == (es[i].1, es[i].2, i as usize);
        assert(adj[u as int] == a);
        lemma_walk_has(adj, n, u as int, k);
    }
    assert forall|e: Edge| already_written(d, e) implies already_written(es, e) by {
        let j = choose|j: int| 0 <= j < d.len() && same_edge(#[trigger] d[j], e);
        assert(w.contains(d[j]));
        let m = choose|m: int| 0 <= m < w.len() && w[m] == d[j];
        assert(exists|i: int| 0 <= i < es.len() && same_edge(#[trigger] w[m], es[i]));
        let i = choose|i: int| 0 <= i < es.len() && same_edge(#[trigger] w[m], es[i]);
        assert(same_edge(es[i], e));
    }
    assert forall|e: Edge| already_written(es, e) implies already_written(d, e) by {
        let i = choose|i: int| 0 <= i < es.len() && same_edge(#[trigger] es[i], e);
        assert(w.contains(es[i]));
        let m = choose|m: int| 0 <= m < w.len() && w[m] == es[i];
        assert(already_written(d, w[m]));
        let j = choose|j: int| 0 <= j < d.len() && same_edge(#[trigger] d[j], w[m]);
        assert(same_edge(d[j], e));
    }
    if vertices_in_range(es) {
        assert forall|j: int| 0 <= j < d.len() implies (#[trigger] d[j]).0 <= MAX_VERTEX && d[j].1
            <= MAX_VERTEX by {
            assert(w.contains(d[j]));
            let m = choose|m: int| 0 <= m < w.len() && w[m] == d[j];
            assert(exists|i: int| 0 <= i < es.len() && same_edge(#[trigger] w[m], es[i]));
            let i = choose|i: int| 0 <= i < es.len() && same_edge(#[trigger] w[m], es[i]);
        }
    }
}

proof fn lemma_read_vertices_in_range(ls: Seq<Seq<u8>>)
    ensures
        edges_of_lines(ls) is Ok ==> vertices_in_range(edges_of_lines(ls)->Ok_0),
    decreases ls.len(),
{
    if ls.len() > 0 {
        lemma_read_vertices_in_range(ls.drop_last());
        if edges_of_lines(ls) is Ok {
            let pre = edges_of_lines(ls.drop_last())->Ok_0;
            let es = edges_of_lines(ls)->Ok_0;
            assert forall|i: int| 0 <= i < es.len() implies (#[trigger] es[i]).0 <= MAX_VERTEX
                && es[i].1 <= MAX_VERTEX by {
                if i < pre.len() {
                    assert(es[i] == pre[i]);
                }
            }
        }
    }
}

/// Reading a text, writing the graph, reading that text back and writing
/// again: each read succeeds, and the last text holds, as undirected edges
/// with their weights, exactly the edges of the first read.
pub proof fn law_round_trip(source: Seq<u8>)
    requires
        edges_of(source) is Ok,
    ensures
        ({
            let es = edges_of(source)->Ok_0;
            let out1 = edges_text(written_edges(adjacency_of(es)));
            &&& edges_of(out1) is Ok
            &&& {
                let out2 = edges_text(written_edges(adjacency_of(edges_of(out1)->Ok_0)));
                &&& edges_of(out2) is Ok
                &&& forall|e: Edge|
                    already_written(edges_of(out2)->Ok_0, e) <==> already_written(es, e)
            }
        }),
{
    let es = edges_of(source)->Ok_0;
    lemma_read_vertices_in_range(split_lines(source));
    let e1 = written_edges(adjacency_of(es));
    lemma_written_same_edges(es);
    lemma_edges_text_reads_back(e1);
    let e2 = written_edges(adjacency_of(e1));
    lemma_written_same_edges(e1);
    lemma_edges_text_reads_back(e2);
}

} // verus!
