//! Numbers in text: unsigned vertex indices and decimal weights.
use vstd::prelude::*;

verus! {

/// The largest vertex index a graph can hold (the adjacency offsets need
/// two more slots).
pub const MAX_VERTEX: usize = usize::MAX - 2;

pub open spec fn is_digit(c: u8) -> bool {
    48 <= c && c <= 57
}

pub open spec fn is_point(c: u8) -> bool {
    c == 46
}

/// The number formed by the decimal digits of `s`, in order; any other
/// byte (a decimal point) is passed over.
pub open spec fn digits_value(s: Seq<u8>) -> nat
    decreases s.len(),
{
    if s.len() == 0 {
        0
    } else if is_digit(s.last()) {
        digits_value(s.drop_last()) * 10 + (s.last() - 48) as nat
    } else {
        digits_value(s.drop_last())
    }
}

pub open spec fn all_digits(s: Seq<u8>) -> bool {
    forall|i: int| 0 <= i < s.len() ==> is_digit(#[trigger] s[i])
}

/// The vertex index that a token denotes, if it is one.
pub open spec fn vertex_of(tok: Seq<u8>) -> Option<usize> {
    if tok.len() > 0 && all_digits(tok) && digits_value(tok) <= MAX_VERTEX {
        Some(digits_value(tok) as usize)
    } else {
        None
    }
}

proof fn lemma_digits_value_prefix(s: Seq<u8>, k: int)
    requires
        0 <= k <= s.len(),
    ensures
        digits_value(s.subrange(0, k)) <= digits_value(s),
    decreases s.len() - k,
{
    if k < s.len() {
        lemma_digits_value_prefix(s, k + 1);
        assert(s.subrange(0, k + 1).drop_last() =~= s.subrange(0, k));
    } else {
        assert(s.subrange(0, k) =~= s);
    }
}

/// Parses the vertex index held in `s[start..end]`.
pub fn parse_vertex(s: &[u8], start: usize, end: usize) -> (r: Option<usize>)
    requires
        start <= end <= s@.len(),
    ensures
        r == vertex_of(s@.subrange(start as int, end as int)),
{
    let ghost tok = s@.subrange(start as int, end as int);
    if start == end {
        return None;
    }
    let mut acc: usize = 0;
    let mut i: usize = start;
    while i < end
        invariant
            start <= i <= end <= s@.len(),
            tok == s@.subrange(start as int, end as int),
            all_digits(s@.subrange(start as int, i as int)),
            acc as nat == digits_value(s@.subrange(start as int, i as int)),
            acc <= MAX_VERTEX,
        decreases end - i,
    {
        let c = s[i];
        assert(s@.subrange(start as int, i + 1).drop_last() =~= s@.subrange(start as int, i as int));
        if c < 48 || c > 57 {
            assert(!is_digit(tok[i - start]));
            return None;
        }
        let d = (c - 48) as usize;
        if acc > (MAX_VERTEX - d) / 10 {
            proof {
                assert(s@.subrange(start as int, i + 1) =~= tok.subrange(0, i + 1 - start));
                lemma_digits_value_prefix(tok, i + 1 - start);
            }
            return None;
        }
        acc = acc * 10 + d;
        i = i + 1;
    }
    assert(s@.subrange(start as int, i as int) =~= tok);
    Some(acc)
}

/// A decimal weight: `digits` with a decimal point `scale` places from
/// the right, negated when `negative` holds. `3.5` is `digits == 35`,
/// `scale == 1`; the digits after the point are kept as they were written,
/// so `2.50` keeps `scale == 2`.
#[derive(Clone, Copy, Debug, PartialEq, Eq, Structural, PartialOrd)]
pub struct Weight {
    pub negative: bool,
    pub digits: u64,
    pub scale: usize,
}

pub open spec fn count_points(s: Seq<u8>) -> nat
    decreases s.len(),
{
    if s.len() == 0 {
        0
    } else {
        count_points(s.drop_last()) + if is_point(s.last()) { 1nat } else { 0nat }
    }
}

pub open spec fn count_digits(s: Seq<u8>) -> nat
    decreases s.len(),
{
    if s.len() == 0 {
        0
    } else {
        count_digits(s.drop_last()) + if is_digit(s.last()) { 1nat } else { 0nat }
    }
}

/// The number of bytes after the decimal point of `s` (0 without one).
pub open spec fn scale_of(s: Seq<u8>) -> nat
    decreases s.len(),
{
    if s.len() == 0 || is_point(s.last()) {
        0
    } else if count_points(s.drop_last()) > 0 {
        scale_of(s.drop_last()) + 1
    } else {
        0
    }
}

/// Digits with at most one decimal point, and at least one digit.
pub open spec fn is_decimal_body(s: Seq<u8>) -> bool {
    &&& forall|i: int| 0 <= i < s.len() ==> is_digit(#[trigger] s[i]) || is_point(s[i])
    &&& count_points(s) <= 1
    &&& count_digits(s) > 0
}

pub open spec fn sign_len(tok: Seq<u8>) -> int {
    if tok.len() > 0 && (tok[0] == 45 || tok[0] == 43) {
        1
    } else {
        0
    }
}

/// The weight that a token denotes, if it is one: an optional sign `-` or
/// `+`, then digits with at most one decimal point, whose digits together
/// fit in 64 bits.
pub open spec fn weight_of(tok: Seq<u8>) -> Option<Weight> {
    let body = tok.subrange(sign_len(tok), tok.len() as int);
    if is_decimal_body(body) && digits_value(body) <= u64::MAX {
        Some(
            Weight {
                negative: tok.len() > 0 && tok[0] == 45,
                digits: digits_value(body) as u64,
                scale: scale_of(body) as usize,
            },
        )
    } else {
        None
    }
}

/// Parses the weight held in `s[start..end]`.
pub fn parse_weight(s: &[u8], start: usize, end: usize) -> (r: Option<Weight>)
    requires
        start <= end <= s@.len(),
    ensures
        r == weight_of(s@.subrange(start as int, end as int)),
{
    let ghost tok = s@.subrange(start as int, end as int);
    let mut b: usize = start;
    let negative = start < end && s[start] == 45;
    if start < end && (s[start] == 45 || s[start] == 43) {
        b = start + 1;
    }
    let ghost body = tok.subrange(sign_len(tok), tok.len() as int);
    assert(body =~= s@.subrange(b as int, end as int));
    let mut acc: u64 = 0;
    let mut points: usize = 0;
    let mut ndigits: usize = 0;
    let mut scale: usize = 0;
    let mut i: usize = b;
    while i < end
        invariant
            b <= i <= end <= s@.len(),
            body == s@.subrange(b as int, end as int),
            body == tok.subrange(sign_len(tok), tok.len() as int),
            tok == s@.subrange(start as int, end as int),
            negative == (tok.len() > 0 && tok[0] == 45),
            forall|k: int| b <= k < i ==> is_digit(#[trigger] s@[k]) || is_point(s@[k]),
            acc as nat == digits_value(s@.subrange(b as int, i as int)),
            points as nat == count_points(s@.subrange(b as int, i as int)),
            ndigits as nat == count_digits(s@.subrange(b as int, i as int)),
            scale as nat == scale_of(s@.subrange(b as int, i as int)),
            points <= i - b,
            ndigits <= i - b,
            scale <= i - b,
        decreases end - i,
    {
        let c = s[i];
        let ghost p = s@.subrange(b as int, i + 1);
        assert(p.drop_last() =~= s@.subrange(b as int, i as int));
        if c == 46 {
            scale = 0;
            points = points + 1;
        } else if 48 <= c && c <= 57 {
            let d = (c - 48) as u64;
            if acc > (u64::MAX - d) / 10 {
                proof {
                    assert(acc as nat * 10 + d as nat > u64::MAX) by (nonlinear_arith)
                        requires
                            acc > (u64::MAX - d) / 10,
                            d <= 9,
                    ;
                    assert(p =~= body.subrange(0, i + 1 - b));
                    lemma_digits_value_prefix(body, i + 1 - b);
                    assert(digits_value(body) > u64::MAX);
                    assert(weight_of(tok).is_none());
                }
                return None;
            }
            acc = acc * 10 + d;
            ndigits = ndigits + 1;
            if points > 0 {
                scale = scale + 1;
            }
        } else {
            assert(!(is_digit(body[i - b]) || is_point(body[i - b])));
            assert(!is_decimal_body(body));
            assert(weight_of(tok).is_none());
            return None;
        }
        i = i + 1;
    }
    assert(s@.subrange(b as int, i as int) =~= body);
    if points > 1 || ndigits == 0 {
        return None;
    }
    Some(Weight { negative, digits: acc, scale })
}

/// The decimal digits of `n`, most significant first, without leading zeros.
pub open spec fn nat_text(n: nat) -> Seq<u8>
    decreases n,
{
    if n < 10 {
        seq![(n + 48) as u8]
    } else {
        nat_text(n / 10).push((n % 10 + 48) as u8)
    }
}

pub open spec fn zeros(k: nat) -> Seq<u8> {
    Seq::new(k, |i: int| 48u8)
}

/// The text of a weight without its sign: its digits with the decimal
/// point `scale` places from the right, and a leading `0` where no digit
/// would stand before the point.
pub open spec fn unsigned_text(digits: u64, scale: usize) -> Seq<u8> {
    let t = nat_text(digits as nat);
    let k = scale as int;
    if k == 0 {
        t
    } else if t.len() > k {
        t.subrange(0, t.len() - k) + seq![46u8] + t.subrange(t.len() - k, t.len() as int)
    } else {
        seq![48u8, 46u8] + zeros((k - t.len()) as nat) + t
    }
}

/// The text of a weight, with a `-` in front when it is negative.
pub open spec fn weight_text(w: Weight) -> Seq<u8> {
    if w.negative {
        seq![45u8] + unsigned_text(w.digits, w.scale)
    } else {
        unsigned_text(w.digits, w.scale)
    }
}

/// Appends the decimal digits of `n`.
pub fn push_nat(out: &mut Vec<u8>, n: u64)
    ensures
        final(out)@ == old(out)@ + nat_text(n as nat),
    decreases n,
{
    if n >= 10 {
        push_nat(out, n / 10);
    }
    out.push((n % 10 + 48) as u8);
    proof {
        if n >= 10 {
            assert(final(out)@ =~= old(out)@ + nat_text(n as nat));
        } else {
            assert(final(out)@ =~= old(out)@ + nat_text(n as nat));
        }
    }
}

fn push_range(out: &mut Vec<u8>, t: &Vec<u8>, a: usize, b: usize)
    requires
        a <= b <= t@.len(),
    ensures
        final(out)@ == old(out)@ + t@.subrange(a as int, b as int),
{
    let mut i: usize = a;
    while i < b
        invariant
            a <= i <= b <= t@.len(),
            out@ == old(out)@ + t@.subrange(a as int, i as int),
        decreases b - i,
    {
        out.push(t[i]);
        assert(out@ =~= old(out)@ + t@.subrange(a as int, i + 1));
        i = i + 1;
    }
}

fn push_zeros(out: &mut Vec<u8>, k: usize)
    ensures
        final(out)@ == old(out)@ + zeros(k as nat),
{
    let mut i: usize = 0;
    while i < k
        invariant
            i <= k,
            out@ == old(out)@ + zeros(i as nat),
        decreases k - i,
    {
        out.push(48);
        assert(out@ =~= old(out)@ + zeros((i + 1) as nat));
        i = i + 1;
    }
}

/// Appends the text of a weight.
pub fn push_weight(out: &mut Vec<u8>, w: Weight)
    ensures
        final(out)@ == old(out)@ + weight_text(w),
{
    let ghost start = out@;
    if w.negative {
        out.push(45);
    }
    let ghost signed = out@;
    let mut t: Vec<u8> = Vec::new();
    push_nat(&mut t, w.digits);
    assert(t@ =~= nat_text(w.digits as nat));
    let len = t.len();
    if w.scale == 0 {
        push_range(out, &t, 0, len);
        assert(t@.subrange(0, len as int) =~= t@);
    } else if len > w.scale {
        push_range(out, &t, 0, len - w.scale);
        out.push(46);
        push_range(out, &t, len - w.scale, len);
    } else {
        out.push(48);
        out.push(46);
        push_zeros(out, w.scale - len);
        push_range(out, &t, 0, len);
        assert(t@.subrange(0, len as int) =~= t@);
    }
    assert(out@ =~= start + weight_text(w));
}

} // verus!
