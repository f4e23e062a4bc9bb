//! How a byte stream is cut into chunks, one for each part image.
//!
//! A stream of `total` bytes cut into `parts` chunks has chunks of
//! `ceil(total / parts)` bytes, but for the last, which has what is left.

use vstd::arithmetic::div_mod::lemma_fundamental_div_mod;
use vstd::prelude::*;

verus! {

/// The least `q` with `q * b >= a`, for `b > 0`.
pub open spec fn ceil_div(a: int, b: int) -> int {
    if a % b == 0 {
        a / b
    } else {
        a / b + 1
    }
}

/// The size of every chunk but the last: `ceil(total / parts)`.
pub open spec fn chunk_size(total: int, parts: int) -> int {
    ceil_div(total, parts)
}

/// What is left for the last chunk after `parts - 1` full ones. It is
/// negative where the full chunks alone would overrun the stream.
pub open spec fn last_chunk_size(total: int, parts: int) -> int {
    total - (parts - 1) * chunk_size(total, parts)
}

/// The sizes of the `parts` chunks, in order.
pub open spec fn chunk_sizes(total: int, parts: int) -> Seq<int> {
    Seq::new(
        parts as nat,
        |i: int|
            if i < parts - 1 {
                chunk_size(total, parts)
            } else {
                last_chunk_size(total, parts)
            },
    )
}

/// The sum of the numbers of `s`.
pub open spec fn sum(s: Seq<int>) -> int
    decreases s.len(),
{
    if s.len() == 0 {
        0
    } else {
        sum(s.drop_last()) + s.last()
    }
}

/// The number of chunks of `size` bytes that are not empty when a stream of
/// `total` bytes is cut: `ceil(total / size)`.
pub open spec fn chunk_count(total: int, size: int) -> int {
    ceil_div(total, size)
}

/// `ceil_div(a, b)` is the least multiple count of `b` that reaches `a`.
pub proof fn lemma_ceil_div(a: int, b: int)
    requires
        0 <= a,
        0 < b,
    ensures
        0 <= ceil_div(a, b),
        a <= ceil_div(a, b) * b,
        a > 0 ==> (ceil_div(a, b) - 1) * b < a,
        a == 0 <==> ceil_div(a, b) == 0,
        forall|q: int| a <= #[trigger] (q * b) ==> ceil_div(a, b) <= q,
{
    let q0 = a / b;
    let r = a % b;
    lemma_fundamental_div_mod(a, b);
    assert(a == b * q0 + r);
    assert(0 <= r < b);
    assert(0 <= q0) by (nonlinear_arith)
        requires
            a == b * q0 + r,
            0 <= a,
            0 < b,
            0 <= r < b,
    ;
    let c = ceil_div(a, b);
    assert(c * b == if r == 0 {
        b * q0
    } else {
        b * q0 + b
    }) by (nonlinear_arith)
        requires
            c == if r == 0 {
                q0
            } else {
                q0 + 1
            },
    ;
    assert((c - 1) * b == c * b - b) by (nonlinear_arith);
    assert(c == 0 ==> c * b == 0) by (nonlinear_arith);
    assert(a == 0 ==> q0 == 0) by (nonlinear_arith)
        requires
            a == b * q0 + r,
            0 <= q0,
            0 < b,
            0 <= r,
    ;
    assert forall|q: int| a <= #[trigger] (q * b) implies c <= q by {
        if q < c {
            assert(q * b <= (c - 1) * b) by (nonlinear_arith)
                requires
                    q <= c - 1,
                    0 < b,
            ;
            if a > 0 {
                assert(false);
            } else {
                assert(c == 0);
                assert(q * b < 0) by (nonlinear_arith)
                    requires
                        q < 0,
                        0 < b,
                ;
            }
        }
    }
}

/// The chunk sizes are exact: where the full chunks leave something for the
/// last one, the sizes add up to the length of the stream, every chunk but
/// the last has `ceil(total / parts)` bytes, and the last has at least one
/// byte and no more than the others.
pub proof fn lemma_chunk_sizes_exact(total: int, parts: int)
    requires
        0 <= total,
        1 <= parts,
        (parts - 1) * chunk_size(total, parts) < total,
    ensures
        chunk_sizes(total, parts).len() == parts,
        sum(chunk_sizes(total, parts)) == total,
        forall|i: int|
            0 <= i < parts - 1 ==> #[trigger] chunk_sizes(total, parts)[i] == chunk_size(
                total,
                parts,
            ),
        0 < chunk_sizes(total, parts)[parts - 1] <= chunk_size(total, parts),
{
    let c = chunk_size(total, parts);
    let s = chunk_sizes(total, parts);
    lemma_ceil_div(total, parts);
    assert((parts - 1) * c + c == parts * c) by (nonlinear_arith);
    assert(c * parts == parts * c) by (nonlinear_arith);
    lemma_sum_constant(s.drop_last(), c);
    assert(s.drop_last().len() == parts - 1);
}

/// A sequence that holds `c` everywhere sums to its length times `c`.
pub proof fn lemma_sum_constant(s: Seq<int>, c: int)
    requires
        forall|i: int| 0 <= i < s.len() ==> s[i] == c,
    ensures
        sum(s) == s.len() * c,
    decreases s.len(),
{
    if s.len() > 0 {
        lemma_sum_constant(s.drop_last(), c);
        assert((s.len() - 1) * c + c == s.len() * c) by (nonlinear_arith);
    }
}

/// Cutting into chunks of `ceil(total / parts)` bytes and counting the chunks
/// that are not empty gives a number of parts from which the same chunk size
/// is computed again, and the last of those chunks is not empty.
pub proof fn lemma_chunk_count(total: int, parts: int)
    requires
        0 < total,
        1 <= parts,
    ensures
        ({
            let c = chunk_size(total, parts);
            let k = chunk_count(total, c);
            &&& 1 <= c
            &&& 1 <= k <= parts
            &&& chunk_size(total, k) == c
            &&& (k - 1) * c < total <= k * c
        }),
{
    let c = chunk_size(total, parts);
    lemma_ceil_div(total, parts);
    assert(1 <= c);
    let k = chunk_count(total, c);
    lemma_ceil_div(total, c);
    assert(1 <= k);
    assert(total <= parts * c) by (nonlinear_arith)
        requires
            total <= c * parts,
    ;
    assert(k <= parts);
    let c2 = chunk_size(total, k);
    lemma_ceil_div(total, k);
    assert(total <= c * k) by (nonlinear_arith)
        requires
            total <= k * c,
    ;
    assert(c2 <= c);
    if c2 < c {
        assert(c2 * k <= (c - 1) * parts) by (nonlinear_arith)
            requires
                0 <= c2 <= c - 1,
                1 <= k <= parts,
        ;
        assert(false);
    }
}

/// `ceil(a / b)`.
pub fn ceil_div_u64(a: u64, b: u64) -> (q: u64)
    requires
        b > 0,
    ensures
        q == ceil_div(a as int, b as int),
{
    if a % b == 0 {
        a / b
    } else {
        proof {
            lemma_ceil_div(a as int, b as int);
            assert(a / b <= a) by (nonlinear_arith)
                requires
                    b > 0,
                    a >= 0,
            ;
            assert((a / b) as int * b <= a) by {
                lemma_fundamental_div_mod(a as int, b as int);
                assert(b * (a / b) == (a / b) * b) by (nonlinear_arith);
            }
            if a / b == u64::MAX {
                assert(u64::MAX * b >= u64::MAX) by (nonlinear_arith)
                    requires
                        b >= 1,
                ;
                assert(a % b == 0);
            }
        }
        a / b + 1
    }
}

} // verus!
