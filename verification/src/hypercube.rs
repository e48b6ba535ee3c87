//! The boolean hypercube and sums over it.
//!
//! Points of the hypercube are enumerated in one canonical order: point `i`
//! of width `n` is the binary expansion of `i`, most significant bit
//! first. The brute-force sum and the round messages both walk the cube in
//! this order.

use crate::multivariate::poly_value;
use vstd::arithmetic::div_mod::*;
use vstd::arithmetic::power2::*;
use vstd::prelude::*;

verus! {

/// The binary expansion of `i` in `n` digits, most significant first. Bits
/// of `i` beyond the `n` lowest are left out.
pub open spec fn bits_be(i: nat, n: nat) -> Seq<int>
    decreases n,
{
    if n == 0 {
        Seq::empty()
    } else {
        bits_be(i / 2, (n - 1) as nat).push((i % 2) as int)
    }
}

/// The sum of the polynomial over all boolean assignments to the `m`
/// coordinates that follow `prefix`, as an integer.
pub open spec fn cube_sum(terms: Seq<(nat, Seq<(usize, usize)>)>, prefix: Seq<int>, m: nat) -> int
    decreases m,
{
    if m == 0 {
        poly_value(terms, prefix)
    } else {
        cube_sum(terms, prefix.push(0), (m - 1) as nat) + cube_sum(
            terms,
            prefix.push(1),
            (m - 1) as nat,
        )
    }
}

/// The sum of the polynomial over the first `count` points of the canonical
/// enumeration of the `m` coordinates that follow `prefix`.
pub open spec fn enum_sum(
    terms: Seq<(nat, Seq<(usize, usize)>)>,
    prefix: Seq<int>,
    m: nat,
    count: nat,
) -> int
    decreases count,
{
    if count == 0 {
        0
    } else {
        enum_sum(terms, prefix, m, (count - 1) as nat) + poly_value(
            terms,
            prefix + bits_be((count - 1) as nat, m),
        )
    }
}

/// The expansion has `n` digits, and its digit at position `k` is bit
/// `n - 1 - k` of `i`.
pub proof fn lemma_bits_index(i: nat, n: nat, k: int)
    requires
        0 <= k < n,
    ensures
        bits_be(i, n).len() == n,
        bits_be(i, n)[k] == (i / pow2((n - 1 - k) as nat)) % 2,
    decreases n,
{
    lemma_bits_len(i, n);
    lemma_bits_len(i / 2, (n - 1) as nat);
    if k == n - 1 {
        lemma2_to64();
        assert(i / 1 == i);
    } else {
        lemma_bits_index(i / 2, (n - 1) as nat, k);
        let e = (n - 2 - k) as nat;
        lemma_pow2_pos(e);
        lemma_div_denominator(i as int, 2, pow2(e) as int);
        lemma_pow2_unfold(e + 1);
        assert((i / 2) / pow2(e) == i / pow2(e + 1));
    }
}

/// The expansion has `n` digits.
pub proof fn lemma_bits_len(i: nat, n: nat)
    ensures
        bits_be(i, n).len() == n,
    decreases n,
{
    if n > 0 {
        lemma_bits_len(i / 2, (n - 1) as nat);
    }
}

/// Below `2^m`, expansions in `m + 1` digits start with 0 and go on as the
/// expansion in `m` digits; from `2^m` to below `2^(m+1)` they start with 1
/// and go on as the expansion of the rest.
pub proof fn lemma_bits_leading(i: nat, m: nat)
    requires
        i < pow2(m),
    ensures
        bits_be(i, m + 1) == seq![0int] + bits_be(i, m),
        bits_be(pow2(m) + i, m + 1) == seq![1int] + bits_be(i, m),
    decreases m,
{
    lemma2_to64();
    if m == 0 {
        assert(bits_be(0, 0) =~= Seq::<int>::empty());
        assert(bits_be(0, 1) =~= seq![0int] + bits_be(0, 0));
        assert(bits_be(1, 1) =~= seq![1int] + bits_be(0, 0));
    } else {
        let h = pow2((m - 1) as nat);
        lemma_pow2_unfold(m);
        assert(pow2(m) == 2 * h);
        lemma_bits_leading(i / 2, (m - 1) as nat);
        assert((2 * h + i) / 2 == h + i / 2);
        assert((2 * h + i) % 2 == i % 2);
        let low = bits_be(i / 2, (m - 1) as nat);
        assert(bits_be(i, m) == low.push((i % 2) as int));
        assert(bits_be(i, m + 1) == bits_be(i / 2, m).push((i % 2) as int));
        assert(bits_be(pow2(m) + i, m + 1) == bits_be(h + i / 2, m).push((i % 2) as int));
        assert((seq![0int] + low).push((i % 2) as int) =~= seq![0int] + low.push((i % 2) as int));
        assert((seq![1int] + low).push((i % 2) as int) =~= seq![1int] + low.push((i % 2) as int));
    }
}

/// Over the lower half of the enumeration the first of the `m + 1` free
/// coordinates is 0.
proof fn lemma_enum_lower(
    terms: Seq<(nat, Seq<(usize, usize)>)>,
    prefix: Seq<int>,
    m: nat,
    count: nat,
)
    requires
        count <= pow2(m),
    ensures
        enum_sum(terms, prefix, m + 1, count) == enum_sum(terms, prefix.push(0), m, count),
    decreases count,
{
    if count > 0 {
        let i = (count - 1) as nat;
        lemma_enum_lower(terms, prefix, m, i);
        lemma_bits_leading(i, m);
        assert(prefix + bits_be(i, m + 1) =~= prefix.push(0) + bits_be(i, m));
    }
}

/// Over the upper half of the enumeration the first of the `m + 1` free
/// coordinates is 1.
proof fn lemma_enum_upper(
    terms: Seq<(nat, Seq<(usize, usize)>)>,
    prefix: Seq<int>,
    m: nat,
    count: nat,
)
    requires
        count <= pow2(m),
    ensures
        enum_sum(terms, prefix, m + 1, pow2(m) + count) == enum_sum(
            terms,
            prefix,
            m + 1,
            pow2(m),
        ) + enum_sum(terms, prefix.push(1), m, count),
    decreases count,
{
    if count > 0 {
        let i = (count - 1) as nat;
        lemma_enum_upper(terms, prefix, m, i);
        lemma_bits_leading(i, m);
        assert(prefix + bits_be(pow2(m) + i, m + 1) =~= prefix.push(1) + bits_be(i, m));
        assert((pow2(m) + count - 1) as nat == pow2(m) + i);
    }
}

/// Walking all `2^m` points of the canonical enumeration sums the
/// polynomial over the whole cube.
pub proof fn lemma_enum_is_cube_sum(
    terms: Seq<(nat, Seq<(usize, usize)>)>,
    prefix: Seq<int>,
    m: nat,
)
    ensures
        enum_sum(terms, prefix, m, pow2(m)) == cube_sum(terms, prefix, m),
    decreases m,
{
    lemma2_to64();
    if m == 0 {
        assert(prefix + bits_be(0, 0) =~= prefix);
        assert(enum_sum(terms, prefix, 0, 1) == enum_sum(terms, prefix, 0, 0) + poly_value(
            terms,
            prefix + bits_be(0, 0),
        ));
    } else {
        let h = (m - 1) as nat;
        lemma_pow2_unfold(m);
        lemma_enum_lower(terms, prefix, h, pow2(h));
        lemma_enum_upper(terms, prefix, h, pow2(h));
        lemma_enum_is_cube_sum(terms, prefix.push(0), h);
        lemma_enum_is_cube_sum(terms, prefix.push(1), h);
    }
}

/// `2^n` as a machine integer.
pub fn pow2_u64(n: usize) -> (r: u64)
    requires
        n < 64,
    ensures
        r == pow2(n as nat),
{
    let mut r: u64 = 1;
    let mut k: usize = 0;
    proof {
        lemma2_to64();
    }
    while k < n
        invariant
            k <= n,
            n < 64,
            r == pow2(k as nat),
        decreases n - k,
    {
        proof {
            lemma_pow2_unfold((k + 1) as nat);
            if k + 1 < 63 {
                lemma_pow2_strictly_increases((k + 1) as nat, 63);
            }
            lemma2_to64_rest();
        }
        r = r * 2;
        k = k + 1;
    }
    r
}

} // verus!
