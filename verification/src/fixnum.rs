//! Fixed-point arithmetic base: the scale, the representable range, floor
//! division, integer square root, and exact summation of series.

use vstd::prelude::*;
use vstd::arithmetic::div_mod::*;
use vstd::arithmetic::mul::*;

verus! {

/// Raw units per 1.0: every value in this crate is an integer count of
/// millionths.
pub const SCALE: i128 = 1_000_000;

/// Largest magnitude a series element or scalar argument may have
/// (one million whole units), so that every intermediate product and
/// sum of squares in the catalogue fits in an `i128`.
pub const MAX_RAW: i128 = 1_000_000_000_000;

/// Longest series the catalogue accepts; keeps sums of squared deviations
/// inside `i128`.
pub const MAX_LEN: usize = 1_000_000_000;

/// Every element of the series lies in the representable range.
pub open spec fn in_range(s: Seq<i128>) -> bool {
    forall|i: int| 0 <= i < s.len() ==> -MAX_RAW <= #[trigger] s[i] <= MAX_RAW
}

/// Exact sum of a series.
pub open spec fn seq_sum(s: Seq<i128>) -> int
    decreases s.len(),
{
    if s.len() == 0 {
        0
    } else {
        seq_sum(s.drop_last()) + s.last()
    }
}

/// A quotient by a positive divisor keeps the bound of the dividend:
/// if `|a| <= b * m` then `|a / b| <= m`.
pub proof fn lemma_div_bound(a: int, b: int, m: int)
    requires
        0 < b,
        0 <= m,
        -(b * m) <= a <= b * m,
    ensures
        -m <= a / b <= m,
{
    lemma_div_is_ordered(-(b * m), a, b);
    lemma_div_is_ordered(a, b * m, b);
    lemma_div_multiples_vanish(m, b);
    lemma_div_multiples_vanish(-m, b);
    assert(b * -m == -(b * m)) by (nonlinear_arith);
}

/// Floor division (the division of ghost-code `int`s) for a positive divisor,
/// computed on machine integers.
pub fn div_floor(a: i128, b: i128) -> (q: i128)
    requires
        0 < b,
        i128::MIN < a,
    ensures
        q == a as int / b as int,
        a >= 0 ==> 0 <= q <= a,
        a < 0 ==> a <= q <= 0,
{
    let ghost ai: int = a as int;
    let ghost bi: int = b as int;
    if a >= 0 {
        let ua: u128 = a as u128;
        let ub: u128 = b as u128;
        let uq: u128 = ua / ub;
        let q: i128 = uq as i128;
        proof {
            lemma_fundamental_div_mod(ai, bi);
            lemma_div_pos_is_pos(ai, bi);
            lemma_div_nonincreasing(ai, bi);
        }
        q
    } else {
        let na: u128 = (-a) as u128;
        let ub: u128 = b as u128;
        let uq: u128 = (na + (ub - 1)) / ub;
        proof {
            let n: int = na as int;
            let u: int = uq as int;
            assert(n == -ai);
            assert(ub == bi);
            assert(u == (n + bi - 1) / bi);
            lemma_fundamental_div_mod(n + bi - 1, bi);
            lemma_mod_bound(n + bi - 1, bi);
            // u * b <= n + b - 1 and n + b - 1 < (u + 1) * b, hence
            // 0 <= u * b - n < b, so -u is the Euclidean quotient of a by b.
            assert(u * bi <= n + bi - 1);
            assert(n + bi - 1 < (u + 1) * bi) by {
                assert((u + 1) * bi == u * bi + bi) by (nonlinear_arith);
            }
            assert(u <= n) by (nonlinear_arith)
                requires u * bi <= n + bi - 1, bi >= 1, n >= 1, u >= 0;
            assert((-u) * bi == -(u * bi)) by (nonlinear_arith);
            lemma_fundamental_div_mod_converse(ai, bi, -u, u * bi - n);
        }
        let q: i128 = -(uq as i128);
        q
    }
}

/// `r` is the integer square root of `n`.
pub open spec fn is_isqrt(r: int, n: int) -> bool {
    0 <= r && r * r <= n && n < (r + 1) * (r + 1)
}

/// The integer square root: the unique `r >= 0` with `r^2 <= n < (r+1)^2`.
pub open spec fn spec_isqrt(n: int) -> int {
    choose|r: int| #[trigger] is_isqrt(r, n)
}

/// The integer square root is unique, so any witness equals `spec_isqrt`.
pub proof fn lemma_isqrt_is(r: int, n: int)
    requires
        is_isqrt(r, n),
    ensures
        spec_isqrt(n) == r,
{
    assert(exists|x: int| #[trigger] is_isqrt(x, n));
    let x = spec_isqrt(n);
    assert(is_isqrt(x, n));
    if x < r {
        assert((x + 1) * (x + 1) <= r * r) by (nonlinear_arith)
            requires 0 <= x, x < r;
    }
    if r < x {
        assert((r + 1) * (r + 1) <= x * x) by (nonlinear_arith)
            requires 0 <= r, r < x;
    }
}

/// Integer square root by bisection.
pub fn isqrt_i128(n: i128) -> (r: i128)
    requires
        0 <= n,
    ensures
        r == spec_isqrt(n as int),
        is_isqrt(r as int, n as int),
{
    let un: u128 = n as u128;
    let mut lo: u128 = 0;
    let mut hi: u128 = 0x1_0000_0000_0000_0000u128;
    while hi - lo > 1
        invariant
            lo < hi,
            hi <= 0x1_0000_0000_0000_0000u128,
            (lo as int) * (lo as int) <= un as int,
            un < (hi as int) * (hi as int),
            un == n,
        decreases hi - lo,
    {
        let mid: u128 = lo + (hi - lo) / 2;
        proof {
            lemma_div_pos_is_pos((hi - lo) as int, 2);
            lemma_div_decreases((hi - lo) as int, 2);
            assert(1 <= (hi - lo) / 2 < hi - lo);
            assert(mid * mid <= 0xffff_ffff_ffff_fffe_0000_0000_0000_0001u128)
                by (nonlinear_arith)
                requires mid <= 0xffff_ffff_ffff_ffffu128;
        }
        if mid * mid <= un {
            lo = mid;
        } else {
            hi = mid;
        }
    }
    let r: i128 = lo as i128;
    proof {
        assert(hi == lo + 1);
        assert(is_isqrt(r as int, n as int));
        lemma_isqrt_is(r as int, n as int);
    }
    r
}

/// Exact sum of `v[from..to]`, with its magnitude bound.
pub fn sum_range(v: &Vec<i128>, from: usize, to: usize) -> (s: i128)
    requires
        from <= to <= v@.len(),
        in_range(v@),
    ensures
        s == seq_sum(v@.subrange(from as int, to as int)),
        -((to - from) * MAX_RAW) <= s <= (to - from) * MAX_RAW,
{
    let mut s: i128 = 0;
    let mut i: usize = from;
    proof {
        assert(v@.subrange(from as int, from as int) =~= Seq::<i128>::empty());
    }
    while i < to
        invariant
            from <= i <= to <= v@.len(),
            in_range(v@),
            s == seq_sum(v@.subrange(from as int, i as int)),
            -((i - from) * MAX_RAW) <= s <= (i - from) * MAX_RAW,
        decreases to - i,
    {
        proof {
            assert(v@.subrange(from as int, i + 1).drop_last() =~= v@.subrange(
                from as int,
                i as int,
            ));
            assert(v@.subrange(from as int, i + 1).last() == v@[i as int]);
            assert((i + 1 - from) * MAX_RAW == (i - from) * MAX_RAW + MAX_RAW)
                by (nonlinear_arith);
            assert((i - from) * MAX_RAW <= (usize::MAX) * MAX_RAW) by (nonlinear_arith)
                requires 0 <= i - from <= usize::MAX as int, MAX_RAW > 0;
        }
        s = s + v[i];
        i = i + 1;
    }
    proof {
        lemma_mul_inequality((to - from) as int, usize::MAX as int, MAX_RAW as int);
    }
    s
}

/// The series is sorted ascending.
pub open spec fn sorted_asc(s: Seq<i128>) -> bool {
    forall|i: int, j: int| 0 <= i < j < s.len() ==> s[i] <= s[j]
}

/// Inserting an element at any position of a sequence inserts it into the
/// sequence's multiset.
proof fn lemma_insert_to_multiset(s: Seq<i128>, k: int, x: i128)
    requires
        0 <= k <= s.len(),
    ensures
        s.insert(k, x).to_multiset() == s.to_multiset().insert(x),
{
    broadcast use vstd::seq_lib::group_to_multiset_ensures;
    broadcast use vstd::multiset::group_multiset_axioms;

    let t = s.insert(k, x);
    t.insert_ensures(k, x);
    assert(t.remove(k) =~= s);
    assert(t[k] == x);
    assert(s.to_multiset() == t.to_multiset().remove(x));
    assert(t.contains(x));
    assert(t.to_multiset().count(x) > 0);
    assert(t.to_multiset().remove(x).insert(x) =~= t.to_multiset());
}

/// A sorted copy of the series: same elements, ascending order.
pub fn sorted_copy(v: &Vec<i128>) -> (r: Vec<i128>)
    ensures
        r@.len() == v@.len(),
        sorted_asc(r@),
        r@.to_multiset() == v@.to_multiset(),
{
    let mut r: Vec<i128> = Vec::new();
    let mut i: usize = 0;
    proof {
        assert(r@ =~= v@.subrange(0, 0));
    }
    while i < v.len()
        invariant
            i <= v@.len(),
            r@.len() == i,
            sorted_asc(r@),
            r@.to_multiset() == v@.subrange(0, i as int).to_multiset(),
        decreases v@.len() - i,
    {
        let x: i128 = v[i];
        let mut j: usize = 0;
        while j < r.len() && r[j] <= x
            invariant
                j <= r@.len(),
                forall|k: int| 0 <= k < j ==> r@[k] <= x,
            decreases r@.len() - j,
        {
            j = j + 1;
        }
        let ghost before = r@;
        r.insert(j, x);
        proof {
            before.insert_ensures(j as int, x);
            assert(sorted_asc(r@)) by {
                assert(forall|a: int, b: int|
                    0 <= a < b < r@.len() && b < j ==> r@[a] <= r@[b]);
                assert(forall|a: int| j < a < r@.len() ==> r@[a] == before[a - 1]);
                assert(forall|a: int| j < a < r@.len() ==> x <= r@[a]);
            }
            lemma_insert_to_multiset(before, j as int, x);
            broadcast use vstd::seq_lib::group_to_multiset_ensures;
            assert(v@.subrange(0, i + 1).drop_last() =~= v@.subrange(0, i as int));
            assert(v@.subrange(0, i + 1) =~= v@.subrange(0, i as int).push(x));
        }
        i = i + 1;
    }
    proof {
        assert(v@.subrange(0, i as int) =~= v@);
    }
    r
}

/// A copy of the first `k` elements of the series.
pub fn prefix_vec(v: &Vec<i128>, k: usize) -> (r: Vec<i128>)
    requires
        k <= v@.len(),
    ensures
        r@ == v@.subrange(0, k as int),
{
    let mut r: Vec<i128> = Vec::new();
    let mut i: usize = 0;
    while i < k
        invariant
            i <= k <= v@.len(),
            r@ == v@.subrange(0, i as int),
        decreases k - i,
    {
        r.push(v[i]);
        proof {
            assert(v@.subrange(0, i + 1) =~= v@.subrange(0, i as int).push(v@[i as int]));
        }
        i = i + 1;
    }
    r
}

} // verus!
