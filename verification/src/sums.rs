//! Range sums of `u32` sequences and their reduction to 32-bit words.

use vstd::prelude::*;

verus! {

/// Sum of `s[lo..hi]` as a mathematical integer.
pub open spec fn sum_range(s: Seq<u32>, lo: int, hi: int) -> int
    decreases hi - lo,
{
    if hi <= lo {
        0
    } else {
        sum_range(s, lo, hi - 1) + s[hi - 1]
    }
}

/// The 32-bit word that a wrapping accumulator holds for the value `x`.
pub open spec fn wrap32(x: int) -> u32 {
    (x % 0x1_0000_0000) as u32
}

pub proof fn lemma_wrap_add(a: int, b: int)
    ensures
        wrap32(wrap32(a) + wrap32(b)) == wrap32(a + b),
        wrap32(wrap32(a) + b) == wrap32(a + b),
        wrap32(a + wrap32(b)) == wrap32(a + b),
{
    vstd::arithmetic::div_mod::lemma_add_mod_noop(a, b, 0x1_0000_0000);
    vstd::arithmetic::div_mod::lemma_add_mod_noop_right(a, b, 0x1_0000_0000);
    vstd::arithmetic::div_mod::lemma_add_mod_noop_right(b, a, 0x1_0000_0000);
}

pub proof fn lemma_wrap_sub(a: int, b: int)
    ensures
        wrap32(wrap32(a) - wrap32(b)) == wrap32(a - b),
        wrap32(wrap32(a) - b) == wrap32(a - b),
{
    vstd::arithmetic::div_mod::lemma_sub_mod_noop(a, b, 0x1_0000_0000);
    vstd::arithmetic::div_mod::lemma_sub_mod_noop(wrap32(a) as int, b, 0x1_0000_0000);
    assert(wrap32(a) as int % 0x1_0000_0000 == a % 0x1_0000_0000);
}

pub proof fn lemma_wrap_small(x: int)
    requires
        0 <= x <= u32::MAX,
    ensures
        wrap32(x) == x,
{
}

/// `u32::wrapping_add` keeps the wrapped value of the exact sum.
pub proof fn lemma_wrapping_add(x: u32, y: u32)
    ensures
        x.wrapping_add(y) == wrap32(x + y),
{
}

/// `u32::wrapping_sub` keeps the wrapped value of the exact difference.
pub proof fn lemma_wrapping_sub(x: u32, y: u32)
    ensures
        x.wrapping_sub(y) == wrap32(x - y),
{
}

pub proof fn lemma_sum_split(s: Seq<u32>, lo: int, mid: int, hi: int)
    requires
        lo <= mid <= hi,
    ensures
        sum_range(s, lo, hi) == sum_range(s, lo, mid) + sum_range(s, mid, hi),
    decreases hi - mid,
{
    if mid < hi {
        lemma_sum_split(s, lo, mid, hi - 1);
    }
}

pub proof fn lemma_sum_eq(s: Seq<u32>, t: Seq<u32>, lo: int, hi: int, shift: int)
    requires
        forall|i: int| lo <= i < hi ==> #[trigger] s[i] == t[i + shift],
    ensures
        sum_range(s, lo, hi) == sum_range(t, lo + shift, hi + shift),
    decreases hi - lo,
{
    if lo < hi {
        lemma_sum_eq(s, t, lo, hi - 1, shift);
        assert(s[hi - 1] == t[hi - 1 + shift]);
    }
}

pub proof fn lemma_sum_nonneg(s: Seq<u32>, lo: int, hi: int)
    ensures
        sum_range(s, lo, hi) >= 0,
    decreases hi - lo,
{
    if lo < hi {
        lemma_sum_nonneg(s, lo, hi - 1);
    }
}

/// A longer range of the same start sums to at least as much.
pub proof fn lemma_sum_monotone(s: Seq<u32>, lo: int, mid: int, hi: int)
    requires
        lo <= mid <= hi,
    ensures
        sum_range(s, lo, mid) <= sum_range(s, lo, hi),
{
    lemma_sum_split(s, lo, mid, hi);
    lemma_sum_nonneg(s, mid, hi);
}

pub proof fn lemma_sum_zero(s: Seq<u32>, lo: int, hi: int)
    requires
        forall|i: int| lo <= i < hi ==> s[i] == 0,
    ensures
        sum_range(s, lo, hi) == 0,
    decreases hi - lo,
{
    if lo < hi {
        lemma_sum_zero(s, lo, hi - 1);
    }
}

/// When every `t[v]` is the wrapped total of the `k` elements of `s` starting
/// at `k * v`, a prefix of `t` sums to the matching prefix of `s`.
pub proof fn lemma_sum_of_groups(t: Seq<u32>, s: Seq<u32>, k: int, u: int)
    requires
        0 <= u,
        0 <= k,
        forall|v: int|
            0 <= v < u ==> #[trigger] t[v] == wrap32(sum_range(s, k * v, k * v + k)),
    ensures
        wrap32(sum_range(t, 0, u)) == wrap32(sum_range(s, 0, k * u)),
    decreases u,
{
    if u == 0 {
        assert(k * u == 0) by (nonlinear_arith)
            requires
                u == 0,
        ;
    } else {
        lemma_sum_of_groups(t, s, k, u - 1);
        assert(k * u == k * (u - 1) + k && 0 <= k * (u - 1)) by (nonlinear_arith)
            requires
                u >= 1,
                k >= 0,
        ;
        lemma_sum_split(s, 0, k * (u - 1), k * u);
        assert(t[u - 1] == wrap32(sum_range(s, k * (u - 1), k * (u - 1) + k)));
        let a = sum_range(t, 0, u - 1);
        let b = sum_range(s, 0, k * (u - 1));
        let c = sum_range(s, k * (u - 1), k * u);
        lemma_wrap_add(a, t[u - 1] as int);
        lemma_wrap_add(b, c);
        lemma_wrap_add(wrap32(a) as int, c);
        lemma_wrap_add(a, c);
    }
}

} // verus!
