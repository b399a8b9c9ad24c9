//! Counting positions of a sequence by class, the stable rank that the counts
//! give every position, and permutations sorted by class.

use vstd::prelude::*;

verus! {

/// Number of `i` in `lo..hi` with `p(i)`.
pub open spec fn count_where(p: spec_fn(int) -> bool, lo: int, hi: int) -> int
    decreases hi - lo,
{
    if hi <= lo {
        0
    } else {
        count_where(p, lo, hi - 1) + if p(hi - 1) {
            1int
        } else {
            0int
        }
    }
}

/// Positions of class `d`.
pub open spec fn has_class(c: Seq<int>, d: int) -> spec_fn(int) -> bool {
    |i: int| c[i] == d
}

/// Positions of a class below `d`.
pub open spec fn below_class(c: Seq<int>, d: int) -> spec_fn(int) -> bool {
    |i: int| c[i] < d
}

/// Positions of class `d` in `lo..hi`.
pub open spec fn count_class(c: Seq<int>, d: int, lo: int, hi: int) -> int {
    count_where(has_class(c, d), lo, hi)
}

/// Positions of a class below `d` in the whole sequence.
pub open spec fn count_below(c: Seq<int>, d: int) -> int {
    count_where(below_class(c, d), 0, c.len() as int)
}

/// Stable rank of position `i`: the positions of lower classes, and those of
/// its own class that come before it.
pub open spec fn rank(c: Seq<int>, i: int) -> int {
    count_below(c, c[i]) + count_class(c, c[i], 0, i)
}

/// Position `i` sorts before position `j`: by class, then by position.
pub open spec fn precedes(c: Seq<int>, i: int, j: int) -> bool {
    c[i] < c[j] || (c[i] == c[j] && i < j)
}

/// `src` lists the positions of `c` in stable order of class.
pub open spec fn is_stable_order(c: Seq<int>, src: Seq<int>) -> bool {
    &&& src.len() == c.len()
    &&& forall|k: int| 0 <= k < src.len() ==> 0 <= #[trigger] src[k] < c.len()
    &&& forall|a: int, b: int|
        0 <= a < b < src.len() ==> precedes(c, #[trigger] src[a], #[trigger] src[b])
}

pub proof fn lemma_count_bounds(p: spec_fn(int) -> bool, lo: int, hi: int)
    requires
        lo <= hi,
    ensures
        0 <= count_where(p, lo, hi) <= hi - lo,
    decreases hi - lo,
{
    if lo < hi {
        lemma_count_bounds(p, lo, hi - 1);
    }
}

pub proof fn lemma_count_split(p: spec_fn(int) -> bool, lo: int, mid: int, hi: int)
    requires
        lo <= mid <= hi,
    ensures
        count_where(p, lo, hi) == count_where(p, lo, mid) + count_where(p, mid, hi),
    decreases hi - mid,
{
    if mid < hi {
        lemma_count_split(p, lo, mid, hi - 1);
    }
}

pub proof fn lemma_count_shift(
    p: spec_fn(int) -> bool,
    q: spec_fn(int) -> bool,
    lo: int,
    hi: int,
    shift: int,
)
    requires
        forall|i: int| lo <= i < hi ==> #[trigger] p(i) == q(i + shift),
    ensures
        count_where(p, lo, hi) == count_where(q, lo + shift, hi + shift),
    decreases hi - lo,
{
    if lo < hi {
        lemma_count_shift(p, q, lo, hi - 1, shift);
        assert(p(hi - 1) == q(hi - 1 + shift));
    }
}

pub proof fn lemma_count_below_step(c: Seq<int>, d: int)
    ensures
        count_below(c, d + 1) == count_below(c, d) + count_class(c, d, 0, c.len() as int),
{
    lemma_count_below_step_range(c, d, c.len() as int);
}

proof fn lemma_count_below_step_range(c: Seq<int>, d: int, hi: int)
    requires
        0 <= hi,
    ensures
        count_where(below_class(c, d + 1), 0, hi) == count_where(below_class(c, d), 0, hi)
            + count_where(has_class(c, d), 0, hi),
    decreases hi,
{
    if 0 < hi {
        lemma_count_below_step_range(c, d, hi - 1);
    }
}

pub proof fn lemma_count_below_monotone(c: Seq<int>, d: int, e: int)
    requires
        d <= e,
    ensures
        count_below(c, d) <= count_below(c, e),
    decreases e - d,
{
    if d < e {
        lemma_count_below_monotone(c, d, e - 1);
        lemma_count_below_step(c, e - 1);
        lemma_count_bounds(has_class(c, e - 1), 0, c.len() as int);
    }
}

/// Ranks stay inside the sequence.
pub proof fn lemma_rank_bounds(c: Seq<int>, i: int)
    requires
        0 <= i < c.len(),
    ensures
        0 <= rank(c, i) < c.len(),
        rank(c, i) < count_below(c, c[i] + 1),
{
    let d = c[i];
    lemma_count_bounds(below_class(c, d), 0, c.len() as int);
    lemma_count_bounds(has_class(c, d), 0, i);
    lemma_count_below_step(c, d);
    lemma_count_split(has_class(c, d), 0, i + 1, c.len() as int);
    lemma_count_bounds(has_class(c, d), i + 1, c.len() as int);
    lemma_count_bounds(below_class(c, d + 1), 0, c.len() as int);
    assert(has_class(c, d)(i));
}

/// Ranks follow the stable order.
pub proof fn lemma_rank_order(c: Seq<int>, i: int, j: int)
    requires
        0 <= i < c.len(),
        0 <= j < c.len(),
        precedes(c, i, j),
    ensures
        rank(c, i) < rank(c, j),
{
    if c[i] < c[j] {
        lemma_rank_bounds(c, i);
        lemma_count_below_monotone(c, c[i] + 1, c[j]);
        lemma_count_bounds(has_class(c, c[j]), 0, j);
    } else {
        lemma_count_split(has_class(c, c[i]), 0, i + 1, j);
        lemma_count_bounds(has_class(c, c[i]), i + 1, j);
        assert(has_class(c, c[i])(i));
    }
}

/// No two positions share a rank.
pub proof fn lemma_rank_injective(c: Seq<int>, i: int, j: int)
    requires
        0 <= i < c.len(),
        0 <= j < c.len(),
        rank(c, i) == rank(c, j),
    ensures
        i == j,
{
    if i != j {
        if precedes(c, i, j) {
            lemma_rank_order(c, i, j);
        } else {
            lemma_rank_order(c, j, i);
        }
    }
}

/// A duplicate-free sequence of `n` numbers below `n` takes every value.
pub proof fn lemma_injective_is_onto(s: Seq<int>, v: int)
    requires
        s.no_duplicates(),
        forall|k: int| 0 <= k < s.len() ==> 0 <= #[trigger] s[k] < s.len(),
        0 <= v < s.len(),
    ensures
        s.contains(v),
{
    let n = s.len() as int;
    s.unique_seq_to_set();
    vstd::set_lib::lemma_int_range(0, n);
    let range = vstd::set_lib::set_int_range(0, n);
    assert(s.to_set().subset_of(range)) by {
        assert forall|x: int| s.to_set().contains(x) implies range.contains(x) by {
            assert(s.contains(x));
        }
    }
    vstd::seq_lib::seq_to_set_is_finite(s);
    vstd::set_lib::lemma_subset_equality(s.to_set(), range);
    assert(range.contains(v));
    assert(s.to_set().contains(v));
}

/// The position that holds a given rank.
pub open spec fn position_of_rank(c: Seq<int>, k: int) -> int {
    choose|i: int| 0 <= i < c.len() && #[trigger] rank(c, i) == k
}

/// The positions by rank.
pub open spec fn rank_order(c: Seq<int>) -> Seq<int> {
    Seq::new(c.len(), |k: int| position_of_rank(c, k))
}

/// Every rank is taken, so listing the positions by rank gives the stable
/// order.
pub proof fn lemma_rank_order_is_stable(c: Seq<int>)
    ensures
        is_stable_order(c, rank_order(c)),
        forall|k: int|
            0 <= k < c.len() ==> rank(c, #[trigger] rank_order(c)[k]) == k,
{
    let n = c.len() as int;
    let ranks = Seq::new(c.len(), |i: int| rank(c, i));
    assert(ranks.no_duplicates()) by {
        assert forall|i: int, j: int|
            0 <= i < n && 0 <= j < n && i != j implies ranks[i] != ranks[j] by {
            if ranks[i] == ranks[j] {
                lemma_rank_injective(c, i, j);
            }
        }
    }
    assert forall|i: int| 0 <= i < n implies 0 <= #[trigger] ranks[i] < n by {
        lemma_rank_bounds(c, i);
    }
    let src = rank_order(c);
    assert forall|k: int| 0 <= k < n implies 0 <= #[trigger] src[k] < n && rank(c, src[k]) == k by {
        lemma_injective_is_onto(ranks, k);
        let i = choose|i: int| 0 <= i < ranks.len() && ranks[i] == k;
        assert(0 <= i < c.len() && rank(c, i) == k);
    }
    assert forall|a: int, b: int| 0 <= a < b < n implies precedes(
        c,
        #[trigger] src[a],
        #[trigger] src[b],
    ) by {
        if !precedes(c, src[a], src[b]) {
            if src[a] != src[b] {
                lemma_rank_order(c, src[b], src[a]);
            }
        }
    }
}

/// In a stable order, position `k` of the order has rank `k`.
pub proof fn lemma_stable_order_rank(c: Seq<int>, src: Seq<int>, k: int)
    requires
        is_stable_order(c, src),
        0 <= k < src.len(),
    ensures
        rank(c, src[k]) == k,
{
    lemma_stable_order_rank_low(c, src, k);
    lemma_stable_order_rank_high(c, src, k);
}

proof fn lemma_stable_order_rank_low(c: Seq<int>, src: Seq<int>, k: int)
    requires
        is_stable_order(c, src),
        0 <= k < src.len(),
    ensures
        rank(c, src[k]) >= k,
    decreases k,
{
    lemma_rank_bounds(c, src[k]);
    if k > 0 {
        lemma_stable_order_rank_low(c, src, k - 1);
        lemma_rank_order(c, src[k - 1], src[k]);
    }
}

proof fn lemma_stable_order_rank_high(c: Seq<int>, src: Seq<int>, k: int)
    requires
        is_stable_order(c, src),
        0 <= k < src.len(),
    ensures
        rank(c, src[k]) <= k,
    decreases src.len() - k,
{
    lemma_rank_bounds(c, src[k]);
    if k + 1 < src.len() {
        lemma_stable_order_rank_high(c, src, k + 1);
        lemma_rank_order(c, src[k], src[k + 1]);
    }
}

/// A sequence has one stable order.
pub proof fn stable_order_is_unique(c: Seq<int>, a: Seq<int>, b: Seq<int>)
    requires
        is_stable_order(c, a),
        is_stable_order(c, b),
    ensures
        a == b,
{
    assert forall|k: int| 0 <= k < a.len() implies a[k] == b[k] by {
        lemma_stable_order_rank(c, a, k);
        lemma_stable_order_rank(c, b, k);
        lemma_rank_injective(c, a[k], b[k]);
    }
    assert(a =~= b);
}

/// The sequence `s` read in the order `src`.
pub open spec fn reorder<A>(s: Seq<A>, src: Seq<int>) -> Seq<A> {
    Seq::new(src.len(), |k: int| s[src[k]])
}

/// Sorting by a low class and then by a high class sorts by both.
pub proof fn lemma_stable_orders_compose(
    low: Seq<int>,
    high: Seq<int>,
    both: Seq<int>,
    first: Seq<int>,
    second: Seq<int>,
)
    requires
        low.len() == high.len(),
        both.len() == high.len(),
        is_stable_order(low, first),
        is_stable_order(reorder(high, first), second),
        forall|i: int, j: int|
            0 <= i < low.len() && 0 <= j < low.len() && high[i] < high[j] ==> #[trigger] both[i]
                < #[trigger] both[j],
        forall|i: int, j: int|
            0 <= i < low.len() && 0 <= j < low.len() && high[i] == high[j] && low[i] < low[j]
                ==> #[trigger] both[i] < #[trigger] both[j],
        forall|i: int, j: int|
            0 <= i < low.len() && 0 <= j < low.len() && high[i] == high[j] && low[i] == low[j]
                ==> #[trigger] both[i] == #[trigger] both[j],
    ensures
        is_stable_order(both, reorder(first, second)),
{
    let src = reorder(first, second);
    let mid = reorder(high, first);
    assert forall|k: int| 0 <= k < src.len() implies 0 <= #[trigger] src[k] < both.len() by {
        assert(0 <= second[k] < first.len());
        assert(0 <= first[second[k]] < low.len());
    }
    assert forall|a: int, b: int| 0 <= a < b < src.len() implies precedes(
        both,
        #[trigger] src[a],
        #[trigger] src[b],
    ) by {
        let x = second[a];
        let y = second[b];
        assert(precedes(mid, x, y));
        assert(0 <= src[a] < both.len() && 0 <= src[b] < both.len());
        assert(mid[x] == high[first[x]] && mid[y] == high[first[y]]);
        if mid[x] == mid[y] {
            assert(x < y);
            assert(precedes(low, first[x], first[y]));
        }
    }
}

/// A stable order repeats no position.
pub proof fn lemma_stable_order_no_duplicates(c: Seq<int>, src: Seq<int>)
    requires
        is_stable_order(c, src),
    ensures
        src.no_duplicates(),
{
    assert forall|a: int, b: int|
        0 <= a < src.len() && 0 <= b < src.len() && a != b implies src[a] != src[b] by {
        if a < b {
            assert(precedes(c, src[a], src[b]));
        } else {
            assert(precedes(c, src[b], src[a]));
        }
    }
}

proof fn lemma_count_is_set_size(p: spec_fn(int) -> bool, n: int)
    requires
        0 <= n,
    ensures
        Set::new(|v: int| 0 <= v < n && p(v)).finite(),
        Set::new(|v: int| 0 <= v < n && p(v)).len() == count_where(p, 0, n),
    decreases n,
{
    let s = Set::new(|v: int| 0 <= v < n && p(v));
    if n == 0 {
        assert(s =~= Set::empty());
    } else {
        let t = Set::new(|v: int| 0 <= v < n - 1 && p(v));
        lemma_count_is_set_size(p, n - 1);
        if p(n - 1) {
            assert(s =~= t.insert(n - 1));
        } else {
            assert(s =~= t);
        }
    }
}

/// Reordering by a permutation keeps the size of every class.
pub proof fn lemma_count_class_reorder(c: Seq<int>, src: Seq<int>, d: int)
    requires
        src.len() == c.len(),
        src.no_duplicates(),
        forall|k: int| 0 <= k < src.len() ==> 0 <= #[trigger] src[k] < src.len(),
    ensures
        count_class(reorder(c, src), d, 0, c.len() as int) == count_class(
            c,
            d,
            0,
            c.len() as int,
        ),
{
    let n = c.len() as int;
    let p = has_class(reorder(c, src), d);
    let q = has_class(c, d);
    lemma_count_is_set_size(p, n);
    lemma_count_is_set_size(q, n);
    let x = Set::new(|v: int| 0 <= v < n && p(v));
    let y = Set::new(|v: int| 0 <= v < n && q(v));
    let f = |k: int| src[k];
    assert(vstd::relations::injective_on(f, x));
    assert(x.map(f) =~= y) by {
        assert forall|v: int| y.contains(v) implies x.map(f).contains(v) by {
            lemma_injective_is_onto(src, v);
            let k = choose|k: int| 0 <= k < src.len() && src[k] == v;
            assert(x.contains(k) && f(k) == v);
        }
    }
    vstd::set_lib::lemma_map_size(x, y, f);
}

/// The classes of a sequence of words.
pub open spec fn as_classes(keys: Seq<u64>) -> Seq<int> {
    Seq::new(keys.len(), |i: int| keys[i] as int)
}

/// The positions of a list as integers.
pub open spec fn as_positions(order: Seq<usize>) -> Seq<int> {
    Seq::new(order.len(), |i: int| order[i] as int)
}

/// `order` lists the positions `lo..hi` in strict order of class and position.
spec fn is_range_order(c: Seq<int>, lo: int, hi: int, order: Seq<usize>) -> bool {
    &&& order.len() == hi - lo
    &&& forall|k: int| 0 <= k < order.len() ==> lo <= #[trigger] order[k] < hi
    &&& forall|a: int, b: int|
        0 <= a < b < order.len() ==> precedes(
            c,
            #[trigger] order[a] as int,
            #[trigger] order[b] as int,
        )
}

/// Merges the ordered positions of two neighbouring ranges.
fn merge_orders(
    keys: &Vec<u64>,
    lo: usize,
    mid: usize,
    hi: usize,
    left: &Vec<usize>,
    right: &Vec<usize>,
) -> (out: Vec<usize>)
    requires
        lo <= mid <= hi <= keys.len(),
        is_range_order(as_classes(keys@), lo as int, mid as int, left@),
        is_range_order(as_classes(keys@), mid as int, hi as int, right@),
    ensures
        is_range_order(as_classes(keys@), lo as int, hi as int, out@),
{
    let ghost c = as_classes(keys@);
    let mut out: Vec<usize> = Vec::new();
    let mut i: usize = 0;
    let mut j: usize = 0;
    while i < left.len() || j < right.len()
        invariant
            lo <= mid <= hi <= keys.len(),
            c == as_classes(keys@),
            is_range_order(c, lo as int, mid as int, left@),
            is_range_order(c, mid as int, hi as int, right@),
            i <= left.len(),
            j <= right.len(),
            out.len() == i + j,
            forall|k: int| 0 <= k < out.len() ==> lo <= #[trigger] out[k] < hi,
            forall|a: int, b: int|
                0 <= a < b < out.len() ==> precedes(
                    c,
                    #[trigger] out[a] as int,
                    #[trigger] out[b] as int,
                ),
            forall|a: int, b: int|
                0 <= a < out.len() && i <= b < left.len() ==> precedes(
                    c,
                    #[trigger] out[a] as int,
                    #[trigger] left[b] as int,
                ),
            forall|a: int, b: int|
                0 <= a < out.len() && j <= b < right.len() ==> precedes(
                    c,
                    #[trigger] out[a] as int,
                    #[trigger] right[b] as int,
                ),
        decreases left.len() - i + right.len() - j,
    {
        let take_left: bool = if i == left.len() {
            false
        } else if j == right.len() {
            true
        } else {
            keys[left[i]] <= keys[right[j]]
        };
        if take_left {
            out.push(left[i]);
            i = i + 1;
        } else {
            out.push(right[j]);
            j = j + 1;
        }
    }
    out
}

fn order_range(keys: &Vec<u64>, lo: usize, hi: usize) -> (out: Vec<usize>)
    requires
        lo <= hi <= keys.len(),
    ensures
        is_range_order(as_classes(keys@), lo as int, hi as int, out@),
    decreases hi - lo,
{
    if hi - lo == 0 {
        Vec::new()
    } else if hi - lo == 1 {
        let mut out: Vec<usize> = Vec::new();
        out.push(lo);
        out
    } else {
        let mid: usize = lo + (hi - lo) / 2;
        let left: Vec<usize> = order_range(keys, lo, mid);
        let right: Vec<usize> = order_range(keys, mid, hi);
        merge_orders(keys, lo, mid, hi, &left, &right)
    }
}

/// The positions of `keys` in ascending order of key, equal keys in order of
/// position.
pub fn stable_order(keys: &Vec<u64>) -> (order: Vec<usize>)
    ensures
        as_positions(order@) == rank_order(as_classes(keys@)),
        forall|k: int| 0 <= k < order.len() ==> #[trigger] order[k] < keys.len(),
        order.len() == keys.len(),
{
    let order: Vec<usize> = order_range(keys, 0, keys.len());
    proof {
        let c = as_classes(keys@);
        lemma_rank_order_is_stable(c);
        stable_order_is_unique(c, as_positions(order@), rank_order(c));
    }
    order
}

/// The index of an element past the first `base` ones.
pub open spec fn shifted(base: int, e: int) -> int {
    base + e
}

/// The index of an element of a row of a table.
pub open spec fn cell_index(row: int, width: int, e: int) -> int {
    row * width + e
}

} // verus!
