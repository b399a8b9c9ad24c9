//! Signal-to-noise ratio of images.
use vstd::prelude::*;

use crate::exact;
use crate::num::{count, deterministic, lit, zero, Geometric, Num};
use crate::projection;
use crate::scalar;
use crate::sum_slope;

verus! {

pub open spec fn spec_psnr_from_mse<S: Geometric>(mse: Num<S>) -> Num<S> {
    (lit("1.0") / mse.larger(lit("1e-10"))).ln() * (lit("10.0") / lit("2.302585092994046"))
}

/// The ratio in decibels of a mean squared error of images in the unit interval.
/// Identical images get a hundred decibels in place of infinity.
#[verifier::when_used_as_spec(spec_psnr_from_mse)]
pub fn psnr_from_mse<S: Geometric>(mse: Num<S>) -> (out: Num<S>)
    ensures
        deterministic::<S>() ==> out == psnr_from_mse(mse),
{
    (lit("1.0") / mse.larger(lit("1e-10"))).ln() * (lit("10.0") / lit("2.302585092994046"))
}

/// The sum of the squared differences of the first `n` values.
pub open spec fn squares<S: Geometric>(a: Seq<S>, b: Seq<S>, n: int) -> Num<S>
    decreases n,
{
    if n <= 0 {
        zero()
    } else {
        let d = Num { value: a[n - 1] } - Num { value: b[n - 1] };
        squares(a, b, n - 1) + d * d
    }
}

/// The ratio in decibels between two images of as many values.
pub open spec fn ratio_of<S: Geometric>(a: Seq<S>, b: Seq<S>) -> Num<S> {
    psnr_from_mse(squares(a, b, a.len() as int) / count(a.len() as u32))
}

/// The ratio in decibels between two images of as many values.
pub fn psnr<S: Geometric>(a: &Vec<S>, b: &Vec<S>) -> (r: Num<S>)
    requires
        a.len() == b.len(),
        a.len() <= u32::MAX,
    ensures
        deterministic::<S>() ==> r == ratio_of(a@, b@),
{
    let mut sum: Num<S> = zero();
    let mut i: usize = 0;
    while i < a.len()
        invariant
            i <= a.len() == b.len(),
            deterministic::<S>() ==> sum == squares(a@, b@, i as int),
        decreases a.len() - i,
    {
        let d: Num<S> = Num { value: a[i] } - Num { value: b[i] };
        sum = sum + d * d;
        i = i + 1;
    }
    psnr_from_mse(sum / count(a.len() as u32))
}

/// The squared differences of two images.
pub open spec fn squared_gaps<S: Geometric>(
    value: spec_fn(S) -> real,
    a: Seq<S>,
    b: Seq<S>,
) -> spec_fn(int) -> real {
    |i: int| (value(a[i]) - value(b[i])) * (value(a[i]) - value(b[i]))
}

/// The errors of two images are the squares of their differences, added up.
pub proof fn errors_are_squared_differences<S: Geometric>(
    value: spec_fn(S) -> real,
    a: Seq<S>,
    b: Seq<S>,
    n: int,
)
    requires
        exact::is_exact(value),
    ensures
        exact::of(value, squares(a, b, n)) == sum_slope::rsum(squared_gaps(value, a, b), n),
    decreases n,
{
    if n > 0 {
        errors_are_squared_differences(value, a, b, n - 1);
    }
}

/// The same number added to every value of both images leaves the errors as
/// they are, and so does exchanging the images.
pub proof fn errors_compare_alone<S: Geometric>(
    value: spec_fn(S) -> real,
    a: Seq<S>,
    b: Seq<S>,
    c: Seq<S>,
    d: Seq<S>,
    more: real,
    n: int,
)
    requires
        exact::is_exact(value),
        forall|i: int| 0 <= i < n ==> value(#[trigger] c[i]) == value(a[i]) + more,
        forall|i: int| 0 <= i < n ==> value(#[trigger] d[i]) == value(b[i]) + more,
    ensures
        exact::of(value, squares(c, d, n)) == exact::of(value, squares(a, b, n)),
        exact::of(value, squares(b, a, n)) == exact::of(value, squares(a, b, n)),
    decreases n,
{
    if n > 0 {
        errors_compare_alone(value, a, b, c, d, more, n - 1);
        let (x, y) = (value(a[n - 1]), value(b[n - 1]));
        assert(value(c[n - 1]) == x + more && value(d[n - 1]) == y + more);
        assert((x + more) - (y + more) == x - y);
        let u = x - y;
        exact::lemma_opposite(u, -u);
        exact::lemma_in_front(u, u, u);
        assert(y - x == -u);
    }
}

/// The literals of the ratio are the numbers that they denote.
pub open spec fn reads_ratio<S: Geometric>(value: spec_fn(S) -> real) -> bool {
    &&& exact::reads(value, "10.0", 10, 1)
    &&& exact::reads(value, "1e-10", 1, 10_000_000_000)
    &&& exact::reads(value, "2.302585092994046", 2_302_585_092_994_046, 1_000_000_000_000_000)
}

/// The error that a ratio is taken of: the mean of the squared differences, and
/// no less than a ten-billionth.
pub open spec fn error_of<S: Geometric>(value: spec_fn(S) -> real, a: Seq<S>, b: Seq<S>) -> real {
    let mean = sum_slope::rsum(squared_gaps(value, a, b), a.len() as int) / (a.len() as real);
    let least = (1 as real) / (10_000_000_000 as real);
    if mean < least {
        least
    } else {
        mean
    }
}

/// A tenth of the decibels, times the natural logarithm of ten, is the logarithm
/// of the inverse of the error: `e` to that power, times the error, is one.
pub proof fn decibels_undo_the_error<S: Geometric>(
    value: spec_fn(S) -> real,
    e: spec_fn(real) -> real,
    a: Seq<S>,
    b: Seq<S>,
)
    requires
        exact::is_exact(value),
        exact::chooses(value),
        exact::exponentiates(value, e),
        reads_ratio(value),
        0 < a.len() <= u32::MAX,
    ensures
        ({
            let tenth = exact::of(value, ratio_of(a, b)) / (10 as real);
            let ln_ten = (2_302_585_092_994_046 as real) / (1_000_000_000_000_000 as real);
            e(tenth * ln_ten) * error_of(value, a, b) == 1 as real
        }),
{
    let n = a.len() as int;
    errors_are_squared_differences(value, a, b, n);
    let total = squares(a, b, n);
    let mse = total / count(a.len() as u32);
    let floor = lit::<S>("1e-10");
    let error = exact::of(value, mse.larger(floor));
    assert(error == error_of(value, a, b));
    let one = 1 as real;
    lemma_inverse(error);
    let inverse = lit::<S>("1.0") / mse.larger(floor);
    assert(exact::of(value, inverse) == one / error);
    let l = exact::of(value, inverse.ln());
    assert(e(l) == one / error);
    let (ten, ln_ten) = (10 as real, value(scalar::literal::<S>("2.302585092994046")));
    assert(value(scalar::literal::<S>("10.0")) == ten / (1 as real));
    assert(ln_ten > 0 as real);
    let factor = exact::of(value, lit::<S>("10.0") / lit::<S>("2.302585092994046"));
    assert(factor == ten / ln_ten);
    lemma_undone(l, ln_ten);
    exact::lemma_commute(error, one / error);
}

proof fn lemma_inverse(x: real)
    by (nonlinear_arith)
    requires
        x > 0 as real,
    ensures
        (1 as real) / x > 0 as real,
        x * ((1 as real) / x) == 1 as real,
{
}

proof fn lemma_undone(l: real, t: real)
    requires
        t > 0 as real,
    ensures
        ((l * ((10 as real) / t)) / (10 as real)) * t == l,
{
    let ten = 10 as real;
    let q = ten / t;
    projection::lemma_quotient(ten, t);
    lemma_inverse(t);
    exact::lemma_regroup(ten, t, (1 as real) / t);
    assert((l * q) / ten == l * (q / ten)) by {
        exact::lemma_regroup(l, q, (1 as real) / ten);
    }
    exact::lemma_regroup(l, q / ten, t);
    assert((q / ten) * t == 1 as real) by {
        let i = (1 as real) / t;
        assert(q == ten * i);
        assert(q / ten == i);
        exact::lemma_commute(i, t);
    }
    assert(l * (1 as real) == l);
}

} // verus!
