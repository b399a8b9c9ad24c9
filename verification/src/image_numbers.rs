//! What the image loss is, in plain numbers: the colors that are compared, the
//! weights of the blur, the similarity, and the loss of a pixel.
use vstd::prelude::*;

use crate::exact;
use crate::image_loss;
use crate::image_loss::{ImageLossConfig, Rgb, Scene, Stats};
use crate::loss;
use crate::loss_sums;
use crate::num::Geometric;
use crate::projection;
use crate::round_trip;
use crate::scalar;
use crate::stencil;
use crate::sum_slope;

verus! {

/// The literals of the image loss are the numbers that they denote.
pub open spec fn reads_loss<S: Geometric>(value: spec_fn(S) -> real) -> bool {
    &&& exact::reads(value, "0.01", 1, 100)
    &&& exact::reads(value, "0.03", 3, 100)
    &&& exact::reads(value, "255.0", 255, 1)
    &&& exact::reads(value, "1.5", 3, 2)
    &&& exact::reads(value, "5.0", 5, 1)
}

/// The stabilizers of the similarity are one and nine ten-thousandths.
pub proof fn stabilizers_are_small<S: Geometric>(value: spec_fn(S) -> real)
    requires
        exact::is_exact(value),
        reads_loss(value),
    ensures
        value(scalar::c1()) == (1 as real) / (10_000 as real),
        value(scalar::c2()) == (9 as real) / (10_000 as real),
{
    reveal(scalar::c1);
    reveal(scalar::c2);
    let (a, b) = (value(scalar::literal::<S>("0.01")), value(scalar::literal::<S>("0.03")));
    lemma_hundredths(a, b);
}

proof fn lemma_hundredths(a: real, b: real)
    by (nonlinear_arith)
    requires
        a == (1 as real) / (100 as real),
        b == (3 as real) / (100 as real),
    ensures
        a * a == (1 as real) / (10_000 as real),
        b * b == (9 as real) / (10_000 as real),
{
}

/// The similarity of blurred moments: of the prediction, its square, the ground
/// truth, its square, and their product.
pub open spec fn similarity(m0: real, m1: real, m2: real, m3: real, m4: real) -> real {
    let two = 2 as real;
    let (c1, c2) = ((1 as real) / (10_000 as real), (9 as real) / (10_000 as real));
    let above = |x: real|
        if x < 0 as real {
            0 as real
        } else {
            x
        };
    let luminance = two * (m0 * m2) + c1;
    let structure = two * (m4 - m0 * m2) + c2;
    let brightness = m0 * m0 + m2 * m2 + c1;
    let contrast = above(m1 - m0 * m0) + above(m3 - m2 * m2) + c2;
    exact::held_real(
        (luminance * structure) / (brightness * contrast),
        -(1 as real),
        1 as real,
    )
}

/// The similarity that the loss uses is that of its moments: the luminance and
/// the structure over the brightness and the contrast, between minus one and
/// one.
pub proof fn similarity_is_of_the_moments<S: Geometric>(value: spec_fn(S) -> real, s: Stats<S>)
    requires
        exact::is_exact(value),
        exact::chooses(value),
        reads_loss(value),
    ensures
        value(image_loss::ssim(image_loss::terms_of(s))) == similarity(
            value(s.m0),
            value(s.m1),
            value(s.m2),
            value(s.m3),
            value(s.m4),
        ),
{
    stabilizers_are_small(value);
    let t = image_loss::terms_of(s);
    let (m0, m2) = (value(s.m0), value(s.m2));
    let two = 2 as real;
    exact::lemma_regroup(two, m0, m2);
    lemma_square(m0);
    lemma_square(m2);
    lemma_positive(value(t.a), value(t.b));
}

proof fn lemma_square(x: real)
    by (nonlinear_arith)
    ensures
        x * x >= 0 as real,
{
}

proof fn lemma_positive(x: real, y: real)
    by (nonlinear_arith)
    requires
        x > 0 as real,
        y > 0 as real,
    ensures
        x * y > 0 as real,
{
}

/// A byte of the ground truth is a fraction of 255.
pub proof fn bytes_are_fractions<S: Geometric>(value: spec_fn(S) -> real, byte: u32)
    requires
        exact::is_exact(value),
        exact::chooses(value),
        reads_loss(value),
    ensures
        value(scalar::from_byte::<S>(byte)) == ((byte as int) as real) / (255 as real),
{
    reveal(scalar::from_byte);
    let n = (byte as int) as real;
    projection::lemma_quotient(n, 255 as real);
    assert(value(scalar::literal::<S>("255.0")) == (255 as real) / (1 as real));
}

/// The four bytes of a pixel make it up, the first the lowest.
pub proof fn bytes_make_up_the_pixel(pixel: u32)
    ensures
        pixel == image_loss::byte_of(pixel, 0) + 0x100 * image_loss::byte_of(pixel, 1) + 0x1_0000
            * image_loss::byte_of(pixel, 2) + 0x100_0000 * image_loss::byte_of(pixel, 3),
        forall|k: u32| k < 4 ==> #[trigger] image_loss::byte_of(pixel, k) < 0x100,
{
    assert((pixel >> 0u32) & 0xff == pixel % 0x100) by (bit_vector);
    assert((pixel >> 8u32) & 0xff == (pixel / 0x100) % 0x100) by (bit_vector);
    assert((pixel >> 16u32) & 0xff == (pixel / 0x1_0000) % 0x100) by (bit_vector);
    assert((pixel >> 24u32) & 0xff == pixel / 0x100_0000) by (bit_vector);
    assert forall|k: u32| k < 4 implies #[trigger] image_loss::byte_of(pixel, k) < 0x100 by {
        let shift = (k * 8) as u32;
        assert((pixel >> shift) & 0xff < 0x100) by (bit_vector);
    }
}

/// The component of a color that belongs to a channel, as a number.
pub open spec fn component<S: Geometric>(value: spec_fn(S) -> real, color: Rgb<S>, c: int) -> real {
    if c == 0 {
        value(color.r)
    } else if c == 1 {
        value(color.g)
    } else {
        value(color.b)
    }
}

/// What a prediction is compared with, as a number: a color in front of as much
/// of the background as the alpha leaves, or the color alone.
pub open spec fn in_front<S: Geometric>(
    value: spec_fn(S) -> real,
    bg: Option<Rgb<S>>,
    c: int,
    color: real,
    alpha: real,
) -> real {
    match bg {
        None => color,
        Some(bg) => color + ((1 as real) - alpha) * component(value, bg, c),
    }
}

/// The byte of the ground truth at a pixel, as a fraction, and zero outside of
/// the image.
pub open spec fn fraction_at<S>(sc: Scene<S>, k: int, y: int, x: int) -> real {
    if 0 <= y < sc.h && 0 <= x < sc.w {
        ((image_loss::byte_of(sc.gt[y * sc.w + x], k as u32) as int) as real) / (255 as real)
    } else {
        0 as real
    }
}

/// What a channel of a pixel is compared with.
pub open spec fn truth_at<S: Geometric>(
    value: spec_fn(S) -> real,
    sc: Scene<S>,
    c: int,
    y: int,
    x: int,
) -> real {
    in_front(
        value,
        sc.cfg.composite_bg,
        c,
        fraction_at(sc, c, y, x),
        fraction_at(sc, 3, y, x),
    )
}

/// The ground truth is its bytes as fractions, over the background where there
/// is one: an opaque pixel hides it, and a clear one adds all of it.
pub proof fn truth_is_composited<S: Geometric>(
    value: spec_fn(S) -> real,
    sc: Scene<S>,
    c: int,
    y: int,
    x: int,
)
    requires
        exact::is_exact(value),
        exact::chooses(value),
        reads_loss(value),
    ensures
        value(image_loss::gt_at(sc, c, y, x)) == truth_at(value, sc, c, y, x),
        value(image_loss::alpha_at(sc, y, x)) == fraction_at(sc, 3, y, x),
{
    if image_loss::inside(sc.h, sc.w, y, x) {
        bytes_are_fractions(value, image_loss::byte_of(sc.gt[y * sc.w + x], c as u32));
        bytes_are_fractions(value, image_loss::byte_of(sc.gt[y * sc.w + x], 3));
    }
}

/// The bell curve of the blur, as a number: the exponential of minus half the
/// squared distance from the centre, in deviations of one and a half.
pub open spec fn bell_curve(e: spec_fn(real) -> real) -> spec_fn(int) -> real {
    |i: int|
        {
            let d = (i as real) - (5 as real);
            e(-(d * d) / ((9 as real) / (2 as real)))
        }
}

proof fn lemma_bell<S: Geometric>(
    value: spec_fn(S) -> real,
    e: spec_fn(real) -> real,
    i: int,
)
    requires
        exact::is_exact(value),
        exact::chooses(value),
        exact::exponentiates(value, e),
        reads_loss(value),
        0 <= i < 11,
    ensures
        value(stencil::bell(i)) == bell_curve(e)(i),
{
    let x = scalar::difference(scalar::from_count::<S>(i as u32), scalar::literal("5.0"));
    let d = (i as real) - (5 as real);
    assert(value(scalar::literal::<S>("5.0")) == (5 as real) / (1 as real));
    assert(value(x) == d);
    exact::lemma_opposite(d, d);
    let sigma = value(scalar::literal::<S>("1.5"));
    assert(sigma == (3 as real) / (2 as real));
    assert((2 as real) * sigma == 3 as real);
    assert((3 as real) * sigma == (9 as real) / (2 as real));
}

proof fn lemma_bell_sum<S: Geometric>(
    value: spec_fn(S) -> real,
    e: spec_fn(real) -> real,
    n: int,
)
    requires
        exact::is_exact(value),
        exact::chooses(value),
        exact::exponentiates(value, e),
        reads_loss(value),
        0 <= n <= 11,
    ensures
        value(stencil::bell_sum(n)) == sum_slope::rsum(bell_curve(e), n),
        n > 0 ==> sum_slope::rsum(bell_curve(e), n) > 0 as real,
        sum_slope::rsum(bell_curve(e), n) >= 0 as real,
    decreases n,
{
    if n > 0 {
        lemma_bell_sum(value, e, n - 1);
        lemma_bell(value, e, n - 1);
        let d = ((n - 1) as real) - (5 as real);
        assert(e(-(d * d) / ((9 as real) / (2 as real))) > 0 as real);
    }
}

/// The weights of the blur are in the proportions of the bell curve, the same on
/// both sides of the centre, and add up to one.
pub proof fn blur_weights_are_a_bell<S: Geometric>(
    value: spec_fn(S) -> real,
    e: spec_fn(real) -> real,
)
    requires
        exact::is_exact(value),
        exact::chooses(value),
        exact::exponentiates(value, e),
        reads_loss(value),
    ensures
        forall|i: int|
            0 <= i < 11 ==> value(#[trigger] stencil::tap(i)) * sum_slope::rsum(bell_curve(e), 11)
                == bell_curve(e)(i),
        forall|i: int| 0 <= i < 11 ==> value(#[trigger] stencil::tap(i)) > 0 as real,
        forall|i: int|
            0 <= i < 11 ==> value(#[trigger] stencil::tap(i)) == value(stencil::tap(10 - i)),
        sum_slope::rsum(|i: int| value(stencil::tap(i)), 11) == 1 as real,
{
    let b = bell_curve(e);
    let total = sum_slope::rsum(b, 11);
    lemma_bell_sum(value, e, 11);
    let share = (1 as real) / total;
    let t = |i: int| if 0 <= i < 11 {
        value(stencil::tap(i))
    } else {
        share * b(i)
    };
    assert forall|i: int| 0 <= i < 11 implies value(#[trigger] stencil::tap(i)) == share * b(i)
        && share * b(i) == b(i) / total by {
        reveal(stencil::tap);
        lemma_bell(value, e, i);
        projection::lemma_quotient(b(i), total);
        exact::lemma_commute(b(i), share);
    }
    assert forall|i: int| 0 <= i < 11 implies value(#[trigger] stencil::tap(i)) * total == b(
        i,
    ) && value(stencil::tap(i)) > 0 as real by {
        round_trip::lemma_restore(b(i), total);
        let d = (i as real) - (5 as real);
        assert(e(-(d * d) / ((9 as real) / (2 as real))) > 0 as real);
        if value(stencil::tap(i)) <= 0 as real {
            lemma_sign(value(stencil::tap(i)), total);
        }
    }
    assert forall|i: int| 0 <= i < 11 implies value(#[trigger] stencil::tap(i)) == value(
        stencil::tap(10 - i),
    ) by {
        let d = (i as real) - (5 as real);
        let mirrored = ((10 - i) as real) - (5 as real);
        assert(mirrored == -d);
        exact::lemma_opposite(d, -d);
        exact::lemma_in_front(d, d, d);
        assert(mirrored * mirrored == d * d);
        assert(b(i) == b(10 - i));
        assert(value(stencil::tap(10 - i)) == share * b(10 - i));
    }
    let w = |i: int| value(stencil::tap(i));
    assert forall|i: int| 0 <= i < 11 implies #[trigger] w(i) == t(i) by {}
    sum_slope::lemma_rsum_eq(w, t, 11);
    assert forall|i: int| 0 <= i < 11 implies #[trigger] t(i) == share * b(i) by {
        assert(value(stencil::tap(i)) == share * b(i));
    }
    sum_slope::lemma_rsum_scaled(b, share, t, 11);
    round_trip::lemma_restore(1 as real, total);
}

proof fn lemma_sign(a: real, b: real)
    by (nonlinear_arith)
    requires
        a <= 0 as real,
        b > 0 as real,
    ensures
        a * b <= 0 as real,
{
}

/// The eleven places around `at`, each times its weight.
pub open spec fn weighed_around<S: Geometric>(
    value: spec_fn(S) -> real,
    f: spec_fn(int) -> real,
    at: int,
) -> real {
    sum_slope::rsum(|j: int| value(stencil::tap(j)) * f(at + j - 5), 11)
}

/// A pair of places at one distance from the centre.
proof fn lemma_pair(a: real, b: real, s: real, t: real)
    requires
        s == t,
    ensures
        (a + b) * s == s * a + t * b,
{
    exact::lemma_factor(a, b, s);
    exact::lemma_commute(a, s);
    exact::lemma_commute(b, s);
}

/// The blur of a line is the sum of the places around, each times its weight.
pub proof fn blur_weighs_its_surroundings<S: Geometric>(
    value: spec_fn(S) -> real,
    e: spec_fn(real) -> real,
    f: spec_fn(int) -> S,
    at: int,
)
    requires
        exact::is_exact(value),
        exact::chooses(value),
        exact::exponentiates(value, e),
        reads_loss(value),
    ensures
        value(stencil::blur(f, at)) == weighed_around(value, |i: int| value(f(i)), at),
{
    blur_weights_are_a_bell(value, e);
    let t = |i: int| value(stencil::tap(i));
    let g = |i: int| value(f(i));
    let h = |j: int| value(stencil::tap(j)) * g(at + j - 5);
    assert(t(0) == t(10) && t(1) == t(9) && t(2) == t(8) && t(3) == t(7) && t(4) == t(6)) by {
        assert(value(stencil::tap(0)) == value(stencil::tap(10 - 0)));
        assert(value(stencil::tap(1)) == value(stencil::tap(10 - 1)));
        assert(value(stencil::tap(2)) == value(stencil::tap(10 - 2)));
        assert(value(stencil::tap(3)) == value(stencil::tap(10 - 3)));
        assert(value(stencil::tap(4)) == value(stencil::tap(10 - 4)));
    }
    lemma_pair(g(at - 5), g(at + 5), t(0), t(10));
    lemma_pair(g(at - 4), g(at + 4), t(1), t(9));
    lemma_pair(g(at - 3), g(at + 3), t(2), t(8));
    lemma_pair(g(at - 2), g(at + 2), t(3), t(7));
    lemma_pair(g(at - 1), g(at + 1), t(4), t(6));
    exact::lemma_commute(g(at), t(5));
    reveal_with_fuel(sum_slope::rsum, 12);
    reveal_with_fuel(stencil::blur_pairs, 6);
    assert(h(0) == t(0) * g(at - 5) && h(1) == t(1) * g(at - 4) && h(2) == t(2) * g(at - 3));
    assert(h(3) == t(3) * g(at - 2) && h(4) == t(4) * g(at - 1) && h(5) == t(5) * g(at));
    assert(h(6) == t(6) * g(at + 1) && h(7) == t(7) * g(at + 2) && h(8) == t(8) * g(at + 3));
    assert(h(9) == t(9) * g(at + 4) && h(10) == t(10) * g(at + 5));
    assert(sum_slope::rsum(h, 11) == h(0) + h(1) + h(2) + h(3) + h(4) + h(5) + h(6) + h(7) + h(8)
        + h(9) + h(10));
}

/// The products of a prediction and of what it is compared with, as numbers.
pub open spec fn moment_number(k: int, p: real, g: real) -> real {
    if k == 0 {
        p
    } else if k == 1 {
        p * p
    } else if k == 2 {
        g
    } else if k == 3 {
        g * g
    } else {
        p * g
    }
}

/// A moment of a channel at a pixel.
pub open spec fn moment_at<S: Geometric>(
    value: spec_fn(S) -> real,
    sc: Scene<S>,
    c: int,
    k: int,
    y: int,
    x: int,
) -> real {
    moment_number(k, value(image_loss::pred_at(sc, c, y, x)), truth_at(value, sc, c, y, x))
}

/// A moment, weighed over the eleven rows and columns around a pixel.
pub open spec fn blurred_moment<S: Geometric>(
    value: spec_fn(S) -> real,
    sc: Scene<S>,
    c: int,
    k: int,
    y: int,
    x: int,
) -> real {
    weighed_around(
        value,
        |row: int| weighed_around(value, |col: int| moment_at(value, sc, c, k, row, col), x),
        y,
    )
}

proof fn lemma_weighed_eq<S: Geometric>(
    value: spec_fn(S) -> real,
    f: spec_fn(int) -> real,
    g: spec_fn(int) -> real,
    at: int,
)
    requires
        forall|i: int| #[trigger] f(i) == g(i),
    ensures
        weighed_around(value, f, at) == weighed_around(value, g, at),
{
    let p = |j: int| value(stencil::tap(j)) * f(at + j - 5);
    let q = |j: int| value(stencil::tap(j)) * g(at + j - 5);
    assert forall|j: int| 0 <= j < 11 implies #[trigger] p(j) == q(j) by {
        assert(f(at + j - 5) == g(at + j - 5));
    }
    sum_slope::lemma_rsum_eq(p, q, 11);
}

/// A statistic at a pixel is its moment, weighed over the rows and columns
/// around.
pub proof fn statistics_are_blurred_moments<S: Geometric>(
    value: spec_fn(S) -> real,
    e: spec_fn(real) -> real,
    sc: Scene<S>,
    c: int,
    k: int,
    y: int,
    x: int,
)
    requires
        exact::is_exact(value),
        exact::chooses(value),
        exact::exponentiates(value, e),
        reads_loss(value),
    ensures
        value(image_loss::stat(sc, c, k, y, x)) == blurred_moment(value, sc, c, k, y, x),
{
    let rows = |row: int|
        weighed_around(value, |col: int| moment_at(value, sc, c, k, row, col), x);
    let stats = |row: int| value(image_loss::column_stats(sc, c, k, x)(row));
    assert forall|row: int| #[trigger] stats(row) == rows(row) by {
        let line = image_loss::row_moments(sc, c, k, row);
        blur_weighs_its_surroundings(value, e, line, x);
        let (f, g) = (
            |i: int| value(line(i)),
            |col: int| moment_at(value, sc, c, k, row, col),
        );
        assert forall|col: int| #[trigger] f(col) == g(col) by {
            truth_is_composited(value, sc, c, row, col);
        }
        lemma_weighed_eq(value, f, g, x);
    }
    blur_weighs_its_surroundings(value, e, image_loss::column_stats(sc, c, k, x), y);
    lemma_weighed_eq(value, stats, rows, y);
}

/// The loss of a channel at a pixel, as a number.
pub open spec fn loss_number<S: Geometric>(
    value: spec_fn(S) -> real,
    sc: Scene<S>,
    l1_only: bool,
    c: int,
    y: int,
    x: int,
) -> real {
    let p = value(image_loss::pred_at(sc, c, y, x));
    let alpha = fraction_at(sc, 3, y, x);
    let away = |g: real| round_trip::size(p - g);
    let g = truth_at(value, sc, c, y, x);
    let m = |k: int| blurred_moment(value, sc, c, k, y, x);
    let whole = if c == 3 {
        away(alpha)
    } else if l1_only {
        value(sc.cfg.l1_weight) * away(g)
    } else {
        value(sc.cfg.l1_weight) * away(g) + value(sc.cfg.ssim_weight) * similarity(
            m(0),
            m(1),
            m(2),
            m(3),
            m(4),
        )
    };
    if sc.cfg.mask {
        whole * alpha
    } else {
        whole
    }
}

/// The loss of a pixel is the weighed distance from the ground truth and the
/// weighed similarity of the surroundings; the fourth channel's is the distance
/// from the alpha. A mask multiplies either by the alpha.
pub proof fn loss_is_distance_and_similarity<S: Geometric>(
    value: spec_fn(S) -> real,
    e: spec_fn(real) -> real,
    sc: Scene<S>,
    l1_only: bool,
    c: int,
    y: int,
    x: int,
)
    requires
        exact::is_exact(value),
        exact::chooses(value),
        exact::exponentiates(value, e),
        reads_loss(value),
    ensures
        value(image_loss::loss_at(sc, l1_only, c, y, x)) == loss_number(
            value,
            sc,
            l1_only,
            c,
            y,
            x,
        ),
{
    truth_is_composited(value, sc, c, y, x);
    statistics_are_blurred_moments(value, e, sc, c, 0, y, x);
    statistics_are_blurred_moments(value, e, sc, c, 1, y, x);
    statistics_are_blurred_moments(value, e, sc, c, 2, y, x);
    statistics_are_blurred_moments(value, e, sc, c, 3, y, x);
    statistics_are_blurred_moments(value, e, sc, c, 4, y, x);
    similarity_is_of_the_moments(value, image_loss::stats_at(sc, c, y, x));
}

/// The weights of a loss make a mean of it: three channels of all pixels, each
/// times the weight of the colors, add up to one, and all pixels, each times the
/// weight of the alpha match, to the weight that it was given.
pub proof fn weights_make_a_mean<S: Geometric>(
    value: spec_fn(S) -> real,
    cfg: ImageLossConfig<S>,
    h: int,
    w: int,
)
    requires
        exact::is_exact(value),
        exact::chooses(value),
        0 < h,
        0 < w,
        h * w <= u32::MAX,
    ensures
        ({
            let weights = image_loss::weights_of(cfg, h, w);
            &&& value(weights.rgb) * ((3 * (h * w)) as real) == 1 as real
            &&& value(weights.alpha) * ((h * w) as real) == value(cfg.alpha_weight)
        }),
{
    assert(0 < h * w) by (nonlinear_arith)
        requires
            0 < h,
            0 < w,
    ;
    let n = (h * w) as real;
    assert((3 * (h * w)) as real == (3 as real) * n);
    round_trip::lemma_restore(1 as real, (3 as real) * n);
    round_trip::lemma_restore(value(cfg.alpha_weight), n);
}

/// The three colors of a packed pixel are its bytes as fractions, over the
/// background where there is one.
pub proof fn unpacked_pixels_are_composited<S: Geometric>(
    value: spec_fn(S) -> real,
    pixel: u32,
    bg: Option<Rgb<S>>,
    c: int,
)
    requires
        exact::is_exact(value),
        exact::chooses(value),
        reads_loss(value),
        0 <= c < 3,
    ensures
        ({
            let part = |k: u32|
                ((image_loss::byte_of(pixel, k) as int) as real) / (255 as real);
            value(loss::unpacked(pixel, bg, c)) == in_front(value, bg, c, part(c as u32), part(3))
        }),
{
    bytes_are_fractions(value, image_loss::byte_of(pixel, c as u32));
    bytes_are_fractions(value, image_loss::byte_of(pixel, 3));
}

/// A sum by halves is the sum.
proof fn lemma_tree_value<S: Geometric>(value: spec_fn(S) -> real, values: Seq<S>)
    requires
        exact::is_exact(value),
        loss_sums::halves(values.len()),
    ensures
        value(image_loss::tree_sum(values)) == sum_slope::rsum(
            |i: int| value(values[i]),
            values.len() as int,
        ),
    decreases values.len(),
{
    let f = |i: int| value(values[i]);
    if values.len() > 1 {
        let n = (values.len() / 2) as int;
        let half = image_loss::halved(values);
        lemma_tree_value(value, half);
        let g = |i: int| f(n + i);
        sum_slope::lemma_rsum_append(f, n, n);
        let both = |i: int| value(half[i]);
        assert forall|i: int| 0 <= i < n implies #[trigger] both(i) == f(i) + g(i) by {}
        sum_slope::lemma_rsum_add(f, g, both, n);
    } else {
        assert(sum_slope::rsum(f, 1) == sum_slope::rsum(f, 0) + f(0));
    }
}

/// A sum in order is the sum.
proof fn lemma_running_value<S: Geometric>(value: spec_fn(S) -> real, values: Seq<S>, n: int)
    requires
        exact::is_exact(value),
        0 <= n,
    ensures
        value(loss::running_sum(values, n)) == sum_slope::rsum(|i: int| value(values[i]), n),
    decreases n,
{
    if n > 0 {
        lemma_running_value(value, values, n - 1);
    }
}

/// The losses of a channel, nothing outside of the image.
spec fn padded_numbers<S: Geometric>(
    value: spec_fn(S) -> real,
    sc: Scene<S>,
    l1_only: bool,
    c: int,
) -> spec_fn(int, int) -> real {
    |y: int, x: int|
        if image_loss::inside(sc.h, sc.w, y, x) {
            loss_number(value, sc, l1_only, c, y, x)
        } else {
            0 as real
        }
}

/// What a channel adds to a loss: the sum of its pixels' losses, each times the
/// channel's weight.
pub open spec fn plane_number<S: Geometric>(
    value: spec_fn(S) -> real,
    sc: Scene<S>,
    l1_only: bool,
    c: int,
) -> real {
    let pixels = (sc.h * sc.w) as real;
    let weight = if c == 3 {
        value(sc.cfg.alpha_weight) / pixels
    } else {
        (1 as real) / ((3 as real) * pixels)
    };
    weight * sum_slope::rsum2(
        |y: int, x: int| loss_number(value, sc, l1_only, c, y, x),
        sc.h,
        sc.w,
    )
}

/// The sum of a tile's losses.
proof fn lemma_tile_value<S: Geometric>(
    value: spec_fn(S) -> real,
    e: spec_fn(real) -> real,
    sc: Scene<S>,
    l1_only: bool,
    c: int,
    t: int,
)
    requires
        exact::is_exact(value),
        exact::chooses(value),
        exact::exponentiates(value, e),
        reads_loss(value),
    ensures
        ({
            let across = image_loss::tiles_across(sc.w);
            let f = padded_numbers(value, sc, l1_only, c);
            value(image_loss::tree_sum(image_loss::tile_losses(sc, l1_only, c, t)))
                == sum_slope::rsum(
                |i: int| f((t / across) * 16 + i / 16, (t % across) * 16 + i % 16),
                256,
            )
        }),
{
    let across = image_loss::tiles_across(sc.w);
    let losses = image_loss::tile_losses(sc, l1_only, c, t);
    reveal_with_fuel(loss_sums::halves, 9);
    lemma_tree_value(value, losses);
    let f = padded_numbers(value, sc, l1_only, c);
    let (ty, tx) = ((t / across) * 16, (t % across) * 16);
    let g = |i: int| f(ty + i / 16, tx + i % 16);
    let v = |i: int| value(losses[i]);
    assert forall|i: int| 0 <= i < 256 implies #[trigger] v(i) == g(i) by {
        let (y, x) = (ty + i / 16, tx + i % 16);
        if image_loss::inside(sc.h, sc.w, y, x) {
            loss_is_distance_and_similarity(value, e, sc, l1_only, c, y, x);
        }
    }
    sum_slope::lemma_rsum_eq(v, g, 256);
    sum_slope::lemma_rsum_eq(
        g,
        |i: int| f((t / across) * 16 + i / 16, (t % across) * 16 + i % 16),
        256,
    );
}

/// One plane of the loss.
proof fn lemma_plane_value<S: Geometric>(
    value: spec_fn(S) -> real,
    e: spec_fn(real) -> real,
    sc: Scene<S>,
    l1_only: bool,
    parts: Seq<S>,
    c: int,
)
    requires
        exact::is_exact(value),
        exact::chooses(value),
        exact::exponentiates(value, e),
        reads_loss(value),
        loss::are_partial_sums(sc, l1_only, parts),
        0 < sc.h,
        0 < sc.w,
        sc.h * sc.w <= u32::MAX,
        0 <= c < image_loss::plane_count(sc.cfg, sc.cn),
    ensures
        ({
            let tiles = image_loss::tile_count(sc.h, sc.w);
            sum_slope::rsum(|t: int| value(parts[c * tiles + t]), tiles) == plane_number(
                value,
                sc,
                l1_only,
                c,
            )
        }),
{
    let tiles = image_loss::tile_count(sc.h, sc.w);
    let (across, down) = (image_loss::tiles_across(sc.w), image_loss::tiles_across(sc.h));
    vstd::arithmetic::mul::lemma_mul_is_commutative(across, down);
    let weights = image_loss::weights_of(sc.cfg, sc.h, sc.w);
    assert(0 < sc.h * sc.w) by (nonlinear_arith)
        requires
            0 < sc.h,
            0 < sc.w,
    ;
    let pixels = (sc.h * sc.w) as real;
    let weight = value(
        if c == 3 {
            weights.alpha
        } else {
            weights.rgb
        },
    );
    assert((3 as real) * pixels != 0 as real);
    assert(weight == if c == 3 {
        value(sc.cfg.alpha_weight) / pixels
    } else {
        (1 as real) / ((3 as real) * pixels)
    });
    let f = padded_numbers(value, sc, l1_only, c);
    let by_pixel = |t: int|
        sum_slope::rsum(
            |i: int| f((t / across) * 16 + i / 16, (t % across) * 16 + i % 16),
            256,
        );
    let row = |t: int| value(parts[c * tiles + t]);
    assert forall|t: int| 0 <= t < tiles implies #[trigger] row(t) == weight * by_pixel(t) by {
        assert(parts[stencil::nth_slot(c, tiles, t)] == image_loss::tile_partial(
            sc,
            l1_only,
            c,
            t,
        ));
        lemma_tile_value(value, e, sc, l1_only, c, t);
        exact::lemma_commute(by_pixel(t), weight);
    }
    sum_slope::lemma_rsum_scaled(by_pixel, weight, row, tiles);
    assert(sum_slope::plane_within(f, sc.h, sc.w));
    sum_slope::lemma_tiles(f, down, across, sc.h, sc.w);
    sum_slope::lemma_rsum_eq(
        by_pixel,
        |t: int|
            sum_slope::rsum(
                |i: int| f((t / across) * 16 + i / 16, (t % across) * 16 + i % 16),
                256,
            ),
        tiles,
    );
    sum_slope::lemma_rsum2_eq(
        f,
        |y: int, x: int| loss_number(value, sc, l1_only, c, y, x),
        sc.h,
        sc.w,
    );
}

/// The loss of an image is the mean of its pixels' losses: all planes together,
/// each channel's losses added up over the image and weighed by the channel's
/// weight. Tiles do not show in it.
pub proof fn loss_is_the_mean_over_the_image<S: Geometric>(
    value: spec_fn(S) -> real,
    e: spec_fn(real) -> real,
    sc: Scene<S>,
    l1_only: bool,
    parts: Seq<S>,
)
    requires
        exact::is_exact(value),
        exact::chooses(value),
        exact::exponentiates(value, e),
        reads_loss(value),
        loss::are_partial_sums(sc, l1_only, parts),
        0 < sc.h,
        0 < sc.w,
        sc.h * sc.w <= u32::MAX,
    ensures
        value(loss::running_sum(parts, parts.len() as int)) == sum_slope::rsum(
            |c: int| plane_number(value, sc, l1_only, c),
            image_loss::plane_count(sc.cfg, sc.cn),
        ),
{
    let tiles = image_loss::tile_count(sc.h, sc.w);
    let planes = image_loss::plane_count(sc.cfg, sc.cn);
    let f = |i: int| value(parts[i]);
    lemma_running_value(value, parts, parts.len() as int);
    assert(0 <= tiles) by (nonlinear_arith)
        requires
            tiles == image_loss::tiles_across(sc.w) * image_loss::tiles_across(sc.h),
            0 <= image_loss::tiles_across(sc.w),
            0 <= image_loss::tiles_across(sc.h),
    ;
    sum_slope::lemma_rsum_rows(f, planes, tiles);
    let lines = |c: int| sum_slope::rsum(|t: int| f(c * tiles + t), tiles);
    let numbers = |c: int| plane_number(value, sc, l1_only, c);
    assert forall|c: int| 0 <= c < planes implies #[trigger] lines(c) == numbers(c) by {
        lemma_plane_value(value, e, sc, l1_only, parts, c);
        sum_slope::lemma_rsum_eq(
            |t: int| f(c * tiles + t),
            |t: int| value(parts[c * tiles + t]),
            tiles,
        );
    }
    sum_slope::lemma_rsum_eq(lines, numbers, planes);
}

/// A similarity that is held at one or at minus one does not move with the
/// statistics that it is made of.
pub proof fn held_similarities_do_not_move<S: Geometric>(
    value: spec_fn(S) -> real,
    s: Stats<S>,
)
    requires
        exact::is_exact(value),
        exact::chooses(value),
        ({
            let t = image_loss::terms_of(s);
            let ratio = (value(t.c_top) * value(t.d_top)) / (value(t.a) * value(t.b));
            &&& value(t.a) * value(t.b) != 0 as real
            &&& ratio < -(1 as real) || ratio > 1 as real
        }),
    ensures
        ({
            let p = image_loss::partials_of(image_loss::terms_of(s));
            &&& value(p.dmu1) == 0 as real
            &&& value(p.dsigma1) == 0 as real
            &&& value(p.dsigma12) == 0 as real
        }),
{
    let t = image_loss::terms_of(s);
    projection::lemma_quotient(value(t.c_top) * value(t.d_top), value(t.a) * value(t.b));
}

/// The sign of a number is one, minus one or zero, as the number is above, below
/// or at zero.
pub proof fn signs_are_of_their_numbers<S: Geometric>(value: spec_fn(S) -> real, d: S)
    requires
        exact::is_exact(value),
        exact::chooses(value),
    ensures
        value(d) > 0 as real ==> value(image_loss::sign(d)) == 1 as real,
        value(d) < 0 as real ==> value(image_loss::sign(d)) == -(1 as real),
        value(d) == 0 as real ==> value(image_loss::sign(d)) == 0 as real,
{
}

/// The alpha is a plane of its own where a prediction has one and it is weighed.
pub proof fn weighed_alpha_is_a_plane<S: Geometric>(
    value: spec_fn(S) -> real,
    cfg: ImageLossConfig<S>,
    cn: int,
)
    requires
        exact::is_exact(value),
    ensures
        image_loss::plane_count(cfg, cn) == 4 <==> cn == 4 && value(cfg.alpha_weight) > 0 as real,
        image_loss::plane_count(cfg, cn) != 4 ==> image_loss::plane_count(cfg, cn) == 3,
{
}

} // verus!
