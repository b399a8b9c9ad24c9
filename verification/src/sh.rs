//! Layout of spherical-harmonic coefficients: three values per coefficient,
//! packed without padding, one row of coefficients per splat.

use vstd::prelude::*;

verus! {

/// Coefficients per channel of a degree.
pub open spec fn coeffs_of_degree(degree: int) -> int {
    (degree + 1) * (degree + 1)
}

/// Number of coefficients per channel for a degree.
pub fn num_sh_coeffs(degree: u32) -> (n: u32)
    requires
        degree <= 65534,
    ensures
        n == coeffs_of_degree(degree as int),
{
    proof {
        assert((degree + 1) * (degree + 1) <= 65535 * 65535 && 0 <= (degree + 1) * (degree + 1))
            by (nonlinear_arith)
            requires
                0 <= degree <= 65534,
        ;
    }
    (degree + 1) * (degree + 1)
}

/// Number of coefficients per channel for a degree.
pub fn sh_coeffs_for_degree(degree: u32) -> (n: u32)
    requires
        degree <= 65534,
    ensures
        n == coeffs_of_degree(degree as int),
{
    num_sh_coeffs(degree)
}

/// A count of coefficients per channel that a supported degree has.
pub open spec fn is_coeff_count(n: int) -> bool {
    n == 1 || n == 4 || n == 9 || n == 16 || n == 25
}

/// The degree with a given number of coefficients per channel.
pub fn sh_degree_from_coeffs(coeffs_per_channel: u32) -> (degree: u32)
    requires
        is_coeff_count(coeffs_per_channel as int),
    ensures
        coeffs_of_degree(degree as int) == coeffs_per_channel,
        degree <= 4,
{
    proof {
        assert(coeffs_of_degree(0) == 1 && coeffs_of_degree(1) == 4 && coeffs_of_degree(2) == 9
            && coeffs_of_degree(3) == 16 && coeffs_of_degree(4) == 25) by (nonlinear_arith);
    }
    if coeffs_per_channel == 1 {
        0
    } else if coeffs_per_channel == 4 {
        1
    } else if coeffs_per_channel == 9 {
        2
    } else if coeffs_per_channel == 16 {
        3
    } else {
        4
    }
}

/// A degree is determined by its number of coefficients.
pub proof fn degree_is_determined_by_coeffs(a: int, b: int)
    requires
        0 <= a,
        0 <= b,
        coeffs_of_degree(a) == coeffs_of_degree(b),
    ensures
        a == b,
{
    assert(a == b) by (nonlinear_arith)
        requires
            0 <= a,
            0 <= b,
            (a + 1) * (a + 1) == (b + 1) * (b + 1),
    ;
}

/// The color channel of an element of a flattened row.
pub open spec fn channel_of<T>(index: int, r: T, g: T, b: T) -> T {
    if index % 3 == 0 {
        r
    } else if index % 3 == 1 {
        g
    } else {
        b
    }
}

/// Selects the color component of an element of a flattened row.
pub fn sh_color_component<T: Copy>(index: u32, r: T, g: T, b: T) -> (value: T)
    ensures
        value == channel_of(index as int, r, g, b),
{
    let channel: u32 = index % 3;
    if channel == 0 {
        r
    } else if channel == 1 {
        g
    } else {
        b
    }
}

/// Reads the three values of one coefficient.
pub fn read_coeff<T: Copy>(coeffs: &Vec<T>, base: usize) -> (c: (T, T, T))
    requires
        base + 3 <= coeffs.len(),
    ensures
        c.0 == coeffs[base as int],
        c.1 == coeffs[base + 1],
        c.2 == coeffs[base + 2],
{
    (coeffs[base], coeffs[base + 1], coeffs[base + 2])
}

/// Writes the three values of one coefficient.
pub fn write_coeff<T: Copy>(v: &mut Vec<T>, base: usize, val: (T, T, T))
    requires
        base + 3 <= old(v).len(),
    ensures
        final(v).len() == old(v).len(),
        final(v)@ == old(v)@.update(base as int, val.0).update(base + 1, val.1).update(
            base + 2,
            val.2,
        ),
{
    v.set(base, val.0);
    v.set(base + 1, val.1);
    v.set(base + 2, val.2);
}

/// The band after those up to a degree adds an odd number of coefficients, two
/// more than the band before it.
pub proof fn bands_add_coefficients(degree: int)
    requires
        0 <= degree,
    ensures
        coeffs_of_degree(0) == 1,
        coeffs_of_degree(degree + 1) - coeffs_of_degree(degree) == 2 * (degree + 1) + 1,
{
    assert((degree + 1 + 1) * (degree + 1 + 1) - (degree + 1) * (degree + 1) == 2 * (degree + 1)
        + 1) by (nonlinear_arith);
}

/// The numbers of coefficients are those of the degrees up to four.
pub proof fn coefficient_counts_are_of_degrees(n: int)
    ensures
        is_coeff_count(n) <==> exists|degree: int|
            0 <= degree <= 4 && n == #[trigger] coeffs_of_degree(degree),
{
    bands_add_coefficients(0);
    bands_add_coefficients(1);
    bands_add_coefficients(2);
    bands_add_coefficients(3);
    if is_coeff_count(n) {
        let degree: int = if n == 1 {
            0
        } else if n == 4 {
            1
        } else if n == 9 {
            2
        } else if n == 16 {
            3
        } else {
            4
        };
        assert(n == coeffs_of_degree(degree));
    }
}

} // verus!
