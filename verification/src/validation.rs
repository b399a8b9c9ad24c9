//! Validation readbacks: whether they run, and what a scan of read-back values
//! finds.

use crate::counting;
use crate::float_bits;
use crate::text;
use vstd::prelude::*;
use vstd::string::StringExecFns;

verus! {

/// Whether validation was switched, and how.
#[derive(Clone, Copy, Debug, PartialEq, Eq, Structural)]
pub enum ValidationState {
    Unset,
    On,
    Off,
}

impl ValidationState {
    /// The state after validation was switched to `on`.
    pub open spec fn switched(on: bool) -> ValidationState {
        if on {
            ValidationState::On
        } else {
            ValidationState::Off
        }
    }

    /// Whether validation runs in this state, given what it defaults to.
    pub open spec fn runs(self, default_on: bool) -> bool {
        match self {
            ValidationState::On => true,
            ValidationState::Off => false,
            ValidationState::Unset => default_on,
        }
    }
}

/// Turns validation readbacks on or off.
pub fn set_enabled(state: &mut ValidationState, on: bool)
    ensures
        *final(state) == ValidationState::switched(on),
{
    *state = if on {
        ValidationState::On
    } else {
        ValidationState::Off
    };
}

/// Whether validation readbacks run. The first question settles an unset state
/// to its default: on where validation is compiled in, except in benchmarks.
pub fn enabled(state: &mut ValidationState, compiled_in: bool, bench_run: bool) -> (r: bool)
    ensures
        r == old(state).runs(compiled_in && !bench_run),
        *final(state) == ValidationState::switched(r),
{
    match *state {
        ValidationState::On => true,
        ValidationState::Off => false,
        ValidationState::Unset => {
            let default_on: bool = compiled_in && !bench_run;
            set_enabled(state, default_on);
            default_on
        },
    }
}

/// Once asked, the answer stays, whatever the default has become.
pub proof fn answer_is_settled(state: ValidationState, first: bool, later: bool)
    ensures
        ValidationState::switched(state.runs(first)).runs(later) == state.runs(first),
{
}

/// Whether the process arguments ask for benchmarks.
pub fn is_bench_run(args: &Vec<String>) -> (r: bool)
    ensures
        r == exists|i: int| 0 <= i < args.len() && (#[trigger] args[i])@ == "--bench"@,
{
    let mut i: usize = 0;
    while i < args.len()
        invariant
            i <= args.len(),
            forall|k: int| 0 <= k < i ==> (#[trigger] args[k])@ != "--bench"@,
        decreases args.len() - i,
    {
        if text::same_text(args[i].as_str(), "--bench") {
            assert(args[i as int]@ == "--bench"@);
            return true;
        }
        i = i + 1;
    }
    false
}

/// What a scan of values finds.
#[derive(Clone, Copy, Debug, PartialEq, Eq, Structural)]
pub struct ValueScan {
    pub total: usize,
    pub nan_count: usize,
    pub inf_count: usize,
    pub below_min_count: usize,
    pub above_max_count: usize,
    pub first_nan: Option<usize>,
    pub first_inf: Option<usize>,
}

pub open spec fn nan_at(values: Seq<u32>) -> spec_fn(int) -> bool {
    |i: int| float_bits::is_nan(values[i])
}

pub open spec fn inf_at(values: Seq<u32>) -> spec_fn(int) -> bool {
    |i: int| float_bits::is_infinite(values[i])
}

/// Finite values under the lower bound.
pub open spec fn below_at(values: Seq<u32>, min: Option<u32>) -> spec_fn(int) -> bool {
    |i: int|
        float_bits::is_finite(values[i]) && min is Some && float_bits::is_less(values[i], min->0)
}

/// Finite values over the upper bound.
pub open spec fn above_at(values: Seq<u32>, max: Option<u32>) -> spec_fn(int) -> bool {
    |i: int|
        float_bits::is_finite(values[i]) && max is Some && float_bits::is_less(max->0, values[i])
}

/// `first` is the first position below `hi` with `p`.
pub open spec fn is_first(p: spec_fn(int) -> bool, hi: int, first: Option<usize>) -> bool {
    match first {
        Some(k) => k < hi && p(k as int) && forall|i: int| 0 <= i < k ==> !#[trigger] p(i),
        None => forall|i: int| 0 <= i < hi ==> !#[trigger] p(i),
    }
}

/// What a scan of the first `hi` values finds.
pub open spec fn is_scan(
    values: Seq<u32>,
    min: Option<u32>,
    max: Option<u32>,
    hi: int,
    s: ValueScan,
) -> bool {
    &&& s.nan_count == counting::count_where(nan_at(values), 0, hi)
    &&& s.inf_count == counting::count_where(inf_at(values), 0, hi)
    &&& s.below_min_count == counting::count_where(below_at(values, min), 0, hi)
    &&& s.above_max_count == counting::count_where(above_at(values, max), 0, hi)
    &&& is_first(nan_at(values), hi, s.first_nan)
    &&& is_first(inf_at(values), hi, s.first_inf)
}

/// Scans values, given as bit patterns, for values that are not numbers,
/// infinities, and finite values out of range.
pub fn scan_values(values: &Vec<u32>, min_val: Option<u32>, max_val: Option<u32>) -> (s: ValueScan)
    ensures
        s.total == values.len(),
        is_scan(values@, min_val, max_val, values.len() as int, s),
{
    let mut s = ValueScan {
        total: values.len(),
        nan_count: 0,
        inf_count: 0,
        below_min_count: 0,
        above_max_count: 0,
        first_nan: None,
        first_inf: None,
    };
    let mut i: usize = 0;
    while i < values.len()
        invariant
            i <= values.len(),
            s.total == values.len(),
            s.nan_count <= i,
            s.inf_count <= i,
            s.below_min_count <= i,
            s.above_max_count <= i,
            is_scan(values@, min_val, max_val, i as int, s),
        decreases values.len() - i,
    {
        let value: u32 = values[i];
        if float_bits::nan(value) {
            s.nan_count = s.nan_count + 1;
            if s.first_nan.is_none() {
                s.first_nan = Some(i);
            }
        } else if float_bits::infinite(value) {
            s.inf_count = s.inf_count + 1;
            if s.first_inf.is_none() {
                s.first_inf = Some(i);
            }
        } else {
            if let Some(min) = min_val {
                if float_bits::less(value, min) {
                    s.below_min_count = s.below_min_count + 1;
                }
            }
            if let Some(max) = max_val {
                if float_bits::less(max, value) {
                    s.above_max_count = s.above_max_count + 1;
                }
            }
        }
        proof {
            assert(nan_at(values@)(i as int) == float_bits::is_nan(value));
            assert(inf_at(values@)(i as int) == float_bits::is_infinite(value));
        }
        i = i + 1;
    }
    s
}

/// Debug notation of an optional index.
pub open spec fn option_text(index: Option<usize>) -> Seq<char> {
    match index {
        Some(k) => "Some("@ + text::decimal_text(k as int) + ")"@,
        None => "None"@,
    }
}

/// Report on values that are not numbers or not finite.
pub open spec fn failure_text(
    name: Seq<char>,
    count: int,
    kind: Seq<char>,
    first: Option<usize>,
) -> Seq<char> {
    "tensor '"@ + name + "' has "@ + text::decimal_text(count) + kind + " (first @ "@ + option_text(
        first,
    ) + ")"@
}

fn option_message(index: Option<usize>) -> (s: String)
    ensures
        s@ == option_text(index),
{
    match index {
        Some(k) => {
            let mut s: String = String::from_str("Some(");
            text::push_decimal(&mut s, k as u64);
            s.append(")");
            s
        },
        None => String::from_str("None"),
    }
}

/// What a strict validation of a scanned tensor fails with: values that are not
/// numbers first, then infinities. Values out of range do not fail it.
pub fn validation_failure(name: &str, scan: &ValueScan) -> (r: Option<String>)
    ensures
        match r {
            None => scan.nan_count == 0 && scan.inf_count == 0,
            Some(e) => (scan.nan_count > 0 && e@ == failure_text(
                name@,
                scan.nan_count as int,
                " NaNs"@,
                scan.first_nan,
            )) || (scan.nan_count == 0 && scan.inf_count > 0 && e@ == failure_text(
                name@,
                scan.inf_count as int,
                " Infs"@,
                scan.first_inf,
            )),
        },
{
    if scan.nan_count == 0 && scan.inf_count == 0 {
        return None;
    }
    let mut e: String = String::from_str("tensor '");
    e.append(name);
    e.append("' has ");
    if scan.nan_count > 0 {
        text::push_decimal(&mut e, scan.nan_count as u64);
        e.append(" NaNs");
        e.append(" (first @ ");
        e.append(option_message(scan.first_nan).as_str());
    } else {
        text::push_decimal(&mut e, scan.inf_count as u64);
        e.append(" Infs");
        e.append(" (first @ ");
        e.append(option_message(scan.first_inf).as_str());
    }
    e.append(")");
    Some(e)
}

/// A scan without such findings is a scan of finite values only.
pub proof fn clean_scan_means_finite(
    values: Seq<u32>,
    min: Option<u32>,
    max: Option<u32>,
    s: ValueScan,
    i: int,
)
    requires
        is_scan(values, min, max, values.len() as int, s),
        s.nan_count == 0,
        s.inf_count == 0,
        0 <= i < values.len(),
    ensures
        float_bits::is_finite(values[i]),
        s.first_nan is None,
        s.first_inf is None,
{
    let n = values.len() as int;
    lemma_zero_count(nan_at(values), n);
    lemma_zero_count(inf_at(values), n);
    assert(!nan_at(values)(i) && !inf_at(values)(i));
}

proof fn lemma_zero_count(p: spec_fn(int) -> bool, hi: int)
    requires
        counting::count_where(p, 0, hi) == 0,
    ensures
        forall|i: int| 0 <= i < hi ==> !#[trigger] p(i),
    decreases hi,
{
    if hi > 0 {
        counting::lemma_count_bounds(p, 0, hi - 1);
        lemma_zero_count(p, hi - 1);
    }
}

/// Name under which the gradient of a parameter is validated.
pub fn gradient_name(name: &str) -> (s: String)
    ensures
        s@ == "gradient_"@ + name@,
{
    let mut s: String = String::from_str("gradient_");
    s.append(name);
    s
}

/// The range that the values of a tensor should lie in, as bit patterns.
#[derive(Clone, Copy, Debug)]
pub struct ValueRange {
    pub name: &'static str,
    pub min: Option<u32>,
    pub max: Option<u32>,
}

/// The name and bounds of a range.
pub open spec fn range_view(r: ValueRange) -> (Seq<char>, Option<u32>, Option<u32>) {
    (r.name@, r.min, r.max)
}

/// What is checked of splats, in order: positions and rotations without bounds,
/// logarithms of scales within ten, scales from 1e-20 to 10000, coefficients
/// within five, raw opacities within twenty, opacities in the unit interval,
/// and scales again from 1e-6 to 100.
pub open spec fn splat_checks() -> Seq<(Seq<char>, Option<u32>, Option<u32>)> {
    seq![
        ("means"@, None::<u32>, None::<u32>),
        ("rotations"@, None::<u32>, None::<u32>),
        ("log_scales"@, Some(0xc120_0000), Some(0x4120_0000)),
        ("scales"@, Some(0x1e3c_e508), Some(0x461c_4000)),
        ("sh_coeffs"@, Some(0xc0a0_0000), Some(0x40a0_0000)),
        ("raw_opacity"@, Some(0xc1a0_0000), Some(0x41a0_0000)),
        ("opacities"@, Some(0x0000_0000), Some(0x3f80_0000)),
        ("scales"@, Some(0x3586_37bd), Some(0x42c8_0000)),
    ]
}

/// The ranges that the tensors of splats are checked against, in order.
pub fn splat_ranges() -> (ranges: Vec<ValueRange>)
    ensures
        ranges@.map_values(|r: ValueRange| range_view(r)) == splat_checks(),
{
    let ranges: Vec<ValueRange> = vec![
        ValueRange { name: "means", min: None, max: None },
        ValueRange { name: "rotations", min: None, max: None },
        ValueRange { name: "log_scales", min: Some(0xc120_0000), max: Some(0x4120_0000) },
        ValueRange { name: "scales", min: Some(0x1e3c_e508), max: Some(0x461c_4000) },
        ValueRange { name: "sh_coeffs", min: Some(0xc0a0_0000), max: Some(0x40a0_0000) },
        ValueRange { name: "raw_opacity", min: Some(0xc1a0_0000), max: Some(0x41a0_0000) },
        ValueRange { name: "opacities", min: Some(0x0000_0000), max: Some(0x3f80_0000) },
        ValueRange { name: "scales", min: Some(0x3586_37bd), max: Some(0x42c8_0000) },
    ];
    proof {
        let views = ranges@.map_values(|r: ValueRange| range_view(r));
        assert(views =~= splat_checks());
    }
    ranges
}

/// A list of values fails its strict validation.
pub open spec fn is_faulty(values: Seq<u32>) -> bool {
    exists|k: int| 0 <= k < values.len() && !float_bits::is_finite(#[trigger] values[k])
}

/// The text that a faulty list of values fails with: values that are not numbers
/// come before infinities.
pub open spec fn has_fault_text(
    check: (Seq<char>, Option<u32>, Option<u32>),
    values: Seq<u32>,
    t: Seq<char>,
) -> bool {
    exists|s: ValueScan|
        #[trigger] is_scan(values, check.1, check.2, values.len() as int, s) && t == (
        if s.nan_count > 0 {
            failure_text(check.0, s.nan_count as int, " NaNs"@, s.first_nan)
        } else {
            failure_text(check.0, s.inf_count as int, " Infs"@, s.first_inf)
        })
}

/// Checks the tensors of splats, given in the order of their ranges. Returns
/// the position of the first that holds a value that is not finite, and what
/// its validation fails with.
pub fn first_fault(tensors: &Vec<Vec<u32>>) -> (r: Option<(usize, String)>)
    requires
        tensors.len() == 8,
    ensures
        match r {
            None => forall|i: int| 0 <= i < 8 ==> !is_faulty((#[trigger] tensors[i])@),
            Some(f) => f.0 < 8 && is_faulty(tensors[f.0 as int]@) && (forall|i: int|
                0 <= i < f.0 ==> !is_faulty((#[trigger] tensors[i])@)) && has_fault_text(
                splat_checks()[f.0 as int],
                tensors[f.0 as int]@,
                f.1@,
            ),
        },
{
    let ranges: Vec<ValueRange> = splat_ranges();
    let ghost checks = splat_checks();
    proof {
        let views = ranges@.map_values(|r: ValueRange| range_view(r));
        assert(views.len() == 8);
        assert forall|i: int| 0 <= i < 8 implies range_view(#[trigger] ranges@[i]) == checks[i] by {
            assert(views[i] == range_view(ranges@[i]));
        }
    }
    let mut i: usize = 0;
    while i < 8
        invariant
            i <= 8,
            ranges.len() == 8,
            tensors.len() == 8,
            checks == splat_checks(),
            forall|k: int| 0 <= k < 8 ==> range_view(#[trigger] ranges@[k]) == checks[k],
            forall|k: int| 0 <= k < i ==> !is_faulty((#[trigger] tensors[k])@),
        decreases 8 - i,
    {
        let range: ValueRange = ranges[i];
        let values: &Vec<u32> = &tensors[i];
        let scan: ValueScan = scan_values(values, range.min, range.max);
        let fault: Option<String> = validation_failure(range.name, &scan);
        proof {
            if scan.nan_count == 0 && scan.inf_count == 0 {
                assert forall|k: int| 0 <= k < values.len() implies float_bits::is_finite(
                    #[trigger] values@[k],
                ) by {
                    clean_scan_means_finite(values@, range.min, range.max, scan, k);
                }
            } else {
                lemma_found(values@, range.min, range.max, scan);
            }
        }
        match fault {
            Some(text) => {
                proof {
                    assert(range_view(ranges@[i as int]) == checks[i as int]);
                    assert(is_scan(
                        values@,
                        checks[i as int].1,
                        checks[i as int].2,
                        values.len() as int,
                        scan,
                    ));
                    assert(is_faulty(tensors@[i as int]@));
                    assert(has_fault_text(checks[i as int], tensors@[i as int]@, text@));
                }
                return Some((i, text));
            },
            None => {},
        }
        i = i + 1;
    }
    None
}

proof fn lemma_counted(p: spec_fn(int) -> bool, n: int)
    requires
        counting::count_where(p, 0, n) > 0,
    ensures
        exists|k: int| 0 <= k < n && #[trigger] p(k),
    decreases n,
{
    if n > 0 && !p(n - 1) {
        lemma_counted(p, n - 1);
    }
}

proof fn lemma_found(values: Seq<u32>, min: Option<u32>, max: Option<u32>, s: ValueScan)
    requires
        is_scan(values, min, max, values.len() as int, s),
        s.nan_count > 0 || s.inf_count > 0,
    ensures
        is_faulty(values),
{
    if s.nan_count > 0 {
        lemma_counted(nan_at(values), values.len() as int);
        let k = choose|k: int| 0 <= k < values.len() && #[trigger] nan_at(values)(k);
        assert(!float_bits::is_finite(values[k]));
    } else {
        lemma_counted(inf_at(values), values.len() as int);
        let k = choose|k: int| 0 <= k < values.len() && #[trigger] inf_at(values)(k);
        assert(!float_bits::is_finite(values[k]));
    }
}

/// What is wrong with the shapes of splats' tensors, if anything is.
pub open spec fn shape_fault(
    num_splats: usize,
    t_dims: usize,
    n_opacity: usize,
    n_sh: usize,
    sh_dims: usize,
) -> Option<Seq<char>> {
    if t_dims != 10 {
        Some("Transforms must be 10D (means(3) + quats(4) + log_scales(3))"@)
    } else if n_opacity != num_splats {
        Some("Inconsistent number of splats in opacity"@)
    } else if sh_dims != 3 {
        Some("SH coeffs must have 3 color channels"@)
    } else if n_sh != num_splats {
        Some("Inconsistent number of splats in SH coeffs"@)
    } else {
        None
    }
}

/// Checks the shapes of splats' tensors against the number of rows of their
/// transforms.
pub fn check_shapes(
    num_splats: usize,
    t_dims: usize,
    n_opacity: usize,
    n_sh: usize,
    sh_dims: usize,
) -> (r: Result<(), String>)
    ensures
        match r {
            Ok(_) => shape_fault(num_splats, t_dims, n_opacity, n_sh, sh_dims) is None,
            Err(e) => shape_fault(num_splats, t_dims, n_opacity, n_sh, sh_dims) == Some(e@),
        },
{
    if t_dims != 10 {
        return Err(
            String::from_str("Transforms must be 10D (means(3) + quats(4) + log_scales(3))"),
        );
    }
    if n_opacity != num_splats {
        return Err(String::from_str("Inconsistent number of splats in opacity"));
    }
    if sh_dims != 3 {
        return Err(String::from_str("SH coeffs must have 3 color channels"));
    }
    if n_sh != num_splats {
        return Err(String::from_str("Inconsistent number of splats in SH coeffs"));
    }
    Ok(())
}

/// The bounds that splats are checked against are the nearest patterns to the
/// numbers that they stand for; logarithms of scales, coefficients and raw
/// opacities have bounds that differ in their sign alone.
pub proof fn bounds_are_what_they_stand_for()
    ensures
        ({
            let c = splat_checks();
            &&& float_bits::is_nearest(c[2].2->0, 10, 1) && c[2].1->0 == c[2].2->0 + 0x8000_0000
            &&& float_bits::is_nearest(c[3].2->0, 10_000, 1)
            &&& float_bits::is_nearest(c[3].1->0, 1, 100_000_000_000_000_000_000)
            &&& float_bits::is_nearest(c[4].2->0, 5, 1) && c[4].1->0 == c[4].2->0 + 0x8000_0000
            &&& float_bits::is_nearest(c[5].2->0, 20, 1) && c[5].1->0 == c[5].2->0 + 0x8000_0000
            &&& float_bits::is_nearest(c[6].2->0, 1, 1) && float_bits::steps(c[6].1->0) == 0
            &&& float_bits::is_nearest(c[7].2->0, 100, 1)
            &&& float_bits::is_nearest(c[7].1->0, 1, 1_000_000)
        }),
{
    vstd::arithmetic::power2::lemma2_to64();
    vstd::arithmetic::power2::lemma2_to64_rest();
    vstd::arithmetic::power2::lemma_pow2_adds(45, 45);
    assert(vstd::arithmetic::power2::pow2(90) == 0x2000_0000_0000 * 0x2000_0000_0000);
}

/// Shapes pass where each splat has a row of ten numbers, an opacity and colors
/// of three channels, and only there.
pub proof fn sound_shapes_agree_on_the_splats(
    num_splats: usize,
    t_dims: usize,
    n_opacity: usize,
    n_sh: usize,
    sh_dims: usize,
)
    ensures
        shape_fault(num_splats, t_dims, n_opacity, n_sh, sh_dims) is None <==> t_dims == 3 + 4 + 3
            && sh_dims == 3 && n_opacity == num_splats && n_sh == num_splats,
{
}

/// Where a scan counts nothing beyond a bound, every finite value keeps to it,
/// and without a bound nothing is counted.
pub proof fn uncounted_values_keep_to_the_bounds(
    values: Seq<u32>,
    min: Option<u32>,
    max: Option<u32>,
    s: ValueScan,
    i: int,
)
    requires
        is_scan(values, min, max, values.len() as int, s),
        0 <= i < values.len(),
        float_bits::is_finite(values[i]),
    ensures
        s.below_min_count == 0 && min is Some && float_bits::is_finite(min->0)
            ==> float_bits::order_key(min->0) <= float_bits::order_key(values[i]),
        s.above_max_count == 0 && max is Some && float_bits::is_finite(max->0)
            ==> float_bits::order_key(values[i]) <= float_bits::order_key(max->0),
        min is None ==> s.below_min_count == 0,
        max is None ==> s.above_max_count == 0,
{
    let n = values.len() as int;
    if s.below_min_count == 0 {
        lemma_zero_count(below_at(values, min), n);
        assert(!below_at(values, min)(i));
    }
    if s.above_max_count == 0 {
        lemma_zero_count(above_at(values, max), n);
        assert(!above_at(values, max)(i));
    }
    if min is None {
        lemma_never_counted(below_at(values, min), n);
    }
    if max is None {
        lemma_never_counted(above_at(values, max), n);
    }
}

proof fn lemma_never_counted(p: spec_fn(int) -> bool, hi: int)
    requires
        forall|i: int| !#[trigger] p(i),
    ensures
        counting::count_where(p, 0, hi) == 0,
    decreases hi,
{
    if hi > 0 {
        lemma_never_counted(p, hi - 1);
    }
}

} // verus!
