//! Runtime switches for experimental native-MSL optimizations, resolved from
//! the values of their environment variables.

use crate::text;
use vstd::prelude::*;

verus! {

pub const PRESET_ENV: &'static str = "BRUSH_NATIVE_MSL_PRESET";

pub const UNCHECKED_RASTER_BWD_ENV: &'static str = "BRUSH_NATIVE_MSL_UNCHECKED_RASTER_BWD";

pub const FUSED_SH_ADAM_ENV: &'static str = "BRUSH_NATIVE_MSL_FUSED_SH_ADAM";

pub const COALESCED_SH_GRAD_ENV: &'static str = "BRUSH_NATIVE_MSL_COALESCED_SH_GRAD";

pub const SAVED_LOSS_PARTIALS_ENV: &'static str = "BRUSH_NATIVE_MSL_SAVED_LOSS_PARTIALS";

pub const SPARSE_SH_ADAM_ENV: &'static str = "BRUSH_NATIVE_MSL_SPARSE_SH_ADAM";

pub const FINE_RASTER_TILES_ENV: &'static str = "BRUSH_NATIVE_MSL_FINE_RASTER_TILES";

/// Value of an environment variable.
#[derive(Debug)]
pub enum EnvValue {
    Unset,
    /// Set to something that is not valid Unicode.
    NotUnicode,
    Text(String),
}

/// `1` or any spelling of `true` by case.
pub open spec fn spells_true(value: Seq<char>) -> bool {
    value == "1"@ || text::same_ignoring_case(value, "true"@)
}

/// `0` or any spelling of `false` by case.
pub open spec fn spells_false(value: Seq<char>) -> bool {
    value == "0"@ || text::same_ignoring_case(value, "false"@)
}

/// The switch that a text sets.
pub open spec fn parsed_bool(value: Seq<char>) -> Option<bool> {
    if spells_true(value) {
        Some(true)
    } else if spells_false(value) {
        Some(false)
    } else {
        None
    }
}

/// A value switches its option on.
pub open spec fn is_on(value: EnvValue) -> bool {
    value matches EnvValue::Text(t) && spells_true(t@)
}

/// An option is on: by its own value where that is set, else by the preset.
pub open spec fn resolves_on(option: EnvValue, preset: EnvValue) -> bool {
    if option is Unset {
        is_on(preset)
    } else {
        is_on(option)
    }
}

/// Reads a switch.
pub fn parse_bool(value: &str) -> (r: Option<bool>)
    ensures
        r == parsed_bool(value@),
{
    if text::same_text(value, "1") || text::eq_ignore_ascii_case(value, "true") {
        Some(true)
    } else if text::same_text(value, "0") || text::eq_ignore_ascii_case(value, "false") {
        Some(false)
    } else {
        None
    }
}

/// Whether a set value switches its option on. `None` stands for a value that
/// is not valid Unicode.
pub fn value_enabled(value: Option<&str>) -> (r: bool)
    ensures
        r == (value is Some && spells_true(value->0@)),
{
    match value {
        Some(v) => match parse_bool(v) {
            Some(b) => b,
            None => false,
        },
        None => false,
    }
}

/// Resolves an option against the preset from their texts.
pub fn resolve_option(option: Option<&str>, preset: Option<&str>) -> (r: bool)
    ensures
        r == match option {
            Some(v) => spells_true(v@),
            None => preset is Some && spells_true(preset->0@),
        },
{
    match option {
        Some(value) => value_enabled(Some(value)),
        None => value_enabled(preset),
    }
}

fn env_enabled(value: &EnvValue) -> (r: bool)
    ensures
        r == is_on(*value),
{
    match value {
        EnvValue::Unset => false,
        EnvValue::NotUnicode => value_enabled(None),
        EnvValue::Text(t) => value_enabled(Some(t.as_str())),
    }
}

/// Whether the process requested the complete optimization preset. `preset` is
/// the value of [`PRESET_ENV`].
pub fn preset_requested(preset: &EnvValue) -> (r: bool)
    ensures
        r == is_on(*preset),
{
    env_enabled(preset)
}

/// Resolves one optimization request.
///
/// An explicitly set option wins over the preset. `1` and `true` enable it;
/// `0`, `false`, and unrecognized values disable it. When the option is absent,
/// it inherits the preset value.
pub fn option_requested(option: &EnvValue, preset: &EnvValue) -> (r: bool)
    ensures
        r == resolves_on(*option, *preset),
{
    match option {
        EnvValue::Unset => preset_requested(preset),
        EnvValue::NotUnicode => env_enabled(option),
        EnvValue::Text(_) => env_enabled(option),
    }
}

/// Whether the 16x8 training rasterizer was requested. Platforms without the
/// specialization never use it.
pub fn fine_raster_tiles_requested(
    platform_supported: bool,
    option: &EnvValue,
    preset: &EnvValue,
) -> (r: bool)
    ensures
        r == (platform_supported && resolves_on(*option, *preset)),
{
    if platform_supported {
        option_requested(option, preset)
    } else {
        false
    }
}

/// An explicit value decides alone: the preset cannot change it.
pub proof fn explicit_option_ignores_the_preset(option: EnvValue, a: EnvValue, b: EnvValue)
    requires
        option !is Unset,
    ensures
        resolves_on(option, a) == resolves_on(option, b),
{
}

/// With nothing set, every option is off, and without an own value every option
/// follows the preset.
pub proof fn absent_option_inherits_the_preset(preset: EnvValue)
    ensures
        resolves_on(EnvValue::Unset, preset) == is_on(preset),
        !resolves_on(EnvValue::Unset, EnvValue::Unset),
{
}

/// No text switches an option both on and off.
pub proof fn spellings_are_disjoint(value: Seq<char>)
    ensures
        !(spells_true(value) && spells_false(value)),
{
    reveal_strlit("1");
    reveal_strlit("0");
    reveal_strlit("true");
    reveal_strlit("false");
    if spells_true(value) && spells_false(value) {
        assert(value.len() == 1);
        assert("1"@[0] == '1' && "0"@[0] == '0');
    }
}

} // verus!
