//! Records of a training run: which steps are recorded and what a record
//! holds.
use vstd::prelude::*;
use vstd::string::*;

use crate::float_bits;
use crate::text;
use crate::text::{parse_unsigned, push_decimal};

verus! {

/// Steps between records unless set otherwise.
pub const DEFAULT_EVERY: u32 = 50;

pub const SCHEMA_VERSION: u32 = 1;

/// The steps between records that a setting asks for.
pub open spec fn requested_every(raw: Option<Seq<char>>) -> u32 {
    match raw {
        None => DEFAULT_EVERY,
        Some(s) => match text::parsed_unsigned(s, u32::MAX as int) {
            Some(n) => if n > 0 {
                n as u32
            } else {
                DEFAULT_EVERY
            },
            None => DEFAULT_EVERY,
        },
    }
}

/// Reads the steps between records from the text of a setting. Anything but a
/// positive number leaves the default.
pub fn metrics_every(raw: Option<&str>) -> (every: u32)
    ensures
        every == requested_every(
            match raw {
                Some(s) => Some(s@),
                None => None,
            },
        ),
        every > 0,
{
    match raw {
        None => DEFAULT_EVERY,
        Some(s) => match parse_unsigned(s, u32::MAX as u64) {
            Some(value) => if value > 0 {
                value as u32
            } else {
                DEFAULT_EVERY
            },
            None => DEFAULT_EVERY,
        },
    }
}

/// A step number is a multiple of the cadence. Of a cadence of zero, only step
/// zero is.
pub open spec fn on_cadence(iter: u32, every: u32) -> bool {
    if every == 0 {
        iter == 0
    } else {
        iter % every == 0
    }
}

/// The first step after the start, each step on the cadence and the last step
/// are recorded.
pub open spec fn recorded(iter: u32, start_iter: u32, every: u32, final_step: bool) -> bool {
    ||| iter == start_iter + 1
    ||| start_iter == u32::MAX && iter == u32::MAX
    ||| on_cadence(iter, every)
    ||| final_step
}

/// Whether a step is recorded.
pub fn should_record(iter: u32, start_iter: u32, every: u32, final_step: bool) -> (r: bool)
    ensures
        r == recorded(iter, start_iter, every, final_step),
{
    let first: u32 = if start_iter == u32::MAX {
        u32::MAX
    } else {
        start_iter + 1
    };
    let multiple: bool = if every == 0 {
        iter == 0
    } else {
        iter % every == 0
    };
    iter == first || multiple || final_step
}

/// The name of a run: when it started, and the process that runs it.
pub fn run_id(started_unix_ms: u64, process_id: u32) -> (id: String)
    ensures
        id@ == text::decimal_text(started_unix_ms as int) + "-"@ + text::decimal_text(
            process_id as int,
        ),
{
    let mut id: String = String::new();
    push_decimal(&mut id, started_unix_ms);
    id.append("-");
    push_decimal(&mut id, process_id as u64);
    assert(id@ =~= text::decimal_text(started_unix_ms as int) + "-"@ + text::decimal_text(
        process_id as int,
    ));
    id
}

/// What kind of number a value is.
pub open spec fn status_of(bits: u32) -> Seq<char> {
    if float_bits::is_nan(bits) {
        "nan"@
    } else if !float_bits::is_infinite(bits) {
        "finite"@
    } else if bits < 0x8000_0000 {
        "positive_infinity"@
    } else {
        "negative_infinity"@
    }
}

/// A value that can be written as a number, and what kind of number it is. The
/// value comes as a bit pattern; one that is not finite is left out.
pub fn finite_value(bits: u32) -> (r: (Option<u32>, &'static str))
    ensures
        r.0 == (if float_bits::is_finite(bits) {
            Some(bits)
        } else {
            None
        }),
        r.1@ == status_of(bits),
{
    if float_bits::nan(bits) {
        (None, "nan")
    } else if !float_bits::infinite(bits) {
        (Some(bits), "finite")
    } else if bits < 0x8000_0000 {
        (None, "positive_infinity")
    } else {
        (None, "negative_infinity")
    }
}

/// The record at the head of a run.
pub struct RunRecord {
    pub schema_version: u32,
    pub record_type: &'static str,
    pub run_id: String,
    pub dataset: String,
    pub start_iter: u32,
    pub total_iters: u32,
    pub metrics_every: u32,
    pub started_unix_ms: u64,
}

/// The record of a step, without its timings.
pub struct StepRecord {
    pub schema_version: u32,
    pub record_type: &'static str,
    pub run_id: String,
    pub iter: u32,
    pub total_iters: u32,
    /// Bit pattern of the loss, where it is finite.
    pub loss: Option<u32>,
    pub loss_status: &'static str,
    pub splats: u32,
    pub final_step: bool,
}

/// What a run's records have in common.
pub struct TrainingMetrics {
    pub run_id: String,
    pub start_iter: u32,
    pub total_iters: u32,
    pub every: u32,
}

impl TrainingMetrics {
    /// Starts the records of a run. Returns also the record at its head.
    pub fn start(
        dataset: &str,
        start_iter: u32,
        total_iters: u32,
        every: u32,
        started_unix_ms: u64,
        process_id: u32,
    ) -> (r: (TrainingMetrics, RunRecord))
        ensures
            r.0.run_id@ == text::decimal_text(started_unix_ms as int) + "-"@ + text::decimal_text(
                process_id as int,
            ),
            r.0.start_iter == start_iter,
            r.0.total_iters == total_iters,
            r.0.every == every,
            r.1.schema_version == SCHEMA_VERSION,
            r.1.record_type@ == "run_start"@,
            r.1.run_id@ == r.0.run_id@,
            r.1.dataset@ == dataset@,
            r.1.start_iter == start_iter,
            r.1.total_iters == total_iters,
            r.1.metrics_every == every,
            r.1.started_unix_ms == started_unix_ms,
    {
        let id: String = run_id(started_unix_ms, process_id);
        let head: RunRecord = RunRecord {
            schema_version: SCHEMA_VERSION,
            record_type: "run_start",
            run_id: id.clone(),
            dataset: dataset.to_owned(),
            start_iter,
            total_iters,
            metrics_every: every,
            started_unix_ms,
        };
        (TrainingMetrics { run_id: id, start_iter, total_iters, every }, head)
    }

    /// Whether a step is recorded.
    pub fn should_record(&self, iter: u32, final_step: bool) -> (r: bool)
        ensures
            r == recorded(iter, self.start_iter, self.every, final_step),
    {
        should_record(iter, self.start_iter, self.every, final_step)
    }

    /// The record of a step. `loss` is a bit pattern.
    pub fn step_record(&self, iter: u32, loss: u32, splats: u32, final_step: bool) -> (r:
        StepRecord)
        ensures
            r.schema_version == SCHEMA_VERSION,
            r.record_type@ == "train_step"@,
            r.run_id@ == self.run_id@,
            r.iter == iter,
            r.total_iters == self.total_iters,
            r.loss == (if float_bits::is_finite(loss) {
                Some(loss)
            } else {
                None
            }),
            r.loss_status@ == status_of(loss),
            r.splats == splats,
            r.final_step == final_step,
    {
        let (loss, loss_status) = finite_value(loss);
        StepRecord {
            schema_version: SCHEMA_VERSION,
            record_type: "train_step",
            run_id: self.run_id.clone(),
            iter,
            total_iters: self.total_iters,
            loss,
            loss_status,
            splats,
            final_step,
        }
    }
}

/// A run of at least one step leaves a record of its first step and of its
/// last one, whatever the cadence.
pub proof fn first_and_last_steps_are_recorded(start_iter: u32, every: u32, last: u32)
    requires
        start_iter < u32::MAX,
    ensures
        recorded((start_iter + 1) as u32, start_iter, every, false),
        recorded(last, start_iter, every, true),
{
}

/// Steps between two multiples of the cadence are not recorded, but for the
/// first and the last; multiples are.
pub proof fn records_are_a_cadence_apart(start_iter: u32, every: u32, k: int, step: int)
    requires
        every > 0,
        0 <= k,
        0 <= step < every,
        k * every + step <= u32::MAX,
    ensures
        ({
            let iter = (k * every + step) as u32;
            let first = iter == start_iter + 1 || (start_iter == u32::MAX && iter == u32::MAX);
            recorded(iter, start_iter, every, false) <==> step == 0 || first
        }),
{
    let iter = k * every + step;
    vstd::arithmetic::div_mod::lemma_fundamental_div_mod_converse(iter, every as int, k, step);
    assert(0 <= iter) by (nonlinear_arith)
        requires
            iter == k * every + step,
            0 <= k,
            0 <= step,
            0 < every,
    ;
}

/// A setting that spells a number of steps asks for that many.
pub proof fn numbers_ask_for_themselves(n: u32)
    requires
        0 < n,
    ensures
        requested_every(Some(text::decimal_text(n as int))) == n,
{
    text::decimal_texts_are_read_back(n as int, u32::MAX as int);
}

/// A value is called by what it is: the infinities are one pattern each, and
/// every other pattern is finite or not a number.
pub proof fn values_are_called_by_their_class(bits: u32)
    ensures
        bits == float_bits::INFINITY_BITS ==> status_of(bits) == "positive_infinity"@,
        bits == float_bits::INFINITY_BITS + 0x8000_0000 ==> status_of(bits)
            == "negative_infinity"@,
        float_bits::is_finite(bits) ==> status_of(bits) == "finite"@,
        bits != float_bits::INFINITY_BITS && bits != float_bits::INFINITY_BITS + 0x8000_0000
            && !float_bits::is_finite(bits) ==> status_of(bits) == "nan"@,
{
}

} // verus!
