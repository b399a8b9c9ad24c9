//! Settings of a training process and the checks they pass before it starts.
use vstd::prelude::*;
use vstd::string::*;

verus! {

/// Settings of the process around training.
pub struct ProcessConfig {
    /// Random seed.
    pub seed: u64,
    /// Iteration to resume from.
    pub start_iter: u32,
    /// Eval every this many steps.
    pub eval_every: u32,
    /// Save the rendered eval images to disk.
    pub eval_save_to_disk: bool,
    /// Export every this many steps.
    pub export_every: u32,
    /// Location to put exported files.
    pub export_path: String,
    /// Filename of exported files.
    pub export_name: String,
}

impl Default for ProcessConfig {
    fn default() -> (r: ProcessConfig)
        ensures
            r.seed == 42,
            r.start_iter == 0,
            r.eval_every == 1000,
            !r.eval_save_to_disk,
            r.export_every == 5000,
            r.export_path@ == "./{dataset}_exports/"@,
            r.export_name@ == "export_{iter}.ply"@,
    {
        ProcessConfig {
            seed: 42,
            start_iter: 0,
            eval_every: 1000,
            eval_save_to_disk: false,
            export_every: 5000,
            export_path: String::from_str("./{dataset}_exports/"),
            export_name: String::from_str("export_{iter}.ply"),
        }
    }
}

/// Settings of the visual log.
pub struct RerunConfig {
    /// Whether the log is on.
    pub rerun_enabled: bool,
    /// How often to log basic training statistics.
    pub rerun_log_train_stats_every: u32,
    /// How often to log the full splats, if at all.
    pub rerun_log_splats_every: Option<u32>,
    /// How often to log the distributions of scale, opacity and anisotropy.
    pub rerun_log_distribution_every: u32,
    /// The maximum size of logged images.
    pub rerun_max_img_size: u32,
}

impl Default for RerunConfig {
    fn default() -> (r: RerunConfig)
        ensures
            r == (RerunConfig {
                rerun_enabled: false,
                rerun_log_train_stats_every: 50,
                rerun_log_splats_every: None,
                rerun_log_distribution_every: 1000,
                rerun_max_img_size: 512,
            }),
    {
        RerunConfig {
            rerun_enabled: false,
            rerun_log_train_stats_every: 50,
            rerun_log_splats_every: None,
            rerun_log_distribution_every: 1000,
            rerun_max_img_size: 512,
        }
    }
}

/// The training settings that the process itself checks.
pub struct TrainSchedule {
    pub refine_every: u32,
    pub lod_refine_steps: u32,
    /// Percentage of splats that a level of detail keeps.
    pub lod_decimation_keep: u32,
    /// Percentage that images shrink to for a level of detail.
    pub lod_image_scale: u32,
}

pub struct TrainStreamConfig {
    pub train_config: TrainSchedule,
    pub process_config: ProcessConfig,
    pub rerun_config: RerunConfig,
}

/// The settings that count steps, in the order they are checked in.
pub open spec fn cadences(c: TrainStreamConfig) -> Seq<(Seq<char>, u32)> {
    seq![
        ("refine-every"@, c.train_config.refine_every),
        ("lod-refine-steps"@, c.train_config.lod_refine_steps),
        ("eval-every"@, c.process_config.eval_every),
        ("export-every"@, c.process_config.export_every),
        ("rerun-log-train-stats-every"@, c.rerun_config.rerun_log_train_stats_every),
        ("rerun-log-distribution-every"@, c.rerun_config.rerun_log_distribution_every),
    ]
}

/// The settings that are percentages, in the order they are checked in.
pub open spec fn percentages(c: TrainStreamConfig) -> Seq<(Seq<char>, u32)> {
    seq![
        ("lod-decimation-keep"@, c.train_config.lod_decimation_keep),
        ("lod-image-scale"@, c.train_config.lod_image_scale),
    ]
}

/// The name of the first cadence that is zero.
pub open spec fn first_zero(list: Seq<(Seq<char>, u32)>) -> Option<Seq<char>>
    decreases list.len(),
{
    if list.len() == 0 {
        None
    } else if list[0].1 == 0 {
        Some(list[0].0)
    } else {
        first_zero(list.drop_first())
    }
}

/// The name of the first percentage that is out of range.
pub open spec fn first_out_of_range(list: Seq<(Seq<char>, u32)>) -> Option<Seq<char>>
    decreases list.len(),
{
    if list.len() == 0 {
        None
    } else if !(1 <= list[0].1 <= 100) {
        Some(list[0].0)
    } else {
        first_out_of_range(list.drop_first())
    }
}

/// What is wrong with the settings, if anything.
pub open spec fn fault(c: TrainStreamConfig) -> Option<Seq<char>> {
    match first_zero(cadences(c)) {
        Some(name) => Some(name + " must be greater than zero"@),
        None => if c.rerun_config.rerun_log_splats_every == Some(0u32) {
            Some("rerun-log-splats-every must be greater than zero"@)
        } else {
            match first_out_of_range(percentages(c)) {
                Some(name) => Some(name + " must be between 1 and 100"@),
                None => None,
            }
        },
    }
}

fn with_suffix(name: &str, suffix: &str) -> (r: String)
    ensures
        r@ == name@ + suffix@,
{
    let mut r: String = String::from_str(name);
    r.append(suffix);
    r
}

fn zero_error(name: &str) -> (r: Result<(), String>)
    ensures
        r matches Err(e) && e@ == name@ + " must be greater than zero"@,
{
    Err(with_suffix(name, " must be greater than zero"))
}

fn range_error(name: &str) -> (r: Result<(), String>)
    ensures
        r matches Err(e) && e@ == name@ + " must be between 1 and 100"@,
{
    Err(with_suffix(name, " must be between 1 and 100"))
}

impl TrainStreamConfig {
    /// Checks settings that can be supplied without the command line's own
    /// checks. The checks of the dataset's and the trainer's settings have run,
    /// and their outcomes come first.
    pub fn validate(&self, load: Result<(), String>, train: Result<(), String>) -> (r: Result<
        (),
        String,
    >)
        ensures
            load is Err ==> r == load,
            load is Ok && train is Err ==> r == train,
            load is Ok && train is Ok ==> match r {
                Ok(_) => fault(*self) is None,
                Err(e) => fault(*self) == Some(e@),
            },
    {
        if load.is_err() {
            return load;
        }
        if train.is_err() {
            return train;
        }
        proof {
            reveal_with_fuel(first_zero, 7);
            reveal_with_fuel(first_out_of_range, 3);
            let list = cadences(*self);
            let tail1 = list.drop_first();
            let tail2 = tail1.drop_first();
            let tail3 = tail2.drop_first();
            let tail4 = tail3.drop_first();
            let tail5 = tail4.drop_first();
            assert(tail5.drop_first() =~= Seq::empty());
            let range = percentages(*self);
            assert(range.drop_first().drop_first() =~= Seq::empty());
        }
        if self.train_config.refine_every == 0 {
            return zero_error("refine-every");
        }
        if self.train_config.lod_refine_steps == 0 {
            return zero_error("lod-refine-steps");
        }
        if self.process_config.eval_every == 0 {
            return zero_error("eval-every");
        }
        if self.process_config.export_every == 0 {
            return zero_error("export-every");
        }
        if self.rerun_config.rerun_log_train_stats_every == 0 {
            return zero_error("rerun-log-train-stats-every");
        }
        if self.rerun_config.rerun_log_distribution_every == 0 {
            return zero_error("rerun-log-distribution-every");
        }
        match self.rerun_config.rerun_log_splats_every {
            Some(every) => {
                if every == 0 {
                    return Err(
                        String::from_str("rerun-log-splats-every must be greater than zero"),
                    );
                }
            },
            None => {},
        }
        if self.train_config.lod_decimation_keep < 1 || self.train_config.lod_decimation_keep
            > 100 {
            return range_error("lod-decimation-keep");
        }
        if self.train_config.lod_image_scale < 1 || self.train_config.lod_image_scale > 100 {
            return range_error("lod-image-scale");
        }
        Ok(())
    }
}

/// Settings that pass never divide by zero: every cadence is positive, and
/// every percentage is between one and a hundred.
pub proof fn valid_settings_are_in_range(c: TrainStreamConfig)
    requires
        fault(c) is None,
    ensures
        c.train_config.refine_every > 0,
        c.train_config.lod_refine_steps > 0,
        c.process_config.eval_every > 0,
        c.process_config.export_every > 0,
        c.rerun_config.rerun_log_train_stats_every > 0,
        c.rerun_config.rerun_log_distribution_every > 0,
        c.rerun_config.rerun_log_splats_every matches Some(every) ==> every > 0,
        1 <= c.train_config.lod_decimation_keep <= 100,
        1 <= c.train_config.lod_image_scale <= 100,
{
    reveal_with_fuel(first_zero, 7);
    reveal_with_fuel(first_out_of_range, 3);
    let list = cadences(c);
    assert(list.drop_first().drop_first().drop_first().drop_first().drop_first()[0] == list[5]);
    assert(list.drop_first().drop_first().drop_first().drop_first()[0] == list[4]);
    assert(list.drop_first().drop_first().drop_first()[0] == list[3]);
    assert(list.drop_first().drop_first()[0] == list[2]);
    assert(list.drop_first()[0] == list[1]);
    assert(percentages(c).drop_first()[0] == percentages(c)[1]);
}

} // verus!
