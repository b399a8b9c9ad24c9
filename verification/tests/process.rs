//! Settings, training records, the order of work on a source, and the layout of
//! the visual log.

use brush::args_file::{
    args_file_tokens, config_to_args, has_args_file, merge_configs,
    merge_configs_with_perceptual_overrides, split_args_str, ConfigEntry, ConfigValue, ListItem,
    PerceptualArgOverrides, PerceptualModes,
};
use brush::build_id::{build_id, command_fact, version_text};
use brush::config::{ProcessConfig, RerunConfig, TrainSchedule, TrainStreamConfig};
use brush::process::{
    advance, is_training_source, order_frames, source_name, Action, Event, Phase, SourceFile,
    SourceLabel,
};
use brush::training_metrics::{
    finite_value, metrics_every, run_id, should_record, TrainingMetrics, SCHEMA_VERSION,
};
use brush::visual_log::{
    camera_path, default_blueprint, eval_entries, memory_entries, refine_entries, splat_entries,
    train_entries, view_entries, GraphCell, LogEntry, LogValue, RefineStats, TrainStats,
};
use brush::visualize::{
    at_or_last, count_above, count_under, eval_panel, eval_paths, needs_resize, ordered_scales,
    series_names, sort_finite, EvalPanel, GroundTruthLog, MIN_SCALE_BITS,
};

fn entry(key: &str, value: ConfigValue) -> ConfigEntry {
    ConfigEntry { key: key.to_string(), value }
}

fn number(text: &str) -> ConfigValue {
    ConfigValue::Number(text.to_string())
}

fn settings(changes: &[(&str, ConfigValue)]) -> Vec<ConfigEntry> {
    let copy = |v: &ConfigValue| match v {
        ConfigValue::Null => ConfigValue::Null,
        ConfigValue::Bool(b) => ConfigValue::Bool(*b),
        ConfigValue::Number(n) => number(n),
        ConfigValue::Text(t) => ConfigValue::Text(t.clone()),
        ConfigValue::Other(t) => ConfigValue::Other(t.clone()),
        ConfigValue::List(items) => ConfigValue::List(
            items
                .iter()
                .map(|i| match i {
                    ListItem::Text(t) => ListItem::Text(t.clone()),
                    ListItem::Number(t) => ListItem::Number(t.clone()),
                    ListItem::Other(t) => ListItem::Other(t.clone()),
                })
                .collect(),
        ),
    };
    let zeros = || ConfigValue::List(vec![ListItem::Number("0.0".to_string())]);
    let mut all = vec![
        entry("total-train-iters", number("30000")),
        entry("wd-r-gamma", number("0.0")),
        entry("wd-r-warmup-iters", number("3000")),
        entry("lpips-loss-weight", number("0.0")),
        entry("background-color", zeros()),
        entry("sh-degree", number("3")),
        entry("max-frames", ConfigValue::Null),
        entry("export-name", ConfigValue::Text("export_{iter}.ply".to_string())),
        entry("rerun-enabled", ConfigValue::Bool(false)),
    ];
    for (key, value) in changes {
        for e in &mut all {
            if e.key == *key {
                e.value = copy(value);
            }
        }
    }
    all
}

const NO_MODE: PerceptualModes = PerceptualModes { wd_r: false, lpips: false };

fn texts(values: &[&str]) -> Vec<String> {
    values.iter().map(|v| v.to_string()).collect()
}

#[test]
fn test_config_to_args_only_includes_changes() {
    let config = settings(&[
        ("total-train-iters", number("5000")),
        ("sh-degree", number("2")),
        ("max-frames", number("10")),
    ]);
    let args = config_to_args(&config, &settings(&[]));
    assert_eq!(args.len(), 3, "Should have 3 args, got: {args:?}");
    let args_str = args.join(" ");
    assert!(args_str.contains("--total-train-iters 5000"), "Missing total-train-iters");
    assert!(args_str.contains("--sh-degree 2"), "Missing sh-degree");
    assert!(args_str.contains("--max-frames 10"), "Missing max-frames");
}

#[test]
fn test_config_to_args_vec_round_trip() {
    let items = ["1.0", "0.5", "0.25"].iter().map(|v| ListItem::Number(v.to_string())).collect();
    let config = settings(&[("background-color", ConfigValue::List(items))]);
    let defaults = settings(&[]);
    let merged = merge_configs(config, &settings(&[]), &defaults, NO_MODE);
    assert_eq!(merged, texts(&["brush", "--background-color", "1.0", "0.5", "0.25"]));
}

#[test]
fn test_wd_r_config_round_trip() {
    let original = || settings(&[("wd-r-gamma", number("0.028")), ("wd-r-warmup-iters", number("4200"))]);
    let defaults = settings(&[]);
    let args_str = config_to_args(&original(), &defaults).join(" ");
    assert!(args_str.contains("--wd-r-gamma 0.028"));
    assert!(args_str.contains("--wd-r-warmup-iters 4200"));
    let merged = merge_configs(original(), &settings(&[]), &defaults, NO_MODE);
    assert_eq!(merged, texts(&["brush", "--wd-r-gamma", "0.028", "--wd-r-warmup-iters", "4200"]));
}

#[test]
fn test_later_perceptual_mode_replaces_initial_mode() {
    let defaults = settings(&[]);
    let initial = settings(&[("total-train-iters", number("1234")), ("lpips-loss-weight", number("0.1"))]);
    let cli = settings(&[("wd-r-gamma", number("0.028"))]);
    let merged = merge_configs(initial, &cli, &defaults, PerceptualModes { wd_r: true, lpips: false });
    assert_eq!(merged, texts(&["brush", "--total-train-iters", "1234", "--wd-r-gamma", "0.028"]));

    let initial = settings(&[("total-train-iters", number("1234")), ("wd-r-gamma", number("0.028"))]);
    let cli = settings(&[("lpips-loss-weight", number("0.1"))]);
    let merged = merge_configs(initial, &cli, &defaults, PerceptualModes { wd_r: false, lpips: true });
    assert_eq!(merged, texts(&["brush", "--total-train-iters", "1234", "--lpips-loss-weight", "0.1"]));
}

#[test]
fn explicit_zero_disables_inherited_wd_r() {
    let defaults = settings(&[]);
    let merged = merge_configs_with_perceptual_overrides(
        settings(&[("wd-r-gamma", number("0.028"))]),
        &settings(&[]),
        &defaults,
        NO_MODE,
        PerceptualArgOverrides { wd_r_gamma: true, wd_r_warmup_iters: false, lpips_loss_weight: false },
    );
    assert_eq!(merged, texts(&["brush"]));
}

#[test]
fn explicit_default_resets_inherited_wd_r_warmup() {
    let defaults = settings(&[]);
    let merged = merge_configs_with_perceptual_overrides(
        settings(&[("wd-r-warmup-iters", number("5000"))]),
        &settings(&[]),
        &defaults,
        NO_MODE,
        PerceptualArgOverrides { wd_r_gamma: false, wd_r_warmup_iters: true, lpips_loss_weight: false },
    );
    assert_eq!(merged, texts(&["brush"]));
}

#[test]
fn arguments_by_kind_of_value() {
    let defaults = settings(&[]);
    let args = |key: &str, value: ConfigValue| config_to_args(&settings(&[(key, value)]), &defaults);
    assert_eq!(args("rerun-enabled", ConfigValue::Bool(true)), texts(&["--rerun-enabled"]));
    assert_eq!(args("export-name", ConfigValue::Text("a.ply".to_string())), texts(&["--export-name a.ply"]));
    assert_eq!(args("sh-degree", ConfigValue::Other("{}".to_string())), texts(&["--sh-degree {}"]));
    assert_eq!(args("sh-degree", ConfigValue::Null), texts(&[]));
    let mixed = ConfigValue::List(vec![
        ListItem::Text("a".to_string()),
        ListItem::Number("1".to_string()),
        ListItem::Other("true".to_string()),
    ]);
    assert_eq!(args("background-color", mixed), texts(&["--background-color a 1 true"]));
    let on = settings(&[("rerun-enabled", ConfigValue::Bool(true))]);
    assert_eq!(config_to_args(&defaults, &on), texts(&[]));
    assert_eq!(PerceptualArgOverrides::default(), PerceptualArgOverrides {
        wd_r_gamma: false,
        wd_r_warmup_iters: false,
        lpips_loss_weight: false,
    });
}

#[test]
fn args_files_are_split_at_white_space() {
    assert_eq!(split_args_str(" --a 1\n\t--b\u{2003}2 "), texts(&["--a", "1", "--b", "2"]));
    assert_eq!(args_file_tokens("--a 1"), Some(texts(&["brush", "--a", "1"])));
    assert_eq!(args_file_tokens(" \n"), None);
    assert!(has_args_file(&vec![None, Some("args.txt".to_string())]));
    assert!(!has_args_file(&vec![None, Some("Args.txt".to_string())]));
}

fn stream_config() -> TrainStreamConfig {
    TrainStreamConfig {
        train_config: TrainSchedule {
            refine_every: 200,
            lod_refine_steps: 5000,
            lod_decimation_keep: 50,
            lod_image_scale: 50,
        },
        process_config: ProcessConfig::default(),
        rerun_config: RerunConfig::default(),
    }
}

#[test]
fn rejects_programmatic_zero_cadences() {
    let mut config = stream_config();
    assert!(config.validate(Ok(()), Ok(())).is_ok());
    config.process_config.eval_every = 0;
    assert!(config.validate(Ok(()), Ok(())).is_err());

    config.process_config.eval_every = 1;
    config.train_config.lod_refine_steps = 0;
    assert!(config.validate(Ok(()), Ok(())).is_err());

    config.train_config.lod_refine_steps = 1;
    config.rerun_config.rerun_log_splats_every = Some(0);
    assert!(config.validate(Ok(()), Ok(())).is_err());
}

#[test]
fn settings_errors_name_the_setting() {
    let error = |change: fn(&mut TrainStreamConfig)| {
        let mut config = stream_config();
        change(&mut config);
        config.validate(Ok(()), Ok(())).unwrap_err()
    };
    assert_eq!(error(|c| c.train_config.refine_every = 0), "refine-every must be greater than zero");
    assert_eq!(error(|c| c.train_config.lod_refine_steps = 0), "lod-refine-steps must be greater than zero");
    assert_eq!(error(|c| c.process_config.eval_every = 0), "eval-every must be greater than zero");
    assert_eq!(error(|c| c.process_config.export_every = 0), "export-every must be greater than zero");
    assert_eq!(
        error(|c| c.rerun_config.rerun_log_train_stats_every = 0),
        "rerun-log-train-stats-every must be greater than zero"
    );
    assert_eq!(
        error(|c| c.rerun_config.rerun_log_distribution_every = 0),
        "rerun-log-distribution-every must be greater than zero"
    );
    assert_eq!(
        error(|c| c.rerun_config.rerun_log_splats_every = Some(0)),
        "rerun-log-splats-every must be greater than zero"
    );
    assert_eq!(error(|c| c.train_config.lod_decimation_keep = 101), "lod-decimation-keep must be between 1 and 100");
    assert_eq!(error(|c| c.train_config.lod_image_scale = 0), "lod-image-scale must be between 1 and 100");
    let load = Err("load".to_string());
    let train = Err("train".to_string());
    assert_eq!(stream_config().validate(load, train.clone()), Err("load".to_string()));
    assert_eq!(stream_config().validate(Ok(()), train), Err("train".to_string()));
}

#[test]
fn default_settings() {
    let p = ProcessConfig::default();
    assert_eq!((p.seed, p.start_iter, p.eval_every, p.export_every), (42, 0, 1000, 5000));
    assert_eq!((p.export_path.as_str(), p.export_name.as_str()), ("./{dataset}_exports/", "export_{iter}.ply"));
    assert!(!p.eval_save_to_disk);
    let r = RerunConfig::default();
    assert!(!r.rerun_enabled && r.rerun_log_splats_every.is_none());
    assert_eq!((r.rerun_log_train_stats_every, r.rerun_log_distribution_every, r.rerun_max_img_size), (50, 1000, 512));
}

#[test]
fn records_first_cadence_and_final_steps() {
    assert!(should_record(8, 7, 50, false));
    assert!(!should_record(49, 7, 50, false));
    assert!(should_record(50, 7, 50, false));
    assert!(should_record(73, 7, 50, true));
}

#[test]
fn serializes_non_finite_loss_as_null_with_status() {
    let (metrics, _) = TrainingMetrics::start("set", 0, 1, 50, 7, 9);
    let record = metrics.step_record(1, f32::NAN.to_bits(), 10, true);
    assert!(record.loss.is_none());
    assert_eq!(record.loss_status, "nan");
}

#[test]
fn losses_are_classified() {
    assert_eq!(finite_value(1.5f32.to_bits()), (Some(1.5f32.to_bits()), "finite"));
    assert_eq!(finite_value((-0.0f32).to_bits()), (Some((-0.0f32).to_bits()), "finite"));
    assert_eq!(finite_value(f32::INFINITY.to_bits()), (None, "positive_infinity"));
    assert_eq!(finite_value(f32::NEG_INFINITY.to_bits()), (None, "negative_infinity"));
    assert_eq!(finite_value((-f32::NAN).to_bits()), (None, "nan"));
}

#[test]
fn metrics_settings_and_records() {
    assert_eq!(metrics_every(None), 50);
    assert_eq!(metrics_every(Some("7")), 7);
    assert_eq!(metrics_every(Some("+7")), 7);
    for bad in ["0", "", "-1", " 7", "4294967296", "x"] {
        assert_eq!(metrics_every(Some(bad)), 50, "{bad}");
    }
    assert_eq!(metrics_every(Some("4294967295")), u32::MAX);
    assert_eq!(run_id(1_700_000_000_123, 42), "1700000000123-42");
    let (metrics, head) = TrainingMetrics::start("garden", 5, 100, 10, 12, 34);
    assert_eq!(head.run_id, "12-34");
    assert_eq!((head.schema_version, head.record_type, head.dataset.as_str()), (SCHEMA_VERSION, "run_start", "garden"));
    assert_eq!((head.start_iter, head.total_iters, head.metrics_every, head.started_unix_ms), (5, 100, 10, 12));
    assert!(metrics.should_record(6, false) && !metrics.should_record(7, false));
    let step = metrics.step_record(20, 0.25f32.to_bits(), 77, false);
    assert_eq!((step.run_id.as_str(), step.record_type, step.iter, step.total_iters), ("12-34", "train_step", 20, 100));
    assert_eq!((step.loss, step.loss_status, step.splats, step.final_step), (Some(0.25f32.to_bits()), "finite", 77, false));
}

fn source(paths: &[&str]) -> Vec<SourceFile> {
    paths
        .iter()
        .map(|p| {
            let path = std::path::Path::new(p);
            SourceFile {
                name: path.file_name().and_then(|s| s.to_str()).map(|s| s.to_string()),
                extension: path.extension().and_then(|s| s.to_str()).map(|s| s.to_string()),
            }
        })
        .collect()
}

#[test]
fn ancillary_files_do_not_turn_ply_animations_into_datasets() {
    assert!(!is_training_source(&source(&["000.ply", "001.ply", "README.txt"]), 2));
}

#[test]
fn ply_initialization_with_dataset_metadata_still_trains() {
    for paths in [
        vec!["init.ply", "transforms.json", "images/0001.png"],
        vec!["init.ply", "cameras.bin", "images/0001.jpg"],
        vec!["init.ply", "cameras.csv", "images/0001.tif"],
    ] {
        assert!(is_training_source(&source(&paths), 1));
    }
}

#[test]
fn sources_without_splats_are_trained_on() {
    assert!(is_training_source(&source(&["a.txt"]), 0));
    assert!(!is_training_source(&source(&["init.ply", "transforms.json"]), 1));
    assert!(!is_training_source(&source(&["init.ply", "images/1.png"]), 1));
}

#[test]
fn sources_are_named() {
    let name = |s: &str| Some(s.to_string());
    assert_eq!(source_name(SourceLabel::Base(name("garden")), true), "garden");
    assert_eq!(source_name(SourceLabel::Base(None), true), "dataset");
    assert_eq!(source_name(SourceLabel::Base(None), false), "file");
    assert_eq!(source_name(SourceLabel::Single(name("a.ply")), false), "a.ply");
    assert_eq!(source_name(SourceLabel::Single(None), false), "input.ply");
    assert_eq!(source_name(SourceLabel::Several(12), false), "12 files");
}

#[test]
fn frames_are_ordered_by_number() {
    assert_eq!(order_frames(texts(&["shot-2", "shot-1", "shot-11"])), texts(&["shot-1", "shot-2", "shot-11"]));
    assert_eq!(order_frames(texts(&[])), texts(&[]));
}

#[test]
fn a_splat_source_shows_its_frames_in_order() {
    let mut phase = Phase::Opening;
    let mut event = Event::Mounted { file_count: 2, training: false, ply_count: 2 };
    let mut opened = Vec::new();
    let mut handed = Vec::new();
    let mut messages = 0;
    loop {
        let (next, action) = advance(phase, event);
        phase = next;
        event = match action {
            Action::OpenFrame { frame } => {
                opened.push(frame);
                messages = 0;
                Event::Done
            }
            Action::ReadMessage => {
                messages += 1;
                if messages <= 2 { Event::Message } else { Event::EndOfFile }
            }
            Action::HandOut { frame, clear, total_frames } => {
                handed.push((frame, clear, total_frames));
                Event::Done
            }
            Action::Stop => break,
            Action::StopFailed | Action::StopEmpty | Action::AskForSettings | Action::Train => {
                panic!("unexpected action")
            }
            _ => Event::Done,
        };
    }
    assert_eq!(opened, [0, 1]);
    assert_eq!(handed, [(0, true, 2), (0, true, 2), (1, false, 2), (1, false, 2)]);
    assert!(matches!(phase, Phase::Finished));
}

#[test]
fn a_training_source_asks_for_settings() {
    let (phase, action) = advance(Phase::Opening, Event::Mounted { file_count: 3, training: true, ply_count: 1 });
    assert!(matches!(action, Action::ReadSettings));
    let (phase, action) = advance(phase, Event::Done);
    assert!(matches!(action, Action::AnnounceSource));
    let (phase, action) = advance(phase, Event::Done);
    assert!(matches!(action, Action::AskForSettings));
    assert!(matches!(advance(phase, Event::Settings { given: true }), (Phase::Training, Action::Train)));
    let (phase, _) = advance(Phase::Configuring, Event::Settings { given: false });
    assert!(matches!(phase, Phase::Finished));
    let empty = advance(Phase::Opening, Event::Mounted { file_count: 0, training: false, ply_count: 0 });
    assert!(matches!(empty, (Phase::Finished, Action::StopEmpty)));
    assert!(matches!(advance(Phase::Training, Event::Failed), (Phase::Finished, Action::StopFailed)));
}

#[test]
fn log_series_are_named() {
    let names = series_names(2);
    assert_eq!(names.len(), 4 + 4 + 17);
    assert_eq!((names[0].path.as_str(), names[0].name.as_str()), ("loss/total", "Loss"));
    assert_eq!((names[4].path.as_str(), names[4].name.as_str()), ("psnr/per_view/0", "View 0"));
    assert_eq!((names[7].path.as_str(), names[7].name.as_str()), ("ssim/per_view/1", "View 1"));
    assert_eq!(names[24].path, "refine/duration_ms");
}

#[test]
fn eval_views_are_grouped() {
    assert!(matches!(eval_panel(0), EvalPanel::Absent));
    match eval_panel(3) {
        EvalPanel::Group(g) => assert_eq!((g.start, g.end), (0, 3)),
        _ => panic!("one group expected"),
    }
    match eval_panel(9) {
        EvalPanel::Tabs(_, groups) => {
            let ranges: Vec<(u32, u32)> = groups.iter().map(|g| (g.start, g.end)).collect();
            assert_eq!(ranges, [(0, 4), (4, 8), (8, 9)]);
        }
        _ => panic!("tabs expected"),
    }
    let paths = eval_paths(7);
    assert_eq!(paths.render, "eval/view_7/render");
    assert_eq!(paths.ground_truth, "eval/view_7/ground_truth");
    assert_eq!((paths.psnr.as_str(), paths.ssim.as_str()), ("psnr/per_view/7", "ssim/per_view/7"));
}

#[test]
fn ground_truth_is_logged_once() {
    let mut log = GroundTruthLog::new();
    assert!(log.insert(3));
    assert!(log.insert(4));
    assert!(!log.insert(3));
}

#[test]
fn large_images_are_resized() {
    assert!(needs_resize(600, 10, 512));
    assert!(needs_resize(10, 600, 512));
    assert!(!needs_resize(512, 512, 512));
    assert!(!needs_resize(9000, 9000, 0));
}

#[test]
fn distributions_of_finite_values() {
    let bits = |v: &[f32]| -> Vec<u32> { v.iter().map(|x| x.to_bits()).collect() };
    let sorted = sort_finite(&bits(&[3.0, f32::NAN, -1.0, f32::INFINITY, 0.5]));
    assert_eq!(sorted, bits(&[-1.0, 0.5, 3.0]));
    assert_eq!(at_or_last(&sorted, 1), 0.5f32.to_bits());
    assert_eq!(at_or_last(&sorted, 9), 3.0f32.to_bits());
    assert_eq!(at_or_last(&vec![], 9), 0);
    assert_eq!(count_above(&sorted, 0.5f32.to_bits()), 1);
    assert_eq!(count_under(&sorted, 3.0f32.to_bits()), 2);
    assert_eq!(f32::from_bits(MIN_SCALE_BITS), 1e-30);
    let scales = ordered_scales(2.0f32.to_bits(), 0.0f32.to_bits(), 1.0f32.to_bits());
    assert_eq!(scales, (MIN_SCALE_BITS, 1.0f32.to_bits(), 2.0f32.to_bits()));
}

#[test]
fn builds_are_named() {
    assert_eq!(build_id(Some("r7"), Some("abc"), true), "r7");
    assert_eq!(build_id(Some("  "), Some("abc"), true), "abc-dirty");
    assert_eq!(build_id(None, Some("abc"), false), "abc");
    assert_eq!(build_id(None, None, true), "unknown");
    assert_eq!(command_fact(true, " abc\n"), Some("abc".to_string()));
    assert_eq!(command_fact(true, " \n"), None);
    assert_eq!(command_fact(false, "abc"), None);
    assert_eq!(version_text("0.3.0", "abc"), "0.3.0 (abc)");
}

#[test]
fn numbers_of_the_log_have_places() {
    let refine = RefineStats {
        num_added: 3,
        num_split_oversized: 1,
        num_split_high_grad: 2,
        num_pruned: 10,
        num_pruned_non_finite: 4,
    };
    let entries = refine_entries(refine, 1.5f64);
    assert_eq!(entries.len(), 7);
    assert_eq!(entries[5].path, "refine/effective_growth");
    assert!(matches!(entries[5].value, LogValue::Whole(-7)));
    assert!(matches!(entries[6].value, LogValue::Measured(v) if v == 1.5));
    let memory: Vec<LogEntry<f64>> = memory_entries(u64::MAX, 2, 3);
    assert_eq!(memory[0].path, "memory/used");
    assert!(matches!(memory[0].value, LogValue::Whole(n) if n == i128::from(u64::MAX)));
    let stats = TrainStats {
        loss: 1.0,
        step_ms: 2.0,
        lr_mean: 3.0,
        lr_rotation: 4.0,
        lr_scale: 5.0,
        lr_coeffs: 6.0,
        lr_opac: 7.0,
        num_visible: 8,
    };
    let train = train_entries(stats);
    assert_eq!(train[5].path, "lr/coeffs");
    assert!(matches!(train[5].value, LogValue::Measured(v) if v == 6.0));
    assert!(matches!(train[7].value, LogValue::Whole(8)));
    let splats: Vec<LogEntry<f64>> = splat_entries(12);
    assert_eq!(splats[0].path, "splats/num_splats");
    assert_eq!(eval_entries(1.0, 2.0)[1].path, "ssim/eval");
    assert_eq!(view_entries(4, 1.0, 2.0)[0].path, "psnr/per_view/4");
    assert_eq!(camera_path(11), "world/dataset/camera/11");
}

#[test]
fn graphs_stand_under_the_views() {
    let a = default_blueprint(9);
    match &a.views {
        EvalPanel::Tabs(name, groups) => {
            assert_eq!((name.as_str(), groups.len()), ("Eval views", 3));
            assert_eq!((groups[1].columns, groups[1].cells.len()), (Some(2), 4));
            let cell = &groups[1].cells[1];
            assert_eq!(cell.label, "view 5");
            assert_eq!(cell.ground_truth.name, "Ground truth");
            assert_eq!(cell.ground_truth.origin, "eval/view_5/ground_truth");
            assert_eq!(cell.render.origin, "eval/view_5/render");
            assert_eq!(cell.render.contents, "$origin/**");
            assert_eq!((groups[2].columns, groups[2].label.as_str()), (None, "view 8"));
        }
        _ => panic!("nine views need tabs"),
    }
    let scene = (&a.scene.name, &a.scene.origin, &a.scene.contents);
    assert_eq!(scene, (&"Scene".to_string(), &"world".to_string(), &"world/**".to_string()));
    assert_eq!((a.column_shares, a.row_shares), (Some((3, 1)), (3, 2)));
    assert_eq!(a.graphs.len(), 5);
    match &a.graphs[0] {
        GraphCell::Tabs(name, graphs) => {
            assert_eq!(name, "Quality");
            assert_eq!(graphs.len(), 5);
            assert_eq!(graphs[1].contents, vec!["psnr/per_view/**"]);
        }
        GraphCell::Single(_) => panic!("quality is a row of tabs"),
    }
    match &a.graphs[2] {
        GraphCell::Single(graph) => assert_eq!(graph.contents.len(), 5),
        GraphCell::Tabs(..) => panic!("refinements are one graph"),
    }
    assert_eq!(default_blueprint(0).column_shares, None);
}
