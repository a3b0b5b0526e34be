use argtuner::project::{PsoSamplerConfig, SuccessiveHalvingSchedulerConfig};
use argtuner::checkpoint::StopFlag;
use argtuner::project::{format_injected_env, Project};
use argtuner::text::{parse_bool, parse_usize, trim_string};

#[test]
fn stop_flag_default_is_false() {
    let flag = StopFlag::new();
    assert!(!flag.is_set());
}

#[test]
fn injected_env_lists_trial_id_and_dir() {
    assert_eq!(
        format_injected_env(3, "/tmp/art/trial_3"),
        "ARGTUNER_TRIAL_ID=3 ARGTUNER_TRIAL_DIR=/tmp/art/trial_3"
    );
}

#[test]
fn project_paths_sit_under_the_root() {
    let project = Project::new("proj");
    assert_eq!(project.root(), "proj");
    let join = |name: &str| std::path::Path::new("proj").join(name).to_string_lossy().to_string();
    assert_eq!(project.unified_config_path(), join("argtuner.toml"));
    assert_eq!(project.trials_path(), join("trials.csv"));
    assert_eq!(project.trials_db_path(), join("trials.sqlite"));
    assert_eq!(project.artifacts_dir(), join("artifacts"));
}

#[test]
fn text_parsing_matches_std() {
    for s in ["0", "42", "+7", "", "-1", "18446744073709551616", "1a", " 1"] {
        assert_eq!(parse_usize(s), s.parse::<usize>().ok(), "{s:?}");
    }
    for s in ["true", "false", "True", ""] {
        assert_eq!(parse_bool(s), s.parse::<bool>().ok(), "{s:?}");
    }
    for s in ["  a b \t", "", "\u{3000}x\u{85}", "x"] {
        assert_eq!(trim_string(s), s.trim(), "{s:?}");
    }
}

#[test]
fn config_defaults() {
    assert!(SuccessiveHalvingSchedulerConfig::default().is_default());
    assert!(PsoSamplerConfig::default().is_default());
    let mut sh = SuccessiveHalvingSchedulerConfig::default();
    sh.eta = 2;
    assert!(!sh.is_default());
    assert_eq!(argtuner::project::Goal::Max.as_str(), "max");
}
