use factory::config::TomlConfig;
use factory::ExecConfig;

fn text(s: &str) -> String {
    String::from(s)
}

fn full() -> ExecConfig {
    ExecConfig {
        root_dir: Some(text("/left")),
        config: Some(text("left.py")),
        threads: Some(2),
        refresh: false,
        quiet: true,
        transparent: false,
        plan_dot: Some(text("left-plan.dot")),
        stats_dot: Some(text("left-stats.dot")),
        target: Some(text("left")),
    }
}

fn other() -> ExecConfig {
    ExecConfig {
        root_dir: Some(text("/right")),
        config: Some(text("right.py")),
        threads: Some(8),
        refresh: true,
        quiet: false,
        transparent: false,
        plan_dot: Some(text("right-plan.dot")),
        stats_dot: Some(text("right-stats.dot")),
        target: Some(text("right")),
    }
}

#[test]
fn default_sets_nothing() {
    let c = ExecConfig::default();
    assert_eq!(c.root_dir, None);
    assert_eq!(c.config, None);
    assert_eq!(c.threads, None);
    assert!(!c.refresh);
    assert!(!c.quiet);
    assert!(!c.transparent);
    assert_eq!(c.plan_dot, None);
    assert_eq!(c.stats_dot, None);
    assert_eq!(c.target, None);
}

#[test]
fn merge_prefers_what_the_left_side_sets() {
    let both = full().merge(other());
    assert_eq!(both.root_dir, Some(text("/left")));
    assert_eq!(both.config, Some(text("left.py")));
    assert_eq!(both.threads, Some(2));
    assert_eq!(both.plan_dot, Some(text("left-plan.dot")));
    assert_eq!(both.stats_dot, Some(text("left-stats.dot")));
    assert_eq!(both.target, Some(text("left")));
}

#[test]
fn merge_fills_in_from_the_right_side() {
    let both = ExecConfig::default().merge(other());
    assert_eq!(both.root_dir, Some(text("/right")));
    assert_eq!(both.config, Some(text("right.py")));
    assert_eq!(both.threads, Some(8));
    assert_eq!(both.plan_dot, Some(text("right-plan.dot")));
    assert_eq!(both.stats_dot, Some(text("right-stats.dot")));
    assert_eq!(both.target, Some(text("right")));
}

#[test]
fn merge_turns_a_switch_on_where_either_side_has_it_on() {
    let both = full().merge(other());
    assert!(both.refresh);
    assert!(both.quiet);
    assert!(!both.transparent);
    let none = ExecConfig::default().merge(ExecConfig::default());
    assert!(!none.refresh);
    assert!(!none.quiet);
    assert!(!none.transparent);
    assert_eq!(none.target, None);
}

#[test]
fn root_dir_and_python_give_the_fields() {
    let c = full();
    assert_eq!(c.root_dir(), "/left");
    assert_eq!(c.python(), "left.py");
}

#[test]
fn with_root_dir_keeps_a_given_directory() {
    let kept = full().with_root_dir(text("/fallback"));
    assert_eq!(kept.root_dir, Some(text("/left")));
    assert_eq!(kept.target, Some(text("left")));
    let filled = ExecConfig::default().with_root_dir(text("/fallback"));
    assert_eq!(filled.root_dir, Some(text("/fallback")));
    assert_eq!(filled.threads, None);
}

#[test]
fn threads_is_the_chosen_number() {
    assert_eq!(full().threads(), 2);
    assert_eq!(full().threads_or(16), 2);
}

#[test]
fn threads_defaults_to_the_detected_number() {
    assert_eq!(ExecConfig::default().threads_or(16), 16);
    assert!(ExecConfig::default().threads() >= 1);
}

#[test]
fn project_file_options() {
    let c = TomlConfig {
        root_dir: Some(text("/project")),
        config: text("config.py"),
        default_target: None,
        threads: Some(3),
        stats_dot: None,
    };
    assert_eq!(c.root_dir(), "/project");
    assert_eq!(c.threads(), 3);
    let unset = TomlConfig {
        root_dir: None,
        config: text("config.py"),
        default_target: Some(text("all")),
        threads: None,
        stats_dot: None,
    };
    assert!(unset.threads() >= 1);
}
