use pagegen::engine::{Config, TemplateEngine};
use pagegen::pass::PageError;

fn args(v: &[&str]) -> Vec<String> {
    v.iter().map(|s| s.to_string()).collect()
}

#[test]
fn three_paths_without_watch() {
    let c = Config::from_args(&args(&["prog", "t", "p", "base.html"])).ok().unwrap();
    assert_eq!(c.templates_dir, "t");
    assert_eq!(c.pages_dir, "p");
    assert_eq!(c.base_template_path, "base.html");
    assert!(!c.watch);
}

#[test]
fn watch_flag_turns_watch_on() {
    let c = Config::from_args(&args(&["prog", "t", "p", "b", "-w"])).ok().unwrap();
    assert!(c.watch);
}

#[test]
fn other_fourth_argument_is_not_watch() {
    let c = Config::from_args(&args(&["prog", "t", "p", "b", "--watch"])).ok().unwrap();
    assert!(!c.watch);
}

#[test]
fn wrong_argument_counts_are_config_errors() {
    assert!(matches!(Config::from_args(&args(&["prog", "t", "p"])), Err(PageError::Config)));
    assert!(matches!(Config::from_args(&args(&["prog"])), Err(PageError::Config)));
    assert!(matches!(
        Config::from_args(&args(&["prog", "t", "p", "b", "-w", "x"])),
        Err(PageError::Config)
    ));
}

#[test]
fn engine_keeps_its_settings() {
    let e = TemplateEngine::new("src", "out", "[{{title}}]{{body}}".to_string());
    assert_eq!(e.templates_dir(), "src");
    assert_eq!(e.pages_dir(), "out");
    assert_eq!(e.base_template(), "[{{title}}]{{body}}");
    assert_eq!(e.render_page("Hi\nthere\nyou"), "[Hi]there\nyou");
}
