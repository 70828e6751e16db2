use pagegen::engine::TemplateEngine;
use pagegen::pass::{has_html_extension, Action, EntryInfo, Event, PageError, Pass};

const LAYOUT: &str = "<h1>{{title}}</h1>{{body}}";

struct FakeEntry {
    name: &'static str,
    name_is_text: bool,
    is_file: bool,
    content: Option<&'static str>,
}

fn file(name: &'static str, content: &'static str) -> FakeEntry {
    FakeEntry { name, name_is_text: true, is_file: true, content: Some(content) }
}

/// Runs a pass against a source directory made of `entries`, with the
/// destination creatable when `dest_ok` and the source openable when
/// `source_ok`; returns the pages written and the outcome.
fn run(
    entries: &[FakeEntry],
    dest_ok: bool,
    source_ok: bool,
) -> (Vec<(String, String)>, Result<(), PageError>) {
    let engine = TemplateEngine::new("templates", "pages", LAYOUT.to_string());
    let mut pass: Pass = engine.start_pass();
    let mut written = Vec::new();
    let mut next = 0;
    let mut current: Option<usize> = None;
    let mut steps = 0;
    while !pass.is_finished() {
        steps += 1;
        assert!(steps < 1000);
        let ev = match pass.action() {
            Action::CreatePagesDir => {
                if dest_ok {
                    Event::Completed
                } else {
                    Event::Failed("cannot create".to_string())
                }
            }
            Action::OpenTemplatesDir => {
                if source_ok {
                    Event::Completed
                } else {
                    Event::Failed("no such directory".to_string())
                }
            }
            Action::FetchEntry => {
                if next < entries.len() {
                    let e = &entries[next];
                    current = Some(next);
                    next += 1;
                    Event::Entry(EntryInfo {
                        name: e.name.to_string(),
                        name_is_text: e.name_is_text,
                        is_file: e.is_file,
                    })
                } else {
                    Event::NoMoreEntries
                }
            }
            Action::ReadFragment(name) => {
                let e = &entries[current.unwrap()];
                assert_eq!(name, e.name);
                match e.content {
                    Some(c) => Event::Content(c.to_string()),
                    None => Event::Failed("permission denied".to_string()),
                }
            }
            Action::WritePage(name, page) => {
                written.push((name, page));
                Event::Completed
            }
            Action::Finish => unreachable!(),
        };
        pass.handle(ev);
    }
    assert!(matches!(pass.action(), Action::Finish));
    (written, pass.outcome())
}

#[test]
fn scenario_empty_source_directory() {
    let (written, result) = run(&[], true, true);
    assert!(written.is_empty());
    assert!(result.is_ok());
}

#[test]
fn scenario_missing_source_directory() {
    let (written, result) = run(&[file("a.html", "A\nB")], true, false);
    assert!(written.is_empty());
    match result {
        Err(PageError::Io(m)) => assert_eq!(m, "no such directory"),
        _ => panic!("expected an I/O error"),
    }
}

#[test]
fn destination_failure_fails_pass() {
    let (written, result) = run(&[file("a.html", "A\nB")], false, true);
    assert!(written.is_empty());
    assert!(matches!(result, Err(PageError::Io(_))));
}

#[test]
fn scenario_unreadable_fragment_first() {
    let bad = FakeEntry { name: "bad.html", name_is_text: true, is_file: true, content: None };
    let (written, result) = run(&[bad, file("good.html", "Good\nok")], true, true);
    assert!(written.is_empty());
    match result {
        Err(PageError::Io(m)) => assert_eq!(m, "permission denied"),
        _ => panic!("expected an I/O error"),
    }
}

#[test]
fn scenario_unreadable_fragment_last() {
    let bad = FakeEntry { name: "bad.html", name_is_text: true, is_file: true, content: None };
    let (written, result) = run(&[file("good.html", "Good\nok"), bad], true, true);
    assert_eq!(written, vec![("good.html".to_string(), "<h1>Good</h1>ok".to_string())]);
    assert!(matches!(result, Err(PageError::Io(_))));
}

#[test]
fn other_files_and_directories_are_skipped() {
    let entries = [
        file("notes.txt", "N\nn"),
        file("page.HTML", "P\np"),
        file(".html", "H\nh"),
        FakeEntry { name: "sub.html", name_is_text: true, is_file: false, content: None },
        file("index.html", "Index\nHello"),
        file("x.html.bak", "X\nx"),
    ];
    let (written, result) = run(&entries, true, true);
    assert!(result.is_ok());
    assert_eq!(written, vec![("index.html".to_string(), "<h1>Index</h1>Hello".to_string())]);
}

#[test]
fn fragment_name_not_text_is_io_error() {
    let odd = FakeEntry { name: "b\u{fffd}d.html", name_is_text: false, is_file: true, content: Some("T\nb") };
    let (written, result) = run(&[odd], true, true);
    assert!(written.is_empty());
    match result {
        Err(PageError::Io(m)) => assert_eq!(m, "file name is not valid text: b\u{fffd}d.html"),
        _ => panic!("expected an I/O error"),
    }
}

#[test]
fn non_fragment_name_not_text_is_skipped() {
    let odd = FakeEntry { name: "b\u{fffd}d.txt", name_is_text: false, is_file: true, content: None };
    let (written, result) = run(&[odd], true, true);
    assert!(written.is_empty());
    assert!(result.is_ok());
}

#[test]
fn two_passes_write_the_same_pages() {
    let entries = [file("a.html", "A\nalpha"), file("b.html", "B"), file("c.css", "x")];
    let first = run(&entries, true, true);
    let second = run(&entries, true, true);
    assert!(first.1.is_ok() && second.1.is_ok());
    assert_eq!(first.0, second.0);
    assert_eq!(first.0.len(), 2);
    assert_eq!(first.0[1], ("b.html".to_string(), "<h1>Untitled</h1>".to_string()));
}

#[test]
fn unexpected_event_leaves_pass_unchanged() {
    let mut pass = Pass::new(LAYOUT);
    pass.handle(Event::NoMoreEntries);
    assert!(matches!(pass.action(), Action::CreatePagesDir));
    pass.handle(Event::Completed);
    assert!(matches!(pass.action(), Action::OpenTemplatesDir));
}

#[test]
fn finished_pass_ignores_events() {
    let mut pass = Pass::new(LAYOUT);
    pass.handle(Event::Failed("boom".to_string()));
    assert!(pass.is_finished());
    pass.handle(Event::Completed);
    assert!(pass.is_finished());
    assert!(matches!(pass.outcome(), Err(PageError::Io(_))));
}

#[test]
fn html_extension_rule() {
    assert!(has_html_extension("a.html"));
    assert!(has_html_extension("a.b.html"));
    assert!(has_html_extension("..html"));
    assert!(!has_html_extension(".html"));
    assert!(!has_html_extension("html"));
    assert!(!has_html_extension("a.HTML"));
    assert!(!has_html_extension("a.htm"));
    assert!(!has_html_extension(""));
}

#[test]
fn destination_is_created_before_source_is_listed() {
    let mut pass = Pass::new(LAYOUT);
    assert!(matches!(pass.action(), Action::CreatePagesDir));
    pass.handle(Event::Completed);
    assert!(matches!(pass.action(), Action::OpenTemplatesDir));
    pass.handle(Event::Failed("missing".to_string()));
    assert!(pass.is_finished());
    assert!(matches!(pass.action(), Action::Finish));
    assert!(matches!(pass.outcome(), Err(PageError::Io(_))));
}
