use pagegen::render::{extract_body, extract_title, render_page};
use pagegen::text::replace;

const LAYOUT: &str = "<html><head>{{title}}</head><body>{{body}}</body></html>";

#[test]
fn scenario_home_page() {
    let page = render_page("Home\nWelcome to my site.", LAYOUT);
    assert_eq!(page, "<html><head>Home</head><body>Welcome to my site.</body></html>");
}

#[test]
fn scenario_single_line_fragment() {
    let f = "OnlyTitleNoBody";
    assert_eq!(extract_title(f), "Untitled");
    assert_eq!(extract_body(f), "");
    assert_eq!(render_page(f, LAYOUT), "<html><head>Untitled</head><body></body></html>");
}

#[test]
fn empty_fragment_is_untitled_and_empty() {
    assert_eq!(extract_title(""), "Untitled");
    assert_eq!(extract_body(""), "");
}

#[test]
fn title_is_trimmed_first_line() {
    let f = "  \t My Title \u{3000}\nline one\nline two";
    assert_eq!(extract_title(f), "My Title");
    assert_eq!(extract_body(f), "line one\nline two");
}

#[test]
fn title_line_with_crlf() {
    let f = "Title\r\nfirst\r\nsecond\r\n";
    assert_eq!(extract_title(f), "Title");
    assert_eq!(extract_body(f), "first\nsecond");
}

#[test]
fn body_drops_final_line_ending_only() {
    assert_eq!(extract_body("T\nA\n\nB\n"), "A\n\nB");
    assert_eq!(extract_body("T\n"), "");
    assert_eq!(extract_title("T\n"), "T");
    assert_eq!(extract_body("T\n\n"), "");
    assert_eq!(extract_body("T\n\n\n"), "\n");
}

#[test]
fn lone_carriage_return_stays_in_line() {
    assert_eq!(extract_body("T\na\rb\nc\r"), "a\rb\nc\r");
}

#[test]
fn blank_first_line_gives_empty_title() {
    assert_eq!(extract_title("\nbody"), "");
    assert_eq!(extract_body("\nbody"), "body");
}

#[test]
fn every_placeholder_is_replaced() {
    let layout = "{{title}}|{{body}}|{{title}}|{{body}}";
    assert_eq!(render_page("T\nB", layout), "T|B|T|B");
}

#[test]
fn layout_without_placeholders_is_unchanged() {
    let layout = "<p>{{ title }} {title} {{Title}}</p>";
    assert_eq!(render_page("T\nB", layout), layout);
}

#[test]
fn body_placeholder_in_title_is_substituted_later() {
    assert_eq!(render_page("{{body}}\nX", "[{{title}}]"), "[X]");
}

#[test]
fn title_placeholder_in_body_is_not_substituted() {
    assert_eq!(render_page("T\n{{title}}", "{{title}}:{{body}}"), "T:{{title}}");
}

#[test]
fn replace_scans_left_to_right_without_overlap() {
    assert_eq!(replace("aaaa", "aa", "b"), "bb");
    assert_eq!(replace("aaa", "aa", "b"), "ba");
    assert_eq!(replace("xyz", "q", "r"), "xyz");
    assert_eq!(replace("", "q", "r"), "");
    assert_eq!(replace("héé", "é", "e"), "hee");
}
