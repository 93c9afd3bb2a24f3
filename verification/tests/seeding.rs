use context_rs::seeds::blank;
use context_rs::seeds::changed_seeds;
use context_rs::seeds::lines_of;
use context_rs::seeds::untracked_seeds;

fn strings(items: &[&str]) -> Vec<String> {
    items.iter().map(|s| s.to_string()).collect()
}

#[test]
fn lines_end_at_line_feeds() {
    assert_eq!(lines_of("src/main.rs\nsrc/a.rs\n"), strings(&["src/main.rs", "src/a.rs"]));
    assert_eq!(lines_of("one\ntwo"), strings(&["one", "two"]));
    assert_eq!(lines_of("only"), strings(&["only"]));
}

#[test]
fn a_text_without_characters_has_no_lines() {
    assert_eq!(lines_of(""), strings(&[]));
}

#[test]
fn empty_lines_are_lines() {
    assert_eq!(lines_of("\n"), strings(&[""]));
    assert_eq!(lines_of("a\n\nb\n"), strings(&["a", "", "b"]));
    assert_eq!(lines_of("\n\n"), strings(&["", ""]));
}

#[test]
fn a_carriage_return_before_a_line_feed_belongs_to_the_ending() {
    assert_eq!(lines_of("a\r\nb\r\n"), strings(&["a", "b"]));
    assert_eq!(lines_of("a\r\r\nb"), strings(&["a\r", "b"]));
    assert_eq!(lines_of("\r\n"), strings(&[""]));
}

#[test]
fn a_carriage_return_elsewhere_stays() {
    assert_eq!(lines_of("a\rb\n"), strings(&["a\rb"]));
    assert_eq!(lines_of("a\r"), strings(&["a\r"]));
    assert_eq!(lines_of("a\nb\r"), strings(&["a", "b\r"]));
}

#[test]
fn lines_agree_with_str_lines() {
    for s in ["", "\n", "a", "a\n", "a\nb", "a\r\nb", "\r", "\r\n\r\n", "x\n\ny\r", "é\nü\r\n日本"] {
        let expected: Vec<String> = s.lines().map(|l| l.to_string()).collect();
        assert_eq!(lines_of(s), expected);
    }
}

#[test]
fn blank_means_nothing_but_white_space() {
    assert!(blank(""));
    assert!(blank(" \t\r\n"));
    assert!(blank("\u{a0}\u{2003}\u{3000}"));
    assert!(!blank("a"));
    assert!(!blank("  a  "));
    assert!(!blank("\u{200b}"));
}

#[test]
fn blank_agrees_with_trim() {
    let mut c = 0u32;
    while c <= 0x3100 {
        if let Some(ch) = char::from_u32(c) {
            let s = ch.to_string();
            assert_eq!(blank(&s), s.trim().is_empty());
        }
        c += 1;
    }
}

#[test]
fn changed_files_are_every_line_of_the_listing() {
    assert_eq!(
        changed_seeds("src/main.rs\nsrc/scanner.rs\n"),
        Some(strings(&["src/main.rs", "src/scanner.rs"]))
    );
    assert_eq!(changed_seeds("a.rs\n\nb.rs\n"), Some(strings(&["a.rs", "", "b.rs"])));
}

#[test]
fn a_blank_listing_names_no_changed_files() {
    assert_eq!(changed_seeds(""), None);
    assert_eq!(changed_seeds("\n"), None);
    assert_eq!(changed_seeds("  \n\t\n"), None);
}

#[test]
fn untracked_files_are_the_lines_that_are_not_blank() {
    assert_eq!(untracked_seeds("new.rs\n\n  \nsrc/other.rs\n"), strings(&["new.rs", "src/other.rs"]));
    assert_eq!(untracked_seeds(""), strings(&[]));
    assert_eq!(untracked_seeds("\n\n"), strings(&[]));
    assert_eq!(untracked_seeds(" a.rs \n"), strings(&[" a.rs "]));
}
