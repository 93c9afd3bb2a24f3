use context_rs::trace::created_note;
use context_rs::trace::found_note;
use context_rs::trace::modified_note;
use context_rs::trace::strip_rs;

#[test]
fn strip_rs_takes_the_extension_off() {
    assert_eq!(strip_rs("scanner.rs"), "scanner");
    assert_eq!(strip_rs("mod.rs"), "mod");
}

#[test]
fn strip_rs_takes_out_every_occurrence() {
    assert_eq!(strip_rs("a.rs.rs"), "a");
    assert_eq!(strip_rs("x.rsx"), "xx");
    assert_eq!(strip_rs(".rs"), "");
    assert_eq!(strip_rs("..rs"), ".");
    assert_eq!(strip_rs(".r.rss"), ".rs");
}

#[test]
fn strip_rs_leaves_other_text_alone() {
    assert_eq!(strip_rs(""), "");
    assert_eq!(strip_rs(".r"), ".r");
    assert_eq!(strip_rs("rs"), "rs");
    assert_eq!(strip_rs("größe.txt"), "größe.txt");
}

#[test]
fn strip_rs_agrees_with_replace() {
    for s in ["", ".", ".r", ".rs", "a.rs", ".rs.rs", ".r.rss", "..rsrs", "é.rsé", "x.RS", "a.rsb.rsc"] {
        assert_eq!(strip_rs(s), s.replace(".rs", ""));
    }
}

#[test]
fn note_for_a_changed_seed() {
    assert_eq!(modified_note("src/main.rs"), "User actively modified <b>src/main.rs</b>.");
}

#[test]
fn note_for_a_created_seed() {
    assert_eq!(created_note("src/new.rs"), "User created new file <b>src/new.rs</b>.");
}

#[test]
fn note_for_a_found_dependency() {
    assert_eq!(
        found_note("src/scanner.rs", "src/main.rs"),
        "Compiler found dependency <code>mod scanner</code> inside <b>main.rs</b>."
    );
    assert_eq!(
        found_note("src/utils/mod.rs", "src/scanner.rs"),
        "Compiler found dependency <code>mod mod</code> inside <b>scanner.rs</b>."
    );
}
