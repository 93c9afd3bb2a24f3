use context_rs::scanner::candidates_of;
use context_rs::scanner::dependency_candidates;
use context_rs::scanner::existing;
use context_rs::scanner::find_dependencies;
use context_rs::scanner::SourceItem;
use context_rs::tree::SourceTree;

fn strings(items: &[&str]) -> Vec<String> {
    items.iter().map(|s| s.to_string()).collect()
}

#[test]
fn each_module_gives_a_sibling_and_a_nested_candidate() {
    let r = dependency_candidates("src/main.rs", "mod scanner;\nmod rag;\n\nfn main() {}\n");
    assert_eq!(
        r,
        strings(&["src/scanner.rs", "src/scanner/mod.rs", "src/rag.rs", "src/rag/mod.rs"])
    );
}

#[test]
fn a_text_without_modules_has_no_candidates() {
    assert_eq!(dependency_candidates("main.rs", "use std::fmt;\nfn main() {}\n"), strings(&[]));
    assert_eq!(dependency_candidates("main.rs", ""), strings(&[]));
}

#[test]
fn a_text_that_does_not_parse_has_no_candidates() {
    assert_eq!(dependency_candidates("main.rs", "mod scanner;\nfn main( {"), strings(&[]));
    assert_eq!(dependency_candidates("main.rs", "mod ;"), strings(&[]));
    assert_eq!(dependency_candidates("main.rs", "this is not rust"), strings(&[]));
}

#[test]
fn only_top_level_modules_count() {
    let text = "mod outer { mod inner; }\nfn f() { mod local; }\n";
    assert_eq!(dependency_candidates("lib.rs", text), strings(&["outer.rs", "outer/mod.rs"]));
}

#[test]
fn visibility_and_attributes_do_not_matter() {
    let text = "pub mod a;\n#[cfg(test)]\nmod tests;\npub(crate) mod b;\n";
    assert_eq!(
        dependency_candidates("x/lib.rs", text),
        strings(&["x/a.rs", "x/a/mod.rs", "x/tests.rs", "x/tests/mod.rs", "x/b.rs", "x/b/mod.rs"])
    );
}

#[test]
fn a_module_named_twice_is_listed_twice() {
    let text = "mod a;\nmod a;\n";
    assert_eq!(
        dependency_candidates("lib.rs", text),
        strings(&["a.rs", "a/mod.rs", "a.rs", "a/mod.rs"])
    );
}

#[test]
fn a_shebang_line_is_passed_over() {
    let text = "#!/usr/bin/env run-cargo-script\nmod helper;\n";
    assert_eq!(dependency_candidates("tool.rs", text), strings(&["helper.rs", "helper/mod.rs"]));
}

#[test]
fn a_raw_identifier_keeps_its_prefix() {
    assert_eq!(
        dependency_candidates("lib.rs", "mod r#type;\n"),
        strings(&["r#type.rs", "r#type/mod.rs"])
    );
}

#[test]
fn candidates_follow_the_items_in_order() {
    let items = vec![
        SourceItem::Module("a".to_string()),
        SourceItem::Other,
        SourceItem::Module("b".to_string()),
    ];
    assert_eq!(
        candidates_of("dir/lib.rs", &items),
        strings(&["dir/a.rs", "dir/a/mod.rs", "dir/b.rs", "dir/b/mod.rs"])
    );
}

#[test]
fn items_without_modules_give_no_candidates() {
    assert_eq!(candidates_of("lib.rs", &vec![SourceItem::Other, SourceItem::Other]), strings(&[]));
    assert_eq!(candidates_of("lib.rs", &Vec::new()), strings(&[]));
}

#[test]
fn existing_keeps_what_the_tree_holds() {
    let mut tree = SourceTree::new();
    tree.insert("a.rs".to_string(), String::new());
    tree.insert_unreadable("c.bin".to_string());
    let r = existing(&tree, &strings(&["c.bin", "b.rs", "a.rs", "a.rs"]));
    assert_eq!(r, strings(&["c.bin", "a.rs", "a.rs"]));
}

#[test]
fn dependencies_are_the_candidates_that_exist() {
    let mut tree = SourceTree::new();
    tree.insert("src/main.rs".to_string(), "mod scanner;\nmod rag;\nmod serde;\n".to_string());
    tree.insert("src/scanner.rs".to_string(), String::new());
    tree.insert("src/rag/mod.rs".to_string(), String::new());
    assert_eq!(
        find_dependencies("src/main.rs", &tree),
        strings(&["src/scanner.rs", "src/rag/mod.rs"])
    );
}

#[test]
fn both_layouts_are_taken_where_both_exist() {
    let mut tree = SourceTree::new();
    tree.insert("main.rs".to_string(), "mod a;\n".to_string());
    tree.insert("a/mod.rs".to_string(), String::new());
    tree.insert("a.rs".to_string(), String::new());
    assert_eq!(find_dependencies("main.rs", &tree), strings(&["a.rs", "a/mod.rs"]));
}

#[test]
fn a_missing_file_depends_on_nothing() {
    let mut tree = SourceTree::new();
    tree.insert("a.rs".to_string(), String::new());
    assert_eq!(find_dependencies("main.rs", &tree), strings(&[]));
}

#[test]
fn an_unreadable_file_depends_on_nothing() {
    let mut tree = SourceTree::new();
    tree.insert_unreadable("main.rs".to_string());
    tree.insert("a.rs".to_string(), String::new());
    assert_eq!(find_dependencies("main.rs", &tree), strings(&[]));
}

#[test]
fn a_file_that_does_not_parse_depends_on_nothing() {
    let mut tree = SourceTree::new();
    tree.insert("main.rs".to_string(), "mod a;\nfn broken( {".to_string());
    tree.insert("a.rs".to_string(), String::new());
    assert_eq!(find_dependencies("main.rs", &tree), strings(&[]));
}

#[test]
fn an_unresolved_module_is_passed_over() {
    let mut tree = SourceTree::new();
    tree.insert("main.rs".to_string(), "mod elsewhere;\n".to_string());
    assert_eq!(find_dependencies("main.rs", &tree), strings(&[]));
}

#[test]
fn a_later_insert_replaces_the_file() {
    let mut tree = SourceTree::new();
    tree.insert("main.rs".to_string(), "mod a;\n".to_string());
    tree.insert("a.rs".to_string(), String::new());
    tree.insert("b.rs".to_string(), String::new());
    tree.insert("main.rs".to_string(), "mod b;\n".to_string());
    assert_eq!(find_dependencies("main.rs", &tree), strings(&["b.rs"]));
    assert_eq!(tree.text_of("main.rs"), Some(&"mod b;\n".to_string()));
}

#[test]
fn the_tree_tells_existing_from_readable() {
    let mut tree = SourceTree::new();
    tree.insert("a.rs".to_string(), "fn a() {}".to_string());
    tree.insert_unreadable("logo.png".to_string());
    assert!(tree.contains("a.rs"));
    assert!(tree.contains("logo.png"));
    assert!(!tree.contains("b.rs"));
    assert_eq!(tree.text_of("a.rs"), Some(&"fn a() {}".to_string()));
    assert_eq!(tree.text_of("logo.png"), None);
    assert_eq!(tree.text_of("b.rs"), None);
}
