use context_rs::closure::resolve;
use context_rs::packet::assemble;
use context_rs::resolver::Edge;
use context_rs::resolver::Resolver;
use context_rs::tree::SourceTree;

fn strings(items: &[&str]) -> Vec<String> {
    items.iter().map(|s| s.to_string()).collect()
}

fn edges(pairs: &[(&str, &str)]) -> Vec<Edge> {
    pairs.iter().map(|(p, c)| Edge { parent: p.to_string(), child: c.to_string() }).collect()
}

fn tree_of(files: &[(&str, &str)]) -> SourceTree {
    let mut tree = SourceTree::new();
    for (path, text) in files {
        tree.insert(path.to_string(), text.to_string());
    }
    tree
}

fn sorted(mut items: Vec<String>) -> Vec<String> {
    items.sort();
    items
}

#[test]
fn chain_through_a_directory_module() {
    let tree = tree_of(&[
        ("main.rs", "mod scanner;\nfn main() {}\n"),
        ("scanner.rs", "mod utils;\npub fn scan() {}\n"),
        ("utils/mod.rs", "pub fn help() {}\n"),
    ]);
    let r = resolve(strings(&["main.rs"]), &tree);
    assert_eq!(r.files, strings(&["main.rs", "scanner.rs", "utils/mod.rs"]));
    assert_eq!(r.edges, edges(&[("main.rs", "scanner.rs"), ("scanner.rs", "mod.rs")]));
    assert_eq!(
        r.notes,
        strings(&[
            "Compiler found dependency <code>mod scanner</code> inside <b>main.rs</b>.",
            "Compiler found dependency <code>mod mod</code> inside <b>scanner.rs</b>.",
        ])
    );
}

#[test]
fn two_files_that_name_each_other() {
    let tree = tree_of(&[("a.rs", "mod b;\n"), ("b.rs", "mod a;\n")]);
    let r = resolve(strings(&["a.rs"]), &tree);
    assert_eq!(r.files, strings(&["a.rs", "b.rs"]));
    assert_eq!(r.edges, edges(&[("a.rs", "b.rs"), ("b.rs", "a.rs")]));
}

#[test]
fn a_cycle_seeded_from_both_ends() {
    let tree = tree_of(&[("a.rs", "mod b;\n"), ("b.rs", "mod a;\n")]);
    let r = resolve(strings(&["a.rs", "b.rs"]), &tree);
    assert_eq!(r.files, strings(&["a.rs", "b.rs"]));
    assert_eq!(r.edges, edges(&[("b.rs", "a.rs"), ("a.rs", "b.rs")]));
}

#[test]
fn a_file_that_names_itself() {
    let tree = tree_of(&[("a.rs", "mod a;\n")]);
    let r = resolve(strings(&["a.rs"]), &tree);
    assert_eq!(r.files, strings(&["a.rs"]));
    assert_eq!(r.edges, edges(&[]));
}

#[test]
fn a_seed_that_does_not_parse() {
    let text = "mod helper;\nfn broken( {\n";
    let tree = tree_of(&[("seed.rs", text), ("helper.rs", "")]);
    let r = resolve(strings(&["seed.rs"]), &tree);
    assert_eq!(r.files, strings(&["seed.rs"]));
    assert_eq!(r.edges, edges(&[]));
    let packet = assemble(&r.files, &tree);
    assert_eq!(packet.packed_count, 1);
    assert!(packet.text.contains("  <file path=\"seed.rs\">\n    <![CDATA[\nmod helper;\nfn broken( {\n\n    ]]>\n  </file>\n\n"));
}

#[test]
fn a_lockfile_in_the_closure_is_not_packed() {
    let tree = tree_of(&[
        ("Cargo.lock", "# lock\n"),
        ("main.rs", "mod a;\n"),
        ("a.rs", "pub fn a() {}\n"),
    ]);
    let r = resolve(strings(&["Cargo.lock", "main.rs"]), &tree);
    assert_eq!(r.files, strings(&["Cargo.lock", "main.rs", "a.rs"]));
    assert_eq!(r.edges, edges(&[("main.rs", "a.rs")]));
    let packet = assemble(&r.files, &tree);
    assert_eq!(packet.packed_count, 2);
    assert!(!packet.text.contains("Cargo.lock"));
    assert!(packet.text.contains("<file path=\"a.rs\">"));
    assert!(packet.text.contains("<file path=\"main.rs\">"));
}

#[test]
fn a_seed_that_does_not_exist_stays_in_the_closure() {
    let tree = tree_of(&[("a.rs", "")]);
    let r = resolve(strings(&["gone.rs"]), &tree);
    assert_eq!(r.files, strings(&["gone.rs"]));
    assert_eq!(r.edges, edges(&[]));
}

#[test]
fn no_seeds_give_an_empty_closure() {
    let tree = tree_of(&[("a.rs", "mod b;\n"), ("b.rs", "")]);
    let r = resolve(Vec::new(), &tree);
    assert_eq!(r.files, strings(&[]));
    assert_eq!(r.edges, edges(&[]));
}

#[test]
fn a_seed_given_twice_is_kept_as_given() {
    let tree = tree_of(&[("a.rs", "mod b;\n"), ("b.rs", "")]);
    let r = resolve(strings(&["a.rs", "a.rs"]), &tree);
    assert_eq!(r.files, strings(&["a.rs", "a.rs", "b.rs"]));
    assert_eq!(r.edges, edges(&[("a.rs", "b.rs")]));
}

#[test]
fn the_most_recently_found_file_is_scanned_first() {
    let tree = tree_of(&[
        ("main.rs", "mod a;\nmod b;\n"),
        ("a.rs", "mod a1;\n"),
        ("b.rs", "mod b1;\n"),
        ("a1.rs", ""),
        ("b1.rs", ""),
    ]);
    let r = resolve(strings(&["main.rs"]), &tree);
    assert_eq!(r.files, strings(&["main.rs", "a.rs", "b.rs", "b1.rs", "a1.rs"]));
    assert_eq!(
        r.edges,
        edges(&[
            ("main.rs", "a.rs"),
            ("main.rs", "b.rs"),
            ("b.rs", "b1.rs"),
            ("a.rs", "a1.rs"),
        ])
    );
}

#[test]
fn a_file_reached_twice_is_listed_once() {
    let tree = tree_of(&[
        ("main.rs", "mod a;\nmod b;\n"),
        ("a.rs", "mod shared;\n"),
        ("b.rs", "mod shared;\n"),
        ("shared.rs", ""),
    ]);
    let r = resolve(strings(&["main.rs"]), &tree);
    assert_eq!(r.files, strings(&["main.rs", "a.rs", "b.rs", "shared.rs"]));
    assert_eq!(
        r.edges,
        edges(&[
            ("main.rs", "a.rs"),
            ("main.rs", "b.rs"),
            ("b.rs", "shared.rs"),
            ("a.rs", "shared.rs"),
        ])
    );
}

#[test]
fn edges_between_the_same_names_collapse() {
    let tree = tree_of(&[
        ("x/lib.rs", "mod util;\n"),
        ("x/util.rs", ""),
        ("y/lib.rs", "mod util;\n"),
        ("y/util.rs", ""),
    ]);
    let r = resolve(strings(&["x/lib.rs", "y/lib.rs"]), &tree);
    assert_eq!(r.files, strings(&["x/lib.rs", "y/lib.rs", "y/util.rs", "x/util.rs"]));
    assert_eq!(r.edges, edges(&[("lib.rs", "util.rs")]));
}

#[test]
fn an_edge_between_equal_base_names_is_dropped() {
    let tree = tree_of(&[("a/mod.rs", "mod b;\n"), ("a/b/mod.rs", "")]);
    let r = resolve(strings(&["a/mod.rs"]), &tree);
    assert_eq!(r.files, strings(&["a/mod.rs", "a/b/mod.rs"]));
    assert_eq!(r.edges, edges(&[]));
}

#[test]
fn both_layouts_of_a_module_join_the_closure() {
    let tree = tree_of(&[("main.rs", "mod a;\n"), ("a.rs", ""), ("a/mod.rs", "")]);
    let r = resolve(strings(&["main.rs"]), &tree);
    assert_eq!(r.files, strings(&["main.rs", "a.rs", "a/mod.rs"]));
    assert_eq!(r.edges, edges(&[("main.rs", "a.rs"), ("main.rs", "mod.rs")]));
}

#[test]
fn an_unreadable_dependency_joins_the_closure_and_ends_there() {
    let mut tree = tree_of(&[("main.rs", "mod blob;\n")]);
    tree.insert_unreadable("blob.rs".to_string());
    let r = resolve(strings(&["main.rs"]), &tree);
    assert_eq!(r.files, strings(&["main.rs", "blob.rs"]));
    assert_eq!(r.edges, edges(&[("main.rs", "blob.rs")]));
}

#[test]
fn files_outside_the_closure_are_left_out() {
    let tree = tree_of(&[("main.rs", "mod a;\n"), ("a.rs", ""), ("other.rs", "mod a;\n")]);
    let r = resolve(strings(&["main.rs"]), &tree);
    assert_eq!(r.files, strings(&["main.rs", "a.rs"]));
}

#[test]
fn every_dependency_of_a_closure_file_is_in_the_closure() {
    let tree = tree_of(&[
        ("src/main.rs", "mod a;\nmod b;\nmod c;\n"),
        ("src/a.rs", "mod d;\n"),
        ("src/b/mod.rs", "mod e;\nmod main;\n"),
        ("src/b/e.rs", ""),
        ("src/d.rs", "mod a;\n"),
        ("src/b/main.rs", ""),
    ]);
    let r = resolve(strings(&["src/main.rs"]), &tree);
    for f in &r.files {
        for d in context_rs::scanner::find_dependencies(f, &tree) {
            assert!(r.files.contains(&d));
        }
    }
    assert_eq!(
        sorted(r.files.clone()),
        strings(&[
            "src/a.rs",
            "src/b/e.rs",
            "src/b/main.rs",
            "src/b/mod.rs",
            "src/d.rs",
            "src/main.rs",
        ])
    );
}

#[test]
fn no_edge_is_listed_twice_and_none_joins_a_name_to_itself() {
    let tree = tree_of(&[
        ("src/main.rs", "mod a;\nmod a;\nmod b;\n"),
        ("src/a.rs", "mod b;\nmod main;\n"),
        ("src/a/mod.rs", "mod b;\n"),
        ("src/b.rs", "mod a;\n"),
        ("src/a/b.rs", "mod b;\n"),
        ("src/b/mod.rs", ""),
        ("src/main/mod.rs", ""),
    ]);
    let r = resolve(strings(&["src/main.rs", "src/a/mod.rs"]), &tree);
    for (i, e) in r.edges.iter().enumerate() {
        assert_ne!(e.parent, e.child);
        for later in &r.edges[i + 1..] {
            assert_ne!(e, later);
        }
    }
}

#[test]
fn resolving_again_gives_the_same_result() {
    let tree = tree_of(&[
        ("main.rs", "mod a;\nmod b;\n"),
        ("a.rs", "mod b;\n"),
        ("b.rs", "mod a;\n"),
    ]);
    let first = resolve(strings(&["main.rs"]), &tree);
    let again = resolve(strings(&["main.rs"]), &tree);
    assert_eq!(first, again);
}

#[test]
fn the_resolver_hands_out_the_last_pending_file() {
    let mut resolver = Resolver::new(strings(&["a.rs", "b.rs"]));
    assert!(!resolver.is_done());
    assert_eq!(resolver.next_file(), Some("b.rs".to_string()));
    assert_eq!(resolver.next_file(), Some("a.rs".to_string()));
    assert!(resolver.is_done());
    assert_eq!(resolver.next_file(), None);
    assert_eq!(resolver.files(), &strings(&["a.rs", "b.rs"]));
}

#[test]
fn recording_returns_what_was_not_known() {
    let mut resolver = Resolver::new(strings(&["src/main.rs", "src/a.rs"]));
    let current = resolver.next_file().unwrap();
    assert_eq!(current, "src/a.rs");
    let found = resolver.record(&current, &strings(&["src/main.rs", "src/b.rs", "src/b.rs"]));
    assert_eq!(found, strings(&["src/b.rs"]));
    assert_eq!(resolver.files(), &strings(&["src/main.rs", "src/a.rs", "src/b.rs"]));
    assert_eq!(resolver.edges(), &edges(&[("a.rs", "main.rs"), ("a.rs", "b.rs")]));
    assert_eq!(resolver.next_file(), Some("src/b.rs".to_string()));
    assert_eq!(resolver.next_file(), Some("src/main.rs".to_string()));
    assert_eq!(
        resolver.notes(),
        &strings(&["Compiler found dependency <code>mod b</code> inside <b>a.rs</b>."])
    );
    let done = resolver.finish();
    assert_eq!(done.files, strings(&["src/main.rs", "src/a.rs", "src/b.rs"]));
    assert_eq!(done.edges, edges(&[("a.rs", "main.rs"), ("a.rs", "b.rs")]));
    assert_eq!(
        done.notes,
        strings(&["Compiler found dependency <code>mod b</code> inside <b>a.rs</b>."])
    );
}

#[test]
fn recording_nothing_changes_nothing() {
    let mut resolver = Resolver::new(strings(&["a.rs"]));
    let found = resolver.record("a.rs", &Vec::new());
    assert_eq!(found, strings(&[]));
    assert_eq!(resolver.files(), &strings(&["a.rs"]));
    assert_eq!(resolver.edges(), &edges(&[]));
    assert_eq!(resolver.next_file(), Some("a.rs".to_string()));
}

#[test]
fn each_found_file_has_its_note_and_seeds_have_none() {
    let tree = tree_of(&[
        ("src/main.rs", "mod a;\nmod b;\n"),
        ("src/a.rs", "mod b;\n"),
        ("src/b.rs", "mod c;\n"),
        ("src/c/mod.rs", ""),
    ]);
    let r = resolve(strings(&["src/main.rs", "src/a.rs"]), &tree);
    assert_eq!(r.files, strings(&["src/main.rs", "src/a.rs", "src/b.rs", "src/c/mod.rs"]));
    assert_eq!(
        r.notes,
        strings(&[
            "Compiler found dependency <code>mod b</code> inside <b>a.rs</b>.",
            "Compiler found dependency <code>mod mod</code> inside <b>b.rs</b>.",
        ])
    );
    assert_eq!(r.notes.len(), r.files.len() - 2);
}

#[test]
fn a_resolution_without_findings_has_no_notes() {
    let tree = tree_of(&[("a.rs", "fn a() {}\n")]);
    let r = resolve(strings(&["a.rs", "gone.rs"]), &tree);
    assert_eq!(r.notes, strings(&[]));
}
