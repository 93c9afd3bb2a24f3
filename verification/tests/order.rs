use context_rs::text::compare;
use context_rs::text::sorted_unique;
use context_rs::text::Order;

fn strings(items: &[&str]) -> Vec<String> {
    items.iter().map(|s| s.to_string()).collect()
}

#[test]
fn compare_orders_by_the_first_differing_byte() {
    assert_eq!(compare("a", "b"), Order::Before);
    assert_eq!(compare("b", "a"), Order::After);
    assert_eq!(compare("abc", "abd"), Order::Before);
    assert_eq!(compare("src/b.rs", "src/a.rs"), Order::After);
}

#[test]
fn compare_puts_a_prefix_first() {
    assert_eq!(compare("a", "ab"), Order::Before);
    assert_eq!(compare("ab", "a"), Order::After);
    assert_eq!(compare("", "a"), Order::Before);
}

#[test]
fn compare_finds_equal_strings_the_same() {
    assert_eq!(compare("", ""), Order::Same);
    assert_eq!(compare("src/main.rs", "src/main.rs"), Order::Same);
    assert_eq!(compare("é", "é"), Order::Same);
}

#[test]
fn compare_goes_by_bytes_not_by_path_components() {
    assert_eq!(compare("a.b", "a/b"), Order::Before);
    assert_eq!(compare("a/b", "a0"), Order::Before);
    assert_eq!(compare("é", "z"), Order::After);
    assert_eq!(compare("Z", "a"), Order::Before);
}

#[test]
fn compare_agrees_with_the_order_of_str() {
    let samples = ["", "a", "ab", "b", "a/b", "a.b", "é", "z", "Z", "src/main.rs", "src/", "日本"];
    for x in samples {
        for y in samples {
            let expected = if x < y {
                Order::Before
            } else if x == y {
                Order::Same
            } else {
                Order::After
            };
            assert_eq!(compare(x, y), expected);
        }
    }
}

#[test]
fn sorted_unique_sorts_and_drops_repeats() {
    let r = sorted_unique(&strings(&["b", "a", "b", "c", "a"]));
    assert_eq!(r, strings(&["a", "b", "c"]));
}

#[test]
fn sorted_unique_of_nothing_is_nothing() {
    assert_eq!(sorted_unique(&Vec::new()), Vec::<String>::new());
}

#[test]
fn sorted_unique_keeps_a_sorted_list() {
    let sorted = strings(&["a.rs", "b.rs", "c/mod.rs"]);
    assert_eq!(sorted_unique(&sorted), sorted);
}

#[test]
fn sorted_unique_ignores_the_order_given() {
    let one = sorted_unique(&strings(&["src/z.rs", "src/a.rs", "lib.rs", "src/a.rs"]));
    let other = sorted_unique(&strings(&["lib.rs", "src/a.rs", "src/z.rs"]));
    assert_eq!(one, other);
    assert_eq!(one, strings(&["lib.rs", "src/a.rs", "src/z.rs"]));
}

#[test]
fn sorted_unique_agrees_with_sort_and_dedup() {
    let input = strings(&["m", "é", "a/b", "a.b", "m", "", "Z", "a", "ab", "", "日本", "a"]);
    let mut expected = input.clone();
    expected.sort();
    expected.dedup();
    assert_eq!(sorted_unique(&input), expected);
}
