use budget::budgetitem::BudgetItem;
use budget::listing::largest_first;
use budget::text::{chars_of, comes_before, contains_text, copy_texts, drop_repeats, prefix_is};

fn list(texts: &[&str]) -> Vec<String> {
    texts.iter().map(|t| t.to_string()).collect()
}

fn item(name: &str, cost: i64) -> BudgetItem {
    BudgetItem { name: name.to_string(), cost, date: None, tags: vec![] }
}

#[test]
fn chars_are_the_characters_in_order() {
    assert_eq!(chars_of("a: \u{e9}"), vec!['a', ':', ' ', '\u{e9}']);
    assert!(chars_of("").is_empty());
}

#[test]
fn prefix_is_compares_the_first_characters() {
    let chars = chars_of("name: x");
    assert!(prefix_is(&chars, 4, "name"));
    assert!(!prefix_is(&chars, 3, "name"));
    assert!(!prefix_is(&chars, 4, "nama"));
    assert!(prefix_is(&chars, 0, ""));
}

#[test]
fn contains_text_finds_equal_strings() {
    let tags = list(&["a", "bc"]);
    assert!(contains_text(&tags, &"bc".to_string()));
    assert!(!contains_text(&tags, &"b".to_string()));
    assert!(!contains_text(&list(&[]), &"".to_string()));
}

#[test]
fn copy_texts_copies() {
    let tags = list(&["a", "bc", "a"]);
    assert_eq!(copy_texts(&tags), tags);
}

#[test]
fn drop_repeats_keeps_first_occurrences() {
    assert_eq!(drop_repeats(&list(&["b", "a", "b", "b", "c", "a"])), list(&["b", "a", "c"]));
    assert!(drop_repeats(&list(&[])).is_empty());
}

#[test]
fn comes_before_is_the_order_of_strings() {
    let words = ["", "a", "ab", "abc", "b", "B", "\u{e9}", "z", "a b", "a!"];
    for x in words.iter() {
        for y in words.iter() {
            assert_eq!(comes_before(x, y), x < y);
        }
    }
}

#[test]
fn clone_copies_every_field() {
    let a = BudgetItem {
        name: "Rent".to_string(),
        cost: 12_000_000,
        date: Some("2021".to_string()),
        tags: list(&["home", "fixed"]),
    };
    assert_eq!(a.clone(), a);
}

#[test]
fn largest_cost_comes_first() {
    let records = vec![item("a", 5), item("b", 70), item("c", -3), item("d", 70), item("e", 6)];
    let sorted = largest_first(&records);
    let costs: Vec<i64> = sorted.iter().map(|r| r.cost).collect();
    assert_eq!(costs, vec![70, 70, 6, 5, -3]);
    let mut names: Vec<String> = sorted.iter().map(|r| r.name.clone()).collect();
    names.sort();
    assert_eq!(names, list(&["a", "b", "c", "d", "e"]));
    assert!(largest_first(&vec![]).is_empty());
}

#[test]
fn costs_less_than_a_unit_apart_are_equal() {
    let a = budget::cost::parse_cost("1.0000").unwrap();
    let b = budget::cost::parse_cost("1").unwrap();
    assert_eq!(a, b);
    let c = budget::cost::parse_cost("1.0001").unwrap();
    assert_eq!(c - a, 1);
}
