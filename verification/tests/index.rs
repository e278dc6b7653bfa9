use budget::budgetitem::BudgetItem;
use budget::tagindex::TagIndex;
use budget::totals::{per_tag_totals, total, TagTotal};

fn item(name: &str, cost: i64, tags: &[&str]) -> BudgetItem {
    BudgetItem {
        name: name.to_string(),
        cost,
        date: None,
        tags: tags.iter().map(|t| t.to_string()).collect(),
    }
}

fn names(records: &Vec<BudgetItem>) -> Vec<String> {
    records.iter().map(|r| r.name.clone()).collect()
}

#[test]
fn index_of_nothing_is_empty() {
    let index = TagIndex::build(&vec![]);
    assert!(index.as_buckets().is_empty());
    assert!(index.tags().is_empty());
    assert!(index.get(&"food".to_string()).is_none());
}

#[test]
fn every_record_stands_under_each_of_its_tags() {
    let records = vec![
        item("a", 1, &["food", "home"]),
        item("b", 2, &[]),
        item("c", 3, &["home"]),
        item("d", 4, &["car", "food", "home"]),
    ];
    let index = TagIndex::build(&records);
    assert_eq!(index.tags(), vec!["car", "food", "home"]);
    assert_eq!(names(index.get(&"car".to_string()).unwrap()), vec!["d"]);
    assert_eq!(names(index.get(&"food".to_string()).unwrap()), vec!["a", "d"]);
    assert_eq!(names(index.get(&"home".to_string()).unwrap()), vec!["a", "c", "d"]);
    assert!(index.get(&"b".to_string()).is_none());
    for bucket in index.as_buckets() {
        for record in &bucket.items {
            assert!(record.tags.contains(&bucket.tag));
            assert_ne!(record.name, "b");
        }
    }
}

#[test]
fn buckets_hold_whole_records() {
    let records = vec![item("a", 15, &["x"])];
    let index = TagIndex::build(&records);
    assert_eq!(index.get(&"x".to_string()).unwrap(), &records);
}

#[test]
fn a_repeated_tag_counts_once() {
    let records = vec![item("a", 1, &["x", "y", "x", "x"])];
    let index = TagIndex::build(&records);
    assert_eq!(index.get(&"x".to_string()).unwrap().len(), 1);
    assert_eq!(index.get(&"y".to_string()).unwrap().len(), 1);
}

#[test]
fn equal_records_each_stand_in_the_bucket() {
    let records = vec![item("a", 1, &["x"]), item("a", 1, &["x"])];
    let index = TagIndex::build(&records);
    assert_eq!(index.get(&"x".to_string()).unwrap().len(), 2);
}

#[test]
fn tags_stand_in_dictionary_order() {
    let records = vec![
        item("a", 1, &["pear", "Zoo", "apple", "pea", "", "\u{e9}t\u{e9}", "apples"]),
    ];
    let index = TagIndex::build(&records);
    let mut sorted: Vec<String> = records[0].tags.clone();
    sorted.sort();
    assert_eq!(index.tags(), sorted);
    assert_eq!(index.tags(), vec!["", "Zoo", "apple", "apples", "pea", "pear", "\u{e9}t\u{e9}"]);
}

#[test]
fn total_of_nothing_is_zero() {
    assert_eq!(total(&vec![]), 0);
}

#[test]
fn total_is_the_sum_of_the_costs() {
    let records = vec![item("a", 12_000_000, &[]), item("b", 45_000, &[]), item("c", -5_000, &[])];
    assert_eq!(total(&records), 12_040_000);
    assert_eq!(total(&records) as f64 / 10_000.0, 1204.0);
}

#[test]
fn total_is_the_same_in_any_order() {
    let a = vec![item("a", 3, &[]), item("b", -7, &[]), item("c", 1_000_000, &[])];
    let b = vec![item("c", 1_000_000, &[]), item("a", 3, &[]), item("b", -7, &[])];
    assert_eq!(total(&a), total(&b));
    assert_eq!(total(&a), 999_996);
}

#[test]
fn total_holds_more_than_one_cost_can() {
    let records = vec![item("a", i64::MAX, &[]), item("b", i64::MAX, &[]), item("c", 2, &[])];
    assert_eq!(total(&records), 2 * (i64::MAX as i128) + 2);
    let records = vec![item("a", i64::MIN, &[]), item("b", i64::MIN, &[])];
    assert_eq!(total(&records), 2 * (i64::MIN as i128));
}

#[test]
fn each_tag_has_the_total_of_its_bucket() {
    let records = vec![
        item("a", 10, &["food", "home"]),
        item("b", 20, &[]),
        item("c", 30, &["home"]),
    ];
    let totals = per_tag_totals(&TagIndex::build(&records));
    assert_eq!(
        totals,
        vec![
            TagTotal { tag: "food".to_string(), total: 10 },
            TagTotal { tag: "home".to_string(), total: 40 },
        ]
    );
}
