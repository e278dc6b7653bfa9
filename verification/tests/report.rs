use budget::budgetitem::BudgetItem;
use budget::report::{effective_tokens, report_on, select, summarise};
use budget::totals::per_tag_totals;

fn list(texts: &[&str]) -> Vec<String> {
    texts.iter().map(|t| t.to_string()).collect()
}

fn item(name: &str, cost: i64, tags: &[&str]) -> BudgetItem {
    BudgetItem { name: name.to_string(), cost, date: None, tags: list(tags) }
}

fn names(records: &Vec<BudgetItem>) -> Vec<String> {
    records.iter().map(|r| r.name.clone()).collect()
}

fn three_files() -> Vec<BudgetItem> {
    vec![
        BudgetItem::new(&list(&["name: Rent", "cost: 1200.00"]), &list(&[])).unwrap(),
        BudgetItem::new(&list(&["name: Coffee", "cost: 4.50"]), &list(&["food"])).unwrap(),
        BudgetItem::new(&list(&["name: Old Bill", "cost: 50.00"]), &list(&["archive"])).unwrap(),
    ]
}

#[test]
fn run_without_tokens_leaves_out_the_archive() {
    let report = summarise(&three_files(), &list(&[]), false);
    assert_eq!(report.total, 12_045_000);
    assert_eq!(report.total as f64 / 10_000.0, 1204.50);
    assert_eq!(names(&report.kept), list(&["Rent", "Coffee"]));
    assert_eq!(report.related, list(&["food"]));
    assert_eq!(report.index.tags(), list(&["food"]));
}

#[test]
fn run_with_a_token_keeps_what_carries_it() {
    let report = summarise(&three_files(), &list(&["food"]), false);
    assert_eq!(report.total, 45_000);
    assert_eq!(report.total as f64 / 10_000.0, 4.50);
    assert_eq!(names(&report.kept), list(&["Coffee"]));
    assert!(report.related.is_empty());
}

#[test]
fn archived_records_are_left_out_of_totals_and_related_tags() {
    let records = vec![item("old", 700, &["archive"]), item("new", 30, &["groceries"])];
    let report = summarise(&records, &list(&[]), false);
    assert_eq!(report.total, 30);
    assert_eq!(names(&report.kept), list(&["new"]));
    assert_eq!(report.related, list(&["groceries"]));
    assert!(report.index.get(&"archive".to_string()).is_none());
}

#[test]
fn archived_records_are_kept_when_included() {
    let records = vec![item("old", 700, &["archive"]), item("new", 30, &["groceries"])];
    let report = summarise(&records, &list(&[]), true);
    assert_eq!(report.total, 730);
    assert_eq!(names(&report.kept), list(&["old", "new"]));
    assert_eq!(report.related, list(&["archive", "groceries"]));
}

#[test]
fn asking_for_the_archive_without_including_it_keeps_nothing() {
    let records = vec![item("old", 700, &["archive"]), item("new", 30, &["groceries"])];
    let report = summarise(&records, &list(&["archive"]), false);
    assert_eq!(report.total, 0);
    assert!(report.kept.is_empty());
    assert!(report.related.is_empty());
}

#[test]
fn related_tags_are_the_other_tags_of_the_kept_records() {
    let records = vec![
        item("a", 1, &["food", "treat"]),
        item("b", 2, &["food", "home"]),
        item("c", 4, &["car"]),
    ];
    let report = summarise(&records, &list(&["food"]), false);
    assert_eq!(report.total, 3);
    assert_eq!(report.related, list(&["home", "treat"]));
    let totals = per_tag_totals(&report.index);
    let pairs: Vec<(String, i128)> = totals.into_iter().map(|t| (t.tag, t.total)).collect();
    assert_eq!(
        pairs,
        vec![("food".to_string(), 3), ("home".to_string(), 2), ("treat".to_string(), 1)]
    );
}

#[test]
fn effective_tokens_end_with_the_archive_token() {
    assert_eq!(effective_tokens(&list(&["food"]), false), list(&["food", "!archive"]));
    assert_eq!(effective_tokens(&list(&["food"]), true), list(&["food"]));
    assert_eq!(effective_tokens(&list(&[]), false), list(&["!archive"]));
}

#[test]
fn empty_filter_lets_everything_through() {
    let records = vec![item("a", 1, &["x"]), item("b", 2, &[])];
    assert_eq!(select(&records, &list(&[])), records);
}

#[test]
fn bare_token_asks_for_its_tag() {
    let records = vec![item("a", 1, &["x", "y"]), item("b", 2, &["y"]), item("c", 3, &[])];
    assert_eq!(names(&select(&records, &list(&["x"]))), list(&["a"]));
    assert_eq!(names(&select(&records, &list(&["y"]))), list(&["a", "b"]));
    assert_eq!(names(&select(&records, &list(&["x", "y"]))), list(&["a"]));
    assert_eq!(names(&select(&records, &list(&["z"]))), list(&[]));
}

#[test]
fn negated_token_rules_its_tag_out() {
    let records = vec![item("a", 1, &["x", "y"]), item("b", 2, &["y"]), item("c", 3, &[])];
    assert_eq!(names(&select(&records, &list(&["!x"]))), list(&["b", "c"]));
    assert_eq!(names(&select(&records, &list(&["y", "!x"]))), list(&["b"]));
    assert_eq!(names(&select(&records, &list(&["!x", "x"]))), list(&[]));
}

#[test]
fn tokens_are_matched_letter_for_letter() {
    let records = vec![item("a", 1, &["Food"]), item("b", 2, &["food"]), item("c", 3, &["foo"])];
    assert_eq!(names(&select(&records, &list(&["food"]))), list(&["b"]));
    assert_eq!(names(&select(&records, &list(&["!food"]))), list(&["a", "c"]));
    assert_eq!(names(&select(&records, &list(&["!"]))), list(&["a", "b", "c"]));
}

#[test]
fn filter_counts_tags_against_bare_tokens() {
    let records = vec![item("a", 1, &["x"]), item("b", 2, &["x", "x"]), item("c", 3, &["x", "y"])];
    assert_eq!(names(&select(&records, &list(&["x", "x"]))), list(&["b"]));
    assert_eq!(names(&select(&records, &list(&["x", "z"]))), list(&["b"]));
    assert_eq!(names(&select(&records, &list(&["x", "y"]))), list(&["b", "c"]));
}

#[test]
fn report_on_kept_records_sums_indexes_and_relates() {
    let kept = vec![item("a", 5, &["x", "y"]), item("b", 7, &["y"]), item("c", 11, &[])];
    let report = report_on(kept.clone(), &list(&["y"]));
    assert_eq!(report.kept, kept);
    assert_eq!(report.total, 23);
    assert_eq!(report.index.tags(), list(&["x", "y"]));
    assert_eq!(names(report.index.get(&"y".to_string()).unwrap()), list(&["a", "b"]));
    assert_eq!(report.related, list(&["x"]));
}

#[test]
fn report_on_nothing_is_empty() {
    let report = report_on(vec![], &list(&["y"]));
    assert_eq!(report.total, 0);
    assert!(report.kept.is_empty());
    assert!(report.related.is_empty());
    assert!(report.index.as_buckets().is_empty());
}
