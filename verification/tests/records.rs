use budget::budgetitem::{BudgetItem, Entry, ParseError, read_line};
use budget::cost::parse_cost;

fn lines(texts: &[&str]) -> Vec<String> {
    texts.iter().map(|t| t.to_string()).collect()
}

#[test]
fn cost_reads_plain_decimals() {
    assert_eq!(parse_cost("4.50"), Some(45_000));
    assert_eq!(parse_cost("1200.00"), Some(12_000_000));
    assert_eq!(parse_cost("0"), Some(0));
    assert_eq!(parse_cost("-3.25"), Some(-32_500));
    assert_eq!(parse_cost("+7"), Some(70_000));
    assert_eq!(parse_cost(".5"), Some(5_000));
    assert_eq!(parse_cost("5."), Some(50_000));
    assert_eq!(parse_cost("0.0001"), Some(1));
    assert_eq!(parse_cost("000012.3400000"), Some(123_400));
}

#[test]
fn cost_rejects_what_is_no_decimal() {
    assert_eq!(parse_cost(""), None);
    assert_eq!(parse_cost("."), None);
    assert_eq!(parse_cost("-"), None);
    assert_eq!(parse_cost("abc"), None);
    assert_eq!(parse_cost("1.2.3"), None);
    assert_eq!(parse_cost(" 1"), None);
    assert_eq!(parse_cost("1 "), None);
    assert_eq!(parse_cost("--1"), None);
    assert_eq!(parse_cost("1,5"), None);
    assert_eq!(parse_cost("0x10"), None);
    assert_eq!(parse_cost("inf"), None);
    assert_eq!(parse_cost("-infinity"), None);
    assert_eq!(parse_cost("nan"), None);
    assert_eq!(parse_cost("NaN"), None);
}

#[test]
fn cost_reads_exponents() {
    assert_eq!(parse_cost("1e3"), Some(10_000_000));
    assert_eq!(parse_cost("1E3"), Some(10_000_000));
    assert_eq!(parse_cost("1e+3"), Some(10_000_000));
    assert_eq!(parse_cost("1.5e2"), Some(1_500_000));
    assert_eq!(parse_cost("-1.5e2"), Some(-1_500_000));
    assert_eq!(parse_cost(".5e1"), Some(50_000));
    assert_eq!(parse_cost("1.e2"), Some(1_000_000));
    assert_eq!(parse_cost("12e0"), Some(120_000));
    assert_eq!(parse_cost("12e-0"), Some(120_000));
    assert_eq!(parse_cost("1e-2"), Some(100));
    assert_eq!(parse_cost("1e-4"), Some(1));
    assert_eq!(parse_cost("123456e-3"), Some(1_234_560));
    assert_eq!(parse_cost("9e14"), Some(9_000_000_000_000_000_000));
    assert_eq!(parse_cost("0.0009e3"), Some(9_000));
    assert_eq!(parse_cost("1e0000000000000000000000000000000000000002"), Some(1_000_000));
}

#[test]
fn cost_with_exponent_rounds_to_the_nearer_unit() {
    assert_eq!(parse_cost("1e-5"), Some(0));
    assert_eq!(parse_cost("5e-5"), Some(1));
    assert_eq!(parse_cost("-5e-5"), Some(-1));
    assert_eq!(parse_cost("49999e-9"), Some(0));
    assert_eq!(parse_cost("123456e-8"), Some(12));
    assert_eq!(parse_cost("123456e-10"), Some(0));
    assert_eq!(parse_cost("9e-6"), Some(0));
    assert_eq!(parse_cost("1e-99999999999999999999999999999999999999"), Some(0));
    assert_eq!(parse_cost("-7.5e-4000000000000000000000000000000000000000"), Some(0));
}

#[test]
fn cost_with_exponent_out_of_range() {
    assert_eq!(parse_cost("1e15"), None);
    assert_eq!(parse_cost("1e400"), None);
    assert_eq!(parse_cost("1e99999999999999999999999999999999999999"), None);
    assert_eq!(parse_cost("0.000e99999999999999999999999999999999999999"), Some(0));
    assert_eq!(parse_cost("0e1000"), Some(0));
    assert_eq!(parse_cost("922337203685477.5807e0"), Some(i64::MAX));
    assert_eq!(parse_cost("9223372036854775807e-4"), Some(i64::MAX));
    assert_eq!(parse_cost("9223372036854775808e-4"), None);
}

#[test]
fn cost_rejects_broken_exponents() {
    assert_eq!(parse_cost("1e"), None);
    assert_eq!(parse_cost("1e+"), None);
    assert_eq!(parse_cost("1e-"), None);
    assert_eq!(parse_cost("e5"), None);
    assert_eq!(parse_cost(".e5"), None);
    assert_eq!(parse_cost("1e5x"), None);
    assert_eq!(parse_cost("1e 5"), None);
    assert_eq!(parse_cost("1e0.5"), None);
    assert_eq!(parse_cost("1ee5"), None);
    assert_eq!(parse_cost("1e++5"), None);
}

#[test]
fn cost_agrees_with_floating_point_within_a_unit() {
    let texts = [
        "0", "1", "4.5", "4.50", "1200.00", "-3.25", "+7", ".5", "5.", "0.0001", "3.14159",
        "2.71828182845", "1e3", "1.5e-2", "123456e-8", "0.00005", "99.99995", "1E2", "-0.1e1",
    ];
    for text in texts.iter() {
        let units = parse_cost(text).unwrap();
        let float: f64 = text.parse().unwrap();
        assert!((units as f64 - float * 10_000.0).abs() <= 0.5 + 1e-6);
    }
}

#[test]
fn cost_rounds_to_the_nearer_unit() {
    assert_eq!(parse_cost("0.00001"), Some(0));
    assert_eq!(parse_cost("0.00004999"), Some(0));
    assert_eq!(parse_cost("0.00005"), Some(1));
    assert_eq!(parse_cost("-0.00005"), Some(-1));
    assert_eq!(parse_cost("-0.00004"), Some(0));
    assert_eq!(parse_cost("4.50001"), Some(45_000));
    assert_eq!(parse_cost("4.50006"), Some(45_001));
    assert_eq!(parse_cost("1.99995"), Some(20_000));
    assert_eq!(parse_cost("1.999949"), Some(19_999));
    assert_eq!(parse_cost("3.14159265358979"), Some(31_416));
}

#[test]
fn cost_rejects_what_it_cannot_hold() {
    assert_eq!(parse_cost("922337203685477.5807"), Some(i64::MAX));
    assert_eq!(parse_cost("-922337203685477.5807"), Some(-i64::MAX));
    assert_eq!(parse_cost("922337203685477.58074"), Some(i64::MAX));
    assert_eq!(parse_cost("922337203685477.58075"), None);
    assert_eq!(parse_cost("922337203685477.5808"), None);
    assert_eq!(parse_cost("99999999999999999999"), None);
}

#[test]
fn line_sets_one_field() {
    assert_eq!(read_line("name: Rent", 0), Ok(Entry::Name("Rent".to_string())));
    assert_eq!(read_line("cost: 12.5", 3), Ok(Entry::Cost(125_000)));
    assert_eq!(read_line("date: 2020-01-02", 0), Ok(Entry::Date("2020-01-02".to_string())));
    assert_eq!(read_line("note: anything", 0), Ok(Entry::Other));
    assert_eq!(read_line("@food @drink", 0), Ok(Entry::Other));
    assert_eq!(read_line("", 0), Ok(Entry::Other));
    assert_eq!(read_line("name: a: b", 0), Ok(Entry::Name("a: b".to_string())));
    assert_eq!(read_line("name: ", 0), Ok(Entry::Name(String::new())));
}

#[test]
fn line_faults_name_their_line() {
    assert_eq!(read_line("name", 4), Err(ParseError::MalformedLine { line: 4 }));
    assert_eq!(read_line("cost", 1), Err(ParseError::MalformedLine { line: 1 }));
    assert_eq!(read_line("cost: much", 2), Err(ParseError::InvalidCost { line: 2 }));
    assert_eq!(read_line("cost: 0.00001", 2), Ok(Entry::Cost(0)));
    assert_eq!(read_line("cost: 1e3", 2), Ok(Entry::Cost(10_000_000)));
    assert_eq!(read_line("cost:12", 2), Ok(Entry::Other));
}

#[test]
fn record_takes_the_last_value_of_each_key() {
    let item = BudgetItem::new(
        &lines(&["name: Old", "cost: 1", "name: New", "date: monday", "cost: 2.5", "date: friday"]),
        &lines(&["food"]),
    )
    .unwrap();
    assert_eq!(item.name, "New");
    assert_eq!(item.cost, 25_000);
    assert_eq!(item.date, Some("friday".to_string()));
    assert_eq!(item.tags, lines(&["food"]));
}

#[test]
fn record_defaults() {
    let item = BudgetItem::new(&lines(&["something else"]), &lines(&[])).unwrap();
    assert_eq!(item.name, "");
    assert_eq!(item.cost, 0);
    assert_eq!(item.date, None);
    assert!(item.tags.is_empty());
}

#[test]
fn record_fails_on_the_first_fault() {
    let r = BudgetItem::new(&lines(&["name: x", "cost: no", "name", "cost: 3"]), &lines(&[]));
    assert_eq!(r, Err(ParseError::InvalidCost { line: 1 }));
    let r = BudgetItem::new(&lines(&["date", "cost: no"]), &lines(&[]));
    assert_eq!(r, Err(ParseError::MalformedLine { line: 0 }));
}

#[test]
fn record_keeps_each_tag_once() {
    let item = BudgetItem::new(&lines(&[]), &lines(&["b", "a", "b", "c", "a"])).unwrap();
    assert_eq!(item.tags, lines(&["b", "a", "c"]));
}
