//! One budget item: the record that the lines of its file describe.
//!
//! A line sets a field where it reads `key: value`, the key ending at the
//! first colon that a space follows. The keys `name`, `cost` and `date` are
//! known; a line with another key, or with no such colon, sets nothing.
//! A later line overrides an earlier one of the same key. Two lines are
//! faults: one that holds a known key and nothing else, and a `cost` whose
//! value is not the text of a cost.

use crate::cost::{cost_units, parse_cost};
use crate::text::{chars_of, copy_texts, drop_repeats, prefix_is, texts, without_repeats};
use vstd::prelude::*;

verus! {

/// Why the lines of a file describe no record. `line` counts from zero.
#[derive(Clone, Copy, Debug, PartialEq, Eq, Structural)]
pub enum ParseError {
    /// The line holds a known key and no value.
    MalformedLine { line: usize },
    /// The line gives a cost that is no cost.
    InvalidCost { line: usize },
}

/// What one line sets.
#[derive(Debug, PartialEq, Eq)]
pub enum Entry {
    Name(String),
    Cost(i64),
    Date(String),
    /// The line sets nothing.
    Other,
}

/// A budget item. `cost` counts units, see [`crate::cost`].
#[derive(Debug, PartialEq, Eq)]
pub struct BudgetItem {
    pub name: String,
    pub cost: i64,
    pub date: Option<String>,
    pub tags: Vec<String>,
}

/// A budget item as plain values.
#[verifier::ext_equal]
pub struct ItemView {
    pub name: Seq<char>,
    pub cost: int,
    pub date: Option<Seq<char>>,
    pub tags: Seq<Seq<char>>,
}

impl View for BudgetItem {
    type V = ItemView;

    open spec fn view(&self) -> ItemView {
        ItemView {
            name: self.name@,
            cost: self.cost as int,
            date: match self.date {
                Some(d) => Some(d@),
                None => None,
            },
            tags: texts(self.tags@),
        }
    }
}

impl Clone for BudgetItem {
    fn clone(&self) -> (copy: Self)
        ensures
            copy@ == self@,
    {
        BudgetItem {
            name: self.name.clone(),
            cost: self.cost,
            date: match &self.date {
                Some(d) => Some(d.clone()),
                None => None,
            },
            tags: copy_texts(&self.tags),
        }
    }
}

/// The records held by a sequence of budget items, each as plain values.
pub open spec fn items(v: Seq<BudgetItem>) -> Seq<ItemView> {
    Seq::new(v.len(), |i: int| v[i]@)
}

pub open spec fn name_key() -> Seq<char> {
    "name"@
}

pub open spec fn cost_key() -> Seq<char> {
    "cost"@
}

pub open spec fn date_key() -> Seq<char> {
    "date"@
}

pub open spec fn is_known_key(key: Seq<char>) -> bool {
    key == name_key() || key == cost_key() || key == date_key()
}

/// Whether a colon and a space stand at `at` in `line`.
pub open spec fn delimiter_at(line: Seq<char>, at: int) -> bool {
    0 <= at && at + 1 < line.len() && line[at] == ':' && line[at + 1] == ' '
}

/// The place of the first delimiter of `line` at or after `from`; the length
/// of `line` where there is none.
pub open spec fn delimiter_from(line: Seq<char>, from: int) -> int
    decreases line.len() - from,
{
    if from < 0 || from >= line.len() {
        line.len() as int
    } else if delimiter_at(line, from) {
        from
    } else {
        delimiter_from(line, from + 1)
    }
}

/// The place of the first delimiter of `line`; its length where it has none.
pub open spec fn delimiter(line: Seq<char>) -> int {
    delimiter_from(line, 0)
}

/// The key of a line: what stands before its first delimiter, or the whole
/// line where it has none.
pub open spec fn field_key(line: Seq<char>) -> Seq<char> {
    line.take(delimiter(line))
}

/// The value of a line: what stands after its first delimiter, if it has one.
pub open spec fn field_value(line: Seq<char>) -> Option<Seq<char>> {
    if delimiter(line) < line.len() {
        Some(line.skip(delimiter(line) + 2))
    } else {
        None
    }
}

/// Whether `line` holds a known key and no value.
pub open spec fn is_malformed(line: Seq<char>) -> bool {
    is_known_key(field_key(line)) && field_value(line) is None
}

/// Whether `line` gives a cost that is no cost.
pub open spec fn is_invalid_cost(line: Seq<char>) -> bool {
    &&& field_key(line) == cost_key()
    &&& field_value(line) matches Some(v)
    &&& cost_units(v) is None
}

/// Whether `line` is a fault.
pub open spec fn is_fault(line: Seq<char>) -> bool {
    is_malformed(line) || is_invalid_cost(line)
}

/// Whether `line` sets the field `key`.
pub open spec fn sets(line: Seq<char>, key: Seq<char>) -> bool {
    field_key(line) == key && field_value(line) is Some
}

/// The value that the last line of `lines` with the key `key` gives.
pub open spec fn last_value(lines: Seq<Seq<char>>, key: Seq<char>) -> Option<Seq<char>>
    decreases lines.len(),
{
    if lines.len() == 0 {
        None
    } else if sets(lines.last(), key) {
        field_value(lines.last())
    } else {
        last_value(lines.drop_last(), key)
    }
}

/// The record that `lines` describe, none of them being a fault, with `tags`
/// for its tags: each field has the value that its last line gives; without
/// such a line the name is empty, the cost zero and the date absent.
pub open spec fn record_of(lines: Seq<Seq<char>>, tags: Seq<Seq<char>>) -> ItemView {
    ItemView {
        name: match last_value(lines, name_key()) {
            Some(v) => v,
            None => Seq::empty(),
        },
        cost: match last_value(lines, cost_key()) {
            Some(v) => cost_units(v).unwrap(),
            None => 0,
        },
        date: last_value(lines, date_key()),
        tags: without_repeats(tags),
    }
}

/// The first line of `lines` that is a fault is the line `at`.
pub open spec fn first_fault_at(lines: Seq<Seq<char>>, at: int) -> bool {
    &&& 0 <= at < lines.len()
    &&& is_fault(lines[at])
    &&& forall|j: int| 0 <= j < at ==> !is_fault(#[trigger] lines[j])
}

/// The last line that sets a field decides it: where the line `at` sets
/// `key` and no later line does, the field has the value of that line.
pub proof fn lemma_last_line_wins(lines: Seq<Seq<char>>, key: Seq<char>, at: int)
    requires
        0 <= at < lines.len(),
        sets(lines[at], key),
        forall|j: int| at < j < lines.len() ==> !sets(#[trigger] lines[j], key),
    ensures
        last_value(lines, key) == field_value(lines[at]),
    decreases lines.len(),
{
    if at < lines.len() - 1 {
        assert(!sets(lines[lines.len() - 1], key));
        assert forall|j: int| at < j < lines.drop_last().len() implies !sets(
            #[trigger] lines.drop_last()[j],
            key,
        ) by {
            assert(lines.drop_last()[j] == lines[j]);
        }
        lemma_last_line_wins(lines.drop_last(), key, at);
    }
}

/// A field that no line sets has no value.
pub proof fn lemma_unset_field(lines: Seq<Seq<char>>, key: Seq<char>)
    requires
        forall|j: int| 0 <= j < lines.len() ==> !sets(#[trigger] lines[j], key),
    ensures
        last_value(lines, key) is None,
    decreases lines.len(),
{
    if lines.len() > 0 {
        assert(!sets(lines[lines.len() - 1], key));
        assert forall|j: int| 0 <= j < lines.drop_last().len() implies !sets(
            #[trigger] lines.drop_last()[j],
            key,
        ) by {
            assert(lines.drop_last()[j] == lines[j]);
        }
        lemma_unset_field(lines.drop_last(), key);
    }
}

/// The three known keys differ.
pub proof fn lemma_keys_differ()
    ensures
        name_key() != cost_key(),
        name_key() != date_key(),
        cost_key() != date_key(),
{
    reveal_strlit("name");
    reveal_strlit("cost");
    reveal_strlit("date");
    assert(name_key()[0] == 'n');
    assert(cost_key()[0] == 'c');
    assert(date_key()[0] == 'd');
}

/// No delimiter stands before the first one, and one stands there unless the
/// line has none.
pub proof fn lemma_delimiter_from(line: Seq<char>, from: int)
    requires
        0 <= from,
    ensures
        from <= delimiter_from(line, from) || delimiter_from(line, from) == line.len(),
        delimiter_from(line, from) <= line.len(),
        delimiter_from(line, from) < line.len() ==> delimiter_at(line, delimiter_from(line, from)),
        forall|j: int| from <= j < delimiter_from(line, from) ==> !delimiter_at(line, j),
    decreases line.len() - from,
{
    if from < line.len() && !delimiter_at(line, from) {
        lemma_delimiter_from(line, from + 1);
    }
}

/// Finds the first delimiter of a line.
fn find_delimiter(chars: &Vec<char>) -> (at: usize)
    ensures
        at == delimiter(chars@),
        at <= chars.len(),
{
    let mut at: usize = 0;
    while at < chars.len()
        invariant
            at <= chars.len(),
            delimiter(chars@) == delimiter_from(chars@, at as int),
        decreases chars.len() - at,
    {
        if chars[at] == ':' && at + 1 < chars.len() && chars[at + 1] == ' ' {
            return at;
        }
        at += 1;
    }
    at
}

/// Reads one line, the line `index` of its file: what it sets, or the fault
/// that it is.
pub fn read_line(line: &str, index: usize) -> (r: Result<Entry, ParseError>)
    ensures
        match r {
            Ok(Entry::Name(s)) => sets(line@, name_key()) && field_value(line@) == Some(s@),
            Ok(Entry::Cost(c)) => sets(line@, cost_key()) && cost_units(field_value(line@).unwrap())
                == Some(c as int),
            Ok(Entry::Date(s)) => sets(line@, date_key()) && field_value(line@) == Some(s@),
            Ok(Entry::Other) => !is_known_key(field_key(line@)),
            Err(ParseError::MalformedLine { line: at }) => at == index && is_malformed(line@),
            Err(ParseError::InvalidCost { line: at }) => at == index && is_invalid_cost(line@),
        },
{
    let chars = chars_of(line);
    let n = chars.len();
    let at = find_delimiter(&chars);
    let is_name = prefix_is(&chars, at, "name");
    let is_cost = prefix_is(&chars, at, "cost");
    let is_date = prefix_is(&chars, at, "date");
    if !is_name && !is_cost && !is_date {
        return Ok(Entry::Other);
    }
    if at == n {
        return Err(ParseError::MalformedLine { line: index });
    }
    proof {
        lemma_delimiter_from(line@, 0);
        lemma_keys_differ();
    }
    let value = line.substring_char(at + 2, n);
    assert(value@ == line@.skip(at + 2));
    if is_name {
        Ok(Entry::Name(value.to_owned()))
    } else if is_cost {
        match parse_cost(value) {
            Some(units) => Ok(Entry::Cost(units)),
            None => Err(ParseError::InvalidCost { line: index }),
        }
    } else {
        Ok(Entry::Date(value.to_owned()))
    }
}

impl BudgetItem {
    /// Reads the record that `lines` describe and gives it `tags` for its
    /// tags, a repeated tag counting once. Fails on the first line that is a
    /// fault, and names it.
    pub fn new(lines: &Vec<String>, tags: &Vec<String>) -> (r: Result<BudgetItem, ParseError>)
        ensures
            match r {
                Ok(item) => {
                    &&& forall|j: int|
                        0 <= j < lines.len() ==> !is_fault(#[trigger] texts(lines@)[j])
                    &&& item@ == record_of(texts(lines@), texts(tags@))
                },
                Err(ParseError::MalformedLine { line }) => {
                    &&& first_fault_at(texts(lines@), line as int)
                    &&& is_malformed(texts(lines@)[line as int])
                },
                Err(ParseError::InvalidCost { line }) => {
                    &&& first_fault_at(texts(lines@), line as int)
                    &&& is_invalid_cost(texts(lines@)[line as int])
                },
            },
    {
        let mut name = String::new();
        let mut cost: i64 = 0;
        let mut date: Option<String> = None;
        let ghost all = texts(lines@);
        let mut i: usize = 0;
        while i < lines.len()
            invariant
                i <= lines.len(),
                all == texts(lines@),
                forall|j: int| 0 <= j < i ==> !is_fault(#[trigger] all[j]),
                match last_value(all.take(i as int), name_key()) {
                    Some(v) => name@ == v,
                    None => name@ == Seq::<char>::empty(),
                },
                match last_value(all.take(i as int), cost_key()) {
                    Some(v) => cost_units(v) == Some(cost as int),
                    None => cost == 0,
                },
                match date {
                    Some(d) => last_value(all.take(i as int), date_key()) == Some(d@),
                    None => last_value(all.take(i as int), date_key()) is None,
                },
            decreases lines.len() - i,
        {
            proof {
                lemma_keys_differ();
                assert(all.take(i + 1).drop_last() =~= all.take(i as int));
                assert(all.take(i + 1).last() == lines@[i as int]@);
            }
            match read_line(lines[i].as_str(), i) {
                Ok(Entry::Name(s)) => {
                    name = s;
                },
                Ok(Entry::Cost(c)) => {
                    cost = c;
                },
                Ok(Entry::Date(s)) => {
                    date = Some(s);
                },
                Ok(Entry::Other) => {},
                Err(e) => {
                    return Err(e);
                },
            }
            i += 1;
        }
        assert(all.take(i as int) =~= all);
        Ok(BudgetItem { name, cost, date, tags: drop_repeats(tags) })
    }
}

} // verus!
