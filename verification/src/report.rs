//! The report on a set of records under a filter.
//!
//! The records that pass the filter are kept. The report gives them in
//! their order, the sum of their costs, their index by tag, and the tags
//! related to the filter: the tags of the kept records that the filter did
//! not ask for. Archived records, those that carry the tag `archive`, are
//! left out unless they are asked for.

use crate::budgetitem::{items, BudgetItem, ItemView};
use crate::filter::{accepts, excluded, filter_matches, is_negated};
use crate::related::{related, related_tags};
use crate::tagindex::{bucket_tags, index_of, well_formed, TagIndex};
use crate::text::{copy_texts, lemma_filter_push, texts};
use crate::totals::{sum_costs, total};
use vstd::prelude::*;

verus! {

/// What a run reports.
#[derive(Debug, PartialEq, Eq)]
pub struct Report {
    /// The sum of the costs of the kept records.
    pub total: i128,
    /// The records that passed the filter, in their order.
    pub kept: Vec<BudgetItem>,
    /// The kept records by tag.
    pub index: TagIndex,
    /// The tags of the kept records that were not asked for, in dictionary
    /// order.
    pub related: Vec<String>,
}

/// The tag that marks a record as archived.
pub open spec fn archive_tag() -> Seq<char> {
    "archive"@
}

/// The token that rules out archived records.
pub open spec fn archive_token() -> Seq<char> {
    "!archive"@
}

/// The tokens that a run filters by: those given, and after them the token
/// that rules out archived records unless these are to be included.
pub open spec fn effective(tokens: Seq<Seq<char>>, include_archived: bool) -> Seq<Seq<char>> {
    if include_archived {
        tokens
    } else {
        tokens.push(archive_token())
    }
}

/// The records of `records` that pass the filter `tokens`, in their order.
pub open spec fn passing(records: Seq<ItemView>, tokens: Seq<Seq<char>>) -> Seq<ItemView> {
    records.filter(|r: ItemView| accepts(tokens, r.tags))
}

/// The token that rules out archived records is negated, and what it rules
/// out is the archive tag.
pub proof fn lemma_archive_token()
    ensures
        is_negated(archive_token()),
        archive_token().skip(1) == archive_tag(),
{
    reveal_strlit("archive");
    reveal_strlit("!archive");
    assert(archive_token().skip(1) =~= archive_tag());
}

/// Unless archived records are included, no record that carries the archive
/// tag passes, whatever the tokens given.
pub proof fn lemma_archived_excluded(tokens: Seq<Seq<char>>, tags: Seq<Seq<char>>)
    requires
        tags.contains(archive_tag()),
    ensures
        !accepts(effective(tokens, false), tags),
{
    lemma_archive_token();
    let negated = |t: Seq<char>| is_negated(t);
    lemma_filter_push(tokens, archive_token(), negated);
    let ruled_out = excluded(effective(tokens, false));
    let last = tokens.filter(negated).len() as int;
    assert(ruled_out[last] == archive_tag());
    assert(ruled_out.contains(archive_tag()));
    let at = tags.index_of(archive_tag());
    assert(ruled_out.contains(tags[at]));
}

/// The tokens that a run filters by.
pub fn effective_tokens(tokens: &Vec<String>, include_archived: bool) -> (out: Vec<String>)
    ensures
        texts(out@) == effective(texts(tokens@), include_archived),
{
    let mut out = copy_texts(tokens);
    if !include_archived {
        let ghost before = texts(out@);
        out.push("!archive".to_owned());
        assert(texts(out@) =~= before.push(archive_token()));
    }
    out
}

/// The records of `records` that pass the filter `tokens`, in their order.
pub fn select(records: &Vec<BudgetItem>, tokens: &Vec<String>) -> (kept: Vec<BudgetItem>)
    ensures
        items(kept@) == passing(items(records@), texts(tokens@)),
{
    let ghost all = items(records@);
    let ghost asked = texts(tokens@);
    let mut kept: Vec<BudgetItem> = Vec::new();
    let mut i: usize = 0;
    proof {
        reveal(Seq::filter);
        assert(all.take(0) =~= Seq::<ItemView>::empty());
        assert(items(kept@) =~= Seq::<ItemView>::empty());
    }
    while i < records.len()
        invariant
            i <= records.len(),
            all == items(records@),
            asked == texts(tokens@),
            items(kept@) == passing(all.take(i as int), asked),
        decreases records.len() - i,
    {
        let ghost before = items(kept@);
        proof {
            assert(all.take(i + 1) =~= all.take(i as int).push(records@[i as int]@));
            lemma_filter_push(
                all.take(i as int),
                records@[i as int]@,
                |r: ItemView| accepts(asked, r.tags),
            );
        }
        if filter_matches(tokens, false, &records[i].tags) {
            kept.push(records[i].clone());
            assert(items(kept@) =~= before.push(records@[i as int]@));
        }
        i += 1;
    }
    assert(all.take(i as int) =~= all);
    kept
}

/// Whether `report` is the report on the kept records `kept` for a run that
/// asked for `requested`: it holds the kept records, the sum of their
/// costs, their index, and the tags of the index that were not asked for.
pub open spec fn reports(report: Report, kept: Seq<ItemView>, requested: Seq<Seq<char>>) -> bool {
    &&& items(report.kept@) == kept
    &&& report.total == sum_costs(kept)
    &&& report.index@ == index_of(kept)
    &&& well_formed(report.index.entries())
    &&& texts(report.related@) == related_tags(bucket_tags(report.index.entries()), requested)
    &&& texts(report.related@).to_set() == index_of(kept).dom().difference(requested.to_set())
}

/// Reports on the records that a run kept, for the tokens that it was asked
/// with.
pub fn report_on(kept: Vec<BudgetItem>, requested: &Vec<String>) -> (report: Report)
    ensures
        reports(report, items(kept@), texts(requested@)),
{
    let sum = total(&kept);
    let index = TagIndex::build(&kept);
    let seen = index.tags();
    let related = related(&seen, requested);
    Report { total: sum, kept, index, related }
}

/// Reports on `records` under the filter `tokens`. Archived records are
/// left out unless `include_archived` is set: the run filters by
/// [`effective`] tokens. The related tags are taken against the tokens as
/// given.
pub fn summarise(records: &Vec<BudgetItem>, tokens: &Vec<String>, include_archived: bool) -> (report:
    Report)
    ensures
        reports(
            report,
            passing(items(records@), effective(texts(tokens@), include_archived)),
            texts(tokens@),
        ),
        !include_archived ==> forall|k: int|
            0 <= k < report.kept@.len() ==> !(#[trigger] items(report.kept@)[k]).tags.contains(
                archive_tag(),
            ),
{
    let filter = effective_tokens(tokens, include_archived);
    let kept = select(records, &filter);
    proof {
        if !include_archived {
            let all = items(records@);
            let pred = |r: ItemView| accepts(texts(filter@), r.tags);
            assert forall|k: int| 0 <= k < kept@.len() implies !(#[trigger] items(
                kept@,
            )[k]).tags.contains(archive_tag()) by {
                all.lemma_filter_pred(pred, k);
                if items(kept@)[k].tags.contains(archive_tag()) {
                    lemma_archived_excluded(texts(tokens@), items(kept@)[k].tags);
                }
            }
        }
    }
    report_on(kept, tokens)
}

} // verus!
