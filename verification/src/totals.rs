//! Sums of costs: over any records, and for each tag of an index.
//!
//! Costs are whole numbers of units, so a sum is exact and the same in
//! whatever order its terms are taken.

use crate::budgetitem::{items, BudgetItem, ItemView};
use crate::tagindex::{well_formed, Bucket, TagIndex};
use vstd::prelude::*;

verus! {

/// The sum of the costs of `records`, in units; zero where there are none.
pub open spec fn sum_costs(records: Seq<ItemView>) -> int
    decreases records.len(),
{
    if records.len() == 0 {
        0
    } else {
        sum_costs(records.drop_last()) + records.last().cost
    }
}

/// The total of one tag.
#[derive(Debug, PartialEq, Eq)]
pub struct TagTotal {
    pub tag: String,
    pub total: i128,
}

/// The sum of the costs of `records`; zero where there are none.
pub fn total(records: &Vec<BudgetItem>) -> (sum: i128)
    ensures
        sum == sum_costs(items(records@)),
        records@.len() == 0 ==> sum == 0,
{
    let ghost all = items(records@);
    let mut sum: i128 = 0;
    let mut i: usize = 0;
    while i < records.len()
        invariant
            i <= records.len(),
            all == items(records@),
            sum == sum_costs(all.take(i as int)),
            -(i * 0x8000_0000_0000_0000) <= sum <= i * 0x8000_0000_0000_0000,
        decreases records.len() - i,
    {
        assert(all.take(i + 1).drop_last() =~= all.take(i as int));
        assert(all.take(i + 1).last().cost == records@[i as int].cost);
        sum = sum + records[i].cost as i128;
        i += 1;
    }
    assert(all.take(i as int) =~= all);
    sum
}

/// The total of each tag of `index`, in the order of its buckets.
pub fn per_tag_totals(index: &TagIndex) -> (totals: Vec<TagTotal>)
    ensures
        totals@.len() == index.entries().len(),
        forall|k: int|
            0 <= k < totals@.len() ==> {
                &&& (#[trigger] totals@[k]).tag@ == index.entries()[k].tag@
                &&& totals@[k].total == sum_costs(items(index.entries()[k].items@))
                &&& totals@[k].total == sum_costs(index@[totals@[k].tag@])
            },
{
    let buckets = index.as_buckets();
    let mut totals: Vec<TagTotal> = Vec::new();
    let mut k: usize = 0;
    while k < buckets.len()
        invariant
            k <= buckets.len(),
            buckets@ == index.entries(),
            well_formed(buckets@),
            totals@.len() == k,
            forall|m: int|
                0 <= m < k ==> {
                    &&& (#[trigger] totals@[m]).tag@ == buckets@[m].tag@
                    &&& totals@[m].total == sum_costs(items(buckets@[m].items@))
                    &&& totals@[m].total == sum_costs(index@[totals@[m].tag@])
                },
        decreases buckets.len() - k,
    {
        let sum = total(&buckets[k].items);
        proof {
            crate::tagindex::lemma_contents_at(buckets@, k as int);
        }
        totals.push(TagTotal { tag: buckets[k].tag.clone(), total: sum });
        k += 1;
    }
    totals
}

/// Leaving one record out lowers the sum by its cost.
pub proof fn lemma_sum_without(records: Seq<ItemView>, at: int)
    requires
        0 <= at < records.len(),
    ensures
        sum_costs(records) == sum_costs(records.remove(at)) + records[at].cost,
    decreases records.len(),
{
    if at == records.len() - 1 {
        assert(records.remove(at) =~= records.drop_last());
    } else {
        assert(records.remove(at).drop_last() =~= records.drop_last().remove(at));
        assert(records.remove(at).last() == records.last());
        lemma_sum_without(records.drop_last(), at);
    }
}

/// The sum of two runs of records put together is the sum of their sums.
pub proof fn lemma_sum_of_both(a: Seq<ItemView>, b: Seq<ItemView>)
    ensures
        sum_costs(a + b) == sum_costs(a) + sum_costs(b),
    decreases b.len(),
{
    if b.len() == 0 {
        assert(a + b =~= a);
    } else {
        assert((a + b).drop_last() =~= a + b.drop_last());
        assert((a + b).last() == b.last());
        lemma_sum_of_both(a, b.drop_last());
    }
}

/// The sum does not depend on the order of the records: two sequences that
/// hold the same records, each as often as the other, have the same sum.
pub proof fn lemma_sum_in_any_order(a: Seq<ItemView>, b: Seq<ItemView>)
    requires
        a.to_multiset() == b.to_multiset(),
    ensures
        sum_costs(a) == sum_costs(b),
    decreases a.len(),
{
    broadcast use vstd::seq_lib::group_to_multiset_ensures;

    if a.len() == 0 {
        assert(b.to_multiset().len() == 0);
    } else {
        let last = a.last();
        assert(a.contains(last)) by {
            assert(a[a.len() - 1] == last);
        }
        assert(b.to_multiset().count(last) > 0);
        let at = b.index_of(last);
        assert(a.remove(a.len() - 1) =~= a.drop_last());
        assert(a.drop_last().to_multiset() =~= b.remove(at).to_multiset());
        lemma_sum_in_any_order(a.drop_last(), b.remove(at));
        lemma_sum_without(b, at);
    }
}

} // verus!
