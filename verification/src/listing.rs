//! Records put in order for a listing: the largest cost first.
//!
//! Costs are compared exactly. Two costs that differ by less than a unit are
//! the same cost, so no tolerance enters the comparison.

use crate::budgetitem::{items, BudgetItem, ItemView};
use vstd::prelude::*;

verus! {

/// Whether no record of `records` costs more than one that stands before it.
pub open spec fn descending(records: Seq<ItemView>) -> bool {
    forall|i: int, j: int|
        0 <= i < j < records.len() ==> (#[trigger] records[i]).cost >= (#[trigger] records[j]).cost
}

/// The records of `records`, the largest cost first. The order among records
/// of one cost is left open.
pub fn largest_first(records: &Vec<BudgetItem>) -> (out: Vec<BudgetItem>)
    ensures
        descending(items(out@)),
        items(out@).to_multiset() == items(records@).to_multiset(),
{
    let ghost all = items(records@);
    let mut out: Vec<BudgetItem> = Vec::new();
    let mut i: usize = 0;
    proof {
        assert(all.take(0) =~= Seq::<ItemView>::empty());
        assert(items(out@) =~= Seq::<ItemView>::empty());
    }
    while i < records.len()
        invariant
            i <= records.len(),
            all == items(records@),
            out@.len() == i,
            descending(items(out@)),
            items(out@).to_multiset() == all.take(i as int).to_multiset(),
        decreases records.len() - i,
    {
        let cost = records[i].cost;
        let mut at: usize = 0;
        while at < out.len() && out[at].cost > cost
            invariant
                at <= out.len(),
                forall|k: int| 0 <= k < at ==> (#[trigger] items(out@)[k]).cost > cost,
            decreases out.len() - at,
        {
            at += 1;
        }
        let ghost before = items(out@);
        let ghost record = records@[i as int]@;
        out.insert(at, records[i].clone());
        proof {
            let after = items(out@);
            assert(after =~= before.insert(at as int, record));
            assert(all.take(i + 1) =~= all.take(i as int).push(record));
            vstd::seq_lib::to_multiset_insert(before, at as int, record);
            all.take(i as int).to_multiset_ensures();
            assert(after.to_multiset() =~= all.take(i + 1).to_multiset());
            assert forall|a: int, b: int| 0 <= a < b < after.len() implies (#[trigger] after[a]).cost
                >= (#[trigger] after[b]).cost by {
                if b < at {
                    assert(after[a] == before[a] && after[b] == before[b]);
                } else if b == at {
                    assert(after[a] == before[a]);
                } else if a < at {
                    assert(after[a] == before[a] && after[b] == before[b - 1]);
                } else if a == at {
                    assert(after[b] == before[b - 1]);
                    assert(before[at as int].cost <= cost);
                    if b - 1 > at {
                        assert(before[at as int].cost >= before[b - 1].cost);
                    }
                } else {
                    assert(after[a] == before[a - 1] && after[b] == before[b - 1]);
                }
            }
        }
        i += 1;
    }
    assert(all.take(i as int) =~= all);
    out
}

} // verus!
