//! The tag index: for each tag, the records that carry it.
//!
//! The index holds one bucket for each tag that some record carries, the
//! buckets in dictionary order of their tags. A bucket holds the records that
//! carry its tag, each once, in the order in which they were given.

use crate::budgetitem::{items, BudgetItem, ItemView};
use crate::text::{
    ascending, comes_before, drop_repeats, lemma_ascending_distinct, lemma_filter_push,
    lemma_precedes_irreflexive, lemma_precedes_total, lemma_precedes_transitive,
    lemma_without_repeats, precedes, texts, without_repeats,
};
use vstd::prelude::*;

verus! {

/// The records that carry one tag.
#[derive(Debug, PartialEq, Eq)]
pub struct Bucket {
    pub tag: String,
    pub items: Vec<BudgetItem>,
}

/// The mapping from each tag to the records that carry it.
#[derive(Debug, PartialEq, Eq)]
pub struct TagIndex {
    buckets: Vec<Bucket>,
}

/// The records of `records` that carry `tag`, in their order.
pub open spec fn carrying(records: Seq<ItemView>, tag: Seq<char>) -> Seq<ItemView> {
    records.filter(|r: ItemView| r.tags.contains(tag))
}

/// The index of `records`: each tag that a record carries, with the records
/// that carry it.
pub open spec fn index_of(records: Seq<ItemView>) -> Map<Seq<char>, Seq<ItemView>> {
    Map::new(
        |tag: Seq<char>| carrying(records, tag).len() > 0,
        |tag: Seq<char>| carrying(records, tag),
    )
}

/// The tags of a sequence of buckets.
pub open spec fn bucket_tags(buckets: Seq<Bucket>) -> Seq<Seq<char>> {
    Seq::new(buckets.len(), |k: int| buckets[k].tag@)
}

/// What a sequence of buckets holds under `tag`: the records of the bucket
/// with that tag, and nothing where there is none.
pub open spec fn contents(buckets: Seq<Bucket>, tag: Seq<char>) -> Seq<ItemView> {
    if bucket_tags(buckets).contains(tag) {
        items(buckets[bucket_tags(buckets).index_of(tag)].items@)
    } else {
        Seq::empty()
    }
}

/// Whether the buckets stand in dictionary order of their tags and none of
/// them is empty.
pub open spec fn well_formed(buckets: Seq<Bucket>) -> bool {
    &&& ascending(bucket_tags(buckets))
    &&& forall|k: int| 0 <= k < buckets.len() ==> (#[trigger] buckets[k]).items@.len() > 0
}

/// A record stands under a tag exactly where it is one of the records and
/// carries the tag. So a record stands under each of its tags and under no
/// other, and a record without tags stands under none.
pub proof fn lemma_stands_under(records: Seq<ItemView>, tag: Seq<char>, record: ItemView)
    ensures
        index_of(records).dom().contains(tag) && index_of(records)[tag].contains(record)
            <==> records.contains(record) && record.tags.contains(tag),
{
    let pred = |r: ItemView| r.tags.contains(tag);
    let bucket = carrying(records, tag);
    if bucket.contains(record) {
        let k = bucket.index_of(record);
        records.lemma_filter_pred(pred, k);
        records.lemma_filter_contains_rev(pred, record);
    }
    if records.contains(record) && record.tags.contains(tag) {
        let i = records.index_of(record);
        records.lemma_filter_contains(pred, i);
    }
}

/// A record stands under each of its tags as often as it is among the
/// records: once where it is there once. Under another tag it does not stand.
pub proof fn lemma_stands_as_often(records: Seq<ItemView>, tag: Seq<char>, record: ItemView)
    ensures
        carrying(records, tag).to_multiset().count(record) == if record.tags.contains(tag) {
            records.to_multiset().count(record)
        } else {
            0
        },
    decreases records.len(),
{
    broadcast use vstd::seq_lib::group_to_multiset_ensures;

    let pred = |r: ItemView| r.tags.contains(tag);
    if records.len() == 0 {
        reveal(Seq::filter);
        assert(carrying(records, tag).to_multiset().len() == 0);
        assert(records.to_multiset().len() == 0);
    } else {
        let before = records.drop_last();
        lemma_stands_as_often(before, tag, record);
        lemma_filter_push(before, records.last(), pred);
        assert(before.push(records.last()) =~= records);
    }
}

/// In well-formed buckets, what stands under the tag of a bucket is that
/// bucket's records.
pub proof fn lemma_contents_at(buckets: Seq<Bucket>, k: int)
    requires
        ascending(bucket_tags(buckets)),
        0 <= k < buckets.len(),
    ensures
        bucket_tags(buckets).contains(buckets[k].tag@),
        bucket_tags(buckets).index_of(buckets[k].tag@) == k,
        contents(buckets, buckets[k].tag@) == items(buckets[k].items@),
{
    let tags = bucket_tags(buckets);
    lemma_ascending_distinct(tags);
    assert(tags[k] == buckets[k].tag@);
    let found = tags.index_of(buckets[k].tag@);
    assert(0 <= found < tags.len() && tags[found] == tags[k]);
}

/// Adds `item` under `tag`: to the bucket with that tag, or to a new bucket
/// put in its place in the order.
fn place(buckets: &mut Vec<Bucket>, tag: &String, item: BudgetItem)
    requires
        well_formed(old(buckets)@),
    ensures
        well_formed(final(buckets)@),
        contents(final(buckets)@, tag@) == contents(old(buckets)@, tag@).push(item@),
        forall|t: Seq<char>| t != tag@ ==> contents(final(buckets)@, t) == contents(old(buckets)@, t),
{
    let ghost before = buckets@;
    let ghost tags = bucket_tags(before);
    let mut at: usize = 0;
    while at < buckets.len() && comes_before(buckets[at].tag.as_str(), tag.as_str())
        invariant
            buckets@ == before,
            tags == bucket_tags(before),
            at <= buckets.len(),
            forall|k: int| 0 <= k < at ==> precedes(#[trigger] tags[k], tag@),
        decreases buckets.len() - at,
    {
        assert(tags[at as int] == buckets@[at as int].tag@);
        at += 1;
    }
    if at < buckets.len() && buckets[at].tag == *tag {
        let mut bucket = buckets.remove(at);
        bucket.items.push(item);
        let ghost grown = bucket;
        buckets.insert(at, bucket);
        proof {
            let after = buckets@;
            assert(after =~= before.update(at as int, grown));
            assert(bucket_tags(after) =~= tags);
            assert(items(grown.items@) =~= items(before[at as int].items@).push(item@));
            lemma_contents_at(before, at as int);
            lemma_contents_at(after, at as int);
            assert forall|t: Seq<char>| t != tag@ implies contents(after, t) == contents(
                before,
                t,
            ) by {
                if tags.contains(t) {
                    let k = tags.index_of(t);
                    assert(after[k] == before[k]);
                }
            }
            assert forall|k: int| 0 <= k < after.len() implies (#[trigger] after[k]).items@.len()
                > 0 by {
                if k != at {
                    assert(after[k] == before[k]);
                }
            }
        }
    } else {
        let mut fresh: Vec<BudgetItem> = Vec::new();
        fresh.push(item);
        let bucket = Bucket { tag: tag.clone(), items: fresh };
        let ghost put = bucket;
        buckets.insert(at, bucket);
        proof {
            let after = buckets@;
            let after_tags = bucket_tags(after);
            assert(after =~= before.insert(at as int, put));
            assert(after_tags =~= tags.insert(at as int, tag@));
            assert(items(put.items@) =~= Seq::<ItemView>::empty().push(item@));
            // the new tag comes before every tag from its place on
            assert forall|k: int| at <= k < tags.len() implies precedes(tag@, #[trigger] tags[k]) by {
                assert(tags[at as int] == before[at as int].tag@);
                lemma_precedes_total(tags[at as int], tag@);
                if k > at {
                    assert(precedes(tags[at as int], tags[k]));
                    lemma_precedes_transitive(tag@, tags[at as int], tags[k]);
                }
            }
            assert forall|i: int, j: int| 0 <= i < j < after_tags.len() implies precedes(
                #[trigger] after_tags[i],
                #[trigger] after_tags[j],
            ) by {
                if j < at {
                    assert(precedes(tags[i], tags[j]));
                } else if j == at {
                    assert(precedes(tags[i], tag@));
                } else if i < at {
                    assert(precedes(tags[i], tags[j - 1]));
                } else if i == at {
                    assert(precedes(tag@, tags[j - 1]));
                } else {
                    assert(precedes(tags[i - 1], tags[j - 1]));
                }
            }
            assert forall|k: int| 0 <= k < after.len() implies (#[trigger] after[k]).items@.len()
                > 0 by {
                if k < at {
                    assert(after[k] == before[k]);
                } else if k > at {
                    assert(after[k] == before[k - 1]);
                }
            }
            // the tag was not there
            assert(!tags.contains(tag@)) by {
                if tags.contains(tag@) {
                    let k = tags.index_of(tag@);
                    lemma_precedes_irreflexive(tag@);
                    if k < at {
                        assert(precedes(tags[k], tag@));
                    } else {
                        assert(precedes(tag@, tags[k]));
                    }
                }
            }
            assert(after[at as int] == put);
            lemma_contents_at(after, at as int);
            assert forall|t: Seq<char>| t != tag@ implies contents(after, t) == contents(
                before,
                t,
            ) by {
                if tags.contains(t) {
                    let k = tags.index_of(t);
                    lemma_contents_at(before, k);
                    if k < at {
                        assert(after[k] == before[k]);
                        lemma_contents_at(after, k);
                    } else {
                        assert(after[k + 1] == before[k]);
                        lemma_contents_at(after, k + 1);
                    }
                } else if after_tags.contains(t) {
                    let k = after_tags.index_of(t);
                    if k < at {
                        assert(tags[k] == t);
                    } else if k > at {
                        assert(tags[k - 1] == t);
                    }
                }
            }
        }
    }
}

impl View for TagIndex {
    type V = Map<Seq<char>, Seq<ItemView>>;

    /// The mapping from each tag of the index to the records under it.
    open spec fn view(&self) -> Map<Seq<char>, Seq<ItemView>> {
        Map::new(
            |tag: Seq<char>| bucket_tags(self.entries()).contains(tag),
            |tag: Seq<char>| contents(self.entries(), tag),
        )
    }
}

impl TagIndex {
    /// The buckets of the index, in their order.
    pub closed spec fn entries(&self) -> Seq<Bucket> {
        self.buckets@
    }

    #[verifier::type_invariant]
    spec fn ordered(self) -> bool {
        well_formed(self.buckets@)
    }

    /// Builds the index of `records`: every record stands once in the bucket
    /// of each tag that it carries and in no other, in the order of
    /// `records`; a record without tags stands in none.
    pub fn build(records: &Vec<BudgetItem>) -> (index: TagIndex)
        ensures
            index@ == index_of(items(records@)),
            well_formed(index.entries()),
    {
        let ghost all = items(records@);
        let mut buckets: Vec<Bucket> = Vec::new();
        let mut i: usize = 0;
        proof {
            assert(bucket_tags(buckets@) =~= Seq::<Seq<char>>::empty());
            assert forall|t: Seq<char>| contents(buckets@, t) == carrying(all.take(0), t) by {
                reveal(Seq::filter);
                assert(all.take(0) =~= Seq::<ItemView>::empty());
            }
        }
        while i < records.len()
            invariant
                i <= records.len(),
                all == items(records@),
                well_formed(buckets@),
                forall|t: Seq<char>| contents(buckets@, t) == carrying(all.take(i as int), t),
            decreases records.len() - i,
        {
            let own = drop_repeats(&records[i].tags);
            let ghost record = records@[i as int]@;
            let ghost held = texts(own@);
            let mut j: usize = 0;
            proof {
                lemma_without_repeats(record.tags);
                assert(held.take(0) =~= Seq::<Seq<char>>::empty());
            }
            while j < own.len()
                invariant
                    j <= own.len(),
                    i < records.len(),
                    all == items(records@),
                    record == records@[i as int]@,
                    held == texts(own@),
                    held.no_duplicates(),
                    well_formed(buckets@),
                    forall|t: Seq<char>| #[trigger]
                        contents(buckets@, t) == carrying(all.take(i as int), t) + (if held.take(
                            j as int,
                        ).contains(t) {
                            seq![record]
                        } else {
                            Seq::empty()
                        }),
                decreases own.len() - j,
            {
                let ghost before = buckets@;
                let ghost tag = own@[j as int]@;
                place(&mut buckets, &own[j], records[i].clone());
                proof {
                    assert(held[j as int] == tag);
                    assert(held.take(j + 1) =~= held.take(j as int).push(tag));
                    assert(!held.take(j as int).contains(tag)) by {
                        if held.take(j as int).contains(tag) {
                            let k = held.take(j as int).index_of(tag);
                            assert(held[k] == held[j as int]);
                        }
                    }
                    assert(held.take(j + 1).contains(tag)) by {
                        assert(held.take(j + 1)[j as int] == tag);
                    }
                    assert forall|t: Seq<char>| #[trigger]
                        contents(buckets@, t) == carrying(all.take(i as int), t) + (if held.take(
                            j + 1,
                        ).contains(t) {
                            seq![record]
                        } else {
                            Seq::empty()
                        }) by {
                        assert(contents(before, t) == carrying(all.take(i as int), t) + (
                        if held.take(j as int).contains(t) {
                            seq![record]
                        } else {
                            Seq::empty()
                        }));
                        if t == tag {
                            assert(carrying(all.take(i as int), t).push(record) =~= carrying(
                                all.take(i as int),
                                t,
                            ) + seq![record]);
                            assert(carrying(all.take(i as int), t) + Seq::<ItemView>::empty()
                                =~= carrying(all.take(i as int), t));
                        } else {
                            if held.take(j as int).contains(t) {
                                let k = held.take(j as int).index_of(t);
                                assert(held.take(j + 1)[k] == t);
                            }
                            if held.take(j + 1).contains(t) {
                                let k = held.take(j + 1).index_of(t);
                                assert(held.take(j as int)[k] == t);
                            }
                        }
                    }
                }
                j += 1;
            }
            proof {
                assert(held.take(j as int) =~= held);
                assert(all.take(i + 1) =~= all.take(i as int).push(record));
                assert forall|t: Seq<char>| contents(buckets@, t) == carrying(all.take(i + 1), t) by {
                    lemma_filter_push(
                        all.take(i as int),
                        record,
                        |r: ItemView| r.tags.contains(t),
                    );
                    assert(contents(buckets@, t) == carrying(all.take(i as int), t) + (
                    if held.contains(t) {
                        seq![record]
                    } else {
                        Seq::empty()
                    }));
                    if record.tags.contains(t) {
                        assert(carrying(all.take(i as int), t).push(record) =~= carrying(
                            all.take(i as int),
                            t,
                        ) + seq![record]);
                    } else {
                        assert(carrying(all.take(i as int), t) + Seq::<ItemView>::empty()
                            =~= carrying(all.take(i as int), t));
                    }
                }
            }
            i += 1;
        }
        let index = TagIndex { buckets };
        proof {
            assert(all.take(i as int) =~= all);
            assert forall|t: Seq<char>|
                bucket_tags(index.entries()).contains(t) <==> carrying(all, t).len() > 0 by {
                assert(contents(index.entries(), t) == carrying(all, t));
                if bucket_tags(index.entries()).contains(t) {
                    let k = bucket_tags(index.entries()).index_of(t);
                    lemma_contents_at(index.entries(), k);
                    assert(index.entries()[k].items@.len() > 0);
                }
            }
            assert(index@ =~= index_of(all));
        }
        index
    }

    /// The tags of the index, in dictionary order.
    pub fn tags(&self) -> (tags: Vec<String>)
        ensures
            texts(tags@) == bucket_tags(self.entries()),
            ascending(texts(tags@)),
            texts(tags@).to_set() == self@.dom(),
    {
        proof {
            use_type_invariant(self);
        }
        let mut tags: Vec<String> = Vec::new();
        let mut k: usize = 0;
        while k < self.buckets.len()
            invariant
                k <= self.buckets.len(),
                tags@.len() == k,
                forall|m: int| 0 <= m < k ==> tags@[m]@ == self.buckets@[m].tag@,
            decreases self.buckets.len() - k,
        {
            tags.push(self.buckets[k].tag.clone());
            k += 1;
        }
        assert(texts(tags@) =~= bucket_tags(self.entries()));
        assert(texts(tags@).to_set() =~= self@.dom());
        tags
    }

    /// The records under `tag`, if the index has the tag.
    pub fn get(&self, tag: &String) -> (found: Option<&Vec<BudgetItem>>)
        ensures
            match found {
                Some(records) => self@.dom().contains(tag@) && items(records@) == self@[tag@],
                None => !self@.dom().contains(tag@),
            },
    {
        proof {
            use_type_invariant(self);
        }
        let mut k: usize = 0;
        while k < self.buckets.len()
            invariant
                k <= self.buckets.len(),
                well_formed(self.buckets@),
                forall|m: int| 0 <= m < k ==> bucket_tags(self.buckets@)[m] != tag@,
            decreases self.buckets.len() - k,
        {
            if self.buckets[k].tag == *tag {
                proof {
                    lemma_contents_at(self.buckets@, k as int);
                }
                return Some(&self.buckets[k].items);
            }
            k += 1;
        }
        None
    }

    /// The buckets of the index: in dictionary order of their tags, none of
    /// them empty.
    pub fn as_buckets(&self) -> (buckets: &Vec<Bucket>)
        ensures
            buckets@ == self.entries(),
            well_formed(buckets@),
    {
        proof {
            use_type_invariant(self);
        }
        &self.buckets
    }
}

} // verus!
