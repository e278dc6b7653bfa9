//! Related tags: the tags seen on the records that passed a filter, without
//! those that the filter asked for.

use crate::text::{contains_text, lemma_filter_push, texts};
use vstd::prelude::*;

verus! {

/// The tags of `seen` that are not among `requested`, in the order of `seen`.
/// Tags are compared as plain text, letter for letter.
pub open spec fn related_tags(seen: Seq<Seq<char>>, requested: Seq<Seq<char>>) -> Seq<Seq<char>> {
    seen.filter(|t: Seq<char>| !requested.contains(t))
}

/// The tags of `seen` that are not among `requested`, in the order of `seen`.
pub fn related(seen: &Vec<String>, requested: &Vec<String>) -> (out: Vec<String>)
    ensures
        texts(out@) == related_tags(texts(seen@), texts(requested@)),
        texts(out@).to_set() == texts(seen@).to_set().difference(texts(requested@).to_set()),
{
    let ghost all = texts(seen@);
    let ghost asked = texts(requested@);
    let mut out: Vec<String> = Vec::new();
    let mut i: usize = 0;
    proof {
        reveal(Seq::filter);
        assert(all.take(0) =~= Seq::<Seq<char>>::empty());
        assert(texts(out@) =~= Seq::<Seq<char>>::empty());
    }
    while i < seen.len()
        invariant
            i <= seen.len(),
            all == texts(seen@),
            asked == texts(requested@),
            texts(out@) == related_tags(all.take(i as int), asked),
        decreases seen.len() - i,
    {
        let ghost before = texts(out@);
        proof {
            assert(all.take(i + 1) =~= all.take(i as int).push(seen@[i as int]@));
            lemma_filter_push(
                all.take(i as int),
                seen@[i as int]@,
                |t: Seq<char>| !asked.contains(t),
            );
        }
        if !contains_text(requested, &seen[i]) {
            out.push(seen[i].clone());
            assert(texts(out@) =~= before.push(seen@[i as int]@));
        }
        i += 1;
    }
    proof {
        assert(all.take(i as int) =~= all);
        lemma_related_is_difference(all, asked);
    }
    out
}

/// As sets, the related tags are the tags seen less the tags requested.
pub proof fn lemma_related_is_difference(seen: Seq<Seq<char>>, requested: Seq<Seq<char>>)
    ensures
        related_tags(seen, requested).to_set() == seen.to_set().difference(requested.to_set()),
{
    let pred = |t: Seq<char>| !requested.contains(t);
    let out = related_tags(seen, requested);
    assert forall|t: Seq<char>| out.to_set().contains(t) <==> seen.to_set().difference(
        requested.to_set(),
    ).contains(t) by {
        if out.contains(t) {
            let k = out.index_of(t);
            seen.lemma_filter_pred(pred, k);
            seen.lemma_filter_contains_rev(pred, t);
        }
        if seen.contains(t) && !requested.contains(t) {
            let k = seen.index_of(t);
            seen.lemma_filter_contains(pred, k);
        }
    }
    assert(out.to_set() =~= seen.to_set().difference(requested.to_set()));
}

/// Seeing the requested tags as well changes nothing: the related tags of
/// what was seen together with what was requested are those of what was seen.
pub proof fn lemma_related_reunion(seen: Seq<Seq<char>>, requested: Seq<Seq<char>>)
    ensures
        related_tags(seen + requested, requested) == related_tags(seen, requested),
        (seen.to_set() + requested.to_set()).difference(requested.to_set())
            == seen.to_set().difference(requested.to_set()),
{
    let pred = |t: Seq<char>| !requested.contains(t);
    Seq::filter_distributes_over_add(seen, requested, pred);
    let rest = requested.filter(pred);
    if rest.len() > 0 {
        requested.lemma_filter_pred(pred, 0);
        requested.lemma_filter_contains_rev(pred, rest[0]);
    }
    assert(seen.filter(pred) + rest =~= seen.filter(pred));
    assert((seen.to_set() + requested.to_set()).difference(requested.to_set())
        =~= seen.to_set().difference(requested.to_set()));
}

/// With nothing requested, every tag seen is related.
pub proof fn lemma_related_nothing_requested(seen: Seq<Seq<char>>)
    ensures
        related_tags(seen, Seq::empty()) == seen,
    decreases seen.len(),
{
    let none = Seq::<Seq<char>>::empty();
    if seen.len() == 0 {
        reveal(Seq::filter);
    } else {
        lemma_related_nothing_requested(seen.drop_last());
        assert(seen.drop_last().push(seen.last()) =~= seen);
        lemma_filter_push(seen.drop_last(), seen.last(), |t: Seq<char>| !none.contains(t));
    }
}

} // verus!
