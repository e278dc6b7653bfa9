//! The tag filter: which records a list of filter tokens lets through.

use crate::text::texts;
use tagsearch::filter::Filter;
use vstd::prelude::*;

verus! {

/// A token that asks for a tag to be absent: it begins with `!`.
pub open spec fn is_negated(token: Seq<char>) -> bool {
    token.len() > 0 && token[0] == '!'
}

/// The tags that the tokens ask for, one entry for each bare token.
pub open spec fn required(tokens: Seq<Seq<char>>) -> Seq<Seq<char>> {
    tokens.filter(|t: Seq<char>| !is_negated(t))
}

/// The tags that the tokens rule out: each negated token without its marker.
pub open spec fn excluded(tokens: Seq<Seq<char>>) -> Seq<Seq<char>> {
    tokens.filter(|t: Seq<char>| is_negated(t)).map_values(|t: Seq<char>| t.skip(1))
}

/// How many entries of `tags` are among `wanted`.
pub open spec fn hits(tags: Seq<Seq<char>>, wanted: Seq<Seq<char>>) -> nat {
    tags.filter(|t: Seq<char>| wanted.contains(t)).len()
}

/// Whether a record carrying `tags` passes the filter `tokens`: none of its
/// tags is ruled out, and enough of its tags are asked for. Where `either`
/// is set one such tag is enough; otherwise there must be at least as many as
/// there are bare tokens.
pub open spec fn passes(tokens: Seq<Seq<char>>, either: bool, tags: Seq<Seq<char>>) -> bool {
    &&& forall|i: int| 0 <= i < tags.len() ==> !excluded(tokens).contains(#[trigger] tags[i])
    &&& if either {
        hits(tags, required(tokens)) > 0
    } else {
        hits(tags, required(tokens)) >= required(tokens).len()
    }
}

/// Whether a record carrying `tags` passes the filter `tokens` that asks for
/// all of its bare tokens.
pub open spec fn accepts(tokens: Seq<Seq<char>>, tags: Seq<Seq<char>>) -> bool {
    passes(tokens, false, tags)
}

/// Filtering a sequence without repeats leaves one without repeats.
proof fn lemma_filter_keeps_distinct<A>(s: Seq<A>, pred: spec_fn(A) -> bool)
    requires
        s.no_duplicates(),
    ensures
        s.filter(pred).no_duplicates(),
    decreases s.len(),
{
    reveal(Seq::filter);
    if s.len() > 0 {
        let before = s.drop_last();
        lemma_filter_keeps_distinct(before, pred);
        if pred(s.last()) && before.filter(pred).contains(s.last()) {
            before.lemma_filter_contains_rev(pred, s.last());
            let i = before.index_of(s.last());
            assert(s[i] == s[s.len() - 1]);
        }
    }
}

/// The filter without tokens lets every record through.
pub proof fn lemma_no_tokens_accept(tags: Seq<Seq<char>>)
    ensures
        accepts(Seq::empty(), tags),
{
    reveal(Seq::filter);
    let none = Seq::<Seq<char>>::empty();
    assert(required(none) =~= none);
    assert(excluded(none) =~= none);
}

/// Where the tags of a record are all different, and so are the tags that
/// the tokens ask for, the record passes exactly where it carries every tag
/// asked for and none that is ruled out.
pub proof fn lemma_accepts_plainly(tokens: Seq<Seq<char>>, tags: Seq<Seq<char>>)
    requires
        tags.no_duplicates(),
        required(tokens).no_duplicates(),
    ensures
        accepts(tokens, tags) <==> {
            &&& forall|t: Seq<char>| required(tokens).contains(t) ==> tags.contains(t)
            &&& forall|t: Seq<char>| excluded(tokens).contains(t) ==> !tags.contains(t)
        },
{
    broadcast use vstd::seq_lib::seq_to_set_is_finite;

    let wanted = required(tokens);
    let unwanted = excluded(tokens);
    let pred = |t: Seq<char>| wanted.contains(t);
    let found = tags.filter(pred);
    lemma_filter_keeps_distinct(tags, pred);
    found.unique_seq_to_set();
    wanted.unique_seq_to_set();
    assert(found.to_set().subset_of(wanted.to_set())) by {
        assert forall|t: Seq<char>| found.to_set().contains(t) implies wanted.to_set().contains(
            t,
        ) by {
            let k = found.index_of(t);
            tags.lemma_filter_pred(pred, k);
        }
    }
    vstd::set_lib::lemma_len_subset(found.to_set(), wanted.to_set());
    let enough = hits(tags, wanted) >= wanted.len();
    let all_carried = forall|t: Seq<char>| wanted.contains(t) ==> tags.contains(t);
    if enough {
        vstd::set_lib::lemma_subset_equality(found.to_set(), wanted.to_set());
        assert forall|t: Seq<char>| wanted.contains(t) implies tags.contains(t) by {
            assert(found.to_set().contains(t));
            tags.lemma_filter_contains_rev(pred, t);
        }
    }
    if all_carried {
        assert(wanted.to_set().subset_of(found.to_set())) by {
            assert forall|t: Seq<char>| wanted.to_set().contains(t) implies found.to_set().contains(
                t,
            ) by {
                let i = tags.index_of(t);
                tags.lemma_filter_contains(pred, i);
            }
        }
        vstd::set_lib::lemma_len_subset(wanted.to_set(), found.to_set());
    }
    assert(enough <==> all_carried);
    let none_hit = forall|i: int| 0 <= i < tags.len() ==> !unwanted.contains(#[trigger] tags[i]);
    let none_carried = forall|t: Seq<char>| unwanted.contains(t) ==> !tags.contains(t);
    if none_hit {
        assert forall|t: Seq<char>| unwanted.contains(t) implies !tags.contains(t) by {
            if tags.contains(t) {
                let i = tags.index_of(t);
                assert(!unwanted.contains(tags[i]));
            }
        }
    }
    if none_carried {
        assert forall|i: int| 0 <= i < tags.len() implies !unwanted.contains(
            #[trigger] tags[i],
        ) by {
            assert(tags.contains(tags[i]));
        }
    }
    assert(none_hit <==> none_carried);
}

/// Asks the filter of the `tagsearch` crate: builds a
/// `tagsearch::filter::Filter` from `tokens` and `either` with `Filter::new`
/// and hands `tags` to its `Filter::matches`.
///
/// Trusted, for every input: `Filter::new` sorts the tokens into wanted and
/// unwanted keywords by a leading `!`, which it strips from the unwanted;
/// `Filter::matches` answers no as soon as a tag is an unwanted keyword, and
/// otherwise counts the tags that are wanted keywords and answers whether
/// the count is above zero, where the filter was made with `either`, or else
/// no less than the number of wanted keywords.
#[verifier::external_body]
pub(crate) fn filter_matches(tokens: &Vec<String>, either: bool, tags: &Vec<String>) -> (verdict:
    bool)
    ensures
        verdict == passes(texts(tokens@), either, texts(tags@)),
{
    let keywords: Vec<&str> = tokens.iter().map(|t| t.as_str()).collect();
    Filter::new(&keywords, either).matches(tags)
}

} // verus!
