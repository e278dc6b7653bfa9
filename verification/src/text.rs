//! Text as sequences of characters.

use vstd::prelude::*;

verus! {

/// The texts held by a sequence of strings, each as its characters.
pub open spec fn texts(v: Seq<String>) -> Seq<Seq<char>> {
    Seq::new(v.len(), |i: int| v[i]@)
}

/// Filtering a sequence with one more element keeps or drops that element.
pub proof fn lemma_filter_push<A>(s: Seq<A>, x: A, pred: spec_fn(A) -> bool)
    ensures
        s.push(x).filter(pred) == if pred(x) {
            s.filter(pred).push(x)
        } else {
            s.filter(pred)
        },
{
    reveal(Seq::filter);
    assert(s.push(x).drop_last() =~= s);
}

/// The characters of `s`, in order.
pub fn chars_of(s: &str) -> (out: Vec<char>)
    ensures
        out@ == s@,
{
    let mut out: Vec<char> = Vec::new();
    for c in it: s.chars()
        invariant
            out@ == it.seq().take(it.index()),
            it.seq() == s@,
    {
        out.push(c);
    }
    out
}

/// Whether `list` holds a string with the same characters as `wanted`.
pub fn contains_text(list: &Vec<String>, wanted: &String) -> (found: bool)
    ensures
        found == texts(list@).contains(wanted@),
{
    let mut i: usize = 0;
    while i < list.len()
        invariant
            i <= list.len(),
            forall|k: int| 0 <= k < i ==> texts(list@)[k] != wanted@,
        decreases list.len() - i,
    {
        if list[i] == *wanted {
            assert(texts(list@)[i as int] == wanted@);
            return true;
        }
        i += 1;
    }
    false
}

/// A copy of `list`.
pub fn copy_texts(list: &Vec<String>) -> (out: Vec<String>)
    ensures
        texts(out@) == texts(list@),
{
    let mut out: Vec<String> = Vec::new();
    let mut i: usize = 0;
    while i < list.len()
        invariant
            i <= list.len(),
            out@.len() == i,
            forall|k: int| 0 <= k < i ==> out@[k]@ == list@[k]@,
        decreases list.len() - i,
    {
        out.push(list[i].clone());
        i += 1;
    }
    assert(texts(out@) =~= texts(list@));
    out
}

/// Whether the first `len` characters of `chars` spell `word`.
pub fn prefix_is(chars: &Vec<char>, len: usize, word: &str) -> (same: bool)
    requires
        len <= chars.len(),
    ensures
        same == (chars@.take(len as int) == word@),
{
    let letters = chars_of(word);
    if letters.len() != len {
        return false;
    }
    let mut i: usize = 0;
    while i < len
        invariant
            i <= len <= chars.len(),
            letters.len() == len,
            letters@ == word@,
            forall|k: int| 0 <= k < i ==> chars@[k] == letters@[k],
        decreases len - i,
    {
        if chars[i] != letters[i] {
            assert(chars@.take(len as int)[i as int] != word@[i as int]);
            return false;
        }
        i += 1;
    }
    assert(chars@.take(len as int) =~= word@);
    true
}

/// `s` with every text that repeats an earlier one left out.
pub open spec fn without_repeats(s: Seq<Seq<char>>) -> Seq<Seq<char>>
    decreases s.len(),
{
    if s.len() == 0 {
        s
    } else {
        let before = without_repeats(s.drop_last());
        if before.contains(s.last()) {
            before
        } else {
            before.push(s.last())
        }
    }
}

/// Leaving out repeats keeps every text once: the result holds exactly the
/// texts of `s`, and none of them twice.
pub proof fn lemma_without_repeats(s: Seq<Seq<char>>)
    ensures
        without_repeats(s).no_duplicates(),
        forall|t: Seq<char>| without_repeats(s).contains(t) <==> s.contains(t),
    decreases s.len(),
{
    if s.len() > 0 {
        let before = without_repeats(s.drop_last());
        lemma_without_repeats(s.drop_last());
        assert forall|t: Seq<char>| without_repeats(s).contains(t) <==> s.contains(t) by {
            if s.contains(t) {
                let i = choose|i: int| 0 <= i < s.len() && s[i] == t;
                if i < s.len() - 1 {
                    assert(s.drop_last()[i] == t);
                    assert(s.drop_last().contains(t));
                    let j = choose|j: int| 0 <= j < before.len() && before[j] == t;
                    assert(without_repeats(s)[j] == t);
                } else if !before.contains(t) {
                    assert(without_repeats(s)[before.len() as int] == t);
                }
            }
            if without_repeats(s).contains(t) {
                let j = choose|j: int| 0 <= j < without_repeats(s).len() && without_repeats(s)[j] == t;
                if j < before.len() {
                    assert(before[j] == t);
                    assert(s.drop_last().contains(t));
                    let i = choose|i: int| 0 <= i < s.drop_last().len() && s.drop_last()[i] == t;
                    assert(s[i] == t);
                } else {
                    assert(s[s.len() - 1] == t);
                }
            }
        }
    }
}

/// The strings of `list` in order, without those that repeat an earlier one.
pub fn drop_repeats(list: &Vec<String>) -> (out: Vec<String>)
    ensures
        texts(out@) == without_repeats(texts(list@)),
{
    let mut out: Vec<String> = Vec::new();
    let mut i: usize = 0;
    assert(texts(list@).take(0) =~= Seq::<Seq<char>>::empty());
    assert(texts(out@) =~= Seq::<Seq<char>>::empty());
    while i < list.len()
        invariant
            i <= list.len(),
            texts(out@) == without_repeats(texts(list@).take(i as int)),
        decreases list.len() - i,
    {
        let ghost before = texts(out@);
        assert(texts(list@).take(i + 1).drop_last() =~= texts(list@).take(i as int));
        if !contains_text(&out, &list[i]) {
            out.push(list[i].clone());
            assert(texts(out@) =~= before.push(list@[i as int]@));
        }
        i += 1;
    }
    assert(texts(list@).take(i as int) =~= texts(list@));
    out
}

/// Whether `a` comes before `b` in dictionary order, read from the place
/// `from` on: at the first place where the two differ `a` has the smaller
/// character, or `a` ends there and `b` goes on.
pub open spec fn precedes_from(a: Seq<char>, b: Seq<char>, from: int) -> bool
    decreases a.len() - from,
{
    if from < 0 || from >= b.len() {
        false
    } else if from >= a.len() {
        true
    } else if a[from] != b[from] {
        a[from] < b[from]
    } else {
        precedes_from(a, b, from + 1)
    }
}

/// Whether `a` comes before `b` in dictionary order, characters compared by
/// their code. This is the order of `str`.
pub open spec fn precedes(a: Seq<char>, b: Seq<char>) -> bool {
    precedes_from(a, b, 0)
}

/// Whether each text of `s` comes before all that follow it.
pub open spec fn ascending(s: Seq<Seq<char>>) -> bool {
    forall|i: int, j: int| 0 <= i < j < s.len() ==> precedes(#[trigger] s[i], #[trigger] s[j])
}

proof fn lemma_precedes_from_transitive(a: Seq<char>, b: Seq<char>, c: Seq<char>, from: int)
    requires
        precedes_from(a, b, from),
        precedes_from(b, c, from),
    ensures
        precedes_from(a, c, from),
    decreases a.len() - from,
{
    if from < a.len() && a[from] == b[from] && b[from] == c[from] {
        lemma_precedes_from_transitive(a, b, c, from + 1);
    }
}

proof fn lemma_precedes_from_total(a: Seq<char>, b: Seq<char>, from: int)
    requires
        0 <= from,
        !precedes_from(a, b, from),
        !precedes_from(b, a, from),
    ensures
        a.len() == b.len() || (from >= a.len() && from >= b.len()),
        forall|k: int| from <= k < a.len() ==> a[k] == b[k],
    decreases a.len() - from,
{
    if from < a.len() && from < b.len() {
        lemma_precedes_from_total(a, b, from + 1);
    }
}

proof fn lemma_precedes_from_irreflexive(a: Seq<char>, from: int)
    ensures
        !precedes_from(a, a, from),
    decreases a.len() - from,
{
    if 0 <= from < a.len() {
        lemma_precedes_from_irreflexive(a, from + 1);
    }
}

/// No text comes before itself.
pub proof fn lemma_precedes_irreflexive(a: Seq<char>)
    ensures
        !precedes(a, a),
{
    lemma_precedes_from_irreflexive(a, 0);
}

/// What comes before a text comes before all that the text comes before.
pub proof fn lemma_precedes_transitive(a: Seq<char>, b: Seq<char>, c: Seq<char>)
    requires
        precedes(a, b),
        precedes(b, c),
    ensures
        precedes(a, c),
{
    lemma_precedes_from_transitive(a, b, c, 0);
}

/// Of two different texts one comes before the other.
pub proof fn lemma_precedes_total(a: Seq<char>, b: Seq<char>)
    ensures
        a == b || precedes(a, b) || precedes(b, a),
{
    if !precedes(a, b) && !precedes(b, a) {
        lemma_precedes_from_total(a, b, 0);
        assert(a =~= b);
    }
}

/// Texts in ascending order are all different.
pub proof fn lemma_ascending_distinct(s: Seq<Seq<char>>)
    requires
        ascending(s),
    ensures
        s.no_duplicates(),
{
    assert forall|i: int, j: int| 0 <= i < s.len() && 0 <= j < s.len() && i != j implies s[i]
        != s[j] by {
        lemma_precedes_irreflexive(s[i]);
        if i < j {
            assert(precedes(s[i], s[j]));
        } else {
            assert(precedes(s[j], s[i]));
        }
    }
}

/// Whether `a` comes before `b` in dictionary order.
pub fn comes_before(a: &str, b: &str) -> (before: bool)
    ensures
        before == precedes(a@, b@),
{
    let x = chars_of(a);
    let y = chars_of(b);
    let mut i: usize = 0;
    while i < x.len() && i < y.len()
        invariant
            x@ == a@,
            y@ == b@,
            i <= x.len(),
            i <= y.len(),
            precedes(a@, b@) == precedes_from(a@, b@, i as int),
        decreases x.len() - i,
    {
        if x[i] != y[i] {
            return x[i] < y[i];
        }
        i += 1;
    }
    i < y.len()
}

} // verus!
