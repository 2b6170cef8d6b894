//! Combining per-word candidates into candidates for a multi-word input.

use vstd::prelude::*;
use crate::dictionary::word_list_view;
use crate::text::{clone_chars, join, join_chars, string_from_chars};

verus! {

/// The candidate lists of several words, as plain sequences.
pub open spec fn lists_view(v: Seq<Vec<Vec<char>>>) -> Seq<Seq<Seq<char>>> {
    v.map_values(|c: Vec<Vec<char>>| word_list_view(c@))
}

/// The best candidate of a word, or nothing when it has none.
pub open spec fn first_or_empty(c: Seq<Seq<char>>) -> Seq<char> {
    if c.len() > 0 {
        c[0]
    } else {
        Seq::empty()
    }
}

/// The best candidate of every word.
pub open spec fn primary_row(cands: Seq<Seq<Seq<char>>>) -> Seq<Seq<char>> {
    cands.map_values(|c: Seq<Seq<char>>| first_or_empty(c))
}

/// The best candidate of every word but word `i`, which takes its second.
pub open spec fn alternative_row(cands: Seq<Seq<Seq<char>>>, i: int) -> Seq<Seq<char>> {
    Seq::new(
        cands.len(),
        |j: int|
            if j == i {
                cands[j][1]
            } else {
                first_or_empty(cands[j])
            },
    )
}

/// The candidate that swaps in the second candidate of word `i`, if it has
/// one.
pub open spec fn phrase_alternative(cands: Seq<Seq<Seq<char>>>, i: int) -> Seq<Seq<char>> {
    if cands[i].len() > 1 {
        seq![join(alternative_row(cands, i), seq![' '])]
    } else {
        Seq::empty()
    }
}

/// The phrase candidates: the best candidates of all words joined by
/// spaces, then, for each word with a second candidate, the same with that
/// word's second candidate swapped in.
pub open spec fn phrase_candidates(cands: Seq<Seq<Seq<char>>>) -> Seq<Seq<char>> {
    seq![join(primary_row(cands), seq![' '])] + Seq::new(cands.len(), |i: int| i).flat_map(
        |i: int| phrase_alternative(cands, i),
    )
}

/// An element of what `f` gives for an element of `s` is in `s.flat_map(f)`.
pub proof fn lemma_flat_map_contains<A, B>(s: Seq<A>, f: spec_fn(A) -> Seq<B>, k: int, m: int)
    requires
        0 <= k < s.len(),
        0 <= m < f(s[k]).len(),
    ensures
        s.flat_map(f).contains(f(s[k])[m]),
    decreases s.len(),
{
    let t = s.drop_last();
    assert(s =~= t.push(s.last()));
    t.lemma_flat_map_push(f, s.last());
    let tf = t.flat_map(f);
    if k < t.len() {
        assert(t[k] == s[k]);
        lemma_flat_map_contains(t, f, k, m);
        let q = choose|q: int| 0 <= q < tf.len() && tf[q] == f(s[k])[m];
        assert(s.flat_map(f)[q] == f(s[k])[m]);
    } else {
        assert(s.flat_map(f)[tf.len() + m] == f(s[k])[m]);
    }
}

/// For every word with a second candidate, the phrase candidates hold the
/// best candidates of all words with that word's second candidate swapped
/// in; the first phrase candidate is the best candidates of all words.
pub proof fn lemma_phrase_alternatives(cands: Seq<Seq<Seq<char>>>, i: int)
    requires
        0 <= i < cands.len(),
        cands[i].len() > 1,
    ensures
        phrase_candidates(cands)[0] == join(primary_row(cands), seq![' ']),
        phrase_candidates(cands).contains(join(primary_row(cands).update(i, cands[i][1]), seq![' '])),
{
    let idx = Seq::new(cands.len(), |j: int| j);
    let f = |j: int| phrase_alternative(cands, j);
    assert(alternative_row(cands, i) =~= primary_row(cands).update(i, cands[i][1]));
    assert(idx[i] == i);
    assert(f(idx[i]) == seq![join(alternative_row(cands, i), seq![' '])]);
    lemma_flat_map_contains(idx, f, i, 0);
    let rest = idx.flat_map(f);
    let x = join(alternative_row(cands, i), seq![' ']);
    let q = choose|q: int| 0 <= q < rest.len() && rest[q] == x;
    assert(phrase_candidates(cands)[1 + q] == x);
}

/// Builds the phrase candidates from the candidates of each word.
pub fn combine_phrase(word_candidates: &Vec<Vec<Vec<char>>>) -> (r: Vec<Vec<char>>)
    ensures
        word_list_view(r@) == phrase_candidates(lists_view(word_candidates@)),
{
    let ghost cv = lists_view(word_candidates@);
    let n = word_candidates.len();
    let sep = vec![' '];
    assert(sep@ == seq![' ']);
    let mut firsts: Vec<Vec<char>> = Vec::new();
    let mut i: usize = 0;
    while i < n
        invariant
            i <= n,
            n == word_candidates@.len(),
            cv == lists_view(word_candidates@),
            word_list_view(firsts@) == primary_row(cv).take(i as int),
            firsts@.len() == i,
            cv.len() == n,
        decreases n - i,
    {
        let c = &word_candidates[i];
        assert(word_list_view(c@) == cv[i as int]);
        let f = if c.len() > 0 {
            clone_chars(c[0].as_slice())
        } else {
            Vec::new()
        };
        assert(f@ == first_or_empty(cv[i as int]));
        let ghost prev = firsts@;
        firsts.push(f);
        assert(firsts@ == prev.push(f));
        assert(word_list_view(firsts@)[i as int] == first_or_empty(cv[i as int]));
        assert(primary_row(cv)[i as int] == first_or_empty(cv[i as int]));
        assert(word_list_view(firsts@) =~= primary_row(cv).take(i + 1));
        i = i + 1;
    }
    assert(primary_row(cv).take(n as int) =~= primary_row(cv));
    let mut r: Vec<Vec<char>> = Vec::new();
    r.push(join_chars(&firsts, sep.as_slice()));
    let ghost idx = Seq::new(cv.len(), |i: int| i);
    assert(word_list_view(r@) =~= seq![join(primary_row(cv), seq![' '])] + idx.take(0).flat_map(|k: int| phrase_alternative(cv, k)));
    let mut i: usize = 0;
    while i < n
        invariant
            i <= n,
            n == word_candidates@.len(),
            cv == lists_view(word_candidates@),
            idx == Seq::new(cv.len(), |i: int| i),
            sep@ == seq![' '],
            cv.len() == n,
            word_list_view(r@) == seq![join(primary_row(cv), seq![' '])] + idx.take(i as int).flat_map(|k: int| phrase_alternative(cv, k)),
        decreases n - i,
    {
        proof {
            idx.lemma_flat_map_take_append(|k: int| phrase_alternative(cv, k), i as int);
        }
        if word_candidates[i].len() > 1 {
            let mut row: Vec<Vec<char>> = Vec::new();
            let mut j: usize = 0;
            while j < n
                invariant
                    j <= n,
                    i < n,
                    n == word_candidates@.len(),
                    cv == lists_view(word_candidates@),
                    cv[i as int].len() > 1,
                    word_list_view(row@) == alternative_row(cv, i as int).take(j as int),
                    row@.len() == j,
                    cv.len() == n,
                decreases n - j,
            {
                let c = &word_candidates[j];
                assert(word_list_view(c@) == cv[j as int]);
                let x = if j == i {
                    clone_chars(c[1].as_slice())
                } else if c.len() > 0 {
                    clone_chars(c[0].as_slice())
                } else {
                    Vec::new()
                };
                let ghost prev = row@;
                row.push(x);
                assert(row@ == prev.push(x));
                assert(alternative_row(cv, i as int)[j as int] == x@);
                assert(word_list_view(row@) =~= alternative_row(cv, i as int).take(j + 1));
                j = j + 1;
            }
            assert(alternative_row(cv, i as int).take(n as int) =~= alternative_row(cv, i as int));
            let alt = join_chars(&row, sep.as_slice());
            assert(idx[i as int] == i as int);
            assert(phrase_alternative(cv, i as int) == seq![alt@]);
            let ghost prev = r@;
            r.push(alt);
            assert(r@ == prev.push(alt));
            assert(word_list_view(r@) =~= word_list_view(prev).push(alt@));
            assert(word_list_view(r@) =~= seq![join(primary_row(cv), seq![' '])] + idx.take(i + 1).flat_map(|k: int| phrase_alternative(cv, k)));
        } else {
            assert(idx[i as int] == i as int);
            assert(phrase_alternative(cv, i as int) == Seq::<Seq<char>>::empty());
            assert(word_list_view(r@) =~= seq![join(primary_row(cv), seq![' '])] + idx.take(i + 1).flat_map(|k: int| phrase_alternative(cv, k)));
        }
        i = i + 1;
    }
    assert(idx.take(n as int) =~= idx);
    r
}


/// The characters of each string.
pub open spec fn strings_view(v: Seq<String>) -> Seq<Seq<char>> {
    v.map_values(|s: String| s@)
}

/// The candidates as strings.
pub fn to_strings(v: &Vec<Vec<char>>) -> (r: Vec<String>)
    ensures
        strings_view(r@) == word_list_view(v@),
{
    let n = v.len();
    let mut r: Vec<String> = Vec::new();
    let mut i: usize = 0;
    while i < n
        invariant
            i <= n,
            n == v@.len(),
            strings_view(r@) == word_list_view(v@).take(i as int),
            r@.len() == i,
        decreases n - i,
    {
        let s = string_from_chars(v[i].as_slice());
        let ghost prev = r@;
        r.push(s);
        assert(r@ == prev.push(s));
        assert(strings_view(r@) =~= word_list_view(v@).take(i + 1));
        i = i + 1;
    }
    assert(word_list_view(v@).take(n as int) =~= word_list_view(v@));
    r
}


/// Removing duplicates from a list with one more element.
pub proof fn lemma_dedup_push<A>(l: Seq<A>, x: A, seen: Seq<A>)
    ensures
        l.push(x).remove_duplicates(seen) == (if l.remove_duplicates(seen).contains(x) {
            l.remove_duplicates(seen)
        } else {
            l.remove_duplicates(seen).push(x)
        }),
{
    l.lemma_remove_duplicates_append(x, seen);
    l.lemma_remove_duplicates_properties(seen);
    assert(l + seq![x] == l.push(x));
    assert(l.remove_duplicates(seen) + seq![x] == l.remove_duplicates(seen).push(x));
}

/// Appends `x` unless an equal sequence is already there.
pub fn push_unique(v: &mut Vec<Vec<char>>, x: Vec<char>)
    ensures
        word_list_view(final(v)@) == (if word_list_view(old(v)@).contains(x@) {
            word_list_view(old(v)@)
        } else {
            word_list_view(old(v)@).push(x@)
        }),
{
    if !crate::assoc::contains_chars(v, x.as_slice()) {
        let ghost prev = v@;
        let ghost xv = x@;
        v.push(x);
        assert(v@ == prev.push(x));
        assert(word_list_view(v@) =~= word_list_view(prev).push(xv));
    }
}


/// Appends each of `xs` that is not there yet, in order.
pub fn extend_unique(v: &mut Vec<Vec<char>>, xs: Vec<Vec<char>>)
    ensures
        word_list_view(final(v)@) == word_list_view(xs@).remove_duplicates(word_list_view(old(v)@)),
{
    let ghost seen = word_list_view(v@);
    let ghost xv = word_list_view(xs@);
    let n = xs.len();
    let mut i: usize = 0;
    assert(xv.take(0).remove_duplicates(seen) == seen);
    while i < n
        invariant
            i <= n,
            n == xs@.len(),
            xv == word_list_view(xs@),
            word_list_view(v@) == xv.take(i as int).remove_duplicates(seen),
        decreases n - i,
    {
        let x = clone_chars(xs[i].as_slice());
        proof {
            lemma_dedup_push(xv.take(i as int), x@, seen);
            assert(xv.take(i as int).push(x@) =~= xv.take(i + 1));
        }
        push_unique(v, x);
        i = i + 1;
    }
    assert(xv.take(n as int) =~= xv);
}


/// A copy of a list of words.
pub fn clone_words(v: &Vec<Vec<char>>) -> (r: Vec<Vec<char>>)
    ensures
        word_list_view(r@) == word_list_view(v@),
{
    let n = v.len();
    let mut r: Vec<Vec<char>> = Vec::new();
    let mut i: usize = 0;
    while i < n
        invariant
            i <= n,
            n == v@.len(),
            r@.len() == i,
            word_list_view(r@) == word_list_view(v@).take(i as int),
        decreases n - i,
    {
        let x = clone_chars(v[i].as_slice());
        let ghost prev = r@;
        r.push(x);
        assert(r@ == prev.push(x));
        assert(word_list_view(r@) =~= word_list_view(v@).take(i + 1));
        i = i + 1;
    }
    assert(word_list_view(v@).take(n as int) =~= word_list_view(v@));
    r
}

} // verus!
