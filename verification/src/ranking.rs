//! What ranking guarantees of the candidates of a word: at least one and at
//! most eight, in descending score order (a stable order: equal scores keep
//! their order), all drawn from the word's candidates and none twice; the
//! user's earlier choices outweigh every other signal, so the candidate the
//! user picks goes to the top; and for ASCII input, case makes no
//! difference.

use vstd::prelude::*;
use crate::engine::{
    all_ranked, at_most, candidate_score, rank_points, consonant_swaps, dictionary_points, entries_of, frequency_points, insert_by_score,
    lemma_points_sum_bound, lowered_word_candidates, points_sum, preference_points, ranked, ranked_transliteration, ascii_transliteration,
    ranked_word_candidates, rule_based, scorer, sort_by_score, tanween_variants, unranked_candidates, VowelMode,
};
use crate::text::{ascii_lowercase, is_ascii_text, lemma_ascii_lowercase, lemma_trim_ascii_lowercase, lowercase, trim, words};
use crate::user_prefs::{selection_count, with_selection};

verus! {

/// Scored pairs in descending score order.
pub open spec fn descending(s: Seq<(nat, Seq<char>)>) -> bool {
    forall|i: int, j: int| 0 <= i < j < s.len() ==> s[i].0 >= s[j].0
}

/// Inserting by score keeps the order and adds exactly the new pair.
proof fn lemma_insert_by_score(sorted: Seq<(nat, Seq<char>)>, x: (nat, Seq<char>))
    requires
        descending(sorted),
    ensures
        descending(insert_by_score(sorted, x)),
        insert_by_score(sorted, x).len() == sorted.len() + 1,
        forall|y: (nat, Seq<char>)| #[trigger] insert_by_score(sorted, x).contains(y) <==> (sorted.contains(y) || y == x),
        sorted.no_duplicates() && !sorted.contains(x) ==> insert_by_score(sorted, x).no_duplicates(),
    decreases sorted.len(),
{
    let r = insert_by_score(sorted, x);
    if sorted.len() == 0 {
        assert(r =~= seq![x]);
        assert forall|y: (nat, Seq<char>)| r.contains(y) <==> (sorted.contains(y) || y == x) by {
            if r.contains(y) {
                assert(r[0] == x);
            }
            if y == x {
                assert(r[0] == y);
            }
        }
    } else if sorted.last().0 >= x.0 {
        assert(r == sorted.push(x));
        assert forall|y: (nat, Seq<char>)| r.contains(y) <==> (sorted.contains(y) || y == x) by {
            if r.contains(y) {
                let k = choose|k: int| 0 <= k < r.len() && r[k] == y;
                if k < sorted.len() {
                    assert(sorted[k] == y);
                }
            }
            if sorted.contains(y) {
                let k = choose|k: int| 0 <= k < sorted.len() && sorted[k] == y;
                assert(r[k] == y);
            }
            if y == x {
                assert(r[sorted.len() as int] == y);
            }
        }
        if sorted.no_duplicates() && !sorted.contains(x) {
            assert forall|i: int, j: int| 0 <= i < r.len() && 0 <= j < r.len() && i != j implies r[i] != r[j] by {
                if i < sorted.len() && j < sorted.len() {
                } else if i < sorted.len() {
                    assert(sorted.contains(sorted[i]));
                } else {
                    assert(sorted.contains(sorted[j]));
                }
            }
        }
    } else {
        let t = sorted.drop_last();
        let last = sorted.last();
        lemma_insert_by_score(t, x);
        let rt = insert_by_score(t, x);
        assert(r == rt.push(last));
        assert forall|i: int| 0 <= i < rt.len() implies rt[i].0 >= last.0 by {
            assert(rt.contains(rt[i]));
            if rt[i] != x {
                let k = choose|k: int| 0 <= k < t.len() && t[k] == rt[i];
                assert(sorted[k] == t[k]);
            }
        }
        assert forall|i: int, j: int| 0 <= i < j < r.len() implies r[i].0 >= r[j].0 by {
            if j < rt.len() {
                assert(r[i] == rt[i] && r[j] == rt[j]);
            } else {
                assert(r[i] == rt[i]);
            }
        }
        assert forall|y: (nat, Seq<char>)| r.contains(y) <==> (sorted.contains(y) || y == x) by {
            if r.contains(y) {
                let k = choose|k: int| 0 <= k < r.len() && r[k] == y;
                if k < rt.len() {
                    assert(rt[k] == y);
                    assert(rt.contains(y));
                    if t.contains(y) {
                        let m = choose|m: int| 0 <= m < t.len() && t[m] == y;
                        assert(sorted[m] == y);
                    }
                } else {
                    assert(sorted[sorted.len() - 1] == y);
                }
            }
            if sorted.contains(y) {
                let k = choose|k: int| 0 <= k < sorted.len() && sorted[k] == y;
                if k < t.len() {
                    assert(t[k] == y);
                    assert(t.contains(y));
                    assert(rt.contains(y));
                    let m = choose|m: int| 0 <= m < rt.len() && rt[m] == y;
                    assert(r[m] == y);
                } else {
                    assert(r[rt.len() as int] == y);
                }
            }
            if y == x {
                assert(rt.contains(y));
                let m = choose|m: int| 0 <= m < rt.len() && rt[m] == y;
                assert(r[m] == y);
            }
        }
        if sorted.no_duplicates() && !sorted.contains(x) {
            assert(t.no_duplicates()) by {
                assert forall|i: int, j: int| 0 <= i < t.len() && 0 <= j < t.len() && i != j implies t[i] != t[j] by {
                    assert(t[i] == sorted[i] && t[j] == sorted[j]);
                }
            }
            assert(!t.contains(x)) by {
                if t.contains(x) {
                    let k = choose|k: int| 0 <= k < t.len() && t[k] == x;
                    assert(sorted[k] == x);
                }
            }
            assert(!rt.contains(last)) by {
                if rt.contains(last) {
                    if t.contains(last) {
                        let k = choose|k: int| 0 <= k < t.len() && t[k] == last;
                        assert(sorted[k] == last && sorted[sorted.len() - 1] == last);
                    } else {
                        assert(sorted[sorted.len() - 1] == x);
                    }
                }
            }
            assert forall|i: int, j: int| 0 <= i < r.len() && 0 <= j < r.len() && i != j implies r[i] != r[j] by {
                if i < rt.len() && j < rt.len() {
                    assert(r[i] == rt[i] && r[j] == rt[j]);
                } else if i < rt.len() {
                    assert(r[i] == rt[i]);
                    assert(rt.contains(rt[i]));
                } else {
                    assert(r[j] == rt[j]);
                    assert(rt.contains(rt[j]));
                }
            }
        }
    }
}

/// Sorting by score orders the pairs and keeps exactly the same pairs.
pub proof fn lemma_sort_by_score(s: Seq<(nat, Seq<char>)>)
    ensures
        descending(sort_by_score(s)),
        sort_by_score(s).len() == s.len(),
        forall|y: (nat, Seq<char>)| #[trigger] sort_by_score(s).contains(y) <==> s.contains(y),
        s.no_duplicates() ==> sort_by_score(s).no_duplicates(),
    decreases s.len(),
{
    if s.len() > 0 {
        let t = s.drop_last();
        lemma_sort_by_score(t);
        if s.no_duplicates() {
            assert forall|i: int, j: int| 0 <= i < t.len() && 0 <= j < t.len() && i != j implies t[i] != t[j] by {
                assert(t[i] == s[i] && t[j] == s[j]);
            }
            if sort_by_score(t).contains(s.last()) {
                assert(t.contains(s.last()));
                let k = choose|k: int| 0 <= k < t.len() && t[k] == s.last();
                assert(s[k] == s[s.len() - 1]);
            }
        }
        lemma_insert_by_score(sort_by_score(t), s.last());
        assert forall|y: (nat, Seq<char>)| #[trigger] sort_by_score(s).contains(y) <==> s.contains(y) by {
            if t.contains(y) {
                let k = choose|k: int| 0 <= k < t.len() && t[k] == y;
                assert(s[k] == y);
            }
            if s.contains(y) {
                let k = choose|k: int| 0 <= k < s.len() && s[k] == y;
                if k < t.len() {
                    assert(t[k] == y);
                }
            }
            if y == s.last() {
                assert(s[s.len() - 1] == y);
            }
        }
    }
}

/// Ranking keeps the candidates and puts them in descending score order.
pub proof fn lemma_ranked(cands: Seq<Seq<char>>, score: spec_fn(Seq<char>) -> nat)
    ensures
        ranked(cands, score).len() == cands.len(),
        forall|i: int, j: int|
            0 <= i < j < cands.len() ==> score(#[trigger] ranked(cands, score)[i]) >= score(
                #[trigger] ranked(cands, score)[j],
            ),
        forall|c: Seq<char>| #[trigger] ranked(cands, score).contains(c) <==> cands.contains(c),
        cands.no_duplicates() ==> ranked(cands, score).no_duplicates(),
{
    let pairs = cands.map_values(|c: Seq<char>| (score(c), c));
    let sorted = sort_by_score(pairs);
    let r = ranked(cands, score);
    lemma_sort_by_score(pairs);
    assert(r == sorted.map_values(|p: (nat, Seq<char>)| p.1));
    assert forall|i: int| 0 <= i < sorted.len() implies (#[trigger] sorted[i]).0 == score(sorted[i].1) && cands.contains(
        sorted[i].1,
    ) by {
        assert(sorted.contains(sorted[i]));
        let m = choose|m: int| 0 <= m < pairs.len() && pairs[m] == sorted[i];
        assert(cands[m] == sorted[i].1);
    }
    assert forall|i: int, j: int| 0 <= i < j < cands.len() implies score(#[trigger] r[i]) >= score(#[trigger] r[j]) by {
        assert(r[i] == sorted[i].1);
        assert(r[j] == sorted[j].1);
        assert(sorted[i].0 >= sorted[j].0);
    }
    assert forall|c: Seq<char>| #[trigger] r.contains(c) <==> cands.contains(c) by {
        if r.contains(c) {
            let k = choose|k: int| 0 <= k < r.len() && r[k] == c;
            assert(r[k] == sorted[k].1);
        }
        if cands.contains(c) {
            let k = choose|k: int| 0 <= k < cands.len() && cands[k] == c;
            assert(pairs[k] == (score(c), c));
            assert(pairs.contains((score(c), c)));
            assert(sorted.contains((score(c), c)));
            let m = choose|m: int| 0 <= m < sorted.len() && sorted[m] == (score(c), c);
            assert(r[m] == c);
        }
    }
    if cands.no_duplicates() {
        assert(pairs.no_duplicates()) by {
            assert forall|i: int, j: int| 0 <= i < pairs.len() && 0 <= j < pairs.len() && i != j implies pairs[i] != pairs[j] by {
                assert(pairs[i].1 == cands[i] && pairs[j].1 == cands[j]);
            }
        }
        assert forall|i: int, j: int| 0 <= i < r.len() && 0 <= j < r.len() && i != j implies r[i] != r[j] by {
            assert(r[i] == sorted[i].1 && r[j] == sorted[j].1);
        }
    }
}

/// `a` occurs in `s` at an earlier place than `b`.
pub open spec fn comes_before<A>(s: Seq<A>, a: A, b: A) -> bool {
    exists|p: int, q: int| 0 <= p < q < s.len() && s[p] == a && s[q] == b
}

proof fn lemma_before_push<A>(s: Seq<A>, a: A, b: A, x: A)
    requires
        comes_before(s, a, b),
    ensures
        comes_before(s.push(x), a, b),
{
    let (p, q) = choose|p: int, q: int| 0 <= p < q < s.len() && s[p] == a && s[q] == b;
    assert(s.push(x)[p] == a && s.push(x)[q] == b);
}

proof fn lemma_before_last<A>(s: Seq<A>, a: A, x: A)
    requires
        s.contains(a),
    ensures
        comes_before(s.push(x), a, x),
{
    let p = choose|p: int| 0 <= p < s.len() && s[p] == a;
    assert(s.push(x)[p] == a && s.push(x)[s.len() as int] == x);
}

/// Inserting by score keeps the order of the earlier pairs, and puts the new
/// pair after every pair whose score is at least as high.
proof fn lemma_insert_by_score_order(sorted: Seq<(nat, Seq<char>)>, x: (nat, Seq<char>))
    requires
        descending(sorted),
    ensures
        forall|k: int, l: int|
            0 <= k < l < sorted.len() ==> comes_before(insert_by_score(sorted, x), #[trigger] sorted[k], #[trigger] sorted[l]),
        forall|k: int|
            0 <= k < sorted.len() && (#[trigger] sorted[k]).0 >= x.0 ==> comes_before(insert_by_score(sorted, x), sorted[k], x),
    decreases sorted.len(),
{
    let r = insert_by_score(sorted, x);
    if sorted.len() == 0 {
    } else if sorted.last().0 >= x.0 {
        assert(r == sorted.push(x));
        assert forall|k: int, l: int| 0 <= k < l < sorted.len() implies comes_before(r, #[trigger] sorted[k], #[trigger] sorted[l]) by {
            assert(r[k] == sorted[k] && r[l] == sorted[l]);
        }
        assert forall|k: int| 0 <= k < sorted.len() && (#[trigger] sorted[k]).0 >= x.0 implies comes_before(r, sorted[k], x) by {
            assert(r[k] == sorted[k] && r[sorted.len() as int] == x);
        }
    } else {
        let t = sorted.drop_last();
        let last = sorted.last();
        lemma_insert_by_score_order(t, x);
        lemma_insert_by_score(t, x);
        let rt = insert_by_score(t, x);
        assert(r == rt.push(last));
        assert forall|k: int, l: int| 0 <= k < l < sorted.len() implies comes_before(r, #[trigger] sorted[k], #[trigger] sorted[l]) by {
            assert(t[k] == sorted[k]);
            if l < t.len() {
                assert(t[l] == sorted[l]);
                assert(comes_before(rt, t[k], t[l]));
                lemma_before_push(rt, t[k], t[l], last);
            } else {
                assert(t.contains(t[k]));
                assert(rt.contains(t[k]));
                lemma_before_last(rt, t[k], last);
            }
        }
        assert forall|k: int| 0 <= k < sorted.len() && (#[trigger] sorted[k]).0 >= x.0 implies comes_before(r, sorted[k], x) by {
            assert(k < t.len());
            assert(t[k] == sorted[k]);
            assert(comes_before(rt, t[k], x));
            lemma_before_push(rt, t[k], x, last);
        }
    }
}

/// The sort by score is stable: of two distinct pairs with equal scores, the
/// earlier one stays first.
proof fn lemma_sort_by_score_stable(s: Seq<(nat, Seq<char>)>, i: int, j: int)
    requires
        s.no_duplicates(),
        0 <= i < j < s.len(),
        s[i].0 == s[j].0,
    ensures
        comes_before(sort_by_score(s), s[i], s[j]),
    decreases s.len(),
{
    let t = s.drop_last();
    let x = s.last();
    let st = sort_by_score(t);
    lemma_sort_by_score(t);
    assert(t.no_duplicates()) by {
        assert forall|a: int, b: int| 0 <= a < t.len() && 0 <= b < t.len() && a != b implies t[a] != t[b] by {
            assert(t[a] == s[a] && t[b] == s[b]);
        }
    }
    lemma_insert_by_score_order(st, x);
    let r = sort_by_score(s);
    assert(r == insert_by_score(st, x));
    assert(t[i] == s[i]);
    if j < t.len() {
        assert(t[j] == s[j]);
        lemma_sort_by_score_stable(t, i, j);
        let (k, l) = choose|k: int, l: int| 0 <= k < l < st.len() && st[k] == t[i] && st[l] == t[j];
        assert(comes_before(r, st[k], st[l]));
    } else {
        assert(t.contains(t[i]));
        assert(st.contains(t[i]));
        let k = choose|k: int| 0 <= k < st.len() && st[k] == t[i];
        assert(st[k].0 >= x.0);
        assert(comes_before(r, st[k], x));
    }
}

/// Ranking is stable: of two distinct candidates with equal scores, the
/// earlier one stays first.
pub proof fn lemma_ranked_stable(cands: Seq<Seq<char>>, score: spec_fn(Seq<char>) -> nat, i: int, j: int)
    requires
        cands.no_duplicates(),
        0 <= i < j < cands.len(),
        score(cands[i]) == score(cands[j]),
    ensures
        comes_before(ranked(cands, score), cands[i], cands[j]),
{
    let pairs = cands.map_values(|c: Seq<char>| (score(c), c));
    let sorted = sort_by_score(pairs);
    let r = ranked(cands, score);
    lemma_sort_by_score(pairs);
    assert(pairs.no_duplicates()) by {
        assert forall|a: int, b: int| 0 <= a < pairs.len() && 0 <= b < pairs.len() && a != b implies pairs[a] != pairs[b] by {
            assert(pairs[a].1 == cands[a] && pairs[b].1 == cands[b]);
        }
    }
    assert(pairs[i] == (score(cands[i]), cands[i]) && pairs[j] == (score(cands[j]), cands[j]));
    lemma_sort_by_score_stable(pairs, i, j);
    let (p, q) = choose|p: int, q: int| 0 <= p < q < sorted.len() && sorted[p] == pairs[i] && sorted[q] == pairs[j];
    assert(sorted[p] == pairs[i] && sorted[q] == pairs[j]);
    assert(r == sorted.map_values(|x: (nat, Seq<char>)| x.1));
    assert(r[p] == cands[i] && r[q] == cands[j]);
}

/// Removing duplicates after a list with none gives a list with none, which
/// keeps that list in front.
proof fn lemma_remove_duplicates_distinct(s: Seq<Seq<char>>, seen: Seq<Seq<char>>)
    requires
        seen.no_duplicates(),
    ensures
        s.remove_duplicates(seen).no_duplicates(),
        forall|x: Seq<char>| seen.contains(x) ==> #[trigger] s.remove_duplicates(seen).contains(x),
    decreases s.len(),
{
    s.lemma_remove_duplicates_properties(seen);
    assert forall|x: Seq<char>| seen.contains(x) implies #[trigger] s.remove_duplicates(seen).contains(x) by {
        let k = choose|k: int| 0 <= k < seen.len() && seen[k] == x;
        assert((s + seen)[s.len() + k] == x);
    }
    if s.len() > 0 && !seen.contains(s[0]) {
        let seen2 = seen + seq![s[0]];
        assert forall|i: int, j: int| 0 <= i < seen2.len() && 0 <= j < seen2.len() && i != j implies seen2[i] != seen2[j] by {
            if i < seen.len() && j < seen.len() {
            } else if i < seen.len() {
                assert(seen.contains(seen2[i]));
            } else {
                assert(seen.contains(seen2[j]));
            }
        }
        lemma_remove_duplicates_distinct(s.skip(1), seen2);
    } else if s.len() > 0 {
        lemma_remove_duplicates_distinct(s.skip(1), seen);
    }
}

/// The ranked candidates of a lowercased word: at most eight (all of them
/// when there are no more), at least one, in descending score order, each
/// one of the word's candidates, and none twice when the word's dictionary
/// entries hold none twice.
pub proof fn lemma_lowered_word_candidates(
    dict: Map<Seq<char>, Seq<Seq<char>>>,
    freq: Map<Seq<char>, u32>,
    prefs: Option<Map<Seq<char>, Map<Seq<char>, u32>>>,
    w: Seq<char>,
    key: Seq<char>,
)
    ensures
        lowered_word_candidates(dict, freq, prefs, w, key).len() <= 8,
        lowered_word_candidates(dict, freq, prefs, w, key).len() >= 1,
        lowered_word_candidates(dict, freq, prefs, w, key).len() == (if unranked_candidates(dict, w).len() > 8 {
            8
        } else {
            unranked_candidates(dict, w).len()
        }),
        forall|i: int, j: int|
            0 <= i < j < lowered_word_candidates(dict, freq, prefs, w, key).len() ==> scorer(
                prefs,
                key,
                entries_of(dict, w),
                freq,
            )(#[trigger] lowered_word_candidates(dict, freq, prefs, w, key)[i]) >= scorer(
                prefs,
                key,
                entries_of(dict, w),
                freq,
            )(#[trigger] lowered_word_candidates(dict, freq, prefs, w, key)[j]),
        forall|i: int|
            0 <= i < lowered_word_candidates(dict, freq, prefs, w, key).len() ==> unranked_candidates(
                dict,
                w,
            ).contains(#[trigger] lowered_word_candidates(dict, freq, prefs, w, key)[i]),
        entries_of(dict, w).no_duplicates() ==> lowered_word_candidates(dict, freq, prefs, w, key).no_duplicates(),
{
    let cands = unranked_candidates(dict, w);
    let score = scorer(prefs, key, entries_of(dict, w), freq);
    let full = ranked(cands, score);
    let r = lowered_word_candidates(dict, freq, prefs, w, key);
    lemma_ranked(cands, score);
    lemma_unranked_candidates(dict, w);
    assert(r == at_most(full, 8));
    assert forall|i: int| 0 <= i < r.len() implies cands.contains(#[trigger] r[i]) by {
        assert(r[i] == full[i]);
        assert(full.contains(full[i]));
    }
    assert forall|i: int, j: int| 0 <= i < j < r.len() implies score(#[trigger] r[i]) >= score(#[trigger] r[j]) by {
        assert(r[i] == full[i] && r[j] == full[j]);
    }
    if entries_of(dict, w).no_duplicates() {
        assert forall|i: int, j: int| 0 <= i < r.len() && 0 <= j < r.len() && i != j implies r[i] != r[j] by {
            assert(r[i] == full[i] && r[j] == full[j]);
        }
    }
}

/// A word has at least one candidate (its primary rule-based form), and no
/// candidate twice when its dictionary entries hold none twice.
pub proof fn lemma_unranked_candidates(dict: Map<Seq<char>, Seq<Seq<char>>>, w: Seq<char>)
    ensures
        unranked_candidates(dict, w).len() >= 1,
        entries_of(dict, w).no_duplicates() ==> unranked_candidates(dict, w).no_duplicates(),
{
    let three = seq![
        rule_based(w, VowelMode::DropMiddle),
        rule_based(w, VowelMode::KeepAll),
        rule_based(w, VowelMode::DropAll),
    ];
    let e = entries_of(dict, w);
    let c1 = three.remove_duplicates(e);
    let c2 = tanween_variants(c1).remove_duplicates(c1);
    let c3 = consonant_swaps(w).remove_duplicates(c2);
    three.lemma_remove_duplicates_properties(e);
    assert((three + e)[0] == three[0]);
    assert(c1.contains(three[0]));
    if e.no_duplicates() {
        lemma_remove_duplicates_distinct(three, e);
        lemma_remove_duplicates_distinct(tanween_variants(c1), c1);
        lemma_remove_duplicates_distinct(consonant_swaps(w), c2);
    } else {
        tanween_variants(c1).lemma_remove_duplicates_properties(c1);
        consonant_swaps(w).lemma_remove_duplicates_properties(c2);
        let k = choose|k: int| 0 <= k < c1.len() && c1[k] == three[0];
        assert((tanween_variants(c1) + c1)[tanween_variants(c1).len() + k] == three[0]);
        assert(c2.contains(three[0]));
        let m = choose|m: int| 0 <= m < c2.len() && c2[m] == three[0];
        assert((consonant_swaps(w) + c2)[consonant_swaps(w).len() + m] == three[0]);
    }
    if e.no_duplicates() {
        assert(c2.contains(three[0]));
    } else {
        let m = choose|m: int| 0 <= m < c2.len() && c2[m] == three[0];
        assert((consonant_swaps(w) + c2)[consonant_swaps(w).len() + m] == three[0]);
    }
    assert(c3.contains(three[0]));
    let q = choose|q: int| 0 <= q < c3.len() && c3[q] == three[0];
    assert(c3 == unranked_candidates(dict, w));
}

/// The ranked candidates of a word: those of its lowercased form, with the
/// user's choices read under that form lowercased again.
pub proof fn lemma_ranked_word_candidates(
    dict: Map<Seq<char>, Seq<Seq<char>>>,
    freq: Map<Seq<char>, u32>,
    prefs: Option<Map<Seq<char>, Map<Seq<char>, u32>>>,
    word: Seq<char>,
)
    ensures
        ranked_word_candidates(dict, freq, prefs, word) == lowered_word_candidates(
            dict,
            freq,
            prefs,
            lowercase(word),
            lowercase(lowercase(word)),
        ),
        1 <= ranked_word_candidates(dict, freq, prefs, word).len() <= 8,
{
    lemma_lowered_word_candidates(dict, freq, prefs, lowercase(word), lowercase(lowercase(word)));
}

/// Dictionary points never exceed 150000 and frequency points never exceed
/// 300000.
pub proof fn lemma_points_bounds(entries: Seq<Seq<char>>, freq: Map<Seq<char>, u32>, c: Seq<char>)
    ensures
        dictionary_points(entries, c) <= 150000,
        frequency_points(freq, c) <= 300000,
{
    let ws = words(c);
    if ws.len() > 0 {
        lemma_points_sum_bound(freq, ws);
        let s = crate::engine::points_sum(freq, ws);
        let n = ws.len();
        assert(s / n <= 300000) by (nonlinear_arith)
            requires
                s <= 300000 * n,
                n > 0,
        ;
    }
}

/// A candidate the user chose more often for the input scores higher than
/// one chosen less often, whatever the dictionary and the frequency list say.
pub proof fn lemma_preference_dominates(
    p: Map<Seq<char>, Map<Seq<char>, u32>>,
    key: Seq<char>,
    entries: Seq<Seq<char>>,
    freq: Map<Seq<char>, u32>,
    a: Seq<char>,
    b: Seq<char>,
)
    requires
        selection_count(p, key, a) > selection_count(p, key, b),
    ensures
        candidate_score(Some(p), key, a, entries, freq) > candidate_score(Some(p), key, b, entries, freq),
{
    lemma_points_bounds(entries, freq, a);
    lemma_points_bounds(entries, freq, b);
    let ca = selection_count(p, key, a);
    let cb = selection_count(p, key, b);
    assert(ca * 1_000_000 >= cb * 1_000_000 + 1_000_000) by (nonlinear_arith)
        requires
            ca > cb,
    ;
}

/// Of two ranked candidates, one that scores strictly higher comes first.
pub proof fn lemma_higher_score_first(
    dict: Map<Seq<char>, Seq<Seq<char>>>,
    freq: Map<Seq<char>, u32>,
    prefs: Option<Map<Seq<char>, Map<Seq<char>, u32>>>,
    w: Seq<char>,
    key: Seq<char>,
    i: int,
    j: int,
)
    requires
        0 <= i < lowered_word_candidates(dict, freq, prefs, w, key).len(),
        0 <= j < lowered_word_candidates(dict, freq, prefs, w, key).len(),
        scorer(prefs, key, entries_of(dict, w), freq)(lowered_word_candidates(dict, freq, prefs, w, key)[i])
            > scorer(prefs, key, entries_of(dict, w), freq)(lowered_word_candidates(dict, freq, prefs, w, key)[j]),
    ensures
        i < j,
{
    lemma_lowered_word_candidates(dict, freq, prefs, w, key);
    let r = lowered_word_candidates(dict, freq, prefs, w, key);
    if j <= i {
        if j < i {
            assert(scorer(prefs, key, entries_of(dict, w), freq)(r[j]) >= scorer(prefs, key, entries_of(dict, w), freq)(r[i]));
        }
    }
}

/// Between two candidates chosen equally often, a dictionary word whose
/// frequency points are at least those of a word outside the dictionary
/// comes first (the order user choice, dictionary, frequency).
pub proof fn lemma_dictionary_word_first(
    dict: Map<Seq<char>, Seq<Seq<char>>>,
    freq: Map<Seq<char>, u32>,
    prefs: Option<Map<Seq<char>, Map<Seq<char>, u32>>>,
    w: Seq<char>,
    key: Seq<char>,
    i: int,
    j: int,
)
    requires
        0 <= i < lowered_word_candidates(dict, freq, prefs, w, key).len(),
        0 <= j < lowered_word_candidates(dict, freq, prefs, w, key).len(),
        entries_of(dict, w).contains(lowered_word_candidates(dict, freq, prefs, w, key)[i]),
        !entries_of(dict, w).contains(lowered_word_candidates(dict, freq, prefs, w, key)[j]),
        preference_points(prefs, key, lowered_word_candidates(dict, freq, prefs, w, key)[i])
            == preference_points(prefs, key, lowered_word_candidates(dict, freq, prefs, w, key)[j]),
        frequency_points(freq, lowered_word_candidates(dict, freq, prefs, w, key)[i])
            >= frequency_points(freq, lowered_word_candidates(dict, freq, prefs, w, key)[j]),
    ensures
        i < j,
{
    lemma_higher_score_first(dict, freq, prefs, w, key, i, j);
}

/// The candidate chosen more often than every other candidate of the word
/// comes first.
pub proof fn lemma_most_chosen_first(
    dict: Map<Seq<char>, Seq<Seq<char>>>,
    freq: Map<Seq<char>, u32>,
    p: Map<Seq<char>, Map<Seq<char>, u32>>,
    w: Seq<char>,
    key: Seq<char>,
    c: Seq<char>,
)
    requires
        unranked_candidates(dict, w).contains(c),
        forall|d: Seq<char>|
            #![trigger unranked_candidates(dict, w).contains(d)]
            unranked_candidates(dict, w).contains(d) && d != c ==> selection_count(p, key, d) < selection_count(p, key, c),
    ensures
        lowered_word_candidates(dict, freq, Some(p), w, key).len() > 0,
        lowered_word_candidates(dict, freq, Some(p), w, key)[0] == c,
{
    let cands = unranked_candidates(dict, w);
    let entries = entries_of(dict, w);
    let score = scorer(Some(p), key, entries, freq);
    let full = ranked(cands, score);
    lemma_ranked(cands, score);
    lemma_lowered_word_candidates(dict, freq, Some(p), w, key);
    let r = lowered_word_candidates(dict, freq, Some(p), w, key);
    assert(full.contains(c));
    let k = choose|k: int| 0 <= k < full.len() && full[k] == c;
    assert(r == at_most(full, 8));
    assert(r[0] == full[0]);
    if full[0] != c {
        assert(full.contains(full[0]));
        lemma_preference_dominates(p, key, entries, freq, c, full[0]);
        if k > 0 {
            assert(score(full[0]) >= score(full[k]));
        }
    }
}

/// Choosing a candidate that was already chosen at least as often as every
/// other candidate of the word puts it first.
pub proof fn lemma_choice_goes_first(
    dict: Map<Seq<char>, Seq<Seq<char>>>,
    freq: Map<Seq<char>, u32>,
    p: Map<Seq<char>, Map<Seq<char>, u32>>,
    w: Seq<char>,
    key: Seq<char>,
    c: Seq<char>,
)
    requires
        unranked_candidates(dict, w).contains(c),
        forall|d: Seq<char>|
            #![trigger unranked_candidates(dict, w).contains(d)]
            unranked_candidates(dict, w).contains(d) && d != c ==> selection_count(p, key, d) <= selection_count(p, key, c),
        selection_count(p, key, c) < u32::MAX,
    ensures
        lowered_word_candidates(dict, freq, Some(with_selection(p, key, c)), w, key).len() > 0,
        lowered_word_candidates(dict, freq, Some(with_selection(p, key, c)), w, key)[0] == c,
{
    let q = with_selection(p, key, c);
    assert(selection_count(q, key, c) == selection_count(p, key, c) + 1);
    assert forall|d: Seq<char>|
        #![trigger unranked_candidates(dict, w).contains(d)]
        unranked_candidates(dict, w).contains(d) && d != c implies selection_count(q, key, d) < selection_count(q, key, c) by {
        assert(selection_count(q, key, d) == selection_count(p, key, d));
    }
    lemma_most_chosen_first(dict, freq, q, w, key, c);
}

/// With no choices recorded, the user's preferences change nothing.
pub proof fn lemma_no_choices_no_change(
    dict: Map<Seq<char>, Seq<Seq<char>>>,
    freq: Map<Seq<char>, u32>,
    w: Seq<char>,
    key: Seq<char>,
)
    ensures
        lowered_word_candidates(dict, freq, Some(Map::empty()), w, key) == lowered_word_candidates(dict, freq, None, w, key),
{
    let a = scorer(Some(Map::<Seq<char>, Map<Seq<char>, u32>>::empty()), key, entries_of(dict, w), freq);
    let b = scorer(None, key, entries_of(dict, w), freq);
    assert(a =~= b);
}

/// Inputs that differ only in case or in surrounding white space get the
/// same candidates.
pub proof fn lemma_transliteration_case_insensitive(
    dict: Map<Seq<char>, Seq<Seq<char>>>,
    freq: Map<Seq<char>, u32>,
    a: Seq<char>,
    b: Seq<char>,
)
    requires
        lowercase(trim(a)) == lowercase(trim(b)),
    ensures
        ranked_transliteration(dict, freq, a) == ranked_transliteration(dict, freq, b),
{
}

/// Words that differ only in case get the same ranked candidates.
pub proof fn lemma_word_case_insensitive(
    dict: Map<Seq<char>, Seq<Seq<char>>>,
    freq: Map<Seq<char>, u32>,
    prefs: Option<Map<Seq<char>, Map<Seq<char>, u32>>>,
    a: Seq<char>,
    b: Seq<char>,
)
    requires
        lowercase(a) == lowercase(b),
    ensures
        ranked_word_candidates(dict, freq, prefs, a) == ranked_word_candidates(dict, freq, prefs, b),
{
}

/// For ASCII input, lowercasing it first changes nothing: a text and its
/// lowercase form get the same candidates (`SHUKRAN` and `shukran`).
pub proof fn lemma_ascii_lowercase_input(dict: Map<Seq<char>, Seq<Seq<char>>>, freq: Map<Seq<char>, u32>, s: Seq<char>)
    ensures
        is_ascii_text(trim(s)) ==> is_ascii_text(trim(ascii_lowercase(s))),
        ascii_transliteration(dict, freq, ascii_lowercase(trim(ascii_lowercase(s)))) == ascii_transliteration(
            dict,
            freq,
            ascii_lowercase(trim(s)),
        ),
{
    lemma_trim_ascii_lowercase(s);
    lemma_ascii_lowercase(trim(s));
}

/// Blank ASCII input (such as spaces alone) gets no candidates.
pub proof fn lemma_blank_input(dict: Map<Seq<char>, Seq<Seq<char>>>, freq: Map<Seq<char>, u32>, s: Seq<char>)
    requires
        trim(s).len() == 0,
    ensures
        is_ascii_text(trim(s)),
        ascii_transliteration(dict, freq, ascii_lowercase(trim(s))).len() == 0,
{
}

/// For an ASCII word, lowercasing it first changes nothing: a word and its
/// lowercase form get the same ranked candidates.
pub proof fn lemma_ascii_word_lowercase(
    dict: Map<Seq<char>, Seq<Seq<char>>>,
    freq: Map<Seq<char>, u32>,
    prefs: Option<Map<Seq<char>, Map<Seq<char>, u32>>>,
    w: Seq<char>,
)
    ensures
        is_ascii_text(w) ==> is_ascii_text(ascii_lowercase(w)),
        lowered_word_candidates(
            dict,
            freq,
            prefs,
            ascii_lowercase(ascii_lowercase(w)),
            ascii_lowercase(ascii_lowercase(w)),
        ) == lowered_word_candidates(dict, freq, prefs, ascii_lowercase(w), ascii_lowercase(w)),
{
    lemma_ascii_lowercase(w);
}

/// Frequency points go down with the rank: the most common word (rank 0)
/// gets 300000 points, and a more common word always gets more points than
/// a rarer one.
pub proof fn lemma_rank_points_order(r1: u32, r2: u32)
    ensures
        rank_points(0) == 300000,
        rank_points(r1) <= 300000,
        r1 < r2 && r1 < 300000 ==> rank_points(r1) > rank_points(r2),
{
}

/// A candidate that is one word of the frequency list gets the frequency
/// points of its rank.
pub proof fn lemma_single_word_frequency_points(freq: Map<Seq<char>, u32>, c: Seq<char>)
    requires
        words(c) == seq![c],
        freq.contains_key(c),
    ensures
        frequency_points(freq, c) == rank_points(freq[c]),
{
    let ws = words(c);
    assert(ws.len() == 1);
    assert(ws[0] == c);
    assert(ws.last() == c);
    assert(ws.drop_last() =~= Seq::<Seq<char>>::empty());
    assert(points_sum(freq, ws.drop_last()) == 0);
    assert(points_sum(freq, ws) == rank_points(freq[c]));
    assert(all_ranked(freq, ws));
    assert(points_sum(freq, ws) / 1 == points_sum(freq, ws));
}

/// Of two ranked candidates chosen equally often and with equal dictionary
/// points, each a single word of the frequency list, the more common word
/// (smaller rank) comes first.
pub proof fn lemma_more_common_word_first(
    dict: Map<Seq<char>, Seq<Seq<char>>>,
    freq: Map<Seq<char>, u32>,
    prefs: Option<Map<Seq<char>, Map<Seq<char>, u32>>>,
    w: Seq<char>,
    key: Seq<char>,
    i: int,
    j: int,
)
    requires
        0 <= i < lowered_word_candidates(dict, freq, prefs, w, key).len(),
        0 <= j < lowered_word_candidates(dict, freq, prefs, w, key).len(),
        words(lowered_word_candidates(dict, freq, prefs, w, key)[i]) == seq![
            lowered_word_candidates(dict, freq, prefs, w, key)[i],
        ],
        words(lowered_word_candidates(dict, freq, prefs, w, key)[j]) == seq![
            lowered_word_candidates(dict, freq, prefs, w, key)[j],
        ],
        freq.contains_key(lowered_word_candidates(dict, freq, prefs, w, key)[i]),
        freq.contains_key(lowered_word_candidates(dict, freq, prefs, w, key)[j]),
        freq[lowered_word_candidates(dict, freq, prefs, w, key)[i]] < freq[lowered_word_candidates(
            dict,
            freq,
            prefs,
            w,
            key,
        )[j]],
        freq[lowered_word_candidates(dict, freq, prefs, w, key)[i]] < 300000,
        preference_points(prefs, key, lowered_word_candidates(dict, freq, prefs, w, key)[i]) == preference_points(
            prefs,
            key,
            lowered_word_candidates(dict, freq, prefs, w, key)[j],
        ),
        dictionary_points(entries_of(dict, w), lowered_word_candidates(dict, freq, prefs, w, key)[i])
            == dictionary_points(entries_of(dict, w), lowered_word_candidates(dict, freq, prefs, w, key)[j]),
    ensures
        i < j,
{
    let r = lowered_word_candidates(dict, freq, prefs, w, key);
    lemma_single_word_frequency_points(freq, r[i]);
    lemma_single_word_frequency_points(freq, r[j]);
    lemma_rank_points_order(freq[r[i]], freq[r[j]]);
    lemma_higher_score_first(dict, freq, prefs, w, key, i, j);
}

} // verus!
