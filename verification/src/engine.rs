//! The ranked transliteration engine.
//!
//! Candidates for a word come from the dictionary, from the primary
//! rule-based transliteration (short vowels between consonants dropped), from
//! variations that keep all or drop all short vowels, from tanween endings,
//! and from swapping ambiguous consonants (`s` as `ص` instead of `س`, ...).
//! They are then ranked by the user's earlier choices, by dictionary
//! membership and by Arabic word frequency, and at most eight are kept.

use vstd::prelude::*;
use crate::mappings::{
    ambiguous_table, ambiguous_view, occurs_at_exec, first_match_from, consonant_table, find_match, first_match, index_of_match, initial_vowel, is_vowel, is_vowel_char,
    lemma_first_match_from, lemma_patterns_nonempty, long_vowel_table, match_output, push_initial_vowel,
    short_vowel_table, table_view, Mappings,
};
use crate::text::{append_chars, clone_chars};
use crate::assoc::contains_chars;
use crate::dictionary::{build_dictionary, plain_dictionary_map, word_list_view, Dictionary};
use crate::frequency::FrequencyList;
use crate::user_prefs::{selection_count, UserPreferences};
use crate::text::{ascii_lowercase, chars_of, is_ascii_text, lemma_ascii_lowercase, lemma_words_ascii, lowercase, lowercase_chars, split_whitespace, trim, trim_chars, words};
use crate::phrase::{clone_words, combine_phrase, extend_unique, lemma_dedup_push, lists_view, phrase_candidates, push_unique, strings_view, to_strings};
use crate::assoc::chars_equal;
use std::collections::HashMap;

verus! {

/// How short vowels are written by the rule-based transliteration.
#[derive(Clone, Copy)]
pub enum VowelMode {
    /// Drop short vowels between consonants; keep them at the start, at the
    /// end and just before the final letter.
    DropMiddle,
    /// Keep every short vowel as a standalone letter.
    KeepAll,
    /// Drop every short vowel but a word-initial one.
    DropAll,
}

/// How strongly a vowel pulls a hamza onto its seat: kasra (`i`, `e`)
/// strongest, then damma (`u`, `o`), then fatha (`a`).
pub open spec fn strength(c: char) -> Option<u8> {
    if c == 'i' || c == 'e' {
        Some(3)
    } else if c == 'u' || c == 'o' {
        Some(2)
    } else if c == 'a' {
        Some(1)
    } else {
        None
    }
}

/// The stronger of two optional vowel strengths.
pub open spec fn stronger(a: Option<u8>, b: Option<u8>) -> Option<u8> {
    match (a, b) {
        (Some(x), Some(y)) => Some(if x >= y { x } else { y }),
        (Some(x), None) => Some(x),
        (None, Some(y)) => Some(y),
        (None, None) => None,
    }
}

/// The letter a hamza (`2`) at `pos` becomes: on an alef at the start of the
/// word (below it before `i` or `e`), standalone at the end, and in the
/// middle on the seat of the strongest adjacent vowel (ya for kasra, waw for
/// damma, alef otherwise).
pub open spec fn hamza_seat(w: Seq<char>, pos: int) -> char {
    if pos == 0 {
        if pos + 1 < w.len() && (w[pos + 1] == 'i' || w[pos + 1] == 'e') {
            'إ'
        } else {
            'أ'
        }
    } else if pos == w.len() - 1 {
        'ء'
    } else {
        match stronger(strength(w[pos - 1]), strength(w[pos + 1])) {
            Some(3) => 'ئ',
            Some(2) => 'ؤ',
            _ => 'أ',
        }
    }
}

/// A `-` right after `pos` separates the letter at `pos` from the next one.
pub open spec fn has_separator(w: Seq<char>, pos: int) -> bool {
    pos + 1 < w.len() && w[pos + 1] == '-'
}

/// The longest pattern that may match at `pos`: one letter before a
/// separator, any length otherwise.
pub open spec fn pattern_limit(w: Seq<char>, pos: int) -> int {
    if has_separator(w, pos) {
        1
    } else {
        usize::MAX as int
    }
}

/// A word-final `a` or `e` after a consonant: the feminine ending ة.
pub open spec fn is_taa_marbuta(w: Seq<char>, pos: int) -> bool {
    pos == w.len() - 1 && (w[pos] == 'a' || w[pos] == 'e') && pos > 0 && !is_vowel(w[pos - 1])
}

/// The letters a short vowel at `pos` becomes in the given mode.
pub open spec fn vowel_letters(w: Seq<char>, pos: int, mode: VowelMode) -> Seq<char> {
    if pos == 0 {
        initial_vowel(w[pos])
    } else if is_taa_marbuta(w, pos) {
        seq!['ة']
    } else {
        match mode {
            VowelMode::KeepAll => match_output(short_vowel_table(), w, pos, usize::MAX as int),
            VowelMode::DropAll => Seq::empty(),
            VowelMode::DropMiddle => if pos == w.len() - 1 || pos + 1 == w.len() - 1 {
                match_output(short_vowel_table(), w, pos, usize::MAX as int)
            } else {
                Seq::empty()
            },
        }
    }
}

/// One step of the rule-based transliteration at `pos`: the letters it
/// produces and the position after what it consumed. A hamza is placed by
/// context; a consonant pattern (cut to one letter before a separator, and
/// the separator skipped) maps to its letters; a bare separator is dropped;
/// a long vowel maps to its letter; a short vowel depends on the mode; any
/// other character is kept.
pub open spec fn rule_step(w: Seq<char>, pos: int, mode: VowelMode) -> (Seq<char>, int) {
    if w[pos] == '2' {
        (seq![hamza_seat(w, pos)], pos + 1)
    } else {
        match first_match(consonant_table(), w, pos, pattern_limit(w, pos)) {
            Some(i) => {
                let next = pos + consonant_table()[i].0.len();
                (
                    consonant_table()[i].1,
                    if has_separator(w, pos) && next < w.len() && w[next] == '-' {
                        next + 1
                    } else {
                        next
                    },
                )
            },
            None => if w[pos] == '-' {
                (Seq::empty(), pos + 1)
            } else {
                match first_match(long_vowel_table(), w, pos, usize::MAX as int) {
                    Some(i) => (long_vowel_table()[i].1, pos + long_vowel_table()[i].0.len()),
                    None => if is_vowel(w[pos]) {
                        (vowel_letters(w, pos, mode), pos + 1)
                    } else {
                        (seq![w[pos]], pos + 1)
                    },
                }
            },
        }
    }
}

/// A step consumes at least one character and stays within the word.
pub proof fn lemma_rule_step_advances(w: Seq<char>, pos: int, mode: VowelMode)
    requires
        0 <= pos < w.len(),
    ensures
        pos < rule_step(w, pos, mode).1 <= w.len(),
{
    lemma_patterns_nonempty();
    lemma_first_match_from(consonant_table(), w, pos, pattern_limit(w, pos), 0);
    lemma_first_match_from(long_vowel_table(), w, pos, usize::MAX as int, 0);
}

/// The rule-based transliteration of `w` from `pos` on.
pub open spec fn rule_from(w: Seq<char>, pos: int, mode: VowelMode) -> Seq<char>
    decreases w.len() - pos,
{
    if pos < 0 || pos >= w.len() {
        Seq::empty()
    } else {
        proof {
            lemma_rule_step_advances(w, pos, mode);
        }
        rule_step(w, pos, mode).0 + rule_from(w, rule_step(w, pos, mode).1, mode)
    }
}

/// The rule-based transliteration of a word in the given vowel mode.
pub open spec fn rule_based(w: Seq<char>, mode: VowelMode) -> Seq<char> {
    rule_from(w, 0, mode)
}


/// An ambiguous consonant found in a word: its position, its pattern and
/// the alternative letters it may stand for.
pub type Spot = (int, Seq<char>, Seq<Seq<char>>);

/// The ambiguous-consonant patterns with their primary letters.
pub open spec fn ambiguous_patterns() -> Seq<(Seq<char>, Seq<char>)> {
    ambiguous_table().map_values(|e: (Seq<char>, Seq<char>, Seq<Seq<char>>)| (e.0, e.1))
}

/// Where the scan for ambiguous consonants goes on after a position that
/// holds none: past a consonant pattern, past a long vowel, or one further.
pub open spec fn scan_skip(w: Seq<char>, pos: int) -> int {
    match first_match(consonant_table(), w, pos, pattern_limit(w, pos)) {
        Some(i) => pos + consonant_table()[i].0.len(),
        None => match first_match(long_vowel_table(), w, pos, usize::MAX as int) {
            Some(i) => pos + long_vowel_table()[i].0.len(),
            None => pos + 1,
        },
    }
}

/// The scan skips at least one character and stays within the word.
pub proof fn lemma_scan_skip(w: Seq<char>, pos: int)
    requires
        0 <= pos < w.len(),
    ensures
        pos < scan_skip(w, pos) <= w.len(),
        first_match(ambiguous_patterns(), w, pos, pattern_limit(w, pos)) matches Some(k) ==> 0 <= k
            < ambiguous_table().len() && 0 < ambiguous_table()[k].0.len() && pos
            + ambiguous_table()[k].0.len() <= w.len(),
{
    lemma_patterns_nonempty();
    lemma_first_match_from(consonant_table(), w, pos, pattern_limit(w, pos), 0);
    lemma_first_match_from(long_vowel_table(), w, pos, usize::MAX as int, 0);
    lemma_first_match_from(ambiguous_patterns(), w, pos, pattern_limit(w, pos), 0);
}

/// The ambiguous consonants of `w` from `pos` on, in order.
pub open spec fn spots_from(w: Seq<char>, pos: int) -> Seq<Spot>
    decreases w.len() - pos,
{
    if pos < 0 || pos >= w.len() {
        Seq::empty()
    } else if w[pos] == '-' {
        spots_from(w, pos + 1)
    } else {
        proof {
            lemma_scan_skip(w, pos);
        }
        match first_match(ambiguous_patterns(), w, pos, pattern_limit(w, pos)) {
            Some(k) => seq![(pos, ambiguous_table()[k].0, ambiguous_table()[k].2)] + spots_from(
                w,
                pos + ambiguous_table()[k].0.len(),
            ),
            None => spots_from(w, scan_skip(w, pos)),
        }
    }
}

/// The ambiguous consonants of a word.
pub open spec fn ambiguous_spots(w: Seq<char>) -> Seq<Spot> {
    spots_from(w, 0)
}

/// Every spot lies within the word and has a non-empty pattern.
pub open spec fn spots_fit(w: Seq<char>, spots: Seq<Spot>) -> bool {
    forall|k: int|
        0 <= k < spots.len() ==> 0 <= #[trigger] spots[k].0 && 0 < spots[k].1.len() && spots[k].0
            + spots[k].1.len() <= w.len()
}

/// Index of the first spot at position `pos`, searching from index `k`.
pub open spec fn first_spot_from(spots: Seq<Spot>, pos: int, k: int) -> Option<int>
    decreases spots.len() - k,
{
    if k < 0 || k >= spots.len() {
        None
    } else if spots[k].0 == pos {
        Some(k)
    } else {
        first_spot_from(spots, pos, k + 1)
    }
}

/// Index of the first spot at position `pos`.
pub open spec fn spot_at(spots: Seq<Spot>, pos: int) -> Option<int> {
    first_spot_from(spots, pos, 0)
}

/// A found spot is in range and at `pos`.
pub proof fn lemma_first_spot_from(spots: Seq<Spot>, pos: int, k: int)
    ensures
        first_spot_from(spots, pos, k) matches Some(j) ==> k <= j < spots.len() && spots[j].0 == pos,
    decreases spots.len() - k,
{
    if 0 <= k < spots.len() && spots[k].0 != pos {
        lemma_first_spot_from(spots, pos, k + 1);
    }
}

/// One step of the transliteration with overrides: the letters the
/// override gives, if the spot at `pos` has one, and otherwise a rule-based
/// step that drops short vowels (but an initial one or a final ة).
pub open spec fn override_step(w: Seq<char>, spots: Seq<Spot>, ov: Map<int, Seq<char>>, pos: int) -> (Seq<char>, int) {
    match spot_at(spots, pos) {
        Some(k) => if ov.contains_key(k) {
            (ov[k], pos + spots[k].1.len())
        } else {
            rule_step(w, pos, VowelMode::DropAll)
        },
        None => rule_step(w, pos, VowelMode::DropAll),
    }
}

/// An override step consumes at least one character and stays within the
/// word.
pub proof fn lemma_override_step_advances(w: Seq<char>, spots: Seq<Spot>, ov: Map<int, Seq<char>>, pos: int)
    requires
        0 <= pos < w.len(),
        spots_fit(w, spots),
    ensures
        pos < override_step(w, spots, ov, pos).1 <= w.len(),
{
    lemma_rule_step_advances(w, pos, VowelMode::DropAll);
    lemma_first_spot_from(spots, pos, 0);
}

/// The transliteration of `w` from `pos` on, with the ambiguous consonants
/// at the spots listed in `ov` replaced by the given letters.
pub open spec fn override_from(w: Seq<char>, spots: Seq<Spot>, ov: Map<int, Seq<char>>, pos: int) -> Seq<char>
    decreases w.len() - pos,
    when spots_fit(w, spots)
{
    if pos < 0 || pos >= w.len() {
        Seq::empty()
    } else {
        proof {
            lemma_override_step_advances(w, spots, ov, pos);
        }
        override_step(w, spots, ov, pos).0 + override_from(w, spots, ov, override_step(w, spots, ov, pos).1)
    }
}


/// With no override for any spot, the transliteration with overrides is the
/// rule-based one that drops short vowels.
pub proof fn lemma_no_overrides(w: Seq<char>, spots: Seq<Spot>, ov: Map<int, Seq<char>>, pos: int)
    requires
        spots_fit(w, spots),
        forall|k: int| 0 <= k < spots.len() ==> !ov.contains_key(k),
    ensures
        override_from(w, spots, ov, pos) == rule_from(w, pos, VowelMode::DropAll),
    decreases w.len() - pos,
{
    if 0 <= pos < w.len() {
        lemma_first_spot_from(spots, pos, 0);
        lemma_override_step_advances(w, spots, ov, pos);
        lemma_rule_step_advances(w, pos, VowelMode::DropAll);
        assert(override_step(w, spots, ov, pos) == rule_step(w, pos, VowelMode::DropAll));
        lemma_no_overrides(w, spots, ov, rule_step(w, pos, VowelMode::DropAll).1);
    }
}

/// The spots of a word fit it.
pub proof fn lemma_spots_fit(w: Seq<char>, pos: int)
    ensures
        spots_fit(w, spots_from(w, pos)),
    decreases w.len() - pos,
{
    if 0 <= pos < w.len() {
        if w[pos] == '-' {
            lemma_spots_fit(w, pos + 1);
        } else {
            lemma_scan_skip(w, pos);
            match first_match(ambiguous_patterns(), w, pos, pattern_limit(w, pos)) {
                Some(k) => {
                    let next = pos + ambiguous_table()[k].0.len();
                    lemma_spots_fit(w, next);
                    let rest = spots_from(w, next);
                    let all = spots_from(w, pos);
                    assert forall|j: int| 0 <= j < all.len() implies 0 <= #[trigger] all[j].0 && 0
                        < all[j].1.len() && all[j].0 + all[j].1.len() <= w.len() by {
                        if j > 0 {
                            assert(all[j] == rest[j - 1]);
                        }
                    }
                },
                None => {
                    lemma_spots_fit(w, scan_skip(w, pos));
                },
            }
        }
    }
}

/// The candidates from swapping spot `i` alone to each of its alternatives.
pub open spec fn single_swaps_at(w: Seq<char>, spots: Seq<Spot>, i: int) -> Seq<Seq<char>> {
    spots[i].2.map_values(|alt: Seq<char>| override_from(w, spots, map![i => alt], 0))
}

/// The candidates from swapping one spot at a time.
pub open spec fn single_swaps(w: Seq<char>, spots: Seq<Spot>) -> Seq<Seq<char>> {
    Seq::new(spots.len(), |i: int| i).flat_map(|i: int| single_swaps_at(w, spots, i))
}

/// Indices, in order and below `k`, of the spots with pattern `p`.
pub open spec fn indices_with_pattern(spots: Seq<Spot>, p: Seq<char>, k: int) -> Seq<int>
    decreases k,
{
    if k <= 0 {
        Seq::empty()
    } else if spots[k - 1].1 == p {
        indices_with_pattern(spots, p, k - 1).push(k - 1)
    } else {
        indices_with_pattern(spots, p, k - 1)
    }
}

/// The distinct patterns of the spots, in order of first occurrence.
pub open spec fn spot_patterns(spots: Seq<Spot>) -> Seq<Seq<char>> {
    spots.map_values(|s: Spot| s.1).remove_duplicates(Seq::empty())
}

/// The override that replaces every listed spot with `alt`.
pub open spec fn group_override(idxs: Seq<int>, alt: Seq<char>) -> Map<int, Seq<char>> {
    Map::new(|k: int| idxs.contains(k), |k: int| alt)
}

/// The candidates from swapping all spots with pattern `p` at once to each
/// alternative of the first of them; none when `p` occurs only once.
pub open spec fn group_swaps_for(w: Seq<char>, spots: Seq<Spot>, p: Seq<char>) -> Seq<Seq<char>> {
    let idxs = indices_with_pattern(spots, p, spots.len() as int);
    if idxs.len() < 2 {
        Seq::empty()
    } else {
        spots[idxs[0]].2.map_values(|alt: Seq<char>| override_from(w, spots, group_override(idxs, alt), 0))
    }
}

/// The candidates from swapping all spots of one pattern at once.
pub open spec fn group_swaps(w: Seq<char>, spots: Seq<Spot>) -> Seq<Seq<char>> {
    spot_patterns(spots).flat_map(|p: Seq<char>| group_swaps_for(w, spots, p))
}

/// The consonant-swap variations of a word: one spot at a time, then all
/// spots of a repeated pattern at once; each distinct candidate once.
pub open spec fn consonant_swaps(w: Seq<char>) -> Seq<Seq<char>> {
    let spots = ambiguous_spots(w);
    (single_swaps(w, spots) + group_swaps(w, spots)).remove_duplicates(Seq::empty())
}

/// The indices listed for a pattern are exactly the spots below `k` with
/// that pattern; when `a` is the first spot with it, `a` is listed first.
proof fn lemma_indices_with_pattern(spots: Seq<Spot>, p: Seq<char>, k: int, a: int)
    requires
        k <= spots.len(),
    ensures
        forall|m: int| #[trigger] indices_with_pattern(spots, p, k).contains(m) <==> (0 <= m < k && spots[m].1 == p),
        0 <= a < k && spots[a].1 == p && (forall|m: int| 0 <= m < a ==> spots[m].1 != p) ==> indices_with_pattern(spots, p, k).len() > 0
            && indices_with_pattern(spots, p, k)[0] == a,
    decreases k,
{
    if k > 0 {
        lemma_indices_with_pattern(spots, p, k - 1, a);
        let prev = indices_with_pattern(spots, p, k - 1);
        let cur = indices_with_pattern(spots, p, k);
        if spots[k - 1].1 == p {
            assert(cur == prev.push(k - 1));
            assert forall|m: int| #[trigger] cur.contains(m) <==> (0 <= m < k && spots[m].1 == p) by {
                if cur.contains(m) {
                    let q = choose|q: int| 0 <= q < cur.len() && cur[q] == m;
                    if q < prev.len() {
                        assert(prev[q] == m);
                        assert(prev.contains(m));
                    }
                }
                if 0 <= m < k && spots[m].1 == p {
                    if m < k - 1 {
                        assert(prev.contains(m));
                        let q = choose|q: int| 0 <= q < prev.len() && prev[q] == m;
                        assert(cur[q] == m);
                    } else {
                        assert(cur[prev.len() as int] == m);
                    }
                }
            }
            if 0 <= a < k && spots[a].1 == p && (forall|m: int| 0 <= m < a ==> spots[m].1 != p) {
                if a == k - 1 {
                    if prev.len() > 0 {
                        assert(prev.contains(prev[0]));
                    }
                    assert(cur[0] == a);
                } else {
                    assert(cur[0] == prev[0]);
                }
            }
        } else {
            assert(cur == prev);
        }
    }
}

/// All spots of a pattern that occurs at two or more spots are swapped at
/// once: for every alternative of the first such spot, the consonant swaps
/// hold the word with each spot of that pattern replaced by it.
pub proof fn lemma_repeated_pattern_swapped_together(w: Seq<char>, a: int, b: int, alt: Seq<char>)
    requires
        0 <= a < b < ambiguous_spots(w).len(),
        ambiguous_spots(w)[a].1 == ambiguous_spots(w)[b].1,
        forall|m: int| 0 <= m < a ==> ambiguous_spots(w)[m].1 != ambiguous_spots(w)[a].1,
        ambiguous_spots(w)[a].2.contains(alt),
    ensures
        consonant_swaps(w).contains(
            override_from(
                w,
                ambiguous_spots(w),
                Map::new(
                    |k: int| 0 <= k < ambiguous_spots(w).len() && ambiguous_spots(w)[k].1 == ambiguous_spots(w)[a].1,
                    |k: int| alt,
                ),
                0,
            ),
        ),
{
    let spots = ambiguous_spots(w);
    let p = spots[a].1;
    let n = spots.len() as int;
    let ov = Map::new(|k: int| 0 <= k < n && spots[k].1 == p, |k: int| alt);
    lemma_spots_fit(w, 0);
    assert(ov =~= Map::new(
        |k: int| 0 <= k < ambiguous_spots(w).len() && ambiguous_spots(w)[k].1 == ambiguous_spots(w)[a].1,
        |k: int| alt,
    ));
    let target = override_from(w, spots, ov, 0);
    lemma_indices_with_pattern(spots, p, n, a);
    let idxs = indices_with_pattern(spots, p, n);
    assert(idxs.contains(b));
    if idxs.len() < 2 {
        let q = choose|q: int| 0 <= q < idxs.len() && idxs[q] == b;
        assert(q == 0);
    }
    assert(group_override(idxs, alt) =~= ov);
    let alts = spots[idxs[0]].2;
    let t = choose|t: int| 0 <= t < alts.len() && alts[t] == alt;
    let g = group_swaps_for(w, spots, p);
    assert(g[t] == target);
    let pats = spot_patterns(spots);
    let pv = spots.map_values(|s: Spot| s.1);
    assert(pv[a] == p);
    assert(pv.contains(p));
    pv.lemma_remove_duplicates_properties(Seq::empty());
    assert((pv + Seq::<Seq<char>>::empty()).contains(p)) by {
        assert(pv + Seq::<Seq<char>>::empty() =~= pv);
    }
    assert(pats.contains(p));
    let r = choose|r: int| 0 <= r < pats.len() && pats[r] == p;
    let f = |q: Seq<char>| group_swaps_for(w, spots, q);
    assert(f(pats[r]) == g);
    crate::phrase::lemma_flat_map_contains(pats, f, r, t);
    let gs = group_swaps(w, spots);
    assert(gs.contains(target));
    let both = single_swaps(w, spots) + gs;
    let q = choose|q: int| 0 <= q < gs.len() && gs[q] == target;
    assert(both[single_swaps(w, spots).len() + q] == target);
    both.lemma_remove_duplicates_properties(Seq::empty());
    assert((both + Seq::<Seq<char>>::empty()).contains(target)) by {
        assert(both + Seq::<Seq<char>>::empty() =~= both);
    }
    assert(consonant_swaps(w) == both.remove_duplicates(Seq::empty()));
}


/// The tanween-fatha form of a candidate ending in ن: an Arabizi "-an"
/// ending often stands for tanween fatha (اً) rather than a written alef-noon
/// (ان), or for a noon whose vowel was dropped.
pub open spec fn tanween_variant(c: Seq<char>) -> Option<Seq<char>> {
    if c.len() >= 2 && c[c.len() - 2] == 'ا' && c[c.len() - 1] == 'ن' {
        Some(c.take(c.len() - 2) + seq!['ا', 'ً'])
    } else if c.len() >= 1 && c[c.len() - 1] == 'ن' {
        Some(c.drop_last() + seq!['ا', 'ً'])
    } else {
        None
    }
}

/// The tanween variants of a list of candidates, in order.
pub open spec fn tanween_variants(cands: Seq<Seq<char>>) -> Seq<Seq<char>> {
    cands.filter_map(|c: Seq<char>| tanween_variant(c))
}

/// Points for a frequency rank: 300000 for the most common word, one less
/// per rank, never below zero.
pub open spec fn rank_points(rank: u32) -> nat {
    if rank < 300000 {
        (300000 - rank) as nat
    } else {
        0
    }
}

/// Every word has a frequency rank.
pub open spec fn all_ranked(freq: Map<Seq<char>, u32>, ws: Seq<Seq<char>>) -> bool {
    forall|i: int| 0 <= i < ws.len() ==> freq.contains_key(#[trigger] ws[i])
}

/// The sum of the rank points of the words.
pub open spec fn points_sum(freq: Map<Seq<char>, u32>, ws: Seq<Seq<char>>) -> nat
    decreases ws.len(),
{
    if ws.len() == 0 {
        0
    } else {
        points_sum(freq, ws.drop_last()) + rank_points(freq[ws.last()])
    }
}

/// Frequency points of a candidate: the average rank points of its words
/// when every word is in the frequency list, zero otherwise.
pub open spec fn frequency_points(freq: Map<Seq<char>, u32>, c: Seq<char>) -> nat {
    let ws = words(c);
    if ws.len() > 0 && all_ranked(freq, ws) {
        points_sum(freq, ws) / ws.len()
    } else {
        0
    }
}

/// Dictionary points of a candidate: 100000 for a dictionary word, 50000
/// more for the preferred (first) dictionary form.
pub open spec fn dictionary_points(entries: Seq<Seq<char>>, c: Seq<char>) -> nat {
    if entries.contains(c) {
        100000 + if entries[0] == c {
            50000nat
        } else {
            0nat
        }
    } else {
        0
    }
}

/// Points for the user's earlier choices: a million per time the candidate
/// was chosen for the input whose (lowercased) key is `key`.
pub open spec fn preference_points(prefs: Option<Map<Seq<char>, Map<Seq<char>, u32>>>, key: Seq<char>, c: Seq<char>) -> nat {
    match prefs {
        Some(p) => selection_count(p, key, c) * 1_000_000,
        None => 0,
    }
}

/// The score of a candidate; higher is better. The user's choices are read
/// under `key`.
pub open spec fn candidate_score(
    prefs: Option<Map<Seq<char>, Map<Seq<char>, u32>>>,
    key: Seq<char>,
    c: Seq<char>,
    entries: Seq<Seq<char>>,
    freq: Map<Seq<char>, u32>,
) -> nat {
    preference_points(prefs, key, c) + dictionary_points(entries, c) + frequency_points(freq, c)
}

/// The scoring of candidates for one input.
pub open spec fn scorer(
    prefs: Option<Map<Seq<char>, Map<Seq<char>, u32>>>,
    key: Seq<char>,
    entries: Seq<Seq<char>>,
    freq: Map<Seq<char>, u32>,
) -> spec_fn(Seq<char>) -> nat {
    |c: Seq<char>| candidate_score(prefs, key, c, entries, freq)
}

/// Inserts `x` into a list sorted by descending score, after every element
/// whose score is at least as high.
pub open spec fn insert_by_score(sorted: Seq<(nat, Seq<char>)>, x: (nat, Seq<char>)) -> Seq<(nat, Seq<char>)>
    decreases sorted.len(),
{
    if sorted.len() == 0 {
        seq![x]
    } else if sorted.last().0 >= x.0 {
        sorted.push(x)
    } else {
        insert_by_score(sorted.drop_last(), x).push(sorted.last())
    }
}

/// The stable sort by descending score: equal scores keep their order.
pub open spec fn sort_by_score(s: Seq<(nat, Seq<char>)>) -> Seq<(nat, Seq<char>)>
    decreases s.len(),
{
    if s.len() == 0 {
        s
    } else {
        insert_by_score(sort_by_score(s.drop_last()), s.last())
    }
}

/// The candidates ordered by descending score, equal scores in their
/// original order.
pub open spec fn ranked(cands: Seq<Seq<char>>, score: spec_fn(Seq<char>) -> nat) -> Seq<Seq<char>> {
    sort_by_score(cands.map_values(|c: Seq<char>| (score(c), c))).map_values(|p: (nat, Seq<char>)| p.1)
}

/// The first `n` elements, or all when there are fewer.
pub open spec fn at_most<A>(s: Seq<A>, n: int) -> Seq<A> {
    if s.len() > n {
        s.take(n)
    } else {
        s
    }
}

/// The dictionary entries of a word, or none.
pub open spec fn entries_of(dict: Map<Seq<char>, Seq<Seq<char>>>, w: Seq<char>) -> Seq<Seq<char>> {
    if dict.contains_key(w) {
        dict[w]
    } else {
        Seq::empty()
    }
}

/// The candidates of a lowercased word before ranking: its dictionary
/// entries, then (each only once) the primary rule-based form, the forms
/// keeping all and dropping all short vowels, the tanween variants of those,
/// and the consonant swaps.
pub open spec fn unranked_candidates(dict: Map<Seq<char>, Seq<Seq<char>>>, w: Seq<char>) -> Seq<Seq<char>> {
    let c1 = seq![
        rule_based(w, VowelMode::DropMiddle),
        rule_based(w, VowelMode::KeepAll),
        rule_based(w, VowelMode::DropAll),
    ].remove_duplicates(entries_of(dict, w));
    let c2 = tanween_variants(c1).remove_duplicates(c1);
    consonant_swaps(w).remove_duplicates(c2)
}

/// The ranked candidates of an already lowercased word `w`: its candidates
/// ranked by user preference (the user's choices read under `key`),
/// dictionary membership and frequency; at most eight.
pub open spec fn lowered_word_candidates(
    dict: Map<Seq<char>, Seq<Seq<char>>>,
    freq: Map<Seq<char>, u32>,
    prefs: Option<Map<Seq<char>, Map<Seq<char>, u32>>>,
    w: Seq<char>,
    key: Seq<char>,
) -> Seq<Seq<char>> {
    at_most(
        ranked(unranked_candidates(dict, w), scorer(prefs, key, entries_of(dict, w), freq)),
        8,
    )
}

/// The ranked candidates of a word: the word is lowercased, and the user's
/// choices are read under the lowercased word lowercased again (as
/// `UserPreferences::score` lowercases its input).
pub open spec fn ranked_word_candidates(
    dict: Map<Seq<char>, Seq<Seq<char>>>,
    freq: Map<Seq<char>, u32>,
    prefs: Option<Map<Seq<char>, Map<Seq<char>, u32>>>,
    word: Seq<char>,
) -> Seq<Seq<char>> {
    lowered_word_candidates(dict, freq, prefs, lowercase(word), lowercase(lowercase(word)))
}

/// Inserting into a sorted list at the place found by scanning from the
/// back past the lower scores.
pub proof fn lemma_insert_by_score_at(sorted: Seq<(nat, Seq<char>)>, x: (nat, Seq<char>), j: int)
    requires
        0 <= j <= sorted.len(),
        j == 0 || sorted[j - 1].0 >= x.0,
        forall|k: int| j <= k < sorted.len() ==> sorted[k].0 < x.0,
    ensures
        insert_by_score(sorted, x) == sorted.take(j).push(x) + sorted.skip(j),
    decreases sorted.len(),
{
    if sorted.len() == 0 {
        assert(sorted.take(j).push(x) + sorted.skip(j) =~= seq![x]);
    } else if sorted.last().0 >= x.0 {
        assert(j == sorted.len());
        assert(sorted.take(j) =~= sorted);
        assert(sorted.skip(j) =~= Seq::<(nat, Seq<char>)>::empty());
        assert(sorted.take(j).push(x) + sorted.skip(j) =~= sorted.push(x));
    } else {
        let t = sorted.drop_last();
        lemma_insert_by_score_at(t, x, j);
        assert(t.take(j) =~= sorted.take(j));
        assert((t.take(j).push(x) + t.skip(j)).push(sorted.last()) =~= sorted.take(j).push(x) + sorted.skip(j));
    }
}


/// The ranked engine's dictionary: the common-word dictionary, with
/// `shukran` in its tanween spelling شكرًا.
pub open spec fn ranked_dictionary_map() -> Map<Seq<char>, Seq<Seq<char>>> {
    plain_dictionary_map().insert("shukran"@, seq!["شكرًا"@])
}

/// Builds the ranked engine's dictionary.
fn ranked_dictionary() -> (d: Dictionary)
    ensures
        d@ == ranked_dictionary_map(),
{
    let mut d = build_dictionary();
    let word = chars_of("شكرًا");
    let values = vec![word];
    assert(word_list_view(values@) =~= seq!["شكرًا"@]);
    d.insert(chars_of("shukran"), values);
    d
}

/// The user preferences, if given, as a plain map.
pub open spec fn prefs_view(prefs: Option<&UserPreferences>) -> Option<Map<Seq<char>, Map<Seq<char>, u32>>> {
    match prefs {
        Some(p) => Some(p@),
        None => None,
    }
}

/// The emojis of the first candidate that has some, or none.
pub open spec fn first_emojis(emojis: Map<Seq<char>, Seq<Seq<char>>>, cands: Seq<Seq<char>>) -> Seq<Seq<char>>
    decreases cands.len(),
{
    if cands.len() == 0 {
        Seq::empty()
    } else if emojis.contains_key(cands[0]) {
        emojis[cands[0]]
    } else {
        first_emojis(emojis, cands.drop_first())
    }
}

/// The candidates for an input of any number of words: those of its
/// trimmed, lowercased form.
pub open spec fn ranked_transliteration(
    dict: Map<Seq<char>, Seq<Seq<char>>>,
    freq: Map<Seq<char>, u32>,
    input: Seq<char>,
) -> Seq<Seq<char>> {
    transliteration_of_lowered(dict, freq, lowercase(trim(input)))
}

/// The candidates for ASCII input: those of its trimmed form with `A` to `Z`
/// made lowercase, each word made lowercase again for its candidates.
pub open spec fn ascii_transliteration(
    dict: Map<Seq<char>, Seq<Seq<char>>>,
    freq: Map<Seq<char>, u32>,
    s: Seq<char>,
) -> Seq<Seq<char>> {
    if s.len() == 0 {
        Seq::empty()
    } else if dict.contains_key(s) {
        dict[s]
    } else if words(s).len() == 1 {
        lowered_word_candidates(dict, freq, None, ascii_lowercase(s), ascii_lowercase(s))
    } else {
        phrase_candidates(
            words(s).map_values(
                |w: Seq<char>| lowered_word_candidates(dict, freq, None, ascii_lowercase(w), ascii_lowercase(w)),
            ),
        )
    }
}

/// The candidates for an already trimmed and lowercased input: nothing for
/// empty input; the dictionary entry of the whole input; the ranked word
/// candidates for a single word; otherwise the phrase candidates built from
/// the ranked candidates of each word.
pub open spec fn transliteration_of_lowered(
    dict: Map<Seq<char>, Seq<Seq<char>>>,
    freq: Map<Seq<char>, u32>,
    s: Seq<char>,
) -> Seq<Seq<char>> {
    if s.len() == 0 {
        Seq::empty()
    } else if dict.contains_key(s) {
        dict[s]
    } else if words(s).len() == 1 {
        ranked_word_candidates(dict, freq, None, s)
    } else {
        phrase_candidates(words(s).map_values(|w: Seq<char>| ranked_word_candidates(dict, freq, None, w)))
    }
}

/// Rank points never exceed the points of the most common word.
pub proof fn lemma_points_sum_bound(freq: Map<Seq<char>, u32>, ws: Seq<Seq<char>>)
    ensures
        points_sum(freq, ws) <= 300000 * ws.len(),
    decreases ws.len(),
{
    if ws.len() > 0 {
        lemma_points_sum_bound(freq, ws.drop_last());
    }
}

/// The scored candidates as plain pairs.
pub open spec fn scored_view(v: Seq<(u64, Vec<char>)>) -> Seq<(nat, Seq<char>)> {
    v.map_values(|p: (u64, Vec<char>)| (p.0 as nat, p.1@))
}

/// The plain view of found spots.
pub open spec fn spots_view(v: Seq<(usize, Vec<char>, Vec<Vec<char>>)>) -> Seq<Spot> {
    v.map_values(
        |s: (usize, Vec<char>, Vec<Vec<char>>)| (s.0 as int, s.1@, s.2@.map_values(|a: Vec<char>| a@)),
    )
}

/// The plain view of an override map from spot index to letters.
pub open spec fn overrides_view(m: Map<usize, Vec<char>>) -> Map<int, Seq<char>> {
    Map::new(|k: int| 0 <= k <= usize::MAX && m.contains_key(k as usize), |k: int| m[k as usize]@)
}

/// The ambiguous table's patterns, as a view.
pub open spec fn ambiguous_pairs_view(t: Seq<(Vec<char>, Vec<char>, Vec<Vec<char>>)>) -> Seq<(Seq<char>, Seq<char>)> {
    t.map_values(|e: (Vec<char>, Vec<char>, Vec<Vec<char>>)| (e.0@, e.1@))
}

/// The ranked transliteration engine.
pub struct TransliterationEngine {
    dictionary: Dictionary,
    emoji_map: Dictionary,
    emoticon_map: Dictionary,
    frequency: FrequencyList,
    maps: Mappings,
}

impl TransliterationEngine {
    #[verifier::type_invariant]
    spec fn tables_built(&self) -> bool {
        self.maps.wf()
    }

    fn vowel_strength(c: char) -> (r: Option<u8>)
        ensures
            r == strength(c),
    {
        if c == 'i' || c == 'e' {
            Some(3)
        } else if c == 'u' || c == 'o' {
            Some(2)
        } else if c == 'a' {
            Some(1)
        } else {
            None
        }
    }

    /// The letter a hamza at `pos` becomes, from the surrounding vowels.
    fn resolve_hamza(chars: &[char], pos: usize) -> (r: char)
        requires
            pos < chars@.len(),
        ensures
            r == hamza_seat(chars@, pos as int),
    {
        let len = chars.len();
        if pos == 0 {
            if pos + 1 < len && (chars[pos + 1] == 'i' || chars[pos + 1] == 'e') {
                return 'إ';
            }
            return 'أ';
        }
        if pos == len - 1 {
            return 'ء';
        }
        let prev = Self::vowel_strength(chars[pos - 1]);
        let next = Self::vowel_strength(chars[pos + 1]);
        let s = match (prev, next) {
            (Some(a), Some(b)) => Some(if a >= b { a } else { b }),
            (Some(a), None) => Some(a),
            (None, Some(b)) => Some(b),
            (None, None) => None,
        };
        match s {
            Some(3) => 'ئ',
            Some(2) => 'ؤ',
            _ => 'أ',
        }
    }

    /// First consonant entry matching at `pos`, no longer than `max_len`.
    fn match_consonant_max(&self, w: &[char], pos: usize, max_len: usize) -> (r: Option<usize>)
        ensures
            index_of_match(r) == first_match(consonant_table(), w@, pos as int, max_len as int),
            r matches Some(i) ==> i < self.maps.consonants@.len(),
    {
        proof {
            use_type_invariant(self);
        }
        let r = find_match(&self.maps.consonants, w, pos, max_len);
        proof {
            lemma_first_match_from(consonant_table(), w@, pos as int, max_len as int, 0);
        }
        r
    }

    fn match_long_vowel(&self, w: &[char], pos: usize) -> (r: Option<usize>)
        ensures
            index_of_match(r) == first_match(long_vowel_table(), w@, pos as int, usize::MAX as int),
            r matches Some(i) ==> i < self.maps.long_vowels@.len(),
    {
        proof {
            use_type_invariant(self);
        }
        let r = find_match(&self.maps.long_vowels, w, pos, usize::MAX);
        proof {
            lemma_first_match_from(long_vowel_table(), w@, pos as int, usize::MAX as int, 0);
        }
        r
    }

    fn match_short_vowel(&self, w: &[char], pos: usize) -> (r: Option<usize>)
        ensures
            index_of_match(r) == first_match(short_vowel_table(), w@, pos as int, usize::MAX as int),
            r matches Some(i) ==> i < self.maps.short_vowels@.len(),
    {
        proof {
            use_type_invariant(self);
        }
        let r = find_match(&self.maps.short_vowels, w, pos, usize::MAX);
        proof {
            lemma_first_match_from(short_vowel_table(), w@, pos as int, usize::MAX as int, 0);
        }
        r
    }

    /// Appends the letters of one rule-based step at `pos`; returns the
    /// position after it.
    fn transliterate_step(&self, w: &[char], pos: usize, mode: VowelMode, result: &mut Vec<char>) -> (next: usize)
        requires
            pos < w@.len(),
        ensures
            final(result)@ == old(result)@ + rule_step(w@, pos as int, mode).0,
            next == rule_step(w@, pos as int, mode).1,
    {
        proof {
            use_type_invariant(self);
            lemma_rule_step_advances(w@, pos as int, mode);
        }
        let len = w.len();
        let c = w[pos];
        if c == '2' {
            result.push(Self::resolve_hamza(w, pos));
            return pos + 1;
        }
        let has_separator = pos + 1 < len && w[pos + 1] == '-';
        let max_len: usize = if has_separator {
            1
        } else {
            usize::MAX
        };
        if let Some(i) = self.match_consonant_max(w, pos, max_len) {
            let entry = &self.maps.consonants[i];
            assert(table_view(self.maps.consonants@)[i as int] == (entry.0@, entry.1@));
            append_chars(result, entry.1.as_slice());
            let mut next = pos + entry.0.len();
            if has_separator && next < len && w[next] == '-' {
                next = next + 1;
            }
            return next;
        }
        if c == '-' {
            return pos + 1;
        }
        if let Some(i) = self.match_long_vowel(w, pos) {
            let entry = &self.maps.long_vowels[i];
            assert(table_view(self.maps.long_vowels@)[i as int] == (entry.0@, entry.1@));
            append_chars(result, entry.1.as_slice());
            return pos + entry.0.len();
        }
        if is_vowel_char(c) {
            let at_start = pos == 0;
            let at_end = pos == len - 1;
            let before_final = pos + 1 == len - 1;
            let is_taa_marbuta = at_end && (c == 'a' || c == 'e') && pos > 0 && !is_vowel_char(w[pos - 1]);
            if at_start {
                push_initial_vowel(result, c);
            } else if is_taa_marbuta {
                result.push('ة');
            } else {
                let keep = match mode {
                    VowelMode::KeepAll => true,
                    VowelMode::DropAll => false,
                    VowelMode::DropMiddle => at_end || before_final,
                };
                if keep {
                    if let Some(i) = self.match_short_vowel(w, pos) {
                        let entry = &self.maps.short_vowels[i];
                        assert(table_view(self.maps.short_vowels@)[i as int] == (entry.0@, entry.1@));
                        append_chars(result, entry.1.as_slice());
                    }
                }
            }
            return pos + 1;
        }
        result.push(c);
        pos + 1
    }

    /// Context-aware rule-based transliteration with the given vowel mode.
    fn rule_based_transliterate(&self, word: &[char], mode: VowelMode) -> (r: Vec<char>)
        ensures
            r@ == rule_based(word@, mode),
    {
        let ghost w = word@;
        let len = word.len();
        let mut result: Vec<char> = Vec::new();
        let mut pos: usize = 0;
        while pos < len
            invariant
                pos <= len,
                len == w.len(),
                w == word@,
                rule_from(w, 0, mode) == result@ + rule_from(w, pos as int, mode),
            decreases len - pos,
        {
            proof {
                lemma_rule_step_advances(w, pos as int, mode);
            }
            let ghost step = rule_step(w, pos as int, mode);
            assert(rule_from(w, pos as int, mode) == step.0 + rule_from(w, step.1, mode));
            pos = self.transliterate_step(word, pos, mode, &mut result);
        }
        result
    }

    /// First ambiguous-consonant entry matching at `pos`, no longer than
    /// `max_len`.
    fn match_ambiguous(&self, w: &[char], pos: usize, max_len: usize) -> (r: Option<usize>)
        ensures
            index_of_match(r) == first_match(ambiguous_patterns(), w@, pos as int, max_len as int),
            r matches Some(i) ==> i < self.maps.ambiguous@.len(),
    {
        proof {
            use_type_invariant(self);
            assert(ambiguous_pairs_view(self.maps.ambiguous@) =~= ambiguous_patterns());
            lemma_first_match_from(ambiguous_patterns(), w@, pos as int, max_len as int, 0);
        }
        let ghost tv = ambiguous_patterns();
        let n = self.maps.ambiguous.len();
        let mut i: usize = 0;
        while i < n
            invariant
                i <= n,
                n == self.maps.ambiguous@.len(),
                tv == ambiguous_patterns(),
                tv == ambiguous_pairs_view(self.maps.ambiguous@),
                first_match(tv, w@, pos as int, max_len as int) == first_match_from(
                    tv,
                    w@,
                    pos as int,
                    max_len as int,
                    i as int,
                ),
            decreases n - i,
        {
            let entry = &self.maps.ambiguous[i];
            assert(tv[i as int] == (entry.0@, entry.1@));
            if entry.0.len() <= max_len && occurs_at_exec(w, pos, entry.0.as_slice()) {
                return Some(i);
            }
            i = i + 1;
        }
        None
    }

    /// The ambiguous consonants of a word: position, pattern, alternatives.
    fn ambiguous_positions(&self, word: &[char]) -> (r: Vec<(usize, Vec<char>, Vec<Vec<char>>)>)
        ensures
            spots_view(r@) == ambiguous_spots(word@),
    {
        proof {
            use_type_invariant(self);
        }
        let ghost w = word@;
        let len = word.len();
        let mut r: Vec<(usize, Vec<char>, Vec<Vec<char>>)> = Vec::new();
        let mut pos: usize = 0;
        while pos < len
            invariant
                pos <= len,
                len == w.len(),
                w == word@,
                self.maps.wf(),
                spots_from(w, 0) == spots_view(r@) + spots_from(w, pos as int),
            decreases len - pos,
        {
            if word[pos] == '-' {
                pos = pos + 1;
                continue;
            }
            proof {
                lemma_scan_skip(w, pos as int);
            }
            let has_separator = pos + 1 < len && word[pos + 1] == '-';
            let max_len: usize = if has_separator {
                1
            } else {
                usize::MAX
            };
            if let Some(k) = self.match_ambiguous(word, pos, max_len) {
                let entry = &self.maps.ambiguous[k];
                proof {
                    assert(ambiguous_view(self.maps.ambiguous@)[k as int] == (
                        entry.0@,
                        entry.1@,
                        entry.2@.map_values(|a: Vec<char>| a@),
                    ));
                }
                let mut alts: Vec<Vec<char>> = Vec::new();
                let m = entry.2.len();
                let mut j: usize = 0;
                while j < m
                    invariant
                        j <= m,
                        m == entry.2@.len(),
                        word_list_view(alts@) == entry.2@.map_values(|a: Vec<char>| a@).take(j as int),
                        alts@.len() == j,
                    decreases m - j,
                {
                    let a = clone_chars(entry.2[j].as_slice());
                    let ghost prev = alts@;
                    alts.push(a);
                    assert(alts@ == prev.push(a));
                    assert(word_list_view(alts@) =~= entry.2@.map_values(|a: Vec<char>| a@).take(j + 1));
                    j = j + 1;
                }
                assert(entry.2@.map_values(|a: Vec<char>| a@).take(m as int) =~= entry.2@.map_values(
                    |a: Vec<char>| a@,
                ));
                let spot = (pos, clone_chars(entry.0.as_slice()), alts);
                let ghost prev = r@;
                r.push(spot);
                assert(r@ == prev.push(spot));
                assert(spots_view(r@) =~= spots_view(prev).push((pos as int, entry.0@, word_list_view(spot.2@))));
                assert(word_list_view(spot.2@) == ambiguous_table()[k as int].2);
                pos = pos + entry.0.len();
            } else {
                if let Some(i) = self.match_consonant_max(word, pos, max_len) {
                    let entry = &self.maps.consonants[i];
                    assert(table_view(self.maps.consonants@)[i as int] == (entry.0@, entry.1@));
                    pos = pos + entry.0.len();
                } else if let Some(i) = self.match_long_vowel(word, pos) {
                    let entry = &self.maps.long_vowels[i];
                    assert(table_view(self.maps.long_vowels@)[i as int] == (entry.0@, entry.1@));
                    pos = pos + entry.0.len();
                } else {
                    pos = pos + 1;
                }
            }
        }
        r
    }
}

/// Index of the first spot at `pos`.
fn find_spot(spots: &Vec<(usize, Vec<char>, Vec<Vec<char>>)>, pos: usize) -> (r: Option<usize>)
    ensures
        index_of_match(r) == spot_at(spots_view(spots@), pos as int),
        r matches Some(k) ==> k < spots@.len(),
{
    let ghost sv = spots_view(spots@);
    let n = spots.len();
    let mut k: usize = 0;
    while k < n
        invariant
            k <= n,
            n == spots@.len(),
            sv == spots_view(spots@),
            spot_at(sv, pos as int) == first_spot_from(sv, pos as int, k as int),
        decreases n - k,
    {
        if spots[k].0 == pos {
            return Some(k);
        }
        k = k + 1;
    }
    None
}

impl TransliterationEngine {
    /// Transliterates a word, replacing the ambiguous consonants listed in
    /// `overrides` (by index into `ambiguous`) with the given letters; keeps
    /// the full-word context so that final ة and vowels come out as usual.
    fn transliterate_with_overrides(
        &self,
        word: &[char],
        ambiguous: &Vec<(usize, Vec<char>, Vec<Vec<char>>)>,
        overrides: &HashMap<usize, Vec<char>>,
    ) -> (r: Vec<char>)
        requires
            spots_fit(word@, spots_view(ambiguous@)),
        ensures
            r@ == override_from(word@, spots_view(ambiguous@), overrides_view(overrides@), 0),
    {
        broadcast use vstd::std_specs::hash::group_hash_axioms;

        let ghost w = word@;
        let ghost sv = spots_view(ambiguous@);
        let ghost ov = overrides_view(overrides@);
        let len = word.len();
        let mut result: Vec<char> = Vec::new();
        let mut pos: usize = 0;
        while pos < len
            invariant
                pos <= len,
                len == w.len(),
                w == word@,
                sv == spots_view(ambiguous@),
                ov == overrides_view(overrides@),
                spots_fit(w, sv),
                override_from(w, sv, ov, 0) == result@ + override_from(w, sv, ov, pos as int),
            decreases len - pos,
        {
            proof {
                lemma_override_step_advances(w, sv, ov, pos as int);
                lemma_first_spot_from(sv, pos as int, 0);
            }
            let ghost step = override_step(w, sv, ov, pos as int);
            assert(override_from(w, sv, ov, pos as int) == step.0 + override_from(w, sv, ov, step.1));
            let mut done = false;
            if let Some(idx) = find_spot(ambiguous, pos) {
                if let Some(alt) = overrides.get(&idx) {
                    assert(ov.contains_key(idx as int));
                    assert(ov[idx as int] == alt@);
                    append_chars(&mut result, alt.as_slice());
                    pos = pos + ambiguous[idx].1.len();
                    done = true;
                } else {
                    assert(!ov.contains_key(idx as int));
                }
            }
            if !done {
                pos = self.transliterate_step(word, pos, VowelMode::DropAll, &mut result);
            }
        }
        result
    }

    /// Variations that swap ambiguous consonants: each spot alone to each
    /// of its alternatives, then all spots of a repeated pattern at once.
    fn generate_consonant_swaps(&self, word: &[char]) -> (r: Vec<Vec<char>>)
        ensures
            word_list_view(r@) == consonant_swaps(word@),
    {
        broadcast use vstd::std_specs::hash::group_hash_axioms;

        let ghost w = word@;
        let spots = self.ambiguous_positions(word);
        let ghost sv = spots_view(spots@);
        proof {
            lemma_spots_fit(w, 0);
        }
        let ghost idx = Seq::new(sv.len(), |i: int| i);
        let ghost l1 = single_swaps(w, sv);
        let n = spots.len();
        let mut results: Vec<Vec<char>> = Vec::new();
        assert(idx.take(0).flat_map(|i: int| single_swaps_at(w, sv, i)).remove_duplicates(Seq::empty()) =~= Seq::empty());
        let mut i: usize = 0;
        while i < n
            invariant
                i <= n,
                n == spots@.len(),
                w == word@,
                sv == spots_view(spots@),
                sv.len() == n,
                spots_fit(w, sv),
                idx == Seq::new(sv.len(), |i: int| i),
                word_list_view(results@) == idx.take(i as int).flat_map(
                    |i: int| single_swaps_at(w, sv, i),
                ).remove_duplicates(Seq::empty()),
            decreases n - i,
        {
            let ghost before = idx.take(i as int).flat_map(|i: int| single_swaps_at(w, sv, i));
            let ghost fi = single_swaps_at(w, sv, i as int);
            let alts = &spots[i].2;
            let m = alts.len();
            assert(sv[i as int].2 == alts@.map_values(|a: Vec<char>| a@));
            let mut a: usize = 0;
            assert(before + fi.take(0) =~= before);
            while a < m
                invariant
                    a <= m,
                    i < n,
                    n == spots@.len(),
                    w == word@,
                    sv == spots_view(spots@),
                    spots_fit(w, sv),
                    alts == &spots@[i as int].2,
                    m == alts@.len(),
                    sv[i as int].2 == alts@.map_values(|a: Vec<char>| a@),
                    fi == single_swaps_at(w, sv, i as int),
                    fi.len() == m,
                    word_list_view(results@) == (before + fi.take(a as int)).remove_duplicates(Seq::empty()),
                decreases m - a,
            {
                let alt = clone_chars(alts[a].as_slice());
                let ghost altv = alt@;
                let mut ov: HashMap<usize, Vec<char>> = HashMap::new();
                ov.insert(i, alt);
                assert(overrides_view(ov@) =~= map![i as int => altv]);
                let swapped = self.transliterate_with_overrides(word, &spots, &ov);
                assert(fi[a as int] == swapped@);
                proof {
                    lemma_dedup_push(before + fi.take(a as int), swapped@, Seq::empty());
                    assert((before + fi.take(a as int)).push(swapped@) =~= before + fi.take(a + 1));
                }
                push_unique(&mut results, swapped);
                a = a + 1;
            }
            proof {
                assert(fi.take(m as int) =~= fi);
                idx.lemma_flat_map_take_append(|i: int| single_swaps_at(w, sv, i), i as int);
                assert(idx[i as int] == i as int);
            }
            i = i + 1;
        }
        assert(idx.take(n as int) =~= idx);
        assert(word_list_view(results@) == l1.remove_duplicates(Seq::empty()));

        // Group swaps: every spot of a repeated pattern at once.
        let mut patterns_seen: Vec<Vec<char>> = Vec::new();
        let ghost pats_all = sv.map_values(|s: Spot| s.1);
        let mut k: usize = 0;
        assert(pats_all.take(0).remove_duplicates(Seq::empty()) =~= Seq::empty());
        while k < n
            invariant
                k <= n,
                n == spots@.len(),
                sv == spots_view(spots@),
                pats_all == sv.map_values(|s: Spot| s.1),
                word_list_view(patterns_seen@) == pats_all.take(k as int).remove_duplicates(Seq::empty()),
            decreases n - k,
        {
            let p = clone_chars(spots[k].1.as_slice());
            proof {
                lemma_dedup_push(pats_all.take(k as int), p@, Seq::empty());
                assert(pats_all.take(k as int).push(p@) =~= pats_all.take(k + 1));
            }
            push_unique(&mut patterns_seen, p);
            k = k + 1;
        }
        assert(pats_all.take(n as int) =~= pats_all);
        let ghost pats = spot_patterns(sv);
        assert(word_list_view(patterns_seen@) == pats);
        let np = patterns_seen.len();
        let mut t: usize = 0;
        assert(l1 + pats.take(0).flat_map(|p: Seq<char>| group_swaps_for(w, sv, p)) =~= l1);
        while t < np
            invariant
                t <= np,
                np == patterns_seen@.len(),
                n == spots@.len(),
                w == word@,
                sv == spots_view(spots@),
                sv.len() == n,
                spots_fit(w, sv),
                pats == spot_patterns(sv),
                word_list_view(patterns_seen@) == pats,
                word_list_view(results@) == (l1 + pats.take(t as int).flat_map(
                    |p: Seq<char>| group_swaps_for(w, sv, p),
                )).remove_duplicates(Seq::empty()),
            decreases np - t,
        {
            let target = &patterns_seen[t];
            let ghost tv = target@;
            assert(pats[t as int] == tv);
            let ghost before = l1 + pats.take(t as int).flat_map(|p: Seq<char>| group_swaps_for(w, sv, p));
            let ghost g = group_swaps_for(w, sv, tv);
            let mut matching: Vec<usize> = Vec::new();
            let mut k: usize = 0;
            while k < n
                invariant
                    k <= n,
                    n == spots@.len(),
                    sv == spots_view(spots@),
                    tv == target@,
                    matching@.map_values(|x: usize| x as int) == indices_with_pattern(sv, tv, k as int),
                    forall|q: int| 0 <= q < matching@.len() ==> matching@[q] < n,
                decreases n - k,
            {
                let ghost prev = matching@;
                if crate::assoc::chars_equal(spots[k].1.as_slice(), target.as_slice()) {
                    matching.push(k);
                    assert(matching@.map_values(|x: usize| x as int) =~= prev.map_values(|x: usize| x as int).push(k as int));
                }
                k = k + 1;
            }
            let ghost idxs = indices_with_pattern(sv, tv, n as int);
            assert(matching@.map_values(|x: usize| x as int) == idxs);
            if matching.len() < 2 {
                assert(g =~= Seq::<Seq<char>>::empty());
                assert(before + g =~= before);
            } else {
                let first = matching[0];
                assert(idxs[0] == first as int);
                let alts = &spots[first].2;
                let m = alts.len();
                assert(sv[first as int].2 == alts@.map_values(|a: Vec<char>| a@));
                assert(g.len() == m);
                let mut a: usize = 0;
                assert(before + g.take(0) =~= before);
                while a < m
                    invariant
                        a <= m,
                        n == spots@.len(),
                        w == word@,
                        sv == spots_view(spots@),
                        spots_fit(w, sv),
                        first < n,
                        alts == &spots@[first as int].2,
                        m == alts@.len(),
                        sv[first as int].2 == alts@.map_values(|a: Vec<char>| a@),
                        matching@.map_values(|x: usize| x as int) == idxs,
                        idxs.len() >= 2,
                        idxs[0] == first as int,
                        g == group_swaps_for(w, sv, tv),
                        idxs == indices_with_pattern(sv, tv, sv.len() as int),
                        g.len() == m,
                        word_list_view(results@) == (before + g.take(a as int)).remove_duplicates(Seq::empty()),
                    decreases m - a,
                {
                    let ghost altv = alts@[a as int]@;
                    let mut ov: HashMap<usize, Vec<char>> = HashMap::new();
                    let nm = matching.len();
                    let mut q: usize = 0;
                    while q < nm
                        invariant
                            q <= nm,
                            nm == matching@.len(),
                            a < m,
                            m == alts@.len(),
                            altv == alts@[a as int]@,
                            matching@.map_values(|x: usize| x as int) == idxs,
                            overrides_view(ov@) =~= Map::new(
                                |k: int| idxs.take(q as int).contains(k),
                                |k: int| altv,
                            ),
                        decreases nm - q,
                    {
                        let v = clone_chars(alts[a].as_slice());
                        let ghost old_ov = ov@;
                        let mq = matching[q];
                        ov.insert(mq, v);
                        proof {
                            assert(ov@ == old_ov.insert(mq, v));
                            assert(idxs[q as int] == matching@[q as int] as int);
                            let a1 = idxs.take(q + 1);
                            let a0 = idxs.take(q as int);
                            assert forall|k: int| a1.contains(k) <==> (a0.contains(k)
                                || k == matching@[q as int] as int) by {
                                if a1.contains(k) {
                                    let j = choose|j: int| 0 <= j < a1.len() && #[trigger] a1[j] == k;
                                    if j < q {
                                        assert(a0[j] == k);
                                    }
                                }
                                if a0.contains(k) {
                                    let j = choose|j: int| 0 <= j < a0.len() && #[trigger] a0[j] == k;
                                    assert(a1[j] == k);
                                }
                                if k == matching@[q as int] as int {
                                    assert(a1[q as int] == k);
                                }
                            }
                            let ovv = overrides_view(ov@);
                            let oldv = overrides_view(old_ov);
                            let target_map = Map::new(|k: int| a1.contains(k), |k: int| altv);
                            assert(oldv == Map::new(|k: int| a0.contains(k), |k: int| altv));
                            assert forall|k: int| #[trigger] ovv.contains_key(k) <==> target_map.contains_key(k) by {
                                if a1.contains(k) {
                                    let j = choose|j: int| 0 <= j < a1.len() && #[trigger] a1[j] == k;
                                    assert(a1[j] == matching@[j] as int);
                                    assert(0 <= k <= usize::MAX);
                                    if k == mq as int {
                                        assert(ov@.contains_key(k as usize));
                                    } else {
                                        assert(a0.contains(k));
                                        assert(oldv.contains_key(k));
                                        assert(old_ov.contains_key(k as usize));
                                    }
                                }
                                if ovv.contains_key(k) {
                                    assert(0 <= k <= usize::MAX && ov@.contains_key(k as usize));
                                    if k as usize == mq {
                                        assert(k == mq as int);
                                    } else {
                                        assert(old_ov.contains_key(k as usize));
                                        assert(oldv.contains_key(k));
                                        assert(a0.contains(k));
                                    }
                                }
                            }
                            assert forall|k: int| #[trigger] ovv.contains_key(k) implies ovv[k] == target_map[k] by {
                                assert(0 <= k <= usize::MAX && ov@.contains_key(k as usize));
                                if k as usize != mq {
                                    assert(old_ov.contains_key(k as usize));
                                    assert(oldv.contains_key(k));
                                    assert(oldv[k] == altv);
                                } else {
                                    assert(ov@[k as usize] == v);
                                }
                            }
                            assert(ovv =~= target_map);
                        }
                        q = q + 1;
                    }
                    assert(idxs.take(nm as int) =~= idxs);
                    assert(overrides_view(ov@) =~= group_override(idxs, altv));
                    let swapped = self.transliterate_with_overrides(word, &spots, &ov);
                    assert(g[a as int] == swapped@);
                    proof {
                        lemma_dedup_push(before + g.take(a as int), swapped@, Seq::empty());
                        assert((before + g.take(a as int)).push(swapped@) =~= before + g.take(a + 1));
                    }
                    push_unique(&mut results, swapped);
                    a = a + 1;
                }
                assert(g.take(m as int) =~= g);
            }
            proof {
                pats.lemma_flat_map_take_append(|p: Seq<char>| group_swaps_for(w, sv, p), t as int);
                assert(before + g =~= l1 + pats.take(t + 1).flat_map(|p: Seq<char>| group_swaps_for(w, sv, p)));
            }
            t = t + 1;
        }
        assert(pats.take(np as int) =~= pats);
        results
    }

    /// Tanween-fatha variants of the candidates that end in ن.
    fn generate_tanween_variants(candidates: &Vec<Vec<char>>) -> (r: Vec<Vec<char>>)
        ensures
            word_list_view(r@) == tanween_variants(word_list_view(candidates@)),
    {
        let ghost cv = word_list_view(candidates@);
        let n = candidates.len();
        let mut r: Vec<Vec<char>> = Vec::new();
        let mut i: usize = 0;
        while i < n
            invariant
                i <= n,
                n == candidates@.len(),
                cv == word_list_view(candidates@),
                word_list_view(r@) == cv.take(i as int).filter_map(|c: Seq<char>| tanween_variant(c)),
            decreases n - i,
        {
            proof {
                cv.lemma_filter_map_take_succ(|c: Seq<char>| tanween_variant(c), i as int);
            }
            let c = &candidates[i];
            let len = c.len();
            let ghost prev = r@;
            if len >= 2 && c[len - 2] == 'ا' && c[len - 1] == 'ن' {
                let mut v: Vec<char> = Vec::new();
                let mut j: usize = 0;
                while j < len - 2
                    invariant
                        j <= len - 2,
                        len == c@.len(),
                        v@ == c@.take(j as int),
                    decreases len - 2 - j,
                {
                    v.push(c[j]);
                    j = j + 1;
                }
                v.push('ا');
                v.push('ً');
                assert(v@ =~= c@.take(len - 2) + seq!['ا', 'ً']);
                r.push(v);
                assert(word_list_view(r@) =~= word_list_view(prev).push(v@));
            } else if len >= 1 && c[len - 1] == 'ن' {
                let mut v: Vec<char> = Vec::new();
                let mut j: usize = 0;
                while j < len - 1
                    invariant
                        j <= len - 1,
                        len == c@.len(),
                        v@ == c@.take(j as int),
                    decreases len - 1 - j,
                {
                    v.push(c[j]);
                    j = j + 1;
                }
                v.push('ا');
                v.push('ً');
                assert(v@ =~= c@.drop_last() + seq!['ا', 'ً']);
                r.push(v);
                assert(word_list_view(r@) =~= word_list_view(prev).push(v@));
            }
            i = i + 1;
        }
        assert(cv.take(n as int) =~= cv);
        r
    }

    /// Scores a candidate; higher is better.
    fn candidate_score(
        &self,
        key: &[char],
        candidate: &[char],
        dict_entries: &Vec<Vec<char>>,
        prefs: Option<&UserPreferences>,
    ) -> (r: u64)
        ensures
            r as nat == candidate_score(
                prefs_view(prefs),
                key@,
                candidate@,
                word_list_view(dict_entries@),
                self.frequency@,
            ),
    {
        let ghost freq = self.frequency@;
        let mut score: u64 = 0;
        if let Some(p) = prefs {
            let user_score = p.count_of(key, candidate);
            score = user_score as u64 * 1_000_000;
        }
        assert(score as nat == preference_points(prefs_view(prefs), key@, candidate@));
        if crate::assoc::contains_chars(dict_entries, candidate) {
            score = score + 100_000;
            if dict_entries.len() > 0 && chars_equal(dict_entries[0].as_slice(), candidate) {
                score = score + 50_000;
            }
        }
        assert(score as nat == preference_points(prefs_view(prefs), key@, candidate@) + dictionary_points(
            word_list_view(dict_entries@),
            candidate@,
        ));
        let ws = split_whitespace(candidate);
        let ghost wv = ws@.map_values(|w: Vec<char>| w@);
        let n = ws.len();
        let mut freq_score: u128 = 0;
        let mut all_found = true;
        let mut i: usize = 0;
        while i < n
            invariant
                i <= n,
                n == ws@.len(),
                wv == ws@.map_values(|w: Vec<char>| w@),
                freq == self.frequency@,
                freq_score <= 300000 * i,
                all_found == all_ranked(freq, wv.take(i as int)),
                all_found ==> freq_score == points_sum(freq, wv.take(i as int)),
            decreases n - i,
        {
            assert(wv.take(i + 1).drop_last() =~= wv.take(i as int));
            assert(wv.take(i + 1).last() == ws@[i as int]@);
            match self.frequency.rank_chars(ws[i].as_slice()) {
                Some(rank) => {
                    if rank < 300000 {
                        freq_score = freq_score + (300000 - rank) as u128;
                    }
                },
                None => {
                    all_found = false;
                },
            }
            proof {
                if all_ranked(freq, wv.take(i + 1)) {
                    assert forall|k: int| 0 <= k < i implies freq.contains_key(#[trigger] wv.take(i as int)[k]) by {
                        assert(wv.take(i as int)[k] == wv.take(i + 1)[k]);
                    }
                }
                if all_ranked(freq, wv.take(i as int)) && freq.contains_key(wv[i as int]) {
                    assert forall|k: int| 0 <= k < i + 1 implies freq.contains_key(#[trigger] wv.take(i + 1)[k]) by {
                        if k < i {
                            assert(wv.take(i as int)[k] == wv.take(i + 1)[k]);
                        }
                    }
                }
                if !freq.contains_key(wv[i as int]) {
                    assert(!freq.contains_key(wv.take(i + 1)[i as int]));
                }
            }
            i = i + 1;
        }
        assert(wv.take(n as int) =~= wv);
        if all_found && n > 0 {
            proof {
                lemma_points_sum_bound(freq, wv);
                assert(freq_score / (n as u128) <= 300000) by (nonlinear_arith)
                    requires
                        freq_score <= 300000 * n,
                        n > 0,
                ;
            }
            score = score + (freq_score / (n as u128)) as u64;
        }
        score
    }

    /// Orders the candidates by descending score, equal scores in their
    /// original order.
    fn rank_candidates(
        &self,
        input: &[char],
        key: &[char],
        candidates: &mut Vec<Vec<char>>,
        is_dict_word: bool,
        prefs: Option<&UserPreferences>,
    )
        ensures
            word_list_view(final(candidates)@) == ranked(
                word_list_view(old(candidates)@),
                scorer(prefs_view(prefs), key@, entries_of(self.dictionary@, input@), self.frequency@),
            ),
    {
        let ghost score = scorer(prefs_view(prefs), key@, entries_of(self.dictionary@, input@), self.frequency@);
        let ghost cv = word_list_view(candidates@);
        let dict_entries: Vec<Vec<char>> = match self.dictionary.get(input) {
            Some(entries) => clone_words(entries),
            None => Vec::new(),
        };
        assert(word_list_view(dict_entries@) == entries_of(self.dictionary@, input@));
        let ghost pairs = cv.map_values(|c: Seq<char>| (score(c), c));
        let n = candidates.len();
        let mut sorted: Vec<(u64, Vec<char>)> = Vec::new();
        let mut i: usize = 0;
        assert(pairs.take(0) =~= Seq::<(nat, Seq<char>)>::empty());
        while i < n
            invariant
                i <= n,
                n == candidates@.len(),
                cv == word_list_view(candidates@),
                pairs == cv.map_values(|c: Seq<char>| (score(c), c)),
                score == scorer(prefs_view(prefs), key@, entries_of(self.dictionary@, input@), self.frequency@),
                word_list_view(dict_entries@) == entries_of(self.dictionary@, input@),
                scored_view(sorted@) == sort_by_score(pairs.take(i as int)),
                sorted@.len() == i,
            decreases n - i,
        {
            let c = crate::text::clone_chars(candidates[i].as_slice());
            let sc = self.candidate_score(key, c.as_slice(), &dict_entries, prefs);
            let ghost x = (sc as nat, c@);
            assert(pairs[i as int] == x);
            let ghost sv = scored_view(sorted@);
            let mut j = sorted.len();
            while j > 0 && sorted[j - 1].0 < sc
                invariant
                    j <= sorted@.len(),
                    sv == scored_view(sorted@),
                    forall|k: int| j <= k < sv.len() ==> sv[k].0 < sc,
                decreases j,
            {
                j = j - 1;
            }
            proof {
                lemma_insert_by_score_at(sv, x, j as int);
                assert(pairs.take(i + 1).drop_last() =~= pairs.take(i as int));
                assert(pairs.take(i + 1).last() == x);
            }
            sorted.insert(j, (sc, c));
            assert(scored_view(sorted@) =~= sv.take(j as int).push(x) + sv.skip(j as int));
            i = i + 1;
        }
        assert(pairs.take(n as int) =~= pairs);
        let mut out: Vec<Vec<char>> = Vec::new();
        let ghost sv = scored_view(sorted@);
        let mut k: usize = 0;
        while k < n
            invariant
                k <= n,
                sorted@.len() == n,
                sv == scored_view(sorted@),
                word_list_view(out@) == sv.map_values(|p: (nat, Seq<char>)| p.1).take(k as int),
                out@.len() == k,
            decreases n - k,
        {
            let x = crate::text::clone_chars(sorted[k].1.as_slice());
            let ghost prev = out@;
            out.push(x);
            assert(out@ == prev.push(x));
            assert(word_list_view(out@) =~= sv.map_values(|p: (nat, Seq<char>)| p.1).take(k + 1));
            k = k + 1;
        }
        assert(sv.map_values(|p: (nat, Seq<char>)| p.1).take(n as int) =~= sv.map_values(|p: (nat, Seq<char>)| p.1));
        *candidates = out;
    }

    /// The dictionary the engine consults.
    pub closed spec fn dictionary(&self) -> Map<Seq<char>, Seq<Seq<char>>> {
        self.dictionary@
    }

    /// The emojis for Arabic words.
    pub closed spec fn emojis(&self) -> Map<Seq<char>, Seq<Seq<char>>> {
        self.emoji_map@
    }

    /// The emojis for emoticons such as `:)`.
    pub closed spec fn emoticons(&self) -> Map<Seq<char>, Seq<Seq<char>>> {
        self.emoticon_map@
    }

    /// The frequency ranks of Arabic words.
    pub closed spec fn frequency(&self) -> Map<Seq<char>, u32> {
        self.frequency@
    }

    /// An engine with the ranked engine's dictionary, no emoji or emoticon
    /// table and an empty frequency list.
    pub fn new() -> (e: Self)
        ensures
            e.dictionary() == ranked_dictionary_map(),
            e.emojis() == Map::<Seq<char>, Seq<Seq<char>>>::empty(),
            e.emoticons() == Map::<Seq<char>, Seq<Seq<char>>>::empty(),
            e.frequency() == Map::<Seq<char>, u32>::empty(),
    {
        TransliterationEngine {
            dictionary: ranked_dictionary(),
            emoji_map: Dictionary::new(),
            emoticon_map: Dictionary::new(),
            frequency: FrequencyList::default(),
            maps: Mappings::new(),
        }
    }

    /// An engine with the ranked engine's dictionary and the given emoji
    /// table (Arabic word to emojis), emoticon table (emoticon to emojis) and
    /// frequency list.
    pub fn with_tables(emoji_map: Dictionary, emoticon_map: Dictionary, frequency: FrequencyList) -> (e: Self)
        ensures
            e.dictionary() == ranked_dictionary_map(),
            e.emojis() == emoji_map@,
            e.emoticons() == emoticon_map@,
            e.frequency() == frequency@,
    {
        TransliterationEngine { dictionary: ranked_dictionary(), emoji_map, emoticon_map, frequency, maps: Mappings::new() }
    }

    /// The emojis for an emoticon token such as `:)`, if it is one.
    pub fn lookup_emoticon(&self, token: &str) -> (r: Option<Vec<String>>)
        ensures
            r is Some <==> self.emoticons().contains_key(token@),
            r matches Some(v) ==> strings_view(v@) == self.emoticons()[token@],
    {
        let t = chars_of(token);
        match self.emoticon_map.get(t.as_slice()) {
            Some(v) => Some(to_strings(v)),
            None => None,
        }
    }

    /// Looks up emojis for the candidates, best first: the emojis of the
    /// first candidate that has some.
    pub fn lookup_emojis(&self, candidates: &[String]) -> (r: Vec<String>)
        ensures
            strings_view(r@) == first_emojis(self.emojis(), strings_view(candidates@)),
    {
        let ghost cv = strings_view(candidates@);
        let n = candidates.len();
        let mut i: usize = 0;
        assert(cv.skip(0) =~= cv);
        while i < n
            invariant
                i <= n,
                n == candidates@.len(),
                cv == strings_view(candidates@),
                first_emojis(self.emojis(), cv) == first_emojis(self.emojis(), cv.skip(i as int)),
            decreases n - i,
        {
            let c = chars_of(candidates[i].as_str());
            assert(cv.skip(i as int)[0] == c@);
            assert(cv.skip(i as int).drop_first() =~= cv.skip(i + 1));
            if let Some(emojis) = self.emoji_map.get(c.as_slice()) {
                return to_strings(emojis);
            }
            i = i + 1;
        }
        assert(cv.skip(n as int).len() == 0);
        Vec::new()
    }

    /// Ranked candidates of an already lowercased word, as characters; the
    /// user's choices are read under the word lowercased again, as
    /// `UserPreferences::score` does.
    pub fn word_candidates_lowered(&self, w: &[char], prefs: Option<&UserPreferences>) -> (r: Vec<Vec<char>>)
        ensures
            word_list_view(r@) == lowered_word_candidates(
                self.dictionary(),
                self.frequency(),
                prefs_view(prefs),
                w@,
                lowercase(w@),
            ),
            is_ascii_text(w@) ==> word_list_view(r@) == lowered_word_candidates(
                self.dictionary(),
                self.frequency(),
                prefs_view(prefs),
                w@,
                ascii_lowercase(w@),
            ),
    {
        let ghost dict = self.dictionary();
        let ghost wv = w@;
        let key = lowercase_chars(w);
        let mut candidates: Vec<Vec<char>> = Vec::new();
        let is_dict_word = self.dictionary.get(w).is_some();
        if let Some(entries) = self.dictionary.get(w) {
            candidates = clone_words(entries);
        }
        assert(word_list_view(candidates@) == entries_of(dict, wv));
        let primary = self.rule_based_transliterate(w, VowelMode::DropMiddle);
        let all_vowels = self.rule_based_transliterate(w, VowelMode::KeepAll);
        let no_vowels = self.rule_based_transliterate(w, VowelMode::DropAll);
        let three = vec![primary, all_vowels, no_vowels];
        assert(word_list_view(three@) =~= seq![
            rule_based(wv, VowelMode::DropMiddle),
            rule_based(wv, VowelMode::KeepAll),
            rule_based(wv, VowelMode::DropAll),
        ]);
        extend_unique(&mut candidates, three);
        let ghost c1 = word_list_view(candidates@);
        let tanween = Self::generate_tanween_variants(&candidates);
        extend_unique(&mut candidates, tanween);
        let swaps = self.generate_consonant_swaps(w);
        extend_unique(&mut candidates, swaps);
        assert(word_list_view(candidates@) == unranked_candidates(dict, wv));
        self.rank_candidates(w, key.as_slice(), &mut candidates, is_dict_word, prefs);
        candidates.truncate(8);
        assert(word_list_view(candidates@) =~= lowered_word_candidates(
            self.dictionary(),
            self.frequency(),
            prefs_view(prefs),
            w@,
            key@,
        ));
        candidates
    }

    /// Ranked candidates of a word, as characters.
    fn word_candidates_ranked(&self, word: &[char], prefs: Option<&UserPreferences>) -> (r: Vec<Vec<char>>)
        ensures
            word_list_view(r@) == ranked_word_candidates(self.dictionary(), self.frequency(), prefs_view(prefs), word@),
            is_ascii_text(word@) ==> word_list_view(r@) == lowered_word_candidates(
                self.dictionary(),
                self.frequency(),
                prefs_view(prefs),
                ascii_lowercase(word@),
                ascii_lowercase(word@),
            ),
    {
        let w = lowercase_chars(word);
        proof {
            lemma_ascii_lowercase(word@);
        }
        self.word_candidates_lowered(w.as_slice(), prefs)
    }

    /// Transliterates a single word, returning ranked candidates.
    pub fn transliterate_word(&self, word: &str) -> (r: Vec<String>)
        ensures
            strings_view(r@) == ranked_word_candidates(self.dictionary(), self.frequency(), None, word@),
            is_ascii_text(word@) ==> strings_view(r@) == lowered_word_candidates(
                self.dictionary(),
                self.frequency(),
                None,
                ascii_lowercase(word@),
                ascii_lowercase(word@),
            ),
    {
        self.transliterate_word_ranked(word, None)
    }

    /// Transliterates a single word, ranking by the user's earlier choices
    /// when preferences are given.
    pub fn transliterate_word_ranked(&self, word: &str, prefs: Option<&UserPreferences>) -> (r: Vec<String>)
        ensures
            strings_view(r@) == ranked_word_candidates(self.dictionary(), self.frequency(), prefs_view(prefs), word@),
            is_ascii_text(word@) ==> strings_view(r@) == lowered_word_candidates(
                self.dictionary(),
                self.frequency(),
                prefs_view(prefs),
                ascii_lowercase(word@),
                ascii_lowercase(word@),
            ),
    {
        let w = chars_of(word);
        let c = self.word_candidates_ranked(w.as_slice(), prefs);
        to_strings(&c)
    }

    /// Transliterates an input of any number of words; returns the
    /// candidates, best first.
    pub fn transliterate(&self, input: &str) -> (r: Vec<String>)
        ensures
            strings_view(r@) == ranked_transliteration(self.dictionary(), self.frequency(), input@),
            is_ascii_text(trim(input@)) ==> strings_view(r@) == ascii_transliteration(
                self.dictionary(),
                self.frequency(),
                ascii_lowercase(trim(input@)),
            ),
    {
        let chars = chars_of(input);
        let trimmed = trim_chars(chars.as_slice());
        let s = lowercase_chars(trimmed.as_slice());
        proof {
            lemma_ascii_lowercase(trimmed@);
        }
        self.transliterate_lowered(s.as_slice())
    }

    /// The candidates for an already trimmed and lowercased input, best
    /// first; each word is lowercased again for its candidates.
    pub fn transliterate_lowered(&self, s: &[char]) -> (r: Vec<String>)
        ensures
            strings_view(r@) == transliteration_of_lowered(self.dictionary(), self.frequency(), s@),
            is_ascii_text(s@) ==> strings_view(r@) == ascii_transliteration(self.dictionary(), self.frequency(), s@),
    {
        if s.len() == 0 {
            let r: Vec<String> = Vec::new();
            assert(strings_view(r@) =~= Seq::empty());
            return r;
        }
        if let Some(entries) = self.dictionary.get(s) {
            return to_strings(entries);
        }
        let ws = split_whitespace(s);
        let ghost wv = ws@.map_values(|w: Vec<char>| w@);
        proof {
            if is_ascii_text(s@) {
                lemma_words_ascii(s@);
            }
        }
        if ws.len() == 1 {
            let c = self.word_candidates_ranked(s, None);
            return to_strings(&c);
        }
        let mut per_word: Vec<Vec<Vec<char>>> = Vec::new();
        let n = ws.len();
        let mut i: usize = 0;
        while i < n
            invariant
                i <= n,
                n == ws@.len(),
                wv == ws@.map_values(|w: Vec<char>| w@),
                wv == words(s@),
                wv.len() == n,
                is_ascii_text(s@) ==> forall|k: int| 0 <= k < wv.len() ==> is_ascii_text(#[trigger] wv[k]),
                per_word@.len() == i,
                lists_view(per_word@) == wv.map_values(
                    |w: Seq<char>| ranked_word_candidates(self.dictionary(), self.frequency(), None, w),
                ).take(i as int),
                is_ascii_text(s@) ==> lists_view(per_word@) == wv.map_values(
                    |w: Seq<char>| lowered_word_candidates(self.dictionary(), self.frequency(), None, ascii_lowercase(w), ascii_lowercase(w)),
                ).take(i as int),
            decreases n - i,
        {
            assert(wv[i as int] == ws@[i as int]@);
            let c = self.word_candidates_ranked(ws[i].as_slice(), None);
            let ghost prev = per_word@;
            per_word.push(c);
            assert(per_word@ == prev.push(c));
            assert(lists_view(per_word@) =~= wv.map_values(
                |w: Seq<char>| ranked_word_candidates(self.dictionary(), self.frequency(), None, w),
            ).take(i + 1));
            proof {
                if is_ascii_text(s@) {
                    assert(is_ascii_text(wv[i as int]));
                    assert(lists_view(per_word@) =~= wv.map_values(
                        |w: Seq<char>| lowered_word_candidates(self.dictionary(), self.frequency(), None, ascii_lowercase(w), ascii_lowercase(w)),
                    ).take(i + 1));
                }
            }
            i = i + 1;
        }
        assert(wv.map_values(|w: Seq<char>| ranked_word_candidates(self.dictionary(), self.frequency(), None, w)).take(n as int)
            =~= wv.map_values(|w: Seq<char>| ranked_word_candidates(self.dictionary(), self.frequency(), None, w)));
        assert(wv.map_values(|w: Seq<char>| lowered_word_candidates(self.dictionary(), self.frequency(), None, ascii_lowercase(w), ascii_lowercase(w))).take(n as int)
            =~= wv.map_values(|w: Seq<char>| lowered_word_candidates(self.dictionary(), self.frequency(), None, ascii_lowercase(w), ascii_lowercase(w))));
        let r = combine_phrase(&per_word);
        to_strings(&r)
    }
}

impl Default for TransliterationEngine {
    fn default() -> (e: Self)
        ensures
            e.dictionary() == ranked_dictionary_map(),
            e.emojis() == Map::<Seq<char>, Seq<Seq<char>>>::empty(),
            e.emoticons() == Map::<Seq<char>, Seq<Seq<char>>>::empty(),
            e.frequency() == Map::<Seq<char>, u32>::empty(),
    {
        Self::new()
    }
}

} // verus!
