//! The single-candidate transliteration engine.
//!
//! Known words come from the dictionary. Other words get one context-aware
//! rule-based transliteration: consonants map one to one, long vowels
//! (`aa`, `ee`, `oo`, ...) become standalone letters, short vowels between
//! consonants are dropped, and short vowels at the start or end of a word
//! (or just before its final consonant) are written.

use vstd::prelude::*;
use crate::dictionary::{build_dictionary, dictionary_map, plain_dictionary_map, word_list_view, Dictionary};
use crate::mappings::{occurs_at, consonant_table, find_match, first_match, index_of_match, initial_vowel, is_vowel, is_vowel_char, lemma_first_match_from, lemma_patterns_nonempty, long_vowel_table, match_output, push_initial_vowel, short_vowel_table, table_view, Mappings};
use crate::phrase::{combine_phrase, lists_view, phrase_candidates, strings_view, to_strings};
use crate::text::{append_chars, ascii_lowercase, chars_of, is_ascii_text, lemma_ascii_lowercase, lemma_trim_ascii_lowercase, lemma_words_ascii, lowercase, lowercase_chars, split_whitespace, trim, trim_chars, words};

verus! {

/// The letters a short vowel at `pos` becomes: the initial-vowel letter at
/// the start of the word, its letter at the end of the word or just before
/// the final letter, nothing elsewhere.
pub open spec fn single_vowel(w: Seq<char>, pos: int) -> Seq<char> {
    if pos == 0 {
        initial_vowel(w[pos])
    } else if pos == w.len() - 1 || pos + 1 == w.len() - 1 {
        match_output(short_vowel_table(), w, pos, usize::MAX as int)
    } else {
        Seq::empty()
    }
}

/// One step of the rule-based transliteration at `pos`: the letters it
/// produces and the position after the characters it consumed.
pub open spec fn single_step(w: Seq<char>, pos: int) -> (Seq<char>, int) {
    match first_match(consonant_table(), w, pos, usize::MAX as int) {
        Some(i) => (consonant_table()[i].1, pos + consonant_table()[i].0.len()),
        None => match first_match(long_vowel_table(), w, pos, usize::MAX as int) {
            Some(i) => (long_vowel_table()[i].1, pos + long_vowel_table()[i].0.len()),
            None => if is_vowel(w[pos]) {
                (single_vowel(w, pos), pos + 1)
            } else {
                (seq![w[pos]], pos + 1)
            },
        },
    }
}

/// A step consumes at least one character and stays within the word.
pub proof fn lemma_single_step_advances(w: Seq<char>, pos: int)
    requires
        0 <= pos < w.len(),
    ensures
        pos < single_step(w, pos).1 <= w.len(),
{
    lemma_patterns_nonempty();
    lemma_first_match_from(consonant_table(), w, pos, usize::MAX as int, 0);
    lemma_first_match_from(long_vowel_table(), w, pos, usize::MAX as int, 0);
}

/// The letter a written short vowel becomes: `a` and `e` ا, `i` ي, `o` and
/// `u` و.
pub open spec fn vowel_letter(c: char) -> char {
    if c == 'i' {
        'ي'
    } else if c == 'o' || c == 'u' {
        'و'
    } else {
        'ا'
    }
}

/// A short vowel after the first letter (and not followed by another vowel)
/// is written as its letter at the end of the word or just before the final
/// letter (the `a` of `kitab`), and dropped anywhere else.
pub proof fn lemma_single_short_vowel(w: Seq<char>, pos: int)
    requires
        0 < pos < w.len(),
        is_vowel(w[pos]),
        pos + 1 < w.len() ==> !is_vowel(w[pos + 1]),
    ensures
        pos >= w.len() - 2 ==> single_step(w, pos) == (seq![vowel_letter(w[pos])], pos + 1),
        pos < w.len() - 2 ==> single_step(w, pos) == (Seq::<char>::empty(), pos + 1),
{
    let c = w[pos];
    lemma_patterns_nonempty();
    // No consonant pattern starts with a vowel.
    crate::mappings::lemma_consonant_starters(c);
    lemma_first_match_from(consonant_table(), w, pos, usize::MAX as int, 0);
    if let Some(k) = first_match(consonant_table(), w, pos, usize::MAX as int) {
        let p = consonant_table()[k].0;
        assert(w.subrange(pos, pos + p.len())[0] == p[0]);
        assert(consonant_table()[k].0[0] == c);
    }
    // Every long vowel is two vowels.
    let lt = long_vowel_table();
    assert forall|k: int| 0 <= k < lt.len() implies #[trigger] lt[k].0.len() == 2 && is_vowel(lt[k].0[1]) by {
        if k == 0 {} else if k == 1 {} else if k == 2 {} else if k == 3 {} else if k == 4 {}
        else if k == 5 {} else if k == 6 {} else if k == 7 {} else {}
    }
    lemma_first_match_from(lt, w, pos, usize::MAX as int, 0);
    if let Some(k) = first_match(lt, w, pos, usize::MAX as int) {
        let p = lt[k].0;
        assert(w.subrange(pos, pos + 2)[1] == p[1]);
    }
    if pos >= w.len() - 2 {
        let st = short_vowel_table();
        let one = seq![c];
        assert(w.subrange(pos, pos + 1) =~= one);
        reveal_with_fuel(crate::mappings::first_match_from, 6);
        if c == 'a' {
            assert(occurs_at(w, pos, st[0].0));
        } else if c == 'e' {
            assert(!occurs_at(w, pos, st[0].0)) by { assert(w.subrange(pos, pos + 1)[0] != st[0].0[0]); }
            assert(occurs_at(w, pos, st[1].0));
        } else if c == 'i' {
            assert(!occurs_at(w, pos, st[0].0)) by { assert(w.subrange(pos, pos + 1)[0] != st[0].0[0]); }
            assert(!occurs_at(w, pos, st[1].0)) by { assert(w.subrange(pos, pos + 1)[0] != st[1].0[0]); }
            assert(occurs_at(w, pos, st[2].0));
        } else if c == 'o' {
            assert(!occurs_at(w, pos, st[0].0)) by { assert(w.subrange(pos, pos + 1)[0] != st[0].0[0]); }
            assert(!occurs_at(w, pos, st[1].0)) by { assert(w.subrange(pos, pos + 1)[0] != st[1].0[0]); }
            assert(!occurs_at(w, pos, st[2].0)) by { assert(w.subrange(pos, pos + 1)[0] != st[2].0[0]); }
            assert(occurs_at(w, pos, st[3].0));
        } else {
            assert(!occurs_at(w, pos, st[0].0)) by { assert(w.subrange(pos, pos + 1)[0] != st[0].0[0]); }
            assert(!occurs_at(w, pos, st[1].0)) by { assert(w.subrange(pos, pos + 1)[0] != st[1].0[0]); }
            assert(!occurs_at(w, pos, st[2].0)) by { assert(w.subrange(pos, pos + 1)[0] != st[2].0[0]); }
            assert(!occurs_at(w, pos, st[3].0)) by { assert(w.subrange(pos, pos + 1)[0] != st[3].0[0]); }
            assert(occurs_at(w, pos, st[4].0));
        }
    }
}

/// The rule-based transliteration of `w` from `pos` on.
pub open spec fn single_from(w: Seq<char>, pos: int) -> Seq<char>
    decreases w.len() - pos,
{
    if pos < 0 || pos >= w.len() {
        Seq::empty()
    } else {
        proof {
            lemma_single_step_advances(w, pos);
        }
        single_step(w, pos).0 + single_from(w, single_step(w, pos).1)
    }
}

/// The rule-based transliteration of a word.
pub open spec fn single_rule_based(w: Seq<char>) -> Seq<char> {
    single_from(w, 0)
}

/// The candidates for one word: its dictionary entry, or else its
/// rule-based transliteration; the word is lowercased first.
pub open spec fn single_word_candidates(dict: Map<Seq<char>, Seq<Seq<char>>>, word: Seq<char>) -> Seq<Seq<char>> {
    single_lowered_candidates(dict, lowercase(word))
}

/// The candidates for an already lowercased word: its dictionary entry, or
/// else its rule-based transliteration.
pub open spec fn single_lowered_candidates(dict: Map<Seq<char>, Seq<Seq<char>>>, w: Seq<char>) -> Seq<Seq<char>> {
    if dict.contains_key(w) {
        dict[w]
    } else {
        seq![single_rule_based(w)]
    }
}

/// The candidates for an input of any number of words: nothing for blank
/// input; the dictionary entry of the whole (trimmed, lowercased) input; the
/// word candidates for a single word; otherwise the phrase candidates built
/// from the candidates of each word.
pub open spec fn single_transliteration(dict: Map<Seq<char>, Seq<Seq<char>>>, input: Seq<char>) -> Seq<Seq<char>> {
    single_of_lowered(dict, lowercase(trim(input)))
}

/// The candidates for an already trimmed and lowercased input; each word is
/// lowercased again for its candidates.
pub open spec fn single_of_lowered(dict: Map<Seq<char>, Seq<Seq<char>>>, s: Seq<char>) -> Seq<Seq<char>> {
    if s.len() == 0 {
        Seq::empty()
    } else if dict.contains_key(s) {
        dict[s]
    } else if words(s).len() == 1 {
        single_word_candidates(dict, s)
    } else {
        phrase_candidates(words(s).map_values(|w: Seq<char>| single_word_candidates(dict, w)))
    }
}

/// The candidates for ASCII input: its trimmed form with `A` to `Z` made
/// lowercase, each word made lowercase again for its candidates.
pub open spec fn single_ascii_transliteration(dict: Map<Seq<char>, Seq<Seq<char>>>, s: Seq<char>) -> Seq<Seq<char>> {
    if s.len() == 0 {
        Seq::empty()
    } else if dict.contains_key(s) {
        dict[s]
    } else if words(s).len() == 1 {
        single_lowered_candidates(dict, ascii_lowercase(s))
    } else {
        phrase_candidates(words(s).map_values(|w: Seq<char>| single_lowered_candidates(dict, ascii_lowercase(w))))
    }
}

/// Inputs that differ only in case or in surrounding white space get the
/// same candidates.
pub proof fn lemma_single_case_insensitive(dict: Map<Seq<char>, Seq<Seq<char>>>, a: Seq<char>, b: Seq<char>)
    requires
        lowercase(trim(a)) == lowercase(trim(b)),
    ensures
        single_transliteration(dict, a) == single_transliteration(dict, b),
{
}

/// For ASCII input, lowercasing it first changes nothing: a text and its
/// lowercase form get the same candidates (`SHUKRAN` and `shukran`).
pub proof fn lemma_single_ascii_lowercase_input(dict: Map<Seq<char>, Seq<Seq<char>>>, s: Seq<char>)
    ensures
        is_ascii_text(trim(s)) ==> is_ascii_text(trim(ascii_lowercase(s))),
        single_ascii_transliteration(dict, ascii_lowercase(trim(ascii_lowercase(s)))) == single_ascii_transliteration(
            dict,
            ascii_lowercase(trim(s)),
        ),
{
    lemma_trim_ascii_lowercase(s);
    lemma_ascii_lowercase(trim(s));
}

/// Blank input (such as spaces alone) gets no candidates.
pub proof fn lemma_single_blank_input(dict: Map<Seq<char>, Seq<Seq<char>>>, s: Seq<char>)
    requires
        trim(s).len() == 0,
    ensures
        is_ascii_text(trim(s)),
        single_ascii_transliteration(dict, ascii_lowercase(trim(s))).len() == 0,
{
}

/// A word missing from the dictionary gets exactly one candidate: its
/// rule-based transliteration, with no ambiguity explosion.
pub proof fn lemma_single_word_one_candidate(dict: Map<Seq<char>, Seq<Seq<char>>>, word: Seq<char>)
    requires
        !dict.contains_key(lowercase(word)),
    ensures
        single_word_candidates(dict, word).len() == 1,
        single_word_candidates(dict, word)[0] == single_rule_based(lowercase(word)),
{
}

/// The single-candidate transliteration engine.
pub struct TransliterationEngine {
    dictionary: Dictionary,
    maps: Mappings,
}

impl TransliterationEngine {
    #[verifier::type_invariant]
    spec fn tables_built(&self) -> bool {
        self.maps.wf()
    }

    /// The dictionary the engine consults.
    pub closed spec fn dictionary(&self) -> Map<Seq<char>, Seq<Seq<char>>> {
        self.dictionary@
    }

    /// An engine with the built-in dictionary.
    pub fn new() -> (e: Self)
        ensures
            e.dictionary() == dictionary_map(),
            e.dictionary() == plain_dictionary_map(),
    {
        TransliterationEngine { dictionary: build_dictionary(), maps: Mappings::new() }
    }

    fn match_consonant(&self, w: &[char], pos: usize) -> (r: Option<usize>)
        ensures
            index_of_match(r) == first_match(consonant_table(), w@, pos as int, usize::MAX as int),
            r matches Some(i) ==> i < self.maps.consonants@.len(),
    {
        proof {
            use_type_invariant(self);
        }
        let r = find_match(&self.maps.consonants, w, pos, usize::MAX);
        proof {
            lemma_first_match_from(consonant_table(), w@, pos as int, usize::MAX as int, 0);
        }
        r
    }

    fn match_long_vowel(&self, w: &[char], pos: usize) -> (r: Option<usize>)
        ensures
            index_of_match(r) == first_match(long_vowel_table(), w@, pos as int, usize::MAX as int),
            r matches Some(i) ==> i < self.maps.long_vowels@.len(),
    {
        proof {
            use_type_invariant(self);
        }
        let r = find_match(&self.maps.long_vowels, w, pos, usize::MAX);
        proof {
            lemma_first_match_from(long_vowel_table(), w@, pos as int, usize::MAX as int, 0);
        }
        r
    }

    fn match_short_vowel(&self, w: &[char], pos: usize) -> (r: Option<usize>)
        ensures
            index_of_match(r) == first_match(short_vowel_table(), w@, pos as int, usize::MAX as int),
            r matches Some(i) ==> i < self.maps.short_vowels@.len(),
    {
        proof {
            use_type_invariant(self);
        }
        let r = find_match(&self.maps.short_vowels, w, pos, usize::MAX);
        proof {
            lemma_first_match_from(short_vowel_table(), w@, pos as int, usize::MAX as int, 0);
        }
        r
    }

    /// Context-aware rule-based transliteration of a word.
    fn rule_based_transliterate(&self, word: &[char]) -> (r: Vec<char>)
        ensures
            r@ == single_rule_based(word@),
    {
        proof {
            use_type_invariant(self);
        }
        let ghost w = word@;
        let len = word.len();
        let mut result: Vec<char> = Vec::new();
        let mut pos: usize = 0;
        while pos < len
            invariant
                pos <= len,
                len == w.len(),
                w == word@,
                self.maps.wf(),
                single_from(w, 0) == result@ + single_from(w, pos as int),
            decreases len - pos,
        {
            proof {
                lemma_single_step_advances(w, pos as int);
            }
            let ghost step = single_step(w, pos as int);
            assert(single_from(w, pos as int) == step.0 + single_from(w, step.1));
            let ghost before = result@;
            if let Some(i) = self.match_consonant(word, pos) {
                let entry = &self.maps.consonants[i];
                assert(table_view(self.maps.consonants@)[i as int] == (entry.0@, entry.1@));
                append_chars(&mut result, entry.1.as_slice());
                pos = pos + entry.0.len();
            } else if let Some(i) = self.match_long_vowel(word, pos) {
                let entry = &self.maps.long_vowels[i];
                assert(table_view(self.maps.long_vowels@)[i as int] == (entry.0@, entry.1@));
                append_chars(&mut result, entry.1.as_slice());
                pos = pos + entry.0.len();
            } else if is_vowel_char(word[pos]) {
                if pos == 0 {
                    push_initial_vowel(&mut result, word[pos]);
                } else if pos == len - 1 || pos + 1 == len - 1 {
                    if let Some(i) = self.match_short_vowel(word, pos) {
                        let entry = &self.maps.short_vowels[i];
                        assert(table_view(self.maps.short_vowels@)[i as int] == (entry.0@, entry.1@));
                        append_chars(&mut result, entry.1.as_slice());
                    }
                }
                pos = pos + 1;
            } else {
                result.push(word[pos]);
                pos = pos + 1;
            }
            assert(result@ == before + step.0);
            assert(pos == step.1);
        }
        result
    }

    /// Candidates for one word, as characters.
    fn word_candidates(&self, word: &[char]) -> (r: Vec<Vec<char>>)
        ensures
            word_list_view(r@) == single_word_candidates(self.dictionary(), word@),
            is_ascii_text(word@) ==> word_list_view(r@) == single_lowered_candidates(
                self.dictionary(),
                ascii_lowercase(word@),
            ),
    {
        let w = lowercase_chars(word);
        self.word_candidates_lowered(w.as_slice())
    }

    /// Candidates for an already lowercased word, as characters: its
    /// dictionary entry, or else its rule-based transliteration.
    pub fn word_candidates_lowered(&self, w: &[char]) -> (r: Vec<Vec<char>>)
        ensures
            word_list_view(r@) == single_lowered_candidates(self.dictionary(), w@),
    {
        match self.dictionary.get(w) {
            Some(entries) => {
                let mut r: Vec<Vec<char>> = Vec::new();
                let n = entries.len();
                let mut i: usize = 0;
                while i < n
                    invariant
                        i <= n,
                        n == entries@.len(),
                        word_list_view(r@) == word_list_view(entries@).take(i as int),
                        r@.len() == i,
                    decreases n - i,
                {
                    let x = crate::text::clone_chars(entries[i].as_slice());
                    let ghost prev = r@;
                    r.push(x);
                    assert(r@ == prev.push(x));
                    assert(word_list_view(r@) =~= word_list_view(entries@).take(i + 1));
                    i = i + 1;
                }
                assert(word_list_view(entries@).take(n as int) =~= word_list_view(entries@));
                r
            },
            None => {
                let t = self.rule_based_transliterate(w);
                let r = vec![t];
                assert(word_list_view(r@) =~= seq![single_rule_based(w@)]);
                r
            },
        }
    }

    /// Transliterates a single word: its dictionary entry if it has one,
    /// otherwise its rule-based transliteration.
    pub fn transliterate_word(&self, word: &str) -> (r: Vec<String>)
        ensures
            strings_view(r@) == single_word_candidates(self.dictionary(), word@),
            is_ascii_text(word@) ==> strings_view(r@) == single_lowered_candidates(
                self.dictionary(),
                ascii_lowercase(word@),
            ),
    {
        let w = chars_of(word);
        let c = self.word_candidates(w.as_slice());
        to_strings(&c)
    }

    /// Transliterates an input of any number of words; returns the
    /// candidates, best first.
    pub fn transliterate(&self, input: &str) -> (r: Vec<String>)
        ensures
            strings_view(r@) == single_transliteration(self.dictionary(), input@),
            is_ascii_text(trim(input@)) ==> strings_view(r@) == single_ascii_transliteration(
                self.dictionary(),
                ascii_lowercase(trim(input@)),
            ),
    {
        let chars = chars_of(input);
        let trimmed = trim_chars(chars.as_slice());
        let s = lowercase_chars(trimmed.as_slice());
        proof {
            lemma_ascii_lowercase(trimmed@);
        }
        self.transliterate_lowered(s.as_slice())
    }

    /// The candidates for an already trimmed and lowercased input, best
    /// first; each word is lowercased again for its candidates.
    pub fn transliterate_lowered(&self, s: &[char]) -> (r: Vec<String>)
        ensures
            strings_view(r@) == single_of_lowered(self.dictionary(), s@),
            is_ascii_text(s@) ==> strings_view(r@) == single_ascii_transliteration(self.dictionary(), s@),
    {
        if s.len() == 0 {
            let r: Vec<String> = Vec::new();
            assert(strings_view(r@) =~= Seq::empty());
            return r;
        }
        if let Some(entries) = self.dictionary.get(s) {
            return to_strings(entries);
        }
        proof {
            if is_ascii_text(s@) {
                lemma_words_ascii(s@);
            }
        }
        let ws = split_whitespace(s);
        let ghost wv = ws@.map_values(|w: Vec<char>| w@);
        if ws.len() == 1 {
            let c = self.word_candidates(s);
            return to_strings(&c);
        }
        let mut per_word: Vec<Vec<Vec<char>>> = Vec::new();
        let n = ws.len();
        let mut i: usize = 0;
        while i < n
            invariant
                i <= n,
                n == ws@.len(),
                wv == ws@.map_values(|w: Vec<char>| w@),
                wv == words(s@),
                wv.len() == n,
                is_ascii_text(s@) ==> forall|k: int| 0 <= k < wv.len() ==> is_ascii_text(#[trigger] wv[k]),
                per_word@.len() == i,
                lists_view(per_word@) == wv.map_values(
                    |w: Seq<char>| single_word_candidates(self.dictionary(), w),
                ).take(i as int),
                is_ascii_text(s@) ==> lists_view(per_word@) == wv.map_values(
                    |w: Seq<char>| single_lowered_candidates(self.dictionary(), ascii_lowercase(w)),
                ).take(i as int),
            decreases n - i,
        {
            assert(wv[i as int] == ws@[i as int]@);
            let c = self.word_candidates(ws[i].as_slice());
            let ghost prev = per_word@;
            per_word.push(c);
            assert(per_word@ == prev.push(c));
            assert(lists_view(per_word@) =~= wv.map_values(
                |w: Seq<char>| single_word_candidates(self.dictionary(), w),
            ).take(i + 1));
            proof {
                if is_ascii_text(s@) {
                    assert(is_ascii_text(wv[i as int]));
                    assert(lists_view(per_word@) =~= wv.map_values(
                        |w: Seq<char>| single_lowered_candidates(self.dictionary(), ascii_lowercase(w)),
                    ).take(i + 1));
                }
            }
            i = i + 1;
        }
        assert(wv.map_values(|w: Seq<char>| single_word_candidates(self.dictionary(), w)).take(n as int)
            =~= wv.map_values(|w: Seq<char>| single_word_candidates(self.dictionary(), w)));
        assert(wv.map_values(|w: Seq<char>| single_lowered_candidates(self.dictionary(), ascii_lowercase(w))).take(n as int)
            =~= wv.map_values(|w: Seq<char>| single_lowered_candidates(self.dictionary(), ascii_lowercase(w))));
        let r = combine_phrase(&per_word);
        to_strings(&r)
    }
}

impl Default for TransliterationEngine {
    fn default() -> (e: Self)
        ensures
            e.dictionary() == dictionary_map(),
            e.dictionary() == plain_dictionary_map(),
    {
        Self::new()
    }
}

} // verus!
