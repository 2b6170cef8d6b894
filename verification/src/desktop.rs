//! The decisions of the desktop overlay: how typed text becomes per-word
//! candidates with Arabic punctuation, how shortcut strings are read, and the
//! small texts the overlay reads and writes.

use vstd::prelude::*;
use crate::engine::{first_emojis, lowered_word_candidates, ranked_word_candidates, TransliterationEngine};
use crate::phrase::{first_or_empty, strings_view};
use crate::text::{
    append_chars, ascii_lowercase, chars_of, is_ascii_text, join, lemma_ascii_lowercase, lemma_words_ascii, lowercase,
    lowercase_chars, split_on, split_whitespace, string_from_chars,
    trim, trim_chars, words,
};
use crate::user_prefs::UserPreferences;

verus! {

// ── Punctuation ─────────────────────────────────────────────────────────────

/// ASCII punctuation: `!` to `/`, `:` to `@`, `[` to `` ` `` and `{` to `~`.
pub open spec fn is_ascii_punct(c: char) -> bool {
    ||| ('!' <= c && c <= '/')
    ||| (':' <= c && c <= '@')
    ||| ('[' <= c && c <= '`')
    ||| ('{' <= c && c <= '~')
}

/// Whether `c` is ASCII punctuation.
pub fn is_ascii_punctuation(c: char) -> (r: bool)
    ensures
        r == is_ascii_punct(c),
{
    ('!' <= c && c <= '/') || (':' <= c && c <= '@') || ('[' <= c && c <= '`') || ('{' <= c && c <= '~')
}

/// The Arabic form of a punctuation mark: `?`, `,` and `;` have one; every
/// other character stands as it is.
pub open spec fn arabic_punct(c: char) -> char {
    if c == '?' {
        '؟'
    } else if c == ',' {
        '،'
    } else if c == ';' {
        '؛'
    } else {
        c
    }
}

/// Maps an ASCII punctuation character to its Arabic equivalent.
pub fn to_arabic_punct(c: char) -> (r: char)
    ensures
        r == arabic_punct(c),
{
    if c == '?' {
        '؟'
    } else if c == ',' {
        '،'
    } else if c == ';' {
        '؛'
    } else {
        c
    }
}

/// The number of ASCII punctuation characters that `s` starts with.
pub open spec fn leading_punct(s: Seq<char>) -> nat
    decreases s.len(),
{
    if s.len() > 0 && is_ascii_punct(s[0]) {
        1 + leading_punct(s.drop_first())
    } else {
        0
    }
}

/// The number of ASCII punctuation characters that `s` ends with.
pub open spec fn trailing_punct(s: Seq<char>) -> nat
    decreases s.len(),
{
    if s.len() > 0 && is_ascii_punct(s.last()) {
        1 + trailing_punct(s.drop_last())
    } else {
        0
    }
}

/// A word split into its leading punctuation (in Arabic form), its core and
/// its trailing punctuation (in Arabic form); the trailing run never takes
/// characters of the leading one.
pub open spec fn split_punct(s: Seq<char>) -> (Seq<char>, Seq<char>, Seq<char>) {
    let lead = leading_punct(s);
    let trail = if trailing_punct(s) <= s.len() - lead {
        trailing_punct(s)
    } else {
        (s.len() - lead) as nat
    };
    (
        s.take(lead as int).map_values(|c: char| arabic_punct(c)),
        s.subrange(lead as int, s.len() - trail),
        s.skip(s.len() - trail).map_values(|c: char| arabic_punct(c)),
    )
}

proof fn lemma_leading_punct_bound(s: Seq<char>)
    ensures
        leading_punct(s) <= s.len(),
    decreases s.len(),
{
    if s.len() > 0 && is_ascii_punct(s[0]) {
        lemma_leading_punct_bound(s.drop_first());
    }
}

proof fn lemma_leading_punct(s: Seq<char>, k: int)
    requires
        0 <= k <= s.len(),
        forall|j: int| 0 <= j < k ==> is_ascii_punct(#[trigger] s[j]),
        k == s.len() || !is_ascii_punct(s[k]),
    ensures
        leading_punct(s) == k,
    decreases k,
{
    if k > 0 {
        lemma_leading_punct(s.drop_first(), k - 1);
    }
}

proof fn lemma_trailing_punct(s: Seq<char>, k: int)
    requires
        0 <= k <= s.len(),
        forall|j: int| s.len() - k <= j < s.len() ==> is_ascii_punct(#[trigger] s[j]),
        k == s.len() || !is_ascii_punct(s[s.len() - k - 1]),
    ensures
        trailing_punct(s) == k,
    decreases k,
{
    if k > 0 {
        let t = s.drop_last();
        assert forall|j: int| t.len() - (k - 1) <= j < t.len() implies is_ascii_punct(#[trigger] t[j]) by {
            assert(t[j] == s[j]);
        }
        if k - 1 < t.len() {
            assert(t[t.len() - (k - 1) - 1] == s[s.len() - k - 1]);
        }
        lemma_trailing_punct(t, k - 1);
    }
}

/// The characters `v[from..to]`, each mapped to its Arabic punctuation form.
fn arabic_punct_run(v: &[char], from: usize, to: usize) -> (r: Vec<char>)
    requires
        from <= to <= v@.len(),
    ensures
        r@ == v@.subrange(from as int, to as int).map_values(|c: char| arabic_punct(c)),
{
    let mut r: Vec<char> = Vec::new();
    let mut i: usize = from;
    while i < to
        invariant
            from <= i <= to,
            to <= v@.len(),
            r@ == v@.subrange(from as int, i as int).map_values(|c: char| arabic_punct(c)),
        decreases to - i,
    {
        r.push(to_arabic_punct(v[i]));
        assert(v@.subrange(from as int, i + 1).map_values(|c: char| arabic_punct(c)) =~= v@.subrange(
            from as int,
            i as int,
        ).map_values(|c: char| arabic_punct(c)).push(arabic_punct(v@[i as int])));
        i = i + 1;
    }
    r
}

/// Splits leading and trailing ASCII punctuation off a word, mapping it to
/// its Arabic equivalent: `ya3ni?` gives `("", "ya3ni", "؟")`.
pub fn extract_punctuation(word: &str) -> (r: (String, String, String))
    ensures
        (r.0@, r.1@, r.2@) == split_punct(word@),
{
    let chars = chars_of(word);
    let n = chars.len();
    let mut lead: usize = 0;
    while lead < n && is_ascii_punctuation(chars[lead])
        invariant
            lead <= n,
            n == chars@.len(),
            forall|j: int| 0 <= j < lead ==> is_ascii_punct(#[trigger] chars@[j]),
        decreases n - lead,
    {
        lead = lead + 1;
    }
    proof {
        lemma_leading_punct(chars@, lead as int);
    }
    let mut trail_all: usize = 0;
    while trail_all < n && is_ascii_punctuation(chars[n - 1 - trail_all])
        invariant
            trail_all <= n,
            n == chars@.len(),
            forall|j: int| n - trail_all <= j < n ==> is_ascii_punct(#[trigger] chars@[j]),
        decreases n - trail_all,
    {
        trail_all = trail_all + 1;
    }
    proof {
        lemma_trailing_punct(chars@, trail_all as int);
    }
    let trail = if trail_all <= n - lead {
        trail_all
    } else {
        n - lead
    };
    let prefix = arabic_punct_run(chars.as_slice(), 0, lead);
    let suffix = arabic_punct_run(chars.as_slice(), n - trail, n);
    let mut core: Vec<char> = Vec::new();
    let mut i: usize = lead;
    while i < n - trail
        invariant
            lead <= i <= n - trail,
            n == chars@.len(),
            core@ == chars@.subrange(lead as int, i as int),
        decreases n - trail - i,
    {
        core.push(chars[i]);
        i = i + 1;
    }
    assert(chars@.subrange(0, lead as int) =~= chars@.take(lead as int));
    assert(chars@.subrange(n - trail, n as int) =~= chars@.skip(n - trail));
    (
        string_from_chars(prefix.as_slice()),
        string_from_chars(core.as_slice()),
        string_from_chars(suffix.as_slice()),
    )
}


// ── Transliteration of typed text ───────────────────────────────────────────

/// The candidates offered for one typed word.
pub struct WordResult {
    /// The word as typed (lowercased).
    pub input: String,
    /// Its candidates, best first, with its punctuation in Arabic form.
    pub candidates: Vec<String>,
    /// Emojis for its best candidate that has some.
    pub emojis: Vec<String>,
    /// The index of the chosen candidate.
    pub selected: usize,
}

/// The candidates for a typed text: the best candidate of every word joined
/// by spaces, and the candidates of each word.
pub struct TransliterateResult {
    pub combined: String,
    pub words: Vec<WordResult>,
}

/// The typed words: the white-space separated words of the trimmed,
/// lowercased text.
pub open spec fn typed_words(input: Seq<char>) -> Seq<Seq<char>> {
    words(lowercase(trim(input)))
}

/// The candidates and emojis of one typed word. An emoticon's candidates are
/// its emojis. Otherwise punctuation around the word is split off and put
/// back, in Arabic form, around each candidate of the bare word; a word of
/// punctuation alone is its own single candidate.
pub open spec fn word_choices(
    dict: Map<Seq<char>, Seq<Seq<char>>>,
    freq: Map<Seq<char>, u32>,
    emojis: Map<Seq<char>, Seq<Seq<char>>>,
    emoticons: Map<Seq<char>, Seq<Seq<char>>>,
    prefs: Option<Map<Seq<char>, Map<Seq<char>, u32>>>,
    w: Seq<char>,
) -> (Seq<Seq<char>>, Seq<Seq<char>>) {
    let (pre, core, suf) = split_punct(w);
    if emoticons.contains_key(w) {
        (emoticons[w], Seq::empty())
    } else if core.len() == 0 {
        (seq![pre + suf], Seq::empty())
    } else {
        let raw = ranked_word_candidates(dict, freq, prefs, core);
        (raw.map_values(|c: Seq<char>| pre + c + suf), first_emojis(emojis, raw))
    }
}

/// The candidates and emojis of one typed ASCII word: as `word_choices`,
/// with the bare word lowercased as ASCII text.
pub open spec fn ascii_word_choices(
    dict: Map<Seq<char>, Seq<Seq<char>>>,
    freq: Map<Seq<char>, u32>,
    emojis: Map<Seq<char>, Seq<Seq<char>>>,
    emoticons: Map<Seq<char>, Seq<Seq<char>>>,
    prefs: Option<Map<Seq<char>, Map<Seq<char>, u32>>>,
    w: Seq<char>,
) -> (Seq<Seq<char>>, Seq<Seq<char>>) {
    let (pre, core, suf) = split_punct(w);
    if emoticons.contains_key(w) {
        (emoticons[w], Seq::empty())
    } else if core.len() == 0 {
        (seq![pre + suf], Seq::empty())
    } else {
        let raw = lowered_word_candidates(dict, freq, prefs, ascii_lowercase(core), ascii_lowercase(core));
        (raw.map_values(|c: Seq<char>| pre + c + suf), first_emojis(emojis, raw))
    }
}

/// The best candidates of typed ASCII words, joined by spaces.
pub open spec fn ascii_combined_text(
    dict: Map<Seq<char>, Seq<Seq<char>>>,
    freq: Map<Seq<char>, u32>,
    emojis: Map<Seq<char>, Seq<Seq<char>>>,
    emoticons: Map<Seq<char>, Seq<Seq<char>>>,
    prefs: Option<Map<Seq<char>, Map<Seq<char>, u32>>>,
    ws: Seq<Seq<char>>,
) -> Seq<char> {
    join(ws.map_values(|w: Seq<char>| first_or_empty(ascii_word_choices(dict, freq, emojis, emoticons, prefs, w).0)), seq![' '])
}

/// The best candidates of the typed words, joined by spaces.
pub open spec fn combined_text(
    dict: Map<Seq<char>, Seq<Seq<char>>>,
    freq: Map<Seq<char>, u32>,
    emojis: Map<Seq<char>, Seq<Seq<char>>>,
    emoticons: Map<Seq<char>, Seq<Seq<char>>>,
    prefs: Option<Map<Seq<char>, Map<Seq<char>, u32>>>,
    ws: Seq<Seq<char>>,
) -> Seq<char> {
    join(ws.map_values(|w: Seq<char>| first_or_empty(word_choices(dict, freq, emojis, emoticons, prefs, w).0)), seq![' '])
}

/// The leading run of punctuation stops at a character that is not one.
proof fn lemma_leading_punct_stop(s: Seq<char>)
    ensures
        leading_punct(s) < s.len() ==> !is_ascii_punct(s[leading_punct(s) as int]),
    decreases s.len(),
{
    if s.len() > 0 && is_ascii_punct(s[0]) {
        lemma_leading_punct_stop(s.drop_first());
        if leading_punct(s) < s.len() {
            assert(s.drop_first()[leading_punct(s.drop_first()) as int] == s[leading_punct(s) as int]);
        }
    }
}

/// The trailing run of punctuation stops at a character that is not one.
proof fn lemma_trailing_punct_stop(s: Seq<char>)
    ensures
        trailing_punct(s) < s.len() ==> !is_ascii_punct(s[s.len() - trailing_punct(s) - 1]),
    decreases s.len(),
{
    if s.len() > 0 && is_ascii_punct(s.last()) {
        let t = s.drop_last();
        lemma_trailing_punct_stop(t);
        if trailing_punct(s) < s.len() {
            assert(t[t.len() - trailing_punct(t) - 1] == s[s.len() - trailing_punct(s) - 1]);
        }
    }
}

/// A non-empty bare word has no punctuation left to split off.
pub proof fn lemma_core_has_no_punctuation(w: Seq<char>)
    requires
        split_punct(w).1.len() > 0,
    ensures
        split_punct(split_punct(w).1) == (Seq::<char>::empty(), split_punct(w).1, Seq::<char>::empty()),
{
    let core = split_punct(w).1;
    let lead = leading_punct(w) as int;
    lemma_leading_punct_bound(w);
    lemma_leading_punct_stop(w);
    lemma_trailing_punct_stop(w);
    let trail = w.len() - lead - core.len();
    assert(trail == trailing_punct(w));
    assert(core[0] == w[lead]);
    assert(core.last() == w[w.len() - trail - 1]);
    assert(leading_punct(core) == 0);
    assert(trailing_punct(core) == 0);
    let sp = split_punct(core);
    assert(sp.0 =~= Seq::<char>::empty());
    assert(sp.1 =~= core);
    assert(sp.2 =~= Seq::<char>::empty());
}

/// Punctuation around a typed word changes neither its emojis nor, but for
/// the punctuation put back around each, its candidates: the word has the
/// emojis of its bare word, and the candidates of the bare word with the
/// punctuation (in Arabic form) before and after each.
pub proof fn lemma_punctuation_keeps_choices(
    dict: Map<Seq<char>, Seq<Seq<char>>>,
    freq: Map<Seq<char>, u32>,
    emojis: Map<Seq<char>, Seq<Seq<char>>>,
    emoticons: Map<Seq<char>, Seq<Seq<char>>>,
    prefs: Option<Map<Seq<char>, Map<Seq<char>, u32>>>,
    w: Seq<char>,
)
    requires
        split_punct(w).1.len() > 0,
        !emoticons.contains_key(w),
        !emoticons.contains_key(split_punct(w).1),
    ensures
        word_choices(dict, freq, emojis, emoticons, prefs, w).1 == word_choices(
            dict,
            freq,
            emojis,
            emoticons,
            prefs,
            split_punct(w).1,
        ).1,
        word_choices(dict, freq, emojis, emoticons, prefs, w).0 == word_choices(
            dict,
            freq,
            emojis,
            emoticons,
            prefs,
            split_punct(w).1,
        ).0.map_values(|c: Seq<char>| split_punct(w).0 + c + split_punct(w).2),
        ascii_word_choices(dict, freq, emojis, emoticons, prefs, w).1 == ascii_word_choices(
            dict,
            freq,
            emojis,
            emoticons,
            prefs,
            split_punct(w).1,
        ).1,
        ascii_word_choices(dict, freq, emojis, emoticons, prefs, w).0 == ascii_word_choices(
            dict,
            freq,
            emojis,
            emoticons,
            prefs,
            split_punct(w).1,
        ).0.map_values(|c: Seq<char>| split_punct(w).0 + c + split_punct(w).2),
{
    let (pre, core, suf) = split_punct(w);
    lemma_core_has_no_punctuation(w);
    let e = Seq::<char>::empty();
    let raw = ranked_word_candidates(dict, freq, prefs, core);
    assert forall|c: Seq<char>| e + c + e == c by {
        assert(e + c + e =~= c);
    }
    assert(raw.map_values(|c: Seq<char>| e + c + e) =~= raw);
    assert(raw.map_values(|c: Seq<char>| e + c + e).map_values(|c: Seq<char>| pre + c + suf) =~= raw.map_values(
        |c: Seq<char>| pre + c + suf,
    ));
    let low = ascii_lowercase(core);
    let araw = lowered_word_candidates(dict, freq, prefs, low, low);
    assert(araw.map_values(|c: Seq<char>| e + c + e) =~= araw);
    assert(araw.map_values(|c: Seq<char>| e + c + e).map_values(|c: Seq<char>| pre + c + suf) =~= araw.map_values(
        |c: Seq<char>| pre + c + suf,
    ));
}

/// The candidates and emojis of one typed (already lowercased) word; the
/// bare word is lowercased again for its candidates.
pub fn choices_of_word(engine: &TransliterationEngine, prefs: &UserPreferences, w: &[char]) -> (r: (
    Vec<String>,
    Vec<String>,
))
    ensures
        is_ascii_text(w@) ==> strings_view(r.0@) == ascii_word_choices(
            engine.dictionary(),
            engine.frequency(),
            engine.emojis(),
            engine.emoticons(),
            Some(prefs@),
            w@,
        ).0,
        is_ascii_text(w@) ==> strings_view(r.1@) == ascii_word_choices(
            engine.dictionary(),
            engine.frequency(),
            engine.emojis(),
            engine.emoticons(),
            Some(prefs@),
            w@,
        ).1,
        strings_view(r.0@) == word_choices(
            engine.dictionary(),
            engine.frequency(),
            engine.emojis(),
            engine.emoticons(),
            Some(prefs@),
            w@,
        ).0,
        strings_view(r.1@) == word_choices(
            engine.dictionary(),
            engine.frequency(),
            engine.emojis(),
            engine.emoticons(),
            Some(prefs@),
            w@,
        ).1,
{
    let ws = string_from_chars(w);
    // Emoticons are made of punctuation: they are looked up before it is
    // split off.
    if let Some(emojis) = engine.lookup_emoticon(ws.as_str()) {
        let none: Vec<String> = Vec::new();
        assert(strings_view(none@) =~= Seq::<Seq<char>>::empty());
        return (emojis, none);
    }
    let (pre, core, suf) = extract_punctuation(ws.as_str());
    let pre_c = chars_of(pre.as_str());
    let core_c = chars_of(core.as_str());
    let suf_c = chars_of(suf.as_str());
    if core_c.len() == 0 {
        let mut joined = pre_c;
        append_chars(&mut joined, suf_c.as_slice());
        let c = vec![string_from_chars(joined.as_slice())];
        let e: Vec<String> = Vec::new();
        assert(strings_view(c@) =~= seq![pre@ + suf@]);
        assert(strings_view(e@) =~= Seq::<Seq<char>>::empty());
        return (c, e);
    }
    proof {
        if is_ascii_text(w@) {
            let sp = split_punct(w@);
            lemma_leading_punct_bound(w@);
            assert forall|k: int| 0 <= k < sp.1.len() implies (sp.1[k] as u32) < 128 by {
                assert(sp.1[k] == w@[leading_punct(w@) + k]);
            }
        }
    }
    let raw = engine.transliterate_word_ranked(core.as_str(), Some(prefs));
    let emojis = engine.lookup_emojis(raw.as_slice());
    let ghost rv = strings_view(raw@);
    let n = raw.len();
    let mut cands: Vec<String> = Vec::new();
    let mut i: usize = 0;
    while i < n
        invariant
            i <= n,
            n == raw@.len(),
            rv == strings_view(raw@),
            pre_c@ == pre@,
            suf_c@ == suf@,
            strings_view(cands@) == rv.take(i as int).map_values(|c: Seq<char>| pre@ + c + suf@),
        decreases n - i,
    {
        let mut t = crate::text::clone_chars(pre_c.as_slice());
        let c = chars_of(raw[i].as_str());
        append_chars(&mut t, c.as_slice());
        append_chars(&mut t, suf_c.as_slice());
        assert(t@ == pre@ + rv[i as int] + suf@);
        let piece = string_from_chars(t.as_slice());
        let ghost prev = cands@;
        cands.push(piece);
        assert(cands@ == prev.push(piece));
        assert(strings_view(cands@) =~= strings_view(prev).push(pre@ + rv[i as int] + suf@));
        assert(rv.take(i + 1).map_values(|c: Seq<char>| pre@ + c + suf@) =~= rv.take(i as int).map_values(
            |c: Seq<char>| pre@ + c + suf@,
        ).push(pre@ + rv[i as int] + suf@));
        i = i + 1;
    }
    assert(rv.take(n as int) =~= rv);
    (cands, emojis)
}

/// The candidates for typed text: each white-space separated word of the
/// trimmed, lowercased text with its candidates (ranked with the user's
/// earlier choices), and the best candidates joined by spaces.
pub fn transliterate_input(engine: &TransliterationEngine, prefs: &UserPreferences, input: &str) -> (r:
    TransliterateResult)
    ensures
        r.words@.len() == typed_words(input@).len(),
        forall|i: int|
            0 <= i < r.words@.len() ==> {
                &&& (#[trigger] r.words@[i]).input@ == typed_words(input@)[i]
                &&& strings_view(r.words@[i].candidates@) == word_choices(
                    engine.dictionary(),
                    engine.frequency(),
                    engine.emojis(),
                    engine.emoticons(),
                    Some(prefs@),
                    typed_words(input@)[i],
                ).0
                &&& strings_view(r.words@[i].emojis@) == word_choices(
                    engine.dictionary(),
                    engine.frequency(),
                    engine.emojis(),
                    engine.emoticons(),
                    Some(prefs@),
                    typed_words(input@)[i],
                ).1
                &&& r.words@[i].selected == 0
            },
        r.combined@ == combined_text(
            engine.dictionary(),
            engine.frequency(),
            engine.emojis(),
            engine.emoticons(),
            Some(prefs@),
            typed_words(input@),
        ),
        is_ascii_text(trim(input@)) ==> typed_words(input@) == words(ascii_lowercase(trim(input@))),
        is_ascii_text(trim(input@)) ==> forall|i: int|
            0 <= i < r.words@.len() ==> {
                &&& strings_view((#[trigger] r.words@[i]).candidates@) == ascii_word_choices(
                    engine.dictionary(),
                    engine.frequency(),
                    engine.emojis(),
                    engine.emoticons(),
                    Some(prefs@),
                    typed_words(input@)[i],
                ).0
                &&& strings_view(r.words@[i].emojis@) == ascii_word_choices(
                    engine.dictionary(),
                    engine.frequency(),
                    engine.emojis(),
                    engine.emoticons(),
                    Some(prefs@),
                    typed_words(input@)[i],
                ).1
            },
        is_ascii_text(trim(input@)) ==> r.combined@ == ascii_combined_text(
            engine.dictionary(),
            engine.frequency(),
            engine.emojis(),
            engine.emoticons(),
            Some(prefs@),
            typed_words(input@),
        ),
{
    let chars = chars_of(input);
    let t = trim_chars(chars.as_slice());
    let s = lowercase_chars(t.as_slice());
    proof {
        lemma_ascii_lowercase(t@);
        if is_ascii_text(s@) {
            lemma_words_ascii(s@);
        }
    }
    let ghost dict = engine.dictionary();
    let ghost freq = engine.frequency();
    let ghost emo = engine.emojis();
    let ghost emot = engine.emoticons();
    let ghost pv = Some(prefs@);
    if s.len() == 0 {
        assert(words(s@) =~= Seq::<Seq<char>>::empty());
        let r = TransliterateResult { combined: string_from_chars(s.as_slice()), words: Vec::new() };
        assert(r.combined@ == combined_text(dict, freq, emo, emot, pv, typed_words(input@)));
        assert(r.combined@ == ascii_combined_text(dict, freq, emo, emot, pv, typed_words(input@)));
        return r;
    }
    let parts = split_whitespace(s.as_slice());
    let ghost wv = parts@.map_values(|w: Vec<char>| w@);
    assert(wv == typed_words(input@));
    let n = parts.len();
    let mut results: Vec<WordResult> = Vec::new();
    let mut firsts: Vec<Vec<char>> = Vec::new();
    let mut i: usize = 0;
    while i < n
        invariant
            i <= n,
            n == parts@.len(),
            wv == parts@.map_values(|w: Vec<char>| w@),
            dict == engine.dictionary(),
            freq == engine.frequency(),
            emo == engine.emojis(),
            emot == engine.emoticons(),
            pv == Some(prefs@),
            results@.len() == i,
            forall|k: int|
                0 <= k < i ==> {
                    &&& (#[trigger] results@[k]).input@ == wv[k]
                    &&& strings_view(results@[k].candidates@) == word_choices(dict, freq, emo, emot, pv, wv[k]).0
                    &&& strings_view(results@[k].emojis@) == word_choices(dict, freq, emo, emot, pv, wv[k]).1
                    &&& results@[k].selected == 0
                },
            firsts@.map_values(|p: Vec<char>| p@) == wv.take(i as int).map_values(
                |w: Seq<char>| first_or_empty(word_choices(dict, freq, emo, emot, pv, w).0),
            ),
            wv == words(s@),
            is_ascii_text(s@) ==> forall|k: int| 0 <= k < wv.len() ==> is_ascii_text(#[trigger] wv[k]),
            is_ascii_text(s@) ==> forall|k: int|
                0 <= k < i ==> {
                    &&& strings_view((#[trigger] results@[k]).candidates@) == ascii_word_choices(dict, freq, emo, emot, pv, wv[k]).0
                    &&& strings_view(results@[k].emojis@) == ascii_word_choices(dict, freq, emo, emot, pv, wv[k]).1
                },
            is_ascii_text(s@) ==> firsts@.map_values(|p: Vec<char>| p@) == wv.take(i as int).map_values(
                |w: Seq<char>| first_or_empty(ascii_word_choices(dict, freq, emo, emot, pv, w).0),
            ),
        decreases n - i,
    {
        let w = parts[i].as_slice();
        assert(wv[i as int] == w@);
        let (cands, emojis) = choices_of_word(engine, prefs, w);
        let first: Vec<char> = if cands.len() > 0 {
            chars_of(cands[0].as_str())
        } else {
            Vec::new()
        };
        assert(first@ == first_or_empty(word_choices(dict, freq, emo, emot, pv, wv[i as int]).0));
        proof {
            if is_ascii_text(s@) {
                assert(is_ascii_text(wv[i as int]));
                assert(first@ == first_or_empty(ascii_word_choices(dict, freq, emo, emot, pv, wv[i as int]).0));
                assert(firsts@.map_values(|p: Vec<char>| p@).push(first@) =~= wv.take(i + 1).map_values(
                    |w: Seq<char>| first_or_empty(ascii_word_choices(dict, freq, emo, emot, pv, w).0),
                ));
            }
        }
        let ghost prev_f = firsts@;
        firsts.push(first);
        assert(firsts@.map_values(|p: Vec<char>| p@) =~= prev_f.map_values(|p: Vec<char>| p@).push(first@));
        assert(wv.take(i + 1).map_values(|w: Seq<char>| first_or_empty(word_choices(dict, freq, emo, emot, pv, w).0))
            =~= wv.take(i as int).map_values(
            |w: Seq<char>| first_or_empty(word_choices(dict, freq, emo, emot, pv, w).0),
        ).push(first_or_empty(word_choices(dict, freq, emo, emot, pv, wv[i as int]).0)));
        let ghost prev_r = results@;
        results.push(WordResult { input: string_from_chars(w), candidates: cands, emojis, selected: 0 });
        assert forall|k: int| 0 <= k < i + 1 implies {
            &&& (#[trigger] results@[k]).input@ == wv[k]
            &&& strings_view(results@[k].candidates@) == word_choices(dict, freq, emo, emot, pv, wv[k]).0
            &&& strings_view(results@[k].emojis@) == word_choices(dict, freq, emo, emot, pv, wv[k]).1
            &&& results@[k].selected == 0
        } by {
            if k < i {
                assert(results@[k] == prev_r[k]);
            }
        }
        proof {
            if is_ascii_text(s@) {
                assert forall|k: int| 0 <= k < i + 1 implies {
                    &&& strings_view((#[trigger] results@[k]).candidates@) == ascii_word_choices(dict, freq, emo, emot, pv, wv[k]).0
                    &&& strings_view(results@[k].emojis@) == ascii_word_choices(dict, freq, emo, emot, pv, wv[k]).1
                } by {
                    if k < i {
                        assert(results@[k] == prev_r[k]);
                    }
                }
            }
        }
        i = i + 1;
    }
    assert(wv.take(n as int) =~= wv);
    let sep = vec![' '];
    assert(sep@ == seq![' ']);
    let combined = crate::text::join_chars(&firsts, sep.as_slice());
    TransliterateResult { combined: string_from_chars(combined.as_slice()), words: results }
}

// ── Global shortcut strings ─────────────────────────────────────────────────

/// A key that a global shortcut can use.
#[derive(Clone, Copy, PartialEq, Eq, Structural, Debug)]
pub enum KeyCode {
    KeyA,
    KeyB,
    KeyC,
    KeyD,
    KeyE,
    KeyF,
    KeyG,
    KeyH,
    KeyI,
    KeyJ,
    KeyK,
    KeyL,
    KeyM,
    KeyN,
    KeyO,
    KeyP,
    KeyQ,
    KeyR,
    KeyS,
    KeyT,
    KeyU,
    KeyV,
    KeyW,
    KeyX,
    KeyY,
    KeyZ,
    Digit0,
    Digit1,
    Digit2,
    Digit3,
    Digit4,
    Digit5,
    Digit6,
    Digit7,
    Digit8,
    Digit9,
    Space,
    F1,
    F2,
    F3,
    F4,
    F5,
    F6,
    F7,
    F8,
    F9,
    F10,
    F11,
    F12,
}

/// The modifier keys of a shortcut.
#[derive(Clone, Copy, PartialEq, Eq, Structural, Debug)]
pub struct Modifiers {
    pub control: bool,
    pub shift: bool,
    pub alt: bool,
    pub super_key: bool,
}

/// A global shortcut: its modifiers, if any, and its key.
#[derive(Clone, Copy, PartialEq, Eq, Structural, Debug)]
pub struct ShortcutSpec {
    pub modifiers: Option<Modifiers>,
    pub code: KeyCode,
}

/// The key of a one-character key name: a letter or a digit.
pub open spec fn char_key(c: char) -> Option<KeyCode> {
    match c {
        'a' => Some(KeyCode::KeyA),
        'b' => Some(KeyCode::KeyB),
        'c' => Some(KeyCode::KeyC),
        'd' => Some(KeyCode::KeyD),
        'e' => Some(KeyCode::KeyE),
        'f' => Some(KeyCode::KeyF),
        'g' => Some(KeyCode::KeyG),
        'h' => Some(KeyCode::KeyH),
        'i' => Some(KeyCode::KeyI),
        'j' => Some(KeyCode::KeyJ),
        'k' => Some(KeyCode::KeyK),
        'l' => Some(KeyCode::KeyL),
        'm' => Some(KeyCode::KeyM),
        'n' => Some(KeyCode::KeyN),
        'o' => Some(KeyCode::KeyO),
        'p' => Some(KeyCode::KeyP),
        'q' => Some(KeyCode::KeyQ),
        'r' => Some(KeyCode::KeyR),
        's' => Some(KeyCode::KeyS),
        't' => Some(KeyCode::KeyT),
        'u' => Some(KeyCode::KeyU),
        'v' => Some(KeyCode::KeyV),
        'w' => Some(KeyCode::KeyW),
        'x' => Some(KeyCode::KeyX),
        'y' => Some(KeyCode::KeyY),
        'z' => Some(KeyCode::KeyZ),
        '0' => Some(KeyCode::Digit0),
        '1' => Some(KeyCode::Digit1),
        '2' => Some(KeyCode::Digit2),
        '3' => Some(KeyCode::Digit3),
        '4' => Some(KeyCode::Digit4),
        '5' => Some(KeyCode::Digit5),
        '6' => Some(KeyCode::Digit6),
        '7' => Some(KeyCode::Digit7),
        '8' => Some(KeyCode::Digit8),
        '9' => Some(KeyCode::Digit9),
        _ => None,
    }
}

/// The function key named by what follows the `f`: `1` to `12`.
pub open spec fn function_key(d: Seq<char>) -> Option<KeyCode> {
    if d.len() == 1 {
        match d[0] {
            '1' => Some(KeyCode::F1),
            '2' => Some(KeyCode::F2),
            '3' => Some(KeyCode::F3),
            '4' => Some(KeyCode::F4),
            '5' => Some(KeyCode::F5),
            '6' => Some(KeyCode::F6),
            '7' => Some(KeyCode::F7),
            '8' => Some(KeyCode::F8),
            '9' => Some(KeyCode::F9),
            _ => None,
        }
    } else if d.len() == 2 && d[0] == '1' {
        match d[1] {
            '0' => Some(KeyCode::F10),
            '1' => Some(KeyCode::F11),
            '2' => Some(KeyCode::F12),
            _ => None,
        }
    } else {
        None
    }
}

/// The key named by a lowercase key name: a letter, a digit, `space`, or
/// `f1` to `f12`.
pub open spec fn key_code(s: Seq<char>) -> Option<KeyCode> {
    if s.len() == 1 {
        char_key(s[0])
    } else if s == seq!['s', 'p', 'a', 'c', 'e'] {
        Some(KeyCode::Space)
    } else if s.len() >= 2 && s[0] == 'f' {
        function_key(s.drop_first())
    } else {
        None
    }
}

/// The key of a one-character key name.
fn key_of_char(c: char) -> (r: Option<KeyCode>)
    ensures
        r == char_key(c),
{
    match c {
        'a' => Some(KeyCode::KeyA),
        'b' => Some(KeyCode::KeyB),
        'c' => Some(KeyCode::KeyC),
        'd' => Some(KeyCode::KeyD),
        'e' => Some(KeyCode::KeyE),
        'f' => Some(KeyCode::KeyF),
        'g' => Some(KeyCode::KeyG),
        'h' => Some(KeyCode::KeyH),
        'i' => Some(KeyCode::KeyI),
        'j' => Some(KeyCode::KeyJ),
        'k' => Some(KeyCode::KeyK),
        'l' => Some(KeyCode::KeyL),
        'm' => Some(KeyCode::KeyM),
        'n' => Some(KeyCode::KeyN),
        'o' => Some(KeyCode::KeyO),
        'p' => Some(KeyCode::KeyP),
        'q' => Some(KeyCode::KeyQ),
        'r' => Some(KeyCode::KeyR),
        's' => Some(KeyCode::KeyS),
        't' => Some(KeyCode::KeyT),
        'u' => Some(KeyCode::KeyU),
        'v' => Some(KeyCode::KeyV),
        'w' => Some(KeyCode::KeyW),
        'x' => Some(KeyCode::KeyX),
        'y' => Some(KeyCode::KeyY),
        'z' => Some(KeyCode::KeyZ),
        '0' => Some(KeyCode::Digit0),
        '1' => Some(KeyCode::Digit1),
        '2' => Some(KeyCode::Digit2),
        '3' => Some(KeyCode::Digit3),
        '4' => Some(KeyCode::Digit4),
        '5' => Some(KeyCode::Digit5),
        '6' => Some(KeyCode::Digit6),
        '7' => Some(KeyCode::Digit7),
        '8' => Some(KeyCode::Digit8),
        '9' => Some(KeyCode::Digit9),
        _ => None,
    }
}

/// The key named by a lowercase key name, if it names one.
pub fn str_to_code(s: &[char]) -> (r: Option<KeyCode>)
    ensures
        r == key_code(s@),
{
    let n = s.len();
    if n == 1 {
        return key_of_char(s[0]);
    }
    if n == 5 && s[0] == 's' && s[1] == 'p' && s[2] == 'a' && s[3] == 'c' && s[4] == 'e' {
        assert(s@ =~= seq!['s', 'p', 'a', 'c', 'e']);
        return Some(KeyCode::Space);
    }
    if n == 5 {
        assert(s@ != seq!['s', 'p', 'a', 'c', 'e']) by {
            if s@ == seq!['s', 'p', 'a', 'c', 'e'] {
                assert(s@[0] == 's' && s@[1] == 'p' && s@[2] == 'a' && s@[3] == 'c' && s@[4] == 'e');
            }
        }
    }
    if n >= 2 && s[0] == 'f' {
        assert(s@.drop_first().len() == n - 1);
        if n == 2 {
            assert(s@.drop_first()[0] == s@[1]);
            let r = match s[1] {
                '1' => Some(KeyCode::F1),
                '2' => Some(KeyCode::F2),
                '3' => Some(KeyCode::F3),
                '4' => Some(KeyCode::F4),
                '5' => Some(KeyCode::F5),
                '6' => Some(KeyCode::F6),
                '7' => Some(KeyCode::F7),
                '8' => Some(KeyCode::F8),
                '9' => Some(KeyCode::F9),
                _ => None,
            };
            return r;
        }
        if n == 3 && s[1] == '1' {
            assert(s@.drop_first()[0] == s@[1]);
            assert(s@.drop_first()[1] == s@[2]);
            let r = match s[2] {
                '0' => Some(KeyCode::F10),
                '1' => Some(KeyCode::F11),
                '2' => Some(KeyCode::F12),
                _ => None,
            };
            return r;
        }
        return None;
    }
    None
}

/// No modifier keys.
pub open spec fn no_modifiers() -> Modifiers {
    Modifiers { control: false, shift: false, alt: false, super_key: false }
}

/// The message for a key name that names no key.
pub open spec fn unknown_key_message(key: Seq<char>) -> Seq<char> {
    "Unknown key: "@ + key
}

/// Reading one `+`-separated part (trimmed and lowercased): a modifier name
/// adds its modifier, any other name sets the key, and a name that is
/// neither is an error.
pub open spec fn shortcut_step(st: (Modifiers, Option<KeyCode>), key: Seq<char>) -> Result<
    (Modifiers, Option<KeyCode>),
    Seq<char>,
> {
    let m = st.0;
    if key == "ctrl"@ || key == "control"@ {
        Ok((Modifiers { control: true, ..m }, st.1))
    } else if key == "shift"@ {
        Ok((Modifiers { shift: true, ..m }, st.1))
    } else if key == "alt"@ {
        Ok((Modifiers { alt: true, ..m }, st.1))
    } else if key == "meta"@ || key == "super"@ || key == "win"@ || key == "cmd"@ {
        Ok((Modifiers { super_key: true, ..m }, st.1))
    } else {
        match key_code(key) {
            Some(k) => Ok((m, Some(k))),
            None => Err(unknown_key_message(key)),
        }
    }
}

/// Reading the parts in order, stopping at the first error.
pub open spec fn shortcut_fold(parts: Seq<Seq<char>>) -> Result<(Modifiers, Option<KeyCode>), Seq<char>>
    decreases parts.len(),
{
    if parts.len() == 0 {
        Ok((no_modifiers(), None))
    } else {
        match shortcut_fold(parts.drop_last()) {
            Ok(st) => shortcut_step(st, lowercase(trim(parts.last()))),
            Err(e) => Err(e),
        }
    }
}

/// The shortcut a string such as `Ctrl+Shift+A` names, or the message saying
/// why it names none.
pub open spec fn shortcut_of(s: Seq<char>) -> Result<ShortcutSpec, Seq<char>> {
    match shortcut_fold(split_on(s, '+')) {
        Err(e) => Err(e),
        Ok((m, None)) => Err("No key code specified"@),
        Ok((m, Some(k))) => Ok(
            ShortcutSpec { modifiers: if m == no_modifiers() {
                None
            } else {
                Some(m)
            }, code: k },
        ),
    }
}

/// An error stays an error whatever parts follow.
proof fn lemma_fold_error_stays(parts: Seq<Seq<char>>, k: int, e: Seq<char>)
    requires
        0 <= k <= parts.len(),
        shortcut_fold(parts.take(k)) == Err::<(Modifiers, Option<KeyCode>), Seq<char>>(e),
    ensures
        shortcut_fold(parts) == Err::<(Modifiers, Option<KeyCode>), Seq<char>>(e),
    decreases parts.len() - k,
{
    if k == parts.len() {
        assert(parts.take(k) =~= parts);
    } else {
        assert(parts.take(k + 1).drop_last() =~= parts.take(k));
        lemma_fold_error_stays(parts, k + 1, e);
    }
}

/// Whether the characters are those of the literal.
fn is_name(key: &[char], name: &str) -> (r: bool)
    ensures
        r == (key@ == name@),
{
    let n = chars_of(name);
    crate::assoc::chars_equal(key, n.as_slice())
}

/// Reads a shortcut string such as `Ctrl+Shift+A`: parts separated by `+`,
/// each trimmed and compared lowercased; modifier names add modifiers and the
/// last other part names the key. Fails with `Unknown key: <part>` on the
/// first part that names nothing, or `No key code specified`.
pub fn parse_shortcut_str(s: &str) -> (r: Result<ShortcutSpec, String>)
    ensures
        match r {
            Ok(sc) => shortcut_of(s@) == Ok::<ShortcutSpec, Seq<char>>(sc),
            Err(e) => shortcut_of(s@) == Err::<ShortcutSpec, Seq<char>>(e@),
        },
{
    let chars = chars_of(s);
    let parts = crate::text::split_chars(chars.as_slice(), '+');
    let ghost pv = parts@.map_values(|p: Vec<char>| p@);
    let n = parts.len();
    let mut mods = Modifiers { control: false, shift: false, alt: false, super_key: false };
    let mut code: Option<KeyCode> = None;
    let mut i: usize = 0;
    assert(pv.take(0) =~= Seq::<Seq<char>>::empty());
    while i < n
        invariant
            i <= n,
            n == parts@.len(),
            pv == parts@.map_values(|p: Vec<char>| p@),
            pv == split_on(s@, '+'),
            shortcut_fold(pv.take(i as int)) == Ok::<(Modifiers, Option<KeyCode>), Seq<char>>((mods, code)),
        decreases n - i,
    {
        let t = trim_chars(parts[i].as_slice());
        let key = lowercase_chars(t.as_slice());
        proof {
            assert(pv.take(i + 1).drop_last() =~= pv.take(i as int));
            assert(pv.take(i + 1).last() == parts@[i as int]@);
        }
        if is_name(key.as_slice(), "ctrl") || is_name(key.as_slice(), "control") {
            mods.control = true;
        } else if is_name(key.as_slice(), "shift") {
            mods.shift = true;
        } else if is_name(key.as_slice(), "alt") {
            mods.alt = true;
        } else if is_name(key.as_slice(), "meta") || is_name(key.as_slice(), "super") || is_name(
            key.as_slice(),
            "win",
        ) || is_name(key.as_slice(), "cmd") {
            mods.super_key = true;
        } else {
            match str_to_code(key.as_slice()) {
                Some(k) => {
                    code = Some(k);
                },
                None => {
                    let mut msg = chars_of("Unknown key: ");
                    append_chars(&mut msg, key.as_slice());
                    proof {
                        lemma_fold_error_stays(pv, i + 1, msg@);
                    }
                    return Err(string_from_chars(msg.as_slice()));
                },
            }
        }
        i = i + 1;
    }
    assert(pv.take(n as int) =~= pv);
    match code {
        Some(k) => {
            let none = !mods.control && !mods.shift && !mods.alt && !mods.super_key;
            let modifiers = if none {
                None
            } else {
                Some(mods)
            };
            Ok(ShortcutSpec { modifiers, code: k })
        },
        None => Err(string_from_chars(chars_of("No key code specified").as_slice())),
    }
}

// ── Accent colour ───────────────────────────────────────────────────────────

/// A lowercase hexadecimal digit.
pub open spec fn hex_digit(d: nat) -> char {
    if d < 10 {
        (d + 48) as char
    } else {
        (d + 87) as char
    }
}

/// Two lowercase hexadecimal digits of a byte.
pub open spec fn hex_byte(b: nat) -> Seq<char> {
    seq![hex_digit(b / 16), hex_digit(b % 16)]
}

/// The `#rrggbb` colour of an accent colour stored as ABGR: red in the low
/// byte, then green, then blue.
pub open spec fn accent_hex_text(color: u32) -> Seq<char> {
    seq!['#'] + hex_byte((color % 256) as nat) + hex_byte(((color / 256) % 256) as nat) + hex_byte(
        ((color / 65536) % 256) as nat,
    )
}

fn hex_digit_char(d: u32) -> (c: char)
    requires
        d < 16,
    ensures
        c == hex_digit(d as nat),
{
    match d {
        0 => '0',
        1 => '1',
        2 => '2',
        3 => '3',
        4 => '4',
        5 => '5',
        6 => '6',
        7 => '7',
        8 => '8',
        9 => '9',
        10 => 'a',
        11 => 'b',
        12 => 'c',
        13 => 'd',
        14 => 'e',
        _ => 'f',
    }
}

fn push_hex_byte(out: &mut Vec<char>, b: u32)
    requires
        b < 256,
    ensures
        final(out)@ == old(out)@ + hex_byte(b as nat),
{
    out.push(hex_digit_char(b / 16));
    out.push(hex_digit_char(b % 16));
}

/// The `#rrggbb` text of a Windows accent colour (ABGR), as the overlay
/// shows it.
pub fn accent_hex(color: u32) -> (r: String)
    ensures
        r@ == accent_hex_text(color),
{
    let red = color & 0xFF;
    let green = (color >> 8) & 0xFF;
    let blue = (color >> 16) & 0xFF;
    assert(red == color % 256) by (bit_vector)
        requires
            red == color & 0xFF,
    ;
    assert(green == (color / 256) % 256) by (bit_vector)
        requires
            green == (color >> 8) & 0xFF,
    ;
    assert(blue == (color / 65536) % 256) by (bit_vector)
        requires
            blue == (color >> 16) & 0xFF,
    ;
    let mut out: Vec<char> = Vec::new();
    out.push('#');
    push_hex_byte(&mut out, red);
    push_hex_byte(&mut out, green);
    push_hex_byte(&mut out, blue);
    string_from_chars(out.as_slice())
}

// ── Window position ─────────────────────────────────────────────────────────

/// What `serde_json` reads as the integer member `key` of the JSON object in
/// `data`: the member's value when `data` is JSON for an object whose member
/// `key` is an integer that fits in an `i64`, and nothing otherwise.
pub uninterp spec fn json_i64_member(data: Seq<char>, key: Seq<char>) -> Option<i64>;

/// Trusted: parses `data` with `serde_json::from_str` into a
/// `serde_json::Value` and reads member `key` with `Value::get` and
/// `Value::as_i64`. The result depends on the two texts alone and is named
/// `json_i64_member`; JSON's grammar is not restated here.
#[verifier::external_body]
fn json_member_i64(data: &str, key: &str) -> (r: Option<i64>)
    ensures
        r == json_i64_member(data@, key@),
{
    match serde_json::from_str::<serde_json::Value>(data) {
        Ok(v) => match v.get(key) {
            Some(m) => m.as_i64(),
            None => None,
        },
        Err(_) => None,
    }
}

/// The position given by the members read: both must be there; each is cut
/// to 32 bits as `as i32` does.
pub open spec fn position_of_members(x: Option<i64>, y: Option<i64>) -> Option<(i32, i32)> {
    match (x, y) {
        (Some(a), Some(b)) => Some((a as i32, b as i32)),
        _ => None,
    }
}

/// The position given by the `x` and `y` members read from the saved JSON.
pub fn window_position_from(x: Option<i64>, y: Option<i64>) -> (r: Option<(i32, i32)>)
    ensures
        r == position_of_members(x, y),
{
    match (x, y) {
        (Some(a), Some(b)) => Some((a as i32, b as i32)),
        _ => None,
    }
}

/// Reads a saved overlay position `{"x":..,"y":..}` (physical pixels).
pub fn parse_window_position(data: &str) -> (r: Option<(i32, i32)>)
    ensures
        r == position_of_members(json_i64_member(data@, "x"@), json_i64_member(data@, "y"@)),
{
    let x = json_member_i64(data, "x");
    let y = json_member_i64(data, "y");
    window_position_from(x, y)
}

/// The decimal text of an integer, with a minus sign when negative.
pub open spec fn signed_decimal(n: int) -> Seq<char> {
    if n < 0 {
        seq!['-'] + crate::text::decimal((-n) as nat)
    } else {
        crate::text::decimal(n as nat)
    }
}

/// The JSON text saved for an overlay position.
pub open spec fn window_position_text(x: i32, y: i32) -> Seq<char> {
    "{\"x\":"@ + signed_decimal(x as int) + ",\"y\":"@ + signed_decimal(y as int) + "}"@
}

fn push_signed(out: &mut Vec<char>, n: i32)
    ensures
        final(out)@ == old(out)@ + signed_decimal(n as int),
{
    if n < 0 {
        out.push('-');
        let m: i64 = -(n as i64);
        let d = crate::text::u64_to_decimal(m as u64);
        append_chars(out, d.as_slice());
    } else {
        let d = crate::text::u64_to_decimal(n as u64);
        append_chars(out, d.as_slice());
    }
}

/// The JSON text saved when the overlay moves: `{"x":<x>,"y":<y>}`.
pub fn window_position_json(x: i32, y: i32) -> (r: String)
    ensures
        r@ == window_position_text(x, y),
{
    let mut out = chars_of("{\"x\":");
    push_signed(&mut out, x);
    let mid = chars_of(",\"y\":");
    append_chars(&mut out, mid.as_slice());
    push_signed(&mut out, y);
    let end = chars_of("}");
    append_chars(&mut out, end.as_slice());
    string_from_chars(out.as_slice())
}

/// The bounds of a connected monitor, in physical pixels.
#[derive(Clone, Copy)]
pub struct MonitorRect {
    pub x: i32,
    pub y: i32,
    pub width: u32,
    pub height: u32,
}

/// Whether a point lies inside a monitor's bounds (its size taken as `i32`,
/// as `as i32` does).
pub open spec fn inside(m: MonitorRect, x: i32, y: i32) -> bool {
    &&& x >= m.x
    &&& y >= m.y
    &&& x < m.x + (m.width as i32)
    &&& y < m.y + (m.height as i32)
}

/// The sums that the test of a monitor computes fit in an `i32`: the right
/// edge when the point is right of the left edge and below the top, the
/// bottom edge when it is also left of the right edge.
pub open spec fn edges_fit(m: MonitorRect, x: i32, y: i32) -> bool {
    &&& (x >= m.x && y >= m.y) ==> i32::MIN <= m.x + (m.width as i32) <= i32::MAX
    &&& (x >= m.x && y >= m.y && x < m.x + (m.width as i32)) ==> i32::MIN <= m.y + (m.height as i32)
        <= i32::MAX
}

/// Whether a point lies inside any of the monitors; used so that the overlay
/// is never restored onto a display that is gone.
pub fn position_visible(monitors: &[MonitorRect], x: i32, y: i32) -> (r: bool)
    requires
        forall|i: int|
            0 <= i < monitors@.len() ==> (forall|j: int| 0 <= j < i ==> !inside(#[trigger] monitors@[j], x, y))
                ==> edges_fit(#[trigger] monitors@[i], x, y),
    ensures
        r == exists|i: int| 0 <= i < monitors@.len() && inside(#[trigger] monitors@[i], x, y),
{
    let n = monitors.len();
    let mut i: usize = 0;
    while i < n
        invariant
            i <= n,
            n == monitors@.len(),
            forall|j: int| 0 <= j < i ==> !inside(#[trigger] monitors@[j], x, y),
            forall|k: int|
                0 <= k < monitors@.len() ==> (forall|j: int| 0 <= j < k ==> !inside(#[trigger] monitors@[j], x, y))
                    ==> edges_fit(#[trigger] monitors@[k], x, y),
        decreases n - i,
    {
        let m = monitors[i];
        assert(edges_fit(monitors@[i as int], x, y));
        let w = m.width as i32;
        let h = m.height as i32;
        if x >= m.x && y >= m.y && x < m.x + w && y < m.y + h {
            assert(inside(monitors@[i as int], x, y));
            return true;
        }
        i = i + 1;
    }
    false
}

// ── Start at login ──────────────────────────────────────────────────────────

/// The macOS LaunchAgent property list that starts the program at `exe` at
/// login.
pub open spec fn launch_agent_text(exe: Seq<char>) -> Seq<char> {
    "<?xml version=\"1.0\" encoding=\"UTF-8\"?>\n<!DOCTYPE plist PUBLIC \"-//Apple//DTD PLIST 1.0//EN\" \"http://www.apple.com/DTDs/PropertyList-1.0.dtd\">\n<plist version=\"1.0\">\n<dict>\n    <key>Label</key>\n    <string>com.franconvert.app</string>\n    <key>ProgramArguments</key>\n    <array>\n        <string>"@
        + exe
        + "</string>\n    </array>\n    <key>RunAtLoad</key>\n    <true/>\n    <key>KeepAlive</key>\n    <false/>\n</dict>\n</plist>"@
}

/// The LaunchAgent property list for the program at `exe`.
pub fn launch_agent_plist(exe: &str) -> (r: String)
    ensures
        r@ == launch_agent_text(exe@),
{
    let mut out = chars_of(
        "<?xml version=\"1.0\" encoding=\"UTF-8\"?>\n<!DOCTYPE plist PUBLIC \"-//Apple//DTD PLIST 1.0//EN\" \"http://www.apple.com/DTDs/PropertyList-1.0.dtd\">\n<plist version=\"1.0\">\n<dict>\n    <key>Label</key>\n    <string>com.franconvert.app</string>\n    <key>ProgramArguments</key>\n    <array>\n        <string>",
    );
    let e = chars_of(exe);
    append_chars(&mut out, e.as_slice());
    let tail = chars_of(
        "</string>\n    </array>\n    <key>RunAtLoad</key>\n    <true/>\n    <key>KeepAlive</key>\n    <false/>\n</dict>\n</plist>",
    );
    append_chars(&mut out, tail.as_slice());
    string_from_chars(out.as_slice())
}

/// Whether the program registered to start at login is this one: the two
/// paths compared lowercased.
pub fn autostart_matches(registered: &str, exe: &str) -> (r: bool)
    ensures
        r == (lowercase(registered@) == lowercase(exe@)),
{
    let a = crate::text::lowercase_of_str(registered);
    let b = crate::text::lowercase_of_str(exe);
    crate::assoc::chars_equal(a.as_slice(), b.as_slice())
}

// ── Window backdrop ─────────────────────────────────────────────────────────

/// The number of a version part: its value when it reads as a `u32`, zero
/// otherwise.
pub open spec fn version_number(part: Seq<char>) -> u32 {
    match crate::text::parse_u32(part) {
        Some(v) => v,
        None => 0,
    }
}

/// The (major, minor) numbers of a version text such as `15.3.1`, trimmed
/// and split at its dots; a missing or unreadable part counts as zero.
pub open spec fn version_numbers(text: Seq<char>) -> (u32, u32) {
    let parts = split_on(trim(text), '.');
    (version_number(parts[0]), if parts.len() > 1 {
        version_number(parts[1])
    } else {
        0
    })
}

/// Reads the (major, minor) numbers of a macOS version text.
pub fn parse_os_version(text: &str) -> (r: (u32, u32))
    ensures
        r == version_numbers(text@),
{
    let chars = chars_of(text);
    let t = trim_chars(chars.as_slice());
    let parts = crate::text::split_chars(t.as_slice(), '.');
    proof {
        crate::text::lemma_split_on_len(t@, '.');
        assert(parts@[0]@ == split_on(t@, '.')[0]);
    }
    let major = match crate::text::parse_u32_chars(parts[0].as_slice()) {
        Some(v) => v,
        None => 0,
    };
    let minor = if parts.len() > 1 {
        assert(parts@[1]@ == split_on(t@, '.')[1]);
        match crate::text::parse_u32_chars(parts[1].as_slice()) {
            Some(v) => v,
            None => 0,
        }
    } else {
        0
    };
    (major, minor)
}

/// The macOS window materials the overlay uses.
#[derive(Clone, Copy, PartialEq, Eq, Structural, Debug)]
pub enum Backdrop {
    /// Theme-adaptive translucency, drawn as Liquid Glass from macOS 26 on.
    FullScreenUi,
    /// Frosted dark glass, for earlier versions.
    HudWindow,
}

/// The backdrop for a macOS major version: `FullScreenUi` from 26 on,
/// `HudWindow` before.
pub fn backdrop_for(major: u32) -> (b: Backdrop)
    ensures
        b == (if major >= 26 {
            Backdrop::FullScreenUi
        } else {
            Backdrop::HudWindow
        }),
{
    if major >= 26 {
        Backdrop::FullScreenUi
    } else {
        Backdrop::HudWindow
    }
}

/// The RGBA tint of the Windows acrylic backdrop: near black for the dark
/// theme, near white for the light one, both slightly translucent.
pub fn acrylic_tint(dark: bool) -> (t: (u8, u8, u8, u8))
    ensures
        t == (if dark {
            (20u8, 20u8, 20u8, 238u8)
        } else {
            (245u8, 245u8, 245u8, 238u8)
        }),
{
    if dark {
        (20u8, 20u8, 20u8, 238u8)
    } else {
        (245u8, 245u8, 245u8, 238u8)
    }
}

// ── Focus ───────────────────────────────────────────────────────────────────

/// Whether to remember the frontmost application before the overlay takes
/// focus: only a real process that is not this one.
pub fn remembers_front_app(pid: i32, own_pid: i32) -> (r: bool)
    ensures
        r == (pid > 0 && pid != own_pid),
{
    pid > 0 && pid != own_pid
}

} // verus!
