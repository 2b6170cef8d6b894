//! The user's earlier choices: for each Arabizi input, how many times each
//! Arabic candidate was selected. Used to boost chosen candidates.

use vstd::prelude::*;
use crate::mappings::occurs_at;
use crate::text::{lemma_decimal_value, lemma_parse_decimal};
use crate::assoc::{assoc_insert, plain_view, assoc_map, find_key, keys_distinct, lemma_assoc_map_dom, lemma_assoc_map_get, lemma_assoc_map_push, lemma_assoc_map_update};
use crate::text::{ascii_lowercase, is_ascii_text, is_digit, parse_u32, parse_u32_chars, trim, trim_chars, append_chars, chars_of, decimal, lowercase, lowercase_of_str, string_from_chars, u64_to_decimal};

verus! {

/// The selection counts of one input, as a plain map.
pub open spec fn counts_view(v: Seq<(Vec<char>, u32)>) -> Seq<(Seq<char>, u32)> {
    v.map_values(|e: (Vec<char>, u32)| (e.0@, e.1))
}

/// The selections, as plain entries.
pub open spec fn selections_view(v: Seq<(Vec<char>, Vec<(Vec<char>, u32)>)>) -> Seq<(Seq<char>, Map<Seq<char>, u32>)> {
    v.map_values(|e: (Vec<char>, Vec<(Vec<char>, u32)>)| (e.0@, assoc_map(counts_view(e.1@))))
}

/// How many times `arabic` was chosen for the (already lowercased) input `key`.
pub open spec fn selection_count(p: Map<Seq<char>, Map<Seq<char>, u32>>, key: Seq<char>, arabic: Seq<char>) -> nat {
    if p.contains_key(key) && p[key].contains_key(arabic) {
        p[key][arabic] as nat
    } else {
        0
    }
}

/// The selections after one more choice of `arabic` for `key`.
pub open spec fn with_selection(p: Map<Seq<char>, Map<Seq<char>, u32>>, key: Seq<char>, arabic: Seq<char>) -> Map<Seq<char>, Map<Seq<char>, u32>> {
    let inner = if p.contains_key(key) {
        p[key]
    } else {
        Map::empty()
    };
    p.insert(key, inner.insert(arabic, (selection_count(p, key, arabic) + 1) as u32))
}


/// Recording a choice adds one to its count and leaves every other count
/// as it was.
pub proof fn lemma_record_then_score(
    p: Map<Seq<char>, Map<Seq<char>, u32>>,
    key: Seq<char>,
    arabic: Seq<char>,
    other_key: Seq<char>,
    other_arabic: Seq<char>,
)
    requires
        selection_count(p, key, arabic) < u32::MAX,
    ensures
        selection_count(with_selection(p, key, arabic), key, arabic) == selection_count(p, key, arabic) + 1,
        (other_key, other_arabic) != (key, arabic) ==> selection_count(
            with_selection(p, key, arabic),
            other_key,
            other_arabic,
        ) == selection_count(p, other_key, other_arabic),
{
}

/// How `to_json` writes a character inside a JSON string: backslash,
/// double quote, line feed, carriage return and tab are escaped.
pub open spec fn escape_char(c: char) -> Seq<char> {
    if c == '\\' {
        seq!['\\', '\\']
    } else if c == '"' {
        seq!['\\', '"']
    } else if c == '\n' {
        seq!['\\', 'n']
    } else if c == '\r' {
        seq!['\\', 'r']
    } else if c == '\t' {
        seq!['\\', 't']
    } else {
        seq![c]
    }
}

/// The escaped text of a string.
pub open spec fn json_escaped(s: Seq<char>) -> Seq<char> {
    s.flat_map(|c: char| escape_char(c))
}

/// A JSON string literal: the escaped text in double quotes.
pub open spec fn json_string(s: Seq<char>) -> Seq<char> {
    seq!['"'] + json_escaped(s) + seq!['"']
}

/// The parts separated by commas.
pub open spec fn comma_list(parts: Seq<Seq<char>>) -> Seq<char> {
    if parts.len() == 0 {
        Seq::empty()
    } else {
        parts[0] + parts.drop_first().flat_map(|p: Seq<char>| seq![','] + p)
    }
}

/// `"arabic":count`.
pub open spec fn count_member(e: (Seq<char>, u32)) -> Seq<char> {
    json_string(e.0) + seq![':'] + decimal(e.1 as nat)
}

/// The JSON object of the selection counts of one input.
pub open spec fn counts_json(counts: Seq<(Seq<char>, u32)>) -> Seq<char> {
    seq!['{'] + comma_list(counts.map_values(|e: (Seq<char>, u32)| count_member(e))) + seq!['}']
}

/// `"input":{...}`.
pub open spec fn input_member(e: (Seq<char>, Seq<(Seq<char>, u32)>)) -> Seq<char> {
    json_string(e.0) + seq![':'] + counts_json(e.1)
}

/// The JSON text of the preferences: `{"input":{"arabic":count,...},...}`.
pub open spec fn preferences_json(entries: Seq<(Seq<char>, Seq<(Seq<char>, u32)>)>) -> Seq<char> {
    seq!['{'] + comma_list(entries.map_values(|e: (Seq<char>, Seq<(Seq<char>, u32)>)| input_member(e))) + seq!['}']
}

/// The map of a list of selection entries.
pub open spec fn entries_map(entries: Seq<(Seq<char>, Seq<(Seq<char>, u32)>)>) -> Map<Seq<char>, Map<Seq<char>, u32>> {
    assoc_map(entries.map_values(|e: (Seq<char>, Seq<(Seq<char>, u32)>)| (e.0, assoc_map(e.1))))
}

/// Distinct inputs, and distinct candidates within each input.
pub open spec fn entries_wf(entries: Seq<(Seq<char>, Seq<(Seq<char>, u32)>)>) -> bool {
    &&& keys_distinct(entries)
    &&& forall|i: int| 0 <= i < entries.len() ==> keys_distinct(#[trigger] entries[i].1)
}

/// Appending a part to a comma list.
pub proof fn lemma_comma_list_push(parts: Seq<Seq<char>>, p: Seq<char>)
    ensures
        comma_list(parts.push(p)) == (if parts.len() == 0 {
            p
        } else {
            comma_list(parts) + seq![','] + p
        }),
{
    if parts.len() > 0 {
        let f = |q: Seq<char>| seq![','] + q;
        assert(parts.push(p).drop_first() =~= parts.drop_first().push(p));
        parts.drop_first().lemma_flat_map_push(f, p);
        assert(parts.push(p)[0] == parts[0]);
    } else {
        assert(parts.push(p).drop_first() =~= Seq::<Seq<char>>::empty());
        assert(Seq::<Seq<char>>::empty().flat_map(|q: Seq<char>| seq![','] + q) =~= Seq::<char>::empty());
        assert(p + Seq::<char>::empty() =~= p);
    }
}


/// ASCII white space (what `u8::is_ascii_whitespace` accepts).
pub open spec fn is_json_ws(c: char) -> bool {
    c == ' ' || c == '\t' || c == '\n' || c == '\u{c}' || c == '\r'
}

/// The position of the first non-white-space character at or after `pos`.
pub open spec fn skip_ws_from(s: Seq<char>, pos: int) -> int
    decreases s.len() - pos,
{
    if 0 <= pos < s.len() && is_json_ws(s[pos]) {
        skip_ws_from(s, pos + 1)
    } else {
        pos
    }
}

/// Reads the rest of a string literal from `pos` (after the opening
/// quote), `acc` holding what was read so far: `\"`, `\\`, `\n`, `\r`, `\t`
/// are unescaped, a backslash before anything else is kept as it is, and
/// the closing quote ends the string. The reading goes by characters; every
/// character it looks for is ASCII, so it reads UTF-8 text the same way
/// byte by byte.
pub open spec fn string_rest(s: Seq<char>, pos: int, acc: Seq<char>) -> Option<(Seq<char>, int)>
    decreases s.len() - pos,
{
    if pos < 0 || pos >= s.len() {
        None
    } else if s[pos] == '\\' && pos + 1 < s.len() {
        let e = s[pos + 1];
        if e == '"' {
            string_rest(s, pos + 2, acc.push('"'))
        } else if e == '\\' {
            string_rest(s, pos + 2, acc.push('\\'))
        } else if e == 'n' {
            string_rest(s, pos + 2, acc.push('\n'))
        } else if e == 'r' {
            string_rest(s, pos + 2, acc.push('\r'))
        } else if e == 't' {
            string_rest(s, pos + 2, acc.push('\t'))
        } else {
            string_rest(s, pos + 1, acc.push('\\'))
        }
    } else if s[pos] == '"' {
        Some((acc, pos + 1))
    } else {
        string_rest(s, pos + 1, acc.push(s[pos]))
    }
}

/// The string literal at `pos` and the position after it.
pub open spec fn string_at(s: Seq<char>, pos: int) -> Option<(Seq<char>, int)> {
    if 0 <= pos < s.len() && s[pos] == '"' {
        string_rest(s, pos + 1, Seq::empty())
    } else {
        None
    }
}

/// The end of the run of digits at `pos`.
pub open spec fn digits_end(s: Seq<char>, pos: int) -> int
    decreases s.len() - pos,
{
    if 0 <= pos < s.len() && is_digit(s[pos]) {
        digits_end(s, pos + 1)
    } else {
        pos
    }
}

/// The number at `pos` (a run of digits that fits in 32 bits) and the
/// position after it.
pub open spec fn number_at(s: Seq<char>, pos: int) -> Option<(u32, int)> {
    let e = digits_end(s, pos);
    if e == pos {
        None
    } else {
        match parse_u32(s.subrange(pos, e)) {
            Some(n) => Some((n, e)),
            None => None,
        }
    }
}

/// Bounds of the white-space skip.
pub proof fn lemma_skip_ws(s: Seq<char>, pos: int)
    requires
        0 <= pos,
    ensures
        pos <= skip_ws_from(s, pos),
        pos <= s.len() ==> skip_ws_from(s, pos) <= s.len(),
        skip_ws_from(s, pos) < s.len() ==> !is_json_ws(s[skip_ws_from(s, pos)]),
    decreases s.len() - pos,
{
    if 0 <= pos < s.len() && is_json_ws(s[pos]) {
        lemma_skip_ws(s, pos + 1);
    }
}

/// A string literal ends after where it starts, within the text.
pub proof fn lemma_string_rest(s: Seq<char>, pos: int, acc: Seq<char>)
    ensures
        string_rest(s, pos, acc) matches Some((_, q)) ==> pos < q <= s.len(),
    decreases s.len() - pos,
{
    if 0 <= pos < s.len() {
        if s[pos] == '\\' && pos + 1 < s.len() {
            let e = s[pos + 1];
            if e == '"' {
                lemma_string_rest(s, pos + 2, acc.push('"'));
            } else if e == '\\' {
                lemma_string_rest(s, pos + 2, acc.push('\\'));
            } else if e == 'n' {
                lemma_string_rest(s, pos + 2, acc.push('\n'));
            } else if e == 'r' {
                lemma_string_rest(s, pos + 2, acc.push('\r'));
            } else if e == 't' {
                lemma_string_rest(s, pos + 2, acc.push('\t'));
            } else {
                lemma_string_rest(s, pos + 1, acc.push('\\'));
            }
        } else if s[pos] != '"' {
            lemma_string_rest(s, pos + 1, acc.push(s[pos]));
        }
    }
}

/// Bounds of a digit run.
pub proof fn lemma_digits_end(s: Seq<char>, pos: int)
    requires
        0 <= pos <= s.len(),
    ensures
        pos <= digits_end(s, pos) <= s.len(),
        forall|i: int| pos <= i < digits_end(s, pos) ==> is_digit(s[i]),
        digits_end(s, pos) < s.len() ==> !is_digit(s[digits_end(s, pos)]),
    decreases s.len() - pos,
{
    if pos < s.len() && is_digit(s[pos]) {
        lemma_digits_end(s, pos + 1);
    }
}

/// The members of an object of counts from `pos` on (after its `{`), added
/// to `acc`; a later member for the same key replaces an earlier one. Gives
/// the map and the position after the closing `}`. Commas between members
/// may be left out.
pub open spec fn counts_from(s: Seq<char>, pos: int, acc: Map<Seq<char>, u32>) -> Option<(Map<Seq<char>, u32>, int)>
    decreases s.len() - pos,
{
    if pos < 0 || pos > s.len() {
        None
    } else {
        proof {
            lemma_skip_ws(s, pos);
        }
        let p = skip_ws_from(s, pos);
        if p >= s.len() {
            None
        } else if s[p] == '}' {
            Some((acc, p + 1))
        } else {
            let p2 = if s[p] == ',' {
                skip_ws_from(s, p + 1)
            } else {
                p
            };
            proof {
                lemma_skip_ws(s, p + 1);
                lemma_string_rest(s, p2 + 1, Seq::empty());
            }
            match string_at(s, p2) {
                None => None,
                Some((key, p3)) => {
                    proof {
                        lemma_skip_ws(s, p3);
                    }
                    let p4 = skip_ws_from(s, p3);
                    if p4 >= s.len() || s[p4] != ':' {
                        None
                    } else {
                        proof {
                            lemma_skip_ws(s, p4 + 1);
                            lemma_digits_end(s, skip_ws_from(s, p4 + 1));
                        }
                        let p5 = skip_ws_from(s, p4 + 1);
                        match number_at(s, p5) {
                            None => None,
                            Some((n, p6)) => counts_from(s, p6, acc.insert(key, n)),
                        }
                    }
                },
            }
        }
    }
}

/// The members of the outer object from `pos` on (after its `{`), added to
/// `acc`; a later member for the same key replaces an earlier one. Reading
/// stops at the closing `}`. Commas between members may be left out.
pub open spec fn entries_from(s: Seq<char>, pos: int, acc: Map<Seq<char>, Map<Seq<char>, u32>>) -> Option<Map<Seq<char>, Map<Seq<char>, u32>>>
    decreases s.len() - pos,
{
    if pos < 0 || pos > s.len() {
        None
    } else {
        proof {
            lemma_skip_ws(s, pos);
        }
        let p = skip_ws_from(s, pos);
        if p >= s.len() {
            None
        } else if s[p] == '}' {
            Some(acc)
        } else {
            let p2 = if s[p] == ',' {
                skip_ws_from(s, p + 1)
            } else {
                p
            };
            proof {
                lemma_skip_ws(s, p + 1);
                lemma_string_rest(s, p2 + 1, Seq::empty());
            }
            match string_at(s, p2) {
                None => None,
                Some((key, p3)) => {
                    proof {
                        lemma_skip_ws(s, p3);
                    }
                    let p4 = skip_ws_from(s, p3);
                    if p4 >= s.len() || s[p4] != ':' {
                        None
                    } else {
                        proof {
                            lemma_skip_ws(s, p4 + 1);
                        }
                        let p5 = skip_ws_from(s, p4 + 1);
                        if p5 >= s.len() || s[p5] != '{' {
                            None
                        } else {
                            proof {
                                lemma_counts_from_advances(s, p5 + 1, Map::empty());
                            }
                            match counts_from(s, p5 + 1, Map::empty()) {
                                None => None,
                                Some((m, p6)) => entries_from(s, p6, acc.insert(key, m)),
                            }
                        }
                    }
                },
            }
        }
    }
}

/// An object of counts ends after where it starts, within the text.
pub proof fn lemma_counts_from_advances(s: Seq<char>, pos: int, acc: Map<Seq<char>, u32>)
    ensures
        counts_from(s, pos, acc) matches Some((_, q)) ==> pos < q <= s.len(),
    decreases s.len() - pos,
{
    if 0 <= pos <= s.len() {
        lemma_skip_ws(s, pos);
        let p = skip_ws_from(s, pos);
        if p < s.len() && s[p] != '}' {
            let p2 = if s[p] == ',' {
                skip_ws_from(s, p + 1)
            } else {
                p
            };
            lemma_skip_ws(s, p + 1);
            lemma_string_rest(s, p2 + 1, Seq::empty());
            if let Some((key, p3)) = string_at(s, p2) {
                lemma_skip_ws(s, p3);
                let p4 = skip_ws_from(s, p3);
                if p4 < s.len() && s[p4] == ':' {
                    lemma_skip_ws(s, p4 + 1);
                    let p5 = skip_ws_from(s, p4 + 1);
                    lemma_digits_end(s, p5);
                    if let Some((n, p6)) = number_at(s, p5) {
                        lemma_counts_from_advances(s, p6, acc.insert(key, n));
                    }
                }
            }
        }
    }
}

/// The map a JSON text of nested objects stands for, if it is one.
pub open spec fn nested_map(s: Seq<char>) -> Option<Map<Seq<char>, Map<Seq<char>, u32>>> {
    let p = skip_ws_from(s, 0);
    if p >= s.len() || s[p] != '{' {
        None
    } else {
        entries_from(s, p + 1, Map::empty())
    }
}

/// The preferences a JSON text gives: none unless, once trimmed, it is at
/// least two characters long, starts with `{` and reads as nested objects.
pub open spec fn preferences_from_json(json: Seq<char>) -> Map<Seq<char>, Map<Seq<char>, u32>> {
    let t = trim(json);
    if t.len() < 2 || t[0] != '{' {
        Map::empty()
    } else {
        match nested_map(t) {
            Some(m) => m,
            None => Map::empty(),
        }
    }
}

/// Which Arabic candidates the user chose for each Arabizi input, and how
/// often.
pub struct UserPreferences {
    selections: Vec<(Vec<char>, Vec<(Vec<char>, u32)>)>,
}

impl UserPreferences {
    /// The selections in storage order.
    pub closed spec fn entries(&self) -> Seq<(Seq<char>, Seq<(Seq<char>, u32)>)> {
        self.selections@.map_values(|e: (Vec<char>, Vec<(Vec<char>, u32)>)| (e.0@, counts_view(e.1@)))
    }

    #[verifier::type_invariant]
    spec fn keys_unique(&self) -> bool {
        &&& keys_distinct(selections_view(self.selections@))
        &&& forall|i: int| 0 <= i < self.selections@.len() ==> keys_distinct(#[trigger] counts_view(self.selections@[i].1@))
    }

    /// No preferences recorded.
    pub fn new() -> (p: Self)
        ensures
            p@ == Map::<Seq<char>, Map<Seq<char>, u32>>::empty(),
    {
        let p = UserPreferences { selections: Vec::new() };
        assert(selections_view(p.selections@) =~= Seq::empty());
        p
    }

    /// Records that the user chose `arabic` for `input` (stored lowercased).
    pub fn record(&mut self, input: &str, arabic: &str)
        requires
            selection_count(old(self)@, lowercase(input@), arabic@) < u32::MAX,
        ensures
            final(self)@ == with_selection(old(self)@, lowercase(input@), arabic@),
            is_ascii_text(input@) ==> final(self)@ == with_selection(old(self)@, ascii_lowercase(input@), arabic@),
    {
        let key = lowercase_of_str(input);
        let a = chars_of(arabic);
        self.record_chars(key, a);
    }

    /// Records the choice unless its count is already at the largest
    /// value a count can hold; says whether it recorded it.
    pub fn record_checked(&mut self, input: &str, arabic: &str) -> (recorded: bool)
        ensures
            recorded == (selection_count(old(self)@, lowercase(input@), arabic@) < u32::MAX),
            recorded ==> final(self)@ == with_selection(old(self)@, lowercase(input@), arabic@),
            !recorded ==> final(self)@ == old(self)@,
    {
        if self.score(input, arabic) == u32::MAX {
            return false;
        }
        self.record(input, arabic);
        true
    }

    /// Records one more choice of `arabic` for the lowercased input `key`.
    fn record_chars(&mut self, key: Vec<char>, arabic: Vec<char>)
        requires
            selection_count(old(self)@, key@, arabic@) < u32::MAX,
        ensures
            final(self)@ == with_selection(old(self)@, key@, arabic@),
    {
        proof {
            use_type_invariant(&*self);
        }
        let ghost old_view = self@;
        let ghost sv = selections_view(self.selections@);
        let ghost k = key@;
        let ghost av = arabic@;
        proof {
            lemma_assoc_map_dom(sv, k);
        }
        let mut entries: Vec<(Vec<char>, Vec<(Vec<char>, u32)>)> = Vec::new();
        std::mem::swap(&mut entries, &mut self.selections);
        assert(selections_view(entries@) == sv);
        match find_key(&entries, key.as_slice()) {
            Some(i) => {
                proof {
                    lemma_assoc_map_get(sv, i as int);
                }
                let ghost slot_before = entries@[i as int];
                let ghost before_remove = entries@;
                let slot = entries.remove(i);
                let slot_key = slot.0;
                let mut inner = slot.1;
                let ghost cv = counts_view(inner@);
                assert(cv == counts_view(slot_before.1@));
                assert(old_view[k] == assoc_map(cv));
                proof {
                    lemma_assoc_map_dom(cv, av);
                }
                match find_key(&inner, arabic.as_slice()) {
                    Some(j) => {
                        proof {
                            lemma_assoc_map_get(cv, j as int);
                            lemma_assoc_map_update(cv, j as int, (inner@[j as int].1 + 1) as u32);
                        }
                        let c = inner[j].1;
                        let name = crate::text::clone_chars(inner[j].0.as_slice());
                        inner.set(j, (name, c + 1));
                        assert(counts_view(inner@) =~= cv.update(j as int, (cv[j as int].0, (c + 1) as u32)));
                    },
                    None => {
                        proof {
                            assert forall|j: int| 0 <= j < cv.len() implies cv[j].0 != av by {
                                assert(cv[j].0 == inner@[j].0@);
                            }
                            lemma_assoc_map_push(cv, av, 1u32);
                        }
                        inner.push((arabic, 1));
                        assert(counts_view(inner@) =~= cv.push((av, 1u32)));
                    },
                }
                let ghost new_inner = assoc_map(counts_view(inner@));
                assert(new_inner == old_view[k].insert(av, (selection_count(old_view, k, av) + 1) as u32));
                proof {
                    lemma_assoc_map_update(sv, i as int, new_inner);
                }
                let ghost before_set = before_remove;
                entries.insert(i, (slot_key, inner));
                assert(entries@ =~= before_remove.update(i as int, (slot_key, inner)));
                assert(slot_before.0@ == k);
                assert(selections_view(entries@) =~= sv.update(i as int, (k, new_inner)));
                assert forall|q: int| 0 <= q < entries@.len() implies keys_distinct(#[trigger] counts_view(entries@[q].1@)) by {
                    if q != i {
                        assert(entries@[q] == before_set[q]);
                    }
                }
                self.selections = entries;
            },
            None => {
                proof {
                    assert forall|j: int| 0 <= j < sv.len() implies sv[j].0 != k by {
                        assert(sv[j].0 == entries@[j].0@);
                    }
                }
                let inner = vec![(arabic, 1u32)];
                let ghost iv = counts_view(inner@);
                assert(iv =~= seq![(av, 1u32)]);
                assert(assoc_map(iv) =~= Map::<Seq<char>, u32>::empty().insert(av, 1u32)) by {
                    assert(iv.drop_last() =~= Seq::<(Seq<char>, u32)>::empty());
                    assert(assoc_map(iv.drop_last()) =~= Map::<Seq<char>, u32>::empty());
                    assert(iv.last() == (av, 1u32));
                }
                proof {
                    lemma_assoc_map_push(sv, k, assoc_map(iv));
                }
                let ghost before_push = entries@;
                entries.push((key, inner));
                assert(selections_view(entries@) =~= sv.push((k, assoc_map(iv))));
                assert forall|q: int| 0 <= q < entries@.len() implies keys_distinct(#[trigger] counts_view(entries@[q].1@)) by {
                    if q < before_push.len() {
                        assert(entries@[q] == before_push[q]);
                    }
                }
                self.selections = entries;
            },
        }
    }

    /// The preferences as JSON text, for persistence.
    #[verifier::spinoff_prover]
    pub fn to_json(&self) -> (r: String)
        ensures
            r@ == preferences_json(self.entries()),
            entries_wf(self.entries()),
            self@ == entries_map(self.entries()),
            preferences_from_json(r@) == self@,
    {
        proof {
            use_type_invariant(self);
            self.lemma_entries();
        }
        let ghost ev = self.entries();
        let ghost parts = ev.map_values(|e: (Seq<char>, Seq<(Seq<char>, u32)>)| input_member(e));
        let mut out: Vec<char> = Vec::new();
        out.push('{');
        let n = self.selections.len();
        let mut i: usize = 0;
        assert(parts.take(0) =~= Seq::<Seq<char>>::empty());
        while i < n
            invariant
                i <= n,
                n == self.selections@.len(),
                ev == self.entries(),
                parts == ev.map_values(|e: (Seq<char>, Seq<(Seq<char>, u32)>)| input_member(e)),
                out@ == seq!['{'] + comma_list(parts.take(i as int)),
            decreases n - i,
        {
            let ghost before = out@;
            if i > 0 {
                out.push(',');
            }
            let entry = &self.selections[i];
            push_json_string(&mut out, entry.0.as_slice());
            out.push(':');
            push_counts_json(&mut out, &entry.1);
            proof {
                assert(ev[i as int] == (entry.0@, counts_view(entry.1@)));
                assert(parts.take(i + 1) =~= parts.take(i as int).push(parts[i as int]));
                lemma_comma_list_push(parts.take(i as int), parts[i as int]);
                if i > 0 {
                    assert(out@ =~= before + seq![','] + input_member(ev[i as int]));
                } else {
                    assert(out@ =~= before + input_member(ev[i as int]));
                }
            }
            i = i + 1;
        }
        assert(parts.take(n as int) =~= parts);
        out.push('}');
        let r = string_from_chars(out.as_slice());
        proof {
            lemma_json_roundtrip(ev);
        }
        r
    }

    /// The stored entries are well formed and stand for the view.
    proof fn lemma_entries(&self)
        requires
            keys_distinct(selections_view(self.selections@)),
            forall|i: int| 0 <= i < self.selections@.len() ==> keys_distinct(#[trigger] counts_view(self.selections@[i].1@)),
        ensures
            entries_wf(self.entries()),
            self@ == entries_map(self.entries()),
    {
        let ev = self.entries();
        assert(selections_view(self.selections@) =~= ev.map_values(
            |e: (Seq<char>, Seq<(Seq<char>, u32)>)| (e.0, assoc_map(e.1)),
        ));
        assert forall|i: int, j: int| 0 <= i < j < ev.len() implies ev[i].0 != ev[j].0 by {
            assert(ev[i].0 == selections_view(self.selections@)[i].0);
            assert(ev[j].0 == selections_view(self.selections@)[j].0);
        }
        assert forall|i: int| 0 <= i < ev.len() implies keys_distinct(#[trigger] ev[i].1) by {
            assert(ev[i].1 == counts_view(self.selections@[i].1@));
        }
    }

    /// Reads preferences from JSON text written by `to_json`; text that is
    /// not such an object gives no preferences.
    pub fn from_json(json: &str) -> (p: Self)
        ensures
            p@ == preferences_from_json(json@),
    {
        let mut prefs = Self::new();
        let chars = chars_of(json);
        let t = trim_chars(chars.as_slice());
        if t.len() < 2 || t[0] != '{' {
            return prefs;
        }
        match parse_nested_map(t.as_slice()) {
            Ok(parsed) => {
                prefs = UserPreferences { selections: parsed };
            },
            Err(_) => {},
        }
        prefs
    }

    /// How many times `arabic` was chosen for `input` (compared lowercased).
    pub fn score(&self, input: &str, arabic: &str) -> (r: u32)
        ensures
            r == selection_count(self@, lowercase(input@), arabic@),
            is_ascii_text(input@) ==> r == selection_count(self@, ascii_lowercase(input@), arabic@),
    {
        proof {
            use_type_invariant(self);
        }
        let key = lowercase_of_str(input);
        let a = chars_of(arabic);
        self.count_of(key.as_slice(), a.as_slice())
    }

    /// How many times `arabic` was chosen for the lowercased input `key`.
    pub fn count_of(&self, key: &[char], arabic: &[char]) -> (r: u32)
        ensures
            r == selection_count(self@, key@, arabic@),
    {
        proof {
            use_type_invariant(self);
        }
        let ghost sv = selections_view(self.selections@);
        proof {
            lemma_assoc_map_dom(sv, key@);
        }
        match find_key(&self.selections, key) {
            Some(i) => {
                proof {
                    lemma_assoc_map_get(sv, i as int);
                    assert(sv[i as int].0 == key@);
                }
                let inner = &self.selections[i].1;
                let ghost cv = counts_view(inner@);
                proof {
                    assert(keys_distinct(counts_view(self.selections@[i as int].1@)));
                    lemma_assoc_map_dom(cv, arabic@);
                }
                match find_key(inner, arabic) {
                    Some(j) => {
                        proof {
                            lemma_assoc_map_get(cv, j as int);
                            assert(cv[j as int].0 == arabic@);
                        }
                        inner[j].1
                    },
                    None => {
                        proof {
                            assert forall|j: int| 0 <= j < cv.len() implies cv[j].0 != arabic@ by {
                                assert(cv[j].0 == inner@[j].0@);
                            }
                        }
                        0
                    },
                }
            },
            None => {
                proof {
                    assert forall|j: int| 0 <= j < sv.len() implies sv[j].0 != key@ by {
                        assert(sv[j].0 == self.selections@[j].0@);
                    }
                }
                0
            },
        }
    }
}

impl Default for UserPreferences {
    /// No preferences recorded.
    fn default() -> (p: Self)
        ensures
            p@ == Map::<Seq<char>, Map<Seq<char>, u32>>::empty(),
    {
        Self::new()
    }
}

impl Clone for UserPreferences {
    /// A copy with the same selections.
    fn clone(&self) -> (p: Self)
        ensures
            p@ == self@,
    {
        proof {
            use_type_invariant(self);
        }
        let n = self.selections.len();
        let mut out: Vec<(Vec<char>, Vec<(Vec<char>, u32)>)> = Vec::new();
        let mut i: usize = 0;
        while i < n
            invariant
                i <= n,
                n == self.selections@.len(),
                out@.len() == i,
                forall|j: int| 0 <= j < i ==> (#[trigger] out@[j]).0@ == self.selections@[j].0@ && counts_view(out@[j].1@)
                    == counts_view(self.selections@[j].1@),
            decreases n - i,
        {
            let entry = &self.selections[i];
            let key = crate::text::clone_chars(entry.0.as_slice());
            let m = entry.1.len();
            let mut counts: Vec<(Vec<char>, u32)> = Vec::new();
            let mut j: usize = 0;
            while j < m
                invariant
                    j <= m,
                    m == entry.1@.len(),
                    counts_view(counts@) == counts_view(entry.1@).take(j as int),
                    counts@.len() == j,
                decreases m - j,
            {
                let name = crate::text::clone_chars(entry.1[j].0.as_slice());
                let ghost prev = counts@;
                counts.push((name, entry.1[j].1));
                assert(counts_view(counts@) =~= counts_view(entry.1@).take(j + 1));
                j = j + 1;
            }
            assert(counts_view(entry.1@).take(m as int) =~= counts_view(entry.1@));
            out.push((key, counts));
            i = i + 1;
        }
        assert(selections_view(out@) =~= selections_view(self.selections@));
        assert forall|q: int| 0 <= q < out@.len() implies keys_distinct(#[trigger] counts_view(out@[q].1@)) by {
            assert(counts_view(out@[q].1@) == counts_view(self.selections@[q].1@));
        }
        UserPreferences { selections: out }
    }
}

impl View for UserPreferences {
    type V = Map<Seq<char>, Map<Seq<char>, u32>>;

    closed spec fn view(&self) -> Map<Seq<char>, Map<Seq<char>, u32>> {
        assoc_map(selections_view(self.selections@))
    }
}


/// Appends the JSON string literal of `text`.
fn push_json_string(out: &mut Vec<char>, text: &[char])
    ensures
        final(out)@ == old(out)@ + json_string(text@),
{
    let ghost start = out@;
    out.push('"');
    let esc = json_escape(text);
    append_chars(out, esc.as_slice());
    out.push('"');
    assert(out@ =~= start + json_string(text@));
}

/// The escaped text of a string (backslash, quote, line feed, carriage
/// return and tab escaped).
fn json_escape(s: &[char]) -> (r: Vec<char>)
    ensures
        r@ == json_escaped(s@),
{
    let ghost sv = s@;
    let n = s.len();
    let mut r: Vec<char> = Vec::new();
    let mut i: usize = 0;
    assert(sv.take(0).flat_map(|c: char| escape_char(c)) =~= Seq::<char>::empty());
    while i < n
        invariant
            i <= n,
            n == s@.len(),
            sv == s@,
            r@ == sv.take(i as int).flat_map(|c: char| escape_char(c)),
        decreases n - i,
    {
        proof {
            sv.lemma_flat_map_take_append(|c: char| escape_char(c), i as int);
        }
        let c = s[i];
        let ghost before = r@;
        if c == '\\' {
            r.push('\\');
            r.push('\\');
        } else if c == '"' {
            r.push('\\');
            r.push('"');
        } else if c == '\n' {
            r.push('\\');
            r.push('n');
        } else if c == '\r' {
            r.push('\\');
            r.push('r');
        } else if c == '\t' {
            r.push('\\');
            r.push('t');
        } else {
            r.push(c);
        }
        assert(r@ =~= before + escape_char(c));
        i = i + 1;
    }
    assert(sv.take(n as int) =~= sv);
    r
}

/// Appends the JSON object of one input's selection counts.
fn push_counts_json(out: &mut Vec<char>, counts: &Vec<(Vec<char>, u32)>)
    ensures
        final(out)@ == old(out)@ + counts_json(counts_view(counts@)),
{
    let ghost start = out@;
    let ghost cv = counts_view(counts@);
    let ghost parts = cv.map_values(|e: (Seq<char>, u32)| count_member(e));
    out.push('{');
    let n = counts.len();
    let mut i: usize = 0;
    assert(parts.take(0) =~= Seq::<Seq<char>>::empty());
    while i < n
        invariant
            i <= n,
            n == counts@.len(),
            cv == counts_view(counts@),
            parts == cv.map_values(|e: (Seq<char>, u32)| count_member(e)),
            out@ == start + seq!['{'] + comma_list(parts.take(i as int)),
        decreases n - i,
    {
        let ghost before = out@;
        if i > 0 {
            out.push(',');
        }
        let entry = &counts[i];
        push_json_string(out, entry.0.as_slice());
        out.push(':');
        let digits = u64_to_decimal(entry.1 as u64);
        append_chars(out, digits.as_slice());
        proof {
            assert(cv[i as int] == (entry.0@, entry.1));
            assert(parts.take(i + 1) =~= parts.take(i as int).push(parts[i as int]));
            lemma_comma_list_push(parts.take(i as int), parts[i as int]);
            if i > 0 {
                assert(out@ =~= before + seq![','] + count_member(cv[i as int]));
            } else {
                assert(out@ =~= before + count_member(cv[i as int]));
            }
        }
        i = i + 1;
    }
    assert(parts.take(n as int) =~= parts);
    out.push('}');
    assert(out@ =~= start + counts_json(cv));
}


/// The position of the first non-white-space character at or after `pos`.
fn skip_ws(bytes: &[char], pos: usize) -> (r: usize)
    requires
        pos <= bytes@.len(),
    ensures
        r == skip_ws_from(bytes@, pos as int),
        pos <= r <= bytes@.len(),
{
    let mut p = pos;
    while p < bytes.len() && (bytes[p] == ' ' || bytes[p] == '\t' || bytes[p] == '\n' || bytes[p] == '\u{c}' || bytes[p] == '\r')
        invariant
            pos <= p <= bytes@.len(),
            skip_ws_from(bytes@, pos as int) == skip_ws_from(bytes@, p as int),
        decreases bytes@.len() - p,
    {
        p = p + 1;
    }
    p
}

/// Reads the string literal at `pos`; gives its text and the position after
/// it.
fn parse_string(bytes: &[char], pos: usize) -> (r: Result<(Vec<char>, usize), ()>)
    requires
        pos <= bytes@.len(),
    ensures
        match r {
            Ok((v, p)) => string_at(bytes@, pos as int) == Some((v@, p as int)),
            Err(_) => string_at(bytes@, pos as int) is None,
        },
{
    let len = bytes.len();
    if pos >= len || bytes[pos] != '"' {
        return Err(());
    }
    let mut p = pos + 1;
    let mut s: Vec<char> = Vec::new();
    while p < len
        invariant
            pos < p <= len,
            len == bytes@.len(),
            string_at(bytes@, pos as int) == string_rest(bytes@, p as int, s@),
        decreases len - p,
    {
        if bytes[p] == '\\' && p + 1 < len {
            let e = bytes[p + 1];
            if e == '"' {
                s.push('"');
                p = p + 2;
            } else if e == '\\' {
                s.push('\\');
                p = p + 2;
            } else if e == 'n' {
                s.push('\n');
                p = p + 2;
            } else if e == 'r' {
                s.push('\r');
                p = p + 2;
            } else if e == 't' {
                s.push('\t');
                p = p + 2;
            } else {
                s.push(bytes[p]);
                p = p + 1;
            }
        } else if bytes[p] == '"' {
            return Ok((s, p + 1));
        } else {
            s.push(bytes[p]);
            p = p + 1;
        }
    }
    Err(())
}

/// Reads the number at `pos`; gives it and the position after it.
fn parse_number(bytes: &[char], pos: usize) -> (r: Result<(u32, usize), ()>)
    requires
        pos <= bytes@.len(),
    ensures
        match r {
            Ok((n, p)) => number_at(bytes@, pos as int) == Some((n, p as int)),
            Err(_) => number_at(bytes@, pos as int) is None,
        },
{
    let start = pos;
    let mut p = pos;
    while p < bytes.len() && '0' <= bytes[p] && bytes[p] <= '9'
        invariant
            start <= p <= bytes@.len(),
            digits_end(bytes@, start as int) == digits_end(bytes@, p as int),
        decreases bytes@.len() - p,
    {
        p = p + 1;
    }
    if p == start {
        return Err(());
    }
    let mut digits: Vec<char> = Vec::new();
    let mut i = start;
    while i < p
        invariant
            start <= i <= p <= bytes@.len(),
            digits@ == bytes@.subrange(start as int, i as int),
        decreases p - i,
    {
        digits.push(bytes[i]);
        i = i + 1;
    }
    match parse_u32_chars(digits.as_slice()) {
        Some(n) => Ok((n, p)),
        None => Err(()),
    }
}

/// Sets the counts of `key`, replacing earlier ones.
fn set_counts(v: &mut Vec<(Vec<char>, Vec<(Vec<char>, u32)>)>, key: Vec<char>, counts: Vec<(Vec<char>, u32)>)
    requires
        keys_distinct(selections_view(old(v)@)),
        forall|i: int| 0 <= i < old(v)@.len() ==> keys_distinct(#[trigger] counts_view(old(v)@[i].1@)),
        keys_distinct(counts_view(counts@)),
    ensures
        keys_distinct(selections_view(final(v)@)),
        forall|i: int| 0 <= i < final(v)@.len() ==> keys_distinct(#[trigger] counts_view(final(v)@[i].1@)),
        assoc_map(selections_view(final(v)@)) == assoc_map(selections_view(old(v)@)).insert(
            key@,
            assoc_map(counts_view(counts@)),
        ),
{
    let ghost before = selections_view(v@);
    let ghost old_v = v@;
    let ghost k = key@;
    let ghost m = assoc_map(counts_view(counts@));
    match find_key(v, key.as_slice()) {
        Some(i) => {
            proof {
                lemma_assoc_map_update(before, i as int, m);
            }
            let ghost c = counts;
            v.set(i, (key, counts));
            assert(selections_view(v@) =~= before.update(i as int, (k, m)));
            assert forall|j: int| 0 <= j < v@.len() implies keys_distinct(#[trigger] counts_view(v@[j].1@)) by {
                if j != i {
                    assert(v@[j] == old_v[j]);
                }
            }
        },
        None => {
            proof {
                assert forall|j: int| 0 <= j < before.len() implies before[j].0 != k by {
                    assert(before[j].0 == v@[j].0@);
                }
                lemma_assoc_map_push(before, k, m);
            }
            v.push((key, counts));
            assert(selections_view(v@) =~= before.push((k, m)));
            assert forall|j: int| 0 <= j < v@.len() implies keys_distinct(#[trigger] counts_view(v@[j].1@)) by {
                if j < old_v.len() {
                    assert(v@[j] == old_v[j]);
                }
            }
        },
    }
}

/// Reads the members of an object of counts from `pos` on (after its
/// `{`); gives them and the position after the closing `}`.
fn parse_counts(bytes: &[char], pos: usize) -> (r: Result<(Vec<(Vec<char>, u32)>, usize), ()>)
    requires
        pos <= bytes@.len(),
    ensures
        match r {
            Ok((v, p)) => counts_from(bytes@, pos as int, Map::empty()) == Some((assoc_map(counts_view(v@)), p as int))
                && keys_distinct(counts_view(v@)),
            Err(_) => counts_from(bytes@, pos as int, Map::empty()) is None,
        },
{
    let ghost s = bytes@;
    let len = bytes.len();
    let mut inner: Vec<(Vec<char>, u32)> = Vec::new();
    let mut p = pos;
    assert(counts_view(inner@) =~= Seq::empty());
    assert(plain_view(inner@) =~= Seq::empty());
    loop
        invariant
            p <= len,
            len == s.len(),
            s == bytes@,
            keys_distinct(plain_view(inner@)),
            counts_view(inner@) == plain_view(inner@),
            counts_from(s, pos as int, Map::empty()) == counts_from(s, p as int, assoc_map(counts_view(inner@))),
        decreases len - p,
    {
        let ghost acc = assoc_map(counts_view(inner@));
        let ghost p0 = p;
        p = skip_ws(bytes, p);
        if p >= len {
            return Err(());
        }
        if bytes[p] == '}' {
            return Ok((inner, p + 1));
        }
        if bytes[p] == ',' {
            p = p + 1;
            p = skip_ws(bytes, p);
        }
        let (ikey, new_pos) = match parse_string(bytes, p) {
            Ok(x) => x,
            Err(_) => {
                return Err(());
            },
        };
        proof {
            lemma_string_rest(s, p + 1, Seq::empty());
        }
        p = skip_ws(bytes, new_pos);
        if p >= len || bytes[p] != ':' {
            return Err(());
        }
        p = p + 1;
        p = skip_ws(bytes, p);
        let (num, new_pos) = match parse_number(bytes, p) {
            Ok(x) => x,
            Err(_) => {
                return Err(());
            },
        };
        proof {
            lemma_digits_end(s, p as int);
        }
        p = new_pos;
        let ghost kv = ikey@;
        assoc_insert(&mut inner, ikey, num);
        assert(counts_view(inner@) =~= plain_view(inner@));
        assert(assoc_map(counts_view(inner@)) == acc.insert(kv, num));
        assert(p > p0);
    }
}

/// Reads `{"key":{"key2":num,...},...}`; gives the entries.
fn parse_nested_map(json: &[char]) -> (r: Result<Vec<(Vec<char>, Vec<(Vec<char>, u32)>)>, ()>)
    ensures
        match r {
            Ok(v) => nested_map(json@) == Some(assoc_map(selections_view(v@))) && keys_distinct(
                selections_view(v@),
            ) && forall|i: int| 0 <= i < v@.len() ==> keys_distinct(#[trigger] counts_view(v@[i].1@)),
            Err(_) => nested_map(json@) is None,
        },
{
    let ghost s = json@;
    let len = json.len();
    let mut pos = skip_ws(json, 0);
    if pos >= len || json[pos] != '{' {
        return Err(());
    }
    pos = pos + 1;
    let mut result: Vec<(Vec<char>, Vec<(Vec<char>, u32)>)> = Vec::new();
    assert(selections_view(result@) =~= Seq::empty());
    loop
        invariant
            pos <= len,
            len == s.len(),
            s == json@,
            keys_distinct(selections_view(result@)),
            forall|i: int| 0 <= i < result@.len() ==> keys_distinct(#[trigger] counts_view(result@[i].1@)),
            nested_map(s) == entries_from(s, pos as int, assoc_map(selections_view(result@))),
        decreases len - pos,
    {
        let ghost acc = assoc_map(selections_view(result@));
        let ghost p0 = pos;
        pos = skip_ws(json, pos);
        if pos >= len {
            return Err(());
        }
        if json[pos] == '}' {
            return Ok(result);
        }
        if json[pos] == ',' {
            pos = pos + 1;
            pos = skip_ws(json, pos);
        }
        let (key, new_pos) = match parse_string(json, pos) {
            Ok(x) => x,
            Err(_) => {
                return Err(());
            },
        };
        proof {
            lemma_string_rest(s, pos + 1, Seq::empty());
        }
        pos = skip_ws(json, new_pos);
        if pos >= len || json[pos] != ':' {
            return Err(());
        }
        pos = pos + 1;
        pos = skip_ws(json, pos);
        if pos >= len || json[pos] != '{' {
            return Err(());
        }
        pos = pos + 1;
        let (inner, new_pos) = match parse_counts(json, pos) {
            Ok(x) => x,
            Err(_) => {
                return Err(());
            },
        };
        proof {
            lemma_counts_from_advances(s, pos as int, Map::empty());
        }
        pos = new_pos;
        let ghost kv = key@;
        let ghost im = assoc_map(counts_view(inner@));
        set_counts(&mut result, key, inner);
        assert(assoc_map(selections_view(result@)) == acc.insert(kv, im));
        assert(pos > p0);
    }
}


/// A text that occurs at `pos` and is the concatenation of two parts has
/// the first part at `pos` and the second right after it.
proof fn lemma_occurs_split(s: Seq<char>, pos: int, a: Seq<char>, b: Seq<char>)
    requires
        occurs_at(s, pos, a + b),
    ensures
        occurs_at(s, pos, a),
        occurs_at(s, pos + a.len(), b),
{
    let t = s.subrange(pos, pos + (a + b).len());
    assert(t == a + b);
    assert(s.subrange(pos, pos + a.len()) =~= t.subrange(0, a.len() as int));
    assert(t.subrange(0, a.len() as int) =~= a);
    assert(s.subrange(pos + a.len(), pos + a.len() + b.len()) =~= t.subrange(a.len() as int, t.len() as int));
    assert(t.subrange(a.len() as int, t.len() as int) =~= b);
}

/// The characters of a text that occurs at `pos`.
proof fn lemma_occurs_char(s: Seq<char>, pos: int, t: Seq<char>, i: int)
    requires
        occurs_at(s, pos, t),
        0 <= i < t.len(),
    ensures
        s[pos + i] == t[i],
{
    assert(s.subrange(pos, pos + t.len())[i] == t[i]);
}

/// A flat map of a non-empty sequence starts with the image of its first
/// element.
proof fn lemma_flat_map_first<A, B>(s: Seq<A>, f: spec_fn(A) -> Seq<B>)
    requires
        s.len() > 0,
    ensures
        s.flat_map(f) == f(s[0]) + s.drop_first().flat_map(f),
{
    assert(s.map_values(f).drop_first() =~= s.drop_first().map_values(f));
}

/// Inserting the entries of a list one after the other, from the front.
pub open spec fn insert_all<V>(acc: Map<Seq<char>, V>, s: Seq<(Seq<char>, V)>) -> Map<Seq<char>, V>
    decreases s.len(),
{
    if s.len() == 0 {
        acc
    } else {
        insert_all(acc.insert(s[0].0, s[0].1), s.drop_first())
    }
}

/// With distinct keys, the map of a list is that of its tail with its
/// first entry added.
proof fn lemma_assoc_map_first<V>(s: Seq<(Seq<char>, V)>)
    requires
        keys_distinct(s),
        s.len() > 0,
    ensures
        assoc_map(s) == assoc_map(s.drop_first()).insert(s[0].0, s[0].1),
{
    let t = s.drop_first();
    assert(keys_distinct(t)) by {
        assert forall|i: int, j: int| 0 <= i < j < t.len() implies t[i].0 != t[j].0 by {
            assert(t[i] == s[i + 1] && t[j] == s[j + 1]);
        }
    }
    let lhs = assoc_map(s);
    let rhs = assoc_map(t).insert(s[0].0, s[0].1);
    assert forall|k: Seq<char>| #[trigger] lhs.contains_key(k) <==> rhs.contains_key(k) by {
        lemma_assoc_map_dom(s, k);
        lemma_assoc_map_dom(t, k);
        if exists|i: int| 0 <= i < s.len() && s[i].0 == k {
            let i = choose|i: int| 0 <= i < s.len() && s[i].0 == k;
            if i > 0 {
                assert(t[i - 1].0 == k);
            }
        }
        if exists|i: int| 0 <= i < t.len() && t[i].0 == k {
            let i = choose|i: int| 0 <= i < t.len() && t[i].0 == k;
            assert(s[i + 1].0 == k);
        }
    }
    assert forall|k: Seq<char>| #[trigger] lhs.contains_key(k) implies lhs[k] == rhs[k] by {
        lemma_assoc_map_dom(s, k);
        let i = choose|i: int| 0 <= i < s.len() && s[i].0 == k;
        lemma_assoc_map_get(s, i);
        if i > 0 {
            assert(t[i - 1] == s[i]);
            lemma_assoc_map_get(t, i - 1);
        }
    }
    assert(lhs =~= rhs);
}

/// With distinct keys, inserting the entries from the front adds the map of
/// the list.
proof fn lemma_insert_all<V>(acc: Map<Seq<char>, V>, s: Seq<(Seq<char>, V)>)
    requires
        keys_distinct(s),
    ensures
        insert_all(acc, s) == acc.union_prefer_right(assoc_map(s)),
    decreases s.len(),
{
    if s.len() == 0 {
        assert(acc.union_prefer_right(assoc_map(s)) =~= acc);
    } else {
        let t = s.drop_first();
        lemma_assoc_map_first(s);
        assert(keys_distinct(t)) by {
            assert forall|i: int, j: int| 0 <= i < j < t.len() implies t[i].0 != t[j].0 by {
                assert(t[i] == s[i + 1] && t[j] == s[j + 1]);
            }
        }
        lemma_insert_all(acc.insert(s[0].0, s[0].1), t);
        lemma_assoc_map_dom(t, s[0].0);
        assert forall|j: int| 0 <= j < t.len() implies t[j].0 != s[0].0 by {
            assert(t[j] == s[j + 1]);
        }
        assert(acc.insert(s[0].0, s[0].1).union_prefer_right(assoc_map(t)) =~= acc.union_prefer_right(
            assoc_map(t).insert(s[0].0, s[0].1),
        ));
    }
}

/// The white-space skip stops at once on other characters.
proof fn lemma_skip_none(s: Seq<char>, pos: int)
    requires
        0 <= pos < s.len(),
        !is_json_ws(s[pos]),
    ensures
        skip_ws_from(s, pos) == pos,
{
}

/// Reading an escaped text followed by a quote gives the text back.
proof fn lemma_string_rest_escaped(s: Seq<char>, pos: int, acc: Seq<char>, y: Seq<char>)
    requires
        occurs_at(s, pos, json_escaped(y) + seq!['"']),
    ensures
        string_rest(s, pos, acc) == Some((acc + y, pos + json_escaped(y).len() + 1)),
    decreases y.len(),
{
    let f = |c: char| escape_char(c);
    if y.len() == 0 {
        assert(json_escaped(y) =~= Seq::<char>::empty());
        lemma_occurs_char(s, pos, json_escaped(y) + seq!['"'], 0);
        assert(acc + y =~= acc);
    } else {
        lemma_flat_map_first(y, f);
        let c = y[0];
        let rest = y.drop_first();
        assert(json_escaped(y) + seq!['"'] =~= escape_char(c) + (json_escaped(rest) + seq!['"']));
        lemma_occurs_split(s, pos, escape_char(c), json_escaped(rest) + seq!['"']);
        let n = escape_char(c).len();
        lemma_string_rest_escaped(s, pos + n, acc.push(c), rest);
        assert(acc.push(c) + rest =~= acc + y);
        lemma_occurs_char(s, pos, escape_char(c), 0);
        if n == 2 {
            lemma_occurs_char(s, pos, escape_char(c), 1);
        }
        if json_escaped(rest).len() > 0 || true {
            lemma_occurs_char(s, pos + n, json_escaped(rest) + seq!['"'], 0);
        }
    }
}

/// Reading a string literal written by `to_json` gives its text back.
proof fn lemma_string_at_json(s: Seq<char>, pos: int, x: Seq<char>)
    requires
        occurs_at(s, pos, json_string(x)),
    ensures
        string_at(s, pos) == Some((x, pos + json_string(x).len())),
{
    assert(json_string(x) =~= seq!['"'] + (json_escaped(x) + seq!['"']));
    lemma_occurs_split(s, pos, seq!['"'], json_escaped(x) + seq!['"']);
    lemma_occurs_char(s, pos, seq!['"'], 0);
    lemma_string_rest_escaped(s, pos + 1, Seq::empty(), x);
    assert(Seq::<char>::empty() + x =~= x);
}

/// The digit run of a decimal number followed by a non-digit.
proof fn lemma_digits_end_at(s: Seq<char>, pos: int, k: int)
    requires
        0 <= pos,
        pos + k <= s.len(),
        0 <= k,
        forall|i: int| pos <= i < pos + k ==> is_digit(s[i]),
        pos + k == s.len() || !is_digit(s[pos + k]),
    ensures
        digits_end(s, pos) == pos + k,
    decreases k,
{
    if k > 0 {
        lemma_digits_end_at(s, pos + 1, k - 1);
    }
}

/// Reading a number written by `to_json` gives it back.
proof fn lemma_number_at_decimal(s: Seq<char>, pos: int, n: u32)
    requires
        occurs_at(s, pos, decimal(n as nat)),
        pos + decimal(n as nat).len() == s.len() || !is_digit(s[pos + decimal(n as nat).len()]),
    ensures
        number_at(s, pos) == Some((n, pos + decimal(n as nat).len())),
{
    let d = decimal(n as nat);
    lemma_decimal_value(n as nat);
    lemma_parse_decimal(n);
    assert forall|i: int| pos <= i < pos + d.len() implies is_digit(s[i]) by {
        lemma_occurs_char(s, pos, d, i - pos);
    }
    lemma_digits_end_at(s, pos, d.len() as int);
}


/// The members of an object of counts after the first, each after a comma.
pub open spec fn counts_tail(c: Seq<(Seq<char>, u32)>) -> Seq<char> {
    c.map_values(|e: (Seq<char>, u32)| count_member(e)).flat_map(|p: Seq<char>| seq![','] + p)
}

/// The members of the outer object after the first, each after a comma.
pub open spec fn inputs_tail(e: Seq<(Seq<char>, Seq<(Seq<char>, u32)>)>) -> Seq<char> {
    e.map_values(|x: (Seq<char>, Seq<(Seq<char>, u32)>)| input_member(x)).flat_map(|p: Seq<char>| seq![','] + p)
}

/// Reading one count member, after a comma or not.
proof fn lemma_count_member(s: Seq<char>, pos: int, acc: Map<Seq<char>, u32>, e: (Seq<char>, u32), comma: bool)
    requires
        occurs_at(s, pos, (if comma { seq![','] } else { Seq::empty() }) + count_member(e)),
        pos + (if comma { 1int } else { 0int }) + count_member(e).len() < s.len(),
        !is_digit(s[pos + (if comma { 1int } else { 0int }) + count_member(e).len()]),
    ensures
        counts_from(s, pos, acc) == counts_from(
            s,
            pos + (if comma { 1int } else { 0int }) + count_member(e).len(),
            acc.insert(e.0, e.1),
        ),
{
    let pre: Seq<char> = if comma { seq![','] } else { Seq::empty() };
    let m = count_member(e);
    let js = json_string(e.0);
    let d = decimal(e.1 as nat);
    lemma_occurs_split(s, pos, pre, m);
    let p2 = pos + pre.len();
    assert(m =~= js + (seq![':'] + d));
    lemma_occurs_split(s, p2, js, seq![':'] + d);
    lemma_occurs_split(s, p2 + js.len(), seq![':'], d);
    lemma_occurs_char(s, p2, js, 0);
    lemma_string_at_json(s, p2, e.0);
    let p3 = p2 + js.len();
    lemma_occurs_char(s, p3, seq![':'], 0);
    lemma_decimal_value(e.1 as nat);
    lemma_occurs_char(s, p3 + 1, d, 0);
    lemma_number_at_decimal(s, p3 + 1, e.1);
    if comma {
        lemma_occurs_char(s, pos, pre, 0);
        lemma_skip_none(s, pos);
        lemma_skip_none(s, pos + 1);
    } else {
        lemma_skip_none(s, pos);
    }
    lemma_skip_none(s, p3);
    lemma_skip_none(s, p3 + 1);
}

/// Reading the rest of an object of counts written by `to_json`.
proof fn lemma_counts_tail(s: Seq<char>, pos: int, acc: Map<Seq<char>, u32>, c: Seq<(Seq<char>, u32)>)
    requires
        occurs_at(s, pos, counts_tail(c) + seq!['}']),
    ensures
        counts_from(s, pos, acc) == Some((insert_all(acc, c), pos + counts_tail(c).len() + 1)),
    decreases c.len(),
{
    let f = |p: Seq<char>| seq![','] + p;
    let parts = c.map_values(|e: (Seq<char>, u32)| count_member(e));
    if c.len() == 0 {
        assert(counts_tail(c) =~= Seq::<char>::empty());
        lemma_occurs_char(s, pos, counts_tail(c) + seq!['}'], 0);
        lemma_skip_none(s, pos);
    } else {
        lemma_flat_map_first(parts, f);
        let rest = c.drop_first();
        assert(parts.drop_first() =~= rest.map_values(|e: (Seq<char>, u32)| count_member(e)));
        let m = count_member(c[0]);
        assert(counts_tail(c) + seq!['}'] =~= (seq![','] + m) + (counts_tail(rest) + seq!['}']));
        lemma_occurs_split(s, pos, seq![','] + m, counts_tail(rest) + seq!['}']);
        let next = pos + 1 + m.len();
        lemma_occurs_char(s, next, counts_tail(rest) + seq!['}'], 0);
        if rest.len() > 0 {
            lemma_flat_map_first(parts.drop_first(), f);
        } else {
            assert(counts_tail(rest) =~= Seq::<char>::empty());
        }
        lemma_count_member(s, pos, acc, c[0], true);
        lemma_counts_tail(s, next, acc.insert(c[0].0, c[0].1), rest);
    }
}

/// Reading an object of counts written by `to_json`, from after its `{`.
proof fn lemma_counts_full(s: Seq<char>, pos: int, acc: Map<Seq<char>, u32>, c: Seq<(Seq<char>, u32)>)
    requires
        occurs_at(s, pos, comma_list(c.map_values(|e: (Seq<char>, u32)| count_member(e))) + seq!['}']),
    ensures
        counts_from(s, pos, acc) == Some((
            insert_all(acc, c),
            pos + comma_list(c.map_values(|e: (Seq<char>, u32)| count_member(e))).len() + 1,
        )),
{
    let parts = c.map_values(|e: (Seq<char>, u32)| count_member(e));
    if c.len() == 0 {
        assert(comma_list(parts) =~= counts_tail(c));
        lemma_counts_tail(s, pos, acc, c);
    } else {
        let rest = c.drop_first();
        assert(parts.drop_first() =~= rest.map_values(|e: (Seq<char>, u32)| count_member(e)));
        let m = count_member(c[0]);
        assert(comma_list(parts) + seq!['}'] =~= (Seq::<char>::empty() + m) + (counts_tail(rest) + seq!['}']));
        lemma_occurs_split(s, pos, Seq::<char>::empty() + m, counts_tail(rest) + seq!['}']);
        let next = pos + m.len();
        lemma_occurs_char(s, next, counts_tail(rest) + seq!['}'], 0);
        if rest.len() > 0 {
            lemma_flat_map_first(parts.drop_first(), |p: Seq<char>| seq![','] + p);
        } else {
            assert(counts_tail(rest) =~= Seq::<char>::empty());
        }
        lemma_count_member(s, pos, acc, c[0], false);
        lemma_counts_tail(s, next, acc.insert(c[0].0, c[0].1), rest);
    }
}

/// The parsed form of one outer entry: its counts inserted from the front.
pub open spec fn parsed_entry(e: (Seq<char>, Seq<(Seq<char>, u32)>)) -> (Seq<char>, Map<Seq<char>, u32>) {
    (e.0, insert_all(Map::empty(), e.1))
}

/// Reading one outer member, after a comma or not.
proof fn lemma_input_member(
    s: Seq<char>,
    pos: int,
    acc: Map<Seq<char>, Map<Seq<char>, u32>>,
    e: (Seq<char>, Seq<(Seq<char>, u32)>),
    comma: bool,
)
    requires
        occurs_at(s, pos, (if comma { seq![','] } else { Seq::empty() }) + input_member(e)),
    ensures
        entries_from(s, pos, acc) == entries_from(
            s,
            pos + (if comma { 1int } else { 0int }) + input_member(e).len(),
            acc.insert(e.0, insert_all(Map::empty(), e.1)),
        ),
{
    let pre: Seq<char> = if comma { seq![','] } else { Seq::empty() };
    let m = input_member(e);
    let js = json_string(e.0);
    let body = comma_list(e.1.map_values(|x: (Seq<char>, u32)| count_member(x))) + seq!['}'];
    lemma_occurs_split(s, pos, pre, m);
    let p2 = pos + pre.len();
    assert(m =~= js + (seq![':'] + (seq!['{'] + body)));
    lemma_occurs_split(s, p2, js, seq![':'] + (seq!['{'] + body));
    let p3 = p2 + js.len();
    lemma_occurs_split(s, p3, seq![':'], seq!['{'] + body);
    lemma_occurs_split(s, p3 + 1, seq!['{'], body);
    lemma_occurs_char(s, p2, js, 0);
    lemma_string_at_json(s, p2, e.0);
    lemma_occurs_char(s, p3, seq![':'], 0);
    lemma_occurs_char(s, p3 + 1, seq!['{'], 0);
    lemma_counts_full(s, p3 + 2, Map::empty(), e.1);
    if comma {
        lemma_occurs_char(s, pos, pre, 0);
        lemma_skip_none(s, pos);
        lemma_skip_none(s, pos + 1);
    } else {
        lemma_skip_none(s, pos);
    }
    lemma_skip_none(s, p3);
    lemma_skip_none(s, p3 + 1);
}

/// Reading the rest of the outer object written by `to_json`.
proof fn lemma_inputs_tail(
    s: Seq<char>,
    pos: int,
    acc: Map<Seq<char>, Map<Seq<char>, u32>>,
    e: Seq<(Seq<char>, Seq<(Seq<char>, u32)>)>,
)
    requires
        occurs_at(s, pos, inputs_tail(e) + seq!['}']),
    ensures
        entries_from(s, pos, acc) == Some(insert_all(acc, e.map_values(|x: (Seq<char>, Seq<(Seq<char>, u32)>)| parsed_entry(x)))),
    decreases e.len(),
{
    let f = |p: Seq<char>| seq![','] + p;
    let g = |x: (Seq<char>, Seq<(Seq<char>, u32)>)| parsed_entry(x);
    let parts = e.map_values(|x: (Seq<char>, Seq<(Seq<char>, u32)>)| input_member(x));
    if e.len() == 0 {
        assert(inputs_tail(e) =~= Seq::<char>::empty());
        lemma_occurs_char(s, pos, inputs_tail(e) + seq!['}'], 0);
        lemma_skip_none(s, pos);
        assert(e.map_values(g) =~= Seq::<(Seq<char>, Map<Seq<char>, u32>)>::empty());
    } else {
        lemma_flat_map_first(parts, f);
        let rest = e.drop_first();
        assert(parts.drop_first() =~= rest.map_values(|x: (Seq<char>, Seq<(Seq<char>, u32)>)| input_member(x)));
        let m = input_member(e[0]);
        assert(inputs_tail(e) + seq!['}'] =~= (seq![','] + m) + (inputs_tail(rest) + seq!['}']));
        lemma_occurs_split(s, pos, seq![','] + m, inputs_tail(rest) + seq!['}']);
        let next = pos + 1 + m.len();
        lemma_input_member(s, pos, acc, e[0], true);
        lemma_inputs_tail(s, next, acc.insert(e[0].0, insert_all(Map::empty(), e[0].1)), rest);
        assert(e.map_values(g).drop_first() =~= rest.map_values(g));
        assert(e.map_values(g)[0] == parsed_entry(e[0]));
    }
}

/// Reading the text of `to_json` gives back the entries' map.
pub proof fn lemma_json_roundtrip(entries: Seq<(Seq<char>, Seq<(Seq<char>, u32)>)>)
    requires
        entries_wf(entries),
    ensures
        preferences_from_json(preferences_json(entries)) == entries_map(entries),
{
    let j = preferences_json(entries);
    let parts = entries.map_values(|x: (Seq<char>, Seq<(Seq<char>, u32)>)| input_member(x));
    let body = comma_list(parts) + seq!['}'];
    assert(j =~= seq!['{'] + body);
    // The text is already trimmed.
    assert(j[0] == '{');
    assert(j.last() == '}');
    assert(crate::text::leading_ws(j) == 0);
    assert(crate::text::trailing_ws(j) == 0);
    assert(crate::text::trim(j) =~= j);
    lemma_skip_none(j, 0);
    lemma_occurs_split(j, 0, seq!['{'], body);
    let g = |x: (Seq<char>, Seq<(Seq<char>, u32)>)| parsed_entry(x);
    // Reading the members.
    if entries.len() == 0 {
        assert(comma_list(parts) =~= inputs_tail(entries));
        lemma_inputs_tail(j, 1, Map::empty(), entries);
    } else {
        let rest = entries.drop_first();
        assert(parts.drop_first() =~= rest.map_values(|x: (Seq<char>, Seq<(Seq<char>, u32)>)| input_member(x)));
        let m = input_member(entries[0]);
        assert(body =~= (Seq::<char>::empty() + m) + (inputs_tail(rest) + seq!['}']));
        lemma_occurs_split(j, 1, Seq::<char>::empty() + m, inputs_tail(rest) + seq!['}']);
        lemma_input_member(j, 1, Map::empty(), entries[0], false);
        lemma_inputs_tail(j, 1 + m.len() as int, Map::empty().insert(entries[0].0, insert_all(Map::empty(), entries[0].1)), rest);
        assert(entries.map_values(g).drop_first() =~= rest.map_values(g));
        assert(entries.map_values(g)[0] == parsed_entry(entries[0]));
    }
    // From the members inserted in order to the map of the entries.
    let pe = entries.map_values(g);
    let ev = entries.map_values(|e: (Seq<char>, Seq<(Seq<char>, u32)>)| (e.0, assoc_map(e.1)));
    assert forall|i: int| 0 <= i < entries.len() implies pe[i] == ev[i] by {
        assert(keys_distinct(entries[i].1));
        lemma_insert_all(Map::empty(), entries[i].1);
        assert(Map::<Seq<char>, u32>::empty().union_prefer_right(assoc_map(entries[i].1)) =~= assoc_map(entries[i].1));
    }
    assert(pe =~= ev);
    assert(keys_distinct(ev)) by {
        assert forall|a: int, b: int| 0 <= a < b < ev.len() implies ev[a].0 != ev[b].0 by {
            assert(ev[a].0 == entries[a].0 && ev[b].0 == entries[b].0);
        }
    }
    lemma_insert_all(Map::empty(), ev);
    assert(Map::<Seq<char>, Map<Seq<char>, u32>>::empty().union_prefer_right(assoc_map(ev)) =~= assoc_map(ev));
}

} // verus!
