//! Arabizi to Arabic character mappings.
//!
//! Each consonant pattern has one primary Arabic target; the ambiguous ones
//! also list alternatives used to generate variation candidates. Numbers are
//! used for the emphatic and special letters. Vowels depend on context.

use vstd::prelude::*;

verus! {

/// A mapping table as plain sequences: Arabizi pattern to Arabic letters.
pub open spec fn table_view(t: Seq<(Vec<char>, Vec<char>)>) -> Seq<(Seq<char>, Seq<char>)> {
    t.map_values(|e: (Vec<char>, Vec<char>)| (e.0@, e.1@))
}

/// The ambiguous-consonant table as plain sequences.
pub open spec fn ambiguous_view(t: Seq<(Vec<char>, Vec<char>, Vec<Vec<char>>)>) -> Seq<
    (Seq<char>, Seq<char>, Seq<Seq<char>>),
> {
    t.map_values(
        |e: (Vec<char>, Vec<char>, Vec<Vec<char>>)|
            (e.0@, e.1@, e.2@.map_values(|a: Vec<char>| a@)),
    )
}
/// Consonant patterns, longest first, each with its primary Arabic letter(s).
pub open spec fn consonant_table() -> Seq<(Seq<char>, Seq<char>)> {
    seq![
        (seq!['t', 'c', 'h'], seq!['ت', 'ش']),
        (seq!['s', 'h'], seq!['ش']),
        (seq!['c', 'h'], seq!['ش']),
        (seq!['k', 'h'], seq!['خ']),
        (seq!['t', 'h'], seq!['ث']),
        (seq!['d', 'h'], seq!['ذ']),
        (seq!['g', 'h'], seq!['غ']),
        (seq!['p', 'h'], seq!['ف']),
        (seq!['2'], seq!['ء']),
        (seq!['3', '\''], seq!['غ']),
        (seq!['3'], seq!['ع']),
        (seq!['5'], seq!['خ']),
        (seq!['6', '\''], seq!['ظ']),
        (seq!['6'], seq!['ط']),
        (seq!['7', '\''], seq!['خ']),
        (seq!['7'], seq!['ح']),
        (seq!['8'], seq!['ق']),
        (seq!['9', '\''], seq!['ظ']),
        (seq!['9'], seq!['ص']),
        (seq!['b'], seq!['ب']),
        (seq!['t'], seq!['ت']),
        (seq!['j'], seq!['ج']),
        (seq!['d'], seq!['د']),
        (seq!['r'], seq!['ر']),
        (seq!['z'], seq!['ز']),
        (seq!['s'], seq!['س']),
        (seq!['f'], seq!['ف']),
        (seq!['q'], seq!['ق']),
        (seq!['k'], seq!['ك']),
        (seq!['l'], seq!['ل']),
        (seq!['m'], seq!['م']),
        (seq!['n'], seq!['ن']),
        (seq!['h'], seq!['ه']),
        (seq!['w'], seq!['و']),
        (seq!['y'], seq!['ي']),
        (seq!['g'], seq!['ج']),
        (seq!['x'], seq!['خ']),
        (seq!['v'], seq!['ف']),
        (seq!['p'], seq!['ب']),
    ]
}

/// Consonant patterns, longest first, each with its primary Arabic letter(s).
pub fn consonant_mappings() -> (t: Vec<(Vec<char>, Vec<char>)>)
    ensures
        table_view(t@) == consonant_table(),
{
    let t = vec![
        (vec!['t', 'c', 'h'], vec!['ت', 'ش']),
        (vec!['s', 'h'], vec!['ش']),
        (vec!['c', 'h'], vec!['ش']),
        (vec!['k', 'h'], vec!['خ']),
        (vec!['t', 'h'], vec!['ث']),
        (vec!['d', 'h'], vec!['ذ']),
        (vec!['g', 'h'], vec!['غ']),
        (vec!['p', 'h'], vec!['ف']),
        (vec!['2'], vec!['ء']),
        (vec!['3', '\''], vec!['غ']),
        (vec!['3'], vec!['ع']),
        (vec!['5'], vec!['خ']),
        (vec!['6', '\''], vec!['ظ']),
        (vec!['6'], vec!['ط']),
        (vec!['7', '\''], vec!['خ']),
        (vec!['7'], vec!['ح']),
        (vec!['8'], vec!['ق']),
        (vec!['9', '\''], vec!['ظ']),
        (vec!['9'], vec!['ص']),
        (vec!['b'], vec!['ب']),
        (vec!['t'], vec!['ت']),
        (vec!['j'], vec!['ج']),
        (vec!['d'], vec!['د']),
        (vec!['r'], vec!['ر']),
        (vec!['z'], vec!['ز']),
        (vec!['s'], vec!['س']),
        (vec!['f'], vec!['ف']),
        (vec!['q'], vec!['ق']),
        (vec!['k'], vec!['ك']),
        (vec!['l'], vec!['ل']),
        (vec!['m'], vec!['م']),
        (vec!['n'], vec!['ن']),
        (vec!['h'], vec!['ه']),
        (vec!['w'], vec!['و']),
        (vec!['y'], vec!['ي']),
        (vec!['g'], vec!['ج']),
        (vec!['x'], vec!['خ']),
        (vec!['v'], vec!['ف']),
        (vec!['p'], vec!['ب']),
    ];
    assert(table_view(t@) =~~= consonant_table());
    t
}

/// Long vowel patterns; each always produces a standalone Arabic letter.
pub open spec fn long_vowel_table() -> Seq<(Seq<char>, Seq<char>)> {
    seq![
        (seq!['a', 'a'], seq!['ا']),
        (seq!['e', 'e'], seq!['ي']),
        (seq!['i', 'i'], seq!['ي']),
        (seq!['o', 'o'], seq!['و']),
        (seq!['u', 'u'], seq!['و']),
        (seq!['o', 'u'], seq!['و']),
        (seq!['e', 'i'], seq!['ي']),
        (seq!['a', 'i'], seq!['ي']),
        (seq!['a', 'u'], seq!['و']),
    ]
}

/// Long vowel patterns; each always produces a standalone Arabic letter.
pub fn long_vowel_mappings() -> (t: Vec<(Vec<char>, Vec<char>)>)
    ensures
        table_view(t@) == long_vowel_table(),
{
    let t = vec![
        (vec!['a', 'a'], vec!['ا']),
        (vec!['e', 'e'], vec!['ي']),
        (vec!['i', 'i'], vec!['ي']),
        (vec!['o', 'o'], vec!['و']),
        (vec!['u', 'u'], vec!['و']),
        (vec!['o', 'u'], vec!['و']),
        (vec!['e', 'i'], vec!['ي']),
        (vec!['a', 'i'], vec!['ي']),
        (vec!['a', 'u'], vec!['و']),
    ];
    assert(table_view(t@) =~~= long_vowel_table());
    t
}

/// Short vowels and the letter each becomes where it is written.
pub open spec fn short_vowel_table() -> Seq<(Seq<char>, Seq<char>)> {
    seq![
        (seq!['a'], seq!['ا']),
        (seq!['e'], seq!['ا']),
        (seq!['i'], seq!['ي']),
        (seq!['o'], seq!['و']),
        (seq!['u'], seq!['و']),
    ]
}

/// Short vowels and the letter each becomes where it is written.
pub fn short_vowel_mappings() -> (t: Vec<(Vec<char>, Vec<char>)>)
    ensures
        table_view(t@) == short_vowel_table(),
{
    let t = vec![
        (vec!['a'], vec!['ا']),
        (vec!['e'], vec!['ا']),
        (vec!['i'], vec!['ي']),
        (vec!['o'], vec!['و']),
        (vec!['u'], vec!['و']),
    ];
    assert(table_view(t@) =~~= short_vowel_table());
    t
}

/// Ambiguous consonants: pattern, primary letter(s) and the alternatives used
/// to generate variation candidates.
pub open spec fn ambiguous_table() -> Seq<(Seq<char>, Seq<char>, Seq<Seq<char>>)> {
    seq![
        (seq!['s'], seq!['س'], seq![seq!['ص'], seq!['ث']]),
        (seq!['t'], seq!['ت'], seq![seq!['ط'], seq!['ث']]),
        (seq!['d'], seq!['د'], seq![seq!['ض'], seq!['ذ']]),
        (seq!['z'], seq!['ز'], seq![seq!['ظ'], seq!['ذ']]),
        (seq!['h'], seq!['ه'], seq![seq!['ح']]),
        (seq!['g'], seq!['ج'], seq![seq!['غ'], seq!['ق']]),
        (seq!['k'], seq!['ك'], seq![seq!['ق']]),
        (seq!['t', 'h'], seq!['ث'], seq![seq!['ذ']]),
        (seq!['d', 'h'], seq!['ذ'], seq![seq!['ض'], seq!['ظ']]),
        (seq!['c', 'h'], seq!['ش'], seq![seq!['ت', 'ش']]),
    ]
}

/// The ambiguous-consonant table.
pub fn ambiguous_consonants() -> (t: Vec<(Vec<char>, Vec<char>, Vec<Vec<char>>)>)
    ensures
        ambiguous_view(t@) == ambiguous_table(),
{
    let t = vec![
        (vec!['s'], vec!['س'], vec![vec!['ص'], vec!['ث']]),
        (vec!['t'], vec!['ت'], vec![vec!['ط'], vec!['ث']]),
        (vec!['d'], vec!['د'], vec![vec!['ض'], vec!['ذ']]),
        (vec!['z'], vec!['ز'], vec![vec!['ظ'], vec!['ذ']]),
        (vec!['h'], vec!['ه'], vec![vec!['ح']]),
        (vec!['g'], vec!['ج'], vec![vec!['غ'], vec!['ق']]),
        (vec!['k'], vec!['ك'], vec![vec!['ق']]),
        (vec!['t', 'h'], vec!['ث'], vec![vec!['ذ']]),
        (vec!['d', 'h'], vec!['ذ'], vec![vec!['ض'], vec!['ظ']]),
        (vec!['c', 'h'], vec!['ش'], vec![vec!['ت', 'ش']]),
    ];
    assert(ambiguous_view(t@) =~~= ambiguous_table());
    t
}

/// Whether `c` is a vowel letter.
pub open spec fn is_vowel(c: char) -> bool {
    c == 'a' || c == 'e' || c == 'i' || c == 'o' || c == 'u'
}

/// Whether `c` is a vowel letter.
pub fn is_vowel_char(c: char) -> (r: bool)
    ensures
        r == is_vowel(c),
{
    c == 'a' || c == 'e' || c == 'i' || c == 'o' || c == 'u'
}

/// Whether `c` is a consonant pattern starter: a letter with which some
/// consonant pattern begins (`c` begins `ch`).
pub open spec fn is_consonant(c: char) -> bool {
    c == 'b' || c == 'c' || c == 't' || c == 'j' || c == 'd' || c == 'r' || c == 'z' || c == 's'
        || c == 'f' || c == 'q' || c == 'k' || c == 'l' || c == 'm' || c == 'n' || c == 'h' || c
        == 'w' || c == 'y' || c == 'g' || c == 'x' || c == 'v' || c == 'p'
}

/// Whether `c` is a lowercase ASCII letter.
pub open spec fn is_ascii_lower(c: char) -> bool {
    'a' <= c && c <= 'z'
}

/// The consonant pattern starters are exactly the letters that begin a
/// pattern of the consonant table.
pub proof fn lemma_consonant_starters(c: char)
    ensures
        is_consonant(c) <==> (is_ascii_lower(c) && exists|i: int|
            0 <= i < consonant_table().len() && #[trigger] consonant_table()[i].0[0] == c),
{
    let t = consonant_table();
    assert(t.len() == 39);
    if is_consonant(c) {
        if c == 'b' { assert(t[19].0[0] == c); }
        if c == 'c' { assert(t[2].0[0] == c); }
        if c == 't' { assert(t[20].0[0] == c); }
        if c == 'j' { assert(t[21].0[0] == c); }
        if c == 'd' { assert(t[22].0[0] == c); }
        if c == 'r' { assert(t[23].0[0] == c); }
        if c == 'z' { assert(t[24].0[0] == c); }
        if c == 's' { assert(t[25].0[0] == c); }
        if c == 'f' { assert(t[26].0[0] == c); }
        if c == 'q' { assert(t[27].0[0] == c); }
        if c == 'k' { assert(t[28].0[0] == c); }
        if c == 'l' { assert(t[29].0[0] == c); }
        if c == 'm' { assert(t[30].0[0] == c); }
        if c == 'n' { assert(t[31].0[0] == c); }
        if c == 'h' { assert(t[32].0[0] == c); }
        if c == 'w' { assert(t[33].0[0] == c); }
        if c == 'y' { assert(t[34].0[0] == c); }
        if c == 'g' { assert(t[35].0[0] == c); }
        if c == 'x' { assert(t[36].0[0] == c); }
        if c == 'v' { assert(t[37].0[0] == c); }
        if c == 'p' { assert(t[38].0[0] == c); }
    }
    assert forall|i: int| 0 <= i < t.len() && is_ascii_lower(#[trigger] t[i].0[0]) implies is_consonant(t[i].0[0]) by {
    }
}

/// Whether `c` is a consonant pattern starter.
pub fn is_consonant_char(c: char) -> (r: bool)
    ensures
        r == is_consonant(c),
{
    c == 'b' || c == 'c' || c == 't' || c == 'j' || c == 'd' || c == 'r' || c == 'z' || c == 's'
        || c == 'f' || c == 'q' || c == 'k' || c == 'l' || c == 'm' || c == 'n' || c == 'h' || c
        == 'w' || c == 'y' || c == 'g' || c == 'x' || c == 'v' || c == 'p'
}

/// Whether `c` is a digit that stands for an Arabic letter.
pub open spec fn is_number(c: char) -> bool {
    c == '2' || c == '3' || c == '5' || c == '6' || c == '7' || c == '8' || c == '9'
}

/// Whether `c` is a digit that stands for an Arabic letter.
pub fn is_number_char(c: char) -> (r: bool)
    ensures
        r == is_number(c),
{
    c == '2' || c == '3' || c == '5' || c == '6' || c == '7' || c == '8' || c == '9'
}

/// `p` occurs in `w` at position `pos`.
pub open spec fn occurs_at(w: Seq<char>, pos: int, p: Seq<char>) -> bool {
    0 <= pos && pos + p.len() <= w.len() && w.subrange(pos, pos + p.len()) == p
}

/// The first entry of `t`, from index `i` on, whose pattern is at most
/// `max_len` long and occurs in `w` at `pos`.
pub open spec fn first_match_from(
    t: Seq<(Seq<char>, Seq<char>)>,
    w: Seq<char>,
    pos: int,
    max_len: int,
    i: int,
) -> Option<int>
    decreases t.len() - i,
{
    if i < 0 || i >= t.len() {
        None
    } else if t[i].0.len() <= max_len && occurs_at(w, pos, t[i].0) {
        Some(i)
    } else {
        first_match_from(t, w, pos, max_len, i + 1)
    }
}

/// The first entry of `t` whose pattern is at most `max_len` long and occurs
/// in `w` at `pos`.
pub open spec fn first_match(t: Seq<(Seq<char>, Seq<char>)>, w: Seq<char>, pos: int, max_len: int) -> Option<int> {
    first_match_from(t, w, pos, max_len, 0)
}

/// What a lookup in a table returned, as an index.
pub open spec fn index_of_match(r: Option<usize>) -> Option<int> {
    match r {
        Some(i) => Some(i as int),
        None => None,
    }
}

/// A found entry is one whose pattern occurs at `pos`.
pub proof fn lemma_first_match_from(
    t: Seq<(Seq<char>, Seq<char>)>,
    w: Seq<char>,
    pos: int,
    max_len: int,
    i: int,
)
    ensures
        first_match_from(t, w, pos, max_len, i) matches Some(k) ==> i <= k < t.len() && t[k].0.len()
            <= max_len && occurs_at(w, pos, t[k].0),
    decreases t.len() - i,
{
    if 0 <= i < t.len() && !(t[i].0.len() <= max_len && occurs_at(w, pos, t[i].0)) {
        lemma_first_match_from(t, w, pos, max_len, i + 1);
    }
}

/// Whether `p` occurs in `w` at `pos`.
pub fn occurs_at_exec(w: &[char], pos: usize, p: &[char]) -> (r: bool)
    ensures
        r == occurs_at(w@, pos as int, p@),
{
    let n = w.len();
    let m = p.len();
    if pos > n || m > n - pos {
        return false;
    }
    let mut k: usize = 0;
    while k < m
        invariant
            pos + m <= n,
            n == w@.len(),
            m == p@.len(),
            k <= m,
            forall|j: int| 0 <= j < k ==> w@[pos + j] == p@[j],
        decreases m - k,
    {
        if w[pos + k] != p[k] {
            assert(w@.subrange(pos as int, pos + m)[k as int] != p@[k as int]);
            return false;
        }
        k = k + 1;
    }
    assert(w@.subrange(pos as int, pos + m) =~= p@);
    true
}

/// Index of the first entry of `t` whose pattern is at most `max_len` long
/// and occurs in `w` at `pos`.
pub fn find_match(t: &Vec<(Vec<char>, Vec<char>)>, w: &[char], pos: usize, max_len: usize) -> (r: Option<usize>)
    ensures
        index_of_match(r) == first_match(table_view(t@), w@, pos as int, max_len as int),
{
    let ghost tv = table_view(t@);
    let n = t.len();
    let mut i: usize = 0;
    while i < n
        invariant
            i <= n,
            n == t@.len(),
            tv == table_view(t@),
            first_match(tv, w@, pos as int, max_len as int) == first_match_from(
                tv,
                w@,
                pos as int,
                max_len as int,
                i as int,
            ),
        decreases n - i,
    {
        let entry = &t[i];
        assert(tv[i as int] == (entry.0@, entry.1@));
        if entry.0.len() <= max_len && occurs_at_exec(w, pos, entry.0.as_slice()) {
            return Some(i);
        }
        i = i + 1;
    }
    None
}

/// No two consonant entries share a pattern.
pub proof fn lemma_consonant_patterns_distinct()
    ensures
        forall|i: int, j: int|
            0 <= i < j < consonant_table().len() ==> consonant_table()[i].0
                != consonant_table()[j].0,
{
    let t = consonant_table();
    assert(t.len() == 39);
    // Checked one row of pairs at a time, from the end.
    assert(table_differs_from(t, 39));
    assert(table_differs_from(t, 38)) by {
        reveal_with_fuel(table_differs_from, 2);
        reveal_with_fuel(row_differs, 40);
    }
    assert(table_differs_from(t, 37)) by {
        reveal_with_fuel(table_differs_from, 2);
        reveal_with_fuel(row_differs, 40);
    }
    assert(table_differs_from(t, 36)) by {
        reveal_with_fuel(table_differs_from, 2);
        reveal_with_fuel(row_differs, 40);
    }
    assert(table_differs_from(t, 35)) by {
        reveal_with_fuel(table_differs_from, 2);
        reveal_with_fuel(row_differs, 40);
    }
    assert(table_differs_from(t, 34)) by {
        reveal_with_fuel(table_differs_from, 2);
        reveal_with_fuel(row_differs, 40);
    }
    assert(table_differs_from(t, 33)) by {
        reveal_with_fuel(table_differs_from, 2);
        reveal_with_fuel(row_differs, 40);
    }
    assert(table_differs_from(t, 32)) by {
        reveal_with_fuel(table_differs_from, 2);
        reveal_with_fuel(row_differs, 40);
    }
    assert(table_differs_from(t, 31)) by {
        reveal_with_fuel(table_differs_from, 2);
        reveal_with_fuel(row_differs, 40);
    }
    assert(table_differs_from(t, 30)) by {
        reveal_with_fuel(table_differs_from, 2);
        reveal_with_fuel(row_differs, 40);
    }
    assert(table_differs_from(t, 29)) by {
        reveal_with_fuel(table_differs_from, 2);
        reveal_with_fuel(row_differs, 40);
    }
    assert(table_differs_from(t, 28)) by {
        reveal_with_fuel(table_differs_from, 2);
        reveal_with_fuel(row_differs, 40);
    }
    assert(table_differs_from(t, 27)) by {
        reveal_with_fuel(table_differs_from, 2);
        reveal_with_fuel(row_differs, 40);
    }
    assert(table_differs_from(t, 26)) by {
        reveal_with_fuel(table_differs_from, 2);
        reveal_with_fuel(row_differs, 40);
    }
    assert(table_differs_from(t, 25)) by {
        reveal_with_fuel(table_differs_from, 2);
        reveal_with_fuel(row_differs, 40);
    }
    assert(table_differs_from(t, 24)) by {
        reveal_with_fuel(table_differs_from, 2);
        reveal_with_fuel(row_differs, 40);
    }
    assert(table_differs_from(t, 23)) by {
        reveal_with_fuel(table_differs_from, 2);
        reveal_with_fuel(row_differs, 40);
    }
    assert(table_differs_from(t, 22)) by {
        reveal_with_fuel(table_differs_from, 2);
        reveal_with_fuel(row_differs, 40);
    }
    assert(table_differs_from(t, 21)) by {
        reveal_with_fuel(table_differs_from, 2);
        reveal_with_fuel(row_differs, 40);
    }
    assert(table_differs_from(t, 20)) by {
        reveal_with_fuel(table_differs_from, 2);
        reveal_with_fuel(row_differs, 40);
    }
    assert(table_differs_from(t, 19)) by {
        reveal_with_fuel(table_differs_from, 2);
        reveal_with_fuel(row_differs, 40);
    }
    assert(table_differs_from(t, 18)) by {
        reveal_with_fuel(table_differs_from, 2);
        reveal_with_fuel(row_differs, 40);
    }
    assert(table_differs_from(t, 17)) by {
        reveal_with_fuel(table_differs_from, 2);
        reveal_with_fuel(row_differs, 40);
    }
    assert(table_differs_from(t, 16)) by {
        reveal_with_fuel(table_differs_from, 2);
        reveal_with_fuel(row_differs, 40);
    }
    assert(table_differs_from(t, 15)) by {
        reveal_with_fuel(table_differs_from, 2);
        reveal_with_fuel(row_differs, 40);
    }
    assert(table_differs_from(t, 14)) by {
        reveal_with_fuel(table_differs_from, 2);
        reveal_with_fuel(row_differs, 40);
    }
    assert(table_differs_from(t, 13)) by {
        reveal_with_fuel(table_differs_from, 2);
        reveal_with_fuel(row_differs, 40);
    }
    assert(table_differs_from(t, 12)) by {
        reveal_with_fuel(table_differs_from, 2);
        reveal_with_fuel(row_differs, 40);
    }
    assert(table_differs_from(t, 11)) by {
        reveal_with_fuel(table_differs_from, 2);
        reveal_with_fuel(row_differs, 40);
    }
    assert(table_differs_from(t, 10)) by {
        reveal_with_fuel(table_differs_from, 2);
        reveal_with_fuel(row_differs, 40);
    }
    assert(table_differs_from(t, 9)) by {
        reveal_with_fuel(table_differs_from, 2);
        reveal_with_fuel(row_differs, 40);
    }
    assert(table_differs_from(t, 8)) by {
        reveal_with_fuel(table_differs_from, 2);
        reveal_with_fuel(row_differs, 40);
    }
    assert(table_differs_from(t, 7)) by {
        reveal_with_fuel(table_differs_from, 2);
        reveal_with_fuel(row_differs, 40);
    }
    assert(table_differs_from(t, 6)) by {
        reveal_with_fuel(table_differs_from, 2);
        reveal_with_fuel(row_differs, 40);
    }
    assert(table_differs_from(t, 5)) by {
        reveal_with_fuel(table_differs_from, 2);
        reveal_with_fuel(row_differs, 40);
    }
    assert(table_differs_from(t, 4)) by {
        reveal_with_fuel(table_differs_from, 2);
        reveal_with_fuel(row_differs, 40);
    }
    assert(table_differs_from(t, 3)) by {
        reveal_with_fuel(table_differs_from, 2);
        reveal_with_fuel(row_differs, 40);
    }
    assert(table_differs_from(t, 2)) by {
        reveal_with_fuel(table_differs_from, 2);
        reveal_with_fuel(row_differs, 40);
    }
    assert(table_differs_from(t, 1)) by {
        reveal_with_fuel(table_differs_from, 2);
        reveal_with_fuel(row_differs, 40);
    }
    assert(table_differs_from(t, 0)) by {
        reveal_with_fuel(table_differs_from, 2);
        reveal_with_fuel(row_differs, 40);
    }
    lemma_table_differs_from(t, 0);
    assert forall|i: int, j: int| 0 <= i < j < t.len() implies t[i].0 != t[j].0 by {
        assert(patterns_differ(t[i].0, t[j].0));
    }
}

/// No two long vowel entries share a pattern.
pub proof fn lemma_long_vowel_patterns_distinct()
    ensures
        forall|i: int, j: int|
            0 <= i < j < long_vowel_table().len() ==> long_vowel_table()[i].0
                != long_vowel_table()[j].0,
{
}

/// Every pattern of the consonant and vowel tables is non-empty.
pub proof fn lemma_patterns_nonempty()
    ensures
        forall|i: int| 0 <= i < consonant_table().len() ==> #[trigger] consonant_table()[i].0.len() > 0,
        forall|i: int| 0 <= i < long_vowel_table().len() ==> #[trigger] long_vowel_table()[i].0.len() > 0,
        forall|i: int| 0 <= i < short_vowel_table().len() ==> #[trigger] short_vowel_table()[i].0.len() > 0,
        forall|i: int| 0 <= i < ambiguous_table().len() ==> #[trigger] ambiguous_table()[i].0.len() > 0,
{
}

/// The mapping tables, built once and shared by an engine.
pub struct Mappings {
    pub consonants: Vec<(Vec<char>, Vec<char>)>,
    pub long_vowels: Vec<(Vec<char>, Vec<char>)>,
    pub short_vowels: Vec<(Vec<char>, Vec<char>)>,
    pub ambiguous: Vec<(Vec<char>, Vec<char>, Vec<Vec<char>>)>,
}

impl Mappings {
    /// The tables hold the mappings of this module.
    pub open spec fn wf(&self) -> bool {
        &&& table_view(self.consonants@) == consonant_table()
        &&& table_view(self.long_vowels@) == long_vowel_table()
        &&& table_view(self.short_vowels@) == short_vowel_table()
        &&& ambiguous_view(self.ambiguous@) == ambiguous_table()
    }

    /// Builds the tables.
    pub fn new() -> (m: Self)
        ensures
            m.wf(),
    {
        Mappings {
            consonants: consonant_mappings(),
            long_vowels: long_vowel_mappings(),
            short_vowels: short_vowel_mappings(),
            ambiguous: ambiguous_consonants(),
        }
    }
}

/// The letter a word-initial vowel becomes: alef with hamza below for `i`,
/// alef with hamza above for `u` and `o`, bare alef otherwise.
pub open spec fn initial_vowel(c: char) -> Seq<char> {
    if c == 'i' {
        seq!['إ']
    } else if c == 'u' || c == 'o' {
        seq!['أ']
    } else {
        seq!['ا']
    }
}

/// Appends the letter a word-initial vowel becomes.
pub fn push_initial_vowel(result: &mut Vec<char>, c: char)
    ensures
        final(result)@ == old(result)@ + initial_vowel(c),
{
    if c == 'i' {
        result.push('إ');
    } else if c == 'u' || c == 'o' {
        result.push('أ');
    } else {
        result.push('ا');
    }
}

/// The letters of the first entry of `t` whose pattern occurs at `pos`, or
/// nothing when there is none.
pub open spec fn match_output(t: Seq<(Seq<char>, Seq<char>)>, w: Seq<char>, pos: int, max_len: int) -> Seq<char> {
    match first_match(t, w, pos, max_len) {
        Some(i) => t[i].1,
        None => Seq::empty(),
    }
}

/// A pattern listed before another is never a proper prefix of it: it is at
/// least as long, or it starts with another character.
pub open spec fn listed_before_ok(p: Seq<char>, q: Seq<char>) -> bool {
    p.len() >= q.len() || (p.len() > 0 && p[0] != q[0])
}

/// `listed_before_ok` holds of entry `a` and every entry from `b` on.
pub open spec fn row_ok(t: Seq<(Seq<char>, Seq<char>)>, a: int, b: int) -> bool
    decreases t.len() - b,
{
    if b < 0 || b >= t.len() {
        true
    } else {
        listed_before_ok(t[a].0, t[b].0) && row_ok(t, a, b + 1)
    }
}

/// `listed_before_ok` holds of every two entries from `a` on, in order.
pub open spec fn table_ok_from(t: Seq<(Seq<char>, Seq<char>)>, a: int) -> bool
    decreases t.len() - a,
{
    if a < 0 || a >= t.len() {
        true
    } else {
        row_ok(t, a, a + 1) && table_ok_from(t, a + 1)
    }
}

proof fn lemma_row_ok(t: Seq<(Seq<char>, Seq<char>)>, a: int, b: int)
    requires
        0 <= b,
        row_ok(t, a, b),
    ensures
        forall|c: int| b <= c < t.len() ==> listed_before_ok(t[a].0, #[trigger] t[c].0),
    decreases t.len() - b,
{
    if b < t.len() {
        lemma_row_ok(t, a, b + 1);
    }
}

proof fn lemma_table_ok_from(t: Seq<(Seq<char>, Seq<char>)>, a: int)
    requires
        0 <= a,
        table_ok_from(t, a),
    ensures
        forall|x: int, y: int| a <= x < y < t.len() ==> listed_before_ok(#[trigger] t[x].0, #[trigger] t[y].0),
    decreases t.len() - a,
{
    if a < t.len() {
        lemma_row_ok(t, a, a + 1);
        lemma_table_ok_from(t, a + 1);
    }
}

/// In the consonant table no pattern is a proper prefix of a longer pattern
/// listed after it (`3'` comes before `3`).
pub proof fn lemma_consonant_table_ordered()
    ensures
        forall|x: int, y: int|
            0 <= x < y < consonant_table().len() ==> listed_before_ok(
                #[trigger] consonant_table()[x].0,
                #[trigger] consonant_table()[y].0,
            ),
{
    let t = consonant_table();
    assert(t.len() == 39);
    assert(table_ok_from(t, 0)) by {
        reveal_with_fuel(table_ok_from, 40);
        reveal_with_fuel(row_ok, 40);
    }
    lemma_table_ok_from(consonant_table(), 0);
}

/// Where no pattern is a proper prefix of a longer pattern listed after
/// it, the first pattern that occurs is a longest one that occurs; and when
/// none is found, none occurs.
pub proof fn lemma_first_match_longest(t: Seq<(Seq<char>, Seq<char>)>, w: Seq<char>, pos: int, max_len: int)
    requires
        forall|x: int, y: int| 0 <= x < y < t.len() ==> listed_before_ok(#[trigger] t[x].0, #[trigger] t[y].0),
    ensures
        first_match(t, w, pos, max_len) matches Some(k) ==> forall|j: int|
            0 <= j < t.len() && t[j].0.len() <= max_len && occurs_at(w, pos, #[trigger] t[j].0) ==> t[j].0.len()
                <= t[k].0.len(),
        first_match(t, w, pos, max_len) is None ==> forall|j: int|
            0 <= j < t.len() && t[j].0.len() <= max_len ==> !occurs_at(w, pos, #[trigger] t[j].0),
{
    lemma_first_match_skips(t, w, pos, max_len, 0);
    lemma_first_match_from(t, w, pos, max_len, 0);
    if let Some(k) = first_match(t, w, pos, max_len) {
        assert forall|j: int|
            0 <= j < t.len() && t[j].0.len() <= max_len && occurs_at(w, pos, #[trigger] t[j].0) implies t[j].0.len()
                <= t[k].0.len() by {
            if j > k && t[k].0.len() < t[j].0.len() {
                assert(listed_before_ok(t[k].0, t[j].0));
                assert(t[j].0[0] == w[pos] && t[k].0[0] == w[pos]) by {
                    assert(w.subrange(pos, pos + t[j].0.len())[0] == w[pos]);
                    assert(w.subrange(pos, pos + t[k].0.len())[0] == w[pos]);
                }
            }
        }
    }
}

/// The entries skipped before the first match do not match.
proof fn lemma_first_match_skips(t: Seq<(Seq<char>, Seq<char>)>, w: Seq<char>, pos: int, max_len: int, i: int)
    requires
        0 <= i,
    ensures
        first_match_from(t, w, pos, max_len, i) matches Some(k) ==> forall|j: int|
            i <= j < k ==> !(t[j].0.len() <= max_len && occurs_at(w, pos, #[trigger] t[j].0)),
        first_match_from(t, w, pos, max_len, i) is None ==> forall|j: int|
            i <= j < t.len() ==> !(t[j].0.len() <= max_len && occurs_at(w, pos, #[trigger] t[j].0)),
    decreases t.len() - i,
{
    if i < t.len() {
        lemma_first_match_skips(t, w, pos, max_len, i + 1);
    }
}

/// The consonant pattern matched at a place is a longest one that occurs
/// there (`sh` rather than `s`, `3'` rather than `3`); when none is matched,
/// none occurs there.
pub proof fn lemma_consonant_match_longest(w: Seq<char>, pos: int, max_len: int)
    ensures
        first_match(consonant_table(), w, pos, max_len) matches Some(k) ==> forall|j: int|
            0 <= j < consonant_table().len() && consonant_table()[j].0.len() <= max_len && occurs_at(
                w,
                pos,
                #[trigger] consonant_table()[j].0,
            ) ==> consonant_table()[j].0.len() <= consonant_table()[k].0.len(),
        first_match(consonant_table(), w, pos, max_len) is None ==> forall|j: int|
            0 <= j < consonant_table().len() && consonant_table()[j].0.len() <= max_len ==> !occurs_at(
                w,
                pos,
                #[trigger] consonant_table()[j].0,
            ),
{
    lemma_consonant_table_ordered();
    lemma_first_match_longest(consonant_table(), w, pos, max_len);
}

/// Two patterns differ in length or in one of their first three characters.
pub open spec fn patterns_differ(p: Seq<char>, q: Seq<char>) -> bool {
    ||| p.len() != q.len()
    ||| (p.len() > 0 && p[0] != q[0])
    ||| (p.len() > 1 && p[1] != q[1])
    ||| (p.len() > 2 && p[2] != q[2])
}

/// `patterns_differ` holds of entry `a` and every entry from `b` on.
pub open spec fn row_differs(t: Seq<(Seq<char>, Seq<char>)>, a: int, b: int) -> bool
    decreases t.len() - b,
{
    if b < 0 || b >= t.len() {
        true
    } else {
        patterns_differ(t[a].0, t[b].0) && row_differs(t, a, b + 1)
    }
}

/// `patterns_differ` holds of every two entries from `a` on.
pub open spec fn table_differs_from(t: Seq<(Seq<char>, Seq<char>)>, a: int) -> bool
    decreases t.len() - a,
{
    if a < 0 || a >= t.len() {
        true
    } else {
        row_differs(t, a, a + 1) && table_differs_from(t, a + 1)
    }
}

proof fn lemma_row_differs(t: Seq<(Seq<char>, Seq<char>)>, a: int, b: int)
    requires
        0 <= b,
        row_differs(t, a, b),
    ensures
        forall|c: int| b <= c < t.len() ==> patterns_differ(t[a].0, #[trigger] t[c].0),
    decreases t.len() - b,
{
    if b < t.len() {
        lemma_row_differs(t, a, b + 1);
    }
}

proof fn lemma_table_differs_from(t: Seq<(Seq<char>, Seq<char>)>, a: int)
    requires
        0 <= a,
        table_differs_from(t, a),
    ensures
        forall|x: int, y: int| a <= x < y < t.len() ==> patterns_differ(#[trigger] t[x].0, #[trigger] t[y].0),
    decreases t.len() - a,
{
    if a < t.len() {
        lemma_row_differs(t, a, a + 1);
        lemma_table_differs_from(t, a + 1);
    }
}

} // verus!
