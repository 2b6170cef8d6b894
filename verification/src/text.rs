//! Character-level text helpers shared by the transliteration engines.

use vstd::prelude::*;

verus! {

/// The characters that Unicode gives the `White_Space` property,
/// which is what `char::is_whitespace` tests.
pub open spec fn is_ws(c: char) -> bool {
    ||| ('\u{9}' <= c && c <= '\u{d}')
    ||| c == ' '
    ||| c == '\u{85}'
    ||| c == '\u{a0}'
    ||| c == '\u{1680}'
    ||| ('\u{2000}' <= c && c <= '\u{200a}')
    ||| c == '\u{2028}'
    ||| c == '\u{2029}'
    ||| c == '\u{202f}'
    ||| c == '\u{205f}'
    ||| c == '\u{3000}'
}

/// Whether `c` is Unicode white space.
pub fn is_whitespace(c: char) -> (r: bool)
    ensures
        r == is_ws(c),
{
    ('\u{9}' <= c && c <= '\u{d}') || c == ' ' || c == '\u{85}' || c == '\u{a0}' || c == '\u{1680}'
        || ('\u{2000}' <= c && c <= '\u{200a}') || c == '\u{2028}' || c == '\u{2029}' || c
        == '\u{202f}' || c == '\u{205f}' || c == '\u{3000}'
}

/// The characters of a string slice, in order.
pub fn chars_of(s: &str) -> (v: Vec<char>)
    ensures
        v@ == s@,
{
    let mut v: Vec<char> = Vec::new();
    for c in it: s.chars()
        invariant
            v@ == it.seq().take(it.index() as int),
    {
        v.push(c);
    }
    v
}


/// Builds a `String` from a sequence of characters.
///
/// Trusted: `String::from_iter` over `&[char]` appends the characters in
/// order, so the string's characters are those of the slice.
#[verifier::external_body]
pub(crate) fn string_from_chars(v: &[char]) -> (s: String)
    ensures
        s@ == v@,
{
    String::from_iter(v)
}

/// What `str::to_lowercase` returns for a string with the given characters
/// (Unicode lowercase mapping; its tables are not restated here).
pub uninterp spec fn lowercase(s: Seq<char>) -> Seq<char>;

/// Whether every character is ASCII.
pub open spec fn is_ascii_text(s: Seq<char>) -> bool {
    forall|i: int| 0 <= i < s.len() ==> (s[i] as u32) < 128
}

/// The ASCII lowercase of a character: `A` to `Z` become `a` to `z`, every
/// other character stays.
pub open spec fn ascii_lower_char(c: char) -> char {
    if 'A' <= c && c <= 'Z' {
        ((c as u32) + 32) as char
    } else {
        c
    }
}

/// A text with `A` to `Z` made `a` to `z`.
pub open spec fn ascii_lowercase(s: Seq<char>) -> Seq<char> {
    s.map_values(|c: char| ascii_lower_char(c))
}

/// Trusted: calls `str::to_lowercase`, whose result depends on the
/// characters of its argument alone; the result is named `lowercase`. On
/// ASCII text, Unicode lowercasing maps `A` to `Z` to `a` to `z` and keeps
/// every other character, which the contract states.
#[verifier::external_body]
fn str_to_lowercase(s: &str) -> (r: String)
    ensures
        r@ == lowercase(s@),
        is_ascii_text(s@) ==> r@ == ascii_lowercase(s@),
{
    s.to_lowercase()
}

/// ASCII lowercasing keeps a text ASCII and changes nothing a second time.
pub proof fn lemma_ascii_lowercase(s: Seq<char>)
    ensures
        ascii_lowercase(s).len() == s.len(),
        is_ascii_text(s) ==> is_ascii_text(ascii_lowercase(s)),
        ascii_lowercase(ascii_lowercase(s)) == ascii_lowercase(s),
{
    assert forall|i: int| 0 <= i < s.len() implies ascii_lower_char(ascii_lower_char(s[i])) == ascii_lower_char(s[i]) by {
        let c = s[i];
        if 'A' <= c && c <= 'Z' {
            assert(!('A' <= ascii_lower_char(c) && ascii_lower_char(c) <= 'Z'));
        }
    }
    assert(ascii_lowercase(ascii_lowercase(s)) =~= ascii_lowercase(s));
}

proof fn lemma_leading_ws_ascii_lowercase(s: Seq<char>)
    ensures
        leading_ws(ascii_lowercase(s)) == leading_ws(s),
    decreases s.len(),
{
    if s.len() > 0 {
        assert(ascii_lowercase(s).drop_first() =~= ascii_lowercase(s.drop_first()));
        lemma_leading_ws_ascii_lowercase(s.drop_first());
    }
}

proof fn lemma_trailing_ws_ascii_lowercase(s: Seq<char>)
    ensures
        trailing_ws(ascii_lowercase(s)) == trailing_ws(s),
    decreases s.len(),
{
    if s.len() > 0 {
        assert(ascii_lowercase(s).drop_last() =~= ascii_lowercase(s.drop_last()));
        lemma_trailing_ws_ascii_lowercase(s.drop_last());
    }
}

proof fn lemma_leading_ws_chars(s: Seq<char>)
    ensures
        leading_ws(s) <= s.len(),
        forall|j: int| 0 <= j < leading_ws(s) ==> is_ws(s[j]),
        leading_ws(s) < s.len() ==> !is_ws(s[leading_ws(s) as int]),
    decreases s.len(),
{
    if s.len() > 0 && is_ws(s[0]) {
        lemma_leading_ws_chars(s.drop_first());
        assert forall|j: int| 0 <= j < leading_ws(s) implies is_ws(s[j]) by {
            if j > 0 {
                assert(s[j] == s.drop_first()[j - 1]);
            }
        }
        if leading_ws(s) < s.len() {
            assert(s[leading_ws(s) as int] == s.drop_first()[leading_ws(s.drop_first()) as int]);
        }
    }
}

proof fn lemma_trailing_ws_chars(s: Seq<char>)
    ensures
        trailing_ws(s) <= s.len(),
        forall|j: int| s.len() - trailing_ws(s) <= j < s.len() ==> is_ws(s[j]),
    decreases s.len(),
{
    if s.len() > 0 && is_ws(s.last()) {
        lemma_trailing_ws_chars(s.drop_last());
        assert forall|j: int| s.len() - trailing_ws(s) <= j < s.len() implies is_ws(s[j]) by {
            if j < s.len() - 1 {
                assert(s[j] == s.drop_last()[j]);
            }
        }
    }
}

/// Trimming and ASCII lowercasing can be done in either order.
pub proof fn lemma_trim_ascii_lowercase(s: Seq<char>)
    ensures
        trim(ascii_lowercase(s)) == ascii_lowercase(trim(s)),
        is_ascii_text(trim(s)) ==> is_ascii_text(trim(ascii_lowercase(s))),
{
    lemma_leading_ws_ascii_lowercase(s);
    lemma_trailing_ws_ascii_lowercase(s);
    lemma_ascii_lowercase(trim(s));
    lemma_leading_ws_chars(s);
    lemma_trailing_ws_chars(s);
    if leading_ws(s) == s.len() {
        assert(ascii_lowercase(trim(s)) =~= Seq::<char>::empty());
    } else {
        assert(!is_ws(s[leading_ws(s) as int]));
        assert(leading_ws(s) < s.len() - trailing_ws(s));
        assert(ascii_lowercase(s).subrange(leading_ws(s) as int, s.len() - trailing_ws(s)) =~= ascii_lowercase(
            s.subrange(leading_ws(s) as int, s.len() - trailing_ws(s)),
        ));
    }
}

/// The lowercase form of a string slice, as characters.
pub fn lowercase_of_str(s: &str) -> (r: Vec<char>)
    ensures
        r@ == lowercase(s@),
        is_ascii_text(s@) ==> r@ == ascii_lowercase(s@),
{
    let l = str_to_lowercase(s);
    chars_of(l.as_str())
}

/// The lowercase form of a sequence of characters.
pub fn lowercase_chars(v: &[char]) -> (r: Vec<char>)
    ensures
        r@ == lowercase(v@),
        is_ascii_text(v@) ==> r@ == ascii_lowercase(v@),
{
    let s = string_from_chars(v);
    lowercase_of_str(s.as_str())
}

/// Number of white-space characters at the start of `s`.
pub open spec fn leading_ws(s: Seq<char>) -> nat
    decreases s.len(),
{
    if s.len() > 0 && is_ws(s[0]) {
        1 + leading_ws(s.drop_first())
    } else {
        0
    }
}

/// Number of white-space characters at the end of `s`.
pub open spec fn trailing_ws(s: Seq<char>) -> nat
    decreases s.len(),
{
    if s.len() > 0 && is_ws(s.last()) {
        1 + trailing_ws(s.drop_last())
    } else {
        0
    }
}

/// `s` without its leading and trailing white space (what `str::trim` returns).
pub open spec fn trim(s: Seq<char>) -> Seq<char> {
    if leading_ws(s) == s.len() {
        Seq::empty()
    } else {
        s.subrange(leading_ws(s) as int, s.len() - trailing_ws(s))
    }
}

proof fn lemma_leading_ws(s: Seq<char>, k: int)
    requires
        0 <= k <= s.len(),
        forall|i: int| 0 <= i < k ==> is_ws(s[i]),
        k == s.len() || !is_ws(s[k]),
    ensures
        leading_ws(s) == k,
    decreases k,
{
    if k > 0 {
        lemma_leading_ws(s.drop_first(), k - 1);
    }
}

proof fn lemma_trailing_ws(s: Seq<char>, k: int)
    requires
        0 <= k <= s.len(),
        forall|i: int| s.len() - k <= i < s.len() ==> is_ws(s[i]),
        k == s.len() || !is_ws(s[s.len() - k - 1]),
    ensures
        trailing_ws(s) == k,
    decreases k,
{
    if k > 0 {
        lemma_trailing_ws(s.drop_last(), k - 1);
    }
}

/// `v` without its leading and trailing white space.
pub fn trim_chars(v: &[char]) -> (r: Vec<char>)
    ensures
        r@ == trim(v@),
{
    let n = v.len();
    let mut start: usize = 0;
    while start < n && is_whitespace(v[start])
        invariant
            start <= n,
            n == v@.len(),
            forall|i: int| 0 <= i < start ==> is_ws(v@[i]),
        decreases n - start,
    {
        start = start + 1;
    }
    proof {
        lemma_leading_ws(v@, start as int);
    }
    let mut r: Vec<char> = Vec::new();
    if start == n {
        return r;
    }
    let mut end: usize = n;
    while end > start && is_whitespace(v[end - 1])
        invariant
            start < n,
            start <= end <= n,
            n == v@.len(),
            !is_ws(v@[start as int]),
            forall|i: int| end <= i < n ==> is_ws(v@[i]),
        decreases end,
    {
        end = end - 1;
    }
    proof {
        lemma_trailing_ws(v@, n - end);
    }
    let mut i = start;
    while i < end
        invariant
            start <= i <= end <= n,
            n == v@.len(),
            r@ == v@.subrange(start as int, i as int),
        decreases end - i,
    {
        r.push(v[i]);
        i = i + 1;
    }
    r
}


/// Length of the run of non-white-space characters at the start of `s`.
pub open spec fn word_len(s: Seq<char>) -> nat
    decreases s.len(),
{
    if s.len() > 0 && !is_ws(s[0]) {
        1 + word_len(s.drop_first())
    } else {
        0
    }
}

/// The maximal runs of non-white-space characters of `s`, in order
/// (what `str::split_whitespace` yields).
pub open spec fn words(s: Seq<char>) -> Seq<Seq<char>>
    decreases s.len(),
{
    if s.len() == 0 {
        Seq::empty()
    } else if is_ws(s[0]) {
        words(s.drop_first())
    } else {
        proof {
            lemma_word_len_chars(s);
            lemma_word_len_bound(s);
        }
        seq![s.take(word_len(s) as int)] + words(s.skip(word_len(s) as int))
    }
}

proof fn lemma_word_len(s: Seq<char>, k: int)
    requires
        0 <= k <= s.len(),
        forall|i: int| 0 <= i < k ==> !is_ws(s[i]),
        k == s.len() || is_ws(s[k]),
    ensures
        word_len(s) == k,
    decreases k,
{
    if k > 0 {
        lemma_word_len(s.drop_first(), k - 1);
    }
}

pub proof fn lemma_word_len_bound(s: Seq<char>)
    ensures
        word_len(s) <= s.len(),
    decreases s.len(),
{
    if s.len() > 0 && !is_ws(s[0]) {
        lemma_word_len_bound(s.drop_first());
    }
}

/// Every word is non-empty and holds no white space.
pub proof fn lemma_words_shape(s: Seq<char>)
    ensures
        forall|i: int|
            0 <= i < words(s).len() ==> #[trigger] words(s)[i].len() > 0 && forall|j: int|
                0 <= j < words(s)[i].len() ==> !is_ws(words(s)[i][j]),
    decreases s.len(),
{
    if s.len() == 0 {
    } else if is_ws(s[0]) {
        lemma_words_shape(s.drop_first());
        assert(words(s) == words(s.drop_first()));
    } else {
        let k = word_len(s) as int;
        lemma_word_len_bound(s);
        lemma_word_len_chars(s);
        lemma_words_shape(s.skip(k));
        assert forall|i: int| 0 <= i < words(s).len() implies #[trigger] words(s)[i].len() > 0
            && forall|j: int| 0 <= j < words(s)[i].len() ==> !is_ws(words(s)[i][j]) by {
            if i > 0 {
                assert(words(s)[i] == words(s.skip(k))[i - 1]);
            }
        }
    }
}

/// The words of an ASCII text are ASCII.
pub proof fn lemma_words_ascii(s: Seq<char>)
    requires
        is_ascii_text(s),
    ensures
        forall|i: int| 0 <= i < words(s).len() ==> is_ascii_text(#[trigger] words(s)[i]),
    decreases s.len(),
{
    if s.len() == 0 {
    } else if is_ws(s[0]) {
        lemma_words_ascii(s.drop_first());
        assert(words(s) == words(s.drop_first()));
    } else {
        let k = word_len(s) as int;
        lemma_word_len_bound(s);
        lemma_word_len_chars(s);
        lemma_words_ascii(s.skip(k));
        assert forall|i: int| 0 <= i < words(s).len() implies is_ascii_text(#[trigger] words(s)[i]) by {
            if i > 0 {
                assert(words(s)[i] == words(s.skip(k))[i - 1]);
            } else {
                assert(words(s)[0] == s.take(k));
            }
        }
    }
}

pub proof fn lemma_word_len_chars(s: Seq<char>)
    ensures
        forall|j: int| 0 <= j < word_len(s) ==> !is_ws(s[j]),
        s.len() > 0 && !is_ws(s[0]) ==> word_len(s) > 0,
    decreases s.len(),
{
    if s.len() > 0 && !is_ws(s[0]) {
        lemma_word_len_chars(s.drop_first());
        lemma_word_len_bound(s.drop_first());
        assert forall|j: int| 0 <= j < word_len(s) implies !is_ws(s[j]) by {
            if j > 0 {
                assert(s[j] == s.drop_first()[j - 1]);
            }
        }
    }
}

/// The white-space separated words of `v`.
pub fn split_whitespace(v: &[char]) -> (r: Vec<Vec<char>>)
    ensures
        r@.map_values(|w: Vec<char>| w@) == words(v@),
{
    let n = v.len();
    let mut r: Vec<Vec<char>> = Vec::new();
    let mut pos: usize = 0;
    assert(v@.skip(0) == v@);
    while pos < n
        invariant
            pos <= n,
            n == v@.len(),
            words(v@) == r@.map_values(|w: Vec<char>| w@) + words(v@.skip(pos as int)),
        decreases n - pos,
    {
        let ghost rest = v@.skip(pos as int);
        if is_whitespace(v[pos]) {
            assert(rest.drop_first() == v@.skip(pos + 1));
            pos = pos + 1;
        } else {
            let mut end = pos;
            let mut w: Vec<char> = Vec::new();
            while end < n && !is_whitespace(v[end])
                invariant
                    pos <= end <= n,
                    n == v@.len(),
                    w@ == v@.subrange(pos as int, end as int),
                    forall|i: int| pos <= i < end ==> !is_ws(v@[i]),
                decreases n - end,
            {
                w.push(v[end]);
                end = end + 1;
            }
            proof {
                lemma_word_len(rest, end - pos);
                assert(rest.take(end - pos) == w@);
                assert(rest.skip(end - pos) == v@.skip(end as int));
            }
            let ghost before = r@;
            r.push(w);
            proof {
                assert(r@ == before.push(w));
                before.lemma_push_map_commute(|x: Vec<char>| x@, w);
                assert(r@.map_values(|x: Vec<char>| x@) == before.map_values(|x: Vec<char>| x@).push(w@));
                assert(words(v@) == before.map_values(|x: Vec<char>| x@) + (seq![w@] + words(v@.skip(end as int))));
            }
            pos = end;
        }
    }
    proof {
        assert(v@.skip(n as int).len() == 0);
    }
    r
}


/// The parts joined with `sep` between consecutive parts (what `join` on a
/// slice of strings returns).
pub open spec fn join(parts: Seq<Seq<char>>, sep: Seq<char>) -> Seq<char>
    decreases parts.len(),
{
    if parts.len() == 0 {
        Seq::empty()
    } else if parts.len() == 1 {
        parts[0]
    } else {
        join(parts.drop_last(), sep) + sep + parts.last()
    }
}

/// Appends all of `src` to `dst`.
pub fn append_chars(dst: &mut Vec<char>, src: &[char])
    ensures
        final(dst)@ == old(dst)@ + src@,
{
    let n = src.len();
    let mut i: usize = 0;
    while i < n
        invariant
            i <= n,
            n == src@.len(),
            dst@ == old(dst)@ + src@.take(i as int),
        decreases n - i,
    {
        dst.push(src[i]);
        i = i + 1;
        assert(src@.take(i as int) == src@.take(i - 1).push(src@[i - 1]));
    }
    assert(src@.take(n as int) == src@);
}

/// A copy of `v`.
pub fn clone_chars(v: &[char]) -> (r: Vec<char>)
    ensures
        r@ == v@,
{
    let mut r: Vec<char> = Vec::new();
    append_chars(&mut r, v);
    r
}

/// The parts joined with `sep` between consecutive parts.
pub fn join_chars(parts: &Vec<Vec<char>>, sep: &[char]) -> (r: Vec<char>)
    ensures
        r@ == join(parts@.map_values(|p: Vec<char>| p@), sep@),
{
    let ghost views = parts@.map_values(|p: Vec<char>| p@);
    let n = parts.len();
    let mut r: Vec<char> = Vec::new();
    let mut i: usize = 0;
    while i < n
        invariant
            i <= n,
            n == parts@.len(),
            views == parts@.map_values(|p: Vec<char>| p@),
            r@ == join(views.take(i as int), sep@),
        decreases n - i,
    {
        if i > 0 {
            append_chars(&mut r, sep);
        }
        append_chars(&mut r, parts[i].as_slice());
        i = i + 1;
        assert(views.take(i as int).drop_last() == views.take(i - 1));
    }
    assert(views.take(n as int) == views);
    r
}

/// The character of a decimal digit.
pub open spec fn digit_char(d: nat) -> char {
    (d + 48) as char
}

/// The decimal representation of `n` (what `to_string` gives for an
/// unsigned integer).
pub open spec fn decimal(n: nat) -> Seq<char>
    decreases n,
{
    if n < 10 {
        seq![digit_char(n)]
    } else {
        decimal(n / 10).push(digit_char(n % 10))
    }
}

/// The decimal representation of `n`.
pub fn u64_to_decimal(n: u64) -> (r: Vec<char>)
    ensures
        r@ == decimal(n as nat),
{
    let mut rest = n;
    let mut r: Vec<char> = Vec::new();
    loop
        invariant
            decimal(n as nat) == decimal(rest as nat) + r@,
        decreases rest,
    {
        let d = (rest % 10) as u8;
        r.insert(0, (d + 48u8) as char);
        if rest < 10 {
            assert(decimal(rest as nat) == seq![digit_char(rest as nat)]);
            return r;
        }
        proof {
            assert(decimal(rest as nat) == decimal((rest / 10) as nat).push(digit_char((rest % 10) as nat)));
        }
        rest = rest / 10;
    }
}

/// Whether `c` is an ASCII decimal digit.
pub open spec fn is_digit(c: char) -> bool {
    '0' <= c && c <= '9'
}

/// The value of a sequence of decimal digits.
pub open spec fn digits_value(s: Seq<char>) -> nat
    decreases s.len(),
{
    if s.len() == 0 {
        0
    } else {
        digits_value(s.drop_last()) * 10 + ((s.last() as int - 48) as nat)
    }
}

/// Whether every character of `s` is a decimal digit.
pub open spec fn all_digits(s: Seq<char>) -> bool {
    forall|i: int| 0 <= i < s.len() ==> is_digit(s[i])
}

/// The part of `s` after an optional leading `+` sign.
pub open spec fn unsigned_digits(s: Seq<char>) -> Seq<char> {
    if s.len() > 0 && s[0] == '+' {
        s.drop_first()
    } else {
        s
    }
}

/// What `str::parse::<u32>` returns: an optional `+` sign followed by at
/// least one decimal digit, with a value that fits in 32 bits.
pub open spec fn parse_u32(s: Seq<char>) -> Option<u32> {
    let digits = unsigned_digits(s);
    if digits.len() > 0 && all_digits(digits) && digits_value(digits) <= u32::MAX {
        Some(digits_value(digits) as u32)
    } else {
        None
    }
}

/// Parses a 32-bit unsigned decimal number as `str::parse::<u32>` does.
pub fn parse_u32_chars(s: &[char]) -> (r: Option<u32>)
    ensures
        r == parse_u32(s@),
{
    let n = s.len();
    let start: usize = if n > 0 && s[0] == '+' {
        1
    } else {
        0
    };
    let ghost digits = unsigned_digits(s@);
    assert(digits == s@.skip(start as int));
    if start == n {
        return None;
    }
    let mut value: u64 = 0;
    let mut i = start;
    while i < n
        invariant
            start < n,
            start <= i <= n,
            n == s@.len(),
            digits == s@.skip(start as int),
            digits == unsigned_digits(s@),
            digits.len() == n - start,
            value as nat == digits_value(digits.take(i - start)),
            value <= u32::MAX,
            forall|j: int| start <= j < i ==> is_digit(s@[j]),
        decreases n - i,
    {
        let c = s[i];
        if !('0' <= c && c <= '9') {
            assert(digits[i - start] == c);
            assert(!all_digits(digits));
            return None;
        }
        let d = (c as u32 - 48) as u64;
        assert(digits.take(i - start + 1).drop_last() == digits.take(i - start));
        assert(digits.take(i - start + 1).last() == c);
        value = value * 10 + d;
        i = i + 1;
        if value > 0xffff_ffff {
            proof {
                if all_digits(digits) {
                    lemma_digits_value_prefix_mono(digits, i - start);
                }
            }
            return None;
        }
    }
    assert(digits.take(n - start) == digits);
    assert(all_digits(digits)) by {
        assert forall|j: int| 0 <= j < digits.len() implies is_digit(digits[j]) by {
            assert(digits[j] == s@[j + start]);
        }
    }
    Some(value as u32)
}

/// A longer digit prefix never has a smaller value.
proof fn lemma_digits_value_prefix_mono(s: Seq<char>, k: int)
    requires
        0 <= k <= s.len(),
        all_digits(s),
    ensures
        digits_value(s.take(k)) <= digits_value(s),
    decreases s.len() - k,
{
    if k < s.len() {
        lemma_digits_value_prefix_mono(s, k + 1);
        assert(s.take(k + 1).last() == s[k]);
        assert(s.take(k + 1).drop_last() == s.take(k));
    } else {
        assert(s.take(k) == s);
    }
}

/// The value of the decimal representation of `n` is `n`.
pub proof fn lemma_decimal_value(n: nat)
    ensures
        digits_value(decimal(n)) == n,
        decimal(n).len() > 0,
        forall|i: int| 0 <= i < decimal(n).len() ==> is_digit(#[trigger] decimal(n)[i]),
        decimal(n)[0] != '+',
    decreases n,
{
    assert(digit_char(n % 10) as int == n % 10 + 48);
    if n >= 10 {
        lemma_decimal_value(n / 10);
        let s = decimal(n);
        assert(s.drop_last() == decimal(n / 10));
        assert(s.last() == digit_char(n % 10));
        assert(digits_value(s) == digits_value(decimal(n / 10)) * 10 + n % 10);
        assert(n == (n / 10) * 10 + n % 10);
        assert forall|i: int| 0 <= i < s.len() implies is_digit(#[trigger] s[i]) by {
            if i < s.len() - 1 {
                assert(s[i] == decimal(n / 10)[i]);
            }
        }
    } else {
        let s = decimal(n);
        assert(s.drop_last().len() == 0);
        assert(digits_value(s.drop_last()) == 0);
        assert(s.last() == digit_char(n));
        assert(digit_char(n) as int == n + 48);
    }
}

/// Parsing the decimal representation of a 32-bit number gives it back.
pub proof fn lemma_parse_decimal(n: u32)
    ensures
        parse_u32(decimal(n as nat)) == Some(n),
{
    lemma_decimal_value(n as nat);
}


/// Number of characters before the first line feed of `s` (all of `s` when
/// it has none).
pub open spec fn line_len(s: Seq<char>) -> nat
    decreases s.len(),
{
    if s.len() > 0 && s[0] != '\n' {
        1 + line_len(s.drop_first())
    } else {
        0
    }
}

proof fn lemma_line_len(s: Seq<char>, k: int)
    requires
        0 <= k <= s.len(),
        forall|i: int| 0 <= i < k ==> s[i] != '\n',
        k == s.len() || s[k] == '\n',
    ensures
        line_len(s) == k,
    decreases k,
{
    if k > 0 {
        lemma_line_len(s.drop_first(), k - 1);
    }
}

/// `line_len` stays within the sequence.
pub proof fn lemma_line_len_bound(s: Seq<char>)
    ensures
        line_len(s) <= s.len(),
    decreases s.len(),
{
    if s.len() > 0 && s[0] != '\n' {
        lemma_line_len_bound(s.drop_first());
    }
}

/// A line without its line ending: the `\r` of a `\r\n` ending is dropped.
pub open spec fn strip_cr(line: Seq<char>, ended: bool) -> Seq<char> {
    if ended && line.len() > 0 && line.last() == '\r' {
        line.drop_last()
    } else {
        line
    }
}

/// The lines of `s` (what `str::lines` yields): split at `\n` or `\r\n`,
/// without the line endings; a final line ending adds no empty line.
pub open spec fn lines(s: Seq<char>) -> Seq<Seq<char>>
    decreases s.len(),
{
    if s.len() == 0 {
        Seq::empty()
    } else {
        proof {
            lemma_line_len_bound(s);
        }
        let k = line_len(s) as int;
        if k == s.len() {
            seq![s]
        } else {
            seq![strip_cr(s.take(k), true)] + lines(s.skip(k + 1))
        }
    }
}

/// The lines of `v`.
pub fn split_lines(v: &[char]) -> (r: Vec<Vec<char>>)
    ensures
        r@.map_values(|l: Vec<char>| l@) == lines(v@),
{
    let n = v.len();
    let mut r: Vec<Vec<char>> = Vec::new();
    let mut pos: usize = 0;
    assert(v@.skip(0) == v@);
    while pos < n
        invariant
            pos <= n,
            n == v@.len(),
            lines(v@) == r@.map_values(|l: Vec<char>| l@) + lines(v@.skip(pos as int)),
        decreases n - pos,
    {
        let ghost rest = v@.skip(pos as int);
        let mut end = pos;
        while end < n && v[end] != '\n'
            invariant
                pos <= end <= n,
                n == v@.len(),
                forall|i: int| pos <= i < end ==> v@[i] != '\n',
            decreases n - end,
        {
            end = end + 1;
        }
        proof {
            lemma_line_len(rest, end - pos);
        }
        let mut line: Vec<char> = Vec::new();
        let mut stop = end;
        if end < n && end > pos && v[end - 1] == '\r' {
            stop = end - 1;
        }
        let mut i = pos;
        while i < stop
            invariant
                pos <= i <= stop <= end <= n,
                n == v@.len(),
                line@ == v@.subrange(pos as int, i as int),
            decreases stop - i,
        {
            line.push(v[i]);
            i = i + 1;
        }
        let ghost before = r@;
        let ghost lv = line@;
        r.push(line);
        proof {
            assert(r@ == before.push(line));
            assert(r@.map_values(|l: Vec<char>| l@) =~= before.map_values(|l: Vec<char>| l@).push(lv));
            if end == n {
                assert(rest.take(end - pos) =~= rest);
                assert(lv =~= rest);
                assert(lines(rest) == seq![rest]);
                assert(v@.skip(n as int).len() == 0);
                assert(lines(v@.skip(n as int)) =~= Seq::<Seq<char>>::empty());
            } else {
                assert(lv =~= strip_cr(rest.take(end - pos), true));
                assert(rest.skip(end - pos + 1) =~= v@.skip(end + 1));
            }
        }
        if end == n {
            pos = n;
        } else {
            pos = end + 1;
        }
    }
    proof {
        assert(v@.skip(n as int).len() == 0);
    }
    r
}

/// Index of the last occurrence of `c` in `s`, if any.
pub open spec fn last_index_of(s: Seq<char>, c: char) -> Option<int>
    decreases s.len(),
{
    if s.len() == 0 {
        None
    } else if s.last() == c {
        Some(s.len() - 1)
    } else {
        last_index_of(s.drop_last(), c)
    }
}

/// Index of the first occurrence of `c` in `s`, if any.
pub open spec fn first_index_of(s: Seq<char>, c: char) -> Option<int> {
    if exists|i: int| 0 <= i < s.len() && s[i] == c {
        Some(choose|i: int| 0 <= i < s.len() && s[i] == c && forall|j: int| 0 <= j < i ==> s[j] != c)
    } else {
        None
    }
}

/// A found last occurrence is in range and holds `c`, with no `c` after it.
pub proof fn lemma_last_index_of(s: Seq<char>, c: char)
    ensures
        last_index_of(s, c) matches Some(i) ==> 0 <= i < s.len() && s[i] == c && forall|j: int|
            i < j < s.len() ==> s[j] != c,
        last_index_of(s, c) is None ==> forall|j: int| 0 <= j < s.len() ==> s[j] != c,
    decreases s.len(),
{
    if s.len() > 0 && s.last() != c {
        let t = s.drop_last();
        lemma_last_index_of(t, c);
        assert forall|j: int| 0 <= j < t.len() implies t[j] == s[j] by {}
    }
}

/// Index of the last occurrence of `c` in `v`, if any.
pub fn rfind_char(v: &[char], c: char) -> (r: Option<usize>)
    ensures
        index_of_found(r) == last_index_of(v@, c),
{
    let mut i = v.len();
    assert(v@.take(i as int) == v@);
    while i > 0
        invariant
            i <= v@.len(),
            last_index_of(v@, c) == last_index_of(v@.take(i as int), c),
        decreases i,
    {
        assert(v@.take(i as int).drop_last() == v@.take(i - 1));
        if v[i - 1] == c {
            return Some(i - 1);
        }
        i = i - 1;
    }
    None
}

/// Index of the first occurrence of `c` in `v`, if any.
pub fn find_char(v: &[char], c: char) -> (r: Option<usize>)
    ensures
        index_of_found(r) == first_index_of(v@, c),
        r matches Some(i) ==> i < v@.len() && v@[i as int] == c,
{
    let n = v.len();
    let mut i: usize = 0;
    while i < n
        invariant
            i <= n,
            n == v@.len(),
            forall|j: int| 0 <= j < i ==> v@[j] != c,
        decreases n - i,
    {
        if v[i] == c {
            let ghost k = choose|k: int| 0 <= k < v@.len() && v@[k] == c && forall|j: int| 0 <= j < k ==> v@[j] != c;
            assert(k == i) by {
                if k < i {
                } else if k > i {
                }
            }
            return Some(i);
        }
        i = i + 1;
    }
    None
}

/// What a search returned, as an index.
pub open spec fn index_of_found(r: Option<usize>) -> Option<int> {
    match r {
        Some(i) => Some(i as int),
        None => None,
    }
}

/// The pieces of `s` between occurrences of `sep` (what `str::split` with a
/// character yields): one more piece than there are separators.
pub open spec fn split_on(s: Seq<char>, sep: char) -> Seq<Seq<char>>
    decreases s.len(),
{
    if s.len() == 0 {
        seq![Seq::<char>::empty()]
    } else {
        let r = split_on(s.drop_last(), sep);
        if s.last() == sep {
            r.push(Seq::empty())
        } else {
            r.update(r.len() - 1, r.last().push(s.last()))
        }
    }
}

/// There is always at least one piece.
pub proof fn lemma_split_on_len(s: Seq<char>, sep: char)
    ensures
        split_on(s, sep).len() >= 1,
    decreases s.len(),
{
    if s.len() > 0 {
        lemma_split_on_len(s.drop_last(), sep);
    }
}

/// The pieces of `v` between occurrences of `sep`.
pub fn split_chars(v: &[char], sep: char) -> (r: Vec<Vec<char>>)
    ensures
        r@.map_values(|p: Vec<char>| p@) == split_on(v@, sep),
{
    let n = v.len();
    let mut done: Vec<Vec<char>> = Vec::new();
    let mut cur: Vec<char> = Vec::new();
    let mut i: usize = 0;
    assert(v@.take(0) =~= Seq::<char>::empty());
    assert(done@.map_values(|p: Vec<char>| p@).push(cur@) =~= split_on(v@.take(0), sep));
    while i < n
        invariant
            i <= n,
            n == v@.len(),
            done@.map_values(|p: Vec<char>| p@).push(cur@) == split_on(v@.take(i as int), sep),
        decreases n - i,
    {
        let ghost before = done@.map_values(|p: Vec<char>| p@);
        let ghost cur_before = cur@;
        proof {
            assert(v@.take(i + 1).drop_last() =~= v@.take(i as int));
            assert(v@.take(i + 1).last() == v@[i as int]);
            lemma_split_on_len(v@.take(i as int), sep);
        }
        if v[i] == sep {
            let piece = cur;
            cur = Vec::new();
            done.push(piece);
            assert(done@.map_values(|p: Vec<char>| p@) =~= before.push(cur_before));
            assert(done@.map_values(|p: Vec<char>| p@).push(cur@) =~= split_on(v@.take(i + 1), sep));
        } else {
            cur.push(v[i]);
            assert(done@.map_values(|p: Vec<char>| p@).push(cur@) =~= before.push(cur_before).update(
                before.len() as int,
                cur_before.push(v@[i as int]),
            ));
        }
        i = i + 1;
    }
    assert(v@.take(n as int) =~= v@);
    let ghost before = done@.map_values(|p: Vec<char>| p@);
    let last = cur;
    done.push(last);
    assert(done@.map_values(|p: Vec<char>| p@) =~= before.push(last@));
    done
}

} // verus!
