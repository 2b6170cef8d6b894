//! Vocalized Arabic word list (from the Tashkeela corpus, Taha Zerrouki, GPL).
//!
//! One vocalized form per line, `<form>\t<count>`, sorted by descending
//! corpus frequency. It serves as a ranking signal (a candidate whose
//! tashkeel-stripped form is in the list is almost certainly a real word) and
//! as a tashkeel lookup (the most frequent vocalized form of a base form).
//! An empty list is valid: it is the placeholder before the corpus is built.

use vstd::prelude::*;
use crate::assoc::{assoc_map, find_key, keys_distinct, lemma_assoc_map_dom, lemma_assoc_map_get, lemma_assoc_map_push};
use crate::text::{chars_of, find_char, first_index_of, lines, split_lines, string_from_chars, trim, trim_chars};

verus! {

/// The tashkeel marks: the harakat U+064B..U+0652, the superscript alef
/// U+0670 and the Quranic marks U+0610..U+061A.
pub open spec fn is_tashkeel(c: char) -> bool {
    ||| (0x064B <= c as u32 && c as u32 <= 0x0652)
    ||| c as u32 == 0x0670
    ||| (0x0610 <= c as u32 && c as u32 <= 0x061A)
}

/// A text with its tashkeel marks taken out.
pub open spec fn without_tashkeel(s: Seq<char>) -> Seq<char>
    decreases s.len(),
{
    if s.len() == 0 {
        s
    } else {
        let r = without_tashkeel(s.drop_last());
        if is_tashkeel(s.last()) {
            r
        } else {
            r.push(s.last())
        }
    }
}

/// The vocalized form of a trimmed line: what comes before its first tab.
pub open spec fn vocal_of_line(t: Seq<char>) -> Seq<char> {
    match first_index_of(t, '\t') {
        Some(i) => t.take(i),
        None => t,
    }
}

/// The (base form, vocalized form) that a line contributes, if any: blank
/// lines and forms made only of marks contribute nothing.
pub open spec fn line_entry(line: Seq<char>) -> Option<(Seq<char>, Seq<char>)> {
    let t = trim(line);
    if t.len() == 0 {
        None
    } else {
        let v = vocal_of_line(t);
        let b = without_tashkeel(v);
        if b.len() == 0 {
            None
        } else {
            Some((b, v))
        }
    }
}

/// Base form -> (rank, vocalized form) for a list of lines: a base's rank is
/// the index of the first line that gives it, and its vocalized form is that
/// line's.
pub open spec fn entries_of_lines(ls: Seq<Seq<char>>) -> Map<Seq<char>, (u32, Seq<char>)>
    decreases ls.len(),
{
    if ls.len() == 0 {
        Map::empty()
    } else {
        let m = entries_of_lines(ls.drop_last());
        match line_entry(ls.last()) {
            Some((b, v)) => if m.contains_key(b) {
                m
            } else {
                m.insert(b, ((ls.len() - 1) as u32, v))
            },
            None => m,
        }
    }
}

/// The entries given by the text of the list.
pub open spec fn tashkeela_entries(data: Seq<char>) -> Map<Seq<char>, (u32, Seq<char>)> {
    entries_of_lines(lines(data))
}

/// The entries of a stored list, by the views of their parts.
pub open spec fn stored_view(v: Seq<(Vec<char>, (u32, String))>) -> Seq<(Seq<char>, (u32, Seq<char>))> {
    v.map_values(|e: (Vec<char>, (u32, String))| (e.0@, (e.1.0, e.1.1@)))
}

/// Takes the tashkeel marks out of a text.
pub fn strip_tashkeel(s: &[char]) -> (r: Vec<char>)
    ensures
        r@ == without_tashkeel(s@),
{
    let n = s.len();
    let mut out: Vec<char> = Vec::new();
    let mut i: usize = 0;
    while i < n
        invariant
            i <= n,
            n == s@.len(),
            out@ == without_tashkeel(s@.take(i as int)),
        decreases n - i,
    {
        let c = s[i];
        assert(s@.take(i + 1).drop_last() =~= s@.take(i as int));
        let code = c as u32;
        let mark = (0x064Bu32 <= code && code <= 0x0652u32) || code == 0x0670u32 || (0x0610u32 <= code
            && code <= 0x061Au32);
        if !mark {
            out.push(c);
        }
        i = i + 1;
    }
    assert(s@.take(n as int) =~= s@);
    out
}

/// The (base form, vocalized form) that a line contributes, if any.
fn entry_of_line(raw: &[char]) -> (r: Option<(Vec<char>, Vec<char>)>)
    ensures
        r matches Some((b, v)) ==> line_entry(raw@) == Some((b@, v@)),
        r is None ==> line_entry(raw@) is None,
{
    let line = trim_chars(raw);
    if line.len() == 0 {
        return None;
    }
    let vocal: Vec<char> = match find_char(line.as_slice(), '\t') {
        Some(i) => {
            let mut v: Vec<char> = Vec::new();
            let mut j: usize = 0;
            while j < i
                invariant
                    j <= i,
                    i <= line@.len(),
                    v@ == line@.take(j as int),
                decreases i - j,
            {
                v.push(line[j]);
                j = j + 1;
            }
            v
        },
        None => crate::text::clone_chars(line.as_slice()),
    };
    assert(vocal@ == vocal_of_line(line@));
    let base = strip_tashkeel(vocal.as_slice());
    if base.len() == 0 {
        return None;
    }
    Some((base, vocal))
}

/// Base forms of the corpus with their frequency rank and most frequent
/// vocalized form.
pub struct TashkeelaList {
    entries: Vec<(Vec<char>, (u32, String))>,
}

impl View for TashkeelaList {
    type V = Map<Seq<char>, (u32, Seq<char>)>;

    closed spec fn view(&self) -> Map<Seq<char>, (u32, Seq<char>)> {
        assoc_map(stored_view(self.entries@))
    }
}

impl TashkeelaList {
    #[verifier::type_invariant]
    spec fn keys_unique(&self) -> bool {
        keys_distinct(stored_view(self.entries@))
    }

    /// Reads the list: one `<form>\t<count>` line per vocalized form, most
    /// frequent first; the first line of a base form wins.
    pub fn load(data: &str) -> (t: Self)
        ensures
            t@ == tashkeela_entries(data@),
    {
        let text = chars_of(data);
        let ls = split_lines(text.as_slice());
        let ghost lv = ls@.map_values(|l: Vec<char>| l@);
        let n = ls.len();
        let mut entries: Vec<(Vec<char>, (u32, String))> = Vec::new();
        let mut rank: usize = 0;
        assert(stored_view(entries@) =~= Seq::empty());
        while rank < n
            invariant
                rank <= n,
                n == ls@.len(),
                lv == ls@.map_values(|l: Vec<char>| l@),
                keys_distinct(stored_view(entries@)),
                assoc_map(stored_view(entries@)) == entries_of_lines(lv.take(rank as int)),
            decreases n - rank,
        {
            let ghost sv = stored_view(entries@);
            proof {
                assert(lv[rank as int] == ls@[rank as int]@);
                assert(lv.take(rank + 1).drop_last() =~= lv.take(rank as int));
                assert(lv.take(rank + 1).last() == lv[rank as int]);
            }
            match entry_of_line(ls[rank].as_slice()) {
                Some((base, vocal)) => {
                    proof {
                        lemma_assoc_map_dom(sv, base@);
                    }
                    match find_key(&entries, base.as_slice()) {
                        Some(i) => {
                            proof {
                                assert(sv[i as int].0 == base@);
                            }
                        },
                        None => {
                            proof {
                                assert forall|j: int| 0 <= j < sv.len() implies sv[j].0 != base@ by {
                                    assert(sv[j].0 == entries@[j].0@);
                                }
                            }
                            let vs = string_from_chars(vocal.as_slice());
                            let ghost bv = base@;
                            let r: u32 = rank as u32;
                            proof {
                                lemma_assoc_map_push(sv, bv, (r, vs@));
                            }
                            entries.push((base, (r, vs)));
                            assert(stored_view(entries@) =~= sv.push((bv, (r, vocal@))));
                        },
                    }
                },
                None => {},
            }
            rank = rank + 1;
        }
        assert(lv.take(n as int) =~= lv);
        TashkeelaList { entries }
    }

    /// The rank of a base (unvocalized) form, lower being more common.
    pub fn rank(&self, base: &str) -> (r: Option<u32>)
        ensures
            r == (if self@.contains_key(base@) {
                Some(self@[base@].0)
            } else {
                None::<u32>
            }),
    {
        proof {
            use_type_invariant(self);
        }
        let b = chars_of(base);
        let ghost sv = stored_view(self.entries@);
        proof {
            lemma_assoc_map_dom(sv, b@);
        }
        match find_key(&self.entries, b.as_slice()) {
            Some(i) => {
                proof {
                    lemma_assoc_map_get(sv, i as int);
                }
                Some(self.entries[i].1.0)
            },
            None => {
                proof {
                    assert forall|j: int| 0 <= j < sv.len() implies sv[j].0 != b@ by {
                        assert(sv[j].0 == self.entries@[j].0@);
                    }
                }
                None
            },
        }
    }

    /// The most frequent vocalized form of a base form, if it is known.
    pub fn vocalized(&self, base: &str) -> (r: Option<&str>)
        ensures
            r matches Some(v) ==> self@.contains_key(base@) && v@ == self@[base@].1,
            r is None ==> !self@.contains_key(base@),
    {
        proof {
            use_type_invariant(self);
        }
        let b = chars_of(base);
        let ghost sv = stored_view(self.entries@);
        proof {
            lemma_assoc_map_dom(sv, b@);
        }
        match find_key(&self.entries, b.as_slice()) {
            Some(i) => {
                proof {
                    lemma_assoc_map_get(sv, i as int);
                }
                Some(self.entries[i].1.1.as_str())
            },
            None => {
                proof {
                    assert forall|j: int| 0 <= j < sv.len() implies sv[j].0 != b@ by {
                        assert(sv[j].0 == self.entries@[j].0@);
                    }
                }
                None
            },
        }
    }

    /// The number of base forms in the list.
    pub fn len(&self) -> (n: usize)
        ensures
            n == self@.len(),
    {
        proof {
            use_type_invariant(self);
            crate::assoc::lemma_assoc_map_len(stored_view(self.entries@));
        }
        self.entries.len()
    }

    /// The base forms in the list, each once.
    pub fn bases(&self) -> (r: Vec<String>)
        ensures
            r@.len() == self@.len(),
            forall|b: Seq<char>| self@.contains_key(b) <==> r@.map_values(|s: String| s@).contains(b),
    {
        proof {
            use_type_invariant(self);
            crate::assoc::lemma_assoc_map_len(stored_view(self.entries@));
        }
        let ghost sv = stored_view(self.entries@);
        let n = self.entries.len();
        let mut out: Vec<String> = Vec::new();
        let mut i: usize = 0;
        while i < n
            invariant
                i <= n,
                n == self.entries@.len(),
                sv == stored_view(self.entries@),
                out@.len() == i,
                forall|k: int| 0 <= k < i ==> #[trigger] out@[k]@ == sv[k].0,
            decreases n - i,
        {
            out.push(string_from_chars(self.entries[i].0.as_slice()));
            i = i + 1;
        }
        proof {
            let ov = out@.map_values(|s: String| s@);
            assert forall|b: Seq<char>| assoc_map(sv).contains_key(b) <==> ov.contains(b) by {
                lemma_assoc_map_dom(sv, b);
                if assoc_map(sv).contains_key(b) {
                    let j = choose|j: int| 0 <= j < sv.len() && sv[j].0 == b;
                    assert(ov[j] == b);
                }
                if ov.contains(b) {
                    let j = choose|j: int| 0 <= j < ov.len() && ov[j] == b;
                    assert(sv[j].0 == b);
                }
            }
        }
        out
    }
}

} // verus!
