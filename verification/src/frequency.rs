//! Arabic word frequency ranks, used to rank transliteration candidates.
//!
//! The data is a word list in descending frequency, one `<word> <count>`
//! line per word (the OpenSubtitles 2018 corpus list, CC-BY-SA-4.0); a word's
//! rank is the index of its line (0 = most common).

use vstd::prelude::*;
use crate::assoc::{assoc_get, assoc_insert, assoc_map, keys_distinct, plain_view};
use crate::text::{chars_of, last_index_of, lemma_last_index_of, lines, rfind_char, split_lines};

verus! {

/// The word of a `<word> <count>` line: what comes before its last space.
pub open spec fn word_of_line(line: Seq<char>) -> Option<Seq<char>> {
    match last_index_of(line, ' ') {
        Some(i) => Some(line.take(i)),
        None => None,
    }
}

/// The ranks given by a list of lines: each line with a space ranks its
/// word by the line's index; a later line for the same word wins.
pub open spec fn ranks_of_lines(ls: Seq<Seq<char>>) -> Map<Seq<char>, u32>
    decreases ls.len(),
{
    if ls.len() == 0 {
        Map::empty()
    } else {
        let m = ranks_of_lines(ls.drop_last());
        match word_of_line(ls.last()) {
            Some(w) => m.insert(w, (ls.len() - 1) as u32),
            None => m,
        }
    }
}

/// The ranks given by the text of a frequency list.
pub open spec fn frequency_ranks(data: Seq<char>) -> Map<Seq<char>, u32> {
    ranks_of_lines(lines(data))
}

/// Maps an Arabic word to its frequency rank (0 = most common).
pub struct FrequencyList {
    ranks: Vec<(Vec<char>, u32)>,
}

impl View for FrequencyList {
    type V = Map<Seq<char>, u32>;

    closed spec fn view(&self) -> Map<Seq<char>, u32> {
        assoc_map(plain_view(self.ranks@))
    }
}

impl FrequencyList {
    #[verifier::type_invariant]
    spec fn keys_unique(&self) -> bool {
        keys_distinct(plain_view(self.ranks@))
    }

    /// Reads a frequency list: one `<word> <count>` line per word, most
    /// common first.
    pub fn load(data: &str) -> (f: Self)
        ensures
            f@ == frequency_ranks(data@),
    {
        let text = chars_of(data);
        let ls = split_lines(text.as_slice());
        let ghost lv = ls@.map_values(|l: Vec<char>| l@);
        let n = ls.len();
        let mut ranks: Vec<(Vec<char>, u32)> = Vec::new();
        let mut rank: usize = 0;
        assert(plain_view(ranks@) =~= Seq::empty());
        while rank < n
            invariant
                rank <= n,
                n == ls@.len(),
                lv == ls@.map_values(|l: Vec<char>| l@),
                keys_distinct(plain_view(ranks@)),
                assoc_map(plain_view(ranks@)) == ranks_of_lines(lv.take(rank as int)),
            decreases n - rank,
        {
            let line = &ls[rank];
            assert(lv[rank as int] == line@);
            proof {
                lemma_last_index_of(line@, ' ');
                assert(lv.take(rank + 1).drop_last() == lv.take(rank as int));
                assert(lv.take(rank + 1).last() == line@);
            }
            if let Some(i) = rfind_char(line.as_slice(), ' ') {
                let mut word: Vec<char> = Vec::new();
                let mut j: usize = 0;
                while j < i
                    invariant
                        j <= i,
                        i < line@.len(),
                        word@ == line@.take(j as int),
                    decreases i - j,
                {
                    word.push(line[j]);
                    j = j + 1;
                }
                assoc_insert(&mut ranks, word, rank as u32);
            }
            rank = rank + 1;
        }
        assert(lv.take(n as int) == lv);
        FrequencyList { ranks }
    }

    /// The rank of a word (lower = more common), if it is in the list.
    pub fn rank(&self, word: &str) -> (r: Option<u32>)
        ensures
            r == (if self@.contains_key(word@) {
                Some(self@[word@])
            } else {
                None::<u32>
            }),
    {
        let w = chars_of(word);
        self.rank_chars(w.as_slice())
    }

    /// The rank of a word given as characters, if it is in the list.
    pub fn rank_chars(&self, word: &[char]) -> (r: Option<u32>)
        ensures
            r == (if self@.contains_key(word@) {
                Some(self@[word@])
            } else {
                None::<u32>
            }),
    {
        proof {
            use_type_invariant(self);
        }
        assoc_get(&self.ranks, word)
    }
}

impl Default for FrequencyList {
    /// An empty list.
    fn default() -> (f: Self)
        ensures
            f@ == Map::<Seq<char>, u32>::empty(),
    {
        let f = FrequencyList { ranks: Vec::new() };
        assert(plain_view(f.ranks@) =~= Seq::empty());
        f
    }
}

} // verus!
