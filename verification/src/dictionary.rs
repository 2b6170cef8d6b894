//! The dictionary of common Arabizi words and phrases.

use vstd::prelude::*;
use crate::assoc::{assoc_map, keys_distinct, find_key, lemma_assoc_map_get, lemma_assoc_map_dom, lemma_assoc_map_update, lemma_assoc_map_push, lemma_assoc_map_len};
use crate::text::{ascii_lowercase, chars_of, is_ascii_text, lowercase, lowercase_of_str, string_from_chars};

verus! {

/// A table from words (as characters) to lists of words; a key occurs once.
pub struct Dictionary {
    entries: Vec<(Vec<char>, Vec<Vec<char>>)>,
}

/// The plain view of a list of words.
pub open spec fn word_list_view(v: Seq<Vec<char>>) -> Seq<Seq<char>> {
    v.map_values(|w: Vec<char>| w@)
}

impl Dictionary {
    /// The entries, in insertion order, as plain sequences.
    pub closed spec fn entry_views(&self) -> Seq<(Seq<char>, Seq<Seq<char>>)> {
        self.entries@.map_values(
            |e: (Vec<char>, Vec<Vec<char>>)| (e.0@, word_list_view(e.1@)),
        )
    }

    #[verifier::type_invariant]
    spec fn keys_unique(&self) -> bool {
        keys_distinct(self.entry_views())
    }

    /// An empty table.
    pub fn new() -> (d: Self)
        ensures
            d@ == Map::<Seq<char>, Seq<Seq<char>>>::empty(),
    {
        let d = Dictionary { entries: Vec::new() };
        assert(d.entry_views() =~= Seq::empty());
        d
    }

    /// Sets the list for `key`, replacing any earlier one.
    pub fn insert(&mut self, key: Vec<char>, values: Vec<Vec<char>>)
        ensures
            final(self)@ == old(self)@.insert(key@, word_list_view(values@)),
    {
        proof {
            use_type_invariant(&*self);
        }
        let ghost k = key@;
        let ghost vv = word_list_view(values@);
        let ghost before = self.entry_views();
        match find_key(&self.entries, key.as_slice()) {
            Some(i) => {
                proof {
                    lemma_assoc_map_update(before, i as int, vv);
                }
                let mut entries: Vec<(Vec<char>, Vec<Vec<char>>)> = Vec::new();
                std::mem::swap(&mut entries, &mut self.entries);
                entries.set(i, (key, values));
                assert(entries@.map_values(
                    |e: (Vec<char>, Vec<Vec<char>>)| (e.0@, word_list_view(e.1@)),
                ) =~= before.update(i as int, (k, vv)));
                self.entries = entries;
            },
            None => {
                proof {
                    assert forall|j: int| 0 <= j < before.len() implies before[j].0 != k by {
                        assert(before[j].0 == self.entries@[j].0@);
                    }
                    lemma_assoc_map_push(before, k, vv);
                }
                let mut entries: Vec<(Vec<char>, Vec<Vec<char>>)> = Vec::new();
                std::mem::swap(&mut entries, &mut self.entries);
                entries.push((key, values));
                assert(entries@.map_values(
                    |e: (Vec<char>, Vec<Vec<char>>)| (e.0@, word_list_view(e.1@)),
                ) =~= before.push((k, vv)));
                self.entries = entries;
            },
        }
    }

    /// The list stored for `key`, if any.
    pub fn get(&self, key: &[char]) -> (r: Option<&Vec<Vec<char>>>)
        ensures
            r is Some <==> self@.contains_key(key@),
            r matches Some(v) ==> word_list_view(v@) == self@[key@],
    {
        proof {
            use_type_invariant(self);
            lemma_assoc_map_dom(self.entry_views(), key@);
        }
        match find_key(&self.entries, key) {
            Some(i) => {
                proof {
                    lemma_assoc_map_get(self.entry_views(), i as int);
                }
                Some(&self.entries[i].1)
            },
            None => {
                proof {
                    assert forall|j: int| 0 <= j < self.entry_views().len() implies self.entry_views()[j].0 != key@ by {
                        assert(self.entry_views()[j].0 == self.entries@[j].0@);
                    }
                }
                None
            },
        }
    }

    /// Whether `key` has an entry.
    pub fn contains_key(&self, key: &str) -> (r: bool)
        ensures
            r == self@.contains_key(key@),
    {
        let k = chars_of(key);
        self.get(k.as_slice()).is_some()
    }

    /// Number of keys.
    pub fn len(&self) -> (r: usize)
        ensures
            r == self@.len(),
    {
        proof {
            use_type_invariant(self);
            lemma_assoc_map_len(self.entry_views());
        }
        self.entries.len()
    }

    /// The keys, each once.
    pub fn keys(&self) -> (r: Vec<String>)
        ensures
            r@.len() == self@.len(),
            forall|k: Seq<char>| self@.contains_key(k) <==> r@.map_values(|s: String| s@).contains(k),
    {
        proof {
            use_type_invariant(self);
            lemma_assoc_map_len(self.entry_views());
        }
        let ghost ev = self.entry_views();
        let n = self.entries.len();
        let mut r: Vec<String> = Vec::new();
        let mut i: usize = 0;
        while i < n
            invariant
                i <= n,
                n == self.entries@.len(),
                ev == self.entry_views(),
                r@.len() == i,
                forall|j: int| 0 <= j < i ==> #[trigger] r@[j]@ == ev[j].0,
            decreases n - i,
        {
            r.push(string_from_chars(self.entries[i].0.as_slice()));
            i = i + 1;
        }
        proof {
            let rv = r@.map_values(|s: String| s@);
            assert forall|k: Seq<char>| self@.contains_key(k) <==> rv.contains(k) by {
                lemma_assoc_map_dom(ev, k);
                if self@.contains_key(k) {
                    let j = choose|j: int| 0 <= j < ev.len() && ev[j].0 == k;
                    assert(rv[j] == k);
                }
                if rv.contains(k) {
                    let j = choose|j: int| 0 <= j < rv.len() && rv[j] == k;
                    assert(ev[j].0 == k);
                }
            }
        }
        r
    }
}

impl View for Dictionary {
    type V = Map<Seq<char>, Seq<Seq<char>>>;

    closed spec fn view(&self) -> Map<Seq<char>, Seq<Seq<char>>> {
        assoc_map(self.entry_views())
    }
}

/// The map that a list of (key, words) entries builds when each key is
/// lowercased and a later entry replaces an earlier one.
pub open spec fn entries_map(s: Seq<(Seq<char>, Seq<Seq<char>>)>) -> Map<Seq<char>, Seq<Seq<char>>>
    decreases s.len(),
{
    if s.len() == 0 {
        Map::empty()
    } else {
        entries_map(s.drop_last()).insert(lowercase(s.last().0), s.last().1)
    }
}

/// Common Arabizi words and phrases with their Arabic equivalents; the
/// first word of each list is the most common translation. Covers greetings,
/// everyday words and phrases across Egyptian, Levantine, Gulf and Maghrebi
/// dialects.
pub open spec fn dictionary_entries() -> Seq<(Seq<char>, Seq<Seq<char>>)> {
    seq![
        // === Greetings & Common Phrases ===
        ("salam"@, seq!["سلام"@]),
        ("salaam"@, seq!["سلام"@]),
        ("salam 3alaykom"@, seq!["سلام عليكم"@]),
        ("marhaba"@, seq!["مرحبا"@]),
        ("mar7aba"@, seq!["مرحبا"@]),
        ("ahlan"@, seq!["أهلا"@]),
        ("ahla"@, seq!["أهلا"@]),
        ("ahlan wa sahlan"@, seq!["أهلا وسهلا"@]),
        ("sabah el kheir"@, seq!["صباح الخير"@]),
        ("saba7 el 5eir"@, seq!["صباح الخير"@]),
        ("masa2 el kheir"@, seq!["مساء الخير"@]),
        ("ma3a salama"@, seq!["مع السلامة"@]),
        ("ma3 salame"@, seq!["مع السلامة"@]),
        ("yalla"@, seq!["يلا"@]),
        ("yallah"@, seq!["يلا"@]),
        // === Common Words ===
        ("shukran"@, seq!["شكرا"@]),
        ("shokran"@, seq!["شكرا"@]),
        ("3afwan"@, seq!["عفوا"@]),
        ("la2"@, seq!["لا"@]),
        ("na3am"@, seq!["نعم"@]),
        ("aiwa"@, seq!["أيوا"@]),
        ("aywa"@, seq!["أيوا"@]),
        ("la"@, seq!["لا"@]),
        ("eh"@, seq!["إيه"@]),
        ("eih"@, seq!["إيه"@]),
        ("leh"@, seq!["ليه"@]),
        ("leih"@, seq!["ليه"@]),
        ("ezay"@, seq!["إزاي"@]),
        ("ezzay"@, seq!["إزاي"@]),
        ("ezzayak"@, seq!["إزيك"@]),
        ("keif"@, seq!["كيف"@]),
        ("kifak"@, seq!["كيفك"@]),
        ("keifak"@, seq!["كيفك"@]),
        ("kiifik"@, seq!["كيفك"@]),
        // === Religious/Cultural Phrases ===
        ("inshallah"@, seq!["إن شاء الله"@]),
        ("insha2allah"@, seq!["إن شاء الله"@]),
        ("in sha2 allah"@, seq!["إن شاء الله"@]),
        ("mashallah"@, seq!["ما شاء الله"@]),
        ("masha2allah"@, seq!["ما شاء الله"@]),
        ("alhamdulillah"@, seq!["الحمد لله"@]),
        ("al7amdulillah"@, seq!["الحمد لله"@]),
        ("el7amdolellah"@, seq!["الحمد لله"@]),
        ("subhanallah"@, seq!["سبحان الله"@]),
        ("sub7anallah"@, seq!["سبحان الله"@]),
        ("bismillah"@, seq!["بسم الله"@]),
        ("astaghfirullah"@, seq!["أستغفر الله"@]),
        ("jazakallah"@, seq!["جزاك الله"@]),
        ("wallah"@, seq!["والله"@]),
        ("wallahi"@, seq!["والله"@]),
        // === People & Family ===
        ("habibi"@, seq!["حبيبي"@]),
        ("7abibi"@, seq!["حبيبي"@]),
        ("habibti"@, seq!["حبيبتي"@]),
        ("7abibti"@, seq!["حبيبتي"@]),
        ("mama"@, seq!["ماما"@]),
        ("baba"@, seq!["بابا"@]),
        ("akh"@, seq!["أخ"@]),
        ("okht"@, seq!["أخت"@]),
        ("ibn"@, seq!["ابن"@]),
        ("bint"@, seq!["بنت"@]),
        ("walad"@, seq!["ولد"@]),
        ("ragel"@, seq!["راجل"@]),
        ("sit"@, seq!["ست"@]),
        ("3eila"@, seq!["عائلة"@]),
        ("sadii2"@, seq!["صديق"@]),
        ("sadi2"@, seq!["صديق"@]),
        // === Common Verbs ===
        ("yalla"@, seq!["يلا"@]),
        ("khalas"@, seq!["خلاص"@]),
        ("5alas"@, seq!["خلاص"@]),
        ("mashi"@, seq!["ماشي"@]),
        ("tamam"@, seq!["تمام"@]),
        ("yani"@, seq!["يعني"@]),
        ("ya3ni"@, seq!["يعني"@]),
        ("bas"@, seq!["بس"@]),
        ("kaman"@, seq!["كمان"@]),
        ("hena"@, seq!["هنا"@]),
        ("henak"@, seq!["هناك"@]),
        ("keda"@, seq!["كده"@]),
        ("kida"@, seq!["كده"@]),
        ("3ayz"@, seq!["عايز"@]),
        ("3ayza"@, seq!["عايزة"@]),
        ("3aref"@, seq!["عارف"@]),
        ("3arfa"@, seq!["عارفة"@]),
        ("mesh"@, seq!["مش"@]),
        ("mish"@, seq!["مش"@]),
        ("lazem"@, seq!["لازم"@]),
        ("lazim"@, seq!["لازم"@]),
        ("mumkin"@, seq!["ممكن"@]),
        ("momken"@, seq!["ممكن"@]),
        // === Question Words ===
        ("miin"@, seq!["مين"@]),
        ("min"@, seq!["من"@, "مين"@]),
        ("fein"@, seq!["فين"@]),
        ("feen"@, seq!["فين"@]),
        ("emta"@, seq!["إمتى"@]),
        ("imta"@, seq!["إمتى"@]),
        ("leh"@, seq!["ليه"@]),
        ("leih"@, seq!["ليه"@]),
        ("kam"@, seq!["كم"@]),
        ("shu"@, seq!["شو"@]),
        ("sho"@, seq!["شو"@]),
        ("wen"@, seq!["وين"@]),
        ("wein"@, seq!["وين"@]),
        // === Numbers ===
        ("wa7ed"@, seq!["واحد"@]),
        ("wahid"@, seq!["واحد"@]),
        ("itnein"@, seq!["اتنين"@]),
        ("etneen"@, seq!["اتنين"@]),
        ("talata"@, seq!["تلاتة"@]),
        ("arba3a"@, seq!["أربعة"@]),
        ("5amsa"@, seq!["خمسة"@]),
        ("hamsa"@, seq!["خمسة"@]),
        ("sitta"@, seq!["ستة"@]),
        ("sab3a"@, seq!["سبعة"@]),
        ("tamanya"@, seq!["تمانية"@]),
        ("tes3a"@, seq!["تسعة"@]),
        ("3ashara"@, seq!["عشرة"@]),
        // === Time & Place ===
        ("naharda"@, seq!["النهاردة"@]),
        ("bokra"@, seq!["بكرة"@]),
        ("bukra"@, seq!["بكرة"@]),
        ("embareh"@, seq!["إمبارح"@]),
        ("delwa2ti"@, seq!["دلوقتي"@]),
        ("dilwa2ti"@, seq!["دلوقتي"@]),
        ("halla2"@, seq!["هلأ"@]),
        ("el beit"@, seq!["البيت"@]),
        ("el madrasa"@, seq!["المدرسة"@]),
        ("el shoghl"@, seq!["الشغل"@]),
        // === Food & Drink ===
        ("akl"@, seq!["أكل"@]),
        ("mayya"@, seq!["مية"@]),
        ("shay"@, seq!["شاي"@]),
        ("ahwa"@, seq!["قهوة"@]),
        ("2ahwa"@, seq!["قهوة"@]),
        ("foul"@, seq!["فول"@]),
        ("koshari"@, seq!["كشري"@]),
        ("shawarma"@, seq!["شاورما"@]),
        ("falafel"@, seq!["فلافل"@]),
        // === Emotions & States ===
        ("kwayes"@, seq!["كويس"@]),
        ("kwayyes"@, seq!["كويس"@]),
        ("7elw"@, seq!["حلو"@]),
        ("helw"@, seq!["حلو"@]),
        ("gameel"@, seq!["جميل"@]),
        ("jameel"@, seq!["جميل"@]),
        ("za3lan"@, seq!["زعلان"@]),
        ("mabsout"@, seq!["مبسوط"@]),
        ("mabsut"@, seq!["مبسوط"@]),
        ("ta3ban"@, seq!["تعبان"@]),
        ("ta3baan"@, seq!["تعبان"@]),
        ("zehe2t"@, seq!["زهقت"@]),
        ("ze7e2t"@, seq!["زهقت"@]),
        // === Levantine dialect extras ===
        ("ktir"@, seq!["كتير"@]),
        ("kteer"@, seq!["كتير"@]),
        ("hala2"@, seq!["هلأ"@]),
        ("hay"@, seq!["هاي"@]),
        ("haida"@, seq!["هيدا"@]),
        ("haidi"@, seq!["هيدي"@]),
        ("ma3lesh"@, seq!["معلش"@]),
        ("ma3le"@, seq!["معلش"@]),
        // === Gulf dialect extras ===
        ("shlonak"@, seq!["شلونك"@]),
        ("shlonich"@, seq!["شلونج"@]),
        ("zain"@, seq!["زين"@]),
        ("wayed"@, seq!["وايد"@]),
        ("inzain"@, seq!["إنزين"@]),
    ]
}

/// The dictionary as a map from lowercased key to its words.
pub open spec fn dictionary_map() -> Map<Seq<char>, Seq<Seq<char>>> {
    entries_map(dictionary_entries())
}

/// Whether a key is in plain form: ASCII with no capital letter, so that
/// lowercasing leaves it as it is.
pub open spec fn plain_key(k: Seq<char>) -> bool {
    is_ascii_text(k) && ascii_lowercase(k) == k
}

/// The characters of `k` from `j` on are ASCII and not capital letters.
spec fn plain_chars_from(k: Seq<char>, j: int) -> bool
    decreases k.len() - j,
{
    if j < 0 || j >= k.len() {
        true
    } else {
        (k[j] as u32) < 128 && !('A' <= k[j] && k[j] <= 'Z') && plain_chars_from(k, j + 1)
    }
}

proof fn lemma_plain_chars_from(k: Seq<char>, j: int)
    requires
        0 <= j,
        plain_chars_from(k, j),
    ensures
        forall|x: int| j <= x < k.len() ==> (k[x] as u32) < 128 && !('A' <= #[trigger] k[x] && k[x] <= 'Z'),
    decreases k.len() - j,
{
    if j < k.len() {
        lemma_plain_chars_from(k, j + 1);
    }
}

/// The keys of entries from `i` on are in plain form, character by character.
spec fn keys_plain_from(s: Seq<(Seq<char>, Seq<Seq<char>>)>, i: int) -> bool
    decreases s.len() - i,
{
    if i < 0 || i >= s.len() {
        true
    } else {
        plain_chars_from(s[i].0, 0) && keys_plain_from(s, i + 1)
    }
}

proof fn lemma_keys_plain_from(s: Seq<(Seq<char>, Seq<Seq<char>>)>, i: int)
    requires
        0 <= i,
        keys_plain_from(s, i),
    ensures
        forall|x: int| i <= x < s.len() ==> plain_chars_from(#[trigger] s[x].0, 0),
    decreases s.len() - i,
{
    if i < s.len() {
        lemma_keys_plain_from(s, i + 1);
    }
}

/// Every key of the dictionary's entries is in plain form.
pub proof fn lemma_dictionary_keys_plain()
    ensures
        forall|i: int| 0 <= i < dictionary_entries().len() ==> plain_key(#[trigger] dictionary_entries()[i].0),
{
    reveal_strlit("salam");
    reveal_strlit("salaam");
    reveal_strlit("salam 3alaykom");
    reveal_strlit("marhaba");
    reveal_strlit("mar7aba");
    reveal_strlit("ahlan");
    reveal_strlit("ahla");
    reveal_strlit("ahlan wa sahlan");
    reveal_strlit("sabah el kheir");
    reveal_strlit("saba7 el 5eir");
    reveal_strlit("masa2 el kheir");
    reveal_strlit("ma3a salama");
    reveal_strlit("ma3 salame");
    reveal_strlit("yalla");
    reveal_strlit("yallah");
    reveal_strlit("shukran");
    reveal_strlit("shokran");
    reveal_strlit("3afwan");
    reveal_strlit("la2");
    reveal_strlit("na3am");
    reveal_strlit("aiwa");
    reveal_strlit("aywa");
    reveal_strlit("la");
    reveal_strlit("eh");
    reveal_strlit("eih");
    reveal_strlit("leh");
    reveal_strlit("leih");
    reveal_strlit("ezay");
    reveal_strlit("ezzay");
    reveal_strlit("ezzayak");
    reveal_strlit("keif");
    reveal_strlit("kifak");
    reveal_strlit("keifak");
    reveal_strlit("kiifik");
    reveal_strlit("inshallah");
    reveal_strlit("insha2allah");
    reveal_strlit("in sha2 allah");
    reveal_strlit("mashallah");
    reveal_strlit("masha2allah");
    reveal_strlit("alhamdulillah");
    reveal_strlit("al7amdulillah");
    reveal_strlit("el7amdolellah");
    reveal_strlit("subhanallah");
    reveal_strlit("sub7anallah");
    reveal_strlit("bismillah");
    reveal_strlit("astaghfirullah");
    reveal_strlit("jazakallah");
    reveal_strlit("wallah");
    reveal_strlit("wallahi");
    reveal_strlit("habibi");
    reveal_strlit("7abibi");
    reveal_strlit("habibti");
    reveal_strlit("7abibti");
    reveal_strlit("mama");
    reveal_strlit("baba");
    reveal_strlit("akh");
    reveal_strlit("okht");
    reveal_strlit("ibn");
    reveal_strlit("bint");
    reveal_strlit("walad");
    reveal_strlit("ragel");
    reveal_strlit("sit");
    reveal_strlit("3eila");
    reveal_strlit("sadii2");
    reveal_strlit("sadi2");
    reveal_strlit("khalas");
    reveal_strlit("5alas");
    reveal_strlit("mashi");
    reveal_strlit("tamam");
    reveal_strlit("yani");
    reveal_strlit("ya3ni");
    reveal_strlit("bas");
    reveal_strlit("kaman");
    reveal_strlit("hena");
    reveal_strlit("henak");
    reveal_strlit("keda");
    reveal_strlit("kida");
    reveal_strlit("3ayz");
    reveal_strlit("3ayza");
    reveal_strlit("3aref");
    reveal_strlit("3arfa");
    reveal_strlit("mesh");
    reveal_strlit("mish");
    reveal_strlit("lazem");
    reveal_strlit("lazim");
    reveal_strlit("mumkin");
    reveal_strlit("momken");
    reveal_strlit("miin");
    reveal_strlit("min");
    reveal_strlit("fein");
    reveal_strlit("feen");
    reveal_strlit("emta");
    reveal_strlit("imta");
    reveal_strlit("kam");
    reveal_strlit("shu");
    reveal_strlit("sho");
    reveal_strlit("wen");
    reveal_strlit("wein");
    reveal_strlit("wa7ed");
    reveal_strlit("wahid");
    reveal_strlit("itnein");
    reveal_strlit("etneen");
    reveal_strlit("talata");
    reveal_strlit("arba3a");
    reveal_strlit("5amsa");
    reveal_strlit("hamsa");
    reveal_strlit("sitta");
    reveal_strlit("sab3a");
    reveal_strlit("tamanya");
    reveal_strlit("tes3a");
    reveal_strlit("3ashara");
    reveal_strlit("naharda");
    reveal_strlit("bokra");
    reveal_strlit("bukra");
    reveal_strlit("embareh");
    reveal_strlit("delwa2ti");
    reveal_strlit("dilwa2ti");
    reveal_strlit("halla2");
    reveal_strlit("el beit");
    reveal_strlit("el madrasa");
    reveal_strlit("el shoghl");
    reveal_strlit("akl");
    reveal_strlit("mayya");
    reveal_strlit("shay");
    reveal_strlit("ahwa");
    reveal_strlit("2ahwa");
    reveal_strlit("foul");
    reveal_strlit("koshari");
    reveal_strlit("shawarma");
    reveal_strlit("falafel");
    reveal_strlit("kwayes");
    reveal_strlit("kwayyes");
    reveal_strlit("7elw");
    reveal_strlit("helw");
    reveal_strlit("gameel");
    reveal_strlit("jameel");
    reveal_strlit("za3lan");
    reveal_strlit("mabsout");
    reveal_strlit("mabsut");
    reveal_strlit("ta3ban");
    reveal_strlit("ta3baan");
    reveal_strlit("zehe2t");
    reveal_strlit("ze7e2t");
    reveal_strlit("ktir");
    reveal_strlit("kteer");
    reveal_strlit("hala2");
    reveal_strlit("hay");
    reveal_strlit("haida");
    reveal_strlit("haidi");
    reveal_strlit("ma3lesh");
    reveal_strlit("ma3le");
    reveal_strlit("shlonak");
    reveal_strlit("shlonich");
    reveal_strlit("zain");
    reveal_strlit("wayed");
    reveal_strlit("inzain");
    let e = dictionary_entries();
    assert(e.len() == 159);
    // Checked ten entries at a time, from the end.
    assert(keys_plain_from(e, 159));
    assert(keys_plain_from(e, 150)) by {
        reveal_with_fuel(keys_plain_from, 11);
        reveal_with_fuel(plain_chars_from, 30);
    }
    assert(keys_plain_from(e, 140)) by {
        reveal_with_fuel(keys_plain_from, 11);
        reveal_with_fuel(plain_chars_from, 30);
    }
    assert(keys_plain_from(e, 130)) by {
        reveal_with_fuel(keys_plain_from, 11);
        reveal_with_fuel(plain_chars_from, 30);
    }
    assert(keys_plain_from(e, 120)) by {
        reveal_with_fuel(keys_plain_from, 11);
        reveal_with_fuel(plain_chars_from, 30);
    }
    assert(keys_plain_from(e, 110)) by {
        reveal_with_fuel(keys_plain_from, 11);
        reveal_with_fuel(plain_chars_from, 30);
    }
    assert(keys_plain_from(e, 100)) by {
        reveal_with_fuel(keys_plain_from, 11);
        reveal_with_fuel(plain_chars_from, 30);
    }
    assert(keys_plain_from(e, 90)) by {
        reveal_with_fuel(keys_plain_from, 11);
        reveal_with_fuel(plain_chars_from, 30);
    }
    assert(keys_plain_from(e, 80)) by {
        reveal_with_fuel(keys_plain_from, 11);
        reveal_with_fuel(plain_chars_from, 30);
    }
    assert(keys_plain_from(e, 70)) by {
        reveal_with_fuel(keys_plain_from, 11);
        reveal_with_fuel(plain_chars_from, 30);
    }
    assert(keys_plain_from(e, 60)) by {
        reveal_with_fuel(keys_plain_from, 11);
        reveal_with_fuel(plain_chars_from, 30);
    }
    assert(keys_plain_from(e, 50)) by {
        reveal_with_fuel(keys_plain_from, 11);
        reveal_with_fuel(plain_chars_from, 30);
    }
    assert(keys_plain_from(e, 40)) by {
        reveal_with_fuel(keys_plain_from, 11);
        reveal_with_fuel(plain_chars_from, 30);
    }
    assert(keys_plain_from(e, 30)) by {
        reveal_with_fuel(keys_plain_from, 11);
        reveal_with_fuel(plain_chars_from, 30);
    }
    assert(keys_plain_from(e, 20)) by {
        reveal_with_fuel(keys_plain_from, 11);
        reveal_with_fuel(plain_chars_from, 30);
    }
    assert(keys_plain_from(e, 10)) by {
        reveal_with_fuel(keys_plain_from, 11);
        reveal_with_fuel(plain_chars_from, 30);
    }
    assert(keys_plain_from(e, 0)) by {
        reveal_with_fuel(keys_plain_from, 11);
        reveal_with_fuel(plain_chars_from, 30);
    }
    lemma_keys_plain_from(e, 0);
    assert forall|i: int| 0 <= i < e.len() implies plain_key(#[trigger] e[i].0) by {
        let k = e[i].0;
        lemma_plain_chars_from(k, 0);
        assert(ascii_lowercase(k) =~= k);
    }
}

/// The map that a list of (key, words) entries builds with the keys as
/// written; a later entry replaces an earlier one.
pub open spec fn plain_entries_map(s: Seq<(Seq<char>, Seq<Seq<char>>)>) -> Map<Seq<char>, Seq<Seq<char>>>
    decreases s.len(),
{
    if s.len() == 0 {
        Map::empty()
    } else {
        plain_entries_map(s.drop_last()).insert(s.last().0, s.last().1)
    }
}

/// The dictionary as a map, its keys as written (they are in plain form).
pub open spec fn plain_dictionary_map() -> Map<Seq<char>, Seq<Seq<char>>> {
    plain_entries_map(dictionary_entries())
}

/// The dictionary entries as string literals.
fn dictionary_table() -> (t: Vec<(&'static str, Vec<&'static str>)>)
    ensures
        t@.map_values(|e: (&'static str, Vec<&'static str>)| (e.0@, e.1@.map_values(|v: &'static str| v@)))
            == dictionary_entries(),
{
    let t = vec![
        // === Greetings & Common Phrases ===
        ("salam", vec!["سلام"]),
        ("salaam", vec!["سلام"]),
        ("salam 3alaykom", vec!["سلام عليكم"]),
        ("marhaba", vec!["مرحبا"]),
        ("mar7aba", vec!["مرحبا"]),
        ("ahlan", vec!["أهلا"]),
        ("ahla", vec!["أهلا"]),
        ("ahlan wa sahlan", vec!["أهلا وسهلا"]),
        ("sabah el kheir", vec!["صباح الخير"]),
        ("saba7 el 5eir", vec!["صباح الخير"]),
        ("masa2 el kheir", vec!["مساء الخير"]),
        ("ma3a salama", vec!["مع السلامة"]),
        ("ma3 salame", vec!["مع السلامة"]),
        ("yalla", vec!["يلا"]),
        ("yallah", vec!["يلا"]),
        // === Common Words ===
        ("shukran", vec!["شكرا"]),
        ("shokran", vec!["شكرا"]),
        ("3afwan", vec!["عفوا"]),
        ("la2", vec!["لا"]),
        ("na3am", vec!["نعم"]),
        ("aiwa", vec!["أيوا"]),
        ("aywa", vec!["أيوا"]),
        ("la", vec!["لا"]),
        ("eh", vec!["إيه"]),
        ("eih", vec!["إيه"]),
        ("leh", vec!["ليه"]),
        ("leih", vec!["ليه"]),
        ("ezay", vec!["إزاي"]),
        ("ezzay", vec!["إزاي"]),
        ("ezzayak", vec!["إزيك"]),
        ("keif", vec!["كيف"]),
        ("kifak", vec!["كيفك"]),
        ("keifak", vec!["كيفك"]),
        ("kiifik", vec!["كيفك"]),
        // === Religious/Cultural Phrases ===
        ("inshallah", vec!["إن شاء الله"]),
        ("insha2allah", vec!["إن شاء الله"]),
        ("in sha2 allah", vec!["إن شاء الله"]),
        ("mashallah", vec!["ما شاء الله"]),
        ("masha2allah", vec!["ما شاء الله"]),
        ("alhamdulillah", vec!["الحمد لله"]),
        ("al7amdulillah", vec!["الحمد لله"]),
        ("el7amdolellah", vec!["الحمد لله"]),
        ("subhanallah", vec!["سبحان الله"]),
        ("sub7anallah", vec!["سبحان الله"]),
        ("bismillah", vec!["بسم الله"]),
        ("astaghfirullah", vec!["أستغفر الله"]),
        ("jazakallah", vec!["جزاك الله"]),
        ("wallah", vec!["والله"]),
        ("wallahi", vec!["والله"]),
        // === People & Family ===
        ("habibi", vec!["حبيبي"]),
        ("7abibi", vec!["حبيبي"]),
        ("habibti", vec!["حبيبتي"]),
        ("7abibti", vec!["حبيبتي"]),
        ("mama", vec!["ماما"]),
        ("baba", vec!["بابا"]),
        ("akh", vec!["أخ"]),
        ("okht", vec!["أخت"]),
        ("ibn", vec!["ابن"]),
        ("bint", vec!["بنت"]),
        ("walad", vec!["ولد"]),
        ("ragel", vec!["راجل"]),
        ("sit", vec!["ست"]),
        ("3eila", vec!["عائلة"]),
        ("sadii2", vec!["صديق"]),
        ("sadi2", vec!["صديق"]),
        // === Common Verbs ===
        ("yalla", vec!["يلا"]),
        ("khalas", vec!["خلاص"]),
        ("5alas", vec!["خلاص"]),
        ("mashi", vec!["ماشي"]),
        ("tamam", vec!["تمام"]),
        ("yani", vec!["يعني"]),
        ("ya3ni", vec!["يعني"]),
        ("bas", vec!["بس"]),
        ("kaman", vec!["كمان"]),
        ("hena", vec!["هنا"]),
        ("henak", vec!["هناك"]),
        ("keda", vec!["كده"]),
        ("kida", vec!["كده"]),
        ("3ayz", vec!["عايز"]),
        ("3ayza", vec!["عايزة"]),
        ("3aref", vec!["عارف"]),
        ("3arfa", vec!["عارفة"]),
        ("mesh", vec!["مش"]),
        ("mish", vec!["مش"]),
        ("lazem", vec!["لازم"]),
        ("lazim", vec!["لازم"]),
        ("mumkin", vec!["ممكن"]),
        ("momken", vec!["ممكن"]),
        // === Question Words ===
        ("miin", vec!["مين"]),
        ("min", vec!["من", "مين"]),
        ("fein", vec!["فين"]),
        ("feen", vec!["فين"]),
        ("emta", vec!["إمتى"]),
        ("imta", vec!["إمتى"]),
        ("leh", vec!["ليه"]),
        ("leih", vec!["ليه"]),
        ("kam", vec!["كم"]),
        ("shu", vec!["شو"]),
        ("sho", vec!["شو"]),
        ("wen", vec!["وين"]),
        ("wein", vec!["وين"]),
        // === Numbers ===
        ("wa7ed", vec!["واحد"]),
        ("wahid", vec!["واحد"]),
        ("itnein", vec!["اتنين"]),
        ("etneen", vec!["اتنين"]),
        ("talata", vec!["تلاتة"]),
        ("arba3a", vec!["أربعة"]),
        ("5amsa", vec!["خمسة"]),
        ("hamsa", vec!["خمسة"]),
        ("sitta", vec!["ستة"]),
        ("sab3a", vec!["سبعة"]),
        ("tamanya", vec!["تمانية"]),
        ("tes3a", vec!["تسعة"]),
        ("3ashara", vec!["عشرة"]),
        // === Time & Place ===
        ("naharda", vec!["النهاردة"]),
        ("bokra", vec!["بكرة"]),
        ("bukra", vec!["بكرة"]),
        ("embareh", vec!["إمبارح"]),
        ("delwa2ti", vec!["دلوقتي"]),
        ("dilwa2ti", vec!["دلوقتي"]),
        ("halla2", vec!["هلأ"]),
        ("el beit", vec!["البيت"]),
        ("el madrasa", vec!["المدرسة"]),
        ("el shoghl", vec!["الشغل"]),
        // === Food & Drink ===
        ("akl", vec!["أكل"]),
        ("mayya", vec!["مية"]),
        ("shay", vec!["شاي"]),
        ("ahwa", vec!["قهوة"]),
        ("2ahwa", vec!["قهوة"]),
        ("foul", vec!["فول"]),
        ("koshari", vec!["كشري"]),
        ("shawarma", vec!["شاورما"]),
        ("falafel", vec!["فلافل"]),
        // === Emotions & States ===
        ("kwayes", vec!["كويس"]),
        ("kwayyes", vec!["كويس"]),
        ("7elw", vec!["حلو"]),
        ("helw", vec!["حلو"]),
        ("gameel", vec!["جميل"]),
        ("jameel", vec!["جميل"]),
        ("za3lan", vec!["زعلان"]),
        ("mabsout", vec!["مبسوط"]),
        ("mabsut", vec!["مبسوط"]),
        ("ta3ban", vec!["تعبان"]),
        ("ta3baan", vec!["تعبان"]),
        ("zehe2t", vec!["زهقت"]),
        ("ze7e2t", vec!["زهقت"]),
        // === Levantine dialect extras ===
        ("ktir", vec!["كتير"]),
        ("kteer", vec!["كتير"]),
        ("hala2", vec!["هلأ"]),
        ("hay", vec!["هاي"]),
        ("haida", vec!["هيدا"]),
        ("haidi", vec!["هيدي"]),
        ("ma3lesh", vec!["معلش"]),
        ("ma3le", vec!["معلش"]),
        // === Gulf dialect extras ===
        ("shlonak", vec!["شلونك"]),
        ("shlonich", vec!["شلونج"]),
        ("zain", vec!["زين"]),
        ("wayed", vec!["وايد"]),
        ("inzain", vec!["إنزين"]),
    ];
    assert(t@.map_values(|e: (&'static str, Vec<&'static str>)| (e.0@, e.1@.map_values(|v: &'static str| v@)))
        =~~= dictionary_entries());
    t
}

/// Builds the dictionary of common Arabizi words; keys are lowercased (they
/// are written in lowercase already).
pub fn build_dictionary() -> (d: Dictionary)
    ensures
        d@ == dictionary_map(),
        d@ == plain_dictionary_map(),
{
    let table = dictionary_table();
    let ghost e = dictionary_entries();
    proof {
        lemma_dictionary_keys_plain();
    }
    let n = table.len();
    let mut d = Dictionary::new();
    let mut i: usize = 0;
    while i < n
        invariant
            i <= n,
            n == table@.len(),
            e == dictionary_entries(),
            table@.map_values(|x: (&'static str, Vec<&'static str>)| (x.0@, x.1@.map_values(|v: &'static str| v@))) == e,
            d@ == entries_map(e.take(i as int)),
            d@ == plain_entries_map(e.take(i as int)),
            forall|k: int| 0 <= k < e.len() ==> plain_key(#[trigger] e[k].0),
        decreases n - i,
    {
        let entry = &table[i];
        assert(e[i as int] == (entry.0@, entry.1@.map_values(|v: &'static str| v@)));
        let key = lowercase_of_str(entry.0);
        assert(plain_key(e[i as int].0));
        assert(key@ == entry.0@);
        let m = entry.1.len();
        let mut values: Vec<Vec<char>> = Vec::new();
        let mut j: usize = 0;
        while j < m
            invariant
                j <= m,
                m == entry.1@.len(),
                word_list_view(values@) == entry.1@.map_values(|v: &'static str| v@).take(j as int),
            decreases m - j,
        {
            let w = chars_of(entry.1[j]);
            let ghost prev = values@;
            values.push(w);
            proof {
                let src = entry.1@.map_values(|v: &'static str| v@);
                assert(values@ == prev.push(w));
                assert(src.take(j + 1) == src.take(j as int).push(src[j as int]));
            }
            j = j + 1;
            assert(word_list_view(values@) =~= entry.1@.map_values(|v: &'static str| v@).take(j as int));
        }
        assert(entry.1@.map_values(|v: &'static str| v@).take(m as int) == e[i as int].1);
        d.insert(key, values);
        i = i + 1;
        assert(e.take(i as int).drop_last() == e.take(i - 1));
    }
    assert(e.take(n as int) == e);
    d
}

} // verus!
