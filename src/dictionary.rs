//! Pronunciation dictionary: words mapped to phoneme strings, looked up
//! without regard to case or surrounding whitespace, and applied to text
//! token by token.
use vstd::prelude::*;
use std::path::PathBuf;
use crate::chars::{
    chars_of, lemma_text_before_order, push_char, string_of, string_of_range, text_before, text_lt, trim,
    trim_bounds,
};

verus! {

#[verifier::external_type_specification]
#[verifier::external_body]
pub struct ExPathBuf(PathBuf);

/// What `str::to_lowercase` returns for a string; it depends on the
/// characters alone.
pub uninterp spec fn lower_of(s: Seq<char>) -> Seq<char>;

/// Whether `char::is_alphanumeric` holds of a character (the Unicode
/// `Alphabetic` or `Numeric` property).
pub uninterp spec fn alphanumeric(c: char) -> bool;

/// Relies on `str::to_lowercase`: the lowercase form of the characters.
#[verifier::external_body]
pub(crate) fn lowercase(s: &str) -> (r: String)
    ensures
        r@ == lower_of(s@),
{
    s.to_lowercase()
}

/// Relies on `char::is_alphanumeric`.
#[verifier::external_body]
fn is_alphanumeric(c: char) -> (r: bool)
    ensures
        r == alphanumeric(c),
{
    c.is_alphanumeric()
}

/// The key a word is stored under: trimmed, then lowercased.
pub open spec fn key_of(word: Seq<char>) -> Seq<char> {
    lower_of(trim(word))
}

/// A character that belongs to a word token.
pub open spec fn token_char(c: char) -> bool {
    alphanumeric(c) || c == '\'' || c == '-'
}

#[derive(Debug, Clone, PartialEq, Eq)]
pub struct DictionaryEntry {
    pub word: String,
    pub phonemes: String,
}

/// The entries of `v` by key; a later entry replaces an earlier one with
/// the same key.
pub open spec fn entry_map(v: Seq<DictionaryEntry>) -> Map<Seq<char>, DictionaryEntry>
    decreases v.len(),
{
    if v.len() == 0 {
        Map::empty()
    } else {
        entry_map(v.subrange(0, v.len() - 1)).insert(key_of(v[v.len() - 1].word@), v[v.len() - 1])
    }
}

fn canonical_key(word: &str) -> (r: String)
    ensures
        r@ == key_of(word@),
{
    let cs = chars_of(word);
    let (a, b) = trim_bounds(&cs, 0, cs.len());
    assert(cs@.subrange(0, cs@.len() as int) =~= cs@);
    let t = string_of_range(&cs, a, b);
    lowercase(t.as_str())
}

fn is_token_character(ch: char) -> (r: bool)
    ensures
        r == token_char(ch),
{
    is_alphanumeric(ch) || ch == '\'' || ch == '-'
}

fn copy_entry(e: &DictionaryEntry) -> (r: DictionaryEntry)
    ensures
        r == *e,
{
    DictionaryEntry { word: e.word.clone(), phonemes: e.phonemes.clone() }
}

/// What a token becomes: the phonemes stored under its key, or the token
/// itself.
pub open spec fn replacement(m: Map<Seq<char>, DictionaryEntry>, tok: Seq<char>) -> Seq<char> {
    if tok.len() > 0 && m.contains_key(key_of(tok)) {
        m[key_of(tok)].phonemes@
    } else {
        tok
    }
}

/// Text read left to right: what has been written, and the token being
/// read.
pub open spec fn token_scan(m: Map<Seq<char>, DictionaryEntry>, t: Seq<char>) -> (Seq<char>, Seq<char>)
    decreases t.len(),
{
    if t.len() == 0 {
        (Seq::empty(), Seq::empty())
    } else {
        let (out, tok) = token_scan(m, t.subrange(0, t.len() - 1));
        let c = t[t.len() - 1];
        if token_char(c) {
            (out, tok.push(c))
        } else {
            (out + replacement(m, tok) + seq![c], Seq::empty())
        }
    }
}

/// `t` with each maximal run of token characters replaced as the
/// dictionary `m` says.
pub open spec fn transform(m: Map<Seq<char>, DictionaryEntry>, t: Seq<char>) -> Seq<char> {
    token_scan(m, t).0 + replacement(m, token_scan(m, t).1)
}

proof fn lemma_transform_empty(t: Seq<char>)
    ensures
        token_scan(Map::empty(), t).0 + token_scan(Map::empty(), t).1 == t,
    decreases t.len(),
{
    if t.len() > 0 {
        let t0 = t.subrange(0, t.len() - 1);
        lemma_transform_empty(t0);
        assert(t =~= t0.push(t[t.len() - 1]));
        let (out, tok) = token_scan(Map::empty(), t0);
        if token_char(t[t.len() - 1]) {
            assert(out + tok.push(t[t.len() - 1]) =~= (out + tok).push(t[t.len() - 1]));
        } else {
            assert(out + replacement(Map::empty(), tok) + seq![t[t.len() - 1]] + Seq::<char>::empty()
                =~= (out + tok).push(t[t.len() - 1]));
        }
    }
}

#[derive(Debug)]
pub struct PhoneticDictionary {
    path: PathBuf,
    keys: Vec<String>,
    entries: Vec<DictionaryEntry>,
}

/// No two entries of `v` share a key.
pub open spec fn keys_unique(v: Seq<DictionaryEntry>) -> bool {
    forall|i: int, j: int|
        0 <= i < v.len() && 0 <= j < v.len() && i != j ==> key_of(#[trigger] v[i].word@) != key_of(
            #[trigger] v[j].word@,
        )
}

proof fn lemma_entry_map_unique(v: Seq<DictionaryEntry>)
    requires
        keys_unique(v),
    ensures
        forall|i: int|
            0 <= i < v.len() ==> #[trigger] entry_map(v).contains_key(key_of(v[i].word@))
                && entry_map(v)[key_of(v[i].word@)] == v[i],
        forall|k: Seq<char>|
            #[trigger] entry_map(v).contains_key(k) ==> exists|i: int|
                0 <= i < v.len() && key_of(v[i].word@) == k,
    decreases v.len(),
{
    if v.len() > 0 {
        let v0 = v.subrange(0, v.len() - 1);
        assert(keys_unique(v0)) by {
            assert forall|i: int, j: int|
                0 <= i < v0.len() && 0 <= j < v0.len() && i != j implies key_of(#[trigger] v0[i].word@)
                != key_of(#[trigger] v0[j].word@) by {
                assert(v0[i] == v[i] && v0[j] == v[j]);
            }
        }
        lemma_entry_map_unique(v0);
        let last = v[v.len() - 1];
        assert(entry_map(v) == entry_map(v0).insert(key_of(last.word@), last));
        assert forall|i: int| 0 <= i < v.len() implies #[trigger] entry_map(v).contains_key(key_of(v[i].word@))
            && entry_map(v)[key_of(v[i].word@)] == v[i] by {
            if i < v.len() - 1 {
                assert(v0[i] == v[i]);
                assert(entry_map(v0).contains_key(key_of(v0[i].word@)));
                assert(key_of(v[i].word@) != key_of(last.word@));
            }
        }
        assert forall|k: Seq<char>| #[trigger] entry_map(v).contains_key(k) implies exists|i: int|
            0 <= i < v.len() && key_of(v[i].word@) == k by {
            assert(entry_map(v) == entry_map(v0).insert(key_of(v[v.len() - 1].word@), v[v.len() - 1]));
            if k != key_of(v[v.len() - 1].word@) {
                assert(entry_map(v0).contains_key(k));
                let i = choose|i: int| 0 <= i < v0.len() && key_of(v0[i].word@) == k;
                assert(v[i] == v0[i]);
            }
        }
    }
}

impl PhoneticDictionary {
    /// The stored entries are keyed by their words, one entry per key.
    pub closed spec fn wf(&self) -> bool {
        &&& self.keys@.len() == self.entries@.len()
        &&& forall|i: int|
            0 <= i < self.entries@.len() ==> #[trigger] self.keys@[i]@ == key_of(
                self.entries@[i].word@,
            )
        &&& keys_unique(self.entries@)
    }

    /// The dictionary as a map from key to entry.
    pub closed spec fn view(&self) -> Map<Seq<char>, DictionaryEntry> {
        entry_map(self.entries@)
    }

    /// The stored entries, in the order `entries` gives them.
    pub closed spec fn entry_list(&self) -> Seq<DictionaryEntry> {
        self.entries@
    }

    pub closed spec fn path_spec(&self) -> PathBuf {
        self.path
    }

    /// An empty dictionary that is saved at `path`.
    pub fn new(path: PathBuf) -> (r: Self)
        ensures
            r.wf(),
            r@ == Map::<Seq<char>, DictionaryEntry>::empty(),
            r.path_spec() == path,
    {
        PhoneticDictionary { path, keys: Vec::new(), entries: Vec::new() }
    }

    /// A dictionary holding `entries`; of two entries with the same key the
    /// later one stays.
    pub fn from_entries(path: PathBuf, entries: Vec<DictionaryEntry>) -> (r: Self)
        ensures
            r.wf(),
            r@ == entry_map(entries@),
            r.path_spec() == path,
    {
        let mut d = PhoneticDictionary::new(path);
        let mut i: usize = 0;
        while i < entries.len()
            invariant
                i <= entries@.len(),
                d.wf(),
                d@ == entry_map(entries@.subrange(0, i as int)),
                d.path_spec() == path,
            decreases entries@.len() - i,
        {
            let e = copy_entry(&entries[i]);
            d.upsert_entry(e);
            assert(entries@.subrange(0, i + 1).subrange(0, i as int) =~= entries@.subrange(0, i as int));
            i = i + 1;
        }
        assert(entries@.subrange(0, entries@.len() as int) =~= entries@);
        d
    }

    pub fn path(&self) -> (r: &PathBuf)
        ensures
            *r == self.path_spec(),
    {
        &self.path
    }

    /// The position of the entry stored under `key`, if any.
    fn position(&self, key: &String) -> (r: Option<usize>)
        requires
            self.wf(),
        ensures
            match r {
                Some(i) => i < self.entries@.len() && self.keys@[i as int]@ == key@
                    && self@.contains_key(key@) && self@[key@] == self.entries@[i as int],
                None => !self@.contains_key(key@),
            },
    {
        let mut i: usize = 0;
        while i < self.keys.len()
            invariant
                self.wf(),
                i <= self.keys@.len(),
                forall|j: int| 0 <= j < i ==> self.keys@[j]@ != key@,
            decreases self.keys@.len() - i,
        {
            if self.keys[i] == *key {
                proof {
                    lemma_entry_map_unique(self.entries@);
                    assert(self.keys@[i as int]@ == key_of(self.entries@[i as int].word@));
                    assert(self@.contains_key(key_of(self.entries@[i as int].word@)));
                }
                return Some(i);
            }
            i = i + 1;
        }
        proof {
            lemma_entry_map_unique(self.entries@);
            if self@.contains_key(key@) {
                let j = choose|j: int| 0 <= j < self.entries@.len() && key_of(self.entries@[j].word@) == key@;
                assert(self.keys@[j]@ == key_of(self.entries@[j].word@));
            }
        }
        None
    }

    /// The entry for `word`, looked up by its key.
    pub fn get(&self, word: &str) -> (r: Option<&DictionaryEntry>)
        requires
            self.wf(),
        ensures
            match r {
                Some(e) => self@.contains_key(key_of(word@)) && self@[key_of(word@)] == *e,
                None => !self@.contains_key(key_of(word@)),
            },
    {
        let key = canonical_key(word);
        match self.position(&key) {
            Some(i) => Some(&self.entries[i]),
            None => None,
        }
    }

    /// The phonemes for `word`, looked up by its key.
    pub fn get_phonemes(&self, word: &str) -> (r: Option<&str>)
        requires
            self.wf(),
        ensures
            match r {
                Some(p) => self@.contains_key(key_of(word@)) && self@[key_of(word@)].phonemes@ == p@,
                None => !self@.contains_key(key_of(word@)),
            },
    {
        match self.get(word) {
            Some(entry) => Some(entry.phonemes.as_str()),
            None => None,
        }
    }

    /// Stores `word` with `phonemes`, replacing the entry under the same
    /// key; returns the entry replaced.
    pub fn insert(&mut self, word: &str, phonemes: &str) -> (r: Option<DictionaryEntry>)
        requires
            old(self).wf(),
        ensures
            final(self).wf(),
            final(self)@.contains_key(key_of(word@)),
            final(self)@[key_of(word@)].word@ == word@,
            final(self)@[key_of(word@)].phonemes@ == phonemes@,
            final(self)@.remove(key_of(word@)) == old(self)@.remove(key_of(word@)),
            r == (if old(self)@.contains_key(key_of(word@)) {
                Some(old(self)@[key_of(word@)])
            } else {
                None::<DictionaryEntry>
            }),
            final(self).path_spec() == old(self).path_spec(),
    {
        let entry = DictionaryEntry { word: String::from_str(word), phonemes: String::from_str(phonemes) };
        let r = self.upsert_entry(entry);
        assert(self@.remove(key_of(word@)) =~= old(self)@.remove(key_of(word@)));
        r
    }

    /// Stores `entry` under the key of its word, replacing the entry under
    /// the same key; returns the entry replaced.
    pub fn upsert_entry(&mut self, entry: DictionaryEntry) -> (r: Option<DictionaryEntry>)
        requires
            old(self).wf(),
        ensures
            final(self).wf(),
            final(self)@ == old(self)@.insert(key_of(entry.word@), entry),
            r == (if old(self)@.contains_key(key_of(entry.word@)) {
                Some(old(self)@[key_of(entry.word@)])
            } else {
                None::<DictionaryEntry>
            }),
            final(self).path_spec() == old(self).path_spec(),
    {
        let key = canonical_key(entry.word.as_str());
        let ghost k = key@;
        let ghost v = self.entries@;
        proof {
            lemma_entry_map_unique(v);
        }
        match self.position(&key) {
            Some(i) => {
                let previous = self.entries.remove(i);
                self.entries.insert(i, entry);
                assert(self.entries@ =~= v.update(i as int, entry));
                proof {
                    let w = self.entries@;
                    assert(keys_unique(w)) by {
                        assert forall|a: int, b: int|
                            0 <= a < w.len() && 0 <= b < w.len() && a != b implies key_of(#[trigger] w[a].word@)
                            != key_of(#[trigger] w[b].word@) by {
                            assert(self.keys@[a]@ == key_of(w[a].word@));
                            assert(self.keys@[b]@ == key_of(w[b].word@));
                            assert(old(self).keys@[a]@ == key_of(v[a].word@));
                            assert(old(self).keys@[b]@ == key_of(v[b].word@));
                        }
                    }
                    lemma_entry_map_unique(w);
                    assert(self@ =~= old(self)@.insert(k, entry)) by {
                        assert forall|q: Seq<char>| #[trigger] self@.contains_key(q) implies old(self)@.insert(k, entry).contains_key(q)
                            && self@[q] == old(self)@.insert(k, entry)[q] by {
                            let j = choose|j: int| 0 <= j < w.len() && key_of(w[j].word@) == q;
                            if j != i {
                                assert(w[j] == v[j]);
                            }
                        }
                        assert forall|q: Seq<char>| old(self)@.insert(k, entry).contains_key(q) implies #[trigger] self@.contains_key(q) by {
                            if q != k {
                                let j = choose|j: int| 0 <= j < v.len() && key_of(v[j].word@) == q;
                                assert(j != i);
                                assert(w[j] == v[j]);
                                assert(self@.contains_key(key_of(w[j].word@)));
                            } else {
                                assert(self@.contains_key(key_of(w[i as int].word@)));
                            }
                        }
                    }
                }
                Some(previous)
            },
            None => {
                self.keys.push(key);
                self.entries.push(entry);
                assert(self.entries@.subrange(0, v.len() as int) =~= v);
                proof {
                    let w = self.entries@;
                    assert(keys_unique(w)) by {
                        assert forall|a: int, b: int|
                            0 <= a < w.len() && 0 <= b < w.len() && a != b implies key_of(#[trigger] w[a].word@)
                            != key_of(#[trigger] w[b].word@) by {
                            if a < v.len() && b < v.len() {
                                assert(w[a] == v[a] && w[b] == v[b]);
                            } else if a < v.len() {
                                assert(w[a] == v[a]);
                            } else {
                                assert(w[b] == v[b]);
                            }
                        }
                    }
                }
                None
            },
        }
    }

    /// Removes the entry stored under the key of `word`; returns it.
    pub fn remove(&mut self, word: &str) -> (r: Option<DictionaryEntry>)
        requires
            old(self).wf(),
        ensures
            final(self).wf(),
            final(self)@ == old(self)@.remove(key_of(word@)),
            r == (if old(self)@.contains_key(key_of(word@)) {
                Some(old(self)@[key_of(word@)])
            } else {
                None::<DictionaryEntry>
            }),
            final(self).path_spec() == old(self).path_spec(),
    {
        let key = canonical_key(word);
        let ghost k = key@;
        let ghost v = self.entries@;
        proof {
            lemma_entry_map_unique(v);
        }
        match self.position(&key) {
            Some(i) => {
                self.keys.remove(i);
                let previous = self.entries.remove(i);
                proof {
                    let w = self.entries@;
                    assert forall|a: int| 0 <= a < w.len() implies #[trigger] w[a] == v[if a < i { a } else { a + 1 }] by {}
                    assert(keys_unique(w)) by {
                        assert forall|a: int, b: int|
                            0 <= a < w.len() && 0 <= b < w.len() && a != b implies key_of(#[trigger] w[a].word@)
                            != key_of(#[trigger] w[b].word@) by {
                            assert(w[a] == v[if a < i { a } else { a + 1 }]);
                            assert(w[b] == v[if b < i { b } else { b + 1 }]);
                        }
                    }
                    lemma_entry_map_unique(w);
                    assert(self@ =~= old(self)@.remove(k)) by {
                        assert forall|q: Seq<char>| #[trigger] self@.contains_key(q) implies old(self)@.remove(k).contains_key(q)
                            && self@[q] == old(self)@.remove(k)[q] by {
                            let j = choose|j: int| 0 <= j < w.len() && key_of(w[j].word@) == q;
                            let oj = if j < i { j } else { j + 1 };
                            assert(w[j] == v[oj]);
                            assert(oj != i);
                            assert(self@.contains_key(key_of(w[j].word@)));
                            assert(old(self)@.contains_key(key_of(v[oj].word@)));
                        }
                        assert forall|q: Seq<char>| old(self)@.remove(k).contains_key(q) implies #[trigger] self@.contains_key(q) by {
                            let j = choose|j: int| 0 <= j < v.len() && key_of(v[j].word@) == q;
                            assert(j != i);
                            let nj = if j < i { j } else { j - 1 };
                            assert(w[nj] == v[j]);
                        }
                    }
                }
                Some(previous)
            },
            None => {
                assert(self@ =~= old(self)@.remove(k));
                None
            },
        }
    }

    /// Whether the dictionary holds no entry.
    pub fn is_empty(&self) -> (r: bool)
        requires
            self.wf(),
        ensures
            r == (self@ == Map::<Seq<char>, DictionaryEntry>::empty()),
    {
        proof {
            lemma_entry_map_unique(self.entries@);
            if self.entries@.len() > 0 {
                assert(self@.contains_key(key_of(self.entries@[0].word@)));
            }
        }
        self.entries.len() == 0
    }

    /// The entries, one per key, in no particular order.
    pub fn entries(&self) -> (r: &[DictionaryEntry])
        requires
            self.wf(),
        ensures
            forall|i: int|
                0 <= i < r@.len() ==> self@.contains_key(key_of(#[trigger] r@[i].word@))
                    && self@[key_of(r@[i].word@)] == r@[i],
            forall|k: Seq<char>|
                #[trigger] self@.contains_key(k) ==> exists|i: int| 0 <= i < r@.len() && r@[i] == self@[k],
            keys_unique(r@),
            r@ == self.entry_list(),
    {
        proof {
            lemma_entry_map_unique(self.entries@);
            assert forall|k: Seq<char>| #[trigger] self@.contains_key(k) implies exists|i: int|
                0 <= i < self.entries@.len() && self.entries@[i] == self@[k] by {
                let i = choose|i: int| 0 <= i < self.entries@.len() && key_of(self.entries@[i].word@) == k;
                assert(self.entries@[i] == self@[k]);
            }
        }
        self.entries.as_slice()
    }

    /// Replaces each word token of `text` (a run of alphanumeric characters,
    /// apostrophes and hyphens) by its phonemes where the dictionary holds
    /// it; everything else stays.
    pub fn transform_text(&self, text: &str) -> (r: String)
        requires
            self.wf(),
        ensures
            r@ == transform(self@, text@),
    {
        if self.entries.len() == 0 {
            proof {
                lemma_transform_empty(text@);
                assert(self@ == Map::<Seq<char>, DictionaryEntry>::empty());
            }
            return String::from_str(text);
        }
        let cs = chars_of(text);
        let mut result = String::new();
        let mut token: Vec<char> = Vec::new();
        let mut i: usize = 0;
        assert(cs@.subrange(0, 0) =~= Seq::<char>::empty());
        while i < cs.len()
            invariant
                self.wf(),
                i <= cs@.len(),
                cs@ == text@,
                token_scan(self@, cs@.subrange(0, i as int)) == (result@, token@),
            decreases cs@.len() - i,
        {
            let ch = cs[i];
            if is_token_character(ch) {
                token.push(ch);
            } else {
                self.flush_token(&mut token, &mut result);
                push_char(&mut result, ch);
            }
            assert(cs@.subrange(0, i + 1).subrange(0, i as int) =~= cs@.subrange(0, i as int));
            i = i + 1;
        }
        assert(cs@.subrange(0, cs@.len() as int) =~= cs@);
        self.flush_token(&mut token, &mut result);
        result
    }

    fn flush_token(&self, token: &mut Vec<char>, output: &mut String)
        requires
            self.wf(),
        ensures
            final(output)@ == old(output)@ + replacement(self@, old(token)@),
            final(token)@ == Seq::<char>::empty(),
    {
        if token.len() == 0 {
            assert(old(output)@ + Seq::<char>::empty() =~= old(output)@);
            return;
        }
        let word = string_of(token.as_slice());
        match self.get(word.as_str()) {
            Some(entry) => output.append(entry.phonemes.as_str()),
            None => output.append(word.as_str()),
        }
        token.clear();
    }
}

/// No entry of `v` comes, by its lowercased word, before one that
/// precedes it.
pub open spec fn sorted_by_word(v: Seq<DictionaryEntry>) -> bool {
    forall|i: int, j: int|
        0 <= i < j < v.len() ==> !text_before(lower_of((#[trigger] v[j]).word@), lower_of((#[trigger] v[i]).word@))
}

impl PhoneticDictionary {
    /// The entries ordered by their lowercased words, as they are saved.
    pub fn sorted_entries(&self) -> (r: Vec<DictionaryEntry>)
        requires
            self.wf(),
        ensures
            sorted_by_word(r@),
            r@.to_multiset() == self.entry_list().to_multiset(),
    {
        broadcast use vstd::seq_lib::group_to_multiset_ensures;
        let mut out: Vec<DictionaryEntry> = Vec::new();
        let mut out_keys: Vec<String> = Vec::new();
        let mut i: usize = 0;
        assert(self.entries@.subrange(0, 0) =~= Seq::<DictionaryEntry>::empty());
        while i < self.entries.len()
            invariant
                i <= self.entries@.len(),
                out_keys@.len() == out@.len(),
                forall|k: int| 0 <= k < out@.len() ==> #[trigger] out_keys@[k]@ == lower_of(out@[k].word@),
                sorted_by_word(out@),
                out@.to_multiset() == self.entries@.subrange(0, i as int).to_multiset(),
            decreases self.entries@.len() - i,
        {
            let x = copy_entry(&self.entries[i]);
            let key = lowercase(x.word.as_str());
            let mut p: usize = 0;
            while p < out.len() && !text_lt(key.as_str(), out_keys[p].as_str())
                invariant
                    p <= out@.len(),
                    out_keys@.len() == out@.len(),
                    forall|k: int| 0 <= k < out@.len() ==> #[trigger] out_keys@[k]@ == lower_of(out@[k].word@),
                    forall|k: int| 0 <= k < p ==> !text_before(key@, lower_of(#[trigger] out@[k].word@)),
                decreases out@.len() - p,
            {
                p = p + 1;
            }
            let ghost o = out@;
            let ghost ok = out_keys@;
            proof {
                vstd::seq_lib::to_multiset_insert(o, p as int, x);
                assert(self.entries@.subrange(0, i + 1) =~= self.entries@.subrange(0, i as int).push(x));
                vstd::seq_lib::to_multiset_build(self.entries@.subrange(0, i as int), x);
            }
            out.insert(p, x);
            out_keys.insert(p, key);
            proof {
                let n = out@;
                let kx = lower_of(x.word@);
                assert forall|k: int| 0 <= k < n.len() implies #[trigger] out_keys@[k]@ == lower_of(n[k].word@) by {
                    if k < p {
                        assert(n[k] == o[k] && out_keys@[k] == ok[k]);
                    } else if k > p {
                        assert(n[k] == o[k - 1] && out_keys@[k] == ok[k - 1]);
                    }
                }
                assert forall|a: int, b: int| 0 <= a < b < n.len() implies !text_before(
                    lower_of((#[trigger] n[b]).word@),
                    lower_of((#[trigger] n[a]).word@),
                ) by {
                    if b < p {
                        assert(n[a] == o[a] && n[b] == o[b]);
                    } else if b == p {
                        assert(n[a] == o[a]);
                        lemma_text_before_order(lower_of(o[a].word@), kx, kx);
                    } else if a == p {
                        assert(n[b] == o[b - 1]);
                        assert(text_before(kx, lower_of(o[p as int].word@)));
                        lemma_text_before_order(lower_of(o[b - 1].word@), kx, lower_of(o[p as int].word@));
                        if b - 1 > p {
                            assert(!text_before(lower_of(o[b - 1].word@), lower_of(o[p as int].word@)));
                        } else {
                            lemma_text_before_order(kx, lower_of(o[p as int].word@), kx);
                        }
                    } else if a < p {
                        assert(n[a] == o[a] && n[b] == o[b - 1]);
                    } else {
                        assert(n[a] == o[a - 1] && n[b] == o[b - 1]);
                    }
                }
            }
            i = i + 1;
        }
        assert(self.entries@.subrange(0, self.entries@.len() as int) =~= self.entries@);
        out
    }
}

} // verus!
