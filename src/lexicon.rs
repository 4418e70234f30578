//! The editable lexicon: literal replacements applied to text before
//! synthesis, each matched with or without regard to case.
use vstd::prelude::*;
use crate::chars::chars_of;

verus! {

#[derive(Debug, Clone, PartialEq, Eq)]
pub enum LexiconError {
    /// Reading or writing the lexicon failed.
    Io(String),
    /// The stored lexicon could not be read as a lexicon.
    Invalid(String),
    /// An entry with the same text and phonemes is there already.
    Duplicate(String),
}

#[derive(Debug, Clone, PartialEq, Eq)]
pub struct LexiconEntry {
    pub text: String,
    pub phonemes: String,
    pub case_sensitive: bool,
}

#[derive(Debug, Clone, PartialEq, Eq, Default)]
pub struct Lexicon {
    pub entries: Vec<LexiconEntry>,
}

/// A request to add an entry or change the one with the same text.
#[derive(Debug, Clone, PartialEq, Eq)]
pub struct UpsertPayload {
    pub text: String,
    pub phonemes: String,
    pub case_sensitive: bool,
}

/// A request to remove the entries with a text.
#[derive(Debug, Clone, PartialEq, Eq)]
pub struct DeletePayload {
    pub text: String,
}

/// What `regex` gives for `hay` with every match of `needle`, taken
/// literally and without regard to case, replaced by `rep` (in which `$`
/// names a capture group); `None` where the pattern does not compile.
pub uninterp spec fn replaced_ignoring_case(hay: Seq<char>, needle: Seq<char>, rep: Seq<char>) -> Option<Seq<char>>;

/// Relies on `regex`: `regex::escape` makes `needle` a literal pattern,
/// `RegexBuilder` with `case_insensitive` compiles it (which fails only
/// past the size limits), and `Regex::replace_all` replaces every match.
#[verifier::external_body]
fn replace_ignoring_case(hay: &str, needle: &str, rep: &str) -> (r: Option<String>)
    ensures
        match r {
            Some(s) => replaced_ignoring_case(hay@, needle@, rep@) == Some(s@),
            None => replaced_ignoring_case(hay@, needle@, rep@) is None,
        },
{
    let pattern = regex::escape(needle);
    let re = regex::RegexBuilder::new(&pattern).case_insensitive(true).build().ok()?;
    Some(re.replace_all(hay, rep).into_owned())
}

/// `s` with every occurrence of `p`, left to right and not overlapping,
/// replaced by `r`; an empty `p` occurs before each character and at the
/// end.
pub open spec fn replaced(s: Seq<char>, p: Seq<char>, r: Seq<char>) -> Seq<char>
    decreases s.len(),
{
    if p.len() == 0 {
        if s.len() == 0 {
            r
        } else {
            r + seq![s[0]] + replaced(s.subrange(1, s.len() as int), p, r)
        }
    } else if s.len() >= p.len() && s.subrange(0, p.len() as int) == p {
        r + replaced(s.subrange(p.len() as int, s.len() as int), p, r)
    } else if s.len() == 0 {
        Seq::empty()
    } else {
        seq![s[0]] + replaced(s.subrange(1, s.len() as int), p, r)
    }
}

/// Whether `p` occurs in `s` at `i`.
fn occurs_at(s: &Vec<char>, i: usize, p: &Vec<char>) -> (r: bool)
    requires
        i <= s@.len(),
    ensures
        r == (s@.len() - i >= p@.len() && s@.subrange(i as int, i + p@.len()) == p@),
{
    let len = s.len();
    if len - i < p.len() {
        return false;
    }
    let mut k: usize = 0;
    while k < p.len()
        invariant
            k <= p@.len(),
            len == s@.len(),
            i + p@.len() <= s@.len(),
            forall|j: int| 0 <= j < k ==> s@[i + j] == p@[j],
        decreases p@.len() - k,
    {
        if s[i + k] != p[k] {
            assert(s@.subrange(i as int, i + p@.len())[k as int] != p@[k as int]);
            return false;
        }
        k = k + 1;
    }
    assert(s@.subrange(i as int, i + p@.len()) =~= p@);
    true
}

/// Replaces every occurrence of `from` in `text` by `to`.
pub fn replace_literal(text: &str, from: &str, to: &str) -> (r: String)
    ensures
        r@ == replaced(text@, from@, to@),
{
    let s = chars_of(text);
    let p = chars_of(from);
    let mut out = String::new();
    let mut i: usize = 0;
    assert(s@.subrange(0, s@.len() as int) =~= s@);
    while i < s.len()
        invariant
            i <= s@.len(),
            s@ == text@,
            p@ == from@,
            out@ + replaced(s@.subrange(i as int, s@.len() as int), p@, to@) == replaced(text@, from@, to@),
        decreases s@.len() - i,
    {
        let ghost rest = s@.subrange(i as int, s@.len() as int);
        let ghost before = out@;
        if p.len() > 0 && occurs_at(&s, i, &p) {
            out.append(to);
            assert(rest.subrange(0, p@.len() as int) =~= s@.subrange(i as int, i + p@.len()));
            assert(rest.subrange(p@.len() as int, rest.len() as int) =~= s@.subrange(i + p@.len(), s@.len() as int));
            assert(out@ + replaced(s@.subrange(i + p@.len(), s@.len() as int), p@, to@) =~= before + replaced(rest, p@, to@));
            i = i + p.len();
        } else {
            if p.len() == 0 {
                out.append(to);
            } else {
                assert(!(rest.len() >= p@.len() && rest.subrange(0, p@.len() as int) == p@)) by {
                    if rest.len() >= p@.len() {
                        assert(rest.subrange(0, p@.len() as int) =~= s@.subrange(i as int, i + p@.len()));
                    }
                }
            }
            crate::chars::push_char(&mut out, s[i]);
            assert(rest.subrange(1, rest.len() as int) =~= s@.subrange(i + 1, s@.len() as int));
            assert(out@ + replaced(s@.subrange(i + 1, s@.len() as int), p@, to@) =~= before + replaced(rest, p@, to@));
            i = i + 1;
        }
    }
    if p.len() == 0 {
        out.append(to);
    }
    assert(out@ =~= out@ + Seq::<char>::empty());
    out
}

/// One entry applied to `text`: matched literally, with or without regard
/// to case; `None` where the case-blind pattern could not be compiled.
pub open spec fn entry_applied(text: Seq<char>, e: LexiconEntry) -> Option<Seq<char>> {
    if e.case_sensitive {
        Some(replaced(text, e.text@, e.phonemes@))
    } else {
        replaced_ignoring_case(text, e.text@, e.phonemes@)
    }
}

/// The first entry with text `t`, if any.
pub open spec fn first_with_text(v: Seq<LexiconEntry>, t: Seq<char>) -> Option<int> {
    if exists|i: int| 0 <= i < v.len() && (#[trigger] v[i]).text@ == t {
        Some(choose|i: int| 0 <= i < v.len() && (#[trigger] v[i]).text@ == t && forall|j: int| 0 <= j < i ==> (#[trigger] v[j]).text@ != t)
    } else {
        None
    }
}

impl Lexicon {
    /// Adds the payload as an entry, or changes the phonemes and case rule
    /// of the first entry with its text; an entry with the same text and
    /// phonemes is a duplicate and changes nothing.
    pub fn upsert(&mut self, payload: UpsertPayload) -> (r: Result<(), LexiconError>)
        ensures
            ({
                let v = old(self).entries@;
                let t = payload.text@;
                if exists|i: int| 0 <= i < v.len() && (#[trigger] v[i]).text@ == t && v[i].phonemes@ == payload.phonemes@ {
                    r matches Err(LexiconError::Duplicate(d)) && d@ == t && final(self).entries@ == v
                } else if exists|i: int| 0 <= i < v.len() && (#[trigger] v[i]).text@ == t {
                    exists|i: int| {
                        &&& 0 <= i < v.len() && (#[trigger] v[i]).text@ == t
                        &&& forall|j: int| 0 <= j < i ==> (#[trigger] v[j]).text@ != t
                        &&& r is Ok
                        &&& final(self).entries@.len() == v.len()
                        &&& forall|j: int| 0 <= j < v.len() && j != i ==> #[trigger] final(self).entries@[j] == v[j]
                        &&& final(self).entries@[i].text == v[i].text
                        &&& final(self).entries@[i].phonemes@ == payload.phonemes@
                        &&& final(self).entries@[i].case_sensitive == payload.case_sensitive
                    }
                } else {
                    &&& r is Ok
                    &&& final(self).entries@.len() == v.len() + 1
                    &&& final(self).entries@.subrange(0, v.len() as int) == v
                    &&& final(self).entries@[v.len() as int].text@ == t
                    &&& final(self).entries@[v.len() as int].phonemes@ == payload.phonemes@
                    &&& final(self).entries@[v.len() as int].case_sensitive == payload.case_sensitive
                }
            }),
    {
        let ghost v = self.entries@;
        let mut i: usize = 0;
        while i < self.entries.len()
            invariant
                i <= self.entries@.len(),
                self.entries@ == v,
                v == old(self).entries@,
                forall|j: int| 0 <= j < i ==> !((#[trigger] v[j]).text@ == payload.text@ && v[j].phonemes@ == payload.phonemes@),
            decreases self.entries@.len() - i,
        {
            if self.entries[i].text == payload.text && self.entries[i].phonemes == payload.phonemes {
                return Err(LexiconError::Duplicate(payload.text));
            }
            i = i + 1;
        }
        let mut k: usize = 0;
        while k < self.entries.len()
            invariant
                k <= self.entries@.len(),
                self.entries@ == v,
                v == old(self).entries@,
                forall|j: int| 0 <= j < v.len() ==> !((#[trigger] v[j]).text@ == payload.text@ && v[j].phonemes@ == payload.phonemes@),
                forall|j: int| 0 <= j < k ==> (#[trigger] v[j]).text@ != payload.text@,
            decreases self.entries@.len() - k,
        {
            if self.entries[k].text == payload.text {
                let existing = self.entries.remove(k);
                let updated = LexiconEntry {
                    text: existing.text,
                    phonemes: payload.phonemes,
                    case_sensitive: payload.case_sensitive,
                };
                self.entries.insert(k, updated);
                assert(self.entries@ =~= v.update(k as int, updated));
                assert(v[k as int].text@ == payload.text@);
                return Ok(());
            }
            k = k + 1;
        }
        self.entries.push(LexiconEntry {
            text: payload.text,
            phonemes: payload.phonemes,
            case_sensitive: payload.case_sensitive,
        });
        assert(self.entries@.subrange(0, v.len() as int) =~= v);
        Ok(())
    }

    /// Removes every entry whose text is `text`.
    pub fn delete(&mut self, text: &str)
        ensures
            final(self).entries@ == old(self).entries@.filter(|e: LexiconEntry| e.text@ != text@),
    {
        let ghost v = self.entries@;
        let mut kept: Vec<LexiconEntry> = Vec::new();
        let mut rest: Vec<LexiconEntry> = Vec::new();
        std::mem::swap(&mut rest, &mut self.entries);
        let mut reversed: Vec<LexiconEntry> = Vec::new();
        while rest.len() > 0
            invariant
                rest@.len() + reversed@.len() == v.len(),
                rest@ == v.subrange(0, rest@.len() as int),
                forall|k: int| 0 <= k < reversed@.len() ==> #[trigger] reversed@[k] == v[v.len() - 1 - k],
            decreases rest@.len(),
        {
            let e = rest.pop().unwrap();
            reversed.push(e);
            assert(rest@ =~= v.subrange(0, rest@.len() as int));
        }
        let n = reversed.len();
        assert(v.subrange(0, 0) =~= Seq::<LexiconEntry>::empty());
        while reversed.len() > 0
            invariant
                n == v.len(),
                reversed@.len() <= n,
                forall|k: int| 0 <= k < reversed@.len() ==> #[trigger] reversed@[k] == v[v.len() - 1 - k],
                kept@ == v.subrange(0, n - reversed@.len()).filter(|e: LexiconEntry| e.text@ != text@),
            decreases reversed@.len(),
        {
            let ghost j = n - reversed@.len();
            let e = reversed.pop().unwrap();
            assert(e == v[j]);
            proof {
                reveal(Seq::filter);
                assert(v.subrange(0, j + 1).drop_last() =~= v.subrange(0, j));
                assert(v.subrange(0, j + 1).last() == v[j]);
            }
            if !text_is(&e.text, text) {
                kept.push(e);
            }
        }
        assert(v.subrange(0, n as int) =~= v);
        self.entries = kept;
    }
}

fn text_is(a: &String, b: &str) -> (r: bool)
    ensures
        r == (a@ == b@),
{
    let x = chars_of(a.as_str());
    let y = chars_of(b);
    if x.len() != y.len() {
        return false;
    }
    let mut k: usize = 0;
    while k < x.len()
        invariant
            k <= x@.len(),
            x@.len() == y@.len(),
            x@ == a@,
            y@ == b@,
            forall|j: int| 0 <= j < k ==> x@[j] == y@[j],
        decreases x@.len() - k,
    {
        if x[k] != y[k] {
            return false;
        }
        k = k + 1;
    }
    assert(x@ =~= y@);
    true
}

/// The lexicon's entries applied to `input` in order.
pub open spec fn applied(input: Seq<char>, v: Seq<LexiconEntry>) -> Seq<char>
    decreases v.len(),
{
    if v.len() == 0 {
        input
    } else {
        let before = applied(input, v.subrange(0, v.len() - 1));
        match entry_applied(before, v[v.len() - 1]) {
            Some(t) => t,
            None => before,
        }
    }
}

impl Lexicon {
    /// Applies every entry to `input`, in order: case-sensitive entries as
    /// literal replacements, the others through a case-blind pattern. An
    /// entry whose pattern cannot be compiled is passed over.
    pub fn apply_replacements(&self, input: &str) -> (r: String)
        ensures
            r@ == applied(input@, self.entries@),
    {
        let mut result = String::from_str(input);
        let mut i: usize = 0;
        assert(self.entries@.subrange(0, 0) =~= Seq::<LexiconEntry>::empty());
        while i < self.entries.len()
            invariant
                i <= self.entries@.len(),
                result@ == applied(input@, self.entries@.subrange(0, i as int)),
            decreases self.entries@.len() - i,
        {
            let entry = &self.entries[i];
            let ghost prev = result@;
            assert(self.entries@.subrange(0, i + 1).subrange(0, i as int) =~= self.entries@.subrange(0, i as int));
            if entry.case_sensitive {
                result = replace_literal(result.as_str(), entry.text.as_str(), entry.phonemes.as_str());
            } else {
                match replace_ignoring_case(result.as_str(), entry.text.as_str(), entry.phonemes.as_str()) {
                    Some(s) => result = s,
                    None => {},
                }
            }
            i = i + 1;
        }
        assert(self.entries@.subrange(0, self.entries@.len() as int) =~= self.entries@);
        result
    }
}

} // verus!
