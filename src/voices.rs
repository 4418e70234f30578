//! The voice catalogue: voice ids and labels derived from model file names
//! and their metadata, in a stable order.
use vstd::prelude::*;
use crate::chars::{
    chars_of, lemma_text_before_order, push_char, range_eq_lit, string_of, string_of_range, text_before,
    text_lt, trim, trim_bounds,
};
use crate::dictionary::{lower_of, lowercase};

verus! {

/// A voice as the front end lists it.
#[derive(Debug, Clone, PartialEq, Eq)]
pub struct VoicePreference {
    pub id: String,
    pub label: String,
}

#[derive(Debug, Clone, PartialEq, Eq, Default)]
pub struct LanguageMetadata {
    pub code: Option<String>,
    pub name_native: Option<String>,
    pub name_english: Option<String>,
}

#[derive(Debug, Clone, PartialEq, Eq, Default)]
pub struct AudioMetadata {
    pub quality: Option<String>,
}

#[derive(Debug, Clone, PartialEq, Eq, Default)]
pub struct ReaderMetadata {
    pub label: Option<String>,
}

/// What a voice's metadata file says about it.
#[derive(Debug, Clone, PartialEq, Eq, Default)]
pub struct VoiceMetadata {
    pub language: Option<LanguageMetadata>,
    pub dataset: Option<String>,
    pub audio: Option<AudioMetadata>,
    pub reader: Option<ReaderMetadata>,
}

/// What `char::to_uppercase` yields for a character, as a string; it
/// depends on the character alone.
pub uninterp spec fn upper_of(c: char) -> Seq<char>;

/// Relies on `char::to_uppercase`, collected into a string.
#[verifier::external_body]
fn uppercase_char(c: char) -> (r: String)
    ensures
        r@ == upper_of(c),
{
    c.to_uppercase().collect()
}

/// `s` with every `from` replaced by `to`.
pub open spec fn replace_char(s: Seq<char>, from: char, to: char) -> Seq<char> {
    s.map_values(|c: char| if c == from { to } else { c })
}

/// `s` ends with `p`.
pub open spec fn ends_with(s: Seq<char>, p: Seq<char>) -> bool {
    p.len() <= s.len() && s.subrange(s.len() - p.len(), s.len() as int) == p
}

/// The index of the last `.` of `s`, or -1.
pub open spec fn last_dot(s: Seq<char>) -> int
    decreases s.len(),
{
    if s.len() == 0 {
        -1
    } else if s[s.len() - 1] == '.' {
        s.len() - 1
    } else {
        last_dot(s.subrange(0, s.len() - 1))
    }
}

/// A file name's extension: what follows its last `.`, unless that `.`
/// is the name's first character or there is none.
pub open spec fn extension(name: Seq<char>) -> Option<Seq<char>> {
    let d = last_dot(name);
    if d <= 0 {
        None
    } else {
        Some(name.subrange(d + 1, name.len() as int))
    }
}

pub open spec fn ascii_lower(c: char) -> char {
    if 'A' <= c && c <= 'Z' {
        (((c as u32) + 32) as u8) as char
    } else {
        c
    }
}

/// Equal but for the case of ASCII letters.
pub open spec fn eq_ignore_ascii_case(a: Seq<char>, b: Seq<char>) -> bool {
    a.len() == b.len() && forall|i: int| 0 <= i < a.len() ==> ascii_lower(#[trigger] a[i]) == ascii_lower(b[i])
}

/// A voice's id: its base name with `_` written as `-`.
pub fn voice_id_from_basename(basename: &str) -> (r: String)
    ensures
        r@ == replace_char(basename@, '_', '-'),
{
    replace_chars(basename, '_', '-')
}

fn replace_chars(s: &str, from: char, to: char) -> (r: String)
    ensures
        r@ == replace_char(s@, from, to),
{
    let cs = chars_of(s);
    let mut out = String::new();
    let mut i: usize = 0;
    while i < cs.len()
        invariant
            i <= cs@.len(),
            cs@ == s@,
            out@ == replace_char(cs@.subrange(0, i as int), from, to),
        decreases cs@.len() - i,
    {
        let c = cs[i];
        push_char(&mut out, if c == from { to } else { c });
        assert(out@ =~= replace_char(cs@.subrange(0, i + 1), from, to));
        i = i + 1;
    }
    assert(cs@.subrange(0, cs@.len() as int) =~= cs@);
    out
}

fn ends_with_lit(cs: &Vec<char>, lit: &str) -> (r: bool)
    ensures
        r == ends_with(cs@, lit@),
{
    let n = lit.unicode_len();
    if n > cs.len() {
        return false;
    }
    range_eq_lit(cs, cs.len() - n, cs.len(), lit)
}

/// The position of the last `.` in `cs`, if any.
fn find_last_dot(cs: &Vec<char>) -> (r: Option<usize>)
    ensures
        match r {
            Some(d) => d as int == last_dot(cs@) && d < cs@.len(),
            None => last_dot(cs@) == -1,
        },
{
    let mut j: usize = cs.len();
    assert(cs@.subrange(0, cs@.len() as int) =~= cs@);
    while j > 0 && cs[j - 1] != '.'
        invariant
            j <= cs@.len(),
            last_dot(cs@) == last_dot(cs@.subrange(0, j as int)),
        decreases j,
    {
        assert(cs@.subrange(0, j as int).subrange(0, j - 1) =~= cs@.subrange(0, j - 1));
        j = j - 1;
    }
    if j == 0 {
        assert(cs@.subrange(0, 0) =~= Seq::<char>::empty());
        None
    } else {
        Some(j - 1)
    }
}

/// Whether the extension of the file name `cs` is `ext`, ignoring the case
/// of ASCII letters.
fn extension_is(cs: &Vec<char>, ext: &str) -> (r: bool)
    ensures
        r == (extension(cs@) is Some && eq_ignore_ascii_case(extension(cs@)->0, ext@)),
{
    proof {
        assert(cs@.subrange(0, cs@.len() as int) =~= cs@);
    }
    let d = match find_last_dot(cs) {
        Some(d) => d,
        None => return false,
    };
    if d == 0 {
        return false;
    }
    let ghost e = cs@.subrange(d + 1, cs@.len() as int);
    assert(extension(cs@) == Some(e));
    let n = ext.unicode_len();
    let len = cs.len();
    if len - (d + 1) != n {
        return false;
    }
    let mut k: usize = 0;
    while k < n
        invariant
            k <= n,
            n == ext@.len(),
            d + 1 + n == cs@.len(),
            len == cs@.len(),
            e == cs@.subrange(d + 1, cs@.len() as int),
            extension(cs@) == Some(e),
            forall|i: int| 0 <= i < k ==> ascii_lower(#[trigger] e[i]) == ascii_lower(ext@[i]),
        decreases n - k,
    {
        let a = cs[d + 1 + k];
        let b = ext.get_char(k);
        let la = if 'A' <= a && a <= 'Z' { ((a as u32) + 32) as u8 as char } else { a };
        let lb = if 'A' <= b && b <= 'Z' { ((b as u32) + 32) as u8 as char } else { b };
        if la != lb {
            assert(e[k as int] == a);
            return false;
        }
        k = k + 1;
    }
    true
}

/// A voice's metadata file: `<name>.onnx.json`.
pub fn is_voice_metadata(file_name: &str) -> (r: bool)
    ensures
        r == (extension(file_name@) is Some && eq_ignore_ascii_case(extension(file_name@)->0, "json"@)
            && ends_with(file_name@, ".onnx.json"@)),
{
    let cs = chars_of(file_name);
    extension_is(&cs, "json") && ends_with_lit(&cs, ".onnx.json")
}

/// A voice model file: extension `onnx`, in any case.
pub fn is_voice_model(file_name: &str) -> (r: bool)
    ensures
        r == (extension(file_name@) is Some && eq_ignore_ascii_case(extension(file_name@)->0, "onnx"@)),
{
    let cs = chars_of(file_name);
    extension_is(&cs, "onnx")
}

/// The base name of a voice file: its name without `.onnx.json` or
/// `.onnx`.
pub fn voice_basename(file_name: &str) -> (r: Option<String>)
    ensures
        match r {
            Some(b) => if ends_with(file_name@, ".onnx.json"@) {
                b@ == file_name@.subrange(0, file_name@.len() - ".onnx.json"@.len())
            } else {
                ends_with(file_name@, ".onnx"@) && b@ == file_name@.subrange(0, file_name@.len() - ".onnx"@.len())
            },
            None => !ends_with(file_name@, ".onnx.json"@) && !ends_with(file_name@, ".onnx"@),
        },
{
    let cs = chars_of(file_name);
    if ends_with_lit(&cs, ".onnx.json") {
        let n = ".onnx.json".unicode_len();
        return Some(string_of_range(&cs, 0, cs.len() - n));
    }
    if ends_with_lit(&cs, ".onnx") {
        let n = ".onnx".unicode_len();
        return Some(string_of_range(&cs, 0, cs.len() - n));
    }
    None
}

pub open spec fn is_separator(c: char) -> bool {
    c == '-' || c == '_' || c == ' '
}

/// The parts of a name read so far, and the part being read.
pub struct PartScan {
    pub done: Seq<Seq<char>>,
    pub current: Seq<char>,
}

pub open spec fn part_scan(s: Seq<char>) -> PartScan
    decreases s.len(),
{
    if s.len() == 0 {
        PartScan { done: Seq::empty(), current: Seq::empty() }
    } else {
        let st = part_scan(s.subrange(0, s.len() - 1));
        let c = s[s.len() - 1];
        if is_separator(c) {
            if st.current.len() > 0 {
                PartScan { done: st.done.push(st.current), current: Seq::empty() }
            } else {
                st
            }
        } else {
            PartScan { current: st.current.push(c), ..st }
        }
    }
}

/// The non-empty parts of `s` between `-`, `_` and spaces.
pub open spec fn parts_of(s: Seq<char>) -> Seq<Seq<char>> {
    let st = part_scan(s);
    if st.current.len() > 0 {
        st.done.push(st.current)
    } else {
        st.done
    }
}

pub open spec fn all_ascii_upper(p: Seq<char>) -> bool {
    forall|i: int| 0 <= i < p.len() ==> 'A' <= #[trigger] p[i] && p[i] <= 'Z'
}

/// A part in title case: kept when all ASCII capitals, else its first
/// character uppercased and the rest lowercased.
pub open spec fn title_word(p: Seq<char>) -> Seq<char> {
    if all_ascii_upper(p) {
        p
    } else {
        upper_of(p[0]) + lower_of(p.subrange(1, p.len() as int))
    }
}

/// `ws` joined with `sep` between neighbours.
pub open spec fn join(ws: Seq<Seq<char>>, sep: Seq<char>) -> Seq<char>
    decreases ws.len(),
{
    if ws.len() == 0 {
        Seq::empty()
    } else if ws.len() == 1 {
        ws[0]
    } else {
        join(ws.subrange(0, ws.len() - 1), sep) + sep + ws[ws.len() - 1]
    }
}

/// A name in title case: its parts, each in title case, joined by spaces.
pub open spec fn title_case_of(s: Seq<char>) -> Seq<char> {
    join(parts_of(s).map_values(|p: Seq<char>| title_word(p)), seq![' '])
}

proof fn lemma_join_push(ws: Seq<Seq<char>>, w: Seq<char>, sep: Seq<char>)
    ensures
        join(ws.push(w), sep) == if ws.len() == 0 { w } else { join(ws, sep) + sep + w },
{
    assert(ws.push(w).subrange(0, ws.len() as int) =~= ws);
}

fn title_word_of(part: &Vec<char>) -> (r: String)
    requires
        part@.len() > 0,
    ensures
        r@ == title_word(part@),
{
    let mut k: usize = 0;
    while k < part.len()
        invariant
            k <= part@.len(),
            forall|i: int| 0 <= i < k ==> 'A' <= #[trigger] part@[i] && part@[i] <= 'Z',
        decreases part@.len() - k,
    {
        if !('A' <= part[k] && part[k] <= 'Z') {
            let mut out = uppercase_char(part[0]);
            let rest = string_of_range(part, 1, part.len());
            let lower = lowercase(rest.as_str());
            out.append(lower.as_str());
            return out;
        }
        k = k + 1;
    }
    string_of(part.as_slice())
}

/// Writes a name in title case: split at `-`, `_` and spaces, each part
/// capitalised unless it is all ASCII capitals, joined by spaces.
pub fn title_case(value: &str) -> (r: String)
    ensures
        r@ == title_case_of(value@),
{
    let cs = chars_of(value);
    let mut parts: Vec<Vec<char>> = Vec::new();
    let mut current: Vec<char> = Vec::new();
    let mut i: usize = 0;
    assert(cs@.subrange(0, 0) =~= Seq::<char>::empty());
    assert(parts@.map_values(|p: Vec<char>| p@) =~= Seq::<Seq<char>>::empty());
    while i < cs.len()
        invariant
            i <= cs@.len(),
            cs@ == value@,
            part_scan(cs@.subrange(0, i as int)) == (PartScan {
                done: parts@.map_values(|p: Vec<char>| p@),
                current: current@,
            }),
        decreases cs@.len() - i,
    {
        let c = cs[i];
        if c == '-' || c == '_' || c == ' ' {
            if current.len() > 0 {
                let ghost before = parts@;
                let finished = current;
                current = Vec::new();
                parts.push(finished);
                assert(parts@.map_values(|p: Vec<char>| p@) =~= before.map_values(|p: Vec<char>| p@).push(finished@));
            }
        } else {
            current.push(c);
        }
        assert(cs@.subrange(0, i + 1).subrange(0, i as int) =~= cs@.subrange(0, i as int));
        i = i + 1;
    }
    assert(cs@.subrange(0, cs@.len() as int) =~= cs@);
    if current.len() > 0 {
        let ghost before = parts@;
        parts.push(current);
        assert(parts@.map_values(|p: Vec<char>| p@) =~= before.map_values(|p: Vec<char>| p@).push(parts@.last()@));
    }
    let ghost ps = parts@.map_values(|p: Vec<char>| p@);
    assert(ps == parts_of(value@));
    proof {
        assert forall|j: int| 0 <= j < ps.len() implies #[trigger] ps[j].len() > 0 by {
            lemma_parts_nonempty(cs@);
        }
    }
    let mut out = String::new();
    let mut j: usize = 0;
    while j < parts.len()
        invariant
            j <= parts@.len(),
            ps == parts@.map_values(|p: Vec<char>| p@),
            forall|q: int| 0 <= q < ps.len() ==> #[trigger] ps[q].len() > 0,
            out@ == join(ps.subrange(0, j as int).map_values(|p: Seq<char>| title_word(p)), seq![' ']),
        decreases parts@.len() - j,
    {
        let ghost before = ps.subrange(0, j as int).map_values(|p: Seq<char>| title_word(p));
        assert(ps[j as int] == parts@[j as int]@);
        if j > 0 {
            push_char(&mut out, ' ');
        }
        let w = title_word_of(&parts[j]);
        out.append(w.as_str());
        proof {
            lemma_join_push(before, title_word(ps[j as int]), seq![' ']);
            assert(ps.subrange(0, j + 1).map_values(|p: Seq<char>| title_word(p)) =~= before.push(title_word(ps[j as int])));
            assert(out@ =~= join(before.push(title_word(ps[j as int])), seq![' ']));
        }
        j = j + 1;
    }
    assert(ps.subrange(0, ps.len() as int) =~= ps);
    out
}

proof fn lemma_parts_nonempty(s: Seq<char>)
    ensures
        forall|j: int| 0 <= j < part_scan(s).done.len() ==> #[trigger] part_scan(s).done[j].len() > 0,
        forall|j: int| 0 <= j < parts_of(s).len() ==> #[trigger] parts_of(s)[j].len() > 0,
    decreases s.len(),
{
    if s.len() > 0 {
        let s0 = s.subrange(0, s.len() - 1);
        lemma_parts_nonempty(s0);
        let st = part_scan(s0);
        let c = s[s.len() - 1];
        assert forall|j: int| 0 <= j < part_scan(s).done.len() implies #[trigger] part_scan(s).done[j].len() > 0 by {
            if is_separator(c) && st.current.len() > 0 {
                if j < st.done.len() {
                    assert(part_scan(s).done[j] == st.done[j]);
                }
            } else {
                assert(part_scan(s).done == st.done);
            }
        }
        assert forall|j: int| 0 <= j < parts_of(s).len() implies #[trigger] parts_of(s)[j].len() > 0 by {
            if j < part_scan(s).done.len() {
                assert(parts_of(s)[j] == part_scan(s).done[j]);
            }
        }
    }
}

/// Whether `s` holds only whitespace.
fn is_blank_text(s: &str) -> (r: bool)
    ensures
        r == (trim(s@).len() == 0),
{
    let cs = chars_of(s);
    let (a, b) = trim_bounds(&cs, 0, cs.len());
    assert(cs@.subrange(0, cs@.len() as int) =~= cs@);
    a == b
}

/// `s` without whitespace at either end.
fn trimmed(s: &str) -> (r: String)
    ensures
        r@ == trim(s@),
{
    let cs = chars_of(s);
    let (a, b) = trim_bounds(&cs, 0, cs.len());
    assert(cs@.subrange(0, cs@.len() as int) =~= cs@);
    string_of_range(&cs, a, b)
}

/// Present and not blank.
pub open spec fn filled(o: Option<String>) -> bool {
    o is Some && trim(o->0@).len() > 0
}

/// The language part of a label: the code (with `-` for `_`) and the
/// native name, or else the English name, joined by ` - `.
pub open spec fn language_label(l: LanguageMetadata) -> Seq<char> {
    let name = if filled(l.name_native) {
        Some(l.name_native->0@)
    } else if l.name_english is Some {
        Some(l.name_english->0@)
    } else {
        None::<Seq<char>>
    };
    if l.code is Some {
        let code = replace_char(l.code->0@, '_', '-');
        if name is Some {
            code + " - "@ + name->0
        } else {
            code
        }
    } else if name is Some {
        name->0
    } else {
        Seq::empty()
    }
}

/// The label parts that metadata gives: language, dataset, quality, each
/// where present and not blank.
pub open spec fn label_parts(m: VoiceMetadata) -> Seq<Seq<char>> {
    let a = if m.language is Some && trim(language_label(m.language->0)).len() > 0 {
        seq![language_label(m.language->0)]
    } else {
        Seq::empty()
    };
    let b = if filled(m.dataset) {
        seq![title_case_of(m.dataset->0@)]
    } else {
        Seq::empty()
    };
    let c = if m.audio is Some && filled(m.audio->0.quality) {
        seq![title_case_of(m.audio->0.quality->0@)]
    } else {
        Seq::empty()
    };
    a + b + c
}

/// A voice's label: the label its metadata gives, trimmed; else the parts
/// the metadata gives, joined by ` - `; else its base name in title case.
pub open spec fn voice_label(basename: Seq<char>, m: Option<VoiceMetadata>) -> Seq<char> {
    if m is Some && m->0.reader is Some && filled(m->0.reader->0.label) {
        trim(m->0.reader->0.label->0@)
    } else if m is Some && label_parts(m->0).len() > 0 {
        join(label_parts(m->0), " - "@)
    } else {
        title_case_of(replace_char(basename, '_', ' '))
    }
}

/// The language part of a voice's label, where its metadata names a
/// language.
pub fn format_language_label(metadata: &VoiceMetadata) -> (r: Option<String>)
    ensures
        match metadata.language {
            Some(l) => r is Some && r->0@ == language_label(l),
            None => r is None,
        },
{
    let language = match &metadata.language {
        Some(l) => l,
        None => return None,
    };
    let name: Option<&String> = match &language.name_native {
        Some(n) if !is_blank_text(n.as_str()) => Some(n),
        _ => match &language.name_english {
            Some(e) => Some(e),
            None => None,
        },
    };
    let label = match &language.code {
        Some(code) => {
            let mut c = replace_chars(code.as_str(), '_', '-');
            match name {
                Some(n) => {
                    c.append(" - ");
                    c.append(n.as_str());
                },
                None => {},
            }
            c
        },
        None => match name {
            Some(n) => n.clone(),
            None => String::new(),
        },
    };
    Some(label)
}

fn push_part(parts: &mut Vec<String>, part: String)
    ensures
        final(parts)@.map_values(|p: String| p@) == old(parts)@.map_values(|p: String| p@).push(part@),
{
    parts.push(part);
    assert(parts@.map_values(|p: String| p@) =~= old(parts)@.map_values(|p: String| p@).push(part@));
}

/// `parts` joined with ` - `.
fn join_dash(parts: &Vec<String>) -> (r: String)
    ensures
        r@ == join(parts@.map_values(|p: String| p@), " - "@),
{
    let ghost ps = parts@.map_values(|p: String| p@);
    let mut out = String::new();
    let mut j: usize = 0;
    assert(ps.subrange(0, 0) =~= Seq::<Seq<char>>::empty());
    while j < parts.len()
        invariant
            j <= parts@.len(),
            ps == parts@.map_values(|p: String| p@),
            out@ == join(ps.subrange(0, j as int), " - "@),
        decreases parts@.len() - j,
    {
        if j > 0 {
            out.append(" - ");
        }
        out.append(parts[j].as_str());
        proof {
            lemma_join_push(ps.subrange(0, j as int), ps[j as int], " - "@);
            assert(ps.subrange(0, j + 1) =~= ps.subrange(0, j as int).push(ps[j as int]));
        }
        j = j + 1;
    }
    assert(ps.subrange(0, ps.len() as int) =~= ps);
    out
}

/// The label a voice is listed under.
pub fn build_label(basename: &str, metadata: Option<&VoiceMetadata>) -> (r: String)
    ensures
        r@ == voice_label(basename@, match metadata { Some(m) => Some(*m), None => None }),
{
    if let Some(metadata) = metadata {
        if let Some(reader) = &metadata.reader {
            if let Some(label) = &reader.label {
                if !is_blank_text(label.as_str()) {
                    return trimmed(label.as_str());
                }
            }
        }
        let mut parts: Vec<String> = Vec::new();
        assert(parts@.map_values(|p: String| p@) =~= Seq::<Seq<char>>::empty());
        if let Some(language_label) = format_language_label(metadata) {
            if !is_blank_text(language_label.as_str()) {
                push_part(&mut parts, language_label);
            }
        }
        if let Some(dataset) = &metadata.dataset {
            if !is_blank_text(dataset.as_str()) {
                push_part(&mut parts, title_case(dataset.as_str()));
            }
        }
        if let Some(audio) = &metadata.audio {
            if let Some(quality) = &audio.quality {
                if !is_blank_text(quality.as_str()) {
                    push_part(&mut parts, title_case(quality.as_str()));
                }
            }
        }
        assert(parts@.map_values(|p: String| p@) =~= label_parts(*metadata));
        if parts.len() > 0 {
            return join_dash(&parts);
        }
    }
    let spaced = replace_chars(basename, '_', ' ');
    title_case(spaced.as_str())
}

/// Adds the voice with base name `basename` to `voices`, unless a voice
/// with its id is there already.
pub fn register_voice(voices: &mut Vec<VoicePreference>, basename: String, metadata: Option<VoiceMetadata>)
    ensures
        ({
            let id = replace_char(basename@, '_', '-');
            if exists|i: int| 0 <= i < old(voices)@.len() && (#[trigger] old(voices)@[i]).id@ == id {
                final(voices)@ == old(voices)@
            } else {
                &&& final(voices)@.len() == old(voices)@.len() + 1
                &&& final(voices)@.subrange(0, old(voices)@.len() as int) == old(voices)@
                &&& final(voices)@.last().id@ == id
                &&& final(voices)@.last().label@ == voice_label(basename@, metadata)
            }
        }),
{
    let id = voice_id_from_basename(basename.as_str());
    let mut i: usize = 0;
    while i < voices.len()
        invariant
            i <= voices@.len(),
            voices@ == old(voices)@,
            id@ == replace_char(basename@, '_', '-'),
            forall|j: int| 0 <= j < i ==> (#[trigger] voices@[j]).id@ != id@,
        decreases voices@.len() - i,
    {
        if voices[i].id == id {
            assert(old(voices)@[i as int].id@ == id@);
            return;
        }
        i = i + 1;
    }
    let label = build_label(basename.as_str(), metadata.as_ref());
    voices.push(VoicePreference { id, label });
    assert(voices@.subrange(0, old(voices)@.len() as int) =~= old(voices)@);
}

/// `x` is listed before `y`: by label, then by id.
pub open spec fn voice_before(x: VoicePreference, y: VoicePreference) -> bool {
    text_before(x.label@, y.label@) || (x.label@ == y.label@ && text_before(x.id@, y.id@))
}

/// No voice of `v` is listed before one that precedes it.
pub open spec fn voices_sorted(v: Seq<VoicePreference>) -> bool {
    forall|i: int, j: int| 0 <= i < j < v.len() ==> !voice_before(#[trigger] v[j], #[trigger] v[i])
}

proof fn lemma_voice_before_order(x: VoicePreference, y: VoicePreference, z: VoicePreference)
    ensures
        voice_before(x, y) ==> !voice_before(y, x),
        voice_before(x, y) && voice_before(y, z) ==> voice_before(x, z),
{
    lemma_text_before_order(x.label@, y.label@, z.label@);
    lemma_text_before_order(x.id@, y.id@, z.id@);
    lemma_text_before_order(y.label@, x.label@, x.label@);
    lemma_text_before_order(y.id@, x.id@, x.id@);
    lemma_text_before_order(x.label@, x.label@, x.label@);
    lemma_text_before_order(x.id@, x.id@, x.id@);
}

fn listed_before(x: &VoicePreference, y: &VoicePreference) -> (r: bool)
    ensures
        r == voice_before(*x, *y),
{
    if text_lt(x.label.as_str(), y.label.as_str()) {
        return true;
    }
    if x.label == y.label {
        return text_lt(x.id.as_str(), y.id.as_str());
    }
    false
}

/// The voices ordered by label, then by id.
pub fn sort_voices(voices: Vec<VoicePreference>) -> (r: Vec<VoicePreference>)
    ensures
        voices_sorted(r@),
        r@.to_multiset() == voices@.to_multiset(),
{
    broadcast use vstd::seq_lib::group_to_multiset_ensures;
    let ghost all = voices@.to_multiset();
    let mut rest = voices;
    let mut out: Vec<VoicePreference> = Vec::new();
    while rest.len() > 0
        invariant
            voices_sorted(out@),
            out@.to_multiset().add(rest@.to_multiset()) == all,
        decreases rest@.len(),
    {
        let ghost before = rest@;
        let x = rest.pop().unwrap();
        proof {
            assert(before =~= rest@.push(x));
            vstd::seq_lib::to_multiset_build(rest@, x);
        }
        let mut p: usize = 0;
        while p < out.len() && !listed_before(&x, &out[p])
            invariant
                p <= out@.len(),
                forall|k: int| 0 <= k < p ==> !voice_before(x, #[trigger] out@[k]),
            decreases out@.len() - p,
        {
            p = p + 1;
        }
        let ghost o = out@;
        proof {
            vstd::seq_lib::to_multiset_insert(o, p as int, x);
        }
        out.insert(p, x);
        proof {
            let n = out@;
            assert forall|i: int, j: int| 0 <= i < j < n.len() implies !voice_before(#[trigger] n[j], #[trigger] n[i]) by {
                if j < p {
                    assert(n[i] == o[i] && n[j] == o[j]);
                } else if j == p {
                    assert(n[i] == o[i]);
                    lemma_voice_before_order(o[i], x, x);
                } else if i == p {
                    assert(n[j] == o[j - 1]);
                    assert(voice_before(x, o[p as int]));
                    lemma_voice_before_order(o[j - 1], x, o[p as int]);
                    if j - 1 > p {
                        assert(!voice_before(o[j - 1], o[p as int]));
                    } else {
                        lemma_voice_before_order(x, o[p as int], o[p as int]);
                    }
                } else if i < p {
                    assert(n[i] == o[i] && n[j] == o[j - 1]);
                } else {
                    assert(n[i] == o[i - 1] && n[j] == o[j - 1]);
                }
            }
            assert(out@.to_multiset().add(rest@.to_multiset()) =~= all);
        }
    }
    proof {
        assert(rest@ =~= Seq::<VoicePreference>::empty());
        assert(rest@.to_multiset() =~= vstd::multiset::Multiset::<VoicePreference>::empty());
        assert(out@.to_multiset() =~= out@.to_multiset().add(rest@.to_multiset()));
    }
    out
}

} // verus!
