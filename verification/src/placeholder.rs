//! Placeholders in command templates.
//!
//! A placeholder is written `{{name}}`, `{{name?}}`, `{{name:a,b}}` or
//! `{{name?:a,b}}`, with optional white space after the opening braces and
//! before the closing ones. `?` makes the value optional, `:` introduces a
//! comma-separated list of choices.
//!
//! The grammar is the pattern
//! `\{\{\s*(?P<name>[a-zA-Z0-9_-]+)(?P<opt>\?)?(?::(?P<choices>[^}]+))?\s*\}\}`
//! read with leftmost-first semantics: the template is searched from left to
//! right for non-overlapping matches. `match_at` states the match that
//! begins at a given position, `matches_from` the search.

use vstd::prelude::*;
use crate::text::{
    trimmed,
    is_space, char_is_space, chars_of, trim_start, trim_end, lemma_trim_bounds, lemma_trim_ends,
};

verus! {

/// Characters allowed in a placeholder's name: ASCII letters and digits,
/// `_` and `-`.
pub open spec fn is_name_char(c: char) -> bool {
    ||| ('a' <= c && c <= 'z')
    ||| ('A' <= c && c <= 'Z')
    ||| ('0' <= c && c <= '9')
    ||| c == '_'
    ||| c == '-'
}

/// The first index at or after `i` that holds no white space, or `s.len()`.
pub open spec fn skip_spaces(s: Seq<char>, i: int) -> int
    decreases s.len() - i,
{
    if 0 <= i < s.len() && is_space(s[i]) {
        skip_spaces(s, i + 1)
    } else {
        i
    }
}

/// The first index at or after `i` that holds no name character, or `s.len()`.
pub open spec fn name_end(s: Seq<char>, i: int) -> int
    decreases s.len() - i,
{
    if 0 <= i < s.len() && is_name_char(s[i]) {
        name_end(s, i + 1)
    } else {
        i
    }
}

/// The first index at or after `i` that holds `}`, or `s.len()`.
pub open spec fn brace_end(s: Seq<char>, i: int) -> int
    decreases s.len() - i,
{
    if 0 <= i < s.len() && s[i] != '}' {
        brace_end(s, i + 1)
    } else {
        i
    }
}

/// Where a placeholder lies in a template: the whole match `[start, end)`,
/// its name `[name_start, name_end)`, whether `?` follows the name, and the
/// range of the choices after `:`, if any.
pub struct Span {
    pub start: int,
    pub end: int,
    pub name_start: int,
    pub name_end: int,
    pub optional: bool,
    pub choices: Option<(int, int)>,
}

/// The placeholder that begins at index `i` of `s`, if one does.
pub open spec fn match_at(s: Seq<char>, i: int) -> Option<Span> {
    if !(0 <= i && i + 1 < s.len() && s[i] == '{' && s[i + 1] == '{') {
        None
    } else {
        let a = skip_spaces(s, i + 2);
        let b = name_end(s, a);
        if b == a {
            None
        } else {
            let optional = b < s.len() && s[b] == '?';
            let c = if optional { b + 1 } else { b };
            if c < s.len() && s[c] == ':' {
                let d = brace_end(s, c + 1);
                if d > c + 1 && d + 1 < s.len() && s[d] == '}' && s[d + 1] == '}' {
                    Some(Span { start: i, end: d + 2, name_start: a, name_end: b, optional, choices: Some((c + 1, d)) })
                } else {
                    None
                }
            } else {
                let e = skip_spaces(s, c);
                if e + 1 < s.len() && s[e] == '}' && s[e + 1] == '}' {
                    Some(Span { start: i, end: e + 2, name_start: a, name_end: b, optional, choices: None })
                } else {
                    None
                }
            }
        }
    }
}

pub proof fn lemma_skip_spaces_bounds(s: Seq<char>, i: int)
    requires
        0 <= i <= s.len(),
    ensures
        i <= skip_spaces(s, i) <= s.len(),
        forall|j: int| i <= j < skip_spaces(s, i) ==> is_space(#[trigger] s[j]),
    decreases s.len() - i,
{
    if i < s.len() && is_space(s[i]) {
        lemma_skip_spaces_bounds(s, i + 1);
    }
}

pub proof fn lemma_name_end_bounds(s: Seq<char>, i: int)
    requires
        0 <= i <= s.len(),
    ensures
        i <= name_end(s, i) <= s.len(),
        forall|j: int| i <= j < name_end(s, i) ==> is_name_char(#[trigger] s[j]),
    decreases s.len() - i,
{
    if i < s.len() && is_name_char(s[i]) {
        lemma_name_end_bounds(s, i + 1);
    }
}

pub proof fn lemma_brace_end_bounds(s: Seq<char>, i: int)
    requires
        0 <= i <= s.len(),
    ensures
        i <= brace_end(s, i) <= s.len(),
        forall|j: int| i <= j < brace_end(s, i) ==> #[trigger] s[j] != '}',
    decreases s.len() - i,
{
    if i < s.len() && s[i] != '}' {
        lemma_brace_end_bounds(s, i + 1);
    }
}

/// The shape of every match: it begins with `{{` at `i`, ends with `}}`
/// within the template, and its name is a non-empty run of name characters.
pub proof fn lemma_match_at_shape(s: Seq<char>, i: int)
    ensures
        match_at(s, i) matches Some(m) ==> {
            &&& m.start == i
            &&& i + 2 <= m.name_start < m.name_end
            &&& m.name_end + 2 <= m.end <= s.len()
            &&& s[i] == '{' && s[i + 1] == '{'
            &&& s[m.end - 2] == '}' && s[m.end - 1] == '}'
            &&& forall|j: int| m.name_start <= j < m.name_end ==> is_name_char(#[trigger] s[j])
            &&& m.choices matches Some((lo, hi)) ==> {
                &&& m.name_end < lo < hi == m.end - 2
                &&& forall|j: int| lo <= j < hi ==> #[trigger] s[j] != '}'
            }
        },
{
    if 0 <= i && i + 1 < s.len() && s[i] == '{' && s[i + 1] == '{' {
        let a = skip_spaces(s, i + 2);
        lemma_skip_spaces_bounds(s, i + 2);
        let b = name_end(s, a);
        lemma_name_end_bounds(s, a);
        let optional = b < s.len() && s[b] == '?';
        let c = if optional { b + 1 } else { b };
        if c < s.len() && s[c] == ':' {
            lemma_brace_end_bounds(s, c + 1);
        } else {
            lemma_skip_spaces_bounds(s, c);
        }
    }
}

/// The placeholders found by searching `s` from index `pos` on: the leftmost
/// match, then the search resumes where it ended.
pub open spec fn matches_from(s: Seq<char>, pos: int) -> Seq<Span>
    decreases s.len() - pos,
{
    if pos < 0 || pos >= s.len() {
        seq![]
    } else {
        match match_at(s, pos) {
            Some(m) => {
                proof {
                    lemma_match_at_shape(s, pos);
                }
                seq![m] + matches_from(s, m.end)
            },
            None => matches_from(s, pos + 1),
        }
    }
}


/// The piece `s[a..b]` with surrounding white space removed, as a list of
/// one entry, or no entry when nothing is left.
pub open spec fn trimmed_piece(s: Seq<char>, a: int, b: int) -> Seq<Seq<char>> {
    let lo = trim_start(s, a, b);
    let hi = trim_end(s, lo, b);
    if lo < hi {
        seq![s.subrange(lo, hi)]
    } else {
        seq![]
    }
}

/// The choices written in `s[seg..hi]`, where the current piece began at
/// `seg` and the scan stands at `i`: the text is cut at every `,`, each piece
/// is trimmed, and empty pieces are dropped.
pub open spec fn option_list(s: Seq<char>, seg: int, i: int, hi: int) -> Seq<Seq<char>>
    decreases hi - i,
{
    if i >= hi {
        trimmed_piece(s, seg, hi)
    } else if s[i] == ',' {
        trimmed_piece(s, seg, i) + option_list(s, i + 1, i + 1, hi)
    } else {
        option_list(s, seg, i + 1, hi)
    }
}

/// A placeholder as values: the matched text, the name, whether a value is
/// required, and the choices when the placeholder offers a list.
pub struct PlaceholderView {
    pub raw: Seq<char>,
    pub name: Seq<char>,
    pub required: bool,
    pub options: Option<Seq<Seq<char>>>,
}

/// The placeholder that the match `m` in `s` describes.
pub open spec fn placeholder_of(s: Seq<char>, m: Span) -> PlaceholderView {
    PlaceholderView {
        raw: s.subrange(m.start, m.end),
        name: s.subrange(m.name_start, m.name_end),
        required: !m.optional,
        options: match m.choices {
            Some((lo, hi)) => Some(option_list(s, lo, lo, hi)),
            None => None,
        },
    }
}

/// The placeholders of a template, in the order in which they occur.
pub open spec fn template_placeholders(s: Seq<char>) -> Seq<PlaceholderView> {
    matches_from(s, 0).map_values(|m: Span| placeholder_of(s, m))
}

/// The values of a list of strings.
pub open spec fn string_views(v: Seq<String>) -> Seq<Seq<char>> {
    v.map_values(|x: String| x@)
}

/// A placeholder of a command template.
#[derive(Debug, PartialEq, Clone)]
pub struct Placeholder {
    /// The text of the placeholder as it stands in the template, braces included.
    pub raw: String,
    /// The variable's name.
    pub name: String,
    /// Whether a value must be given (no `?` after the name).
    pub required: bool,
    /// The choices offered, when the placeholder lists some after `:`.
    pub options: Option<Vec<String>>,
}

impl View for Placeholder {
    type V = PlaceholderView;

    open spec fn view(&self) -> PlaceholderView {
        PlaceholderView {
            raw: self.raw@,
            name: self.name@,
            required: self.required,
            options: match self.options {
                Some(v) => Some(string_views(v@)),
                None => None,
            },
        }
    }
}

/// The views of a list of placeholders.
pub open spec fn placeholder_views(v: Seq<Placeholder>) -> Seq<PlaceholderView> {
    v.map_values(|p: Placeholder| p@)
}

/// A match found by the scanner, by index into the template's characters.
struct Found {
    start: usize,
    end: usize,
    name_start: usize,
    name_end: usize,
    optional: bool,
    choices: Option<(usize, usize)>,
}

spec fn found_span(f: Option<Found>) -> Option<Span> {
    match f {
        Some(f) => Some(
            Span {
                start: f.start as int,
                end: f.end as int,
                name_start: f.name_start as int,
                name_end: f.name_end as int,
                optional: f.optional,
                choices: match f.choices {
                    Some((lo, hi)) => Some((lo as int, hi as int)),
                    None => None,
                },
            },
        ),
        None => None,
    }
}

fn skip_spaces_from(cs: &Vec<char>, i: usize) -> (r: usize)
    requires
        i <= cs.len(),
    ensures
        r == skip_spaces(cs@, i as int),
        i <= r <= cs.len(),
{
    let mut j = i;
    while j < cs.len() && char_is_space(cs[j])
        invariant
            i <= j <= cs.len(),
            skip_spaces(cs@, i as int) == skip_spaces(cs@, j as int),
        decreases cs.len() - j,
    {
        j += 1;
    }
    j
}

fn name_end_from(cs: &Vec<char>, i: usize) -> (r: usize)
    requires
        i <= cs.len(),
    ensures
        r == name_end(cs@, i as int),
        i <= r <= cs.len(),
{
    let mut j = i;
    while j < cs.len() && (('a' <= cs[j] && cs[j] <= 'z') || ('A' <= cs[j] && cs[j] <= 'Z') || ('0'
        <= cs[j] && cs[j] <= '9') || cs[j] == '_' || cs[j] == '-')
        invariant
            i <= j <= cs.len(),
            name_end(cs@, i as int) == name_end(cs@, j as int),
        decreases cs.len() - j,
    {
        j += 1;
    }
    j
}

fn brace_end_from(cs: &Vec<char>, i: usize) -> (r: usize)
    requires
        i <= cs.len(),
    ensures
        r == brace_end(cs@, i as int),
        i <= r <= cs.len(),
{
    let mut j = i;
    while j < cs.len() && cs[j] != '}'
        invariant
            i <= j <= cs.len(),
            brace_end(cs@, i as int) == brace_end(cs@, j as int),
        decreases cs.len() - j,
    {
        j += 1;
    }
    j
}

/// The placeholder that begins at `i`, if one does.
fn match_here(cs: &Vec<char>, i: usize) -> (r: Option<Found>)
    requires
        i < cs.len(),
    ensures
        found_span(r) == match_at(cs@, i as int),
{
    let n = cs.len();
    if !(i + 1 < n && cs[i] == '{' && cs[i + 1] == '{') {
        return None;
    }
    let a = skip_spaces_from(cs, i + 2);
    let b = name_end_from(cs, a);
    if b == a {
        return None;
    }
    let optional = b < n && cs[b] == '?';
    let c = if optional { b + 1 } else { b };
    if c < n && cs[c] == ':' {
        let d = brace_end_from(cs, c + 1);
        if d > c + 1 && n - d >= 2 && cs[d] == '}' && cs[d + 1] == '}' {
            Some(Found { start: i, end: d + 2, name_start: a, name_end: b, optional, choices: Some((c + 1, d)) })
        } else {
            None
        }
    } else {
        let e = skip_spaces_from(cs, c);
        if n - e >= 2 && cs[e] == '}' && cs[e + 1] == '}' {
            Some(Found { start: i, end: e + 2, name_start: a, name_end: b, optional, choices: None })
        } else {
            None
        }
    }
}

/// Appends the trimmed piece `template[a..b]` to `out` unless it is empty.
fn push_trimmed(template: &str, cs: &Vec<char>, a: usize, b: usize, out: &mut Vec<String>)
    requires
        cs@ == template@,
        a <= b <= cs.len(),
    ensures
        string_views(final(out)@) == string_views(old(out)@) + trimmed_piece(cs@, a as int, b as int),
{
    let mut lo = a;
    while lo < b && char_is_space(cs[lo])
        invariant
            a <= lo <= b <= cs.len(),
            trim_start(cs@, a as int, b as int) == trim_start(cs@, lo as int, b as int),
        decreases b - lo,
    {
        lo += 1;
    }
    let mut hi = b;
    while lo < hi && char_is_space(cs[hi - 1])
        invariant
            lo <= hi <= b <= cs.len(),
            trim_end(cs@, lo as int, b as int) == trim_end(cs@, lo as int, hi as int),
        decreases hi - lo,
    {
        hi -= 1;
    }
    let ghost before = string_views(out@);
    if lo < hi {
        let piece = String::from_str(template.substring_char(lo, hi));
        out.push(piece);
        assert(string_views(out@) =~= before + trimmed_piece(cs@, a as int, b as int));
    } else {
        assert(string_views(out@) =~= before + trimmed_piece(cs@, a as int, b as int));
    }
}

/// The choices written in `template[lo..hi]`.
fn options_between(template: &str, cs: &Vec<char>, lo: usize, hi: usize) -> (r: Vec<String>)
    requires
        cs@ == template@,
        lo <= hi <= cs.len(),
    ensures
        string_views(r@) == option_list(cs@, lo as int, lo as int, hi as int),
{
    let mut out: Vec<String> = Vec::new();
    let mut seg = lo;
    let mut i = lo;
    assert(string_views(out@) =~= Seq::<Seq<char>>::empty());
    while i < hi
        invariant
            cs@ == template@,
            lo <= seg <= i <= hi <= cs.len(),
            option_list(cs@, lo as int, lo as int, hi as int) == string_views(out@) + option_list(
                cs@,
                seg as int,
                i as int,
                hi as int,
            ),
        decreases hi - i,
    {
        if cs[i] == ',' {
            let ghost prev = string_views(out@);
            push_trimmed(template, cs, seg, i, &mut out);
            assert(prev + option_list(cs@, seg as int, i as int, hi as int) =~= string_views(out@)
                + option_list(cs@, (i + 1) as int, (i + 1) as int, hi as int));
            seg = i + 1;
        }
        i += 1;
    }
    let ghost prev = string_views(out@);
    push_trimmed(template, cs, seg, hi, &mut out);
    assert(prev + option_list(cs@, seg as int, i as int, hi as int) =~= string_views(out@));
    out
}

/// Lists the placeholders of `template` in the order in which they occur.
///
/// The template is searched from left to right; at each position the text is
/// tried against the placeholder grammar, and after a match the search goes on
/// where the match ended. A placeholder is required unless `?` follows its
/// name; its choices, when `:` introduces some, are the comma-separated pieces
/// with white space trimmed, empty pieces dropped.
pub fn extract_placeholders(template: &str) -> (r: Vec<Placeholder>)
    ensures
        placeholder_views(r@) == template_placeholders(template@),
{
    let cs = chars_of(template);
    let ghost s = cs@;
    let ghost f = |m: Span| placeholder_of(s, m);
    let mut out: Vec<Placeholder> = Vec::new();
    let mut pos: usize = 0;
    assert(placeholder_views(out@) =~= Seq::<PlaceholderView>::empty());
    while pos < cs.len()
        invariant
            cs@ == template@,
            s == cs@,
            f == (|m: Span| placeholder_of(s, m)),
            pos <= cs.len(),
            template_placeholders(s) == placeholder_views(out@) + matches_from(s, pos as int).map_values(f),
        decreases cs.len() - pos,
    {
        match match_here(&cs, pos) {
            Some(m) => {
                proof {
                    lemma_match_at_shape(s, pos as int);
                }
                let raw = String::from_str(template.substring_char(m.start, m.end));
                let name = String::from_str(template.substring_char(m.name_start, m.name_end));
                let options = match m.choices {
                    Some((lo, hi)) => Some(options_between(template, &cs, lo, hi)),
                    None => None,
                };
                let p = Placeholder { raw, name, required: !m.optional, options };
                let ghost prev = placeholder_views(out@);
                out.push(p);
                assert(placeholder_views(out@) =~= prev.push(p@));
                assert(p@ == f(match_at(s, pos as int)->0));
                let ghost rest = matches_from(s, m.end as int);
                assert(matches_from(s, pos as int) == seq![match_at(s, pos as int)->0] + rest);
                assert((seq![match_at(s, pos as int)->0] + rest).map_values(f) =~= seq![f(match_at(s, pos as int)->0)] + rest.map_values(f));
                assert(prev + (seq![f(match_at(s, pos as int)->0)] + rest.map_values(f)) =~= prev.push(p@) + rest.map_values(f));
                pos = m.end;
            },
            None => {
                pos += 1;
            },
        }
    }
    assert(matches_from(s, pos as int).map_values(f) =~= Seq::<PlaceholderView>::empty());
    assert(placeholder_views(out@) + Seq::<PlaceholderView>::empty() =~= placeholder_views(out@));
    out
}


/// What every choice looks like: not empty, without `,` or `}`, and neither
/// beginning nor ending with white space.
pub open spec fn clean_choice(o: Seq<char>) -> bool {
    &&& o.len() > 0
    &&& !o.contains(',')
    &&& !o.contains('}')
    &&& !is_space(o[0])
    &&& !is_space(o.last())
}

proof fn lemma_trimmed_piece_clean(s: Seq<char>, a: int, b: int)
    requires
        0 <= a <= b <= s.len(),
        forall|j: int| a <= j < b ==> s[j] != ',' && s[j] != '}',
    ensures
        forall|m: int| 0 <= m < trimmed_piece(s, a, b).len() ==> clean_choice(#[trigger] trimmed_piece(s, a, b)[m]),
{
    let lo = trim_start(s, a, b);
    lemma_trim_bounds(s, a, b);
    lemma_trim_bounds(s, lo, b);
    lemma_trim_ends(s, a, b);
    lemma_trim_ends(s, lo, b);
    let hi = trim_end(s, lo, b);
    if lo < hi {
        let o = s.subrange(lo, hi);
        assert(trimmed_piece(s, a, b)[0] == o);
        assert forall|j: int| 0 <= j < o.len() implies o[j] != ',' && o[j] != '}' by {
            assert(o[j] == s[lo + j]);
        }
    }
}

proof fn lemma_option_list_clean(s: Seq<char>, seg: int, i: int, hi: int)
    requires
        0 <= seg <= i <= hi <= s.len(),
        forall|j: int| seg <= j < i ==> s[j] != ',',
        forall|j: int| seg <= j < hi ==> s[j] != '}',
    ensures
        forall|m: int| 0 <= m < option_list(s, seg, i, hi).len() ==> clean_choice(#[trigger] option_list(s, seg, i, hi)[m]),
    decreases hi - i,
{
    if i >= hi {
        lemma_trimmed_piece_clean(s, seg, hi);
    } else if s[i] == ',' {
        lemma_trimmed_piece_clean(s, seg, i);
        lemma_option_list_clean(s, i + 1, i + 1, hi);
        let a = trimmed_piece(s, seg, i);
        let b = option_list(s, i + 1, i + 1, hi);
        assert(option_list(s, seg, i, hi) == a + b);
        assert forall|m: int| 0 <= m < (a + b).len() implies clean_choice(#[trigger] (a + b)[m]) by {
            if m < a.len() {
                assert((a + b)[m] == a[m]);
            } else {
                assert((a + b)[m] == b[m - a.len()]);
            }
        }
    } else {
        lemma_option_list_clean(s, seg, i + 1, hi);
        assert(option_list(s, seg, i, hi) == option_list(s, seg, i + 1, hi));
    }
}

proof fn lemma_matches_from_elements(s: Seq<char>, pos: int)
    requires
        0 <= pos,
    ensures
        forall|k: int| 0 <= k < matches_from(s, pos).len() ==> {
            &&& pos <= (#[trigger] matches_from(s, pos)[k]).start
            &&& match_at(s, matches_from(s, pos)[k].start) == Some(matches_from(s, pos)[k])
        },
    decreases s.len() - pos,
{
    if pos < s.len() {
        match match_at(s, pos) {
            Some(m) => {
                lemma_match_at_shape(s, pos);
                lemma_matches_from_elements(s, m.end);
                let rest = matches_from(s, m.end);
                assert forall|k: int| 0 <= k < matches_from(s, pos).len() implies {
                    &&& pos <= (#[trigger] matches_from(s, pos)[k]).start
                    &&& match_at(s, matches_from(s, pos)[k].start) == Some(matches_from(s, pos)[k])
                } by {
                    if k > 0 {
                        assert(matches_from(s, pos)[k] == rest[k - 1]);
                    }
                }
            },
            None => {
                lemma_matches_from_elements(s, pos + 1);
            },
        }
    }
}

/// Every placeholder found in a template is text of the template that
/// begins with `{{` and ends with `}}`; its name is a non-empty run of name
/// characters, and each of its choices is `clean_choice`.
pub proof fn law_placeholder_shape(s: Seq<char>, k: int)
    requires
        0 <= k < template_placeholders(s).len(),
    ensures
        ({
            let p = template_placeholders(s)[k];
            &&& exists|a: int| 0 <= a && a + p.raw.len() <= s.len() && #[trigger] s.subrange(a, a + p.raw.len()) == p.raw
            &&& p.raw.len() >= 5
            &&& p.raw[0] == '{' && p.raw[1] == '{'
            &&& p.raw[p.raw.len() - 2] == '}' && p.raw[p.raw.len() - 1] == '}'
            &&& p.name.len() > 0
            &&& forall|j: int| 0 <= j < p.name.len() ==> is_name_char(#[trigger] p.name[j])
            &&& p.options matches Some(opts) ==> forall|m: int| 0 <= m < opts.len() ==> clean_choice(#[trigger] opts[m])
        }),
{
    lemma_matches_from_elements(s, 0);
    let m = matches_from(s, 0)[k];
    lemma_match_at_shape(s, m.start);
    let p = template_placeholders(s)[k];
    assert(p == placeholder_of(s, m));
    assert(s.subrange(m.start, m.start + p.raw.len()) == p.raw);
    assert forall|j: int| 0 <= j < p.name.len() implies is_name_char(#[trigger] p.name[j]) by {
        assert(p.name[j] == s[m.name_start + j]);
    }
    if let Some((lo, hi)) = m.choices {
        lemma_option_list_clean(s, lo, lo, hi);
    }
}

proof fn lemma_matches_from_ordered(s: Seq<char>, pos: int)
    requires
        0 <= pos,
    ensures
        forall|k: int| 0 <= k < matches_from(s, pos).len() - 1 ==> (#[trigger] matches_from(s, pos)[k]).end
            <= matches_from(s, pos)[k + 1].start,
    decreases s.len() - pos,
{
    if pos < s.len() {
        match match_at(s, pos) {
            Some(m) => {
                lemma_match_at_shape(s, pos);
                lemma_matches_from_ordered(s, m.end);
                lemma_matches_from_elements(s, m.end);
                let rest = matches_from(s, m.end);
                assert forall|k: int| 0 <= k < matches_from(s, pos).len() - 1 implies (
                #[trigger] matches_from(s, pos)[k]).end <= matches_from(s, pos)[k + 1].start by {
                    assert(matches_from(s, pos)[k + 1] == rest[k]);
                    if k > 0 {
                        assert(matches_from(s, pos)[k] == rest[k - 1]);
                    }
                }
            },
            None => {
                lemma_matches_from_ordered(s, pos + 1);
            },
        }
    }
}

proof fn lemma_matches_from_count(s: Seq<char>, pos: int)
    requires
        0 <= pos,
    ensures
        matches_from(s, pos).len() <= if pos < s.len() { s.len() - pos } else { 0 },
    decreases s.len() - pos,
{
    if pos < s.len() {
        match match_at(s, pos) {
            Some(m) => {
                lemma_match_at_shape(s, pos);
                lemma_matches_from_count(s, m.end);
            },
            None => {
                lemma_matches_from_count(s, pos + 1);
            },
        }
    }
}

/// A template has no more placeholders than characters.
pub proof fn lemma_placeholder_count(s: Seq<char>)
    ensures
        template_placeholders(s).len() <= s.len(),
{
    lemma_matches_from_count(s, 0);
}

/// The placeholders of a template are read from it in the order in which
/// they stand, and do not overlap: the `k`-th is the text of its match, and
/// each match ends before the next begins.
pub proof fn law_placeholders_in_order(s: Seq<char>, k: int)
    requires
        0 <= k < template_placeholders(s).len(),
    ensures
        template_placeholders(s)[k].raw == s.subrange(matches_from(s, 0)[k].start, matches_from(s, 0)[k].end),
        k + 1 < template_placeholders(s).len() ==> matches_from(s, 0)[k].end <= matches_from(s, 0)[k + 1].start,
{
    lemma_matches_from_ordered(s, 0);
}

proof fn lemma_matches_from_complete(s: Seq<char>, pos: int, j: int)
    requires
        0 <= pos <= j < s.len(),
        forall|k: int| 0 <= k < matches_from(s, pos).len() ==> !(#[trigger] matches_from(s, pos)[k].start <= j
            < matches_from(s, pos)[k].end),
    ensures
        match_at(s, j) is None,
    decreases j - pos,
{
    match match_at(s, pos) {
        Some(m) => {
            lemma_match_at_shape(s, pos);
            assert(matches_from(s, pos)[0] == m);
            if j < m.end {
                assert(m.start <= j < m.end);
            } else {
                let rest = matches_from(s, m.end);
                assert forall|k: int| 0 <= k < rest.len() implies !(#[trigger] rest[k].start <= j < rest[k].end) by {
                    assert(matches_from(s, pos)[k + 1] == rest[k]);
                }
                lemma_matches_from_complete(s, m.end, j);
            }
        },
        None => {
            if j > pos {
                lemma_matches_from_complete(s, pos + 1, j);
            }
        },
    }
}

/// The search misses no placeholder: at every index of the template that
/// lies outside the placeholders found, no placeholder begins. So a template
/// has no placeholders exactly when none begins anywhere in it.
pub proof fn law_no_placeholder_missed(s: Seq<char>, j: int)
    requires
        0 <= j < s.len(),
        forall|k: int| 0 <= k < matches_from(s, 0).len() ==> !(#[trigger] matches_from(s, 0)[k].start <= j
            < matches_from(s, 0)[k].end),
    ensures
        match_at(s, j) is None,
{
    lemma_matches_from_complete(s, 0, j);
}

/// A template has no placeholders exactly when no placeholder begins at any
/// of its indices.
pub proof fn law_no_placeholders_iff_no_match(s: Seq<char>)
    ensures
        template_placeholders(s).len() == 0 <==> forall|j: int| 0 <= j < s.len() ==> (#[trigger] match_at(s, j)) is None,
{
    if template_placeholders(s).len() == 0 {
        assert forall|j: int| 0 <= j < s.len() implies (#[trigger] match_at(s, j)) is None by {
            lemma_matches_from_complete(s, 0, j);
        }
    } else {
        lemma_matches_from_elements(s, 0);
        let m = matches_from(s, 0)[0];
        lemma_match_at_shape(s, m.start);
        assert(match_at(s, m.start) is Some);
    }
}

/// The span `m` moved `o` characters to the right.
pub open spec fn shift_span(m: Span, o: int) -> Span {
    Span {
        start: m.start + o,
        end: m.end + o,
        name_start: m.name_start + o,
        name_end: m.name_end + o,
        optional: m.optional,
        choices: match m.choices {
            Some((lo, hi)) => Some((lo + o, hi + o)),
            None => None,
        },
    }
}

proof fn lemma_skip_spaces_window(x: Seq<char>, o: int, e: int, j: int)
    requires
        0 <= o <= e <= x.len(),
        0 <= j <= e - o,
    ensures
        skip_spaces(x.subrange(o, e), j) < e - o ==> skip_spaces(x, o + j) == o + skip_spaces(x.subrange(o, e), j),
        skip_spaces(x.subrange(o, e), j) >= e - o ==> skip_spaces(x, o + j) >= e,
    decreases e - o - j,
{
    let r = x.subrange(o, e);
    lemma_skip_spaces_bounds(r, j);
    if j < e - o {
        assert(r[j] == x[o + j]);
        if is_space(x[o + j]) {
            lemma_skip_spaces_window(x, o, e, j + 1);
        }
    } else {
        lemma_skip_spaces_bounds(x, e);
    }
}

proof fn lemma_name_end_window(x: Seq<char>, o: int, e: int, j: int)
    requires
        0 <= o <= e <= x.len(),
        0 <= j <= e - o,
    ensures
        name_end(x.subrange(o, e), j) < e - o ==> name_end(x, o + j) == o + name_end(x.subrange(o, e), j),
        name_end(x.subrange(o, e), j) >= e - o ==> name_end(x, o + j) >= e,
    decreases e - o - j,
{
    let r = x.subrange(o, e);
    lemma_name_end_bounds(r, j);
    if j < e - o {
        assert(r[j] == x[o + j]);
        if is_name_char(x[o + j]) {
            lemma_name_end_window(x, o, e, j + 1);
        }
    } else {
        lemma_name_end_bounds(x, e);
    }
}

proof fn lemma_brace_end_window(x: Seq<char>, o: int, e: int, j: int)
    requires
        0 <= o <= e <= x.len(),
        0 <= j <= e - o,
    ensures
        brace_end(x.subrange(o, e), j) < e - o ==> brace_end(x, o + j) == o + brace_end(x.subrange(o, e), j),
        brace_end(x.subrange(o, e), j) >= e - o ==> brace_end(x, o + j) >= e,
    decreases e - o - j,
{
    let r = x.subrange(o, e);
    lemma_brace_end_bounds(r, j);
    if j < e - o {
        assert(r[j] == x[o + j]);
        if x[o + j] != '}' {
            lemma_brace_end_window(x, o, e, j + 1);
        }
    } else {
        lemma_brace_end_bounds(x, e);
    }
}

/// A placeholder found in a window of a text is found at the same place in
/// the whole text, and one found in the whole text that ends within the
/// window is found in the window.
proof fn lemma_window_match(x: Seq<char>, o: int, e: int, j: int)
    requires
        0 <= o <= e <= x.len(),
        0 <= j < e - o,
    ensures
        match_at(x.subrange(o, e), j) matches Some(m) ==> match_at(x, o + j) == Some(shift_span(m, o)),
        match_at(x, o + j) matches Some(m) && m.end <= e ==> match_at(x.subrange(o, e), j) is Some,
{
    let r = x.subrange(o, e);
    let n = e - o;
    lemma_match_at_shape(x, o + j);
    lemma_match_at_shape(r, j);
    if j + 1 < n {
        assert(r[j] == x[o + j] && r[j + 1] == x[o + j + 1]);
        lemma_skip_spaces_window(x, o, e, j + 2);
        lemma_skip_spaces_bounds(r, j + 2);
        let a = skip_spaces(r, j + 2);
        if a < n {
            lemma_name_end_window(x, o, e, a);
            lemma_name_end_bounds(r, a);
            let b = name_end(r, a);
            if b < n {
                assert(r[b] == x[o + b]);
                let c = if r[b] == '?' { b + 1 } else { b };
                if c < n {
                    assert(r[c] == x[o + c]);
                    if r[c] == ':' {
                        lemma_brace_end_window(x, o, e, c + 1);
                        lemma_brace_end_bounds(r, c + 1);
                        let d = brace_end(r, c + 1);
                        if d + 1 < n {
                            assert(r[d] == x[o + d] && r[d + 1] == x[o + d + 1]);
                        }
                    } else {
                        lemma_skip_spaces_window(x, o, e, c);
                        lemma_skip_spaces_bounds(r, c);
                        let f = skip_spaces(r, c);
                        if f + 1 < n {
                            assert(r[f] == x[o + f] && r[f + 1] == x[o + f + 1]);
                        }
                    }
                } else {
                    lemma_skip_spaces_window(x, o, e, c);
                }
            }
        }
    }
}

proof fn lemma_trim_window(x: Seq<char>, o: int, e: int, a: int, b: int)
    requires
        0 <= o <= e <= x.len(),
        0 <= a <= b <= e - o,
    ensures
        trim_start(x, o + a, o + b) == o + trim_start(x.subrange(o, e), a, b),
        trim_end(x, o + a, o + b) == o + trim_end(x.subrange(o, e), a, b),
    decreases b - a,
{
    let r = x.subrange(o, e);
    if a < b {
        assert(r[a] == x[o + a]);
        assert(r[b - 1] == x[o + b - 1]);
        if is_space(x[o + a]) {
            lemma_trim_window(x, o, e, a + 1, b);
        }
        if is_space(x[o + b - 1]) {
            lemma_trim_window(x, o, e, a, b - 1);
        }
    }
}

proof fn lemma_trimmed_piece_window(x: Seq<char>, o: int, e: int, a: int, b: int)
    requires
        0 <= o <= e <= x.len(),
        0 <= a <= b <= e - o,
    ensures
        trimmed_piece(x, o + a, o + b) == trimmed_piece(x.subrange(o, e), a, b),
{
    let r = x.subrange(o, e);
    lemma_trim_window(x, o, e, a, b);
    lemma_trim_bounds(r, a, b);
    let lo = trim_start(r, a, b);
    lemma_trim_window(x, o, e, lo, b);
    lemma_trim_bounds(r, lo, b);
    let hi = trim_end(r, lo, b);
    assert(x.subrange(o + lo, o + hi) =~= r.subrange(lo, hi));
}

proof fn lemma_option_list_window(x: Seq<char>, o: int, e: int, seg: int, i: int, hi: int)
    requires
        0 <= o <= e <= x.len(),
        0 <= seg <= i <= hi <= e - o,
    ensures
        option_list(x, o + seg, o + i, o + hi) == option_list(x.subrange(o, e), seg, i, hi),
    decreases hi - i,
{
    let r = x.subrange(o, e);
    if i >= hi {
        lemma_trimmed_piece_window(x, o, e, seg, hi);
    } else {
        assert(r[i] == x[o + i]);
        if x[o + i] == ',' {
            lemma_trimmed_piece_window(x, o, e, seg, i);
            lemma_option_list_window(x, o, e, i + 1, i + 1, hi);
        } else {
            lemma_option_list_window(x, o, e, seg, i + 1, hi);
        }
    }
}

/// The placeholder that a match in a window describes is the one its
/// shifted match describes in the whole text.
proof fn lemma_placeholder_of_window(x: Seq<char>, o: int, e: int, m: Span)
    requires
        0 <= o <= e <= x.len(),
        0 <= m.start <= m.name_start <= m.name_end <= m.end <= e - o,
        m.choices matches Some((lo, hi)) ==> 0 <= lo <= hi <= e - o,
    ensures
        placeholder_of(x, shift_span(m, o)) == placeholder_of(x.subrange(o, e), m),
{
    let r = x.subrange(o, e);
    assert(x.subrange(o + m.start, o + m.end) =~= r.subrange(m.start, m.end));
    assert(x.subrange(o + m.name_start, o + m.name_end) =~= r.subrange(m.name_start, m.name_end));
    if let Some((lo, hi)) = m.choices {
        lemma_option_list_window(x, o, e, lo, lo, hi);
    }
}

proof fn lemma_skip_without_open_brace(x: Seq<char>, p: int, o: int)
    requires
        0 <= p <= o <= x.len(),
        forall|q: int| p <= q < o ==> #[trigger] x[q] != '{',
    ensures
        matches_from(x, p) == matches_from(x, o),
    decreases o - p,
{
    if p < o {
        lemma_skip_without_open_brace(x, p + 1, o);
    }
}

proof fn lemma_none_without_close_brace(x: Seq<char>, p: int)
    requires
        0 <= p,
        forall|q: int| p <= q < x.len() ==> #[trigger] x[q] != '}',
    ensures
        matches_from(x, p) == Seq::<Span>::empty(),
    decreases x.len() - p,
{
    if p < x.len() {
        lemma_match_at_shape(x, p);
        lemma_none_without_close_brace(x, p + 1);
    }
}

proof fn lemma_embedded_matches(x: Seq<char>, o: int, e: int, j: int)
    requires
        0 <= o <= e <= x.len(),
        0 <= j <= e - o,
        forall|q: int| e <= q < x.len() ==> #[trigger] x[q] != '}',
    ensures
        matches_from(x, o + j) == matches_from(x.subrange(o, e), j).map_values(|m: Span| shift_span(m, o))
            + matches_from(x, e),
    decreases e - o - j,
{
    let r = x.subrange(o, e);
    let f = |m: Span| shift_span(m, o);
    if j == e - o {
        assert(matches_from(r, j).map_values(f) + matches_from(x, e) =~= matches_from(x, e));
    } else {
        lemma_window_match(x, o, e, j);
        lemma_match_at_shape(x, o + j);
        lemma_match_at_shape(r, j);
        match match_at(r, j) {
            Some(m) => {
                lemma_embedded_matches(x, o, e, m.end);
                let rest = matches_from(r, m.end);
                assert((seq![m] + rest).map_values(f) + matches_from(x, e) =~= seq![f(m)] + (rest.map_values(f)
                    + matches_from(x, e)));
            },
            None => {
                lemma_embedded_matches(x, o, e, j + 1);
            },
        }
    }
}

/// Text around a template that brings no `{` before it and no `}` after it
/// neither adds nor changes placeholders.
pub proof fn law_surroundings_change_nothing(t: Seq<char>, s: Seq<char>, u: Seq<char>)
    requires
        !t.contains('{'),
        !u.contains('}'),
    ensures
        template_placeholders(t + s + u) == template_placeholders(s),
{
    let x = t + s + u;
    let o = t.len() as int;
    let e = o + s.len();
    assert(x.subrange(o, e) =~= s);
    assert forall|q: int| 0 <= q < o implies #[trigger] x[q] != '{' by {
        assert(x[q] == t[q]);
    }
    assert forall|q: int| e <= q < x.len() implies #[trigger] x[q] != '}' by {
        assert(x[q] == u[q - e]);
    }
    lemma_skip_without_open_brace(x, 0, o);
    lemma_embedded_matches(x, o, e, 0);
    lemma_none_without_close_brace(x, e);
    let ms = matches_from(s, 0);
    let xs = ms.map_values(|m: Span| shift_span(m, o));
    assert(matches_from(x, 0) =~= xs);
    lemma_matches_from_elements(s, 0);
    assert forall|k: int| 0 <= k < ms.len() implies placeholder_of(x, #[trigger] xs[k]) == placeholder_of(s, ms[k]) by {
        lemma_match_at_shape(s, ms[k].start);
        lemma_placeholder_of_window(x, o, e, ms[k]);
    }
    assert(template_placeholders(x) =~= template_placeholders(s));
}

/// The first index at or after `k` where `:` stands in `t`, or `t.len()`.
pub open spec fn colon_index(t: Seq<char>, k: int) -> int
    decreases t.len() - k,
{
    if k < 0 || k >= t.len() {
        t.len() as int
    } else if t[k] == ':' {
        k
    } else {
        colon_index(t, k + 1)
    }
}

/// The choices written in `t`: the text is cut at every `,`, each piece is
/// trimmed, and empty pieces are dropped.
pub open spec fn split_choices(t: Seq<char>) -> Seq<Seq<char>> {
    option_list(t, 0, 0, t.len() as int)
}

proof fn lemma_colon_index(t: Seq<char>, k: int, c: int)
    requires
        0 <= k <= c < t.len(),
        t[c] == ':',
        forall|j: int| k <= j < c ==> #[trigger] t[j] != ':',
    ensures
        colon_index(t, k) == c,
    decreases c - k,
{
    if k < c {
        lemma_colon_index(t, k + 1, c);
    }
}

proof fn lemma_option_list_no_comma(t: Seq<char>, seg: int, i: int, hi: int)
    requires
        0 <= seg <= i <= hi <= t.len(),
        forall|j: int| i <= j < hi ==> #[trigger] t[j] != ',',
    ensures
        option_list(t, seg, i, hi) == trimmed_piece(t, seg, hi),
    decreases hi - i,
{
    if i < hi {
        lemma_option_list_no_comma(t, seg, i + 1, hi);
    }
}

proof fn lemma_option_list_concat(x: Seq<char>, y: Seq<char>, seg: int, i: int)
    requires
        0 <= seg <= i <= x.len(),
    ensures
        option_list(x + seq![','] + y, seg, i, (x.len() + 1 + y.len()) as int) == option_list(x, seg, i, x.len() as int)
            + split_choices(y),
    decreases x.len() - i,
{
    let z = x + seq![','] + y;
    let n = x.len() as int;
    let e = z.len() as int;
    assert(z.subrange(0, n) =~= x);
    assert(z.subrange(n + 1, e) =~= y);
    if i == n {
        assert(z[n] == ',');
        lemma_trimmed_piece_window(z, 0, n, seg, n);
        lemma_option_list_window(z, n + 1, e, 0, 0, e - n - 1);
    } else {
        assert(z[i] == x[i]);
        if x[i] == ',' {
            lemma_trimmed_piece_window(z, 0, n, seg, i);
            lemma_option_list_concat(x, y, i + 1, i + 1);
            let a = trimmed_piece(x, seg, i);
            assert(a + (option_list(x, i + 1, i + 1, n) + split_choices(y)) =~= (a + option_list(x, i + 1, i + 1, n))
                + split_choices(y));
        } else {
            lemma_option_list_concat(x, y, seg, i + 1);
        }
    }
}

/// Choices are read piece by piece: the choices of `x,y` are those of `x`
/// followed by those of `y`.
pub proof fn law_split_choices_concat(x: Seq<char>, y: Seq<char>)
    ensures
        split_choices(x + seq![','] + y) == split_choices(x) + split_choices(y),
{
    lemma_option_list_concat(x, y, 0, 0);
}

/// A piece without `,` gives one choice, its trimmed text, unless that is
/// empty, when it gives none.
pub proof fn law_split_choices_piece(t: Seq<char>)
    requires
        !t.contains(','),
    ensures
        split_choices(t) == if trimmed(t).len() > 0 { seq![trimmed(t)] } else { Seq::<Seq<char>>::empty() },
{
    assert forall|j: int| 0 <= j < t.len() implies #[trigger] t[j] != ',' by {
        if t[j] == ',' {
            assert(t.contains(','));
        }
    }
    lemma_option_list_no_comma(t, 0, 0, t.len() as int);
    let n = t.len() as int;
    lemma_trim_bounds(t, 0, n);
    lemma_trim_bounds(t, trim_start(t, 0, n), n);
}

/// What a placeholder's text says of it: the name follows `{{` and any white
/// space; a value is required unless `?` follows the name; the placeholder
/// offers choices exactly when its text holds `:`, and then they are the
/// choices written between the first `:` and the closing `}}`.
#[verifier::spinoff_prover]
#[verifier::rlimit(60)]
pub proof fn law_placeholder_parts(s: Seq<char>, k: int)
    requires
        0 <= k < template_placeholders(s).len(),
    ensures
        ({
            let p = template_placeholders(s)[k];
            let a = skip_spaces(p.raw, 2);
            let b = a + p.name.len();
            &&& b < p.raw.len()
            &&& p.name == p.raw.subrange(a, b)
            &&& p.required <==> p.raw[b] != '?'
            &&& p.options is Some <==> p.raw.contains(':')
            &&& p.options matches Some(os) ==> os == split_choices(
                p.raw.subrange(colon_index(p.raw, 0) + 1, p.raw.len() - 2),
            )
        }),
{
    lemma_matches_from_elements(s, 0);
    let m = matches_from(s, 0)[k];
    lemma_match_at_shape(s, m.start);
    let raw = s.subrange(m.start, m.end);
    let n = raw.len() as int;
    lemma_window_match(s, m.start, m.end, 0);
    let m0 = match_at(raw, 0)->0;
    assert(shift_span(m0, m.start) == m);
    lemma_match_at_shape(raw, 0);
    lemma_placeholder_of_window(s, m.start, m.end, m0);
    assert(raw.subrange(0, n) =~= raw);
    let p = template_placeholders(s)[k];
    assert(p == placeholder_of(raw, m0));
    let a = skip_spaces(raw, 2);
    lemma_skip_spaces_bounds(raw, 2);
    let b = name_end(raw, a);
    lemma_name_end_bounds(raw, a);
    assert(m0.name_start == a && m0.name_end == b);
    let optional = b < n && raw[b] == '?';
    let c = if optional { b + 1 } else { b };
    assert forall|j: int| 0 <= j < c implies #[trigger] raw[j] != ':' by {
        if j < 2 {
        } else if j < a {
            assert(is_space(raw[j]));
        } else if j < b {
            assert(is_name_char(raw[j]));
        }
    }
    if c < n && raw[c] == ':' {
        assert(raw.contains(':') && raw[c] == ':');
        lemma_colon_index(raw, 0, c);
        let d = brace_end(raw, c + 1);
        lemma_option_list_window(raw, c + 1, d, 0, 0, d - c - 1);
    } else {
        let f = skip_spaces(raw, c);
        lemma_skip_spaces_bounds(raw, c);
        assert forall|j: int| 0 <= j < n implies #[trigger] raw[j] != ':' by {
            if j < c {
            } else if j < f {
                assert(is_space(raw[j]));
            }
        }
    }
}

proof fn lemma_name_run(t: Seq<char>, lo: int, hi: int, k: int)
    requires
        0 <= lo <= k <= hi < t.len(),
        forall|j: int| lo <= j < hi ==> is_name_char(#[trigger] t[j]),
        !is_name_char(t[hi]),
    ensures
        name_end(t, k) == hi,
    decreases hi - k,
{
    if k < hi {
        lemma_name_run(t, lo, hi, k + 1);
    }
}

/// Every ASCII letter and digit, `_` and `-` may stand in a name: `{{name}}`
/// is one required placeholder without choices, and `{{name?}}` one optional
/// placeholder without choices, whose name is the whole run between the
/// braces.
pub proof fn law_name_characters(n: Seq<char>)
    requires
        n.len() > 0,
        forall|j: int|
            0 <= j < n.len() ==> ('a' <= #[trigger] n[j] <= 'z') || ('A' <= n[j] <= 'Z') || ('0' <= n[j]
                <= '9') || n[j] == '_' || n[j] == '-',
    ensures
        ({
            let t = seq!['{', '{'] + n + seq!['}', '}'];
            template_placeholders(t) == seq![PlaceholderView { raw: t, name: n, required: true, options: None }]
        }),
        ({
            let t = seq!['{', '{'] + n + seq!['?', '}', '}'];
            template_placeholders(t) == seq![PlaceholderView { raw: t, name: n, required: false, options: None }]
        }),
{
    let hi = 2 + n.len() as int;
    let t1 = seq!['{', '{'] + n + seq!['}', '}'];
    let t2 = seq!['{', '{'] + n + seq!['?', '}', '}'];
    assert forall|j: int| 2 <= j < hi implies is_name_char(#[trigger] t1[j]) by {
        assert(t1[j] == n[j - 2]);
    }
    assert forall|j: int| 2 <= j < hi implies is_name_char(#[trigger] t2[j]) by {
        assert(t2[j] == n[j - 2]);
    }
    assert(t1[2] == n[0] && t2[2] == n[0]);
    assert(!is_space(t1[2]) && !is_space(t2[2]));
    assert(t1[hi] == '}' && t1[hi + 1] == '}');
    assert(t2[hi] == '?' && t2[hi + 1] == '}' && t2[hi + 2] == '}');
    lemma_name_run(t1, 2, hi, 2);
    lemma_name_run(t2, 2, hi, 2);
    assert(skip_spaces(t1, 2) == 2);
    assert(skip_spaces(t2, 2) == 2);
    assert(skip_spaces(t1, hi) == hi);
    assert(skip_spaces(t2, hi + 1) == hi + 1);
    let m1 = match_at(t1, 0)->0;
    let m2 = match_at(t2, 0)->0;
    assert(match_at(t1, 0) is Some && m1.end == t1.len());
    assert(match_at(t2, 0) is Some && m2.end == t2.len());
    assert(matches_from(t1, m1.end) =~= Seq::<Span>::empty());
    assert(matches_from(t2, m2.end) =~= Seq::<Span>::empty());
    assert(matches_from(t1, 0) =~= seq![m1]);
    assert(matches_from(t2, 0) =~= seq![m2]);
    assert(t1.subrange(0, t1.len() as int) =~= t1);
    assert(t2.subrange(0, t2.len() as int) =~= t2);
    assert(t1.subrange(2, hi) =~= n);
    assert(t2.subrange(2, hi) =~= n);
    assert(template_placeholders(t1) =~= seq![PlaceholderView { raw: t1, name: n, required: true, options: None }]);
    assert(template_placeholders(t2) =~= seq![PlaceholderView { raw: t2, name: n, required: false, options: None }]);
}

/// A template in which `{{` does not occur has no placeholders.
pub proof fn law_no_braces_no_placeholders(s: Seq<char>)
    requires
        forall|j: int| 0 <= j < s.len() - 1 ==> !(s[j] == '{' && #[trigger] s[j + 1] == '{'),
    ensures
        template_placeholders(s).len() == 0,
{
    lemma_matches_from_elements(s, 0);
    if matches_from(s, 0).len() > 0 {
        let m = matches_from(s, 0)[0];
        lemma_match_at_shape(s, m.start);
        assert(s[m.start + 1] == '{');
    }
}

} // verus!
