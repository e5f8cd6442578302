use vstd::prelude::*;
use vstd::string::StringSliceAdditionalSpecFns;
use vstd::utf8::{
    decode_utf8, encode_utf8, encode_utf8_decode_utf8, encode_utf8_valid_utf8, is_char_boundary,
    is_char_boundary_iff_not_is_continuation_byte, is_char_boundary_start_end_of_seq, valid_utf8,
    valid_utf8_split,
};

verus! {

/// Headings of the language level: `== name ==` alone on a line.
pub const LANG_RX: &'static str = r"(?m)^\s*==([\w\s]+)==\s*$";

/// Headings of the grammar level: `=== name ===` alone on a line.
pub const GRAM_RX: &'static str = r"(?m)^\s*===([\w\s]+)===\s*$";

/// One match of a heading pattern: the text of its first group, if that
/// group took part, and the byte span of the whole match.
#[derive(Debug, Clone)]
pub struct Heading {
    pub name: Option<String>,
    pub start: usize,
    pub end: usize,
}

pub open spec fn heading_view(h: Heading) -> (Option<Seq<char>>, int, int) {
    (
        match h.name {
            Some(s) => Some(s@),
            None => None,
        },
        h.start as int,
        h.end as int,
    )
}

/// Whether `regex::Regex::new` accepts the pattern.
pub uninterp spec fn pattern_compiles(pattern: Seq<char>) -> bool;

/// The successive matches that `regex::Regex::captures_iter` finds of the
/// pattern in the text: first group and byte span of each.
pub uninterp spec fn heading_matches(pattern: Seq<char>, text: Seq<char>) -> Seq<
    (Option<Seq<char>>, int, int),
>;

/// What `str::to_lowercase` makes of a text.
pub uninterp spec fn lower_of(s: Seq<char>) -> Seq<char>;

/// The characters with Unicode's `White_Space` property, which
/// `char::is_whitespace` tests for.
pub open spec fn is_white_space(c: char) -> bool {
    ('\u{9}' <= c && c <= '\u{d}') || c == ' ' || c == '\u{85}' || c == '\u{a0}' || c
        == '\u{1680}' || ('\u{2000}' <= c && c <= '\u{200a}') || c == '\u{2028}' || c
        == '\u{2029}' || c == '\u{202f}' || c == '\u{205f}' || c == '\u{3000}'
}

/// `s` without its leading white space.
pub open spec fn trim_start_of(s: Seq<char>) -> Seq<char>
    decreases s.len(),
{
    if s.len() > 0 && is_white_space(s[0]) {
        trim_start_of(s.drop_first())
    } else {
        s
    }
}

/// `s` without its trailing white space.
pub open spec fn trim_end_of(s: Seq<char>) -> Seq<char>
    decreases s.len(),
{
    if s.len() > 0 && is_white_space(s.last()) {
        trim_end_of(s.drop_last())
    } else {
        s
    }
}

/// `s` without its leading and trailing white space, as `str::trim` leaves it.
pub open spec fn trim_of(s: Seq<char>) -> Seq<char> {
    trim_end_of(trim_start_of(s))
}

proof fn lemma_trim_start(s: Seq<char>)
    ensures
        trim_start_of(s).len() > 0 ==> !is_white_space(trim_start_of(s)[0]),
    decreases s.len(),
{
    if s.len() > 0 && is_white_space(s[0]) {
        lemma_trim_start(s.drop_first());
    }
}

proof fn lemma_trim_end(s: Seq<char>)
    ensures
        trim_end_of(s).len() <= s.len(),
        trim_end_of(s) == s.subrange(0, trim_end_of(s).len() as int),
        trim_end_of(s).len() > 0 ==> !is_white_space(trim_end_of(s).last()),
    decreases s.len(),
{
    if s.len() > 0 && is_white_space(s.last()) {
        lemma_trim_end(s.drop_last());
        let r = trim_end_of(s.drop_last());
        assert(s.drop_last().subrange(0, r.len() as int) =~= s.subrange(0, r.len() as int));
    } else {
        assert(s.subrange(0, s.len() as int) =~= s);
    }
}

/// A trimmed text neither starts nor ends with white space.
pub proof fn lemma_trimmed(s: Seq<char>)
    ensures
        trim_of(s).len() > 0 ==> !is_white_space(trim_of(s)[0]) && !is_white_space(
            trim_of(s).last(),
        ),
{
    let t = trim_start_of(s);
    lemma_trim_start(s);
    lemma_trim_end(t);
    let r = trim_end_of(t);
    if r.len() > 0 {
        assert(r[0] == t.subrange(0, r.len() as int)[0]);
    }
}

/// Relies on `regex::Regex::new` and `Regex::captures_iter`: the matches are
/// successive and do not overlap, and their offsets are ordered, within the
/// text and on character boundaries.
#[verifier::external_body]
fn find_headings(pattern: &str, text: &str) -> (r: Option<Vec<Heading>>)
    ensures
        r is Some <==> pattern_compiles(pattern@),
        r matches Some(v) ==> v@.map_values(|h: Heading| heading_view(h)) == heading_matches(
            pattern@,
            text@,
        ),
        r matches Some(v) ==> forall|i: int|
            0 <= i < v@.len() ==> #[trigger] v@[i].start <= v@[i].end <= text.spec_bytes().len()
                && is_char_boundary(text.spec_bytes(), v@[i].start as int) && is_char_boundary(
                text.spec_bytes(),
                v@[i].end as int,
            ),
        r matches Some(v) ==> forall|i: int|
            0 <= i < v@.len() - 1 ==> #[trigger] v@[i].end <= v@[i + 1].start,
{
    let rx = match regex::Regex::new(pattern) {
        Ok(rx) => rx,
        Err(_) => return None,
    };
    Some(
        rx.captures_iter(text).map(
            |c| {
                let m = c.get_match();
                Heading { name: c.get(1).map(|n| n.as_str().to_string()), start: m.start(), end: m.end() }
            },
        ).collect(),
    )
}

/// Relies on `str::to_lowercase`.
#[verifier::external_body]
fn lowercase(s: &str) -> (r: String)
    ensures
        r@ == lower_of(s@),
{
    s.to_lowercase()
}

/// Relies on `str::trim`: it removes leading and trailing characters with
/// the `White_Space` property.
#[verifier::external_body]
fn trim(s: &str) -> (r: &str)
    ensures
        r@ == trim_of(s@),
{
    s.trim()
}

/// The byte offset where section `i` of the headings `hs` ends: the start
/// of the next heading, or the end of the text.
pub open spec fn section_end(hs: Seq<(Option<Seq<char>>, int, int)>, len: int, i: int) -> int {
    if i + 1 < hs.len() {
        hs[i + 1].1
    } else {
        len
    }
}

/// Section `i` of `text` under the headings `hs`, before trimming: what
/// runs from the end of its heading to the next heading or the end.
pub open spec fn section_raw(text: Seq<char>, hs: Seq<(Option<Seq<char>>, int, int)>, i: int) -> Seq<char> {
    decode_utf8(encode_utf8(text).subrange(hs[i].2, section_end(hs, encode_utf8(text).len() as int, i)))
}

pub open spec fn section_name(h: (Option<Seq<char>>, int, int)) -> Seq<char> {
    match h.0 {
        Some(n) => n,
        None => Seq::empty(),
    }
}

/// One section per heading, in order: the heading's lowercased name and
/// the trimmed text under it.
pub open spec fn sections_are(
    v: Seq<(String, String)>,
    text: Seq<char>,
    hs: Seq<(Option<Seq<char>>, int, int)>,
) -> bool {
    &&& v.len() == hs.len()
    &&& forall|i: int|
        0 <= i < hs.len() ==> #[trigger] v[i].0@ == lower_of(section_name(hs[i])) && v[i].1@
            == trim_of(section_raw(text, hs, i))
}

proof fn lemma_boundary_in_tail(bytes: Seq<u8>, a: int, b: int)
    requires
        valid_utf8(bytes),
        0 <= a <= b <= bytes.len(),
        is_char_boundary(bytes, a),
        is_char_boundary(bytes, b),
    ensures
        valid_utf8(bytes.subrange(a, bytes.len() as int)),
        is_char_boundary(bytes.subrange(a, bytes.len() as int), b - a),
{
    let tail = bytes.subrange(a, bytes.len() as int);
    valid_utf8_split(bytes, a);
    is_char_boundary_start_end_of_seq(tail);
    if b < bytes.len() && b > a {
        is_char_boundary_iff_not_is_continuation_byte(bytes, b);
        is_char_boundary_iff_not_is_continuation_byte(tail, b - a);
        assert(tail[b - a] == bytes[b]);
    } else if b == bytes.len() {
        assert(tail.len() == b - a);
    }
}

/// Splits `text` at the headings that `pattern` matches: for each heading,
/// in order, its lowercased name and the trimmed text up to the next
/// heading or the end. A later section of the same name takes the place of
/// an earlier one for callers that look names up. `None` when the pattern
/// does not compile.
pub fn split_by_section(pattern: &str, text: &str) -> (r: Option<Vec<(String, String)>>)
    ensures
        r is Some <==> pattern_compiles(pattern@),
        r matches Some(v) ==> sections_are(v@, text@, heading_matches(pattern@, text@)),
        r matches Some(v) ==> forall|i: int|
            0 <= i < v@.len() && #[trigger] v@[i].1@.len() > 0 ==> !is_white_space(v@[i].1@[0])
                && !is_white_space(v@[i].1@.last()),
{
    let hs = match find_headings(pattern, text) {
        Some(hs) => hs,
        None => return None,
    };
    let ghost hv = heading_matches(pattern@, text@);
    let ghost bytes = text.spec_bytes();
    proof {
        encode_utf8_valid_utf8(text@);
        assert(hs@.map_values(|h: Heading| heading_view(h)) == hv);
        assert(hs@.len() == hv.len());
    }
    let n = hs.len();
    let len = text.as_bytes().len();
    let mut out: Vec<(String, String)> = Vec::new();
    let mut i: usize = 0;
    while i < n
        invariant
            n == hs@.len(),
            hv == heading_matches(pattern@, text@),
            hv == hs@.map_values(|h: Heading| heading_view(h)),
            hv.len() == n,
            bytes == text.spec_bytes(),
            bytes == encode_utf8(text@),
            valid_utf8(bytes),
            len == bytes.len(),
            i <= n,
            out@.len() == i,
            forall|k: int|
                0 <= k < n ==> #[trigger] hs@[k].start <= hs@[k].end <= bytes.len()
                    && is_char_boundary(bytes, hs@[k].start as int) && is_char_boundary(
                    bytes,
                    hs@[k].end as int,
                ),
            forall|k: int| 0 <= k < n - 1 ==> #[trigger] hs@[k].end <= hs@[k + 1].start,
            forall|k: int|
                0 <= k < i ==> #[trigger] out@[k].0@ == lower_of(section_name(hv[k]))
                    && out@[k].1@ == trim_of(section_raw(text@, hv, k)),
        decreases n - i,
    {
        let a = hs[i].end;
        let b = if i + 1 < n {
            hs[i + 1].start
        } else {
            len
        };
        proof {
            assert(hv[i as int] == heading_view(hs@[i as int]));
            if i + 1 < n {
                assert(hv[i + 1] == heading_view(hs@[i + 1]));
                assert(hs@[i as int].end <= hs@[i + 1].start);
            } else {
                is_char_boundary_start_end_of_seq(bytes);
            }
            lemma_boundary_in_tail(bytes, a as int, b as int);
        }
        let (_, tail) = text.split_at(a);
        let (piece, _) = tail.split_at(b - a);
        proof {
            assert(piece.spec_bytes() =~= bytes.subrange(a as int, b as int));
            encode_utf8_decode_utf8(piece@);
            assert(piece@ == section_raw(text@, hv, i as int));
        }
        let body = trim(piece).to_owned();
        let name = match &hs[i].name {
            Some(s) => {
                assert(section_name(hv[i as int]) == s@);
                lowercase(s.as_str())
            },
            None => {
                proof {
                    reveal_strlit("");
                }
                assert(section_name(hv[i as int]) =~= ""@);
                lowercase("")
            },
        };
        let ghost before = out@;
        out.push((name, body));
        proof {
            assert forall|k: int| 0 <= k < i + 1 implies #[trigger] out@[k].0@ == lower_of(
                section_name(hv[k]),
            ) && out@[k].1@ == trim_of(section_raw(text@, hv, k)) by {
                if k < i {
                    assert(out@[k] == before[k]);
                }
            }
        }
        i = i + 1;
    }
    assert(sections_are(out@, text@, hv));
    assert forall|k: int|
        0 <= k < out@.len() && #[trigger] out@[k].1@.len() > 0 implies !is_white_space(
        out@[k].1@[0],
    ) && !is_white_space(out@[k].1@.last()) by {
        assert(out@[k].0@ == lower_of(section_name(hv[k])));
        assert(out@[k].1@ == trim_of(section_raw(text@, hv, k)));
        lemma_trimmed(section_raw(text@, hv, k));
    }
    Some(out)
}

/// The body of the last section named `name`, if any.
pub fn section_text(sections: &Vec<(String, String)>, name: &str) -> (r: Option<String>)
    ensures
        match r {
            Some(s) => exists|k: int|
                0 <= k < sections@.len() && #[trigger] sections@[k].0@ == name@ && sections@[k].1@
                    == s@ && forall|j: int| k < j < sections@.len() ==> sections@[j].0@ != name@,
            None => forall|k: int| 0 <= k < sections@.len() ==> #[trigger] sections@[k].0@ != name@,
        },
{
    let key = name.to_owned();
    let mut i: usize = sections.len();
    while i > 0
        invariant
            i <= sections@.len(),
            key@ == name@,
            forall|j: int| i <= j < sections@.len() ==> #[trigger] sections@[j].0@ != name@,
        decreases i,
    {
        i = i - 1;
        if sections[i].0.eq(&key) {
            let s = sections[i].1.clone();
            return Some(s);
        }
    }
    None
}

} // verus!
