//! What the code of some languages needs before the engine can read it, and how
//! that is undone in what the engine has made of it.
//!
//! There is one such language. PHP is only read as PHP behind the marker
//! `<?php`, and code samples mostly leave it out. Code that does not begin with
//! the marker has it put before it, and what the marker was rendered as is taken
//! out of the rendered text again.

use crate::entities::encoded;
use crate::search::{find_from, first_match, lemma_first_match_is_least, matches_at, occurs_at};
use crate::text::{beside_ascii, lemma_ascii_is_text, lemma_part_is_text};
use vstd::prelude::*;
use vstd::slice::slice_subrange;
use vstd::utf8::{valid_utf8, valid_utf8_concat};

verus! {

/// `php`
pub const PHP: [u8; 3] = ['p' as u8, 'h' as u8, 'p' as u8];

/// `<?php`, the opening marker
pub const OPEN_MARKER: [u8; 5] = ['<' as u8, '?' as u8, 'p' as u8, 'h' as u8, 'p' as u8];

/// The opening marker and a line feed: what is put before the code
pub const OPEN_LINE: [u8; 6] = [
    '<' as u8,
    '?' as u8,
    'p' as u8,
    'h' as u8,
    'p' as u8,
    '\n' as u8,
];

/// `&lt;?php`, the opening marker as it stands in rendered text
pub const ESCAPED_OPEN: [u8; 8] = [
    '&' as u8,
    'l' as u8,
    't' as u8,
    ';' as u8,
    '?' as u8,
    'p' as u8,
    'h' as u8,
    'p' as u8,
];

/// The lower-case form of an ASCII letter; any other byte as it is.
pub open spec fn lower(b: u8) -> u8 {
    if 'A' as u8 <= b && b <= 'Z' as u8 {
        (b + 32) as u8
    } else {
        b
    }
}

/// `a` and `b` are equal but for the case of their ASCII letters.
pub open spec fn same_ignoring_case(a: Seq<u8>, b: Seq<u8>) -> bool {
    &&& a.len() == b.len()
    &&& forall|i: int| 0 <= i < a.len() ==> lower(a[i]) == lower(b[i])
}

/// The language is PHP, in any case of its letters.
pub open spec fn names_php(language: Seq<u8>) -> bool {
    same_ignoring_case(language, PHP@)
}

/// The length of the white space character that `s` begins with, in UTF-8; 0 where it
/// begins with none. White space is what Unicode calls so: U+0009 to U+000D, U+0020,
/// U+0085, U+00A0, U+1680, U+2000 to U+200A, U+2028, U+2029, U+202F, U+205F, U+3000.
pub open spec fn space_len(s: Seq<u8>) -> int {
    if s.len() >= 1 && (0x09 <= s[0] <= 0x0d || s[0] == 0x20) {
        1
    } else if s.len() >= 2 && s[0] == 0xc2 && (s[1] == 0x85 || s[1] == 0xa0) {
        2
    } else if s.len() >= 3 && s[0] == 0xe1 && s[1] == 0x9a && s[2] == 0x80 {
        3
    } else if s.len() >= 3 && s[0] == 0xe2 && s[1] == 0x80 && (0x80 <= s[2] <= 0x8a || s[2]
        == 0xa8 || s[2] == 0xa9 || s[2] == 0xaf) {
        3
    } else if s.len() >= 3 && s[0] == 0xe2 && s[1] == 0x81 && s[2] == 0x9f {
        3
    } else if s.len() >= 3 && s[0] == 0xe3 && s[1] == 0x80 && s[2] == 0x80 {
        3
    } else {
        0
    }
}

/// `s` without the white space that it begins with.
pub open spec fn trimmed_start(s: Seq<u8>) -> Seq<u8>
    decreases s.len(),
{
    if space_len(s) > 0 {
        trimmed_start(s.skip(space_len(s)))
    } else {
        s
    }
}

/// The code needs the opening marker: the language is PHP, and the code does not begin
/// with the marker behind its leading white space.
pub open spec fn needs_open_tag(language: Seq<u8>, code: Seq<u8>) -> bool {
    names_php(language) && !occurs_at(trimmed_start(code), OPEN_MARKER@, 0)
}

/// The text that is handed to the highlighting engine: the code, behind a line with the
/// opening marker where it needs one.
pub open spec fn with_open_tag(language: Seq<u8>, code: Seq<u8>) -> Seq<u8> {
    if needs_open_tag(language, code) {
        OPEN_LINE@ + code
    } else {
        code
    }
}

/// A space, a tab, a line feed or a carriage return.
pub open spec fn is_blank(b: u8) -> bool {
    b == ' ' as u8 || b == '\t' as u8 || b == '\n' as u8 || b == '\r' as u8
}

/// The number of blanks that stand in `s` from `from` on, one behind the other.
pub open spec fn blank_run(s: Seq<u8>, from: int) -> int
    decreases s.len() - from,
{
    if 0 <= from < s.len() && is_blank(s[from]) {
        1 + blank_run(s, from + 1)
    } else {
        0
    }
}

/// `html` without its first `&lt;?php` and the blanks right behind it; `html` itself
/// where it holds no `&lt;?php`.
pub open spec fn without_open_tag(html: Seq<u8>) -> Seq<u8> {
    match first_match(html, ESCAPED_OPEN@, 0) {
        Some(at) => {
            let end = at + ESCAPED_OPEN@.len();
            html.take(at) + html.skip(end + blank_run(html, end))
        },
        None => html,
    }
}

/// It is one marker all along: what is put before the code is the marker and a line
/// feed, and what is taken out of the rendered text is the marker with its `<` as a
/// character reference.
pub proof fn lemma_one_marker()
    ensures
        OPEN_LINE@ == OPEN_MARKER@.push('\n' as u8),
        ESCAPED_OPEN@ == encoded(OPEN_MARKER@),
{
    assert(OPEN_LINE@ =~= OPEN_MARKER@.push('\n' as u8));
    reveal_with_fuel(encoded, 6);
    let m = OPEN_MARKER@;
    assert(m.skip(1).skip(1) =~= m.skip(2));
    assert(m.skip(2).skip(1) =~= m.skip(3));
    assert(m.skip(3).skip(1) =~= m.skip(4));
    assert(m.skip(4).skip(1) =~= m.skip(5));
    assert(encoded(m.skip(5)) =~= Seq::<u8>::empty());
    assert(encoded(m.skip(4)) =~= seq!['p' as u8]);
    assert(encoded(m.skip(3)) =~= seq!['h' as u8, 'p' as u8]);
    assert(encoded(m.skip(2)) =~= seq!['p' as u8, 'h' as u8, 'p' as u8]);
    assert(encoded(m.skip(1)) =~= seq!['?' as u8, 'p' as u8, 'h' as u8, 'p' as u8]);
    assert(encoded(m) =~= ESCAPED_OPEN@);
}

/// What has to be undone in the rendered text.
#[derive(Clone, Copy, Debug, PartialEq, Eq)]
pub enum Reversal {
    /// Nothing was done to the code.
    Nothing,
    /// The opening marker was put before the code.
    StripOpenTag,
}

/// What has to be undone once the code is rendered.
pub open spec fn reversal_for(language: Seq<u8>, code: Seq<u8>) -> Reversal {
    if needs_open_tag(language, code) {
        Reversal::StripOpenTag
    } else {
        Reversal::Nothing
    }
}

/// The rendered text with that undone which was done to the code.
pub open spec fn reversed(reversal: Reversal, html: Seq<u8>) -> Seq<u8> {
    match reversal {
        Reversal::Nothing => html,
        Reversal::StripOpenTag => without_open_tag(html),
    }
}

/// A text with the opening marker before it is a text.
pub proof fn lemma_with_open_tag_is_text(language: Seq<u8>, code: Seq<u8>)
    requires
        valid_utf8(code),
    ensures
        valid_utf8(with_open_tag(language, code)),
{
    lemma_ascii_is_text(OPEN_LINE@);
    valid_utf8_concat(OPEN_LINE@, code);
}

/// The blanks that are counted lie within `s`, and they are blanks.
pub proof fn lemma_blank_run(s: Seq<u8>, from: int)
    requires
        0 <= from <= s.len(),
    ensures
        0 <= blank_run(s, from) <= s.len() - from,
        forall|i: int| from <= i < from + blank_run(s, from) ==> is_blank(#[trigger] s[i]),
        from + blank_run(s, from) < s.len() ==> !is_blank(s[from + blank_run(s, from)]),
    decreases s.len() - from,
{
    if from < s.len() && is_blank(s[from]) {
        lemma_blank_run(s, from + 1);
    }
}

/// A text without the escaped marker is a text.
pub proof fn lemma_without_open_tag_is_text(html: Seq<u8>)
    requires
        valid_utf8(html),
    ensures
        valid_utf8(without_open_tag(html)),
{
    lemma_first_match_is_least(html, ESCAPED_OPEN@, 0);
    if let Some(at) = first_match(html, ESCAPED_OPEN@, 0) {
        let end = at + ESCAPED_OPEN@.len();
        let stop = end + blank_run(html, end);
        lemma_blank_run(html, end);
        let marker = html.subrange(at, at + 8);
        assert(marker[0] == html[at] && marker[7] == html[end - 1]);
        assert(beside_ascii(html, stop)) by {
            if stop > end {
                assert(is_blank(html[stop - 1]));
            }
        }
        lemma_part_is_text(html, 0, at);
        lemma_part_is_text(html, stop, html.len() as int);
        assert(html.take(at) =~= html.subrange(0, at));
        assert(html.skip(stop) =~= html.subrange(stop, html.len() as int));
        valid_utf8_concat(html.take(at), html.skip(stop));
    }
}

/// Whether `a` and `b` are equal but for the case of their ASCII letters.
pub fn eq_ignore_ascii_case(a: &[u8], b: &[u8]) -> (r: bool)
    ensures
        r == same_ignoring_case(a@, b@),
{
    if a.len() != b.len() {
        return false;
    }
    let mut i: usize = 0;
    while i < a.len()
        invariant
            i <= a.len(),
            a.len() == b.len(),
            forall|j: int| 0 <= j < i ==> lower(a[j]) == lower(b[j]),
        decreases a.len() - i,
    {
        if to_lower(a[i]) != to_lower(b[i]) {
            return false;
        }
        i += 1;
    }
    true
}

/// The lower-case form of an ASCII letter; any other byte as it is.
pub fn to_lower(b: u8) -> (r: u8)
    ensures
        r == lower(b),
{
    if 'A' as u8 <= b && b <= 'Z' as u8 {
        b + 32
    } else {
        b
    }
}

/// The length of the white space character that `s` holds at `at`.
fn space_len_at(s: &[u8], at: usize) -> (r: usize)
    requires
        at <= s.len(),
    ensures
        r == space_len(s@.skip(at as int)),
        at + r <= s.len(),
{
    let left: usize = s.len() - at;
    let ghost rest = s@.skip(at as int);
    if left >= 1 && ((0x09 <= s[at] && s[at] <= 0x0d) || s[at] == 0x20) {
        1
    } else if left >= 2 && s[at] == 0xc2 && (s[at + 1] == 0x85 || s[at + 1] == 0xa0) {
        2
    } else if left >= 3 && s[at] == 0xe1 && s[at + 1] == 0x9a && s[at + 2] == 0x80 {
        3
    } else if left >= 3 && s[at] == 0xe2 && s[at + 1] == 0x80 && ((0x80 <= s[at + 2] && s[at
        + 2] <= 0x8a) || s[at + 2] == 0xa8 || s[at + 2] == 0xa9 || s[at + 2] == 0xaf) {
        3
    } else if left >= 3 && s[at] == 0xe2 && s[at + 1] == 0x81 && s[at + 2] == 0x9f {
        3
    } else if left >= 3 && s[at] == 0xe3 && s[at + 1] == 0x80 && s[at + 2] == 0x80 {
        3
    } else {
        0
    }
}

/// The number of bytes of white space that `s` begins with.
pub fn leading_space(s: &[u8]) -> (r: usize)
    ensures
        r <= s.len(),
        s@.skip(r as int) == trimmed_start(s@),
{
    let mut at: usize = 0;
    assert(s@.skip(0) =~= s@);
    loop
        invariant
            at <= s.len(),
            trimmed_start(s@.skip(at as int)) == trimmed_start(s@),
        ensures
            at <= s.len(),
            s@.skip(at as int) == trimmed_start(s@),
        decreases s.len() - at,
    {
        let n: usize = space_len_at(s, at);
        if n == 0 {
            break ;
        }
        assert(s@.skip(at as int).skip(n as int) =~= s@.skip(at + n));
        at += n;
    }
    at
}

/// Whether the code needs the opening marker before it is highlighted as `language`.
pub fn needs_php_tag(language: &[u8], code: &[u8]) -> (r: bool)
    ensures
        r == needs_open_tag(language@, code@),
{
    if !eq_ignore_ascii_case(language, PHP.as_slice()) {
        return false;
    }
    let at: usize = leading_space(code);
    let rest = slice_subrange(code, at, code.len());
    assert(rest@ =~= code@.skip(at as int));
    !matches_at(rest, OPEN_MARKER.as_slice(), 0)
}

/// Takes the first `&lt;?php` out of `html`, and the spaces, tabs, line feeds and
/// carriage returns that follow it directly. The rest stays as it is.
pub fn strip_leading_php_open_tag(html: &[u8]) -> (out: Vec<u8>)
    ensures
        out@ == without_open_tag(html@),
{
    let mut out: Vec<u8> = Vec::new();
    let total: usize = html.len();
    match find_from(html, ESCAPED_OPEN.as_slice(), 0) {
        Some(at) => {
            assert(ESCAPED_OPEN@.len() == 8);
            let ghost start = at + 8;
            let mut end: usize = at + 8;
            while end < total && (html[end] == ' ' as u8 || html[end] == '\n' as u8
                || html[end] == '\r' as u8 || html[end] == '\t' as u8)
                invariant
                    total == html.len(),
                    start <= end <= total,
                    blank_run(html@, start) == (end - start) + blank_run(html@, end as int),
                decreases total - end,
            {
                end += 1;
            }
            out.extend_from_slice(slice_subrange(html, 0, at));
            assert(out@ =~= html@.take(at as int));
            out.extend_from_slice(slice_subrange(html, end, total));
            assert(out@ =~= html@.take(at as int) + html@.skip(end as int));
        },
        None => {
            out.extend_from_slice(html);
            assert(out@ =~= html@);
        },
    }
    out
}

/// Makes the code ready for the engine, and says what has to be undone afterwards.
pub fn normalize(language: &[u8], code: Vec<u8>) -> (made: (Vec<u8>, Reversal))
    ensures
        made.0@ == with_open_tag(language@, code@),
        made.1 == reversal_for(language@, code@),
{
    if needs_php_tag(language, code.as_slice()) {
        let mut text: Vec<u8> = Vec::new();
        text.extend_from_slice(OPEN_LINE.as_slice());
        text.extend_from_slice(code.as_slice());
        assert(text@ =~= OPEN_LINE@ + code@);
        (text, Reversal::StripOpenTag)
    } else {
        (code, Reversal::Nothing)
    }
}

/// Undoes in the rendered text what was done to the code.
pub fn reverse(reversal: &Reversal, html: Vec<u8>) -> (out: Vec<u8>)
    ensures
        out@ == reversed(*reversal, html@),
{
    match reversal {
        Reversal::Nothing => html,
        Reversal::StripOpenTag => strip_leading_php_open_tag(html.as_slice()),
    }
}

} // verus!
