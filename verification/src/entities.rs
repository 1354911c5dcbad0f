//! Decoding the character references that stand for the characters of markup.

use crate::search::{matches_at, occurs_at};
use crate::text::{
    all_ascii,
    is_ascii,
    lemma_ascii_is_text,
    lemma_cut_at_ascii,
    lemma_first_character_is_text,
};
use vstd::prelude::*;
use vstd::utf8::{pop_first_scalar, take_first_scalar, valid_utf8, valid_utf8_concat};

verus! {

/// `&amp;`
pub const ENTITY_AMP: [u8; 5] = ['&' as u8, 'a' as u8, 'm' as u8, 'p' as u8, ';' as u8];

/// `&lt;`
pub const ENTITY_LT: [u8; 4] = ['&' as u8, 'l' as u8, 't' as u8, ';' as u8];

/// `&gt;`
pub const ENTITY_GT: [u8; 4] = ['&' as u8, 'g' as u8, 't' as u8, ';' as u8];

/// `&quot;`
pub const ENTITY_QUOT: [u8; 6] = [
    '&' as u8,
    'q' as u8,
    'u' as u8,
    'o' as u8,
    't' as u8,
    ';' as u8,
];

/// `&#39;`
pub const ENTITY_APOS: [u8; 5] = ['&' as u8, '#' as u8, '3' as u8, '9' as u8, ';' as u8];

/// `&#x27;`
pub const ENTITY_APOS_HEX: [u8; 6] = [
    '&' as u8,
    '#' as u8,
    'x' as u8,
    '2' as u8,
    '7' as u8,
    ';' as u8,
];

/// `&`
pub const AMP: [u8; 1] = ['&' as u8];

/// `<`
pub const LT: [u8; 1] = ['<' as u8];

/// `>`
pub const GT: [u8; 1] = ['>' as u8];

/// `"`
pub const QUOT: [u8; 1] = ['"' as u8];

/// `'`
pub const APOS: [u8; 1] = ['\'' as u8];

/// `s` with every occurrence of `pat` replaced by `with`: the occurrences are taken from
/// left to right, and none overlaps the one before it. An empty `pat` replaces nothing.
pub open spec fn replaced(s: Seq<u8>, pat: Seq<u8>, with: Seq<u8>) -> Seq<u8>
    decreases s.len(),
{
    if s.len() == 0 || pat.len() == 0 {
        s
    } else if occurs_at(s, pat, 0) {
        with + replaced(s.skip(pat.len() as int), pat, with)
    } else {
        s.take(1) + replaced(s.skip(1), pat, with)
    }
}

/// `s` with the five characters of markup written out: `&amp;` gives `&` first, then
/// `&lt;` gives `<`, `&gt;` gives `>`, `&quot;` gives `"`, and `&#39;` and `&#x27;`
/// give `'`. Each step works on the result of the one before it.
pub open spec fn decoded(s: Seq<u8>) -> Seq<u8> {
    let s = replaced(s, ENTITY_AMP@, AMP@);
    let s = replaced(s, ENTITY_LT@, LT@);
    let s = replaced(s, ENTITY_GT@, GT@);
    let s = replaced(s, ENTITY_QUOT@, QUOT@);
    let s = replaced(s, ENTITY_APOS@, APOS@);
    replaced(s, ENTITY_APOS_HEX@, APOS@)
}

/// What stands for a byte in encoded text: the character reference of `&`, `<`, `>`,
/// `"` or `'`, and any other byte itself.
pub open spec fn escape_of(b: u8) -> Seq<u8> {
    if b == '&' as u8 {
        ENTITY_AMP@
    } else if b == '<' as u8 {
        ENTITY_LT@
    } else if b == '>' as u8 {
        ENTITY_GT@
    } else if b == '"' as u8 {
        ENTITY_QUOT@
    } else if b == '\'' as u8 {
        ENTITY_APOS@
    } else {
        seq![b]
    }
}

/// `s` with the five characters of markup as character references.
pub open spec fn encoded(s: Seq<u8>) -> Seq<u8>
    decreases s.len(),
{
    if s.len() == 0 {
        Seq::empty()
    } else {
        escape_of(s[0]) + encoded(s.skip(1))
    }
}

/// `s` with the five characters of markup replaced by their references one after the
/// other: `&` by `&amp;` first, then `<` by `&lt;`, `>` by `&gt;`, `"` by `&quot;` and
/// `'` by `&#39;`. Each step works on the result of the one before it.
pub open spec fn encoded_in_steps(s: Seq<u8>) -> Seq<u8> {
    let s = replaced(s, AMP@, ENTITY_AMP@);
    let s = replaced(s, LT@, ENTITY_LT@);
    let s = replaced(s, GT@, ENTITY_GT@);
    let s = replaced(s, QUOT@, ENTITY_QUOT@);
    replaced(s, APOS@, ENTITY_APOS@)
}

/// One of the references that are decoded behind `&amp;` stands in `s` at index `i`:
/// `&lt;`, `&gt;`, `&quot;`, `&#39;` or `&#x27;`.
pub open spec fn reference_at(s: Seq<u8>, i: int) -> bool {
    ||| occurs_at(s, ENTITY_LT@, i)
    ||| occurs_at(s, ENTITY_GT@, i)
    ||| occurs_at(s, ENTITY_QUOT@, i)
    ||| occurs_at(s, ENTITY_APOS@, i)
    ||| occurs_at(s, ENTITY_APOS_HEX@, i)
}

/// `s` holds one of the references that are decoded behind `&amp;`.
pub open spec fn holds_reference(s: Seq<u8>) -> bool {
    exists|i: int| reference_at(s, i)
}

/// A text in which `pat` does not stand has nothing replaced.
pub proof fn lemma_nothing_to_replace(s: Seq<u8>, pat: Seq<u8>, with: Seq<u8>)
    requires
        forall|i: int| !occurs_at(s, pat, i),
    ensures
        replaced(s, pat, with) == s,
    decreases s.len(),
{
    if s.len() > 0 && pat.len() > 0 {
        assert forall|i: int| !occurs_at(s.skip(1), pat, i) by {
            if occurs_at(s.skip(1), pat, i) {
                assert(s.subrange(i + 1, i + 1 + pat.len()) =~= s.skip(1).subrange(
                    i,
                    i + pat.len(),
                ));
                assert(occurs_at(s, pat, i + 1));
            }
        }
        lemma_nothing_to_replace(s.skip(1), pat, with);
        assert(s.take(1) + s.skip(1) =~= s);
    }
}

/// A beginning in which `pat` does not begin is kept, and the rest goes on as if it
/// stood alone.
pub proof fn lemma_beginning_is_kept(head: Seq<u8>, rest: Seq<u8>, pat: Seq<u8>, with: Seq<u8>)
    requires
        pat.len() > 0,
        forall|i: int| 0 <= i < head.len() ==> !occurs_at(head + rest, pat, i),
    ensures
        replaced(head + rest, pat, with) == head + replaced(rest, pat, with),
    decreases head.len(),
{
    if head.len() == 0 {
        assert(head + rest =~= rest);
        assert(head + replaced(rest, pat, with) =~= replaced(rest, pat, with));
    } else {
        let all = head + rest;
        assert(!occurs_at(all, pat, 0));
        assert(all.skip(1) =~= head.skip(1) + rest);
        assert forall|i: int| 0 <= i < head.skip(1).len() implies !occurs_at(
            head.skip(1) + rest,
            pat,
            i,
        ) by {
            if occurs_at(head.skip(1) + rest, pat, i) {
                assert(all.subrange(i + 1, i + 1 + pat.len()) =~= all.skip(1).subrange(
                    i,
                    i + pat.len(),
                ));
                assert(occurs_at(all, pat, i + 1));
            }
        }
        lemma_beginning_is_kept(head.skip(1), rest, pat, with);
        assert(all.take(1) + (head.skip(1) + replaced(rest, pat, with)) =~= head + replaced(
            rest,
            pat,
            with,
        ));
    }
}

/// Replacing ASCII by text in a text gives a text.
pub proof fn lemma_replaced_is_text(s: Seq<u8>, pat: Seq<u8>, with: Seq<u8>)
    requires
        valid_utf8(s),
        all_ascii(pat),
        valid_utf8(with),
    ensures
        valid_utf8(replaced(s, pat, with)),
    decreases s.len(),
{
    if s.len() == 0 || pat.len() == 0 {
    } else if occurs_at(s, pat, 0) {
        let last = pat.len() - 1;
        assert(s.subrange(0, pat.len() as int)[last] == s[last]);
        lemma_cut_at_ascii(s, last);
        let rest = s.skip(pat.len() as int);
        assert(rest =~= s.subrange(last + 1, s.len() as int));
        lemma_replaced_is_text(rest, pat, with);
        valid_utf8_concat(with, replaced(rest, pat, with));
    } else {
        // the first character is kept, with all its bytes
        let head = take_first_scalar(s);
        let rest = pop_first_scalar(s);
        lemma_first_character_is_text(s);
        assert(head + rest =~= s);
        assert forall|i: int| 0 <= i < head.len() implies !occurs_at(head + rest, pat, i) by {
            if occurs_at(s, pat, i) {
                assert(s.subrange(i, i + pat.len())[0] == s[i]);
                assert(is_ascii(pat[0]));
            }
        }
        lemma_beginning_is_kept(head, rest, pat, with);
        lemma_replaced_is_text(rest, pat, with);
        valid_utf8_concat(head, replaced(rest, pat, with));
    }
}

/// What is decoded from a text is a text.
pub proof fn lemma_decoded_is_text(s: Seq<u8>)
    requires
        valid_utf8(s),
    ensures
        valid_utf8(decoded(s)),
{
    lemma_ascii_is_text(AMP@);
    lemma_ascii_is_text(LT@);
    lemma_ascii_is_text(GT@);
    lemma_ascii_is_text(QUOT@);
    lemma_ascii_is_text(APOS@);
    let s1 = replaced(s, ENTITY_AMP@, AMP@);
    let s2 = replaced(s1, ENTITY_LT@, LT@);
    let s3 = replaced(s2, ENTITY_GT@, GT@);
    let s4 = replaced(s3, ENTITY_QUOT@, QUOT@);
    let s5 = replaced(s4, ENTITY_APOS@, APOS@);
    lemma_replaced_is_text(s, ENTITY_AMP@, AMP@);
    lemma_replaced_is_text(s1, ENTITY_LT@, LT@);
    lemma_replaced_is_text(s2, ENTITY_GT@, GT@);
    lemma_replaced_is_text(s3, ENTITY_QUOT@, QUOT@);
    lemma_replaced_is_text(s4, ENTITY_APOS@, APOS@);
    lemma_replaced_is_text(s5, ENTITY_APOS_HEX@, APOS@);
}

/// Replaces every occurrence of `pat` in `s` by `with`.
pub fn replace_all(s: &[u8], pat: &[u8], with: &[u8]) -> (out: Vec<u8>)
    ensures
        out@ == replaced(s@, pat@, with@),
{
    let mut out: Vec<u8> = Vec::new();
    let mut i: usize = 0;
    assert(s@.skip(0) =~= s@);
    assert(out@ + replaced(s@, pat@, with@) =~= replaced(s@, pat@, with@));
    while i < s.len()
        invariant
            i <= s.len(),
            out@ + replaced(s@.skip(i as int), pat@, with@) == replaced(s@, pat@, with@),
        decreases s.len() - i,
    {
        let ghost rest = s@.skip(i as int);
        let ghost before = out@;
        if pat.len() > 0 && matches_at(s, pat, i) {
            assert(rest.subrange(0, pat@.len() as int) =~= s@.subrange(
                i as int,
                i + pat@.len(),
            ));
            out.extend_from_slice(with);
            assert(out@ =~= before + with@);
            i += pat.len();
            assert(s@.skip(i as int) =~= rest.skip(pat@.len() as int));
            assert(before + (with@ + replaced(s@.skip(i as int), pat@, with@)) =~= (before
                + with@) + replaced(s@.skip(i as int), pat@, with@));
        } else {
            assert(pat@.len() > 0 ==> !occurs_at(rest, pat@, 0)) by {
                if pat@.len() > 0 && occurs_at(rest, pat@, 0) {
                    assert(rest.subrange(0, pat@.len() as int) =~= s@.subrange(
                        i as int,
                        i + pat@.len(),
                    ));
                }
            }
            out.push(s[i]);
            assert(out@ =~= before + rest.take(1));
            i += 1;
            assert(s@.skip(i as int) =~= rest.skip(1));
            proof {
                if pat@.len() > 0 {
                    assert(before + (rest.take(1) + replaced(s@.skip(i as int), pat@, with@))
                        =~= (before + rest.take(1)) + replaced(s@.skip(i as int), pat@, with@));
                } else {
                    assert(rest =~= rest.take(1) + rest.skip(1));
                    assert(before + rest =~= (before + rest.take(1)) + rest.skip(1));
                }
            }
        }
    }
    assert(out@ + Seq::<u8>::empty() =~= out@);
    out
}

/// Writes out the five characters of markup that `s` holds as character references.
///
/// `&amp;` is decoded first, so `&amp;lt;` gives `<`. Any other reference stays as it is.
pub fn decode_html_entities(s: &[u8]) -> (out: Vec<u8>)
    ensures
        out@ == decoded(s@),
{
    let out = replace_all(s, ENTITY_AMP.as_slice(), AMP.as_slice());
    let out = replace_all(out.as_slice(), ENTITY_LT.as_slice(), LT.as_slice());
    let out = replace_all(out.as_slice(), ENTITY_GT.as_slice(), GT.as_slice());
    let out = replace_all(out.as_slice(), ENTITY_QUOT.as_slice(), QUOT.as_slice());
    let out = replace_all(out.as_slice(), ENTITY_APOS.as_slice(), APOS.as_slice());
    replace_all(out.as_slice(), ENTITY_APOS_HEX.as_slice(), APOS.as_slice())
}

} // verus!
