//! Bytes that are text: what keeps them UTF-8.
//!
//! The document is cut and put together at the characters of markup, which are
//! ASCII. A cut beside an ASCII byte never goes through a character, so the
//! parts of a text are texts, and so is what is put together from texts.

use vstd::prelude::*;
use vstd::utf8::{
    is_char_boundary_iff_not_is_continuation_byte,
    length_of_first_scalar,
    partial_valid_utf8,
    partial_valid_utf8_extend_ascii_block,
    pop_first_scalar,
    take_first_scalar,
    valid_first_scalar,
    valid_utf8,
    valid_utf8_concat,
    valid_utf8_split,
};

verus! {

/// An ASCII byte.
pub open spec fn is_ascii(b: u8) -> bool {
    b < 0x80
}

/// All bytes of `s` are ASCII.
pub open spec fn all_ascii(s: Seq<u8>) -> bool {
    forall|i: int| 0 <= i < s.len() ==> is_ascii(#[trigger] s[i])
}

/// The index `i` lies at an end of `s` or beside an ASCII byte.
pub open spec fn beside_ascii(s: Seq<u8>, i: int) -> bool {
    ||| i == 0
    ||| i == s.len()
    ||| 0 < i < s.len() && (is_ascii(s[i]) || is_ascii(s[i - 1]))
}

/// ASCII is text.
pub proof fn lemma_ascii_is_text(s: Seq<u8>)
    requires
        all_ascii(s),
    ensures
        valid_utf8(s),
{
    assert(s.subrange(0, 0) =~= Seq::<u8>::empty());
    assert(partial_valid_utf8(s, 0));
    partial_valid_utf8_extend_ascii_block(s, 0, s.len() as int);
    assert(s.subrange(0, s.len() as int) =~= s);
}

/// A text can be cut before and behind an ASCII byte.
pub proof fn lemma_cut_at_ascii(s: Seq<u8>, i: int)
    requires
        valid_utf8(s),
        0 <= i < s.len(),
        is_ascii(s[i]),
    ensures
        valid_utf8(s.subrange(0, i)),
        valid_utf8(s.subrange(0, i + 1)),
        valid_utf8(s.subrange(i, s.len() as int)),
        valid_utf8(s.subrange(i + 1, s.len() as int)),
{
    is_char_boundary_iff_not_is_continuation_byte(s, i);
    valid_utf8_split(s, i);
    let from = s.subrange(i, s.len() as int);
    assert(from[0] == s[i]);
    assert(from.subrange(1, from.len() as int) =~= s.subrange(i + 1, s.len() as int));
    let one = s.subrange(i, i + 1);
    assert(one[0] == s[i]);
    lemma_ascii_is_text(one);
    valid_utf8_concat(s.subrange(0, i), one);
    assert(s.subrange(0, i) + one =~= s.subrange(0, i + 1));
}

/// A text can be cut wherever an end or an ASCII byte is beside.
pub proof fn lemma_cut_beside_ascii(s: Seq<u8>, i: int)
    requires
        valid_utf8(s),
        0 <= i <= s.len(),
        beside_ascii(s, i),
    ensures
        valid_utf8(s.subrange(0, i)),
        valid_utf8(s.subrange(i, s.len() as int)),
{
    if i == 0 {
        assert(s.subrange(0, 0) =~= Seq::<u8>::empty());
        assert(s.subrange(0, s.len() as int) =~= s);
    } else if i == s.len() {
        assert(s.subrange(i, i) =~= Seq::<u8>::empty());
        assert(s.subrange(0, s.len() as int) =~= s);
    } else if is_ascii(s[i]) {
        lemma_cut_at_ascii(s, i);
    } else {
        lemma_cut_at_ascii(s, i - 1);
    }
}

/// The part of a text between two cuts beside ASCII bytes is a text.
pub proof fn lemma_part_is_text(s: Seq<u8>, from: int, to: int)
    requires
        valid_utf8(s),
        0 <= from <= to <= s.len(),
        beside_ascii(s, from),
        beside_ascii(s, to),
    ensures
        valid_utf8(s.subrange(from, to)),
{
    lemma_cut_beside_ascii(s, from);
    let rest = s.subrange(from, s.len() as int);
    if from == to {
        assert(s.subrange(from, to) =~= Seq::<u8>::empty());
    } else {
        let at = to - from;
        if to < s.len() {
            assert(rest[at] == s[to]);
        }
        assert(rest[at - 1] == s[to - 1]);
        lemma_cut_beside_ascii(rest, at);
        assert(rest.subrange(0, at) =~= s.subrange(from, to));
    }
}

/// The first character of a text and what follows it are texts, and but for its first
/// byte the character has no ASCII byte.
pub proof fn lemma_first_character_is_text(s: Seq<u8>)
    requires
        valid_utf8(s),
        s.len() > 0,
    ensures
        0 < take_first_scalar(s).len() <= s.len(),
        valid_utf8(take_first_scalar(s)),
        valid_utf8(pop_first_scalar(s)),
        forall|i: int| 0 < i < take_first_scalar(s).len() ==> !is_ascii(#[trigger] s[i]),
{
    reveal_with_fuel(valid_utf8, 2);
    let head = take_first_scalar(s);
    assert(head.len() == length_of_first_scalar(s));
    assert(pop_first_scalar(head) =~= Seq::<u8>::empty());
    assert(valid_first_scalar(head)) by {
        assert(forall|i: int| 0 <= i < head.len() ==> head[i] == s[i]);
    }
}

} // verus!
