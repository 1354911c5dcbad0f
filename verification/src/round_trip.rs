//! Decoding undoes encoding.
//!
//! Text is encoded in five steps, one character of markup after the other, and
//! decoded in six steps, one reference after the other. Between two steps the
//! text is encoded in part: some of the characters of markup stand as
//! references, the others as themselves.

use crate::entities::{
    decoded,
    encoded,
    encoded_in_steps,
    holds_reference,
    lemma_beginning_is_kept,
    lemma_nothing_to_replace,
    reference_at,
    replaced,
    AMP,
    APOS,
    ENTITY_AMP,
    ENTITY_APOS,
    ENTITY_APOS_HEX,
    ENTITY_GT,
    ENTITY_LT,
    ENTITY_QUOT,
    GT,
    LT,
    QUOT,
};
use crate::search::occurs_at;
use vstd::prelude::*;

verus! {

/// The reference that step `k` decodes, for the steps 1 to 5.
spec fn reference(k: int) -> Seq<u8> {
    if k == 1 {
        ENTITY_AMP@
    } else if k == 2 {
        ENTITY_LT@
    } else if k == 3 {
        ENTITY_GT@
    } else if k == 4 {
        ENTITY_QUOT@
    } else {
        ENTITY_APOS@
    }
}

/// The character that step `k` writes out.
spec fn character(k: int) -> u8 {
    if k == 1 {
        '&' as u8
    } else if k == 2 {
        '<' as u8
    } else if k == 3 {
        '>' as u8
    } else if k == 4 {
        '"' as u8
    } else {
        '\'' as u8
    }
}

/// The step that decodes the reference of `b`; 0 for a byte that is never encoded.
spec fn step_of(b: u8) -> int {
    if b == '&' as u8 {
        1
    } else if b == '<' as u8 {
        2
    } else if b == '>' as u8 {
        3
    } else if b == '"' as u8 {
        4
    } else if b == '\'' as u8 {
        5
    } else {
        0
    }
}

/// What stands for `b` behind step `k`.
spec fn piece(k: int, b: u8) -> Seq<u8> {
    if step_of(b) > k {
        reference(step_of(b))
    } else {
        seq![b]
    }
}

/// The text `s` as it is encoded behind step `k`.
spec fn partly_encoded(k: int, s: Seq<u8>) -> Seq<u8>
    decreases s.len(),
{
    if s.len() == 0 {
        Seq::empty()
    } else {
        piece(k, s[0]) + partly_encoded(k, s.skip(1))
    }
}

proof fn lemma_before_first_step(s: Seq<u8>)
    ensures
        partly_encoded(0, s) == encoded(s),
    decreases s.len(),
{
    if s.len() > 0 {
        lemma_before_first_step(s.skip(1));
    }
}

proof fn lemma_behind_last_step(s: Seq<u8>)
    ensures
        partly_encoded(5, s) == s,
    decreases s.len(),
{
    if s.len() > 0 {
        lemma_behind_last_step(s.skip(1));
        assert(seq![s[0]] + s.skip(1) =~= s);
    }
}

/// A byte that is never encoded.
spec fn plain(b: u8) -> bool {
    step_of(b) == 0
}

/// Where text that is encoded in part begins with bytes that are never encoded, the
/// text itself begins with them.
proof fn lemma_plain_beginning(k: int, s: Seq<u8>, t: Seq<u8>)
    requires
        0 <= k <= 5,
        forall|i: int| 0 <= i < t.len() ==> plain(#[trigger] t[i]),
        t.len() <= partly_encoded(k, s).len(),
        partly_encoded(k, s).subrange(0, t.len() as int) == t,
    ensures
        t.len() <= s.len(),
        s.subrange(0, t.len() as int) == t,
    decreases t.len(),
{
    if t.len() == 0 {
        assert(s.subrange(0, 0) =~= t);
    } else {
        let all = partly_encoded(k, s);
        assert(all.subrange(0, t.len() as int)[0] == all[0]);
        assert(plain(t[0]));
        assert(s.len() > 0);
        let first = piece(k, s[0]);
        assert(all == first + partly_encoded(k, s.skip(1)));
        assert(all[0] == first[0]);
        assert(plain(s[0]) && s[0] == t[0]);
        let rest = partly_encoded(k, s.skip(1));
        assert(all.skip(1) =~= rest);
        assert forall|i: int| 0 <= i < t.skip(1).len() implies plain(#[trigger] t.skip(1)[i]) by {
            assert(t.skip(1)[i] == t[i + 1]);
        }
        assert(rest.subrange(0, t.skip(1).len() as int) =~= all.subrange(
            0,
            t.len() as int,
        ).skip(1));
        lemma_plain_beginning(k, s.skip(1), t.skip(1));
        assert(s.subrange(0, t.len() as int) =~= seq![s[0]] + s.skip(1).subrange(
            0,
            t.skip(1).len() as int,
        ));
        assert(seq![t[0]] + t.skip(1) =~= t);
    }
}

/// What stands for `b` when the steps of encoding up to step `k` are done.
spec fn piece_so_far(k: int, b: u8) -> Seq<u8> {
    if 1 <= step_of(b) <= k {
        reference(step_of(b))
    } else {
        seq![b]
    }
}

/// The text `s` as it is encoded when the steps of encoding up to step `k` are done.
spec fn encoded_so_far(k: int, s: Seq<u8>) -> Seq<u8>
    decreases s.len(),
{
    if s.len() == 0 {
        Seq::empty()
    } else {
        piece_so_far(k, s[0]) + encoded_so_far(k, s.skip(1))
    }
}

proof fn lemma_nothing_encoded_so_far(s: Seq<u8>)
    ensures
        encoded_so_far(0, s) == s,
    decreases s.len(),
{
    if s.len() > 0 {
        lemma_nothing_encoded_so_far(s.skip(1));
        assert(seq![s[0]] + s.skip(1) =~= s);
    }
}

proof fn lemma_all_encoded_so_far(s: Seq<u8>)
    ensures
        encoded_so_far(5, s) == encoded(s),
    decreases s.len(),
{
    if s.len() > 0 {
        lemma_all_encoded_so_far(s.skip(1));
    }
}

/// Step `k` of encoding replaces its character wherever the text holds it, and nowhere
/// in the references of the steps before.
proof fn lemma_encoding_step(k: int, s: Seq<u8>)
    requires
        1 <= k <= 5,
    ensures
        replaced(encoded_so_far(k - 1, s), seq![character(k)], reference(k)) == encoded_so_far(
            k,
            s,
        ),
    decreases s.len(),
{
    let pat = seq![character(k)];
    if s.len() > 0 {
        let b = s[0];
        let head = piece_so_far(k - 1, b);
        let rest = encoded_so_far(k - 1, s.skip(1));
        let all = head + rest;
        lemma_encoding_step(k, s.skip(1));
        if step_of(b) == k {
            assert(all.subrange(0, 1) =~= pat);
            assert(all.skip(1) =~= rest);
        } else {
            assert forall|i: int| 0 <= i < head.len() implies !occurs_at(all, pat, i) by {
                if occurs_at(all, pat, i) {
                    assert(all.subrange(i, i + 1)[0] == all[i]);
                    assert(all[i] == head[i]);
                }
            }
            lemma_beginning_is_kept(head, rest, pat, reference(k));
        }
    }
}

/// Encoding one character after the other, `&` first, encodes every character of markup
/// once.
pub proof fn lemma_encoded_in_steps(text: Seq<u8>)
    ensures
        encoded_in_steps(text) == encoded(text),
{
    lemma_nothing_encoded_so_far(text);
    lemma_encoding_step(1, text);
    lemma_encoding_step(2, text);
    lemma_encoding_step(3, text);
    lemma_encoding_step(4, text);
    lemma_encoding_step(5, text);
    lemma_all_encoded_so_far(text);
    assert(seq![character(1)] =~= AMP@);
    assert(seq![character(2)] =~= LT@);
    assert(seq![character(3)] =~= GT@);
    assert(seq![character(4)] =~= QUOT@);
    assert(seq![character(5)] =~= APOS@);
}

/// No reference that is decoded behind `&amp;` stands in `s`.
spec fn free_of_references(s: Seq<u8>) -> bool {
    forall|i: int| !reference_at(s, i)
}

proof fn lemma_rest_is_free(s: Seq<u8>)
    requires
        s.len() > 0,
        free_of_references(s),
    ensures
        free_of_references(s.skip(1)),
{
    let rest = s.skip(1);
    assert forall|i: int| !reference_at(rest, i) by {
        assert(!reference_at(s, i + 1));
        assert forall|pat: Seq<u8>| occurs_at(rest, pat, i) implies occurs_at(s, pat, i + 1) by {
            assert(s.subrange(i + 1, i + 1 + pat.len()) =~= rest.subrange(i, i + pat.len()));
        }
    }
}

/// Step `k` takes text that is encoded behind step `k - 1` to text that is encoded
/// behind step `k`.
proof fn lemma_step(k: int, s: Seq<u8>)
    requires
        1 <= k <= 5,
        free_of_references(s),
    ensures
        replaced(partly_encoded(k - 1, s), reference(k), seq![character(k)]) == partly_encoded(
            k,
            s,
        ),
    decreases s.len(),
{
    let pat = reference(k);
    let with = seq![character(k)];
    if s.len() > 0 {
        let b = s[0];
        let head = piece(k - 1, b);
        let rest = partly_encoded(k - 1, s.skip(1));
        let all = head + rest;
        lemma_rest_is_free(s);
        lemma_step(k, s.skip(1));
        if step_of(b) == k {
            assert(all.subrange(0, pat.len() as int) =~= pat);
            assert(all.skip(pat.len() as int) =~= rest);
        } else {
            assert(piece(k, b) == head);
            assert forall|i: int| 0 <= i < head.len() implies !occurs_at(all, pat, i) by {
                if occurs_at(all, pat, i) {
                    assert(all.subrange(i, i + pat.len())[0] == all[i]);
                    assert(all.subrange(i, i + pat.len())[1] == all[i + 1]);
                    assert(all[i] == '&' as u8);
                    assert(i == 0);
                    if head.len() > 1 {
                        assert(all[1] == head[1]);
                    } else {
                        // a `&` that is written out already, and behind it what is left
                        // of the reference
                        assert(b == '&' as u8);
                        let tail = pat.skip(1);
                        assert(rest.subrange(0, tail.len() as int) =~= all.subrange(
                            0,
                            pat.len() as int,
                        ).skip(1));
                        lemma_plain_beginning(k - 1, s.skip(1), tail);
                        assert(s.subrange(0, pat.len() as int) =~= seq![b] + s.skip(1).subrange(
                            0,
                            tail.len() as int,
                        ));
                        assert(seq![b] + tail =~= pat);
                        assert(occurs_at(s, pat, 0));
                        assert(reference_at(s, 0));
                    }
                }
            }
            lemma_beginning_is_kept(head, rest, pat, with);
        }
    }
}

/// Text that holds none of `&lt;`, `&gt;`, `&quot;`, `&#39;` and `&#x27;` comes back
/// when it is encoded and then decoded. So encoded text of this kind comes back when it
/// is decoded and then encoded again.
///
/// A text that holds one of them does not come back: `&lt;` is encoded as `&amp;lt;`,
/// and that is decoded to `<`.
pub proof fn lemma_decoding_undoes_encoding(text: Seq<u8>)
    requires
        !holds_reference(text),
    ensures
        decoded(encoded(text)) == text,
        encoded(decoded(encoded(text))) == encoded(text),
        encoded_in_steps(decoded(encoded_in_steps(text))) == encoded_in_steps(text),
{
    lemma_encoded_in_steps(text);
    assert(free_of_references(text));
    lemma_before_first_step(text);
    lemma_step(1, text);
    lemma_step(2, text);
    lemma_step(3, text);
    lemma_step(4, text);
    lemma_step(5, text);
    lemma_behind_last_step(text);
    assert(seq![character(1)] =~= AMP@);
    assert(seq![character(2)] =~= LT@);
    assert(seq![character(3)] =~= GT@);
    assert(seq![character(4)] =~= QUOT@);
    assert(seq![character(5)] =~= APOS@);
    assert forall|i: int| !occurs_at(text, ENTITY_APOS_HEX@, i) by {
        assert(!reference_at(text, i));
    }
    lemma_nothing_to_replace(text, ENTITY_APOS_HEX@, APOS@);
}

} // verus!
