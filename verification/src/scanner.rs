//! Finding the code blocks of a document.
//!
//! A block is an occurrence of `<pre><code`, an optional
//! ` class="language-NAME"` right behind it, the rest of the opening tag up to
//! its `>`, the code, and `</code></pre>`. An occurrence that lacks one of
//! these is passed over.

use crate::search::{find_from, first_match, lemma_first_match_is_least, matches_at, occurs_at};
use crate::text::{lemma_ascii_is_text, lemma_part_is_text};
use vstd::prelude::*;
use vstd::slice::{slice_subrange, slice_to_vec};
use vstd::utf8::valid_utf8;

verus! {

/// `<pre><code`
pub const OPEN_TAG: [u8; 10] = [
    '<' as u8,
    'p' as u8,
    'r' as u8,
    'e' as u8,
    '>' as u8,
    '<' as u8,
    'c' as u8,
    'o' as u8,
    'd' as u8,
    'e' as u8,
];

/// ` class="language-`
pub const CLASS_PREFIX: [u8; 17] = [
    ' ' as u8,
    'c' as u8,
    'l' as u8,
    'a' as u8,
    's' as u8,
    's' as u8,
    '=' as u8,
    '"' as u8,
    'l' as u8,
    'a' as u8,
    'n' as u8,
    'g' as u8,
    'u' as u8,
    'a' as u8,
    'g' as u8,
    'e' as u8,
    '-' as u8,
];

/// `</code></pre>`
pub const CLOSE_TAG: [u8; 13] = [
    '<' as u8,
    '/' as u8,
    'c' as u8,
    'o' as u8,
    'd' as u8,
    'e' as u8,
    '>' as u8,
    '<' as u8,
    '/' as u8,
    'p' as u8,
    'r' as u8,
    'e' as u8,
    '>' as u8,
];

/// `"`
pub const QUOTE: [u8; 1] = ['"' as u8];

/// `>`
pub const TAG_END: [u8; 1] = ['>' as u8];

/// One code block of a document.
#[derive(Debug, PartialEq, Eq)]
pub struct Block {
    /// Offset of the block's first byte: the `<` of `<pre>`.
    pub start: usize,
    /// Offset just behind the block's last byte: the `>` of `</pre>`.
    pub end: usize,
    /// The declared language; empty where none is declared.
    pub language: Vec<u8>,
    /// The text between the opening tag and `</code></pre>`, as it stands in the document.
    pub code: Vec<u8>,
}

/// A block as a mathematical value.
pub struct BlockView {
    pub start: int,
    pub end: int,
    pub language: Seq<u8>,
    pub code: Seq<u8>,
}

impl View for Block {
    type V = BlockView;

    open spec fn view(&self) -> BlockView {
        BlockView {
            start: self.start as int,
            end: self.end as int,
            language: self.language@,
            code: self.code@,
        }
    }
}

/// The blocks of a vector as mathematical values.
pub open spec fn views(blocks: Seq<Block>) -> Seq<BlockView> {
    blocks.map_values(|b: Block| b@)
}

/// The language that the opening tag at `start` declares: the text between
/// ` class="language-` and the next `"`, or nothing where the tag does not go on with
/// ` class="language-`. `None` where it does and no `"` follows.
pub open spec fn language_at(doc: Seq<u8>, start: int) -> Option<Seq<u8>> {
    let name = start + OPEN_TAG@.len() + CLASS_PREFIX@.len();
    if occurs_at(doc, CLASS_PREFIX@, start + OPEN_TAG@.len()) {
        match first_match(doc, QUOTE@, name) {
            Some(quote) => Some(doc.subrange(name, quote)),
            None => None,
        }
    } else {
        Some(Seq::empty())
    }
}

/// Where the code of the block that opens at `start` begins: behind the second `>`
/// at or after `start`, the first being that of `<pre>`.
pub open spec fn code_start_at(doc: Seq<u8>, start: int) -> Option<int> {
    match first_match(doc, TAG_END@, start) {
        Some(outer) => match first_match(doc, TAG_END@, outer + 1) {
            Some(inner) => Some(inner + 1),
            None => None,
        },
        None => None,
    }
}

/// The block that opens at `start`, an occurrence of `<pre><code`; `None` where the
/// language attribute has no closing quote, the opening tag has no end, or no
/// `</code></pre>` follows.
pub open spec fn block_at(doc: Seq<u8>, start: int) -> Option<BlockView> {
    match (language_at(doc, start), code_start_at(doc, start)) {
        (Some(language), Some(code_start)) => match first_match(doc, CLOSE_TAG@, code_start) {
            Some(code_end) => Some(
                BlockView {
                    start,
                    end: code_end + CLOSE_TAG@.len(),
                    language,
                    code: doc.subrange(code_start, code_end),
                },
            ),
            None => None,
        },
        _ => None,
    }
}

/// Where the search goes on after the occurrence of `<pre><code` at `start`: behind the
/// block, or behind `<pre><code` where there is no block.
pub open spec fn resume_at(doc: Seq<u8>, start: int) -> int {
    match block_at(doc, start) {
        Some(block) => block.end,
        None => start + OPEN_TAG@.len(),
    }
}

/// The blocks found from `cursor` on, in the order of the document.
pub open spec fn blocks_from(doc: Seq<u8>, cursor: int) -> Seq<BlockView>
    decreases doc.len() - cursor,
{
    if cursor < 0 {
        Seq::empty()
    } else {
        match first_match(doc, OPEN_TAG@, cursor) {
            None => Seq::empty(),
            Some(start) => {
                proof {
                    lemma_resume_advances(doc, cursor, start);
                }
                match block_at(doc, start) {
                    Some(block) => seq![block] + blocks_from(doc, resume_at(doc, start)),
                    None => blocks_from(doc, resume_at(doc, start)),
                }
            },
        }
    }
}

/// All the blocks of a document.
pub open spec fn scan(doc: Seq<u8>) -> Seq<BlockView> {
    blocks_from(doc, 0)
}

/// The search always goes on behind the occurrence it has looked at, and within the document.
pub proof fn lemma_resume_advances(doc: Seq<u8>, cursor: int, start: int)
    requires
        0 <= cursor,
        first_match(doc, OPEN_TAG@, cursor) == Some(start),
    ensures
        cursor <= start < resume_at(doc, start) <= doc.len(),
{
    lemma_first_match_is_least(doc, OPEN_TAG@, cursor);
    lemma_block_at_shape(doc, start);
}

/// The shape of a block: it lies within the document, begins with `<pre><code` and ends
/// with `</code></pre>`, its code stands right before `</code></pre>` and holds no
/// `</code></pre>` itself.
pub open spec fn block_shaped(doc: Seq<u8>, block: BlockView) -> bool {
    let code_end = block.end - CLOSE_TAG@.len();
    let code_start = code_end - block.code.len();
    &&& 0 <= block.start
    &&& block.start + OPEN_TAG@.len() < code_start
    &&& block.end <= doc.len()
    &&& occurs_at(doc, OPEN_TAG@, block.start)
    &&& occurs_at(doc, CLOSE_TAG@, code_end)
    &&& block.code == doc.subrange(code_start, code_end)
    &&& forall|i: int| !occurs_at(block.code, CLOSE_TAG@, i)
}

/// The first `>` of an occurrence of `<pre><code` is that of `<pre>`, so it is never
/// missing, and the code begins behind the first `>` that follows `<pre><code`.
pub proof fn lemma_code_starts_behind_code_tag(doc: Seq<u8>, start: int)
    requires
        occurs_at(doc, OPEN_TAG@, start),
    ensures
        first_match(doc, TAG_END@, start) == Some(start + 4),
        code_start_at(doc, start) == match first_match(doc, TAG_END@, start + OPEN_TAG@.len()) {
            Some(inner) => Some(inner + 1),
            None => None,
        },
        match code_start_at(doc, start) {
            Some(code_start) => start + OPEN_TAG@.len() < code_start <= doc.len(),
            None => true,
        },
{
    let tag = doc.subrange(start, start + 10);
    lemma_first_match_is_least(doc, TAG_END@, start);
    assert(occurs_at(doc, TAG_END@, start + 4)) by {
        assert(tag[4] == doc[start + 4]);
        assert(doc.subrange(start + 4, start + 5) =~= TAG_END@);
    }
    assert forall|j: int| start <= j < start + 10 && j != start + 4 implies !occurs_at(
        doc,
        TAG_END@,
        j,
    ) by {
        assert(tag[j - start] == doc[j]);
        assert(doc.subrange(j, j + 1)[0] == doc[j]);
    }
    lemma_first_match_is_least(doc, TAG_END@, start + 5);
    lemma_first_match_is_least(doc, TAG_END@, start + 10);
}

/// A block that opens at `start` begins there and has the shape of a block.
pub proof fn lemma_block_at_shape(doc: Seq<u8>, start: int)
    requires
        occurs_at(doc, OPEN_TAG@, start),
    ensures
        match block_at(doc, start) {
            Some(block) => block.start == start && block_shaped(doc, block),
            None => true,
        },
{
    lemma_code_starts_behind_code_tag(doc, start);
    if let Some(code_start) = code_start_at(doc, start) {
        lemma_first_match_is_least(doc, CLOSE_TAG@, code_start);
        if let Some(block) = block_at(doc, start) {
            assert forall|i: int| !occurs_at(block.code, CLOSE_TAG@, i) by {
                if occurs_at(block.code, CLOSE_TAG@, i) {
                    assert(doc.subrange(code_start + i, code_start + i + 13)
                        =~= block.code.subrange(i, i + 13));
                    assert(occurs_at(doc, CLOSE_TAG@, code_start + i));
                }
            }
        }
    }
}

/// The language and the code of a block in a text are texts.
pub proof fn lemma_block_at_is_text(doc: Seq<u8>, start: int)
    requires
        valid_utf8(doc),
        occurs_at(doc, OPEN_TAG@, start),
    ensures
        match block_at(doc, start) {
            Some(block) => valid_utf8(block.language) && valid_utf8(block.code),
            None => true,
        },
{
    if let Some(block) = block_at(doc, start) {
        lemma_code_starts_behind_code_tag(doc, start);
        let name = start + 27;
        if occurs_at(doc, CLASS_PREFIX@, start + 10) {
            lemma_first_match_is_least(doc, QUOTE@, name);
            let quote = first_match(doc, QUOTE@, name)->0;
            assert(doc.subrange(start + 10, name)[16] == doc[name - 1]);
            assert(doc.subrange(quote, quote + 1)[0] == doc[quote]);
            lemma_part_is_text(doc, name, quote);
        } else {
            lemma_ascii_is_text(block.language);
        }
        let code_start = code_start_at(doc, start)->0;
        let inner = code_start - 1;
        lemma_first_match_is_least(doc, TAG_END@, start + 10);
        assert(doc.subrange(inner, inner + 1)[0] == doc[inner]);
        lemma_first_match_is_least(doc, CLOSE_TAG@, code_start);
        let code_end = first_match(doc, CLOSE_TAG@, code_start)->0;
        assert(doc.subrange(code_end, code_end + 13)[0] == doc[code_end]);
        lemma_part_is_text(doc, code_start, code_end);
    }
}

/// The languages and the codes of the blocks that are found in a text are texts.
pub proof fn lemma_blocks_are_text(doc: Seq<u8>, cursor: int)
    requires
        valid_utf8(doc),
        0 <= cursor,
    ensures
        forall|i: int|
            0 <= i < blocks_from(doc, cursor).len() ==> valid_utf8(
                (#[trigger] blocks_from(doc, cursor)[i]).language,
            ) && valid_utf8(blocks_from(doc, cursor)[i].code),
    decreases doc.len() - cursor,
{
    match first_match(doc, OPEN_TAG@, cursor) {
        None => {},
        Some(start) => {
            lemma_resume_advances(doc, cursor, start);
            lemma_first_match_is_least(doc, OPEN_TAG@, cursor);
            lemma_block_at_is_text(doc, start);
            let rest = blocks_from(doc, resume_at(doc, start));
            lemma_blocks_are_text(doc, resume_at(doc, start));
            match block_at(doc, start) {
                Some(block) => {
                    let all = seq![block] + rest;
                    assert forall|i: int| 0 <= i < all.len() implies valid_utf8(
                        (#[trigger] all[i]).language,
                    ) && valid_utf8(all[i].code) by {
                        if i > 0 {
                            assert(all[i] == rest[i - 1]);
                        }
                    }
                },
                None => {},
            }
        },
    }
}

/// Blocks that lie within the document, one behind the other, none before `cursor`.
pub open spec fn in_order(doc: Seq<u8>, blocks: Seq<BlockView>, cursor: int) -> bool {
    &&& forall|i: int|
        0 <= i < blocks.len() ==> cursor <= (#[trigger] blocks[i]).start < blocks[i].end
            <= doc.len()
    &&& forall|i: int, j: int|
        0 <= i < j < blocks.len() ==> (#[trigger] blocks[i]).end <= (#[trigger] blocks[j]).start
}

/// What the scan finds from `cursor` on are blocks of the right shape, in the order of
/// the document, and no two of them overlap.
pub proof fn lemma_blocks_from_in_order(doc: Seq<u8>, cursor: int)
    requires
        0 <= cursor,
    ensures
        in_order(doc, blocks_from(doc, cursor), cursor),
        forall|i: int|
            0 <= i < blocks_from(doc, cursor).len() ==> block_shaped(
                doc,
                #[trigger] blocks_from(doc, cursor)[i],
            ),
    decreases doc.len() - cursor,
{
    match first_match(doc, OPEN_TAG@, cursor) {
        None => {},
        Some(start) => {
            lemma_resume_advances(doc, cursor, start);
            lemma_first_match_is_least(doc, OPEN_TAG@, cursor);
            lemma_block_at_shape(doc, start);
            let next = resume_at(doc, start);
            lemma_blocks_from_in_order(doc, next);
            let rest = blocks_from(doc, next);
            match block_at(doc, start) {
                Some(block) => {
                    let all = seq![block] + rest;
                    assert forall|i: int| 0 <= i < all.len() implies cursor <= (
                    #[trigger] all[i]).start < all[i].end <= doc.len() && block_shaped(
                        doc,
                        all[i],
                    ) by {
                        if i > 0 {
                            assert(all[i] == rest[i - 1]);
                        }
                    }
                    assert forall|i: int, j: int| 0 <= i < j < all.len() implies (
                    #[trigger] all[i]).end <= (#[trigger] all[j]).start by {
                        assert(all[j] == rest[j - 1]);
                        if i > 0 {
                            assert(all[i] == rest[i - 1]);
                        }
                    }
                },
                None => {},
            }
        },
    }
}

/// The bytes of `s` from `from` up to `to`, copied.
fn copy_of(s: &[u8], from: usize, to: usize) -> (r: Vec<u8>)
    requires
        from <= to <= s@.len(),
    ensures
        r@ == s@.subrange(from as int, to as int),
{
    slice_to_vec(slice_subrange(s, from, to))
}

/// Reads the block that opens at `start`.
fn parse_block(html: &[u8], start: usize) -> (r: Option<Block>)
    requires
        occurs_at(html@, OPEN_TAG@, start as int),
    ensures
        match r {
            Some(block) => block_at(html@, start as int) == Some(block@),
            None => block_at(html@, start as int) is None,
        },
{
    assert(OPEN_TAG@.len() == 10 && CLASS_PREFIX@.len() == 17 && CLOSE_TAG@.len() == 13);
    assert(QUOTE@.len() == 1 && TAG_END@.len() == 1);
    let total: usize = html.len();
    assert(start + 10 <= total);
    let after_tag: usize = start + 10;
    let language: Vec<u8> = if matches_at(html, CLASS_PREFIX.as_slice(), after_tag) {
        let name: usize = after_tag + 17;
        match find_from(html, QUOTE.as_slice(), name) {
            Some(quote) => copy_of(html, name, quote),
            None => {
                return None;
            },
        }
    } else {
        Vec::new()
    };
    let outer: usize = match find_from(html, TAG_END.as_slice(), start) {
        Some(at) => at,
        None => {
            return None;
        },
    };
    let inner: usize = match find_from(html, TAG_END.as_slice(), outer + 1) {
        Some(at) => at,
        None => {
            return None;
        },
    };
    let code_start: usize = inner + 1;
    let code_end: usize = match find_from(html, CLOSE_TAG.as_slice(), code_start) {
        Some(at) => at,
        None => {
            return None;
        },
    };
    Some(Block { start, end: code_end + 13, language, code: copy_of(html, code_start, code_end) })
}

/// Finds the code blocks of `html`, from left to right.
///
/// The search for `<pre><code` starts at the beginning and goes on behind each block
/// found. An occurrence that is no block gives no block and no error: the search goes
/// on right behind its `<pre><code`.
pub fn find_code_blocks(html: &[u8]) -> (blocks: Vec<Block>)
    ensures
        views(blocks@) == scan(html@),
        in_order(html@, views(blocks@), 0),
        forall|i: int| 0 <= i < blocks.len() ==> block_shaped(html@, #[trigger] blocks[i]@),
{
    let mut blocks: Vec<Block> = Vec::new();
    let mut cursor: usize = 0;
    loop
        invariant
            cursor <= html.len(),
            views(blocks@) + blocks_from(html@, cursor as int) == scan(html@),
        ensures
            views(blocks@) == scan(html@),
        decreases html.len() - cursor,
    {
        let start: usize = match find_from(html, OPEN_TAG.as_slice(), cursor) {
            Some(at) => at,
            None => {
                assert(views(blocks@) + Seq::<BlockView>::empty() =~= views(blocks@));
                break ;
            },
        };
        assert(OPEN_TAG@.len() == 10);
        proof {
            lemma_resume_advances(html@, cursor as int, start as int);
            lemma_first_match_is_least(html@, OPEN_TAG@, cursor as int);
        }
        match parse_block(html, start) {
            Some(block) => {
                let ghost before = views(blocks@);
                cursor = block.end;
                blocks.push(block);
                assert(views(blocks@) =~= before + seq![block@]);
                assert(before + (seq![block@] + blocks_from(html@, cursor as int)) =~= (before
                    + seq![block@]) + blocks_from(html@, cursor as int));
            },
            None => {
                cursor = start + 10;
            },
        }
    }
    proof {
        lemma_blocks_from_in_order(html@, 0);
        assert forall|i: int| 0 <= i < blocks.len() implies block_shaped(
            html@,
            #[trigger] blocks[i]@,
        ) by {
            assert(views(blocks@)[i] == blocks[i]@);
        }
    }
    blocks
}

} // verus!
