//! Putting the document together again.

use crate::pipeline::texts;
use crate::scanner::{block_shaped, in_order, views, Block, BlockView};
use crate::text::{beside_ascii, lemma_part_is_text};
use vstd::prelude::*;
use vstd::slice::slice_subrange;
use vstd::utf8::{valid_utf8, valid_utf8_concat};

verus! {

/// What stands in the place of a block: its fragment, or the block as it was where the
/// fragment is empty.
pub open spec fn replacement(doc: Seq<u8>, block: BlockView, fragment: Seq<u8>) -> Seq<u8> {
    if fragment.len() > 0 {
        fragment
    } else {
        doc.subrange(block.start, block.end)
    }
}

/// Where the document goes on behind the first `n` blocks.
pub open spec fn cursor_after(blocks: Seq<BlockView>, n: int) -> int {
    if n <= 0 {
        0
    } else {
        blocks[n - 1].end
    }
}

/// The text between block `n` and what stands before it: the block before, or the
/// beginning of the document.
pub open spec fn gap_before(doc: Seq<u8>, blocks: Seq<BlockView>, n: int) -> Seq<u8> {
    doc.subrange(cursor_after(blocks, n), blocks[n].start)
}

/// The output up to and with the first `n` blocks: for each of them the text before
/// it, as it is, and then what stands in its place.
pub open spec fn assembled(
    doc: Seq<u8>,
    blocks: Seq<BlockView>,
    fragments: Seq<Seq<u8>>,
    n: int,
) -> Seq<u8>
    decreases n,
{
    if n <= 0 {
        Seq::empty()
    } else {
        assembled(doc, blocks, fragments, n - 1) + gap_before(doc, blocks, n - 1) + replacement(
            doc,
            blocks[n - 1],
            fragments[n - 1],
        )
    }
}

/// The whole output: all the blocks with the text before each, and the text behind the
/// last.
pub open spec fn reassembled(
    doc: Seq<u8>,
    blocks: Seq<BlockView>,
    fragments: Seq<Seq<u8>>,
) -> Seq<u8> {
    assembled(doc, blocks, fragments, blocks.len() as int) + doc.skip(
        cursor_after(blocks, blocks.len() as int),
    )
}

/// The length of the first `n` blocks, taken together.
pub open spec fn blocks_len(blocks: Seq<BlockView>, n: int) -> int
    decreases n,
{
    if n <= 0 {
        0
    } else {
        blocks_len(blocks, n - 1) + (blocks[n - 1].end - blocks[n - 1].start)
    }
}

/// The length of what stands in the place of the first `n` blocks, taken together.
pub open spec fn replacements_len(
    doc: Seq<u8>,
    blocks: Seq<BlockView>,
    fragments: Seq<Seq<u8>>,
    n: int,
) -> int
    decreases n,
{
    if n <= 0 {
        0
    } else {
        replacements_len(doc, blocks, fragments, n - 1) + replacement(
            doc,
            blocks[n - 1],
            fragments[n - 1],
        ).len()
    }
}

/// Where in the output the text before block `n` begins.
pub open spec fn place_of_gap(
    doc: Seq<u8>,
    blocks: Seq<BlockView>,
    fragments: Seq<Seq<u8>>,
    n: int,
) -> int {
    assembled(doc, blocks, fragments, n).len() as int
}

/// Where in the output that begins which stands in the place of block `n`.
pub open spec fn place_of_block(
    doc: Seq<u8>,
    blocks: Seq<BlockView>,
    fragments: Seq<Seq<u8>>,
    n: int,
) -> int {
    place_of_gap(doc, blocks, fragments, n) + gap_before(doc, blocks, n).len()
}

/// The output up to block `n` is as long as the document up to there, less the blocks
/// and plus what stands in their places.
pub proof fn lemma_assembled_len(
    doc: Seq<u8>,
    blocks: Seq<BlockView>,
    fragments: Seq<Seq<u8>>,
    n: int,
)
    requires
        in_order(doc, blocks, 0),
        0 <= n <= blocks.len(),
    ensures
        assembled(doc, blocks, fragments, n).len() == cursor_after(blocks, n) - blocks_len(
            blocks,
            n,
        ) + replacements_len(doc, blocks, fragments, n),
        0 <= blocks_len(blocks, n) <= cursor_after(blocks, n) <= doc.len(),
    decreases n,
{
    if n > 0 {
        lemma_assembled_len(doc, blocks, fragments, n - 1);
        if n > 1 {
            assert(blocks[n - 2].end <= blocks[n - 1].start);
        }
    }
}

/// The output is as long as the text outside the blocks and what stands in the places
/// of the blocks, taken together.
pub proof fn lemma_reassembled_len(doc: Seq<u8>, blocks: Seq<BlockView>, fragments: Seq<Seq<u8>>)
    requires
        in_order(doc, blocks, 0),
    ensures
        reassembled(doc, blocks, fragments).len() == (doc.len() - blocks_len(
            blocks,
            blocks.len() as int,
        )) + replacements_len(doc, blocks, fragments, blocks.len() as int),
        0 <= blocks_len(blocks, blocks.len() as int) <= doc.len(),
{
    lemma_assembled_len(doc, blocks, fragments, blocks.len() as int);
}

/// The output goes by the order of the document: it begins with the output up to block
/// `n`; then comes the text before block `n`, as it is in the document; then what
/// stands in the place of block `n`.
pub proof fn lemma_reassembled_in_order(
    doc: Seq<u8>,
    blocks: Seq<BlockView>,
    fragments: Seq<Seq<u8>>,
    n: int,
)
    requires
        in_order(doc, blocks, 0),
        0 <= n < blocks.len(),
    ensures
        ({
            let out = reassembled(doc, blocks, fragments);
            let gap = place_of_gap(doc, blocks, fragments, n);
            let block = place_of_block(doc, blocks, fragments, n);
            let behind = block + replacement(doc, blocks[n], fragments[n]).len();
            &&& 0 <= gap <= block <= behind <= out.len()
            &&& out.subrange(0, gap) == assembled(doc, blocks, fragments, n)
            &&& out.subrange(gap, block) == gap_before(doc, blocks, n)
            &&& out.subrange(block, behind) == replacement(doc, blocks[n], fragments[n])
            &&& n + 1 < blocks.len() ==> behind == place_of_gap(doc, blocks, fragments, n + 1)
        }),
{
    let out = reassembled(doc, blocks, fragments);
    let upto = assembled(doc, blocks, fragments, n);
    let next = assembled(doc, blocks, fragments, n + 1);
    lemma_assembled_is_prefix(doc, blocks, fragments, n);
    lemma_assembled_is_prefix(doc, blocks, fragments, n + 1);
    assert(next == upto + gap_before(doc, blocks, n) + replacement(doc, blocks[n], fragments[n]));
    let gap = upto.len() as int;
    let block = gap + gap_before(doc, blocks, n).len();
    let behind = block + replacement(doc, blocks[n], fragments[n]).len();
    assert(out.subrange(0, behind) == next);
    assert(out.subrange(gap, block) =~= next.subrange(gap, block));
    assert(out.subrange(block, behind) =~= next.subrange(block, behind));
    assert(next.subrange(gap, block) =~= gap_before(doc, blocks, n));
    assert(next.subrange(block, behind) =~= replacement(doc, blocks[n], fragments[n]));
}

/// The output begins with the output up to block `n`.
pub proof fn lemma_assembled_is_prefix(
    doc: Seq<u8>,
    blocks: Seq<BlockView>,
    fragments: Seq<Seq<u8>>,
    n: int,
)
    requires
        0 <= n <= blocks.len(),
    ensures
        assembled(doc, blocks, fragments, n).len() <= reassembled(doc, blocks, fragments).len(),
        reassembled(doc, blocks, fragments).subrange(
            0,
            assembled(doc, blocks, fragments, n).len() as int,
        ) == assembled(doc, blocks, fragments, n),
    decreases blocks.len() - n,
{
    let out = reassembled(doc, blocks, fragments);
    let upto = assembled(doc, blocks, fragments, n);
    if n == blocks.len() {
        assert(out.subrange(0, upto.len() as int) =~= upto);
    } else {
        lemma_assembled_is_prefix(doc, blocks, fragments, n + 1);
        let next = assembled(doc, blocks, fragments, n + 1);
        assert(next == upto + gap_before(doc, blocks, n) + replacement(
            doc,
            blocks[n],
            fragments[n],
        ));
        assert(out.subrange(0, upto.len() as int) =~= out.subrange(0, next.len() as int).subrange(
            0,
            upto.len() as int,
        ));
        assert(next.subrange(0, upto.len() as int) =~= upto);
    }
}

/// The output ends with the text behind the last block, as it is in the document.
pub proof fn lemma_reassembled_end(doc: Seq<u8>, blocks: Seq<BlockView>, fragments: Seq<Seq<u8>>)
    ensures
        ({
            let out = reassembled(doc, blocks, fragments);
            let end = place_of_gap(doc, blocks, fragments, blocks.len() as int);
            &&& 0 <= end <= out.len()
            &&& out.skip(end) == doc.skip(cursor_after(blocks, blocks.len() as int))
        }),
{
    let upto = assembled(doc, blocks, fragments, blocks.len() as int);
    let rest = doc.skip(cursor_after(blocks, blocks.len() as int));
    assert((upto + rest).skip(upto.len() as int) =~= rest);
}

/// Where every fragment is empty, the output is the document.
pub proof fn lemma_all_kept_is_unchanged(
    doc: Seq<u8>,
    blocks: Seq<BlockView>,
    fragments: Seq<Seq<u8>>,
)
    requires
        in_order(doc, blocks, 0),
        forall|i: int| 0 <= i < blocks.len() ==> (#[trigger] fragments[i]).len() == 0,
    ensures
        reassembled(doc, blocks, fragments) == doc,
{
    lemma_all_kept_upto(doc, blocks, fragments, blocks.len() as int);
    let cursor = cursor_after(blocks, blocks.len() as int);
    assert(doc.take(cursor) + doc.skip(cursor) =~= doc);
}

proof fn lemma_all_kept_upto(
    doc: Seq<u8>,
    blocks: Seq<BlockView>,
    fragments: Seq<Seq<u8>>,
    n: int,
)
    requires
        in_order(doc, blocks, 0),
        0 <= n <= blocks.len(),
        forall|i: int| 0 <= i < blocks.len() ==> (#[trigger] fragments[i]).len() == 0,
    ensures
        0 <= cursor_after(blocks, n) <= doc.len(),
        assembled(doc, blocks, fragments, n) == doc.take(cursor_after(blocks, n)),
    decreases n,
{
    if n > 0 {
        lemma_all_kept_upto(doc, blocks, fragments, n - 1);
        if n > 1 {
            assert(blocks[n - 2].end <= blocks[n - 1].start);
        }
        let block = blocks[n - 1];
        assert(fragments[n - 1].len() == 0);
        assert(doc.take(cursor_after(blocks, n - 1)) + gap_before(doc, blocks, n - 1)
            + doc.subrange(block.start, block.end) =~= doc.take(block.end));
    } else {
        assert(doc.take(0) =~= Seq::<u8>::empty());
    }
}

/// What is put together from a text and from fragments that are texts is a text.
pub proof fn lemma_reassembled_is_text(
    doc: Seq<u8>,
    blocks: Seq<BlockView>,
    fragments: Seq<Seq<u8>>,
)
    requires
        valid_utf8(doc),
        in_order(doc, blocks, 0),
        forall|i: int| 0 <= i < blocks.len() ==> block_shaped(doc, #[trigger] blocks[i]),
        forall|i: int| 0 <= i < blocks.len() ==> valid_utf8(#[trigger] fragments[i]),
    ensures
        valid_utf8(reassembled(doc, blocks, fragments)),
{
    let n = blocks.len() as int;
    lemma_assembled_is_text(doc, blocks, fragments, n);
    lemma_part_is_text(doc, cursor_after(blocks, n), doc.len() as int);
    assert(doc.skip(cursor_after(blocks, n)) =~= doc.subrange(
        cursor_after(blocks, n),
        doc.len() as int,
    ));
    valid_utf8_concat(assembled(doc, blocks, fragments, n), doc.skip(cursor_after(blocks, n)));
}

proof fn lemma_assembled_is_text(
    doc: Seq<u8>,
    blocks: Seq<BlockView>,
    fragments: Seq<Seq<u8>>,
    n: int,
)
    requires
        valid_utf8(doc),
        in_order(doc, blocks, 0),
        0 <= n <= blocks.len(),
        forall|i: int| 0 <= i < blocks.len() ==> block_shaped(doc, #[trigger] blocks[i]),
        forall|i: int| 0 <= i < blocks.len() ==> valid_utf8(#[trigger] fragments[i]),
    ensures
        valid_utf8(assembled(doc, blocks, fragments, n)),
        0 <= cursor_after(blocks, n) <= doc.len(),
        beside_ascii(doc, cursor_after(blocks, n)),
    decreases n,
{
    if n > 0 {
        lemma_assembled_is_text(doc, blocks, fragments, n - 1);
        let block = blocks[n - 1];
        assert(block_shaped(doc, block));
        if n > 1 {
            assert(blocks[n - 2].end <= block.start);
        }
        assert(doc.subrange(block.start, block.start + 10)[0] == doc[block.start]);
        assert(doc.subrange(block.end - 13, block.end)[12] == doc[block.end - 1]);
        lemma_part_is_text(doc, cursor_after(blocks, n - 1), block.start);
        lemma_part_is_text(doc, block.start, block.end);
        assert(valid_utf8(fragments[n - 1]));
        valid_utf8_concat(
            assembled(doc, blocks, fragments, n - 1),
            gap_before(doc, blocks, n - 1),
        );
        valid_utf8_concat(
            assembled(doc, blocks, fragments, n - 1) + gap_before(doc, blocks, n - 1),
            replacement(doc, block, fragments[n - 1]),
        );
    }
}

/// Puts the document together from its text and the fragments of its blocks.
///
/// The text outside the blocks is kept byte for byte. A block with a fragment gives way
/// to it as a whole; a block with an empty fragment is kept as a whole.
pub fn reassemble(html: &[u8], blocks: &Vec<Block>, fragments: &Vec<Vec<u8>>) -> (out: Vec<u8>)
    requires
        fragments.len() == blocks.len(),
        in_order(html@, views(blocks@), 0),
    ensures
        out@ == reassembled(html@, views(blocks@), texts(fragments@)),
{
    let mut out: Vec<u8> = Vec::new();
    let mut cursor: usize = 0;
    let mut n: usize = 0;
    while n < blocks.len()
        invariant
            n <= blocks.len(),
            fragments.len() == blocks.len(),
            in_order(html@, views(blocks@), 0),
            cursor == cursor_after(views(blocks@), n as int),
            cursor <= html.len(),
            out@ == assembled(html@, views(blocks@), texts(fragments@), n as int),
        decreases blocks.len() - n,
    {
        let block = &blocks[n];
        let fragment = &fragments[n];
        let ghost before = out@;
        proof {
            assert(views(blocks@)[n as int] == block@);
            assert(texts(fragments@)[n as int] == fragment@);
            if n > 0 {
                assert(views(blocks@)[n - 1].end <= views(blocks@)[n as int].start);
            }
        }
        out.extend_from_slice(slice_subrange(html, cursor, block.start));
        assert(out@ =~= before + gap_before(html@, views(blocks@), n as int));
        if fragment.len() == 0 {
            out.extend_from_slice(slice_subrange(html, block.start, block.end));
        } else {
            out.extend_from_slice(fragment.as_slice());
        }
        assert(out@ =~= before + gap_before(html@, views(blocks@), n as int) + replacement(
            html@,
            block@,
            fragment@,
        ));
        cursor = block.end;
        n += 1;
    }
    let ghost before = out@;
    out.extend_from_slice(slice_subrange(html, cursor, html.len()));
    assert(out@ =~= before + html@.skip(cursor as int));
    out
}

} // verus!
