//! Highlighting a whole document.

use crate::engine::{highlighted_html, plain_text_syntax, Engine};
use crate::entities::decoded;
use crate::normalizer::{needs_open_tag, with_open_tag, without_open_tag};
use crate::pipeline::{
    fragment_of,
    highlight_blocks,
    lemma_fragment_is_text,
    lemma_text_is_rendered,
    texts,
};
use crate::reassemble::{
    lemma_all_kept_is_unchanged,
    lemma_reassembled_in_order,
    lemma_reassembled_is_text,
    place_of_block,
    reassemble,
    reassembled,
};
use crate::scanner::{
    find_code_blocks,
    in_order,
    lemma_blocks_are_text,
    lemma_blocks_from_in_order,
    scan,
    views,
    Block,
    BlockView,
};
use vstd::prelude::*;
use vstd::slice::slice_to_vec;
use vstd::utf8::{decode_utf8, encode_utf8, valid_utf8};

verus! {

/// The fragments of the blocks, one for each, in their order.
pub open spec fn fragments_of(engine: Engine, blocks: Seq<BlockView>) -> Seq<Seq<u8>> {
    Seq::new(blocks.len(), |i: int| fragment_of(engine, blocks[i].language, blocks[i].code))
}

/// None of the blocks declares a language.
pub open spec fn without_languages(blocks: Seq<BlockView>) -> bool {
    forall|i: int| 0 <= i < blocks.len() ==> (#[trigger] blocks[i]).language.len() == 0
}

/// The document with each of its blocks highlighted by `engine`.
pub open spec fn highlighted(engine: Engine, doc: Seq<u8>) -> Seq<u8> {
    reassembled(doc, scan(doc), fragments_of(engine, scan(doc)))
}

/// A document without a block comes out as it is, whatever the engine.
pub proof fn lemma_no_blocks_is_unchanged(engine: Engine, doc: Seq<u8>)
    requires
        scan(doc).len() == 0,
    ensures
        highlighted(engine, doc) == doc,
{
    assert(doc.skip(0) =~= doc);
    assert(highlighted(engine, doc) =~= doc);
}

/// A block without a language is kept as it is: there stands in the output, at the
/// block's place, what the block is in the document.
pub proof fn lemma_block_without_language_is_kept(engine: Engine, doc: Seq<u8>, n: int)
    requires
        0 <= n < scan(doc).len(),
        scan(doc)[n].language.len() == 0,
    ensures
        ({
            let block = scan(doc)[n];
            let place = place_of_block(doc, scan(doc), fragments_of(engine, scan(doc)), n);
            &&& 0 <= place
            &&& place + (block.end - block.start) <= highlighted(engine, doc).len()
            &&& highlighted(engine, doc).subrange(place, place + (block.end - block.start))
                == doc.subrange(block.start, block.end)
        }),
{
    lemma_blocks_from_in_order(doc, 0);
    lemma_reassembled_in_order(doc, scan(doc), fragments_of(engine, scan(doc)), n);
}

/// A document whose blocks all have no language comes out as it is, whatever the engine.
pub proof fn lemma_without_languages_is_unchanged(engine: Engine, doc: Seq<u8>)
    requires
        without_languages(scan(doc)),
    ensures
        highlighted(engine, doc) == doc,
{
    lemma_blocks_from_in_order(doc, 0);
    lemma_all_kept_is_unchanged(doc, scan(doc), fragments_of(engine, scan(doc)));
}

/// A text comes out as a text, whatever the engine.
pub proof fn lemma_highlighted_is_text(engine: Engine, doc: Seq<u8>)
    requires
        valid_utf8(doc),
    ensures
        valid_utf8(highlighted(engine, doc)),
{
    let blocks = scan(doc);
    let fragments = fragments_of(engine, blocks);
    lemma_blocks_from_in_order(doc, 0);
    assert forall|i: int| 0 <= i < blocks.len() implies valid_utf8(#[trigger] fragments[i]) by {
        lemma_fragment_is_text(engine, blocks[i].language, blocks[i].code);
    }
    lemma_reassembled_is_text(doc, blocks, fragments);
}

/// In a text, the code of every block with a language is handed to the engine: the
/// language and the code are texts, and the fragment is what the engine makes of the
/// code.
pub proof fn lemma_blocks_of_text_are_rendered(engine: Engine, doc: Seq<u8>, n: int)
    requires
        valid_utf8(doc),
        0 <= n < scan(doc).len(),
        scan(doc)[n].language.len() > 0,
    ensures
        ({
            let block = scan(doc)[n];
            let source = with_open_tag(block.language, decoded(block.code));
            &&& valid_utf8(block.language)
            &&& valid_utf8(block.code)
            &&& valid_utf8(source)
            &&& fragments_of(engine, scan(doc))[n] == match highlighted_html(
                decode_utf8(source),
                engine.syntax_set(),
                engine.syntax_for(block.language),
                engine.theme(),
            ) {
                Some(html) => if needs_open_tag(block.language, decoded(block.code)) {
                    without_open_tag(encode_utf8(html))
                } else {
                    encode_utf8(html)
                },
                None => Seq::empty(),
            }
        }),
{
    lemma_blocks_are_text(doc, 0);
    let block = scan(doc)[n];
    lemma_text_is_rendered(engine, block.language, block.code);
}

/// Highlights the blocks that were found in `html` and puts the document together.
fn highlight_found(engine: &Engine, html: &[u8], blocks: &Vec<Block>) -> (out: Vec<u8>)
    requires
        views(blocks@) == scan(html@),
        in_order(html@, views(blocks@), 0),
    ensures
        out@ == highlighted(*engine, html@),
{
    let fragments = highlight_blocks(engine, blocks);
    assert(texts(fragments@) =~= fragments_of(*engine, views(blocks@))) by {
        assert forall|i: int| 0 <= i < blocks.len() implies texts(fragments@)[i] == fragments_of(
            *engine,
            views(blocks@),
        )[i] by {
            assert(views(blocks@)[i] == blocks[i]@);
            assert(texts(fragments@)[i] == fragments[i]@);
        }
    }
    reassemble(html, blocks, &fragments)
}

/// Highlights the code blocks of `html` with an engine that is loaded already.
pub fn highlight_with(engine: &Engine, html: &[u8]) -> (out: Vec<u8>)
    ensures
        out@ == highlighted(*engine, html@),
        valid_utf8(html@) ==> valid_utf8(out@),
{
    let blocks = find_code_blocks(html);
    proof {
        if valid_utf8(html@) {
            lemma_highlighted_is_text(*engine, html@);
        }
    }
    highlight_found(engine, html, &blocks)
}

/// Highlights the code blocks of `html`.
///
/// A document without a block comes back as it is, and the engine is not even loaded.
/// Else the engine is loaded with its built-in syntaxes and themes, the blocks are
/// highlighted side by side, and the document is put together again.
pub fn highlight_html(html: &[u8]) -> (out: Vec<u8>)
    ensures
        scan(html@).len() == 0 ==> out@ == html@,
        without_languages(scan(html@)) ==> out@ == html@,
        valid_utf8(html@) ==> valid_utf8(out@),
        scan(html@).len() > 0 ==> exists|engine: Engine|
            plain_text_syntax(engine.syntax_set()) is Some && out@ == highlighted(engine, html@),
{
    let blocks = find_code_blocks(html);
    if blocks.len() == 0 {
        return slice_to_vec(html);
    }
    let engine = Engine::load_defaults();
    let out = highlight_found(&engine, html, &blocks);
    proof {
        if without_languages(scan(html@)) {
            lemma_without_languages_is_unchanged(engine, html@);
        }
        if valid_utf8(html@) {
            lemma_highlighted_is_text(engine, html@);
        }
    }
    out
}

/// Highlights the code blocks of a document that comes in as bytes from outside.
///
/// Bytes that are no UTF-8 text are refused as a whole: there is no output then.
pub fn highlight_text(input: &[u8]) -> (out: Option<Vec<u8>>)
    ensures
        out is Some <==> valid_utf8(input@),
        match out {
            Some(bytes) => {
                &&& valid_utf8(bytes@)
                &&& scan(input@).len() == 0 ==> bytes@ == input@
                &&& without_languages(scan(input@)) ==> bytes@ == input@
                &&& scan(input@).len() > 0 ==> exists|engine: Engine|
                    plain_text_syntax(engine.syntax_set()) is Some && bytes@ == highlighted(
                        engine,
                        input@,
                    )
            },
            None => true,
        },
{
    match core::str::from_utf8(input) {
        Ok(_) => Some(highlight_html(input)),
        Err(_) => None,
    }
}

} // verus!
