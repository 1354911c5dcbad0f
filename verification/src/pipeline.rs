//! From one block to its highlighted fragment.

use crate::engine::{highlighted_html, plain_text_syntax, syntax_by_token, Engine};
use crate::entities::{decode_html_entities, decoded, lemma_decoded_is_text};
use crate::normalizer::{
    lemma_with_open_tag_is_text,
    lemma_without_open_tag_is_text,
    needs_open_tag,
    normalize,
    reversal_for,
    reverse,
    reversed,
    with_open_tag,
    without_open_tag,
};
use crate::scanner::Block;
use rayon::prelude::{IntoParallelRefIterator, ParallelIterator};
use vstd::prelude::*;
use vstd::utf8::{decode_utf8, encode_utf8, encode_utf8_valid_utf8, valid_utf8};

verus! {

/// The fragment that takes the place of a block with this language and this code.
///
/// Without a language there is none: the fragment is empty. Else the code is decoded,
/// made ready for the engine and rendered, and what was done to the code is undone in
/// the rendered text. Where the engine cannot render, the fragment is empty.
pub open spec fn fragment_of(engine: Engine, language: Seq<u8>, code: Seq<u8>) -> Seq<u8> {
    if language.len() == 0 {
        Seq::empty()
    } else {
        let source = decoded(code);
        match engine.rendered(language, with_open_tag(language, source)) {
            Some(html) => reversed(reversal_for(language, source), html),
            None => Seq::empty(),
        }
    }
}

/// A language that the engine does not know is no failure: the text is rendered with
/// the syntax for plain text.
pub proof fn lemma_unknown_language_is_plain_text(engine: Engine, language: Seq<u8>, text: Seq<u8>)
    requires
        plain_text_syntax(engine.syntax_set()) is Some,
        !valid_utf8(language) || syntax_by_token(engine.syntax_set(), decode_utf8(language))
            is None,
    ensures
        Some(engine.syntax_for(language)) == plain_text_syntax(engine.syntax_set()),
        valid_utf8(text) ==> engine.rendered(language, text) == match highlighted_html(
            decode_utf8(text),
            engine.syntax_set(),
            plain_text_syntax(engine.syntax_set())->0,
            engine.theme(),
        ) {
            Some(html) => Some(encode_utf8(html)),
            None => None,
        },
{
}

/// A fragment is a text, whatever the block.
pub proof fn lemma_fragment_is_text(engine: Engine, language: Seq<u8>, code: Seq<u8>)
    ensures
        valid_utf8(fragment_of(engine, language, code)),
{
    let source = decoded(code);
    if language.len() > 0 {
        if let Some(html) = engine.rendered(language, with_open_tag(language, source)) {
            let made = highlighted_html(
                decode_utf8(with_open_tag(language, source)),
                engine.syntax_set(),
                engine.syntax_for(language),
                engine.theme(),
            );
            encode_utf8_valid_utf8(made->0);
            lemma_without_open_tag_is_text(html);
        }
    }
}

/// The code of a block in a text is always handed to the engine: it is a text still when
/// it is decoded and has the opening marker before it.
pub proof fn lemma_text_is_rendered(engine: Engine, language: Seq<u8>, code: Seq<u8>)
    requires
        valid_utf8(code),
        language.len() > 0,
    ensures
        valid_utf8(with_open_tag(language, decoded(code))),
        fragment_of(engine, language, code) == match highlighted_html(
            decode_utf8(with_open_tag(language, decoded(code))),
            engine.syntax_set(),
            engine.syntax_for(language),
            engine.theme(),
        ) {
            Some(html) => if needs_open_tag(language, decoded(code)) {
                without_open_tag(encode_utf8(html))
            } else {
                encode_utf8(html)
            },
            None => Seq::empty(),
        },
{
    lemma_decoded_is_text(code);
    lemma_with_open_tag_is_text(language, decoded(code));
}

/// The fragments of blocks, as mathematical values.
pub open spec fn texts(fragments: Seq<Vec<u8>>) -> Seq<Seq<u8>> {
    fragments.map_values(|f: Vec<u8>| f@)
}

/// Highlights one block. An empty fragment says that the block stays as it is.
pub fn highlight_block(engine: &Engine, block: &Block) -> (fragment: Vec<u8>)
    ensures
        fragment@ == fragment_of(*engine, block@.language, block@.code),
{
    if block.language.len() == 0 {
        return Vec::new();
    }
    let source = decode_html_entities(block.code.as_slice());
    let (text, reversal) = normalize(block.language.as_slice(), source);
    match engine.render(block.language.as_slice(), text.as_slice()) {
        Some(html) => reverse(&reversal, html),
        None => Vec::new(),
    }
}

/// Highlights every block, each on its own, on rayon's pool of threads: `par_iter`,
/// `map` and `collect` hand back one fragment for each block, in the order of the
/// blocks, and each is what `highlight_block` gives for its block.
#[verifier::external_body]
pub(crate) fn highlight_blocks(engine: &Engine, blocks: &Vec<Block>) -> (fragments: Vec<Vec<u8>>)
    ensures
        fragments.len() == blocks.len(),
        forall|i: int|
            0 <= i < blocks.len() ==> (#[trigger] fragments[i])@ == fragment_of(
                *engine,
                blocks[i]@.language,
                blocks[i]@.code,
            ),
{
    blocks.par_iter().map(|block| highlight_block(engine, block)).collect()
}

} // verus!
