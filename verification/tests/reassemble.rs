use highlighter::reassemble::reassemble;
use highlighter::scanner::{find_code_blocks, Block};

fn block(start: usize, end: usize) -> Block {
    Block { start, end, language: Vec::new(), code: Vec::new() }
}

fn put_together(html: &str, blocks: &Vec<Block>, fragments: &[&str]) -> String {
    let fragments: Vec<Vec<u8>> = fragments.iter().map(|f| f.as_bytes().to_vec()).collect();
    assert_eq!(fragments.len(), blocks.len());
    String::from_utf8(reassemble(html.as_bytes(), blocks, &fragments)).unwrap()
}

#[test]
fn without_blocks_the_document_comes_back() {
    assert_eq!(put_together("<p>hi</p>", &Vec::new(), &[]), "<p>hi</p>");
    assert_eq!(put_together("", &Vec::new(), &[]), "");
}

#[test]
fn fragments_take_the_places_of_their_blocks() {
    let blocks = vec![block(2, 4), block(6, 9)];
    assert_eq!(put_together("0123456789", &blocks, &["AB", "C"]), "01AB45C9");
    assert_eq!(put_together("0123456789", &blocks, &["A long one", "-"]), "01A long one45-9");
}

#[test]
fn an_empty_fragment_keeps_its_block() {
    let blocks = vec![block(2, 4), block(6, 9)];
    assert_eq!(put_together("0123456789", &blocks, &["", "C"]), "012345C9");
    assert_eq!(put_together("0123456789", &blocks, &["AB", ""]), "01AB456789");
    assert_eq!(put_together("0123456789", &blocks, &["", ""]), "0123456789");
}

#[test]
fn blocks_may_touch_each_other_and_the_ends() {
    let blocks = vec![block(0, 3), block(3, 5), block(5, 10)];
    assert_eq!(put_together("0123456789", &blocks, &["a", "b", "c"]), "abc");
    assert_eq!(put_together("0123456789", &blocks, &["a", "", "c"]), "a34c");
    assert_eq!(put_together("0123456789", &vec![block(0, 10)], &["whole"]), "whole");
    assert_eq!(put_together("0123456789", &vec![block(0, 10)], &[""]), "0123456789");
}

#[test]
fn the_output_is_as_long_as_its_parts() {
    let html = "<p>a</p><pre><code>one</code></pre>-<pre><code class=\"language-x\">two</code></pre>.";
    let blocks = find_code_blocks(html.as_bytes());
    assert_eq!(blocks.len(), 2);
    let fragments = ["", "<pre>TWO</pre>"];
    let out = put_together(html, &blocks, &fragments);
    let outside = html.len() - blocks.iter().map(|b| b.end - b.start).sum::<usize>();
    assert_eq!(outside, "<p>a</p>".len() + "-".len() + ".".len());
    let kept = blocks[0].end - blocks[0].start;
    assert_eq!(out.len(), outside + kept + fragments[1].len());
    assert_eq!(out, "<p>a</p><pre><code>one</code></pre>-<pre>TWO</pre>.");
}

#[test]
fn the_parts_come_in_the_order_of_the_document() {
    let html = "a<pre><code>1</code></pre>b<pre><code>2</code></pre>c<pre><code>3</code></pre>d";
    let blocks = find_code_blocks(html.as_bytes());
    let out = put_together(html, &blocks, &["[one]", "[two]", "[three]"]);
    assert_eq!(out, "a[one]b[two]c[three]d");
}
