use highlighter::document::{highlight_html, highlight_text, highlight_with};
use highlighter::engine::Engine;
use highlighter::pipeline::highlight_block;
use highlighter::scanner::find_code_blocks;
use syntect::highlighting::ThemeSet;
use syntect::html::highlighted_html_for_string;
use syntect::parsing::SyntaxSet;

fn highlight(html: &str) -> String {
    String::from_utf8(highlight_html(html.as_bytes())).unwrap()
}

fn direct_with(syntaxes: &SyntaxSet, themes: &ThemeSet, token: &str, text: &str) -> String {
    let syntax = syntaxes
        .find_syntax_by_token(token)
        .unwrap_or_else(|| syntaxes.find_syntax_plain_text());
    highlighted_html_for_string(text, syntaxes, syntax, &themes.themes["InspiredGitHub"]).unwrap()
}

fn direct(token: &str, text: &str) -> String {
    direct_with(&SyntaxSet::load_defaults_newlines(), &ThemeSet::load_defaults(), token, text)
}

#[test]
fn a_document_without_blocks_is_untouched() {
    assert_eq!(highlight("<p>hi</p>"), "<p>hi</p>");
    assert_eq!(highlight(""), "");
    assert_eq!(highlight("<pre>only pre</pre> &amp; <code>only code</code>"), "<pre>only pre</pre> &amp; <code>only code</code>");
}

#[test]
fn bytes_that_are_no_text_come_back_without_blocks() {
    let html = vec![0xff, b'<', b'p', b'>', 0x80, 0xc3];
    assert_eq!(highlight_html(&html), html);
}

#[test]
fn a_block_without_language_is_kept() {
    let html = "<h1>t</h1>\n<pre><code>plain text</code></pre>\n<p>end</p>";
    assert_eq!(highlight(html), html);
    let two = "<pre><code>a &lt; b</code></pre><pre><code class=\"language-\">c</code></pre>";
    assert_eq!(highlight(two), two);
}

#[test]
fn an_unknown_language_is_rendered_as_plain_text_in_place() {
    let html = "<p>before</p><pre><code class=\"language-xyz\">&amp;foo</code></pre><p>after</p>";
    let out = highlight(html);
    assert_eq!(
        out,
        "<p>before</p><pre style=\"background-color:#ffffff;\">\n<span style=\"color:#323232;\">&amp;foo</span></pre>\n<p>after</p>"
    );
    assert_eq!(out, format!("<p>before</p>{}<p>after</p>", direct("txt", "&foo")));
    assert!(!out.contains("&amp;amp;"));
    assert!(!out.contains("<code"));
    assert!(!out.contains("language-xyz"));
}

#[test]
fn php_without_the_marker_shows_no_marker() {
    let out = highlight("<pre><code class=\"language-php\">echo 1;</code></pre>");
    assert_eq!(
        out,
        "<pre style=\"background-color:#ffffff;\">\n<span style=\"color:#323232;\"></span><span style=\"color:#62a35c;\">echo </span><span style=\"color:#0086b3;\">1</span><span style=\"color:#323232;\">;</span></pre>\n"
    );
    assert!(!out.contains("&lt;?php"));
    assert!(!out.contains("<?php"));
    assert_ne!(out, direct("php", "echo 1;"));
}

#[test]
fn two_blocks_and_an_unterminated_one_between() {
    let first = "<pre><code class=\"language-rust\">let x = 1;</code></pre>";
    let broken = "<pre><code class=\"language-oops>never closed";
    let third = "<pre><code>kept</code></pre>";
    let html = format!("<p>a</p>{}<p>b</p>{}<p>c</p>{}<p>d</p>", first, broken, third);
    let blocks = find_code_blocks(html.as_bytes());
    assert_eq!(blocks.len(), 2);
    assert_eq!(blocks[0].language, b"rust".to_vec());
    assert_eq!(blocks[1].language, b"".to_vec());
    let out = highlight(&html);
    assert_eq!(
        out,
        format!(
            "<p>a</p>{}<p>b</p>{}<p>c</p>{}<p>d</p>",
            direct("rust", "let x = 1;"),
            broken,
            third
        )
    );
}

#[test]
fn two_highlighted_blocks_and_an_unterminated_one() {
    let first = "<pre><code class=\"language-rust\">let x = 1;</code></pre>";
    let second = "<pre><code class=\"language-py\">x = 1</code></pre>";
    let broken = "<pre><code class=\"language-oops>never closed</code></pre>";
    let html = format!("<p>a</p>{}<p>b</p>{}<p>c</p>{}<p>d</p>", first, second, broken);
    let blocks = find_code_blocks(html.as_bytes());
    assert_eq!(blocks.len(), 2);
    let engine = Engine::load_defaults();
    let fragments: Vec<Vec<u8>> = blocks.iter().map(|b| highlight_block(&engine, b)).collect();
    assert_eq!(fragments.len(), 2);
    assert!(fragments.iter().all(|f| !f.is_empty()));
    let out = highlight(&html);
    assert_eq!(
        out,
        format!(
            "<p>a</p>{}<p>b</p>{}<p>c</p>{}<p>d</p>",
            direct("rust", "let x = 1;"),
            direct("py", "x = 1"),
            broken
        )
    );
    let rust_at = out.find(&direct("rust", "let x = 1;")).unwrap();
    let python_at = out.find(&direct("py", "x = 1")).unwrap();
    let broken_at = out.find(broken).unwrap();
    assert!(rust_at < python_at && python_at < broken_at);
}

#[test]
fn many_blocks_keep_their_places() {
    let languages = ["rust", "py", "js", "c", "php", "html", "json", "xyz", "", "rb", "go", "java"];
    let syntaxes = SyntaxSet::load_defaults_newlines();
    let themes = ThemeSet::load_defaults();
    let direct = |token: &str, text: &str| direct_with(&syntaxes, &themes, token, text);
    let mut html = String::new();
    let mut expected = String::new();
    for round in 0..4 {
        for (i, language) in languages.iter().enumerate() {
            let code = format!("x{} = {};", i, round);
            let gap = format!("<p>{}.{}</p>", round, i);
            html.push_str(&gap);
            expected.push_str(&gap);
            if language.is_empty() {
                let block = format!("<pre><code>{}</code></pre>", code);
                html.push_str(&block);
                expected.push_str(&block);
            } else {
                html.push_str(&format!("<pre><code class=\"language-{}\">{}</code></pre>", language, code));
                if *language == "php" {
                    expected.push_str(&direct("php", &format!("<?php\n{}", code)).replacen("&lt;?php\n", "", 1));
                } else {
                    expected.push_str(&direct(language, &code));
                }
            }
        }
    }
    html.push_str("<p>end</p>");
    expected.push_str("<p>end</p>");
    assert_eq!(highlight(&html), expected);
}

#[test]
fn a_loaded_engine_gives_the_same() {
    let engine = Engine::load_defaults();
    for html in [
        "<p>hi</p>",
        "<pre><code>plain text</code></pre>",
        "<pre><code class=\"language-xyz\">&amp;foo</code></pre>",
        "a<pre><code class=\"language-php\">echo 1;</code></pre>b<pre><code class=\"language-rs\">fn f() {}</code></pre>c",
    ] {
        assert_eq!(highlight_with(&engine, html.as_bytes()), highlight_html(html.as_bytes()));
    }
}

#[test]
fn a_block_that_is_no_text_is_kept() {
    let mut html = b"<p>a</p><pre><code class=\"language-rust\">let ".to_vec();
    html.push(0xff);
    html.extend_from_slice(b" = 1;</code></pre><pre><code class=\"language-rust\">x</code></pre>");
    let out = highlight_html(&html);
    let kept = html.len() - "<pre><code class=\"language-rust\">x</code></pre>".len();
    assert_eq!(&out[..kept], &html[..kept]);
    assert_eq!(&out[kept..], direct("rust", "x").as_bytes());
}

#[test]
fn text_beyond_ascii_is_kept_around_and_within_blocks() {
    let html = "<p>grüße</p><pre><code class=\"language-txt\">☃ &amp; ß</code></pre><p>日本語</p>";
    assert_eq!(
        highlight(html),
        "<p>grüße</p><pre style=\"background-color:#ffffff;\">\n<span style=\"color:#323232;\">☃ &amp; ß</span></pre>\n<p>日本語</p>"
    );
}

#[test]
fn bytes_that_are_no_text_are_refused() {
    assert_eq!(highlight_text(&[b'<', b'p', b'>', 0xff]), None);
    assert_eq!(highlight_text(&[0xc3]), None);
    assert_eq!(highlight_text(&[0xed, 0xa0, 0x80]), None);
    assert_eq!(highlight_text(b"<pre><code>\xff</code></pre>"), None);
}

#[test]
fn text_is_highlighted_as_a_whole() {
    assert_eq!(highlight_text(b"<p>hi</p>"), Some(b"<p>hi</p>".to_vec()));
    assert_eq!(highlight_text(b""), Some(Vec::new()));
    let html = "<p>é</p><pre><code class=\"language-rs\">let x;</code></pre>";
    assert_eq!(highlight_text(html.as_bytes()), Some(highlight_html(html.as_bytes())));
    assert_eq!(
        highlight_text(html.as_bytes()),
        Some(format!("<p>é</p>{}", direct("rs", "let x;")).into_bytes())
    );
}

#[test]
fn highlighting_twice_gives_the_same() {
    let html = "<pre><code class=\"language-rust\">fn f() -> u8 { 1 }</code></pre>\
                <pre><code class=\"language-php\">$a = 1;</code></pre>";
    let first = highlight_html(html.as_bytes());
    let second = highlight_html(html.as_bytes());
    assert_eq!(first, second);
    let one = Engine::load_defaults();
    let other = Engine::load_defaults();
    assert_eq!(highlight_with(&one, html.as_bytes()), first);
    assert_eq!(highlight_with(&other, html.as_bytes()), first);
}

#[test]
fn the_output_is_as_long_as_what_is_kept_and_what_is_made() {
    let engine = Engine::load_defaults();
    let html = "<p>a</p><pre><code>kept</code></pre>--<pre><code class=\"language-js\">let a;</code></pre>!";
    let blocks = find_code_blocks(html.as_bytes());
    assert_eq!(blocks.len(), 2);
    let outside = "<p>a</p>".len() + "--".len() + "!".len();
    let kept = blocks[0].end - blocks[0].start;
    let made = highlight_block(&engine, &blocks[1]).len();
    assert_eq!(highlight_block(&engine, &blocks[0]).len(), 0);
    assert_eq!(highlight_with(&engine, html.as_bytes()).len(), outside + kept + made);
}
