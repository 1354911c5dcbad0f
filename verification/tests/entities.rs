use highlighter::entities::{
    decode_html_entities, replace_all, AMP, APOS, ENTITY_AMP, ENTITY_APOS, ENTITY_APOS_HEX,
    ENTITY_GT, ENTITY_LT, ENTITY_QUOT, GT, LT, QUOT,
};

fn decode(s: &str) -> String {
    String::from_utf8(decode_html_entities(s.as_bytes())).unwrap()
}

fn encode(s: &str) -> String {
    s.replace('&', "&amp;")
        .replace('<', "&lt;")
        .replace('>', "&gt;")
        .replace('"', "&quot;")
        .replace('\'', "&#39;")
}

#[test]
fn the_references_are_what_they_are_called() {
    assert_eq!(&ENTITY_AMP, b"&amp;");
    assert_eq!(&ENTITY_LT, b"&lt;");
    assert_eq!(&ENTITY_GT, b"&gt;");
    assert_eq!(&ENTITY_QUOT, b"&quot;");
    assert_eq!(&ENTITY_APOS, b"&#39;");
    assert_eq!(&ENTITY_APOS_HEX, b"&#x27;");
    assert_eq!(&AMP, b"&");
    assert_eq!(&LT, b"<");
    assert_eq!(&GT, b">");
    assert_eq!(&QUOT, b"\"");
    assert_eq!(&APOS, b"'");
}

#[test]
fn replace_all_replaces_from_left_to_right() {
    assert_eq!(replace_all(b"a-b-c", b"-", b"+"), b"a+b+c".to_vec());
    assert_eq!(replace_all(b"aaa", b"aa", b"b"), b"ba".to_vec());
    assert_eq!(replace_all(b"aaaa", b"aa", b"b"), b"bb".to_vec());
    assert_eq!(replace_all(b"abc", b"abc", b""), b"".to_vec());
    assert_eq!(replace_all(b"abc", b"x", b"y"), b"abc".to_vec());
    assert_eq!(replace_all(b"", b"x", b"y"), b"".to_vec());
    assert_eq!(replace_all(b"ab", b"abc", b"y"), b"ab".to_vec());
    assert_eq!(replace_all(b"xx", b"x", b"xx"), b"xxxx".to_vec());
}

#[test]
fn replace_all_with_an_empty_pattern_changes_nothing() {
    assert_eq!(replace_all(b"abc", b"", b"-"), b"abc".to_vec());
    assert_eq!(replace_all(b"", b"", b"-"), b"".to_vec());
}

#[test]
fn each_reference_is_decoded() {
    assert_eq!(decode("&amp;"), "&");
    assert_eq!(decode("&lt;"), "<");
    assert_eq!(decode("&gt;"), ">");
    assert_eq!(decode("&quot;"), "\"");
    assert_eq!(decode("&#39;"), "'");
    assert_eq!(decode("&#x27;"), "'");
    assert_eq!(
        decode("if (a &lt; b &amp;&amp; c &gt; d) { s = &quot;x&quot; + &#39;y&#39; + &#x27;z&#x27;; }"),
        "if (a < b && c > d) { s = \"x\" + 'y' + 'z'; }"
    );
}

#[test]
fn text_without_references_stays() {
    assert_eq!(decode(""), "");
    assert_eq!(decode("plain text"), "plain text");
    assert_eq!(decode("a & b ; c"), "a & b ; c");
    assert_eq!(decode("grüße"), "grüße");
}

#[test]
fn other_references_stay() {
    assert_eq!(decode("&nbsp;&copy;&#34;&#x3C;&apos;"), "&nbsp;&copy;&#34;&#x3C;&apos;");
    assert_eq!(decode("&LT;&Amp;"), "&LT;&Amp;");
    assert_eq!(decode("&lt"), "&lt");
    assert_eq!(decode("&#X27;"), "&#X27;");
}

#[test]
fn ampersand_is_decoded_first() {
    assert_eq!(decode("&amp;lt;"), "<");
    assert_eq!(decode("&amp;amp;"), "&amp;");
    assert_eq!(decode("&amp;#39;"), "'");
    assert_eq!(decode("&amp;quot;"), "\"");
    assert_eq!(decode("&amp;amp;lt;"), "&amp;lt;");
}

#[test]
fn decoding_undoes_encoding() {
    for raw in [
        "",
        "plain",
        "a < b && c > d",
        "\"quoted\" and 'single'",
        "&amp; stays an ampersand reference",
        "&&&<<<>>>\"\"\"'''",
        "&amp;lt; is no reference itself",
        "& lt; &l t; &#3 9;",
    ] {
        let encoded = encode(raw);
        assert_eq!(decode(&encoded), raw);
        assert_eq!(encode(&decode(&encoded)), encoded);
    }
}

#[test]
fn encoded_text_is_what_the_references_say() {
    assert_eq!(encode("a < b && c > d"), "a &lt; b &amp;&amp; c &gt; d");
    assert_eq!(encode("\"x\" 'y'"), "&quot;x&quot; &#39;y&#39;");
}

#[test]
fn a_reference_in_the_text_does_not_come_back() {
    let raw = "&lt;";
    let encoded = encode(raw);
    assert_eq!(encoded, "&amp;lt;");
    assert_eq!(decode(&encoded), "<");
    assert_ne!(encode(&decode(&encoded)), encoded);
}
