use highlighter::normalizer::{
    eq_ignore_ascii_case, leading_space, needs_php_tag, normalize, reverse,
    strip_leading_php_open_tag, to_lower, Reversal, ESCAPED_OPEN, OPEN_LINE, OPEN_MARKER, PHP,
};

fn strip(s: &str) -> String {
    String::from_utf8(strip_leading_php_open_tag(s.as_bytes())).unwrap()
}

#[test]
fn the_php_markers_are_what_they_are_called() {
    assert_eq!(&PHP, b"php");
    assert_eq!(&OPEN_MARKER, b"<?php");
    assert_eq!(&OPEN_LINE, b"<?php\n");
    assert_eq!(&ESCAPED_OPEN, b"&lt;?php");
}

#[test]
fn to_lower_changes_ascii_capitals_only() {
    assert_eq!(to_lower(b'A'), b'a');
    assert_eq!(to_lower(b'Z'), b'z');
    assert_eq!(to_lower(b'a'), b'a');
    assert_eq!(to_lower(b'@'), b'@');
    assert_eq!(to_lower(b'['), b'[');
    assert_eq!(to_lower(0xc9), 0xc9);
    for b in 0..=255u8 {
        assert_eq!(to_lower(b), b.to_ascii_lowercase());
    }
}

#[test]
fn eq_ignore_ascii_case_is_that_of_std() {
    assert!(eq_ignore_ascii_case(b"php", b"php"));
    assert!(eq_ignore_ascii_case(b"PhP", b"pHp"));
    assert!(eq_ignore_ascii_case(b"", b""));
    assert!(!eq_ignore_ascii_case(b"php", b"php5"));
    assert!(!eq_ignore_ascii_case(b"php", b"pho"));
    assert!(!eq_ignore_ascii_case(b"a@", b"a`"));
    assert!(!eq_ignore_ascii_case("É".as_bytes(), "é".as_bytes()));
}

#[test]
fn leading_space_counts_the_bytes_of_white_space() {
    assert_eq!(leading_space(b""), 0);
    assert_eq!(leading_space(b"x  "), 0);
    assert_eq!(leading_space(b" \t\r\n\x0b\x0cx "), 6);
    assert_eq!(leading_space(b"   "), 3);
    assert_eq!(leading_space("\u{a0}x".as_bytes()), 2);
    assert_eq!(leading_space("\u{85}\u{1680}\u{2000}\u{200a}x".as_bytes()), 11);
    assert_eq!(leading_space("\u{2028}\u{2029}\u{202f}\u{205f}\u{3000}".as_bytes()), 15);
    assert_eq!(leading_space("\u{200b}x".as_bytes()), 0);
    assert_eq!(leading_space("\u{1c}x".as_bytes()), 0);
    assert_eq!(leading_space(&[0xe2, 0x80]), 0);
    assert_eq!(leading_space(&[0xc2]), 0);
}

#[test]
fn leading_space_is_what_std_trims() {
    for c in (0..0x3100u32).filter_map(char::from_u32) {
        let s = format!("{}x", c);
        let trimmed = s.len() - s.trim_start().len();
        assert_eq!(leading_space(s.as_bytes()), trimmed);
    }
}

#[test]
fn php_without_the_marker_needs_it() {
    assert!(needs_php_tag(b"php", b"echo 1;"));
    assert!(needs_php_tag(b"PHP", b"echo 1;"));
    assert!(needs_php_tag(b"Php", b"  \n echo 1;"));
    assert!(needs_php_tag(b"php", b""));
    assert!(needs_php_tag(b"php", b"<"));
    assert!(needs_php_tag(b"php", b"x <?php"));
    assert!(needs_php_tag(b"php", b"< ?php"));
}

#[test]
fn php_with_another_opening_needs_the_marker() {
    assert!(needs_php_tag(b"php", b"<?= $x ?>"));
    assert!(needs_php_tag(b"php", b"<?= 1 ?>"));
    assert!(needs_php_tag(b"php", b"<?"));
    assert!(needs_php_tag(b"php", b"<?ph"));
    assert!(needs_php_tag(b"php", b"  <? echo 1;"));
    assert!(needs_php_tag(b"php", b"<?PHP echo 1;"));
    assert!(needs_php_tag(b"php", b"&lt;?php echo 1;"));
}

#[test]
fn php_with_the_marker_needs_none() {
    assert!(!needs_php_tag(b"php", b"<?php echo 1;"));
    assert!(!needs_php_tag(b"php", b"<?php"));
    assert!(!needs_php_tag(b"php", b"<?phpinfo();"));
    assert!(!needs_php_tag(b"php", b" \t\n<?php echo 1;"));
    assert!(!needs_php_tag(b"PHP", "\u{a0}\u{3000}<?php".as_bytes()));
}

#[test]
fn other_languages_need_no_marker() {
    assert!(!needs_php_tag(b"rust", b"echo 1;"));
    assert!(!needs_php_tag(b"", b"echo 1;"));
    assert!(!needs_php_tag(b"php5", b"echo 1;"));
    assert!(!needs_php_tag(b"ph", b"echo 1;"));
    assert!(!needs_php_tag(b"phtml", b"echo 1;"));
}

#[test]
fn the_escaped_marker_is_taken_out_with_its_blanks() {
    assert_eq!(strip("&lt;?php\necho"), "echo");
    assert_eq!(strip("<span>&lt;?php\n</span><span>echo</span>"), "<span></span><span>echo</span>");
    assert_eq!(strip("a&lt;?php \n\t\r \n b"), "ab");
    assert_eq!(strip("a&lt;?phpb"), "ab");
    assert_eq!(strip("a&lt;?php"), "a");
    assert_eq!(strip("&lt;?php   "), "");
}

#[test]
fn only_the_first_escaped_marker_is_taken_out() {
    assert_eq!(strip("a&lt;?php b&lt;?php c"), "ab&lt;?php c");
}

#[test]
fn other_white_space_behind_the_marker_stays() {
    assert_eq!(strip("&lt;?php\x0bx"), "\x0bx");
    assert_eq!(strip("&lt;?php\u{a0}x"), "\u{a0}x");
}

#[test]
fn text_without_the_escaped_marker_stays() {
    assert_eq!(strip(""), "");
    assert_eq!(strip("<?php echo"), "<?php echo");
    assert_eq!(strip("&lt;?ph p"), "&lt;?ph p");
    assert_eq!(strip("&lt;?PHP"), "&lt;?PHP");
}

#[test]
fn php_without_the_marker_is_given_one() {
    assert_eq!(
        normalize(b"php", b"echo 1;".to_vec()),
        (b"<?php\necho 1;".to_vec(), Reversal::StripOpenTag)
    );
    assert_eq!(normalize(b"PHP", b"".to_vec()), (b"<?php\n".to_vec(), Reversal::StripOpenTag));
    assert_eq!(
        normalize(b"pHp", b"\n\n$a;".to_vec()),
        (b"<?php\n\n\n$a;".to_vec(), Reversal::StripOpenTag)
    );
}

#[test]
fn php_with_another_opening_is_given_the_marker() {
    assert_eq!(
        normalize(b"php", b"<?= $x ?>".to_vec()),
        (b"<?php\n<?= $x ?>".to_vec(), Reversal::StripOpenTag)
    );
    assert_eq!(
        normalize(b"php", b"  <?= 1".to_vec()),
        (b"<?php\n  <?= 1".to_vec(), Reversal::StripOpenTag)
    );
}

#[test]
fn code_that_needs_no_marker_is_handed_on_as_it_is() {
    assert_eq!(
        normalize(b"php", b"<?php echo 1;".to_vec()),
        (b"<?php echo 1;".to_vec(), Reversal::Nothing)
    );
    assert_eq!(
        normalize(b"php", b"  <?php 1".to_vec()),
        (b"  <?php 1".to_vec(), Reversal::Nothing)
    );
    assert_eq!(normalize(b"rust", b"echo 1;".to_vec()), (b"echo 1;".to_vec(), Reversal::Nothing));
    assert_eq!(normalize(b"", b"echo 1;".to_vec()), (b"echo 1;".to_vec(), Reversal::Nothing));
}

#[test]
fn only_a_marker_that_was_given_is_taken_out() {
    let html = b"<span>&lt;?php\n</span>echo".to_vec();
    assert_eq!(reverse(&Reversal::Nothing, html.clone()), html);
    assert_eq!(reverse(&Reversal::StripOpenTag, html), b"<span></span>echo".to_vec());
    assert_eq!(reverse(&Reversal::StripOpenTag, b"plain".to_vec()), b"plain".to_vec());
    assert_eq!(reverse(&Reversal::StripOpenTag, Vec::new()), Vec::<u8>::new());
}
