use musicboxd::text::{
    chars_of, decimal_string, format_duration, format_year, is_blank, is_whitespace, join_artists,
    url_encode_query,
};

#[test]
fn url_encode_leaves_plain_text() {
    assert_eq!(url_encode_query("radiohead"), "radiohead");
    assert_eq!(url_encode_query(""), "");
}

#[test]
fn url_encode_spaces_become_plus() {
    assert_eq!(url_encode_query("ok computer"), "ok+computer");
    assert_eq!(url_encode_query("  "), "++");
}

#[test]
fn url_encode_escapes_structural_characters() {
    assert_eq!(url_encode_query("%"), "%25");
    assert_eq!(url_encode_query("&"), "%26");
    assert_eq!(url_encode_query("#"), "%23");
    assert_eq!(url_encode_query("+"), "%2B");
    assert_eq!(url_encode_query("a+b c&d#e%f"), "a%2Bb+c%26d%23e%25f");
}

#[test]
fn url_encode_keeps_other_characters() {
    assert_eq!(url_encode_query("Björk/Sigur Rós?"), "Björk/Sigur+Rós?");
    assert_eq!(url_encode_query("%25"), "%2525");
}

#[test]
fn url_encode_distinct_queries_stay_distinct() {
    // "+" and " " would collide if "+" were left alone.
    assert_ne!(url_encode_query("a+b"), url_encode_query("a b"));
    assert_ne!(url_encode_query("%26"), url_encode_query("&"));
}

#[test]
fn url_encode_output_has_no_separator() {
    let out = url_encode_query("a & b # c");
    assert!(!out.contains('&') && !out.contains('#') && !out.contains(' '));
}

#[test]
fn format_duration_examples() {
    assert_eq!(format_duration(Some(215_000)), "3:35");
    assert_eq!(format_duration(Some(0)), "0:00");
    assert_eq!(format_duration(Some(999)), "0:00");
    assert_eq!(format_duration(Some(61_000)), "1:01");
    assert_eq!(format_duration(Some(600_000)), "10:00");
    assert_eq!(format_duration(Some(3_599_999)), "59:59");
    assert_eq!(format_duration(Some(3_600_000)), "60:00");
    assert_eq!(format_duration(Some(u32::MAX)), "71582:47");
}

#[test]
fn format_duration_unknown_is_empty() {
    assert_eq!(format_duration(None), "");
}

#[test]
fn format_year_examples() {
    assert_eq!(format_year(Some(1997)), "1997");
    assert_eq!(format_year(Some(0)), "0");
    assert_eq!(format_year(None), "????");
}

#[test]
fn decimal_string_matches_to_string() {
    for n in [0u32, 1, 9, 10, 11, 99, 100, 12345, 4_000_000_000, u32::MAX] {
        assert_eq!(decimal_string(n), n.to_string());
    }
}

#[test]
fn join_artists_examples() {
    assert_eq!(join_artists(&vec![]), "");
    assert_eq!(join_artists(&vec!["Daft Punk".to_string()]), "Daft Punk");
    assert_eq!(
        join_artists(&vec!["Simon".to_string(), "Garfunkel".to_string(), "Friends".to_string()]),
        "Simon, Garfunkel, Friends"
    );
    assert_eq!(join_artists(&vec![String::new(), String::new()]), ", ");
}

#[test]
fn whitespace_agrees_with_std_on_every_char() {
    for u in 0u32..=0x10FFFF {
        if let Some(c) = char::from_u32(u) {
            assert_eq!(is_whitespace(c), c.is_whitespace(), "at U+{u:04X}");
        }
    }
}

#[test]
fn blank_queries() {
    assert!(is_blank(""));
    assert!(is_blank("   "));
    assert!(is_blank("\t\n\u{3000}"));
    assert!(!is_blank(" a "));
    assert!(!is_blank("\u{200B}"));
    for s in ["", " x", "\u{a0}", "\u{a0}y", "zz "] {
        assert_eq!(is_blank(s), s.trim().is_empty());
    }
}

#[test]
fn chars_of_examples() {
    assert_eq!(chars_of("añb"), vec!['a', 'ñ', 'b']);
    assert!(chars_of("").is_empty());
}
