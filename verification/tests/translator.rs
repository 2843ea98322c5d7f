use lalrpop_lsp::position::{build_line_starts, to_offset, to_position};

fn text() -> Vec<u8> {
    b"grammar;\nExpr = A;\nB;\n".to_vec()
}

#[test]
fn line_starts_of_simple_text() {
    let ls = build_line_starts(&text());
    assert_eq!(ls, vec![0, 9, 19, 22]);
}

#[test]
fn line_starts_of_empty_text() {
    let ls = build_line_starts(&Vec::new());
    assert_eq!(ls, vec![0]);
}

#[test]
fn to_position_finds_line_and_column() {
    let t = text();
    let ls = build_line_starts(&t);
    let p = to_position(&t, &ls, 0);
    assert_eq!((p.line, p.col), (0, 0));
    let p = to_position(&t, &ls, 9);
    assert_eq!((p.line, p.col), (1, 0));
    let p = to_position(&t, &ls, 13);
    assert_eq!((p.line, p.col), (1, 4));
    let p = to_position(&t, &ls, 21);
    assert_eq!((p.line, p.col), (2, 2));
}

#[test]
fn to_offset_inverts_to_position() {
    let t = text();
    let ls = build_line_starts(&t);
    for o in 0..=t.len() {
        let p = to_position(&t, &ls, o);
        assert_eq!(to_offset(&t, &ls, p.line, p.col), Some(o));
    }
}

#[test]
fn to_offset_rejects_stale_positions() {
    let t = text();
    let ls = build_line_starts(&t);
    assert_eq!(to_offset(&t, &ls, 7, 0), None);
    assert_eq!(to_offset(&t, &ls, 0, 100), None);
    assert_eq!(to_offset(&t, &ls, 1, 3), Some(12));
}

#[test]
fn columns_count_utf16_units_not_bytes() {
    // One two-byte character, one three-byte character, then an ASCII name:
    // "é\u{20AC} = x;\n" — é is two UTF-8 bytes, € three, each one UTF-16 unit.
    let t = "\u{e9}\u{20ac} = x;\n".as_bytes().to_vec();
    let ls = build_line_starts(&t);
    let p = to_position(&t, &ls, 2);
    assert_eq!((p.line, p.col), (0, 1));
    let p = to_position(&t, &ls, 5);
    assert_eq!((p.line, p.col), (0, 2));
    assert_eq!(to_offset(&t, &ls, 0, 1), Some(2));
    assert_eq!(to_offset(&t, &ls, 0, 2), Some(5));
    assert_eq!(to_offset(&t, &ls, 0, 3), Some(6));
}

#[test]
fn supplementary_characters_take_a_surrogate_pair() {
    // "\u{10000} = x;\n" — the first character is four UTF-8 bytes and two
    // UTF-16 units; column 1 falls between the halves of its surrogate
    // pair and names no offset.
    let t = "\u{10000} = x;\n".as_bytes().to_vec();
    let ls = build_line_starts(&t);
    let p = to_position(&t, &ls, 4);
    assert_eq!((p.line, p.col), (0, 2));
    assert_eq!(to_offset(&t, &ls, 0, 0), Some(0));
    assert_eq!(to_offset(&t, &ls, 0, 1), None);
    assert_eq!(to_offset(&t, &ls, 0, 2), Some(4));
}

#[test]
fn round_trip_holds_on_multi_byte_character_boundaries() {
    let text = "a\u{e9}\u{10000}b\nc\u{20ac}d\n";
    let t = text.as_bytes().to_vec();
    let ls = build_line_starts(&t);
    for (o, _) in text.char_indices() {
        let p = to_position(&t, &ls, o);
        assert_eq!(to_offset(&t, &ls, p.line, p.col), Some(o));
    }
    let p = to_position(&t, &ls, t.len());
    assert_eq!(to_offset(&t, &ls, p.line, p.col), Some(t.len()));
}
