use tiny_mappings::{
    parse_entries, parse_entry, parse_tiny, parse_tiny_bytes, Dialect, Entry, ErrorKind, JavaType,
    TinyError, TinyVersion,
};

fn strings(v: &[&str]) -> Vec<String> {
    v.iter().map(|s| s.to_string()).collect()
}

fn chars(s: &str) -> Vec<char> {
    s.chars().collect()
}

fn fail(kind: ErrorKind, line: usize) -> TinyError {
    TinyError { kind, line }
}

#[test]
fn class_record_with_two_namespaces() {
    let expected = TinyVersion::V1(
        vec![Entry::Class { names: strings(&["a", "b"]) }],
        strings(&["net", "minecraft"]),
    );
    assert_eq!(parse_tiny("v1\tnet\tminecraft\nCLASS\ta\tb\n", Dialect::Tab), Ok(expected));
    let expected = TinyVersion::V1(
        vec![Entry::Class { names: strings(&["a", "b"]) }],
        strings(&["net", "minecraft"]),
    );
    assert_eq!(parse_tiny("v1 net minecraft\nCLASS a b\n", Dialect::Whitespace), Ok(expected));
}

#[test]
fn field_record() {
    let r = parse_tiny("v1 net minecraft\nFIELD a I b c\n", Dialect::Whitespace);
    let expected = TinyVersion::V1(
        vec![Entry::Field { names: strings(&["b", "c"]), owner: "a".to_string(), class: JavaType::Int }],
        strings(&["net", "minecraft"]),
    );
    assert_eq!(r, Ok(expected));
}

#[test]
fn method_record() {
    let r = parse_tiny("v1\tnet\tminecraft\nMETHOD\ta\t(I[Ljava/lang/Object;)V\tb\tc\n", Dialect::Tab);
    let expected = TinyVersion::V1(
        vec![Entry::Method {
            names: strings(&["b", "c"]),
            owner: "a".to_string(),
            arguments: vec![
                JavaType::Int,
                JavaType::Array(1, Box::new(JavaType::Class("java/lang/Object".to_string()))),
            ],
            return_type: JavaType::Void,
        }],
        strings(&["net", "minecraft"]),
    );
    assert_eq!(r, Ok(expected));
}

#[test]
fn method_without_parameters() {
    let r = parse_entry(&chars("METHOD a ()Z b"), 1, Dialect::Whitespace);
    assert_eq!(
        r,
        Ok(Entry::Method {
            names: strings(&["b"]),
            owner: "a".to_string(),
            arguments: vec![],
            return_type: JavaType::Boolean,
        })
    );
}

#[test]
fn unknown_entry_aborts_parse() {
    let r = parse_tiny("v1 net minecraft\nCLASS a b\nWIDGET a b\nCLASS c d\n", Dialect::Whitespace);
    assert_eq!(r, Err(fail(ErrorKind::UnknownEntryType("WIDGET".to_string()), 3)));
}

#[test]
fn empty_input_fails() {
    assert_eq!(parse_tiny("", Dialect::Tab), Err(fail(ErrorKind::UnexpectedEof, 1)));
    assert_eq!(parse_tiny("", Dialect::Whitespace), Err(fail(ErrorKind::UnexpectedEof, 1)));
}

#[test]
fn header_errors() {
    assert_eq!(parse_tiny("v2\ta\n", Dialect::Tab), Err(fail(ErrorKind::InvalidVersion, 1)));
    assert_eq!(parse_tiny("v1\n", Dialect::Tab), Err(fail(ErrorKind::InvalidHeader, 1)));
    assert_eq!(parse_tiny("v1\ta\ta\n", Dialect::Tab), Err(fail(ErrorKind::InvalidHeader, 1)));
    assert_eq!(parse_tiny("v1 a b\n", Dialect::Tab), Err(fail(ErrorKind::InvalidHeader, 1)));
    assert_eq!(parse_tiny("\n", Dialect::Whitespace), Err(fail(ErrorKind::InvalidHeader, 1)));
}

#[test]
fn header_only_document() {
    assert_eq!(
        parse_tiny("v1\tx", Dialect::Tab),
        Ok(TinyVersion::V1(vec![], strings(&["x"])))
    );
}

#[test]
fn comments_are_trimmed() {
    let r = parse_tiny("v1 a\n#   some text  \n# \n", Dialect::Whitespace);
    assert_eq!(
        r,
        Ok(TinyVersion::V1(
            vec![Entry::Comment("some text".to_string()), Entry::Comment(String::new())],
            strings(&["a"])
        ))
    );
}

#[test]
fn record_field_counts() {
    assert_eq!(
        parse_tiny("v1 a b\nCLASS x\n", Dialect::Whitespace),
        Err(fail(ErrorKind::UnexpectedEof, 2))
    );
    assert_eq!(
        parse_tiny("v1 a b\nCLASS x y z\n", Dialect::Whitespace),
        Err(fail(ErrorKind::MalformedRecord, 2))
    );
    assert_eq!(
        parse_tiny("v1 a\nFIELD x\n", Dialect::Whitespace),
        Err(fail(ErrorKind::UnexpectedEof, 2))
    );
}

#[test]
fn tab_dialect_delimiters_are_strict() {
    assert_eq!(
        parse_tiny("v1\ta\tb\nCLASS\tx\t\ty\n", Dialect::Tab),
        Err(fail(ErrorKind::MalformedRecord, 2))
    );
    assert_eq!(
        parse_tiny("v1\ta\tb\nCLASS x y\n", Dialect::Tab),
        Err(fail(ErrorKind::MalformedRecord, 2))
    );
    assert_eq!(
        parse_tiny("v1\ta\tb\nCLASS\tx\ty\t\n", Dialect::Tab),
        Err(fail(ErrorKind::MalformedRecord, 2))
    );
}

#[test]
fn whitespace_dialect_accepts_runs() {
    let r = parse_tiny("v1  a \t b\nCLASS   x\ty  \n", Dialect::Whitespace);
    assert_eq!(
        r,
        Ok(TinyVersion::V1(vec![Entry::Class { names: strings(&["x", "y"]) }], strings(&["a", "b"])))
    );
}

#[test]
fn blank_record_line_is_malformed() {
    assert_eq!(
        parse_tiny("v1 a\n\nCLASS x\n", Dialect::Whitespace),
        Err(fail(ErrorKind::MalformedRecord, 2))
    );
}

#[test]
fn crlf_lines_and_missing_final_newline() {
    let r = parse_tiny("v1\ta\r\nCLASS\tx\r\nCLASS\ty", Dialect::Tab);
    assert_eq!(
        r,
        Ok(TinyVersion::V1(
            vec![Entry::Class { names: strings(&["x"]) }, Entry::Class { names: strings(&["y"]) }],
            strings(&["a"])
        ))
    );
}

#[test]
fn descriptor_errors_inside_records() {
    assert_eq!(
        parse_tiny("v1 a\nFIELD o [V f\n", Dialect::Whitespace),
        Err(fail(ErrorKind::VoidArray, 2))
    );
    assert_eq!(
        parse_tiny("v1 a\nFIELD o Q f\n", Dialect::Whitespace),
        Err(fail(ErrorKind::InvalidType, 2))
    );
    assert_eq!(
        parse_tiny("v1 a\nFIELD o II f\n", Dialect::Whitespace),
        Err(fail(ErrorKind::MalformedRecord, 2))
    );
    assert_eq!(
        parse_tiny("v1 a\nMETHOD o (I f\n", Dialect::Whitespace),
        Err(fail(ErrorKind::UnexpectedEof, 2))
    );
    assert_eq!(
        parse_tiny("v1 a\nMETHOD o I)V f\n", Dialect::Whitespace),
        Err(fail(ErrorKind::MalformedRecord, 2))
    );
    assert_eq!(
        parse_tiny("v1 a\nMETHOD o ()VI f\n", Dialect::Whitespace),
        Err(fail(ErrorKind::MalformedRecord, 2))
    );
}

#[test]
fn body_lines_alone() {
    let r = parse_entries("CLASS a b\nFIELD a J c d\n", 2, Dialect::Whitespace);
    assert_eq!(
        r,
        Ok(vec![
            Entry::Class { names: strings(&["a", "b"]) },
            Entry::Field { names: strings(&["c", "d"]), owner: "a".to_string(), class: JavaType::Long },
        ])
    );
    assert_eq!(
        parse_entries("CLASS a b\nOOPS\n", 2, Dialect::Whitespace),
        Err(fail(ErrorKind::UnknownEntryType("OOPS".to_string()), 2))
    );
}

#[test]
fn round_trip_in_both_dialects() {
    let tab_lines = [
        ("CLASS\ta\tb", "CLASS\ta\tb"),
        ("FIELD\ta\t[[Lx/Y;\tb\tc", "FIELD\ta\t[[Lx/Y;\tb\tc"),
        ("METHOD\ta\t(I[Ljava/lang/Object;)V\tb\tc", "METHOD\ta\t(I[Ljava/lang/Object;)V\tb\tc"),
        ("#  note \t", "#note"),
    ];
    for (line, canonical) in tab_lines {
        let first = parse_entry(&chars(line), 2, Dialect::Tab).unwrap();
        let again = parse_entry(&chars(canonical), 2, Dialect::Tab).unwrap();
        assert_eq!(first, again);
    }
    let ws_lines = [
        ("  CLASS   a\t b ", "CLASS a b"),
        ("FIELD a\tZ   b c", "FIELD a Z b c"),
        ("METHOD  a ()[D b  c", "METHOD a ()[D b c"),
    ];
    for (line, canonical) in ws_lines {
        let first = parse_entry(&chars(line), 2, Dialect::Whitespace).unwrap();
        let again = parse_entry(&chars(canonical), 2, Dialect::Whitespace).unwrap();
        assert_eq!(first, again);
    }
}

#[test]
fn bytes_input() {
    let r = parse_tiny_bytes(b"v1 a\nCLASS x\n", Dialect::Whitespace);
    assert_eq!(r, Ok(TinyVersion::V1(vec![Entry::Class { names: strings(&["x"]) }], strings(&["a"]))));
    let bad: &[u8] = &[b'v', b'1', b' ', 0xff, b'\n'];
    assert_eq!(parse_tiny_bytes(bad, Dialect::Whitespace), Err(fail(ErrorKind::EncodingError, 1)));
}

#[test]
fn unicode_names_are_kept() {
    let r = parse_tiny("v1 ñame\nCLASS é\n", Dialect::Whitespace);
    assert_eq!(r, Ok(TinyVersion::V1(vec![Entry::Class { names: strings(&["é"]) }], strings(&["ñame"]))));
}

#[test]
fn unknown_entry_in_tab_dialect() {
    let r = parse_tiny("v1\tnet\tminecraft\nWIDGET\ta b\n", Dialect::Tab);
    assert_eq!(r, Err(fail(ErrorKind::UnknownEntryType("WIDGET".to_string()), 2)));
    let r = parse_entry(&chars("WIDGET a\tb"), 2, Dialect::Tab);
    assert_eq!(r, Err(ErrorKind::UnknownEntryType("WIDGET".to_string())));
    let r = parse_entry(&chars("  WIDGET a b"), 2, Dialect::Whitespace);
    assert_eq!(r, Err(ErrorKind::UnknownEntryType("WIDGET".to_string())));
}

#[test]
fn unicode_whitespace_is_trimmed_from_comments() {
    let r = parse_entry(&chars("#\u{a0}x\u{3000}"), 1, Dialect::Tab);
    assert_eq!(r, Ok(Entry::Comment("x".to_string())));
}

#[test]
fn unicode_whitespace_separates_names() {
    let r = parse_tiny("v1 a\u{3000}b\nCLASS x\u{2003}y\n", Dialect::Whitespace);
    assert_eq!(
        r,
        Ok(TinyVersion::V1(vec![Entry::Class { names: strings(&["x", "y"]) }], strings(&["a", "b"])))
    );
    assert_eq!(
        parse_tiny("v1\ta\u{a0}b\n", Dialect::Tab),
        Err(fail(ErrorKind::InvalidHeader, 1))
    );
}

#[test]
fn records_clone_to_equal_values() {
    let r = parse_tiny("v1 a\nMETHOD o ([[Lx;J)V m\n", Dialect::Whitespace).unwrap();
    assert_eq!(r.clone(), r);
    let t = JavaType::Array(3, Box::new(JavaType::Class("q/R".to_string())));
    assert_eq!(t.clone(), t);
}

#[test]
fn body_round_trip_through_parse_entries() {
    let cases = [
        ("#\u{a0} a note\t", "# a note\n", Dialect::Tab),
        ("FIELD\tx\t[Ljava/lang/String;\ty\tz", "FIELD\tx\t[Ljava/lang/String;\ty\tz\n", Dialect::Tab),
        ("  METHOD x (JZ)[I  y z", "METHOD x (JZ)[I y z\n", Dialect::Whitespace),
        ("#", "# \n", Dialect::Whitespace),
    ];
    for (line, canonical, dialect) in cases {
        let e = parse_entry(&chars(line), 2, dialect).unwrap();
        assert_eq!(parse_entries(canonical, 2, dialect), Ok(vec![e.clone()]));
    }
}
