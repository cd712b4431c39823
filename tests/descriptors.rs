use tiny_mappings::{parse_java_type, parse_java_type_at, DescriptorError, ErrorKind, JavaType};

fn err(kind: ErrorKind, position: usize) -> Result<(JavaType, usize), DescriptorError> {
    Err(DescriptorError { kind, position })
}

#[test]
fn primitive_letters_parse_alone() {
    let cases = [
        ("V", JavaType::Void),
        ("C", JavaType::Char),
        ("B", JavaType::Byte),
        ("S", JavaType::Short),
        ("I", JavaType::Int),
        ("J", JavaType::Long),
        ("Z", JavaType::Boolean),
        ("F", JavaType::Float),
        ("D", JavaType::Double),
    ];
    for (text, expected) in cases {
        assert_eq!(parse_java_type(text), Ok((expected, 1)));
    }
}

#[test]
fn class_reference_consumes_whole_input() {
    assert_eq!(
        parse_java_type("Ljava/lang/String;"),
        Ok((JavaType::Class("java/lang/String".to_string()), 18))
    );
}

#[test]
fn two_dimensional_int_array() {
    assert_eq!(
        parse_java_type("[[I"),
        Ok((JavaType::Array(2, Box::new(JavaType::Int)), 3))
    );
}

#[test]
fn void_array_is_rejected() {
    assert_eq!(parse_java_type("[V"), err(ErrorKind::VoidArray, 1));
    assert_eq!(parse_java_type("[[[V"), err(ErrorKind::VoidArray, 3));
}

#[test]
fn invalid_letter_is_not_consumed() {
    assert_eq!(parse_java_type("Q"), err(ErrorKind::InvalidType, 0));
    assert_eq!(parse_java_type("[Q"), err(ErrorKind::InvalidType, 1));
}

#[test]
fn empty_descriptor_is_eof() {
    assert_eq!(parse_java_type(""), err(ErrorKind::UnexpectedEof, 0));
    assert_eq!(parse_java_type("[["), err(ErrorKind::UnexpectedEof, 2));
}

#[test]
fn unterminated_class_is_eof() {
    assert_eq!(parse_java_type("Ljava/lang/String"), err(ErrorKind::UnexpectedEof, 17));
}

#[test]
fn empty_class_name_is_invalid() {
    assert_eq!(parse_java_type("L;"), err(ErrorKind::InvalidType, 1));
}

#[test]
fn array_of_class() {
    assert_eq!(
        parse_java_type("[Ljava/lang/Object;"),
        Ok((JavaType::Array(1, Box::new(JavaType::Class("java/lang/Object".to_string()))), 19))
    );
}

#[test]
fn array_element_kinds_stay_distinct() {
    assert_eq!(parse_java_type("[B"), Ok((JavaType::Array(1, Box::new(JavaType::Byte)), 2)));
    assert_eq!(parse_java_type("[C"), Ok((JavaType::Array(1, Box::new(JavaType::Char)), 2)));
    assert_ne!(parse_java_type("[B"), parse_java_type("[C"));
}

#[test]
fn descriptor_stops_after_one_type() {
    assert_eq!(parse_java_type("IJ"), Ok((JavaType::Int, 1)));
    assert_eq!(
        parse_java_type("La;b;"),
        Ok((JavaType::Class("a".to_string()), 3))
    );
}

#[test]
fn descriptors_back_to_back() {
    let s: Vec<char> = "I[JLx;Z".chars().collect();
    let (a, p) = parse_java_type_at(&s, 0).unwrap();
    let (b, q) = parse_java_type_at(&s, p).unwrap();
    let (c, r) = parse_java_type_at(&s, q).unwrap();
    let (d, t) = parse_java_type_at(&s, r).unwrap();
    assert_eq!(a, JavaType::Int);
    assert_eq!(b, JavaType::Array(1, Box::new(JavaType::Long)));
    assert_eq!(c, JavaType::Class("x".to_string()));
    assert_eq!(d, JavaType::Boolean);
    assert_eq!(t, 7);
    assert_eq!(parse_java_type_at(&s, 7), err(ErrorKind::UnexpectedEof, 7));
}
