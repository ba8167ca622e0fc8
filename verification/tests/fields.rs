use botao::fields::{enum_fields, format_fields, format_fields_from_iter, format_fields_with, next_field, trim};

fn collect_fields(delim: u8, record: &str) -> Vec<String> {
    let mut iter = enum_fields(delim, record);
    let mut out = Vec::new();
    while let Some(field) = iter.next() {
        out.push(field.to_owned());
    }
    out
}

#[test]
fn test_next_field_comma() {
    let result = next_field(b',', "10, 20, 30");
    assert_eq!(result, ("10", " 20, 30"));
}

#[test]
fn test_next_field_no_delimiter() {
    assert_eq!(next_field(b',', "  42  "), ("42", ""));
    assert_eq!(next_field(b',', ""), ("", ""));
}

#[test]
fn test_enum_fields_comma() {
    assert_eq!(collect_fields(b',', "10, 20, 30"), vec!["10", "20", "30"]);
}

#[test]
fn test_enum_fields_spaces_collapse() {
    assert_eq!(
        collect_fields(b' ', "10 20  30   40 "),
        vec!["10", "20", "30", "40"]
    );
}

#[test]
fn test_enum_fields_step_by_step() {
    let mut iter = enum_fields(b',', "10, 20, 30");
    assert_eq!(iter.next(), Some("10"));
    assert_eq!(iter.next(), Some("20"));
    assert_eq!(iter.next(), Some("30"));
    assert_eq!(iter.next(), None);
}

#[test]
fn test_enum_fields_whitespace_only() {
    assert_eq!(collect_fields(b',', "     \n"), Vec::<String>::new());
    assert_eq!(collect_fields(b' ', "\t \n"), Vec::<String>::new());
}

#[test]
fn test_enum_fields_leading_delimiter() {
    assert_eq!(collect_fields(b',', ",\n"), vec![""]);
    assert_eq!(collect_fields(b',', "a,,b"), vec!["a", "", "b"]);
}

#[test]
fn test_trim_unicode_whitespace() {
    assert_eq!(trim("\u{a0}\u{3000} x y\u{2028} "), "x y");
    assert_eq!(trim("   "), "");
}

#[test]
fn test_format_fields() {
    assert_eq!(format_fields(b' ', &["abc", "de", "fgh"]), "abc de fgh");
    let none: [&str; 0] = [];
    assert_eq!(format_fields(b',', &none), "");
    assert_eq!(format_fields(b',', &["solo"]), "solo");
}

#[test]
fn test_format_fields_from_iter() {
    let mut buf = String::new();
    format_fields_from_iter(b' ', &["0", "1", "2", "3", "4"], &mut buf);
    assert_eq!(buf, "0 1 2 3 4");
    format_fields_from_iter(b',', &["x"], &mut buf);
    assert_eq!(buf, "0 1 2 3 4x");
}

#[test]
fn test_format_fields_with() {
    let a = [0u32, 1, 2, 3, 4];
    assert_eq!(format_fields_with(b' ', &a, u32::to_string), "0 1 2 3 4");
    assert_eq!(format_fields_with(b',', &a, u32::to_string), "0,1,2,3,4");
}
