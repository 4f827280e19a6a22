use json2toml::pipeline::{convert_toml2json, convert_json2toml, ConvError};

fn t2j(input: &str) -> Result<String, ConvError> {
    convert_toml2json(&input.as_bytes().to_vec()).map(|o| String::from_utf8(o).unwrap())
}

fn j2t(input: &str) -> Result<String, ConvError> {
    convert_json2toml(&input.as_bytes().to_vec()).map(|o| String::from_utf8(o).unwrap())
}

#[test]
fn scalar_table_to_json() {
    assert_eq!(t2j("a = 1\nb = \"x\"\n").unwrap(), "{\n  \"a\": 1,\n  \"b\": \"x\"\n}");
}

#[test]
fn array_to_toml() {
    assert_eq!(j2t("{\"a\": [1, 2.5, \"s\"]}").unwrap(), "a = [1, 2.5, \"s\"]\n");
}

#[test]
fn int_and_float_stay_distinct_to_json() {
    assert_eq!(t2j("i = 42\nf = 42.0\n").unwrap(), "{\n  \"i\": 42,\n  \"f\": 42.0\n}");
}

#[test]
fn int_and_float_stay_distinct_to_toml() {
    assert_eq!(j2t("{\"i\": 42, \"f\": 42.0}").unwrap(), "i = 42\nf = 42.0\n");
}

#[test]
fn datetime_becomes_string() {
    assert_eq!(
        t2j("d = 1979-05-27T07:32:00Z\n").unwrap(),
        "{\n  \"d\": \"1979-05-27T07:32:00Z\"\n}"
    );
}

#[test]
fn datetime_string_is_not_reinferred() {
    let json = t2j("d = 1979-05-27T07:32:00Z\n").unwrap();
    assert_eq!(j2t(&json).unwrap(), "d = \"1979-05-27T07:32:00Z\"\n");
}

#[test]
fn all_datetime_shapes_become_strings() {
    assert_eq!(
        t2j("a = 1979-05-27\nb = 07:32:00\nc = 1979-05-27T07:32:00\nd = 07:32:00.999\n")
            .unwrap(),
        "{\n  \"a\": \"1979-05-27\",\n  \"b\": \"07:32:00\",\n  \"c\": \"1979-05-27T07:32:00\",\n  \"d\": \"07:32:00.999\"\n}"
    );
}

#[test]
fn round_trip_reproduces_document() {
    let toml = "a = 1\nb = \"x\"\n[t]\nc = true\nd = -3\n";
    let json = t2j(toml).unwrap();
    assert_eq!(j2t(&json).unwrap(), toml);
}

#[test]
fn null_is_rejected_with_key_path() {
    let e = j2t("{\"table\": {\"key\": null}}").unwrap_err();
    match e {
        ConvError::Unsupported(u) => {
            assert_eq!(u.path, vec![b"table".to_vec(), b"key".to_vec()]);
        },
        _ => panic!("expected an unsupported-value rejection"),
    }
}

#[test]
fn null_in_array_names_the_index() {
    let e = j2t("{\"a\": [1, null]}").unwrap_err();
    match e {
        ConvError::Unsupported(u) => {
            assert_eq!(u.path, vec![b"a".to_vec(), b"1".to_vec()]);
        },
        _ => panic!("expected an unsupported-value rejection"),
    }
}

#[test]
fn root_array_cannot_become_toml() {
    let e = j2t("[1, 2]").unwrap_err();
    assert!(matches!(e, ConvError::NotATable));
}

#[test]
fn nested_sections_to_json() {
    assert_eq!(
        t2j("[a.b]\nc = 1\n").unwrap(),
        "{\n  \"a\": {\n    \"b\": {\n      \"c\": 1\n    }\n  }\n}"
    );
}

#[test]
fn nested_object_to_sections() {
    assert_eq!(j2t("{\"a\": {\"b\": {\"c\": 1}}}").unwrap(), "[a]\n[a.b]\nc = 1\n");
}

#[test]
fn inline_table_and_array_to_json() {
    assert_eq!(
        t2j("p = { x = 1, y = [1, 2] }\n").unwrap(),
        "{\n  \"p\": {\n    \"x\": 1,\n    \"y\": [\n      1,\n      2\n    ]\n  }\n}"
    );
}

#[test]
fn table_inside_array_stays_inline() {
    assert_eq!(j2t("{\"a\": [{\"x\": 1}]}").unwrap(), "a = [{ x = 1 }]\n");
}

#[test]
fn string_escapes_round_trip() {
    assert_eq!(
        t2j("s = \"a\\\"b\\nc\\\\d\"\n").unwrap(),
        "{\n  \"s\": \"a\\\"b\\nc\\\\d\"\n}"
    );
    assert_eq!(j2t("{\"s\": \"a\\\"b\\nc\\\\d\"}").unwrap(), "s = \"a\\\"b\\nc\\\\d\"\n");
}

#[test]
fn quoted_keys_survive() {
    assert_eq!(j2t("{\"two words\": 1}").unwrap(), "\"two words\" = 1\n");
    assert_eq!(t2j("\"two words\" = 1\n").unwrap(), "{\n  \"two words\": 1\n}");
}

#[test]
fn empty_documents() {
    assert_eq!(t2j("").unwrap(), "{}");
    assert_eq!(t2j("# only a comment\n").unwrap(), "{}");
    assert_eq!(j2t("{}").unwrap(), "");
}

#[test]
fn extreme_integers() {
    assert_eq!(
        t2j("a = -9223372036854775808\nb = 9223372036854775807\n").unwrap(),
        "{\n  \"a\": -9223372036854775808,\n  \"b\": 9223372036854775807\n}"
    );
}

#[test]
fn big_json_integer_becomes_float_literal() {
    assert_eq!(j2t("{\"a\": 99999999999999999999}").unwrap(), "a = 99999999999999999999\n");
}

#[test]
fn comments_and_blank_lines_are_ignored() {
    assert_eq!(
        t2j("# header\n\na = 1 # trailing\n\n# footer\n").unwrap(),
        "{\n  \"a\": 1\n}"
    );
}

#[test]
fn empty_array_and_table() {
    assert_eq!(t2j("a = []\nb = {}\n").unwrap(), "{\n  \"a\": [],\n  \"b\": {}\n}");
    assert_eq!(j2t("{\"a\": [], \"b\": {}}").unwrap(), "a = []\n[b]\n");
}

#[test]
fn key_order_is_preserved() {
    assert_eq!(
        t2j("z = 1\na = 2\nm = 3\n").unwrap(),
        "{\n  \"z\": 1,\n  \"a\": 2,\n  \"m\": 3\n}"
    );
}

#[test]
fn negative_offset_datetime_becomes_string() {
    assert_eq!(
        t2j("d = 1979-05-27T00:32:00-07:00\n").unwrap(),
        "{\n  \"d\": \"1979-05-27T00:32:00-07:00\"\n}"
    );
}

#[test]
fn exponent_floats_keep_their_spelling() {
    assert_eq!(t2j("a = 1e5\nb = -2.5E-3\n").unwrap(), "{\n  \"a\": 1e5,\n  \"b\": -2.5E-3\n}");
    assert_eq!(j2t("{\"a\": 1e5}").unwrap(), "a = 1e5\n");
}

#[test]
fn crlf_line_endings_are_accepted() {
    assert_eq!(t2j("a = 1\r\nb = 2\r\n").unwrap(), "{\n  \"a\": 1,\n  \"b\": 2\n}");
}

#[test]
fn multibyte_text_passes_through() {
    assert_eq!(
        t2j("s = \"caf\u{e9} \u{2713}\"\n").unwrap(),
        "{\n  \"s\": \"caf\u{e9} \u{2713}\"\n}"
    );
    assert_eq!(j2t("{\"s\": \"caf\u{e9}\"}").unwrap(), "s = \"caf\u{e9}\"\n");
}

#[test]
fn control_bytes_are_escaped_on_output() {
    assert_eq!(j2t("{\"s\": \"a\\fb\\bc\"}").unwrap(), "s = \"a\\fb\\bc\"\n");
}
