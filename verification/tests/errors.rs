use json2toml::pipeline::{convert_toml2json, convert_json2toml, ConvError};
use json2toml::lex::ParseKind;

fn t2j_err(input: &str) -> ConvError {
    convert_toml2json(&input.as_bytes().to_vec()).map(|_| ()).unwrap_err()
}

fn j2t_err(input: &str) -> ConvError {
    convert_json2toml(&input.as_bytes().to_vec()).map(|_| ()).unwrap_err()
}

fn kind_of(e: ConvError) -> ParseKind {
    match e {
        ConvError::Parse(p) => p.kind,
        _ => panic!("expected a parse rejection"),
    }
}

#[test]
fn duplicate_key_in_toml_is_rejected() {
    assert_eq!(kind_of(t2j_err("a = 1\na = 2\n")), ParseKind::DuplicateKey);
}

#[test]
fn duplicate_key_in_json_is_rejected() {
    assert_eq!(kind_of(j2t_err("{\"a\": 1, \"a\": 2}")), ParseKind::DuplicateKey);
}

#[test]
fn duplicate_section_is_rejected() {
    assert_eq!(kind_of(t2j_err("[a]\n[a]\n")), ParseKind::DuplicateKey);
}

#[test]
fn duplicate_key_in_inline_table_is_rejected() {
    assert_eq!(kind_of(t2j_err("p = { x = 1, x = 2 }\n")), ParseKind::DuplicateKey);
}

#[test]
fn section_under_scalar_is_rejected() {
    assert_eq!(kind_of(t2j_err("a = 1\n[a.b]\n")), ParseKind::DuplicateKey);
}

#[test]
fn oversized_toml_integer_is_rejected() {
    assert_eq!(kind_of(t2j_err("a = 99999999999999999999\n")), ParseKind::Number);
}

#[test]
fn leading_zero_is_rejected() {
    assert_eq!(kind_of(t2j_err("a = 042\n")), ParseKind::Number);
    assert_eq!(kind_of(j2t_err("{\"a\": 042}")), ParseKind::Number);
}

#[test]
fn malformed_datetime_is_rejected() {
    assert_eq!(kind_of(t2j_err("a = 1979-05-\n")), ParseKind::Datetime);
    assert_eq!(kind_of(t2j_err("a = 1979-05-27Tnoon\n")), ParseKind::Datetime);
}

#[test]
fn json_syntax_errors() {
    assert_eq!(kind_of(j2t_err("{\"a\": }")), ParseKind::Syntax);
    assert_eq!(kind_of(j2t_err("")), ParseKind::Syntax);
    assert_eq!(kind_of(j2t_err("{} {}")), ParseKind::Syntax);
    assert_eq!(kind_of(j2t_err("{\"a\": 1,}")), ParseKind::Syntax);
}

#[test]
fn toml_syntax_errors() {
    assert_eq!(kind_of(t2j_err("a = @\n")), ParseKind::Syntax);
    assert_eq!(kind_of(t2j_err("a 1\n")), ParseKind::Syntax);
    assert_eq!(kind_of(t2j_err("[a\n")), ParseKind::Syntax);
    assert_eq!(kind_of(t2j_err("a = 1 junk\n")), ParseKind::Syntax);
}

#[test]
fn unicode_escape_is_not_accepted() {
    assert_eq!(kind_of(j2t_err("{\"a\": \"\\u0041\"}")), ParseKind::Syntax);
}

#[test]
fn unterminated_string_is_rejected() {
    assert_eq!(kind_of(t2j_err("a = \"open\n")), ParseKind::Syntax);
}

#[test]
fn error_position_points_at_the_problem() {
    match t2j_err("a = @\n") {
        ConvError::Parse(p) => assert_eq!(p.pos, 4),
        _ => panic!("expected a parse rejection"),
    }
}

#[test]
fn positions_translate_to_line_and_column() {
    let text = b"a = 1\nb = @\n".to_vec();
    assert_eq!(json2toml::lex::line_col_at(&text, 10), (2, 5));
    assert_eq!(json2toml::lex::line_col_at(&text, 0), (1, 1));
    assert_eq!(json2toml::lex::line_col_at(&text, 5), (1, 6));
    assert_eq!(json2toml::lex::line_col_at(&text, 6), (2, 1));
}
