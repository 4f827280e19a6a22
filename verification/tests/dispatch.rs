use json2toml::dispatch::{convert_for_path, FileOutcome};
use json2toml::pipeline::ConvError;
use json2toml::value::{Value, DtKind};
use json2toml::convert::{map_a_to_b, map_b_to_a};

fn run(path: &str, content: &str) -> FileOutcome {
    convert_for_path(&path.as_bytes().to_vec(), &content.as_bytes().to_vec())
}

#[test]
fn unknown_extension_is_skipped() {
    assert!(matches!(run("file.txt", "anything"), FileOutcome::Skip));
}

#[test]
fn missing_extension_is_an_error() {
    assert!(matches!(run("file", "a = 1\n"), FileOutcome::NoExtension));
    assert!(matches!(run(".hidden", "a = 1\n"), FileOutcome::NoExtension));
    assert!(matches!(run("dir.d/file", "a = 1\n"), FileOutcome::NoExtension));
}

#[test]
fn toml_file_produces_json_sibling() {
    match run("conf.toml", "a = 1\n") {
        FileOutcome::Produce { path, data } => {
            assert_eq!(path, b"conf.json".to_vec());
            assert_eq!(data, b"{\n  \"a\": 1\n}".to_vec());
        },
        _ => panic!("expected a produced file"),
    }
}

#[test]
fn json_file_produces_toml_sibling() {
    match run("data/conf.json", "{\"a\": 1}") {
        FileOutcome::Produce { path, data } => {
            assert_eq!(path, b"data/conf.toml".to_vec());
            assert_eq!(data, b"a = 1\n".to_vec());
        },
        _ => panic!("expected a produced file"),
    }
}

#[test]
fn failed_conversion_is_reported() {
    assert!(matches!(
        run("x.json", "{\"a\": null}"),
        FileOutcome::Fail(ConvError::Unsupported(_))
    ));
    assert!(matches!(
        run("x.toml", "a =\n"),
        FileOutcome::Fail(ConvError::Parse(_))
    ));
}

#[test]
fn mapper_turns_datetime_into_string() {
    let v = Value::DateTime(DtKind::Offset, b"1979-05-27T07:32:00Z".to_vec());
    match map_a_to_b(&v) {
        Value::Str(t) => assert_eq!(t, b"1979-05-27T07:32:00Z".to_vec()),
        _ => panic!("expected a string"),
    }
}

#[test]
fn mapper_passes_plain_values_through() {
    match map_b_to_a(&Value::Int(7)) {
        Ok(Value::Int(7)) => {},
        _ => panic!("expected the value unchanged"),
    }
}

#[test]
fn mapper_rejects_a_bare_null() {
    match map_b_to_a(&Value::Null) {
        Err(u) => assert_eq!(u.path, Vec::<Vec<u8>>::new()),
        _ => panic!("expected a rejection"),
    }
}
