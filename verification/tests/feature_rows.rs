use webfuzzy::feature_rows::{
    content_type_column, features_to_rows, length_pairs, parse_content_types, payload_len,
    TypeColumn,
};
use webfuzzy::http_client::ResponseFeatures;

fn feature(content_type: &str, payload: Option<&str>) -> ResponseFeatures {
    ResponseFeatures {
        status_code: 200,
        content_type: content_type.to_string(),
        response_length: 1000,
        time_to_first_byte_ms: 12,
        response_words: 34,
        response_lines: 5,
        content_length_minus_payload: 0,
        payload: payload.map(|p| p.to_string()),
    }
}

#[test]
fn content_types_are_listed_one_per_line() {
    assert_eq!(
        parse_content_types(b"text/html\r\n\napplication/json"),
        vec!["text/html".to_string(), "application/json".to_string()]
    );
    assert_eq!(parse_content_types(&[b'a', 0xff]), vec!["a\u{fffd}".to_string()]);
}

#[test]
fn parameters_are_ignored_and_case_is_not() {
    let types = parse_content_types(b"text/html\napplication/json\ntext/html\n");
    assert_eq!(content_type_column(&types, "text/html"), TypeColumn::Listed(0));
    assert_eq!(
        content_type_column(&types, "text/html; charset=utf-8"),
        TypeColumn::Listed(0)
    );
    assert_eq!(content_type_column(&types, "application/json ;a;b"), TypeColumn::Listed(1));
    assert_eq!(content_type_column(&types, "Text/HTML"), TypeColumn::Unlisted);
    assert_eq!(content_type_column(&types, ";"), TypeColumn::Unlisted);
    assert_eq!(content_type_column(&types, ""), TypeColumn::Missing);
    assert_eq!(content_type_column(&[], "text/html"), TypeColumn::Unlisted);
}

#[test]
fn rows_are_laid_out_in_columns() {
    let types = parse_content_types(b"text/html\napplication/json");
    let features = vec![feature("application/json", None), feature("", Some("é'"))];
    let rows = features_to_rows(&features, &[1, 0], true, false, &types);
    assert_eq!(
        rows,
        vec![vec![1000, 12, 34, 5, 0, 0, 1, 0], vec![1000, 12, 34, 5, 0, 1, 0, 0]]
    );
    // without timing, and with reflection
    let rows = features_to_rows(&features, &[0], false, true, &types);
    assert_eq!(rows, vec![vec![1000, 0, 0, 0, 1, 0, 0]]);
    // each row marks one content type
    for row in features_to_rows(&features, &[0, 1], false, false, &types) {
        assert_eq!(row[3..].iter().sum::<u64>(), 1);
    }
}

#[test]
fn lengths_are_paired() {
    let features = vec![feature("", None), feature("", Some("é'"))];
    assert_eq!(payload_len(&features[0]), 0);
    assert_eq!(payload_len(&features[1]), 3);
    assert_eq!(length_pairs(&features, &[1, 0]), vec![(3, 1000), (0, 1000)]);
}
