use bws_render::json::{extract_path, to_json_text, JsonVal};
use bws_render::render::{adjust_replacement, render_with_payloads, replace_first};
use bws_render::scan::scan;

fn txt(s: &str) -> JsonVal {
    JsonVal::Text(s.as_bytes().to_vec())
}

fn num(s: &str) -> JsonVal {
    JsonVal::Num(s.as_bytes().to_vec())
}

fn obj(pairs: Vec<(&str, JsonVal)>) -> JsonVal {
    JsonVal::Obj(pairs.into_iter().map(|(k, v)| (k.as_bytes().to_vec(), v)).collect())
}

fn bytes(s: &str) -> Vec<u8> {
    s.as_bytes().to_vec()
}

#[test]
fn test_extract_path_dot() {
    let value = obj(vec![("a", obj(vec![("b", num("42"))]))]);
    let v = extract_path(&value, &bytes("a.b"));
    assert!(v.is_some());
    assert_eq!(v.unwrap(), &num("42"));
}

#[test]
fn test_extract_path_slash() {
    let value = obj(vec![("a", obj(vec![("b", txt("hello"))]))]);
    let v = extract_path(&value, &bytes("a/b"));
    assert!(v.is_some());
    assert_eq!(v.unwrap(), &txt("hello"));
}

#[test]
fn test_bws_regex_captures() {
    let phs = scan(&bytes("bws://minio_tf_volsync/secret_key"));
    assert_eq!(phs[0].key, bytes("minio_tf_volsync"));
    assert_eq!(phs[0].path.as_ref().unwrap(), &bytes("secret_key"));

    let phs2 = scan(&bytes("bws://simplekey"));
    assert_eq!(phs2[0].key, bytes("simplekey"));
    assert!(phs2[0].path.is_none());
}

#[test]
fn test_extract_path_missing_segment() {
    let value = obj(vec![("a", num("1"))]);
    assert!(extract_path(&value, &bytes("a.z")).is_none());
}

#[test]
fn test_scan_key_stops_before_non_path_char() {
    let phs = scan(&bytes("use bws://key more text"));
    assert_eq!(phs.len(), 1);
    assert_eq!(phs[0].key, bytes("key"));
    assert!(phs[0].path.is_none());
    assert_eq!(phs[0].raw, bytes("bws://key"));
}

#[test]
fn test_scan_spans_and_order() {
    let input = bytes("x bws://one y bws://two/a.b z");
    let phs = scan(&input);
    assert_eq!(phs.len(), 2);
    assert_eq!(phs[0].raw, bytes("bws://one"));
    assert_eq!(phs[0].start, 2);
    assert_eq!(phs[0].end, 11);
    assert_eq!(phs[1].raw, bytes("bws://two/a.b"));
    assert_eq!(phs[1].path.as_ref().unwrap(), &bytes("a.b"));
}

#[test]
fn test_render_without_placeholders_is_identity() {
    let input = bytes("no secrets here\njust text\n");
    let out = render_with_payloads(&input, vec![]);
    assert_eq!(out, input);
}

#[test]
fn test_render_multiline_indentation() {
    let input = bytes("top:\n    bws://k\nend");
    let payload = obj(vec![("k", txt("line1\nline2"))]);
    let out = render_with_payloads(&input, vec![Some(payload)]);
    assert_eq!(out, bytes("top:\n    line1\n    line2\nend"));
}

#[test]
fn test_render_duplicate_placeholders() {
    let input = bytes("a bws://k b bws://k c");
    let first = obj(vec![("k", txt("X"))]);
    let second = obj(vec![("k", txt("X"))]);
    let out = render_with_payloads(&input, vec![Some(first), Some(second)]);
    assert_eq!(out, bytes("a X b X c"));
}

#[test]
fn test_render_explicit_path_miss_left_untouched() {
    let input = bytes("x bws://k/missing.field y");
    let payload = obj(vec![("value", txt("{\"other\":\"x\"}"))]);
    let out = render_with_payloads(&input, vec![Some(payload)]);
    assert_eq!(out, input);
}

#[test]
fn test_render_implicit_miss_falls_back_to_whole_value() {
    let input = bytes("x bws://k y");
    let payload = obj(vec![("other", txt("x"))]);
    let out = render_with_payloads(&input, vec![Some(payload)]);
    assert_eq!(out, bytes("x {\"other\":\"x\"} y"));
}

#[test]
fn test_render_secret_not_found_left_untouched() {
    let input = bytes("x bws://k y");
    let out = render_with_payloads(&input, vec![None]);
    assert_eq!(out, input);
}

#[test]
fn test_render_inline_placeholder_no_indent() {
    let input = bytes("key: bws://k tail");
    let payload = obj(vec![("k", txt("a\nb"))]);
    let out = render_with_payloads(&input, vec![Some(payload)]);
    assert_eq!(out, bytes("key: a\nb tail"));
}

#[test]
fn test_render_self_keyed_subfield() {
    let input = bytes("pw=bws://db");
    let payload = obj(vec![("db", txt("s3cret"))]);
    let out = render_with_payloads(&input, vec![Some(payload)]);
    assert_eq!(out, bytes("pw=s3cret"));
}

#[test]
fn test_to_json_text_compact_and_escaped() {
    let v = obj(vec![
        ("s", txt("a\"b\\c\nd")),
        ("n", num("42")),
        ("b", JsonVal::Bool(true)),
        ("z", JsonVal::Null),
        ("arr", JsonVal::Arr(vec![num("1"), num("2")])),
    ]);
    let out = to_json_text(&v);
    assert_eq!(
        String::from_utf8(out).unwrap(),
        "{\"s\":\"a\\\"b\\\\c\\nd\",\"n\":42,\"b\":true,\"z\":null,\"arr\":[1,2]}"
    );
}

#[test]
fn test_replace_first_consumes_one_occurrence() {
    let out = replace_first(&bytes("one two one"), &bytes("one"), &bytes("1"));
    assert_eq!(out, bytes("1 two one"));
    let out2 = replace_first(&out, &bytes("one"), &bytes("1"));
    assert_eq!(out2, bytes("1 two 1"));
    let out3 = replace_first(&bytes("abc"), &bytes("zzz"), &bytes("1"));
    assert_eq!(out3, bytes("abc"));
}

#[test]
fn test_adjust_replacement_prefixes_indent() {
    let text = bytes("a:\n\t bws://k\nrest");
    let out = adjust_replacement(&text, 5, 12, bytes("p\nq"));
    assert_eq!(out, bytes("p\n\t q"));
}

#[test]
fn test_to_json_text_control_escapes() {
    let out = to_json_text(&txt("\u{1}\t\r\u{8}\u{c}"));
    assert_eq!(String::from_utf8(out).unwrap(), "\"\\u0001\\t\\r\\b\\f\"");
}

#[test]
fn test_scan_marker_without_key_not_matched() {
    assert_eq!(scan(&bytes("bws:// nothing")).len(), 0);
    assert_eq!(scan(&bytes("bws://")).len(), 0);
    assert_eq!(scan(&bytes("")).len(), 0);
}
