use bws_render::json::{extract_path, JsonVal};
use bws_render::models::{find_by_key, ListItem, ListResponse};
use bws_render::resolve::{extract_display_field, normalize, normalize_response, parse_inner_value};

fn txt(s: &str) -> JsonVal {
    JsonVal::Text(s.as_bytes().to_vec())
}

fn num(s: &str) -> JsonVal {
    JsonVal::Num(s.as_bytes().to_vec())
}

fn obj(pairs: Vec<(&str, JsonVal)>) -> JsonVal {
    JsonVal::Obj(pairs.into_iter().map(|(k, v)| (k.as_bytes().to_vec(), v)).collect())
}

fn bytes(s: &str) -> Vec<u8> {
    s.as_bytes().to_vec()
}

fn field<'a>(v: &'a JsonVal, name: &str) -> &'a JsonVal {
    match v {
        JsonVal::Obj(fields) => {
            for (k, val) in fields.iter() {
                if k == name.as_bytes() {
                    return val;
                }
            }
            panic!("field not found");
        },
        _ => panic!("not an object"),
    }
}

#[test]
fn test_parse_inner_value_string_to_json() {
    let v = obj(vec![("value", txt("{\"inner\": {\"k\": \"v\"}}"))]);
    let v = parse_inner_value(v);

    let got = extract_path(field(&v, "value"), &bytes("inner.k")).expect("found path");
    assert_eq!(got, &txt("v"));
}

#[test]
fn test_normalize_decodes_string_value_once() {
    let payload = obj(vec![("value", txt("{\"a\":\"{\\\"b\\\":1}\"}"))]);
    let v = normalize(payload);
    match field(&v, "a") {
        JsonVal::Text(inner) => assert_eq!(inner, &bytes("{\"b\":1}")),
        other => panic!("nested string was decoded again: {:?}", other),
    }
}

#[test]
fn test_normalize_keeps_unparsable_string() {
    let payload = obj(vec![("value", txt("not json at all ["))]);
    let v = normalize(payload);
    assert_eq!(v, txt("not json at all ["));
}

#[test]
fn test_normalize_non_string_value_used_as_is() {
    let payload = obj(vec![("value", obj(vec![("x", num("1"))]))]);
    let v = normalize(payload);
    assert_eq!(v, obj(vec![("x", num("1"))]));
}

#[test]
fn test_normalize_without_value_field_keeps_payload() {
    let payload = obj(vec![("other", num("7"))]);
    let v = normalize(payload);
    assert_eq!(v, obj(vec![("other", num("7"))]));
}

#[test]
fn test_normalize_parses_numbers_and_booleans() {
    let payload = obj(vec![("value", txt("{\"n\":42,\"t\":true,\"z\":null}"))]);
    let v = normalize(payload);
    assert_eq!(field(&v, "n"), &num("42"));
    assert_eq!(field(&v, "t"), &JsonVal::Bool(true));
    assert_eq!(field(&v, "z"), &JsonVal::Null);
}

#[test]
fn test_find_by_key_first_exact_match() {
    let list = ListResponse {
        data: vec![
            ListItem {
                id: "id-1".to_string(),
                organization_id: None,
                key: "alpha".to_string(),
            },
            ListItem {
                id: "id-2".to_string(),
                organization_id: None,
                key: "beta".to_string(),
            },
            ListItem {
                id: "id-3".to_string(),
                organization_id: None,
                key: "beta".to_string(),
            },
        ],
    };
    let hit = find_by_key(&list, &"beta".to_string()).expect("present");
    assert_eq!(hit.id, "id-2");
    assert!(find_by_key(&list, &"Beta".to_string()).is_none());
    assert!(find_by_key(&list, &"bet".to_string()).is_none());
}

#[test]
fn test_normalize_response_decodes_data_elements() {
    let resp = obj(vec![(
        "data",
        JsonVal::Arr(vec![
            obj(vec![("value", txt("{\"k\":\"v1\"}"))]),
            obj(vec![("value", txt("plain"))]),
        ]),
    )]);
    let v = normalize_response(resp);
    let data = field(&v, "data");
    match data {
        JsonVal::Arr(elems) => {
            assert_eq!(field(field(&elems[0], "value"), "k"), &txt("v1"));
            assert_eq!(field(&elems[1], "value"), &txt("plain"));
        },
        _ => panic!("data is not an array"),
    }
}

#[test]
fn test_extract_display_field_top_level_then_data() {
    let v = obj(vec![
        ("value", obj(vec![("a", num("1"))])),
        (
            "data",
            JsonVal::Arr(vec![
                obj(vec![("value", obj(vec![("b", num("2"))]))]),
                obj(vec![("value", obj(vec![("c", num("3"))]))]),
            ]),
        ),
    ]);
    assert_eq!(extract_display_field(&v, &bytes("a")).unwrap(), &num("1"));
    assert_eq!(extract_display_field(&v, &bytes("c")).unwrap(), &num("3"));
    assert!(extract_display_field(&v, &bytes("zzz")).is_none());
}
