//! Normalization of raw secret payloads: the one-time decode of a
//! string-encoded JSON `value` field, and the field extraction used when a
//! fetched response is displayed.
//!
//! Parsing JSON text is delegated to `serde_json`; everything after the
//! parse is verified against the parse result.

use crate::ascii::{LOWER_A, LOWER_D, LOWER_E, LOWER_L, LOWER_T, LOWER_U, LOWER_V};
use crate::json::{
    extract_path, extract_path_spec, field_get, field_index_from, jview, jview_fields, jview_seq,
    lemma_jview_fields, lemma_jview_seq, JsonVal, JsonView,
};
use vstd::prelude::*;

verus! {

/// What `serde_json` parses the bytes `s` into, carried over into this
/// library's value model; `None` when `s` is not valid JSON. The relation is
/// the JSON grammar itself, which this library does not restate; the parse
/// result is a function of the bytes alone.
pub uninterp spec fn json_parse(s: Seq<u8>) -> Option<JsonView>;

/// Declares `serde_json::Value` to the verifier as an opaque type, so that
/// the conversion out of a parsed tree can be stated.
#[verifier::external_type_specification]
#[verifier::external_body]
pub struct ExValue(serde_json::Value);

/// Relies on serde_json::Value: moves each variant of a parsed tree into the
/// library's value model, one arm per variant; numbers keep their literal
/// text, strings and keys their UTF-8 bytes.
#[verifier::external_body]
fn from_serde(v: serde_json::Value) -> JsonVal {
    match v {
        serde_json::Value::Null => JsonVal::Null,
        serde_json::Value::Bool(b) => JsonVal::Bool(b),
        serde_json::Value::Number(n) => JsonVal::Num(n.to_string().into_bytes()),
        serde_json::Value::String(s) => JsonVal::Text(s.into_bytes()),
        serde_json::Value::Array(a) => JsonVal::Arr(a.into_iter().map(from_serde).collect()),
        serde_json::Value::Object(m) => JsonVal::Obj(
            m.into_iter().map(|f| (f.0.into_bytes(), from_serde(f.1))).collect(),
        ),
    }
}

/// Relies on serde_json::from_slice: parses `s` as JSON. The result depends
/// on the bytes alone, so it is named by `json_parse`.
#[verifier::external_body]
pub(crate) fn parse_json(s: &Vec<u8>) -> (r: Option<JsonVal>)
    ensures
        match r {
            Some(v) => json_parse(s@) == Some(v@),
            None => json_parse(s@) is None,
        },
{
    match serde_json::from_slice::<serde_json::Value>(s.as_slice()) {
        Ok(v) => Some(from_serde(v)),
        Err(_) => None,
    }
}

/// The field name `value`, as bytes.
pub open spec fn value_key() -> Seq<u8> {
    seq![LOWER_V, LOWER_A, LOWER_L, LOWER_U, LOWER_E]
}

/// The field name `data`, as bytes.
pub open spec fn data_key() -> Seq<u8> {
    seq![LOWER_D, LOWER_A, LOWER_T, LOWER_A]
}

fn value_key_vec() -> (v: Vec<u8>)
    ensures
        v@ == value_key(),
{
    let mut v: Vec<u8> = Vec::new();
    v.push(LOWER_V);
    v.push(LOWER_A);
    v.push(LOWER_L);
    v.push(LOWER_U);
    v.push(LOWER_E);
    assert(v@ =~= value_key());
    v
}

fn data_key_vec() -> (v: Vec<u8>)
    ensures
        v@ == data_key(),
{
    let mut v: Vec<u8> = Vec::new();
    v.push(LOWER_D);
    v.push(LOWER_A);
    v.push(LOWER_T);
    v.push(LOWER_A);
    assert(v@ =~= data_key());
    v
}

/// Index of the first field of `fields` named `name`, if any.
#[verifier::loop_isolation(false)]
fn field_index(fields: &Vec<(Vec<u8>, JsonVal)>, name: &Vec<u8>) -> (r: Option<usize>)
    ensures
        match r {
            Some(i) => i < fields@.len() && field_index_from(
                jview_fields(fields@),
                name@,
                0,
            ) == Some(i as int),
            None => field_index_from(jview_fields(fields@), name@, 0) is None,
        },
{
    proof {
        lemma_jview_fields(fields@);
    }
    let ghost fv = jview_fields(fields@);
    let mut j: usize = 0;
    while j < fields.len()
        invariant
            0 <= j <= fields@.len(),
            field_index_from(fv, name@, 0) == field_index_from(fv, name@, j as int),
        decreases fields@.len() - j,
    {
        if &fields[j].0 == name {
            assert(fv[j as int].0 == name@);
            return Some(j);
        }
        assert(fv[j as int].0 != name@);
        j = j + 1;
    }
    None
}

/// The normalized secret value of a raw payload: if the payload has a field
/// named `value` whose value is a string that parses as JSON, the parsed
/// tree; if the string does not parse, the string itself; if the field is
/// not a string, that field's value; if there is no `value` field (or the
/// payload is not an object), the whole payload. The decode happens exactly
/// once: the parse result is taken as is.
pub open spec fn normalize_spec(p: JsonView) -> JsonView {
    match p {
        JsonView::Obj(fields) => match field_get(fields, value_key()) {
            Some(v) => match v {
                JsonView::Text(s) => match json_parse(s) {
                    Some(inner) => inner,
                    None => v,
                },
                _ => v,
            },
            None => p,
        },
        _ => p,
    }
}

/// Normalize a raw secret payload per `normalize_spec`.
pub fn normalize(payload: JsonVal) -> (r: JsonVal)
    ensures
        r@ == normalize_spec(payload@),
{
    match payload {
        JsonVal::Obj(mut fields) => {
            proof {
                lemma_jview_fields(fields@);
            }
            let vkey = value_key_vec();
            match field_index(&fields, &vkey) {
                Some(i) => {
                    let fld = fields.remove(i);
                    match fld.1 {
                        JsonVal::Text(s) => {
                            match parse_json(&s) {
                                Some(inner) => inner,
                                None => JsonVal::Text(s),
                            }
                        },
                        other => other,
                    }
                },
                None => JsonVal::Obj(fields),
            }
        },
        other => other,
    }
}

/// The payload with a string `value` field decoded in place: if the first
/// field named `value` holds a string that parses as JSON, that field's
/// value is replaced by the parsed tree; anything else leaves the payload
/// unchanged.
pub open spec fn parse_inner_spec(v: JsonView) -> JsonView {
    match v {
        JsonView::Obj(fields) => match field_index_from(fields, value_key(), 0) {
            Some(i) => match fields[i].1 {
                JsonView::Text(s) => match json_parse(s) {
                    Some(x) => JsonView::Obj(fields.update(i, (fields[i].0, x))),
                    None => v,
                },
                _ => v,
            },
            None => v,
        },
        _ => v,
    }
}

/// Decode a string `value` field in place, per `parse_inner_spec`.
pub fn parse_inner_value(v: JsonVal) -> (r: JsonVal)
    ensures
        r@ == parse_inner_spec(v@),
{
    match v {
        JsonVal::Obj(mut fields) => {
            proof {
                lemma_jview_fields(fields@);
            }
            let ghost fields0 = fields@;
            let vkey = value_key_vec();
            match field_index(&fields, &vkey) {
                Some(i) => {
                    let (kname, fval) = fields.remove(i);
                    match fval {
                        JsonVal::Text(s) => {
                            match parse_json(&s) {
                                Some(x) => {
                                    let ghost xv = x@;
                                    fields.insert(i, (kname, x));
                                    proof {
                                        assert(fields@ =~= fields0.update(
                                            i as int,
                                            fields@[i as int],
                                        ));
                                        lemma_jview_fields(fields@);
                                        lemma_jview_fields(fields0);
                                        assert(jview_fields(fields@) =~= jview_fields(
                                            fields0,
                                        ).update(i as int, (kname@, xv)));
                                    }
                                    JsonVal::Obj(fields)
                                },
                                None => {
                                    fields.insert(i, (kname, JsonVal::Text(s)));
                                    proof {
                                        assert(fields@ =~= fields0);
                                    }
                                    JsonVal::Obj(fields)
                                },
                            }
                        },
                        other => {
                            fields.insert(i, (kname, other));
                            proof {
                                assert(fields@ =~= fields0);
                            }
                            JsonVal::Obj(fields)
                        },
                    }
                },
                None => JsonVal::Obj(fields),
            }
        },
        other => other,
    }
}

/// The response with its `value` fields decoded: the top-level `value`
/// field per `parse_inner_spec`, and, when a `data` field holds an array,
/// each element of that array per `parse_inner_spec` too.
pub open spec fn normalize_response_spec(v: JsonView) -> JsonView {
    let v1 = parse_inner_spec(v);
    match v1 {
        JsonView::Obj(fields) => match field_index_from(fields, data_key(), 0) {
            Some(i) => match fields[i].1 {
                JsonView::Arr(elems) => JsonView::Obj(
                    fields.update(
                        i,
                        (
                            fields[i].0,
                            JsonView::Arr(elems.map_values(|e: JsonView| parse_inner_spec(e))),
                        ),
                    ),
                ),
                _ => v1,
            },
            None => v1,
        },
        _ => v1,
    }
}

/// Decode the `value` fields of a fetched response, per
/// `normalize_response_spec`.
#[verifier::loop_isolation(false)]
pub fn normalize_response(v: JsonVal) -> (r: JsonVal)
    ensures
        r@ == normalize_response_spec(v@),
{
    let v1 = parse_inner_value(v);
    match v1 {
        JsonVal::Obj(mut fields) => {
            proof {
                lemma_jview_fields(fields@);
            }
            let ghost fields0 = fields@;
            let dkey = data_key_vec();
            match field_index(&fields, &dkey) {
                Some(i) => {
                    let (kname, dval) = fields.remove(i);
                    match dval {
                        JsonVal::Arr(mut elems) => {
                            proof {
                                lemma_jview_seq(elems@);
                            }
                            let ghost elems0 = elems@;
                            let ghost ev = jview_seq(elems@);
                            let mut j: usize = 0;
                            while j < elems.len()
                                invariant
                                    0 <= j <= elems@.len(),
                                    elems@.len() == elems0.len(),
                                    forall|m: int| #![auto] 0 <= m < j ==> jview(elems@[m])
                                        == parse_inner_spec(ev[m]),
                                    forall|m: int| #![auto] j <= m < elems0.len() ==> elems@[m]
                                        == elems0[m],
                                decreases elems@.len() - j,
                            {
                                let e = elems.remove(j);
                                let e2 = parse_inner_value(e);
                                elems.insert(j, e2);
                                proof {
                                    assert(jview(elems@[j as int]) == parse_inner_spec(
                                        jview(elems0[j as int]),
                                    ));
                                    assert(jview(elems0[j as int]) == ev[j as int]);
                                }
                                j = j + 1;
                            }
                            proof {
                                lemma_jview_seq(elems@);
                                assert(jview_seq(elems@) =~= ev.map_values(
                                    |e: JsonView| parse_inner_spec(e),
                                ));
                            }
                            fields.insert(i, (kname, JsonVal::Arr(elems)));
                            proof {
                                assert(fields@ =~= fields0.update(i as int, fields@[i as int]));
                                lemma_jview_fields(fields@);
                                lemma_jview_fields(fields0);
                                assert(jview_fields(fields@) =~= jview_fields(fields0).update(
                                    i as int,
                                    (kname@, jview(fields@[i as int].1)),
                                ));
                            }
                            JsonVal::Obj(fields)
                        },
                        other => {
                            fields.insert(i, (kname, other));
                            proof {
                                assert(fields@ =~= fields0);
                            }
                            JsonVal::Obj(fields)
                        },
                    }
                },
                None => JsonVal::Obj(fields),
            }
        },
        other => other,
    }
}

/// First hit scanning the data array: the `value` field of each object
/// element of `elems[k..]`, navigated by `path`.
pub open spec fn data_scan(elems: Seq<JsonView>, path: Seq<u8>, k: int) -> Option<JsonView>
    decreases elems.len() - k,
{
    if k < 0 || k >= elems.len() {
        None
    } else {
        let found = match elems[k] {
            JsonView::Obj(fields) => match field_get(fields, value_key()) {
                Some(val) => extract_path_spec(val, path),
                None => None,
            },
            _ => None,
        };
        match found {
            Some(x) => Some(x),
            None => data_scan(elems, path, k + 1),
        }
    }
}

/// Field extraction for display of a fetched response: `path` navigated
/// from the top-level `value` field; on a miss, from each `data` element's
/// `value` field in order, first hit.
pub open spec fn display_extract_spec(v: JsonView, path: Seq<u8>) -> Option<JsonView> {
    let top = match v {
        JsonView::Obj(fields) => match field_get(fields, value_key()) {
            Some(val) => extract_path_spec(val, path),
            None => None,
        },
        _ => None,
    };
    match top {
        Some(x) => Some(x),
        None => match v {
            JsonView::Obj(fields) => match field_get(fields, data_key()) {
                Some(JsonView::Arr(elems)) => data_scan(elems, path, 0),
                _ => None,
            },
            _ => None,
        },
    }
}

/// Extract `path` from a fetched response for display, per
/// `display_extract_spec`.
#[verifier::loop_isolation(false)]
pub fn extract_display_field<'a>(v: &'a JsonVal, path: &Vec<u8>) -> (r: Option<&'a JsonVal>)
    ensures
        match r {
            Some(x) => display_extract_spec(v@, path@) == Some(x@),
            None => display_extract_spec(v@, path@) is None,
        },
{
    match v {
        JsonVal::Obj(fields) => {
            let vkey = value_key_vec();
            match crate::json::get_field(fields, &vkey) {
                Some(val) => {
                    match extract_path(val, path) {
                        Some(x) => {
                            return Some(x);
                        },
                        None => {},
                    }
                },
                None => {},
            }
            let dkey = data_key_vec();
            match crate::json::get_field(fields, &dkey) {
                Some(dv) => {
                    match dv {
                        JsonVal::Arr(elems) => {
                            proof {
                                lemma_jview_seq(elems@);
                            }
                            let ghost ev = jview_seq(elems@);
                            let mut k: usize = 0;
                            while k < elems.len()
                                invariant
                                    0 <= k <= elems@.len(),
                                    data_scan(ev, path@, 0) == data_scan(ev, path@, k as int),
                                decreases elems@.len() - k,
                            {
                                match &elems[k] {
                                    JsonVal::Obj(efields) => {
                                        match crate::json::get_field(efields, &vkey) {
                                            Some(val) => {
                                                match extract_path(val, path) {
                                                    Some(x) => {
                                                        assert(data_scan(ev, path@, k as int)
                                                            == Some(x@));
                                                        return Some(x);
                                                    },
                                                    None => {},
                                                }
                                            },
                                            None => {},
                                        }
                                    },
                                    _ => {},
                                }
                                assert(data_scan(ev, path@, k as int) == data_scan(
                                    ev,
                                    path@,
                                    k + 1 as int,
                                ));
                                k = k + 1;
                            }
                            None
                        },
                        _ => None,
                    }
                },
                None => None,
            }
        },
        _ => None,
    }
}


} // verus!
