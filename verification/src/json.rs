//! A tagged tree model of JSON-like secret values, with field extraction by
//! delimited paths and compact text serialization.
//!
//! Numbers are kept as their literal text so that values round-trip without
//! any numeric re-interpretation; string contents and object keys are held
//! as their UTF-8 bytes.

use crate::ascii::{BACKSLASH, BS, COLON, COMMA, CR, D0, DOT, FF, LBRACE, LBRACKET, LF, LOWER_A, LOWER_B, LOWER_E, LOWER_F, LOWER_L, LOWER_N, LOWER_R, LOWER_S, LOWER_T, LOWER_U, QUOTE, RBRACE, RBRACKET, SLASH, TAB};
use vstd::prelude::*;

verus! {

/// Mathematical model of a JSON value.
#[verifier::ext_equal]
pub enum JsonView {
    Null,
    Bool(bool),
    Num(Seq<u8>),
    Text(Seq<u8>),
    Arr(Seq<JsonView>),
    Obj(Seq<(Seq<u8>, JsonView)>),
}

/// A JSON-like value: object, array, string, number (as literal text),
/// boolean or null.
#[derive(Debug, PartialEq, Eq)]
pub enum JsonVal {
    Null,
    Bool(bool),
    Num(Vec<u8>),
    Text(Vec<u8>),
    Arr(Vec<JsonVal>),
    Obj(Vec<(Vec<u8>, JsonVal)>),
}

pub open spec fn jview(v: JsonVal) -> JsonView
    decreases v,
{
    match v {
        JsonVal::Null => JsonView::Null,
        JsonVal::Bool(b) => JsonView::Bool(b),
        JsonVal::Num(t) => JsonView::Num(t@),
        JsonVal::Text(s) => JsonView::Text(s@),
        JsonVal::Arr(elems) => JsonView::Arr(jview_seq(elems@)),
        JsonVal::Obj(fields) => JsonView::Obj(jview_fields(fields@)),
    }
}

pub open spec fn jview_seq(s: Seq<JsonVal>) -> Seq<JsonView>
    decreases s,
{
    if s.len() == 0 {
        Seq::empty()
    } else {
        jview_seq(s.drop_last()).push(jview(s.last()))
    }
}

pub open spec fn jview_fields(s: Seq<(Vec<u8>, JsonVal)>) -> Seq<(Seq<u8>, JsonView)>
    decreases s,
{
    if s.len() == 0 {
        Seq::empty()
    } else {
        jview_fields(s.drop_last()).push((s.last().0@, jview(s.last().1)))
    }
}

impl View for JsonVal {
    type V = JsonView;

    open spec fn view(&self) -> JsonView {
        jview(*self)
    }
}

pub proof fn lemma_jview_seq(s: Seq<JsonVal>)
    ensures
        jview_seq(s).len() == s.len(),
        forall|i: int| #![auto] 0 <= i < s.len() ==> jview_seq(s)[i] == jview(s[i]),
    decreases s.len(),
{
    if s.len() > 0 {
        lemma_jview_seq(s.drop_last());
    }
}

pub proof fn lemma_jview_fields(s: Seq<(Vec<u8>, JsonVal)>)
    ensures
        jview_fields(s).len() == s.len(),
        forall|i: int| #![auto] 0 <= i < s.len() ==> jview_fields(s)[i] == (s[i].0@, jview(
            s[i].1,
        )),
    decreases s.len(),
{
    if s.len() > 0 {
        lemma_jview_fields(s.drop_last());
    }
}

/// Index of the first field named `name`, searching from position `k`.
pub open spec fn field_index_from(
    fields: Seq<(Seq<u8>, JsonView)>,
    name: Seq<u8>,
    k: int,
) -> Option<int>
    decreases fields.len() - k,
{
    if k < 0 || k >= fields.len() {
        None
    } else if fields[k].0 == name {
        Some(k)
    } else {
        field_index_from(fields, name, k + 1)
    }
}

/// The value of the first field named `name` of an object's field list.
pub open spec fn field_get(fields: Seq<(Seq<u8>, JsonView)>, name: Seq<u8>) -> Option<JsonView> {
    match field_index_from(fields, name, 0) {
        Some(i) => Some(fields[i].1),
        None => None,
    }
}

/// Walk `v` along the segments `segs[k..]`; each segment must name a field
/// of an object node, otherwise the walk fails.
pub open spec fn extract_at(v: JsonView, segs: Seq<Seq<u8>>, k: int) -> Option<JsonView>
    decreases segs.len() - k,
{
    if k < 0 || k >= segs.len() {
        Some(v)
    } else {
        match v {
            JsonView::Obj(fields) => match field_get(fields, segs[k]) {
                Some(x) => extract_at(x, segs, k + 1),
                None => None,
            },
            _ => None,
        }
    }
}

/// Segments of `s[start..]` split at every occurrence of `sep` at or after
/// position `k`, where `s[start..k]` holds no separator.
pub open spec fn split_from(s: Seq<u8>, sep: u8, start: int, k: int) -> Seq<Seq<u8>>
    decreases s.len() - k,
{
    if k < 0 || k >= s.len() {
        seq![s.subrange(start, s.len() as int)]
    } else if s[k] == sep {
        seq![s.subrange(start, k)] + split_from(s, sep, k + 1, k + 1)
    } else {
        split_from(s, sep, start, k + 1)
    }
}


pub proof fn lemma_split_from_nonempty(s: Seq<u8>, sep: u8, start: int, k: int)
    ensures
        split_from(s, sep, start, k).len() >= 1,
    decreases s.len() - k,
{
    if !(k < 0 || k >= s.len()) {
        if s[k] == sep {
            lemma_split_from_nonempty(s, sep, k + 1, k + 1);
        } else {
            lemma_split_from_nonempty(s, sep, start, k + 1);
        }
    }
}

/// Split `s` at every occurrence of `sep`; a separator at the edge or two
/// adjacent separators yield empty segments, as `str::split` does.
pub open spec fn split_spec(s: Seq<u8>, sep: u8) -> Seq<Seq<u8>> {
    split_from(s, sep, 0, 0)
}

/// The delimiter the path is split on: `/` if the path contains one,
/// otherwise `.`.
pub open spec fn sep_of(path: Seq<u8>) -> u8 {
    if path.contains(SLASH) {
        SLASH
    } else {
        DOT
    }
}

/// What `extract_path` returns: `v` navigated along `path`, split on `/` if
/// present and on `.` otherwise, failing at the first missing field.
pub open spec fn extract_path_spec(v: JsonView, path: Seq<u8>) -> Option<JsonView> {
    extract_at(v, split_spec(path, sep_of(path)), 0)
}

/// Copy of `src[a..b]` as a fresh vector.
pub fn copy_range(src: &Vec<u8>, a: usize, b: usize) -> (out: Vec<u8>)
    requires
        a <= b <= src@.len(),
    ensures
        out@ == src@.subrange(a as int, b as int),
{
    let mut out: Vec<u8> = Vec::new();
    let mut i: usize = a;
    while i < b
        invariant
            a <= i <= b <= src@.len(),
            out@ == src@.subrange(a as int, i as int),
        decreases b - i,
    {
        out.push(src[i]);
        proof {
            assert(src@.subrange(a as int, i + 1 as int) =~= src@.subrange(a as int, i as int).push(
                src@[i as int],
            ));
        }
        i = i + 1;
    }
    out
}

/// Whether `s` contains the byte `b`.
pub fn contains_byte(s: &Vec<u8>, b: u8) -> (r: bool)
    ensures
        r == s@.contains(b),
{
    let mut i: usize = 0;
    while i < s.len()
        invariant
            0 <= i <= s@.len(),
            forall|j: int| 0 <= j < i ==> s@[j] != b,
        decreases s@.len() - i,
    {
        if s[i] == b {
            return true;
        }
        i = i + 1;
    }
    assert(!s@.contains(b));
    false
}

/// Split `s` on the byte `sep`.
pub fn split_bytes(s: &Vec<u8>, sep: u8) -> (segs: Vec<Vec<u8>>)
    ensures
        views_of(segs@) == split_spec(s@, sep),
{
    let mut segs: Vec<Vec<u8>> = Vec::new();
    let mut start: usize = 0;
    let mut k: usize = 0;
    while k < s.len()
        invariant
            0 <= start <= k <= s@.len(),
            split_spec(s@, sep) == views_of(segs@) + split_from(s@, sep, start as int, k as int),
        decreases s@.len() - k,
    {
        if s[k] == sep {
            let seg = copy_range(s, start, k);
            proof {
                lemma_views_of_push(segs@, seg);
                assert(views_of(segs@.push(seg)) + split_from(s@, sep, k + 1, k + 1) =~= views_of(
                    segs@,
                ) + split_from(s@, sep, start as int, k as int));
            }
            segs.push(seg);
            start = k + 1;
        }
        k = k + 1;
    }
    let seg = copy_range(s, start, s.len());
    proof {
        lemma_views_of_push(segs@, seg);
        assert(views_of(segs@.push(seg)) =~= views_of(segs@) + split_from(
            s@,
            sep,
            start as int,
            k as int,
        ));
    }
    segs.push(seg);
    segs
}

/// The views of a sequence of byte vectors.
pub open spec fn views_of(s: Seq<Vec<u8>>) -> Seq<Seq<u8>> {
    s.map_values(|v: Vec<u8>| v@)
}

pub proof fn lemma_views_of_push(s: Seq<Vec<u8>>, v: Vec<u8>)
    ensures
        views_of(s.push(v)) =~= views_of(s).push(v@),
{
}

/// The first field of `fields` named `name`, if any.
pub fn get_field<'a>(fields: &'a Vec<(Vec<u8>, JsonVal)>, name: &Vec<u8>) -> (r: Option<
    &'a JsonVal,
>)
    ensures
        match r {
            Some(x) => field_get(jview_fields(fields@), name@) == Some(x@),
            None => field_get(jview_fields(fields@), name@) is None,
        },
{
    proof {
        lemma_jview_fields(fields@);
    }
    let ghost fv = jview_fields(fields@);
    let mut j: usize = 0;
    while j < fields.len()
        invariant
            0 <= j <= fields@.len(),
            fv == jview_fields(fields@),
            fv.len() == fields@.len(),
            forall|i: int| #![auto] 0 <= i < fields@.len() ==> fv[i] == (
                fields@[i].0@,
                jview(fields@[i].1),
            ),
            field_index_from(fv, name@, 0) == field_index_from(fv, name@, j as int),
        decreases fields@.len() - j,
    {
        if &fields[j].0 == name {
            assert(fv[j as int].0 == name@);
            return Some(&fields[j].1);
        }
        assert(fv[j as int].0 != name@);
        j = j + 1;
    }
    None
}

/// Navigate `v` by `path`: split on `/` if the path contains one, else on
/// `.`, then follow each segment through object fields; the first missing
/// segment yields `None`.
pub fn extract_path<'a>(v: &'a JsonVal, path: &Vec<u8>) -> (r: Option<&'a JsonVal>)
    ensures
        match r {
            Some(x) => extract_path_spec(v@, path@) == Some(x@),
            None => extract_path_spec(v@, path@) is None,
        },
{
    let sep: u8 = if contains_byte(path, SLASH) {
        SLASH
    } else {
        DOT
    };
    assert(sep == sep_of(path@));
    let segs = split_bytes(path, sep);
    let ghost sv = split_spec(path@, sep);
    let mut cur: &JsonVal = v;
    let mut k: usize = 0;
    while k < segs.len()
        invariant
            0 <= k <= segs@.len(),
            sep == sep_of(path@),
            sv == split_spec(path@, sep),
            views_of(segs@) == sv,
            extract_at(v@, sv, 0) == extract_at(cur@, sv, k as int),
        decreases segs@.len() - k,
    {
        assert(segs@[k as int]@ == sv[k as int]);
        match cur {
            JsonVal::Obj(fields) => {
                assert(cur@ == JsonView::Obj(jview_fields(fields@)));
                match get_field(fields, &segs[k]) {
                    Some(x) => {
                        cur = x;
                    },
                    None => {
                        assert(extract_at(cur@, sv, k as int) is None);
                        return None;
                    },
                }
            },
            _ => {
                assert(!(cur@ is Obj));
                assert(extract_at(cur@, sv, k as int) is None);
                return None;
            },
        }
        k = k + 1;
    }
    Some(cur)
}

/// Lowercase hex digit for `d < 16`.
pub open spec fn hex_digit(d: u8) -> u8 {
    if d < 10 {
        (D0 + d) as u8
    } else {
        (LOWER_A + (d - 10)) as u8
    }
}

/// How one byte of a string is written inside a JSON string literal:
/// quote and backslash get a backslash escape, the named control characters
/// their short escapes, other control bytes a `\u00XX` escape, and every
/// remaining byte stands as itself.
pub open spec fn esc_byte(b: u8) -> Seq<u8> {
    if b == QUOTE {
        seq![BACKSLASH, QUOTE]
    } else if b == BACKSLASH {
        seq![BACKSLASH, BACKSLASH]
    } else if b == BS {
        seq![BACKSLASH, LOWER_B]
    } else if b == TAB {
        seq![BACKSLASH, LOWER_T]
    } else if b == LF {
        seq![BACKSLASH, LOWER_N]
    } else if b == FF {
        seq![BACKSLASH, LOWER_F]
    } else if b == CR {
        seq![BACKSLASH, LOWER_R]
    } else if b < 32 {
        seq![BACKSLASH, LOWER_U, D0, D0, hex_digit(b / 16), hex_digit(b % 16)]
    } else {
        seq![b]
    }
}

/// The bytes of `s` escaped for a JSON string literal.
pub open spec fn escaped(s: Seq<u8>) -> Seq<u8>
    decreases s.len(),
{
    if s.len() == 0 {
        Seq::empty()
    } else {
        escaped(s.drop_last()) + esc_byte(s.last())
    }
}

/// The compact JSON text of a value: no added whitespace, fields and
/// elements in order, strings escaped by `esc_byte`, numbers as their
/// literal text.
pub open spec fn json_text(v: JsonView) -> Seq<u8>
    decreases v,
{
    match v {
        JsonView::Null => seq![LOWER_N, LOWER_U, LOWER_L, LOWER_L],
        JsonView::Bool(b) => if b {
            seq![LOWER_T, LOWER_R, LOWER_U, LOWER_E]
        } else {
            seq![LOWER_F, LOWER_A, LOWER_L, LOWER_S, LOWER_E]
        },
        JsonView::Num(t) => t,
        JsonView::Text(s) => seq![QUOTE] + escaped(s) + seq![QUOTE],
        JsonView::Arr(elems) => seq![LBRACKET] + arr_text(elems) + seq![RBRACKET],
        JsonView::Obj(fields) => seq![LBRACE] + obj_text(fields) + seq![RBRACE],
    }
}

/// Comma-separated compact texts of array elements.
pub open spec fn arr_text(elems: Seq<JsonView>) -> Seq<u8>
    decreases elems,
{
    if elems.len() == 0 {
        Seq::empty()
    } else if elems.len() == 1 {
        json_text(elems[0])
    } else {
        arr_text(elems.drop_last()) + seq![COMMA] + json_text(elems.last())
    }
}

/// Comma-separated `"key":value` texts of object fields.
pub open spec fn obj_text(fields: Seq<(Seq<u8>, JsonView)>) -> Seq<u8>
    decreases fields,
{
    if fields.len() == 0 {
        Seq::empty()
    } else {
        let e = seq![QUOTE] + escaped(fields.last().0) + seq![QUOTE, COLON] + json_text(
            fields.last().1,
        );
        if fields.len() == 1 {
            e
        } else {
            obj_text(fields.drop_last()) + seq![COMMA] + e
        }
    }
}

/// Append all of `src` to `out`.
#[verifier::loop_isolation(false)]
pub fn push_all(out: &mut Vec<u8>, src: &Vec<u8>)
    ensures
        final(out)@ == old(out)@ + src@,
{
    let mut i: usize = 0;
    while i < src.len()
        invariant
            0 <= i <= src@.len(),
            out@ == old(out)@ + src@.subrange(0, i as int),
        decreases src@.len() - i,
    {
        out.push(src[i]);
        proof {
            assert(src@.subrange(0, i + 1 as int) =~= src@.subrange(0, i as int).push(
                src@[i as int],
            ));
        }
        i = i + 1;
    }
    assert(src@.subrange(0, src@.len() as int) =~= src@);
}

/// Append the escape of one string byte to `out`.
fn push_esc(out: &mut Vec<u8>, b: u8)
    ensures
        final(out)@ == old(out)@ + esc_byte(b),
{
    if b == QUOTE {
        out.push(BACKSLASH);
        out.push(QUOTE);
    } else if b == BACKSLASH {
        out.push(BACKSLASH);
        out.push(BACKSLASH);
    } else if b == BS {
        out.push(BACKSLASH);
        out.push(LOWER_B);
    } else if b == TAB {
        out.push(BACKSLASH);
        out.push(LOWER_T);
    } else if b == LF {
        out.push(BACKSLASH);
        out.push(LOWER_N);
    } else if b == FF {
        out.push(BACKSLASH);
        out.push(LOWER_F);
    } else if b == CR {
        out.push(BACKSLASH);
        out.push(LOWER_R);
    } else if b < 32 {
        out.push(BACKSLASH);
        out.push(LOWER_U);
        out.push(D0);
        out.push(D0);
        let hi = b / 16;
        let lo = b % 16;
        out.push(if hi < 10 { D0 + hi } else { LOWER_A + (hi - 10) });
        out.push(if lo < 10 { D0 + lo } else { LOWER_A + (lo - 10) });
    } else {
        out.push(b);
    }
    assert(out@ =~= old(out)@ + esc_byte(b));
}

/// Append a JSON string literal holding `s` to `out`.
#[verifier::loop_isolation(false)]
fn push_string_literal(out: &mut Vec<u8>, s: &Vec<u8>)
    ensures
        final(out)@ == old(out)@ + seq![QUOTE] + escaped(s@) + seq![QUOTE],
{
    out.push(QUOTE);
    let mut i: usize = 0;
    while i < s.len()
        invariant
            0 <= i <= s@.len(),
            out@ == old(out)@ + seq![QUOTE] + escaped(s@.subrange(0, i as int)),
        decreases s@.len() - i,
    {
        push_esc(out, s[i]);
        proof {
            assert(s@.subrange(0, i + 1 as int).drop_last() =~= s@.subrange(0, i as int));
            assert(s@.subrange(0, i + 1 as int).last() == s@[i as int]);
        }
        i = i + 1;
    }
    assert(s@.subrange(0, s@.len() as int) =~= s@);
    out.push(QUOTE);
}

/// Append the compact JSON text of `v` to `out`.
#[verifier::loop_isolation(false)]
fn write_json(v: &JsonVal, out: &mut Vec<u8>)
    ensures
        final(out)@ == old(out)@ + json_text(v@),
    decreases *v,
{
    match v {
        JsonVal::Null => {
            out.push(LOWER_N);
            out.push(LOWER_U);
            out.push(LOWER_L);
            out.push(LOWER_L);
            assert(out@ =~= old(out)@ + json_text(v@));
        },
        JsonVal::Bool(b) => {
            if *b {
                out.push(LOWER_T);
                out.push(LOWER_R);
                out.push(LOWER_U);
                out.push(LOWER_E);
            } else {
                out.push(LOWER_F);
                out.push(LOWER_A);
                out.push(LOWER_L);
                out.push(LOWER_S);
                out.push(LOWER_E);
            }
            assert(out@ =~= old(out)@ + json_text(v@));
        },
        JsonVal::Num(t) => {
            push_all(out, t);
        },
        JsonVal::Text(s) => {
            push_string_literal(out, s);
            assert(out@ =~= old(out)@ + json_text(v@));
        },
        JsonVal::Arr(elems) => {
            out.push(LBRACKET);
            proof {
                lemma_jview_seq(elems@);
            }
            let ghost ev = jview_seq(elems@);
            let mut i: usize = 0;
            while i < elems.len()
                invariant
                    0 <= i <= elems@.len(),
                    out@ == old(out)@ + seq![LBRACKET] + arr_text(ev.subrange(0, i as int)),
                decreases elems@.len() - i,
            {
                if i > 0 {
                    out.push(COMMA);
                }
                write_json(&elems[i], out);
                proof {
                    assert(ev.subrange(0, i + 1 as int).drop_last() =~= ev.subrange(0, i as int));
                    assert(ev.subrange(0, i + 1 as int).last() == ev[i as int]);
                    assert(out@ =~= old(out)@ + seq![LBRACKET] + arr_text(
                        ev.subrange(0, i + 1 as int),
                    ));
                }
                i = i + 1;
            }
            assert(ev.subrange(0, ev.len() as int) =~= ev);
            out.push(RBRACKET);
            assert(out@ =~= old(out)@ + json_text(v@));
        },
        JsonVal::Obj(fields) => {
            out.push(LBRACE);
            proof {
                lemma_jview_fields(fields@);
            }
            let ghost fv = jview_fields(fields@);
            let mut i: usize = 0;
            while i < fields.len()
                invariant
                    0 <= i <= fields@.len(),
                    out@ == old(out)@ + seq![LBRACE] + obj_text(fv.subrange(0, i as int)),
                decreases fields@.len() - i,
            {
                if i > 0 {
                    out.push(COMMA);
                }
                push_string_literal(out, &fields[i].0);
                out.push(COLON);
                write_json(&fields[i].1, out);
                proof {
                    assert(fv.subrange(0, i + 1 as int).drop_last() =~= fv.subrange(0, i as int));
                    assert(fv.subrange(0, i + 1 as int).last() == fv[i as int]);
                    assert(out@ =~= old(out)@ + seq![LBRACE] + obj_text(
                        fv.subrange(0, i + 1 as int),
                    ));
                }
                i = i + 1;
            }
            assert(fv.subrange(0, fv.len() as int) =~= fv);
            out.push(RBRACE);
            assert(out@ =~= old(out)@ + json_text(v@));
        },
    }
}

/// The compact JSON text of `v`.
pub fn to_json_text(v: &JsonVal) -> (out: Vec<u8>)
    ensures
        out@ == json_text(v@),
{
    let mut out: Vec<u8> = Vec::new();
    write_json(v, &mut out);
    out
}

/// How an extracted value becomes replacement text: a string scalar is
/// emitted raw, anything else as compact JSON text.
pub open spec fn stringify(v: JsonView) -> Seq<u8> {
    match v {
        JsonView::Text(s) => s,
        _ => json_text(v),
    }
}

/// Replacement text for `v` per `stringify`.
pub fn to_replacement_text(v: &JsonVal) -> (out: Vec<u8>)
    ensures
        out@ == stringify(v@),
{
    match v {
        JsonVal::Text(s) => {
            let mut out: Vec<u8> = Vec::new();
            push_all(&mut out, s);
            out
        },
        _ => to_json_text(v),
    }
}


} // verus!
