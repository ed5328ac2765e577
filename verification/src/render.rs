//! Layout-preserving substitution: each scanned placeholder is resolved to
//! replacement text and substituted for the first remaining occurrence of
//! its exact text in a working buffer, in scan order over the original
//! input. A multiline replacement for a placeholder that is the sole
//! content of its line is reindented with that line's leading whitespace.

use crate::ascii::{CR, LF, SPACE, TAB};
use crate::json::{
    copy_range, extract_path, extract_path_spec, push_all, split_bytes, split_spec, stringify,
    to_replacement_text, views_of, JsonVal, JsonView,
};
use crate::resolve::{normalize, normalize_spec};
use crate::scan::{ph_views, scan, scan_from, PhView, Placeholder};
use vstd::prelude::*;

verus! {

/// Position of the first occurrence of `pat` in `buf` at or after `k`.
pub open spec fn occur_from(buf: Seq<u8>, pat: Seq<u8>, k: int) -> Option<int>
    decreases buf.len() - k + 1,
{
    if k < 0 || k + pat.len() > buf.len() {
        None
    } else if buf.subrange(k, k + pat.len()) == pat {
        Some(k)
    } else {
        occur_from(buf, pat, k + 1)
    }
}

/// `buf` with the first occurrence of `pat` replaced by `rep`; `buf` itself
/// when `pat` does not occur.
pub open spec fn replace_first_spec(buf: Seq<u8>, pat: Seq<u8>, rep: Seq<u8>) -> Seq<u8> {
    match occur_from(buf, pat, 0) {
        Some(i) => buf.subrange(0, i) + rep + buf.subrange(i + pat.len(), buf.len() as int),
        None => buf,
    }
}

/// Whether `buf[k..k+pat.len()]` equals `pat`.
#[verifier::loop_isolation(false)]
fn range_eq(buf: &Vec<u8>, k: usize, pat: &Vec<u8>) -> (r: bool)
    requires
        k + pat@.len() <= buf@.len(),
    ensures
        r == (buf@.subrange(k as int, k + pat@.len()) == pat@),
{
    let bn = buf.len();
    let mut j: usize = 0;
    while j < pat.len()
        invariant
            0 <= j <= pat@.len(),
            forall|m: int| 0 <= m < j ==> buf@[k + m] == pat@[m],
        decreases pat@.len() - j,
    {
        if buf[k + j] != pat[j] {
            assert(buf@.subrange(k as int, k + pat@.len())[j as int] != pat@[j as int]);
            return false;
        }
        j = j + 1;
    }
    assert(buf@.subrange(k as int, k + pat@.len()) =~= pat@);
    true
}

/// Replace the first occurrence of `pat` in `buf` with `rep`; `buf`
/// unchanged when `pat` does not occur.
#[verifier::loop_isolation(false)]
pub fn replace_first(buf: &Vec<u8>, pat: &Vec<u8>, rep: &Vec<u8>) -> (out: Vec<u8>)
    ensures
        out@ == replace_first_spec(buf@, pat@, rep@),
{
    if pat.len() == 0 {
        assert(buf@.subrange(0, 0) =~= pat@);
        let mut out = copy_range(rep, 0, rep.len());
        push_all(&mut out, buf);
        assert(rep@.subrange(0, rep@.len() as int) =~= rep@);
        assert(out@ =~= replace_first_spec(buf@, pat@, rep@));
        return out;
    }
    if pat.len() > buf.len() {
        assert(occur_from(buf@, pat@, 0) is None);
        let out = copy_range(buf, 0, buf.len());
        assert(out@ =~= buf@);
        return out;
    }
    let mut k: usize = 0;
    while k <= buf.len() - pat.len()
        invariant
            0 <= k <= buf@.len(),
            occur_from(buf@, pat@, 0) == occur_from(buf@, pat@, k as int),
        decreases buf@.len() - k,
    {
        if range_eq(buf, k, pat) {
            assert(occur_from(buf@, pat@, k as int) == Some(k as int));
            let mut out = copy_range(buf, 0, k);
            push_all(&mut out, rep);
            let tail = copy_range(buf, k + pat.len(), buf.len());
            push_all(&mut out, &tail);
            assert(out@ =~= replace_first_spec(buf@, pat@, rep@));
            return out;
        }
        k = k + 1;
    }
    assert(occur_from(buf@, pat@, k as int) is None);
    let out = copy_range(buf, 0, buf.len());
    assert(out@ =~= buf@);
    out
}

/// Whitespace as far as line layout is concerned: space, tab, or a carriage
/// return at a line seam.
pub open spec fn is_ws(b: u8) -> bool {
    b == SPACE || b == TAB || b == CR
}

/// Start of the line containing position `p`: one past the previous
/// line feed, or the start of the text.
pub open spec fn line_start_of(t: Seq<u8>, p: int) -> int
    decreases p,
{
    if p <= 0 {
        0
    } else if t[p - 1] == LF {
        p
    } else {
        line_start_of(t, p - 1)
    }
}

/// End of the line containing position `p`: the next line feed, or the end
/// of the text.
pub open spec fn line_end_of(t: Seq<u8>, p: int) -> int
    decreases t.len() - p,
{
    if p >= t.len() {
        t.len() as int
    } else if t[p] == LF {
        p
    } else {
        line_end_of(t, p + 1)
    }
}

/// All bytes of `t[a..b]` are whitespace.
pub open spec fn all_ws(t: Seq<u8>, a: int, b: int) -> bool {
    forall|m: int| a <= m < b ==> is_ws(#[trigger] t[m])
}

/// The span `[start, end)` is the sole non-whitespace content of its line.
pub open spec fn sole_on_line(t: Seq<u8>, start: int, end: int) -> bool {
    all_ws(t, line_start_of(t, start), start) && all_ws(t, end, line_end_of(t, end))
}

/// `s` without one trailing carriage return, as `str::lines` strips it.
pub open spec fn strip_cr(s: Seq<u8>) -> Seq<u8> {
    if s.len() > 0 && s.last() == CR {
        s.drop_last()
    } else {
        s
    }
}

/// The lines of `s`: split at line feeds, without a final empty segment, a
/// trailing carriage return stripped from each line by `strip_cr`.
pub open spec fn lines_of(s: Seq<u8>) -> Seq<Seq<u8>> {
    let segs = split_spec(s, LF);
    if segs.len() > 1 && segs.last().len() == 0 {
        segs.drop_last()
    } else {
        segs
    }
}

/// The lines `segs` joined with line feeds, each but the first prefixed
/// with `indent` and stripped of a trailing carriage return. The first line
/// takes no prefix: at the substitution site the line's own leading
/// whitespace already stands before it.
pub open spec fn join_indented(indent: Seq<u8>, segs: Seq<Seq<u8>>) -> Seq<u8>
    decreases segs.len(),
{
    if segs.len() == 0 {
        Seq::empty()
    } else if segs.len() == 1 {
        strip_cr(segs[0])
    } else {
        join_indented(indent, segs.drop_last()) + seq![LF] + indent + strip_cr(segs.last())
    }
}

/// The replacement text, adjusted for layout: when it spans several lines
/// and the placeholder at `[start, end)` is the sole content of its line in
/// the original text, every replacement line after the first is prefixed
/// with that line's leading whitespace, so that after substitution each
/// line carries the placeholder line's indentation exactly once; otherwise
/// the replacement is used as is.
pub open spec fn adjust_spec(t: Seq<u8>, start: int, end: int, rep: Seq<u8>) -> Seq<u8> {
    if !rep.contains(LF) {
        rep
    } else if sole_on_line(t, start, end) {
        join_indented(t.subrange(line_start_of(t, start), start), lines_of(rep))
    } else {
        rep
    }
}

/// Whether `b` is layout whitespace.
fn ws_byte(b: u8) -> (r: bool)
    ensures
        r == is_ws(b),
{
    b == SPACE || b == TAB || b == CR
}

/// Adjust the replacement `rep` for the placeholder spanning
/// `[start, end)` of `text`, per `adjust_spec`.
#[verifier::rlimit(30)]
#[verifier::loop_isolation(false)]
pub fn adjust_replacement(text: &Vec<u8>, start: usize, end: usize, rep: Vec<u8>) -> (out: Vec<u8>)
    requires
        start <= end <= text@.len(),
    ensures
        out@ == adjust_spec(text@, start as int, end as int, rep@),
{
    let has_lf = crate::json::contains_byte(&rep, LF);
    if !has_lf {
        return rep;
    }
    let mut ls: usize = start;
    while ls > 0 && text[ls - 1] != LF
        invariant
            0 <= ls <= start,
            line_start_of(text@, start as int) == line_start_of(text@, ls as int),
        decreases ls,
    {
        ls = ls - 1;
    }
    assert(ls == line_start_of(text@, start as int));
    let mut le: usize = end;
    while le < text.len() && text[le] != LF
        invariant
            end <= le <= text@.len(),
            line_end_of(text@, end as int) == line_end_of(text@, le as int),
        decreases text@.len() - le,
    {
        le = le + 1;
    }
    assert(le == line_end_of(text@, end as int));
    let mut sole = true;
    let mut m: usize = ls;
    while m < start && sole
        invariant
            ls <= m <= start,
            sole ==> all_ws(text@, ls as int, m as int),
            !sole ==> !all_ws(text@, ls as int, start as int),
        decreases start - m,
    {
        if !ws_byte(text[m]) {
            sole = false;
            m = start;
        } else {
            m = m + 1;
        }
    }
    let mut m2: usize = end;
    while m2 < le && sole
        invariant
            end <= m2 <= le,
            sole ==> all_ws(text@, end as int, m2 as int),
            sole ==> all_ws(text@, ls as int, start as int),
            !sole ==> !sole_on_line(text@, start as int, end as int),
        decreases le - m2,
    {
        if !ws_byte(text[m2]) {
            sole = false;
            m2 = le;
        } else {
            m2 = m2 + 1;
        }
    }
    if !sole {
        assert(!sole_on_line(text@, start as int, end as int));
        return rep;
    }
    assert(sole_on_line(text@, start as int, end as int));
    let indent = copy_range(text, ls, start);
    let mut segs = split_bytes(&rep, LF);
    let ghost segs0 = views_of(segs@);
    proof {
        crate::json::lemma_split_from_nonempty(rep@, LF, 0, 0);
        assert(views_of(segs@).len() == segs@.len());
        assert(segs0.last() == segs@[segs@.len() - 1]@);
    }
    if segs.len() > 1 && segs[segs.len() - 1].len() == 0 {
        let _ = segs.pop();
        proof {
            assert(views_of(segs@) =~= segs0.drop_last());
            assert(lines_of(rep@) == segs0.drop_last());
        }
    } else {
        proof {
            assert(lines_of(rep@) == segs0);
        }
    }
    let ghost lv = lines_of(rep@);
    assert(views_of(segs@) == lv);
    let mut out: Vec<u8> = Vec::new();
    let mut j: usize = 0;
    while j < segs.len()
        invariant
            0 <= j <= segs@.len(),
            views_of(segs@) == lv,
            out@ == join_indented(indent@, lv.subrange(0, j as int)),
        decreases segs@.len() - j,
    {
        if j > 0 {
            out.push(LF);
            push_all(&mut out, &indent);
        }
        let seg = &segs[j];
        if seg.len() > 0 && seg[seg.len() - 1] == CR {
            let body = copy_range(seg, 0, seg.len() - 1);
            push_all(&mut out, &body);
        } else {
            push_all(&mut out, seg);
        }
        proof {
            assert(lv.subrange(0, j + 1 as int).drop_last() =~= lv.subrange(0, j as int));
            assert(lv.subrange(0, j + 1 as int).last() == lv[j as int]);
            assert(strip_cr(lv[j as int]) =~= strip_cr(segs@[j as int]@));
            assert(out@ =~= join_indented(indent@, lv.subrange(0, j + 1 as int)));
        }
        j = j + 1;
    }
    assert(lv.subrange(0, lv.len() as int) =~= lv);
    out
}

/// The sequence of secret-value views behind a sequence of optional
/// payloads.
pub open spec fn opt_jviews(s: Seq<Option<JsonVal>>) -> Seq<Option<JsonView>> {
    s.map_values(
        |p: Option<JsonVal>|
            match p {
                Some(v) => Some(v@),
                None => None,
            },
    )
}

/// The view of an optional byte path.
pub open spec fn opt_bytes(p: Option<Vec<u8>>) -> Option<Seq<u8>> {
    match p {
        Some(v) => Some(v@),
        None => None,
    }
}

/// The replacement text for a resolved secret value: the placeholder's path
/// (or, without one, its key) extracted from the value and stringified; when
/// extraction fails, the whole value for a placeholder without a path, and
/// no replacement at all for one with an explicit path.
pub open spec fn replacement_spec(val: JsonView, key: Seq<u8>, path: Option<Seq<u8>>) -> Option<
    Seq<u8>,
> {
    let target = match path {
        Some(p) => p,
        None => key,
    };
    match extract_path_spec(val, target) {
        Some(x) => Some(stringify(x)),
        None => match path {
            Some(_) => None,
            None => Some(stringify(val)),
        },
    }
}

/// Compute the replacement text for the normalized value `val` and a
/// placeholder with key `key` and optional explicit `path`, per
/// `replacement_spec`.
pub fn replacement_for(val: &JsonVal, key: &Vec<u8>, path: &Option<Vec<u8>>) -> (r: Option<
    Vec<u8>,
>)
    ensures
        match r {
            Some(rep) => replacement_spec(val@, key@, opt_bytes(*path)) == Some(rep@),
            None => replacement_spec(val@, key@, opt_bytes(*path)) is None,
        },
{
    let target: &Vec<u8> = match path {
        Some(p) => p,
        None => key,
    };
    match extract_path(val, target) {
        Some(x) => Some(to_replacement_text(x)),
        None => match path {
            Some(_) => None,
            None => Some(to_replacement_text(val)),
        },
    }
}

/// One step of rendering: placeholder `ph` of the original text `t`,
/// resolved to the raw payload `payload` (`None` when the secret was not
/// found or its response was not JSON), applied to the working buffer.
/// An unresolved placeholder leaves the buffer unchanged; otherwise the
/// payload is normalized, the replacement computed, adjusted for layout
/// against the original text, and substituted for the first remaining
/// occurrence of the placeholder's exact text.
pub open spec fn step_spec(
    t: Seq<u8>,
    ph: PhView,
    payload: Option<JsonView>,
    work: Seq<u8>,
) -> Seq<u8> {
    match payload {
        None => work,
        Some(p) => {
            let val = normalize_spec(p);
            match replacement_spec(val, ph.key, ph.path) {
                None => work,
                Some(rep) => replace_first_spec(
                    work,
                    ph.raw,
                    adjust_spec(t, ph.start, ph.end, rep),
                ),
            }
        },
    }
}

/// The working buffer after the placeholders `phs[k..]` have been applied
/// to `work`, each with its payload.
pub open spec fn render_fold(
    t: Seq<u8>,
    phs: Seq<PhView>,
    ps: Seq<Option<JsonView>>,
    k: int,
    work: Seq<u8>,
) -> Seq<u8>
    decreases phs.len() - k,
{
    if k < 0 || k >= phs.len() || k >= ps.len() {
        work
    } else {
        render_fold(t, phs, ps, k + 1, step_spec(t, phs[k], ps[k], work))
    }
}

/// The rendered text: every placeholder of `t`, in scan order, applied to a
/// working buffer that starts as `t` itself, with `ps[k]` the raw payload
/// fetched for the `k`-th placeholder.
pub open spec fn render_spec(t: Seq<u8>, ps: Seq<Option<JsonView>>) -> Seq<u8> {
    render_fold(t, scan_from(t, 0), ps, 0, t)
}

/// A text without placeholders renders to itself, whatever the payloads.
pub proof fn lemma_render_no_placeholders(t: Seq<u8>, ps: Seq<Option<JsonView>>)
    requires
        scan_from(t, 0).len() == 0,
    ensures
        render_spec(t, ps) == t,
{
}

/// Render `text`, substituting its placeholders in scan order; `payloads`
/// holds, for each placeholder of `text` in that order, the raw secret
/// payload fetched for its key, or `None` when the secret was not found.
#[verifier::loop_isolation(false)]
pub fn render_with_payloads(text: &Vec<u8>, payloads: Vec<Option<JsonVal>>) -> (out: Vec<u8>)
    requires
        payloads@.len() == scan_from(text@, 0).len(),
    ensures
        out@ == render_spec(text@, opt_jviews(payloads@)),
{
    let phs = scan(text);
    let ghost t = text@;
    let ghost phsv = ph_views(phs@);
    let ghost psv = opt_jviews(payloads@);
    let mut rest = payloads;
    let mut work = copy_range(text, 0, text.len());
    assert(work@ =~= t);
    let mut k: usize = 0;
    while k < phs.len()
        invariant
            0 <= k <= phs@.len(),
            phsv == ph_views(phs@),
            phsv == scan_from(t, 0),
            phsv.len() == psv.len(),
            rest@.len() == psv.len() - k,
            opt_jviews(rest@) =~= psv.subrange(k as int, psv.len() as int),
            render_fold(t, phsv, psv, 0, t) == render_fold(t, phsv, psv, k as int, work@),
        decreases phs@.len() - k,
    {
        let ghost w0 = work@;
        let ghost prev = rest@;
        let payload = rest.remove(0);
        proof {
            assert(payload == prev[0]);
            assert(opt_jviews(prev)[0] == psv.subrange(k as int, psv.len() as int)[0]);
            assert(psv[k as int] == match payload {
                Some(v) => Some(v@),
                None => None::<JsonView>,
            });
            assert forall|i: int| 0 <= i < rest@.len() implies #[trigger] opt_jviews(rest@)[i]
                == psv.subrange(k + 1 as int, psv.len() as int)[i] by {
                assert(rest@[i] == prev[i + 1]);
                assert(opt_jviews(prev)[i + 1] == psv.subrange(k as int, psv.len() as int)[i
                    + 1]);
            };
            assert(opt_jviews(rest@) =~= psv.subrange(k + 1 as int, psv.len() as int));
            assert(phsv[k as int] == phs@[k as int]@);
        }
        match payload {
            None => {
                assert(step_spec(t, phsv[k as int], psv[k as int], w0) == w0);
            },
            Some(p) => {
                let val = normalize(p);
                let ph = &phs[k];
                match replacement_for(&val, &ph.key, &ph.path) {
                    None => {
                        assert(step_spec(t, phsv[k as int], psv[k as int], w0) == w0);
                    },
                    Some(rep) => {
                        let adjusted = adjust_replacement(text, ph.start, ph.end, rep);
                        work = replace_first(&work, &ph.raw, &adjusted);
                        assert(work@ == step_spec(t, phsv[k as int], psv[k as int], w0));
                    },
                }
            },
        }
        proof {
            assert(render_fold(t, phsv, psv, k as int, w0) == render_fold(
                t,
                phsv,
                psv,
                k + 1 as int,
                step_spec(t, phsv[k as int], psv[k as int], w0),
            ));
        }
        k = k + 1;
    }
    assert(render_fold(t, phsv, psv, k as int, work@) == work@);
    work
}

} // verus!
