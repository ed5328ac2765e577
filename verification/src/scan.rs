//! The placeholder scanner: finds every `bws://key[/path]` occurrence in a
//! byte text, left to right, non-overlapping, as a pure function of the
//! text.
//!
//! Grammar: the marker `bws://`, then a key of one or more characters from
//! `[A-Za-z0-9_-]`, then optionally `/` and a path of one or more characters
//! from `[A-Za-z0-9_./-]`. Both runs are maximal. A key followed by `/` but
//! no path character yields a placeholder without a path, consuming only the
//! key.

use crate::json::copy_range;
use crate::ascii::{COLON, D0, D9, DOT, LOWER_A, LOWER_B, LOWER_S, LOWER_W, LOWER_Z, MINUS, SLASH,
    UNDERSCORE, UPPER_A, UPPER_Z};
use vstd::prelude::*;

verus! {

/// One placeholder occurrence: its span in the scanned text, its key, its
/// optional path, and the matched text itself.
#[derive(Debug, PartialEq, Eq)]
pub struct Placeholder {
    pub start: usize,
    pub end: usize,
    pub key: Vec<u8>,
    pub path: Option<Vec<u8>>,
    pub raw: Vec<u8>,
}

/// Mathematical model of a placeholder occurrence.
#[verifier::ext_equal]
pub struct PhView {
    pub start: int,
    pub end: int,
    pub key: Seq<u8>,
    pub path: Option<Seq<u8>>,
    pub raw: Seq<u8>,
}

impl View for Placeholder {
    type V = PhView;

    open spec fn view(&self) -> PhView {
        PhView {
            start: self.start as int,
            end: self.end as int,
            key: self.key@,
            path: match self.path {
                Some(p) => Some(p@),
                None => None,
            },
            raw: self.raw@,
        }
    }
}

/// A byte a key may consist of: `[A-Za-z0-9_-]`.
pub open spec fn is_key_byte(b: u8) -> bool {
    (UPPER_A <= b <= UPPER_Z) || (LOWER_A <= b <= LOWER_Z) || (D0 <= b <= D9) || b == UNDERSCORE
        || b == MINUS
}

/// A byte a path may consist of: `[A-Za-z0-9_./-]`.
pub open spec fn is_path_byte(b: u8) -> bool {
    is_key_byte(b) || b == DOT || b == SLASH
}

/// The placeholder marker `bws://`.
pub open spec fn marker() -> Seq<u8> {
    seq![LOWER_B, LOWER_W, LOWER_S, COLON, SLASH, SLASH]
}

/// End of the maximal run of key bytes starting at `j`.
pub open spec fn key_run_end(t: Seq<u8>, j: int) -> int
    decreases t.len() - j,
{
    if 0 <= j < t.len() && is_key_byte(t[j]) {
        key_run_end(t, j + 1)
    } else {
        j
    }
}

/// End of the maximal run of path bytes starting at `j`.
pub open spec fn path_run_end(t: Seq<u8>, j: int) -> int
    decreases t.len() - j,
{
    if 0 <= j < t.len() && is_path_byte(t[j]) {
        path_run_end(t, j + 1)
    } else {
        j
    }
}

pub proof fn lemma_key_run_end(t: Seq<u8>, j: int)
    requires
        0 <= j <= t.len(),
    ensures
        j <= key_run_end(t, j) <= t.len(),
    decreases t.len() - j,
{
    if j < t.len() && is_key_byte(t[j]) {
        lemma_key_run_end(t, j + 1);
    }
}

pub proof fn lemma_path_run_end(t: Seq<u8>, j: int)
    requires
        0 <= j <= t.len(),
    ensures
        j <= path_run_end(t, j) <= t.len(),
    decreases t.len() - j,
{
    if j < t.len() && is_path_byte(t[j]) {
        lemma_path_run_end(t, j + 1);
    }
}

/// Whether a placeholder match begins at position `i`: the marker followed
/// by at least one key byte.
pub open spec fn match_at(t: Seq<u8>, i: int) -> bool {
    &&& 0 <= i
    &&& i + 6 < t.len()
    &&& t.subrange(i, i + 6) == marker()
    &&& is_key_byte(t[i + 6])
}

/// Where the match starting at `i` ends: after the key run, and after the
/// path run if a `/` and at least one path byte follow the key.
pub open spec fn match_end(t: Seq<u8>, i: int) -> int {
    let ke = key_run_end(t, i + 6);
    if ke < t.len() && t[ke] == SLASH && ke + 1 < t.len() && is_path_byte(t[ke + 1]) {
        path_run_end(t, ke + 1)
    } else {
        ke
    }
}

/// The placeholder matched at position `i`.
pub open spec fn ph_at(t: Seq<u8>, i: int) -> PhView {
    let ke = key_run_end(t, i + 6);
    let end = match_end(t, i);
    PhView {
        start: i,
        end: end,
        key: t.subrange(i + 6, ke),
        path: if end == ke {
            None
        } else {
            Some(t.subrange(ke + 1, end))
        },
        raw: t.subrange(i, end),
    }
}

pub proof fn lemma_match_end(t: Seq<u8>, i: int)
    requires
        match_at(t, i),
    ensures
        i < match_end(t, i) <= t.len(),
        i + 6 < key_run_end(t, i + 6),
{
    lemma_key_run_end(t, i + 7);
    let ke = key_run_end(t, i + 6);
    if ke < t.len() && t[ke] == SLASH && ke + 1 < t.len() && is_path_byte(t[ke + 1]) {
        lemma_path_run_end(t, ke + 2);
    }
}

/// Every placeholder of `t` at or after position `i`, in order of first
/// character, non-overlapping, each match maximal.
pub open spec fn scan_from(t: Seq<u8>, i: int) -> Seq<PhView>
    decreases t.len() - i,
{
    if i < 0 || i >= t.len() {
        Seq::empty()
    } else if match_at(t, i) {
        proof {
            lemma_match_end(t, i);
        }
        seq![ph_at(t, i)] + scan_from(t, match_end(t, i))
    } else {
        scan_from(t, i + 1)
    }
}

/// The views of a sequence of placeholders.
pub open spec fn ph_views(s: Seq<Placeholder>) -> Seq<PhView> {
    s.map_values(|p: Placeholder| p@)
}

/// Whether `b` is a key byte.
fn key_byte(b: u8) -> (r: bool)
    ensures
        r == is_key_byte(b),
{
    (UPPER_A <= b && b <= UPPER_Z) || (LOWER_A <= b && b <= LOWER_Z) || (D0 <= b && b <= D9) || b
        == UNDERSCORE || b == MINUS
}

/// Whether `b` is a path byte.
fn path_byte(b: u8) -> (r: bool)
    ensures
        r == is_path_byte(b),
{
    key_byte(b) || b == DOT || b == SLASH
}

/// Scan `text` for placeholders, yielding them in left-to-right order of
/// their first character, non-overlapping; each carries its span in `text`,
/// its key, its optional path and the matched text.
#[verifier::loop_isolation(false)]
pub fn scan(text: &Vec<u8>) -> (phs: Vec<Placeholder>)
    ensures
        ph_views(phs@) == scan_from(text@, 0),
        forall|j: int|
            0 <= j < phs@.len() ==> (#[trigger] phs@[j]).start <= phs@[j].end && phs@[j].end
                <= text@.len(),
{
    let n = text.len();
    let mut phs: Vec<Placeholder> = Vec::new();
    let mut i: usize = 0;
    while i < n
        invariant
            0 <= i <= n,
            scan_from(text@, 0) == ph_views(phs@) + scan_from(text@, i as int),
            forall|j: int|
                0 <= j < phs@.len() ==> (#[trigger] phs@[j]).start <= phs@[j].end && phs@[j].end
                    <= text@.len(),
        decreases n - i,
    {
        let is_match: bool = n - i > 6 && text[i] == LOWER_B && text[i + 1] == LOWER_W && text[i
            + 2] == LOWER_S && text[i + 3] == COLON && text[i + 4] == SLASH && text[i + 5] == SLASH
            && key_byte(text[i + 6]);
        if is_match {
            proof {
                assert(text@.subrange(i as int, i + 6 as int) =~= marker());
                assert(match_at(text@, i as int));
                lemma_match_end(text@, i as int);
            }
            let mut ke: usize = i + 7;
            while ke < n && key_byte(text[ke])
                invariant
                    i + 7 <= ke <= n,
                    key_run_end(text@, i + 6) == key_run_end(text@, ke as int),
                decreases n - ke,
            {
                ke = ke + 1;
            }
            assert(ke == key_run_end(text@, i + 6));
            let key = copy_range(text, i + 6, ke);
            let end: usize;
            let path: Option<Vec<u8>>;
            if ke < n && text[ke] == SLASH && ke + 1 < n && path_byte(text[ke + 1]) {
                let mut pe: usize = ke + 2;
                while pe < n && path_byte(text[pe])
                    invariant
                        ke + 2 <= pe <= n,
                        path_run_end(text@, ke + 1 as int) == path_run_end(text@, pe as int),
                    decreases n - pe,
                {
                    pe = pe + 1;
                }
                assert(pe == path_run_end(text@, ke + 1 as int));
                end = pe;
                path = Some(copy_range(text, ke + 1, pe));
            } else {
                end = ke;
                path = None;
            }
            assert(end == match_end(text@, i as int));
            let raw = copy_range(text, i, end);
            let ph = Placeholder { start: i, end, key, path, raw };
            proof {
                assert(ph@ == ph_at(text@, i as int));
                assert(ph_views(phs@.push(ph)) =~= ph_views(phs@).push(ph@));
                assert(scan_from(text@, i as int) == seq![ph_at(text@, i as int)] + scan_from(
                    text@,
                    match_end(text@, i as int),
                ));
                assert(ph_views(phs@.push(ph)) + scan_from(text@, end as int) =~= ph_views(phs@)
                    + scan_from(text@, i as int));
            }
            phs.push(ph);
            i = end;
        } else {
            proof {
                if i + 6 < n {
                    if text@.subrange(i as int, i + 6 as int) == marker() {
                        assert(text@[i as int] == marker()[0]);
                        assert(text@[i + 1] == marker()[1]);
                        assert(text@[i + 2] == marker()[2]);
                        assert(text@[i + 3] == marker()[3]);
                        assert(text@[i + 4] == marker()[4]);
                        assert(text@[i + 5] == marker()[5]);
                        assert(!is_key_byte(text@[i + 6]));
                    }
                    assert(!match_at(text@, i as int));
                }
                assert(!match_at(text@, i as int));
                assert(scan_from(text@, i as int) == scan_from(text@, i + 1 as int));
            }
            i = i + 1;
        }
    }
    assert(scan_from(text@, i as int) =~= Seq::<PhView>::empty());
    assert(ph_views(phs@) =~= ph_views(phs@) + scan_from(text@, i as int));
    phs
}

} // verus!
