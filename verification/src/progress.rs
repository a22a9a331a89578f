//! Following the progress that `melt` prints while it renders.
//!
//! `melt` writes `percentage: N` markers without newlines, so the output is
//! read in chunks of text that are scanned as they arrive, keeping what
//! follows the last marker for the next chunk.

use vstd::prelude::*;
use crate::text::{
    chars_of, decimal, is_ascii_digit, is_whitespace, lemma_decimal_digits, lemma_parse_decimal, digits_end, digits_end_from, find, find_in, lemma_find_from_bounds, parse_u32,
    parse_u32_range, push_char, skip_whitespace, skip_whitespace_from, string_from_chars, subvec,
    utf8_len, utf8_len_exceeds,
};

verus! {

/// The text that precedes a progress value.
pub open spec fn progress_marker() -> Seq<char> {
    "percentage:"@
}

/// Bytes of pending text kept between chunks; beyond that it is dropped.
pub const MAX_PENDING_BYTES: usize = 8192;

/// The progress value that follows a marker: the digits after any
/// whitespace, read as a number, reported as at most 99.
pub open spec fn value_after_marker(rest: Seq<char>) -> Option<u32> {
    let a = skip_whitespace_from(rest, 0);
    let b = digits_end_from(rest, a);
    match parse_u32(rest.subrange(a, b)) {
        Some(p) => Some(if p < 99 { p } else { 99 }),
        None => None,
    }
}

/// The marker is eleven characters long.
pub proof fn lemma_marker_len()
    ensures
        progress_marker().len() == 11,
{
    reveal_strlit("percentage:");
}

/// Scans `text` for progress markers from the first on: the values that
/// they give, and the text after the last marker scanned.  With no frames
/// to render, scanning stops after the first marker.
pub open spec fn scan_progress(text: Seq<char>, total_frames: i64) -> (Seq<u32>, Seq<char>)
    decreases text.len(),
{
    match find(text, progress_marker()) {
        None => (Seq::empty(), text),
        Some(pos) => {
            proof {
                lemma_find_from_bounds(text, progress_marker(), 0);
                lemma_marker_len();
            }
            let rest = text.skip(pos + progress_marker().len());
            let found = match value_after_marker(rest) {
                Some(v) => seq![v],
                None => Seq::empty(),
            };
            if total_frames <= 0 {
                (found, rest)
            } else {
                let (more, left) = scan_progress(rest, total_frames);
                (found + more, left)
            }
        },
    }
}

/// The pending text after scanning: what follows the last marker, dropped
/// when it has grown beyond `MAX_PENDING_BYTES` bytes.
pub open spec fn pending_after(left: Seq<char>) -> Seq<char> {
    if utf8_len(left) > MAX_PENDING_BYTES { Seq::empty() } else { left }
}

fn value_after_marker_exec(rest: &Vec<char>) -> (r: Option<u32>)
    ensures
        r == value_after_marker(rest@),
{
    let a = skip_whitespace(rest, 0);
    let b = digits_end(rest, a);
    match parse_u32_range(rest, a, b) {
        Some(p) => Some(if p < 99 { p } else { 99 }),
        None => None,
    }
}

/// Takes in a chunk of `melt`'s output: appends it to the pending text,
/// returns the progress values of the markers in it, and keeps as pending
/// text what follows the last marker (nothing when that is too long).
pub fn take_progress_chunk(pending: &mut String, chunk: &str, total_frames: i64) -> (values: Vec<u32>)
    ensures
        values@ == scan_progress(old(pending)@ + chunk@, total_frames).0,
        final(pending)@ == pending_after(scan_progress(old(pending)@ + chunk@, total_frames).1),
{
    let mut v = chars_of(pending.as_str());
    let c = chars_of(chunk);
    let mut k: usize = 0;
    let ghost v0 = v@;
    while k < c.len()
        invariant
            k <= c.len(),
            c@ == chunk@,
            v0 == old(pending)@,
            v@ == v0 + c@.take(k as int),
        decreases c.len() - k,
    {
        v.push(c[k]);
        k = k + 1;
        assert(v@ =~= v0 + c@.take(k as int));
    }
    assert(c@.take(k as int) =~= chunk@);
    let ghost text = v@;
    let marker = chars_of("percentage:");
    proof {
        lemma_marker_len();
    }
    let mut values: Vec<u32> = Vec::new();
    loop
        invariant
            marker@ == progress_marker(),
            progress_marker().len() == 11,
            text == old(pending)@ + chunk@,
            scan_progress(text, total_frames) == (values@ + scan_progress(v@, total_frames).0, scan_progress(v@, total_frames).1),
        ensures
            scan_progress(text, total_frames) == (values@, v@),
        decreases v@.len(),
    {
        match find_in(&v, &marker, 0) {
            None => {
                assert(scan_progress(v@, total_frames) == (Seq::<u32>::empty(), v@));
                assert(values@ + Seq::<u32>::empty() =~= values@);
                break;
            },
            Some(pos) => {
                proof {
                    lemma_find_from_bounds(v@, progress_marker(), 0);
                }
                let rest = subvec(&v, pos + marker.len(), v.len());
                assert(rest@ =~= v@.skip(pos + progress_marker().len()));
                let ghost before = values@;
                let ghost vv = v@;
                let ghost found = match value_after_marker(rest@) {
                    Some(x) => seq![x],
                    None => Seq::<u32>::empty(),
                };
                match value_after_marker_exec(&rest) {
                    Some(x) => {
                        values.push(x);
                    },
                    None => {},
                }
                assert(values@ =~= before + found);
                if total_frames <= 0 {
                    assert(scan_progress(vv, total_frames) == (found, rest@));
                    v = rest;
                    proof {
                        assert(scan_progress(text, total_frames).0 =~= values@);
                    }
                    let left = if utf8_len_exceeds(&v, MAX_PENDING_BYTES) {
                        String::new()
                    } else {
                        string_from_chars(&v)
                    };
                    *pending = left;
                    return values;
                }
                assert(scan_progress(vv, total_frames) == (found + scan_progress(rest@, total_frames).0, scan_progress(rest@, total_frames).1));
                assert(before + (found + scan_progress(rest@, total_frames).0) =~= values@ + scan_progress(rest@, total_frames).0);
                v = rest;
            },
        }
    }
    let left = if utf8_len_exceeds(&v, MAX_PENDING_BYTES) {
        String::new()
    } else {
        string_from_chars(&v)
    };
    *pending = left;
    values
}


/// Progress values stay below 100 while `melt` runs: every reported
/// value is at most 99, and the text kept between chunks never exceeds
/// `MAX_PENDING_BYTES` bytes.
pub proof fn lemma_progress_bounded(text: Seq<char>, total_frames: i64)
    ensures
        forall|i: int| 0 <= i < scan_progress(text, total_frames).0.len() ==> #[trigger] scan_progress(text, total_frames).0[i] <= 99,
        utf8_len(pending_after(scan_progress(text, total_frames).1)) <= MAX_PENDING_BYTES,
    decreases text.len(),
{
    match find(text, progress_marker()) {
        None => {},
        Some(pos) => {
            lemma_find_from_bounds(text, progress_marker(), 0);
            lemma_marker_len();
            let rest = text.skip(pos + progress_marker().len());
            let found = match value_after_marker(rest) {
                Some(v) => seq![v],
                None => Seq::<u32>::empty(),
            };
            if total_frames > 0 {
                lemma_progress_bounded(rest, total_frames);
                let more = scan_progress(rest, total_frames).0;
                assert forall|i: int| 0 <= i < scan_progress(text, total_frames).0.len() implies #[trigger] scan_progress(text, total_frames).0[i] <= 99 by {
                    if i < found.len() {
                        assert(scan_progress(text, total_frames).0[i] == found[i]);
                    } else {
                        assert(scan_progress(text, total_frames).0[i] == more[i - found.len()]);
                    }
                }
            }
        },
    }
    assert(utf8_len(Seq::<char>::empty()) == 0);
}


proof fn lemma_skip_whitespace_prefix(w: Seq<char>, t: Seq<char>, i: int)
    requires
        0 <= i <= w.len(),
        forall|k: int| 0 <= k < w.len() ==> is_whitespace(#[trigger] w[k]),
        t.len() > 0,
        !is_whitespace(t[0]),
    ensures
        skip_whitespace_from(w + t, i) == w.len(),
    decreases w.len() - i,
{
    if i < w.len() {
        assert((w + t)[i] == w[i]);
        lemma_skip_whitespace_prefix(w, t, i + 1);
    } else {
        assert((w + t)[i] == t[0]);
    }
}

proof fn lemma_digits_run(s: Seq<char>, i: int, b: int)
    requires
        0 <= i <= b <= s.len(),
        forall|k: int| i <= k < b ==> is_ascii_digit(#[trigger] s[k]),
        b == s.len() || !is_ascii_digit(s[b]),
    ensures
        digits_end_from(s, i) == b,
    decreases b - i,
{
    if i < b {
        lemma_digits_run(s, i + 1, b);
    }
}

/// The value read after a marker is the number written there, up to 99:
/// after any whitespace, the digits of `n` followed by anything but a
/// digit give `min(n, 99)`.
pub proof fn lemma_marker_value(w: Seq<char>, n: u32, after: Seq<char>)
    requires
        forall|k: int| 0 <= k < w.len() ==> is_whitespace(#[trigger] w[k]),
        after.len() == 0 || !is_ascii_digit(after[0]),
    ensures
        value_after_marker(w + decimal(n as nat) + after) == Some(if n < 99 { n } else { 99u32 }),
{
    let d = decimal(n as nat);
    let rest = w + d + after;
    lemma_decimal_digits(n as nat);
    lemma_parse_decimal(n);
    assert(is_ascii_digit(d[0]));
    assert(!is_whitespace(d[0]));
    assert(rest =~= w + (d + after));
    lemma_skip_whitespace_prefix(w, d + after, 0);
    let a = w.len() as int;
    let b = a + d.len();
    assert forall|k: int| a <= k < b implies is_ascii_digit(#[trigger] rest[k]) by {
        assert(rest[k] == d[k - a]);
    }
    if after.len() > 0 {
        assert(rest[b] == after[0]);
    }
    lemma_digits_run(rest, a, b);
    assert(rest.subrange(a, b) =~= d);
}

/// A chunk that reads `percentage:` then a number reports that number,
/// up to 99, as its first progress value.
pub proof fn lemma_progress_reports_marker(w: Seq<char>, n: u32, after: Seq<char>, total_frames: i64)
    requires
        forall|k: int| 0 <= k < w.len() ==> is_whitespace(#[trigger] w[k]),
        after.len() == 0 || !is_ascii_digit(after[0]),
    ensures
        ({
            let values = scan_progress(progress_marker() + w + decimal(n as nat) + after, total_frames).0;
            values.len() >= 1 && values[0] == if n < 99 { n } else { 99u32 }
        }),
{
    let rest = w + decimal(n as nat) + after;
    let text = progress_marker() + w + decimal(n as nat) + after;
    lemma_marker_len();
    assert(text =~= progress_marker() + rest);
    assert(text.subrange(0, 11) =~= progress_marker());
    assert(find(text, progress_marker()) == Some(0int));
    assert(text.skip(11) =~= rest);
    lemma_marker_value(w, n, after);
}

} // verus!
