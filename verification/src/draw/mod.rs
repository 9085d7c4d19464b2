//! Random paths for tests: relative, absolute and normalized paths drawn
//! byte by byte, with special bytes (`.` and separators) mixed into
//! alphanumeric names.
pub mod unix;
pub mod windows;

use vstd::prelude::*;

use crate::imp::unix_model::{DOT, SLASH};
use crate::imp::windows_model::BACKSLASH;
use unix::unix_norm_state;
use windows::win_norm_written;

pub use unix::{absolute, common, normal, relative};

verus! {

/// Draws a `usize` in `lo..hi`.
///
/// Calls `fastrand::usize` on the range; the contract claims only that the
/// result lies in the range, as the crate documents.
#[verifier::external_body]
pub(crate) fn rand_usize(lo: usize, hi: usize) -> (r: usize)
    requires
        lo < hi,
    ensures
        lo <= r < hi,
{
    fastrand::usize(lo..hi)
}

/// Draws a `u8` in `lo..hi`.
///
/// Calls `fastrand::u8` on the range; the contract claims only that the
/// result lies in the range, as the crate documents.
#[verifier::external_body]
pub(crate) fn rand_u8(lo: u8, hi: u8) -> (r: u8)
    requires
        lo < hi,
    ensures
        lo <= r < hi,
{
    fastrand::u8(lo..hi)
}

/// Draws a `bool`.
///
/// Calls `fastrand::bool`; nothing is claimed of the result.
#[verifier::external_body]
pub(crate) fn rand_bool() -> bool {
    fastrand::bool()
}

/// An ASCII digit or letter.
pub open spec fn is_alnum(b: u8) -> bool {
    (48 <= b && b <= 57) || (97 <= b && b <= 122) || (65 <= b && b <= 90)
}

/// A byte that the generators mix into names: `.`, `/` or `\`.
pub open spec fn is_special(b: u8) -> bool {
    b == DOT || b == SLASH || b == BACKSLASH
}

/// The digit or letter that the draw `idx` gives: `0-9`, then `a-z`, then
/// `A-Z`.
pub open spec fn alnum_byte(idx: u8) -> u8 {
    if idx < 10 {
        (48 + idx) as u8
    } else if idx < 36 {
        (97 + (idx - 10)) as u8
    } else {
        (65 + (idx - 36)) as u8
    }
}

/// The digits and letters that the draws `idx` give, one byte per draw.
pub open spec fn alnum_bytes(idx: Seq<u8>) -> Seq<u8> {
    Seq::new(idx.len(), |i: int| alnum_byte(idx[i]))
}

/// Whether every draw of `d` lies in `0..hi`.
pub open spec fn draws_below(d: Seq<u8>, hi: u8) -> bool {
    forall|i: int| 0 <= i < d.len() ==> #[trigger] d[i] < hi
}

/// The digit or letter that the draw `idx` gives.
fn alnum_at(idx: u8) -> (b: u8)
    requires
        idx < 62,
    ensures
        b == alnum_byte(idx),
        is_alnum(b),
{
    if idx < 10 {
        48 + idx
    } else if idx < 36 {
        97 + (idx - 10)
    } else {
        65 + (idx - 36)
    }
}

/// The digits and letters that the draws `idx` give.
pub fn alphanumeric(idx: &[u8]) -> (res: Vec<u8>)
    requires
        draws_below(idx@, 62),
    ensures
        res@ == alnum_bytes(idx@),
        forall|i: int| 0 <= i < idx@.len() ==> #[trigger] is_alnum(res@[i]),
{
    let len = idx.len();
    let mut out: Vec<u8> = Vec::new();
    let mut i: usize = 0;
    while i < len
        invariant
            i <= len,
            len == idx@.len(),
            draws_below(idx@, 62),
            out@ == alnum_bytes(idx@).subrange(0, i as int),
            forall|j: int| 0 <= j < i ==> #[trigger] is_alnum(out@[j]),
        decreases len - i,
    {
        assert(idx@[i as int] < 62);
        let b = alnum_at(idx[i]);
        out.push(b);
        i = i + 1;
        assert(out@ =~= alnum_bytes(idx@).subrange(0, i as int));
    }
    assert(out@ =~= alnum_bytes(idx@));
    out
}

/// `n` random draws, each in `0..hi`.
pub(crate) fn draw_bytes(n: usize, hi: u8) -> (res: Vec<u8>)
    requires
        hi > 0,
    ensures
        res@.len() == n,
        draws_below(res@, hi),
{
    let mut out: Vec<u8> = Vec::new();
    let mut i: usize = 0;
    while i < n
        invariant
            i <= n,
            hi > 0,
            out@.len() == i,
            draws_below(out@, hi),
        decreases n - i,
    {
        out.push(rand_u8(0, hi));
        i = i + 1;
    }
    out
}

/// `n` random coins.
pub(crate) fn draw_coins(n: usize) -> (res: Vec<bool>)
    ensures
        res@.len() == n,
{
    let mut out: Vec<bool> = Vec::new();
    let mut i: usize = 0;
    while i < n
        invariant
            i <= n,
            out@.len() == i,
        decreases n - i,
    {
        out.push(rand_bool());
        i = i + 1;
    }
    out
}

/// Which bytes may follow which in a generated path.
#[derive(Clone, Copy, PartialEq, Eq, Structural)]
pub enum Style {
    /// Unix, with any special pattern.
    Unix,
    /// Unix, only what a normalized path holds.
    UnixNormal,
    /// Windows, with any special pattern and both separators.
    Windows,
    /// Windows, only what a normalized path holds.
    WindowsNormal,
}

/// The number of outcomes of each special draw in the given style.
pub open spec fn special_range(style: Style) -> u8 {
    match style {
        Style::Windows => 12,
        _ => 6,
    }
}

/// The special byte, if any, that the draw `r` gives after `last` in the
/// given style.
pub open spec fn special_choice(style: Style, last: u8, r: u8) -> Option<u8> {
    match style {
        Style::Unix => unix::special_for(last, r),
        Style::UnixNormal => unix::norm_special_for(last, r),
        Style::Windows => windows::special_for(last, r),
        Style::WindowsNormal => windows::norm_special_for(last, r),
    }
}

/// The special byte, if any, that the draw `r` gives after `last` in the
/// given style.
fn change(style: Style, last: u8, r: u8) -> (res: Option<u8>)
    requires
        r < special_range(style),
    ensures
        res == special_choice(style, last, r),
        res matches Some(b) ==> is_special(b),
        style == Style::UnixNormal ==> match res {
            None => true,
            Some(b) => if last == SLASH || last == DOT {
                b == DOT
            } else {
                b == SLASH
            },
        },
        style == Style::Unix ==> (res matches Some(b) ==> b != BACKSLASH),
        style == Style::WindowsNormal ==> match res {
            None => true,
            Some(b) => if last == BACKSLASH || last == DOT {
                b == DOT
            } else {
                b == BACKSLASH
            },
        },
{
    match style {
        Style::Unix => unix::maybe_special(last, r),
        Style::UnixNormal => unix::maybe_norm_special(last, r),
        Style::Windows => windows::maybe_special(last, r),
        Style::WindowsNormal => windows::maybe_norm_special(last, r),
    }
}

/// The bytes and the last special byte after rewriting `raw` from `from`
/// up to `i` with the draws `d`, starting after `init`: each byte becomes
/// the special byte that its draw gives after the last one written, or
/// stays as it is, which counts as an `x`.
pub open spec fn rewrite_upto(raw: Seq<u8>, from: int, init: u8, style: Style, d: Seq<u8>, i: int) -> (
    Seq<u8>,
    u8,
)
    decreases i - from,
{
    if i <= from {
        (raw, init)
    } else {
        let (q, last) = rewrite_upto(raw, from, init, style, d, i - 1);
        match special_choice(style, last, d[i - 1]) {
            Some(b) => (q.update(i - 1, b), b),
            None => (q, 120u8),
        }
    }
}

/// Rewriting keeps the length of `raw`.
pub proof fn lemma_rewrite_len(raw: Seq<u8>, from: int, init: u8, style: Style, d: Seq<u8>, i: int)
    requires
        0 <= from,
        i <= raw.len(),
    ensures
        rewrite_upto(raw, from, init, style, d, i).0.len() == raw.len(),
    decreases i - from,
{
    if i > from {
        lemma_rewrite_len(raw, from, init, style, d, i - 1);
    }
}

/// `raw` rewritten from `from` to its end with the draws `d`.
pub open spec fn rewritten(raw: Seq<u8>, from: int, init: u8, style: Style, d: Seq<u8>) -> (Seq<u8>, u8) {
    rewrite_upto(raw, from, init, style, d, raw.len() as int)
}

/// Rewrites `raw` from `from` on with the draws `d`: each byte becomes the
/// special byte that its draw gives after the last special byte written, or
/// stays as it is.
/// Yields the last special byte written, or `x` if the last byte was kept.
pub(crate) fn rewrite(raw: &mut Vec<u8>, from: usize, init: u8, style: Style, d: &[u8]) -> (last: u8)
    requires
        from <= old(raw)@.len(),
        d@.len() == old(raw)@.len(),
        draws_below(d@, special_range(style)),
    ensures
        (final(raw)@, last) == rewritten(old(raw)@, from as int, init, style, d@),
        final(raw)@.len() == old(raw)@.len(),
        forall|j: int| 0 <= j < from ==> final(raw)@[j] == old(raw)@[j],
        forall|j: int| from <= j < old(raw)@.len() ==> final(raw)@[j] == old(raw)@[j]
            || is_special(#[trigger] final(raw)@[j]),
        style == Style::Unix ==> forall|j: int| from <= j < old(raw)@.len() ==> final(raw)@[j]
            == old(raw)@[j] || #[trigger] final(raw)@[j] == DOT || final(raw)@[j] == SLASH,
        style == Style::UnixNormal && unix_norm_state(old(raw)@.subrange(0, from as int), init)
            && (forall|j: int| from <= j < old(raw)@.len() ==> #[trigger] is_alnum(old(raw)@[j]))
            ==> unix_norm_state(final(raw)@, last),
        style == Style::WindowsNormal && (forall|j: int| from <= j < old(raw)@.len() ==> #[trigger] is_alnum(
            old(raw)@[j],
        )) ==> win_norm_written(final(raw)@, from as int, init, last),
{
    let n = raw.len();
    let ghost orig = raw@;
    let mut last = init;
    let mut i = from;
    while i < n
        invariant
            from <= i <= n,
            n == raw@.len(),
            n == orig.len(),
            n == d@.len(),
            draws_below(d@, special_range(style)),
            (raw@, last) == rewrite_upto(orig, from as int, init, style, d@, i as int),
            forall|j: int| 0 <= j < from ==> raw@[j] == orig[j],
            forall|j: int| i <= j < n ==> raw@[j] == orig[j],
            forall|j: int| from <= j < i ==> raw@[j] == orig[j] || is_special(#[trigger] raw@[j]),
            style == Style::Unix ==> forall|j: int| from <= j < i ==> raw@[j] == orig[j]
                || #[trigger] raw@[j] == DOT || raw@[j] == SLASH,
            style == Style::UnixNormal && unix_norm_state(orig.subrange(0, from as int), init)
                && (forall|j: int| from <= j < n ==> #[trigger] is_alnum(orig[j]))
                ==> unix_norm_state(raw@.subrange(0, i as int), last),
            style == Style::WindowsNormal && (forall|j: int| from <= j < n ==> #[trigger] is_alnum(
                orig[j],
            )) ==> win_norm_written(raw@.subrange(0, i as int), from as int, init, last),
        decreases n - i,
    {
        let ghost before = raw@;
        let ghost prev = last;
        assert(d@[i as int] < special_range(style));
        match change(style, last, d[i]) {
            Some(b) => {
                raw.set(i, b);
                last = b;
            },
            None => {
                last = 120;
            },
        }
        proof {
            if style == Style::UnixNormal && unix_norm_state(orig.subrange(0, from as int), init)
                && (forall|j: int| from <= j < n ==> #[trigger] is_alnum(orig[j])) {
                if i == from {
                    assert(before.subrange(0, i as int) =~= orig.subrange(0, from as int));
                }
                assert(is_alnum(orig[i as int]));
                assert(raw@.subrange(0, i + 1) =~= before.subrange(0, i as int).push(raw@[i as int]));
                unix::lemma_norm_step(before.subrange(0, i as int), prev, raw@[i as int], last);
            }
            if style == Style::WindowsNormal && (forall|j: int| from <= j < n ==> #[trigger] is_alnum(
                orig[j],
            )) {
                let q = before.subrange(0, i as int);
                assert(is_alnum(orig[i as int]));
                assert(raw@.subrange(0, i + 1) =~= q.push(raw@[i as int]));
                assert forall|j: int| from <= j < i + 1 implies #[trigger] raw@.subrange(0, i + 1)[j]
                    == q.push(raw@[i as int])[j] by {}
            }
        }
        i = i + 1;
    }
    assert(raw@.subrange(0, n as int) =~= raw@);
    last
}

} // verus!
