//! Random Windows paths.
use vstd::prelude::*;

use super::{
    alnum_bytes, alphanumeric, draw_bytes, draw_coins, draws_below, is_alnum, is_special,
    lemma_rewrite_len, rand_bool, rand_u8, rand_usize, rewrite, rewritten, Style,
};
use crate::imp::unix_model::{dot, dot_dot, is_normal_component, DOT, SLASH};
use crate::trivial::Error;
use crate::imp::windows_model::{
    after_root, first_sep_from, is_device, is_disk, is_letter, is_sep, is_unc, is_verbatim,
    lemma_first_sep_bounds, lemma_first_sep_is, lemma_names_no_issues, lemma_prefix_bounds,
    lemma_wsplit_shape, lemma_wsplit_step, prefix_error, searcher_issues, seps, win_absolute,
    win_tail, win_validate_result, wsplit, BACKSLASH, COLON, QUESTION,
};

verus! {

/// The special byte, if any, that the draw `r` in `0..12` gives after
/// `last`: after a separator, a dot for four draws, nothing for six and
/// either separator for one each; after a dot, by `r` modulo six, a dot or
/// nothing for two each and either separator for one each; after anything
/// else, either separator for one draw each.
pub open spec fn special_for(last: u8, r: u8) -> Option<u8> {
    if last == SLASH || last == BACKSLASH {
        if r < 4 {
            Some(DOT)
        } else if r < 10 {
            None
        } else if r == 10 {
            Some(SLASH)
        } else {
            Some(BACKSLASH)
        }
    } else if last == DOT {
        if r % 6 < 2 {
            Some(DOT)
        } else if r % 6 < 4 {
            None
        } else if r % 6 == 4 {
            Some(SLASH)
        } else {
            Some(BACKSLASH)
        }
    } else if r == 0 {
        Some(SLASH)
    } else if r == 1 {
        Some(BACKSLASH)
    } else {
        None
    }
}

/// The special byte, if any, that the draw `r` gives after `last`.
pub fn maybe_special(last: u8, r: u8) -> (res: Option<u8>)
    requires
        r < 12,
    ensures
        res == special_for(last, r),
{
    if last == SLASH || last == BACKSLASH {
        if r < 4 {
            Some(DOT)
        } else if r < 10 {
            None
        } else if r == 10 {
            Some(SLASH)
        } else {
            Some(BACKSLASH)
        }
    } else if last == DOT {
        if r % 6 < 2 {
            Some(DOT)
        } else if r % 6 < 4 {
            None
        } else if r % 6 == 4 {
            Some(SLASH)
        } else {
            Some(BACKSLASH)
        }
    } else if r == 0 {
        Some(SLASH)
    } else if r == 1 {
        Some(BACKSLASH)
    } else {
        None
    }
}

/// The special byte, if any, that the draw `r` in `0..6` gives after
/// `last` in a normalized path: after a `\` a dot when `r` is a multiple of
/// three, after a dot a dot when `r` is even, after anything else a `\`
/// when `r` is zero.
pub open spec fn norm_special_for(last: u8, r: u8) -> Option<u8> {
    if last == BACKSLASH {
        if r % 3 == 0 {
            Some(DOT)
        } else {
            None
        }
    } else if last == DOT {
        if r % 2 == 0 {
            Some(DOT)
        } else {
            None
        }
    } else if r == 0 {
        Some(BACKSLASH)
    } else {
        None
    }
}

/// The special byte, if any, that the draw `r` gives after `last` in a
/// normalized path.
pub fn maybe_norm_special(last: u8, r: u8) -> (res: Option<u8>)
    requires
        r < 6,
    ensures
        res == norm_special_for(last, r),
{
    if last == BACKSLASH {
        if r % 3 == 0 {
            Some(DOT)
        } else {
            None
        }
    } else if last == DOT {
        if r % 2 == 0 {
            Some(DOT)
        } else {
            None
        }
    } else if r == 0 {
        Some(BACKSLASH)
    } else {
        None
    }
}

/// What the drawing of a normalized Windows path has written in `q` from
/// `from` on, after `init`: digits, letters, dots and `\`, a `\` never right
/// after a `\` or a dot, and `last` telling whether the last byte written is
/// a `\` or a dot.
pub open spec fn win_norm_written(q: Seq<u8>, from: int, init: u8, last: u8) -> bool {
    &&& 0 <= from <= q.len()
    &&& forall|i: int| from <= i < q.len() ==> is_alnum(#[trigger] q[i]) || q[i] == DOT || q[i]
        == BACKSLASH
    &&& forall|i: int| from <= i < q.len() && #[trigger] q[i] == BACKSLASH ==> (if i == from {
        init
    } else {
        q[i - 1]
    }) != BACKSLASH && (if i == from {
        init
    } else {
        q[i - 1]
    }) != DOT
    &&& (last == BACKSLASH || last == DOT) <==> (if q.len() == from {
        init == BACKSLASH || init == DOT
    } else {
        q.last() == BACKSLASH || q.last() == DOT
    })
}

/// The separators of a path without `/` are all `\`.
proof fn lemma_seps_backslash(u: Seq<u8>)
    requires
        forall|i: int| 0 <= i < u.len() ==> #[trigger] u[i] != SLASH,
    ensures
        forall|j: int| 0 <= j < seps(u).len() ==> #[trigger] seps(u)[j] == BACKSLASH,
    decreases u.len(),
{
    if u.len() > 0 {
        let q = u.drop_last();
        assert forall|i: int| 0 <= i < q.len() implies #[trigger] q[i] != SLASH by {
            assert(q[i] == u[i]);
        }
        lemma_seps_backslash(q);
        assert(u[u.len() - 1] != SLASH);
        if is_sep(u.last()) {
            assert(seps(u) == seps(q).push(u.last()));
            assert forall|j: int| 0 <= j < seps(u).len() implies #[trigger] seps(u)[j] == BACKSLASH by {
                if j < seps(q).len() {
                    assert(seps(u)[j] == seps(q)[j]);
                }
            }
        } else {
            assert(seps(u) == seps(q));
        }
    }
}

/// The pieces of the first `k` bytes of `u`, which holds digits, letters,
/// dots and `\` never right after a `\` or a dot, nor at its start: the
/// finished ones are plain names, and the current one is empty exactly
/// after a `\`, and otherwise ends with the last byte read.
proof fn lemma_norm_parts(u: Seq<u8>, k: int)
    requires
        0 <= k <= u.len(),
        forall|i: int| 0 <= i < u.len() ==> is_alnum(#[trigger] u[i]) || u[i] == DOT || u[i]
            == BACKSLASH,
        forall|i: int| 0 < i < u.len() && #[trigger] u[i] == BACKSLASH ==> u[i - 1] != BACKSLASH
            && u[i - 1] != DOT,
        u.len() > 0 ==> u[0] != BACKSLASH,
    ensures
        ({
            let ps = wsplit(u.subrange(0, k));
            &&& forall|j: int| 0 <= j < ps.len() - 1 ==> #[trigger] is_normal_component(ps[j])
            &&& (ps.last().len() == 0 <==> (k == 0 || u[k - 1] == BACKSLASH))
            &&& (ps.last().len() > 0 ==> ps.last().last() == u[k - 1])
        }),
    decreases k,
{
    let v = u.subrange(0, k);
    lemma_wsplit_shape(v);
    if k == 0 {
        assert(v =~= Seq::<u8>::empty());
        assert(wsplit(v) =~= seq![Seq::<u8>::empty()]);
    } else {
        lemma_norm_parts(u, k - 1);
        let w = u.subrange(0, k - 1);
        let b = u[k - 1];
        assert(v =~= w.push(b));
        lemma_wsplit_step(w, b);
        lemma_wsplit_shape(w);
        let ps = wsplit(w);
        if b == BACKSLASH {
            let c = ps.last();
            assert(k - 1 > 0);
            assert(u[k - 2] != BACKSLASH && u[k - 2] != DOT);
            assert(c.len() > 0 && c.last() == u[k - 2]);
            if c == dot() || c == dot_dot() {
                assert(c.last() == DOT);
            }
            assert(is_normal_component(c));
            assert forall|j: int| 0 <= j < wsplit(v).len() - 1 implies #[trigger] is_normal_component(
                wsplit(v)[j],
            ) by {
                if j < ps.len() - 1 {
                    assert(wsplit(v)[j] == ps[j]);
                } else {
                    assert(wsplit(v)[j] == c);
                }
            }
        } else {
            assert(is_alnum(b) || b == DOT);
            assert(!is_sep(b));
            assert forall|j: int| 0 <= j < wsplit(v).len() - 1 implies #[trigger] is_normal_component(
                wsplit(v)[j],
            ) by {
                assert(wsplit(v)[j] == ps[j]);
            }
        }
    }
}

/// The part of a drawn normalized path from its root on: a `\` followed by
/// plain names separated by `\`, so validation finds nothing in it.
proof fn lemma_norm_tail(q: Seq<u8>, r: int)
    requires
        0 <= r < q.len(),
        q[r] == BACKSLASH,
        forall|i: int| r < i < q.len() ==> is_alnum(#[trigger] q[i]) || q[i] == DOT || q[i]
            == BACKSLASH,
        forall|i: int| r < i < q.len() && #[trigger] q[i] == BACKSLASH ==> q[i - 1] != BACKSLASH
            && q[i - 1] != DOT,
        q.len() > r + 1 ==> q.last() != BACKSLASH && q.last() != DOT,
    ensures
        searcher_issues(q.subrange(r, q.len() as int)) == Seq::<Error>::empty(),
{
    let t = q.subrange(r, q.len() as int);
    if t.len() == 1 {
        assert(t =~= seq![BACKSLASH]);
        assert(t[0] != dot()[0]);
        assert(t[0] != seq![SLASH][0]);
    } else {
        let u = q.subrange(r + 1, q.len() as int);
        assert(after_root(t) =~= u);
        assert forall|i: int| 0 <= i < u.len() implies is_alnum(#[trigger] u[i]) || u[i] == DOT
            || u[i] == BACKSLASH by {
            assert(u[i] == q[r + 1 + i]);
        }
        assert forall|i: int| 0 < i < u.len() && #[trigger] u[i] == BACKSLASH implies u[i - 1]
            != BACKSLASH && u[i - 1] != DOT by {
            assert(u[i] == q[r + 1 + i]);
            assert(u[i - 1] == q[r + i]);
        }
        assert(u[0] == q[r + 1]);
        lemma_norm_parts(u, u.len() as int);
        assert(u.subrange(0, u.len() as int) =~= u);
        let ps = wsplit(u);
        assert(u.last() == q.last());
        assert(is_normal_component(ps.last())) by {
            if ps.last() == dot() || ps.last() == dot_dot() {
                assert(ps.last().last() == DOT);
            }
        }
        assert forall|j: int| 0 <= j < ps.len() implies #[trigger] is_normal_component(ps[j]) by {
            if j == ps.len() - 1 {
                assert(ps[j] == ps.last());
            }
        }
        assert forall|i: int| 0 <= i < u.len() implies #[trigger] u[i] != SLASH by {
            assert(is_alnum(u[i]) || u[i] == DOT || u[i] == BACKSLASH);
        }
        lemma_seps_backslash(u);
        lemma_wsplit_shape(u);
        lemma_names_no_issues(ps, seps(u), ps.len() as int);
        assert(t[0] != SLASH);
        assert(searcher_issues(t) =~= Seq::<Error>::empty());
    }
}

/// `/` for a true coin, `\` otherwise.
pub open spec fn slash_of(coin: bool) -> u8 {
    if coin {
        SLASH
    } else {
        BACKSLASH
    }
}

/// The separator that the coin gives.
fn any_slash(coin: bool) -> (b: u8)
    ensures
        b == slash_of(coin),
        is_sep(b),
{
    if coin {
        SLASH
    } else {
        BACKSLASH
    }
}

/// The letter that the draw `r` in `0..52` gives: `A-Z`, then `a-z`.
pub open spec fn letter_of(r: u8) -> u8 {
    if r < 26 {
        (65 + r) as u8
    } else {
        (97 + (r - 26)) as u8
    }
}

/// The letter that the draw `r` gives.
fn any_letter(r: u8) -> (b: u8)
    requires
        r < 52,
    ensures
        b == letter_of(r),
        is_letter(b),
{
    if r < 26 {
        65 + r
    } else {
        97 + (r - 26)
    }
}

/// The relative path that the draws give: digits and letters from `idx`;
/// a drive from the letter draw `letter` when `drive` holds and there is
/// room for it; then, if anything is left, a dot or an `x` by `dot_first`
/// and the special bytes that the draws `d` give after it.
pub open spec fn relative_of(idx: Seq<u8>, drive: bool, letter: u8, dot_first: bool, d: Seq<u8>) -> Seq<u8> {
    let len = idx.len() as int;
    let with_drive = len > 1 && drive;
    let raw = if with_drive {
        alnum_bytes(idx).update(0, letter_of(letter)).update(1, COLON)
    } else {
        alnum_bytes(idx)
    };
    let start: int = if with_drive {
        2
    } else {
        0
    };
    if start == len {
        raw
    } else {
        let init: u8 = if dot_first {
            DOT
        } else {
            120
        };
        rewritten(raw.update(start, init), start + 1, init, Style::Windows, d).0
    }
}

/// The relative path that the draws give; see `relative_of`.
pub fn relative_from(idx: &[u8], drive: bool, letter: u8, dot_first: bool, d: &[u8]) -> (res: Vec<u8>)
    requires
        d@.len() == idx@.len(),
        draws_below(idx@, 62),
        draws_below(d@, 12),
        letter < 52,
    ensures
        res@ == relative_of(idx@, drive, letter, dot_first, d@),
        res@.len() == idx@.len(),
        !win_absolute(res@),
        !is_verbatim(res@),
{
    let len = idx.len();
    let mut raw = alphanumeric(idx);
    let start: usize = if len > 1 && drive {
        raw.set(0, any_letter(letter));
        raw.set(1, COLON);
        2
    } else {
        0
    };
    if start != len {
        let init = if dot_first {
            DOT
        } else {
            120
        };
        raw.set(start, init);
        let ghost before = raw@;
        rewrite(&mut raw, start + 1, init, Style::Windows, d);
        proof {
            assert(raw@[start as int] == init);
            if start == 0 && len > 1 {
                assert(raw@[1] == before[1] || is_special(raw@[1]));
                assert(is_alnum(before[1]));
            }
        }
    }
    proof {
        let p = raw@;
        if start == 2 {
            assert(!is_device(p) && !is_unc(p) && is_disk(p));
            if len > 2 {
                assert(win_tail(p)[0] == p[2]);
            }
        } else if len > 0 {
            assert(!is_sep(p[0]));
            assert(!is_device(p) && !is_unc(p));
            if len > 1 {
                assert(p[1] != COLON);
            }
        }
    }
    raw
}

/// Whether `p` is what `relative` may draw for `len` bytes.
pub open spec fn relative_outcome(len: nat, p: Seq<u8>) -> bool {
    exists|idx: Seq<u8>, drive: bool, letter: u8, dot_first: bool, d: Seq<u8>|
        idx.len() == len && d.len() == len && draws_below(idx, 62) && draws_below(d, 12) && letter
            < 52 && p == #[trigger] relative_of(idx, drive, letter, dot_first, d)
}

/// A random relative path of `len` bytes, with or without a drive: it is
/// neither absolute nor verbatim.
pub fn relative(len: usize) -> (res: Vec<u8>)
    ensures
        res@.len() == len,
        !win_absolute(res@),
        !is_verbatim(res@),
        relative_outcome(len as nat, res@),
{
    let idx = draw_bytes(len, 62);
    let drive = rand_bool();
    let letter = rand_u8(0, 52);
    let dot_first = rand_bool();
    let d = draw_bytes(len, 12);
    let res = relative_from(idx.as_slice(), drive, letter, dot_first, d.as_slice());
    assert(res@ == relative_of(idx@, drive, letter, dot_first, d@));
    res
}

/// Which kind of absolute path to draw.
pub enum Choice {
    /// A drive and a root, like `C:\`.
    Absolute,
    /// A device namespace, like `\\.\x`.
    Device,
    /// A UNC share, like `\\server\share`.
    Unc,
}

/// The kind of absolute path that the draw `kind` gives for `len` bytes: a
/// UNC share for `0` when there are more than five bytes, a device
/// namespace for `1` when there are more than four, a drive otherwise.
pub open spec fn kind_of(kind: u8, len: int) -> Choice {
    if kind == 0 && len > 5 {
        Choice::Unc
    } else if kind == 1 && len > 4 {
        Choice::Device
    } else {
        Choice::Absolute
    }
}

/// Whether the separator positions fit the kind of path drawn: for a UNC
/// share, the second in `5..len` and the first in `3..slash2 - 1`.
pub open spec fn slashes_fit(kind: u8, len: int, slash1: usize, slash2: usize) -> bool {
    kind_of(kind, len) is Unc ==> 5 <= slash2 < len && 3 <= slash1 < slash2 - 1
}

/// The bytes of an absolute path before the special bytes are drawn, and
/// where they start: a drive letter, `:` and a separator; two separators, a
/// dot and a separator; or two separators with separators at `slash1` and
/// `slash2`; the separators by the coins `seps`.
pub open spec fn absolute_base(idx: Seq<u8>, kind: u8, letter: u8, seps: Seq<bool>, slash1: usize, slash2: usize) -> (
    Seq<u8>,
    int,
) {
    let raw0 = alnum_bytes(idx);
    match kind_of(kind, idx.len() as int) {
        Choice::Absolute => (
            raw0.update(0, letter_of(letter)).update(1, COLON).update(2, slash_of(seps[0])),
            3,
        ),
        Choice::Device => (
            raw0.update(0, slash_of(seps[0])).update(1, slash_of(seps[1])).update(2, DOT).update(
                3,
                slash_of(seps[2]),
            ),
            5,
        ),
        Choice::Unc => (
            raw0.update(0, slash_of(seps[0])).update(1, slash_of(seps[1])).update(
                slash1 as int,
                slash_of(seps[2]),
            ).update(slash2 as int, slash_of(seps[3])),
            slash2 + 1,
        ),
    }
}

/// The absolute path that the draws give: `absolute_base`, then the special
/// bytes that the draws `d` give after it.
pub open spec fn absolute_of(idx: Seq<u8>, kind: u8, letter: u8, seps: Seq<bool>, slash1: usize, slash2: usize, d: Seq<u8>) -> Seq<u8> {
    let (raw, start) = absolute_base(idx, kind, letter, seps, slash1, slash2);
    rewritten(raw, start, raw[start - 1], Style::Windows, d).0
}

/// The absolute path that the draws give; see `absolute_of`.
pub fn absolute_from(idx: &[u8], kind: u8, letter: u8, seps: &[bool], slash1: usize, slash2: usize, d: &[u8]) -> (res: Vec<u8>)
    requires
        idx@.len() > 2,
        d@.len() == idx@.len(),
        seps@.len() == 4,
        draws_below(idx@, 62),
        draws_below(d@, 12),
        letter < 52,
        slashes_fit(kind, idx@.len() as int, slash1, slash2),
    ensures
        res@ == absolute_of(idx@, kind, letter, seps@, slash1, slash2, d@),
        res@.len() == idx@.len(),
        win_absolute(res@),
        !is_verbatim(res@),
{
    let len = idx.len();
    let mut raw = alphanumeric(idx);
    let choice = if kind == 0 && len > 5 {
        Choice::Unc
    } else if kind == 1 && len > 4 {
        Choice::Device
    } else {
        Choice::Absolute
    };
    let ghost orig = raw@;
    let start: usize = match choice {
        Choice::Absolute => {
            raw.set(0, any_letter(letter));
            raw.set(1, COLON);
            raw.set(2, any_slash(seps[0]));
            3
        },
        Choice::Device => {
            raw.set(0, any_slash(seps[0]));
            raw.set(1, any_slash(seps[1]));
            raw.set(2, DOT);
            raw.set(3, any_slash(seps[2]));
            5
        },
        Choice::Unc => {
            raw.set(0, any_slash(seps[0]));
            raw.set(1, any_slash(seps[1]));
            raw.set(slash1, any_slash(seps[2]));
            raw.set(slash2, any_slash(seps[3]));
            proof {
                let p = raw@;
                assert forall|k: int| 2 <= k < slash2 && k != slash1 implies !is_sep(#[trigger] p[k]) by {
                    assert(p[k] == orig[k]);
                    assert(is_alnum(orig[k]));
                }
                lemma_first_sep_is(p, 2, slash1 as int);
                lemma_first_sep_is(p, slash1 + 1, slash2 as int);
            }
            slash2 + 1
        },
    };
    assert(raw@ == absolute_base(idx@, kind, letter, seps@, slash1, slash2).0);
    assert(start == absolute_base(idx@, kind, letter, seps@, slash1, slash2).1);
    let init = raw[start - 1];
    let ghost before = raw@;
    rewrite(&mut raw, start, init, Style::Windows, d);
    proof {
        let p = raw@;
        assert(forall|j: int| 0 <= j < start ==> p[j] == before[j]);
        assert(!is_verbatim(p)) by {
            if is_verbatim(p) {
                assert(p[2] == QUESTION);
                assert(is_alnum(orig[2]));
            }
        }
        match choice {
            Choice::Absolute => {
                assert(!is_device(p) && !is_unc(p) && is_disk(p));
                assert(win_tail(p)[0] == p[2]);
            },
            Choice::Device => {
                assert(is_device(p));
            },
            Choice::Unc => {
                let slash1 = first_sep_from(before, 2);
                assert(!is_device(p)) by {
                    assert(is_alnum(orig[2]));
                }
                assert forall|k: int| 2 <= k < start implies #[trigger] p[k] == before[k] by {}
                assert(first_sep_from(p, 2) == first_sep_from(before, 2)) by {
                    lemma_first_sep_is(p, 2, slash1);
                }
                assert(is_unc(p)) by {
                    lemma_first_sep_is(p, slash1 + 1, start - 1);
                }
            },
        }
    }
    raw
}

/// Whether `p` is what `absolute` may draw for `len` bytes.
pub open spec fn absolute_outcome(len: nat, p: Seq<u8>) -> bool {
    exists|idx: Seq<u8>, kind: u8, letter: u8, seps: Seq<bool>, slash1: usize, slash2: usize, d: Seq<u8>|
        idx.len() == len && d.len() == len && seps.len() == 4 && draws_below(idx, 62)
            && draws_below(d, 12) && kind < 3 && letter < 52 && slashes_fit(kind, len as int, slash1, slash2)
            && p == #[trigger] absolute_of(idx, kind, letter, seps, slash1, slash2, d)
}

/// Draws where the separators of a UNC share go for `len` bytes, when the
/// kind drawn is one.
fn draw_slashes(kind: u8, len: usize) -> (res: (usize, usize))
    ensures
        slashes_fit(kind, len as int, res.0, res.1),
{
    if kind == 0 && len > 5 {
        let slash2 = rand_usize(5, len);
        let slash1 = rand_usize(3, slash2 - 1);
        (slash1, slash2)
    } else {
        (0, 0)
    }
}

/// A random absolute path of `len` bytes: a drive with a root, a device
/// namespace or a UNC share, with any separators and special patterns after
/// it.
pub fn absolute(len: usize) -> (res: Vec<u8>)
    requires
        len > 2,
    ensures
        res@.len() == len,
        win_absolute(res@),
        !is_verbatim(res@),
        absolute_outcome(len as nat, res@),
{
    let idx = draw_bytes(len, 62);
    let kind = rand_u8(0, 3);
    let letter = rand_u8(0, 52);
    let seps = draw_coins(4);
    let (slash1, slash2) = draw_slashes(kind, len);
    let d = draw_bytes(len, 12);
    let res = absolute_from(idx.as_slice(), kind, letter, seps.as_slice(), slash1, slash2, d.as_slice());
    assert(res@ == absolute_of(idx@, kind, letter, seps@, slash1, slash2, d@));
    res
}

/// The bytes of a normalized path before the special bytes are drawn, and
/// where they start: the upper case `drive`, `:` and `\`; `\\.\`; or
/// `\\` with a `\` at `slash1`, and at `slash2` unless it is the last
/// byte, which then ends the share.
pub open spec fn normal_base(idx: Seq<u8>, kind: u8, drive: u8, slash1: usize, slash2: usize) -> (Seq<u8>, int) {
    let len = idx.len() as int;
    let raw0 = alnum_bytes(idx);
    match kind_of(kind, len) {
        Choice::Absolute => (raw0.update(0, drive).update(1, COLON).update(2, BACKSLASH), 3),
        Choice::Device => (
            raw0.update(0, BACKSLASH).update(1, BACKSLASH).update(2, DOT).update(3, BACKSLASH),
            5,
        ),
        Choice::Unc => {
            let r1 = raw0.update(0, BACKSLASH).update(1, BACKSLASH).update(slash1 as int, BACKSLASH);
            if slash2 != len - 1 {
                (r1.update(slash2 as int, BACKSLASH), slash2 + 1)
            } else {
                (r1, len)
            }
        },
    }
}

/// The normalized path that the draws give: `normal_base`, then the special
/// bytes that the draws `d` give in a normalized path after it; a last byte
/// that is a `\` or a dot then becomes an `x`.
pub open spec fn normal_of(idx: Seq<u8>, kind: u8, drive: u8, slash1: usize, slash2: usize, d: Seq<u8>) -> Seq<u8> {
    let len = idx.len() as int;
    let (raw, start) = normal_base(idx, kind, drive, slash1, slash2);
    let (q, last) = rewritten(raw, start, raw[start - 1], Style::WindowsNormal, d);
    if len != start && (last == BACKSLASH || last == DOT) {
        q.update(len - 1, 120)
    } else {
        q
    }
}

/// The normalized path that the draws give; see `normal_of`.
#[verifier::rlimit(30)]
pub fn normal_from(idx: &[u8], kind: u8, drive: u8, slash1: usize, slash2: usize, d: &[u8]) -> (res: Vec<u8>)
    requires
        idx@.len() > 2,
        d@.len() == idx@.len(),
        draws_below(idx@, 62),
        draws_below(d@, 6),
        65 <= drive < 91,
        slashes_fit(kind, idx@.len() as int, slash1, slash2),
    ensures
        res@ == normal_of(idx@, kind, drive, slash1, slash2, d@),
        res@.len() == idx@.len(),
        win_absolute(res@),
        !is_verbatim(res@),
        win_validate_result(res@) is Ok,
{
    let len = idx.len();
    let mut raw = alphanumeric(idx);
    let choice = if kind == 0 && len > 5 {
        Choice::Unc
    } else if kind == 1 && len > 4 {
        Choice::Device
    } else {
        Choice::Absolute
    };
    let ghost orig = raw@;
    let ghost mut s1: int = 0;
    let ghost mut s2: int = 0;
    let start: usize = match choice {
        Choice::Absolute => {
            raw.set(0, drive);
            raw.set(1, COLON);
            raw.set(2, BACKSLASH);
            3
        },
        Choice::Device => {
            raw.set(0, BACKSLASH);
            raw.set(1, BACKSLASH);
            raw.set(2, DOT);
            raw.set(3, BACKSLASH);
            5
        },
        Choice::Unc => {
            raw.set(0, BACKSLASH);
            raw.set(1, BACKSLASH);
            raw.set(slash1, BACKSLASH);
            proof {
                s1 = slash1 as int;
            }
            if slash2 != len - 1 {
                raw.set(slash2, BACKSLASH);
                proof {
                    s2 = slash2 as int;
                }
                slash2 + 1
            } else {
                proof {
                    s2 = len as int;
                }
                len
            }
        },
    };
    assert(raw@ == normal_base(idx@, kind, drive, slash1, slash2).0);
    assert(start == normal_base(idx@, kind, drive, slash1, slash2).1);
    let init = raw[start - 1];
    let ghost before = raw@;
    proof {
        assert forall|j: int| start <= j < len implies #[trigger] is_alnum(before[j]) by {
            assert(before[j] == orig[j]);
        }
    }
    let last = rewrite(&mut raw, start, init, Style::WindowsNormal, d);
    let ghost q = raw@;
    if len != start && (last == BACKSLASH || last == DOT) {
        raw.set(len - 1, 120);
    }
    proof {
        let p = raw@;
        assert(win_norm_written(q, start as int, init, last));
        // From the root on, the path holds plain names separated by `\`.
        assert forall|i: int| start <= i < len implies is_alnum(#[trigger] p[i]) || p[i] == DOT
            || p[i] == BACKSLASH by {
            if i == len - 1 && p[i] != q[i] {
                assert(p[i] == 120);
            }
        }
        assert(len > start ==> p.last() != BACKSLASH && p.last() != DOT);
        assert(forall|j: int| 0 <= j < start && j != len - 1 ==> p[j] == before[j]);
        assert(!is_verbatim(p)) by {
            if is_verbatim(p) {
                assert(p[2] == QUESTION);
                assert(is_alnum(orig[2]));
            }
        }
        match choice {
            Choice::Absolute => {
                assert(!is_device(p) && !is_unc(p) && is_disk(p));
                assert(win_tail(p)[0] == p[2]);
                assert forall|i: int| 2 < i < len && #[trigger] p[i] == BACKSLASH implies p[i - 1]
                    != BACKSLASH && p[i - 1] != DOT by {
                    assert(q[i] == BACKSLASH);
                }
                lemma_norm_tail(p, 2);
                assert(win_tail(p) =~= p.subrange(2, len as int));
                assert(prefix_error(p) is None);
            },
            Choice::Device => {
                assert(is_device(p));
                lemma_prefix_bounds(p);
                lemma_first_sep_bounds(p, 4);
                let l = first_sep_from(p, 4);
                assert(win_tail(p) =~= p.subrange(l, len as int));
                if l < len {
                    assert(is_sep(p[l]));
                    assert(l >= 5) by {
                        assert(!is_sep(p[4])) by {
                            assert(is_alnum(orig[4]));
                        }
                    }
                    assert(p[l] == BACKSLASH);
                    assert forall|i: int| l < i < len && #[trigger] p[i] == BACKSLASH implies p[i
                        - 1] != BACKSLASH && p[i - 1] != DOT by {
                        assert(q[i] == BACKSLASH);
                    }
                    lemma_norm_tail(p, l);
                    assert(l < len - 1);
                }
                assert(prefix_error(p) is None);
            },
            Choice::Unc => {
                assert(!is_device(p)) by {
                    assert(is_alnum(orig[2]));
                }
                assert forall|k: int| 2 <= k < s2 && k != s1 implies !is_sep(#[trigger] p[k]) by {
                    if k == len - 1 {
                        assert(p[k] == 120 || p[k] == before[k]);
                    } else {
                        assert(p[k] == before[k]);
                    }
                    assert(before[k] == orig[k]);
                    assert(is_alnum(orig[k]));
                }
                assert(p[s1] == BACKSLASH);
                lemma_first_sep_is(p, 2, s1);
                lemma_first_sep_is(p, s1 + 1, s2);
                assert(is_unc(p));
                assert(win_tail(p) =~= p.subrange(s2, len as int));
                if s2 < len {
                    assert(p[s2] == BACKSLASH);
                    assert forall|i: int| s2 < i < len && #[trigger] p[i] == BACKSLASH implies p[i
                        - 1] != BACKSLASH && p[i - 1] != DOT by {
                        assert(q[i] == BACKSLASH);
                    }
                    lemma_norm_tail(p, s2);
                }
                assert(prefix_error(p) is None);
            },
        }
    }
    raw
}

/// Whether `p` is what `normal` may draw for `len` bytes.
pub open spec fn normal_outcome(len: nat, p: Seq<u8>) -> bool {
    exists|idx: Seq<u8>, kind: u8, drive: u8, slash1: usize, slash2: usize, d: Seq<u8>|
        idx.len() == len && d.len() == len && draws_below(idx, 62) && draws_below(d, 6) && kind < 3
            && 65 <= drive < 91 && slashes_fit(kind, len as int, slash1, slash2) && p
            == #[trigger] normal_of(idx, kind, drive, slash1, slash2, d)
}

/// A random normalized path of `len` bytes: an upper case drive with a root,
/// a device namespace or a UNC share, followed by plain names separated by
/// `\`.
pub fn normal(len: usize) -> (res: Vec<u8>)
    requires
        len > 2,
    ensures
        res@.len() == len,
        win_absolute(res@),
        !is_verbatim(res@),
        win_validate_result(res@) is Ok,
        normal_outcome(len as nat, res@),
{
    let idx = draw_bytes(len, 62);
    let kind = rand_u8(0, 3);
    let drive = rand_u8(65, 91);
    let (slash1, slash2) = draw_slashes(kind, len);
    let d = draw_bytes(len, 6);
    let res = normal_from(idx.as_slice(), kind, drive, slash1, slash2, d.as_slice());
    assert(res@ == normal_of(idx@, kind, drive, slash1, slash2, d@));
    res
}

/// A random relative or absolute path of `len` bytes: by a coin, an
/// outcome of `absolute` when there are more than two bytes, or of
/// `relative`.
pub fn common(len: usize) -> (res: Vec<u8>)
    ensures
        res@.len() == len,
        !is_verbatim(res@),
        (len > 2 && absolute_outcome(len as nat, res@)) || relative_outcome(len as nat, res@),
{
    if len > 2 && rand_bool() {
        absolute(len)
    } else {
        relative(len)
    }
}

/// The verbatim path that the draws give: `\\?\` and the absolute path
/// that they give; see `absolute_of`.
pub fn verbatim_from(idx: &[u8], kind: u8, letter: u8, seps: &[bool], slash1: usize, slash2: usize, d: &[u8]) -> (res: Vec<u8>)
    requires
        idx@.len() > 2,
        d@.len() == idx@.len(),
        seps@.len() == 4,
        draws_below(idx@, 62),
        draws_below(d@, 12),
        letter < 52,
        slashes_fit(kind, idx@.len() as int, slash1, slash2),
    ensures
        res@ == seq![BACKSLASH, BACKSLASH, QUESTION, BACKSLASH] + absolute_of(
            idx@,
            kind,
            letter,
            seps@,
            slash1,
            slash2,
            d@,
        ),
        is_verbatim(res@),
{
    let mut prefix: Vec<u8> = Vec::new();
    prefix.push(BACKSLASH);
    prefix.push(BACKSLASH);
    prefix.push(QUESTION);
    prefix.push(BACKSLASH);
    let mut rest = absolute_from(idx, kind, letter, seps, slash1, slash2, d);
    let ghost r = rest@;
    prefix.append(&mut rest);
    assert(prefix@ =~= seq![BACKSLASH, BACKSLASH, QUESTION, BACKSLASH] + r);
    prefix
}

/// A random verbatim path of `len` bytes: `\\?\` and an absolute path.
pub fn verbatim(len: usize) -> (res: Vec<u8>)
    requires
        len > 6,
    ensures
        res@.len() == len,
        is_verbatim(res@),
        res@.subrange(0, 4) == seq![BACKSLASH, BACKSLASH, QUESTION, BACKSLASH],
        absolute_outcome((len - 4) as nat, res@.subrange(4, len as int)),
{
    let n = len - 4;
    let idx = draw_bytes(n, 62);
    let kind = rand_u8(0, 3);
    let letter = rand_u8(0, 52);
    let seps = draw_coins(4);
    let (slash1, slash2) = draw_slashes(kind, n);
    let d = draw_bytes(n, 12);
    let res = verbatim_from(idx.as_slice(), kind, letter, seps.as_slice(), slash1, slash2, d.as_slice());
    let ghost a = absolute_of(idx@, kind, letter, seps@, slash1, slash2, d@);
    proof {
        lemma_absolute_len(idx@, kind, letter, seps@, slash1, slash2, d@);
        assert(res@.subrange(0, 4) =~= seq![BACKSLASH, BACKSLASH, QUESTION, BACKSLASH]);
        assert(res@.subrange(4, len as int) =~= a);
    }
    res
}

/// The absolute path that the draws give is as long as the draws.
proof fn lemma_absolute_len(idx: Seq<u8>, kind: u8, letter: u8, seps: Seq<bool>, slash1: usize, slash2: usize, d: Seq<u8>)
    requires
        idx.len() > 2,
        slashes_fit(kind, idx.len() as int, slash1, slash2),
    ensures
        absolute_of(idx, kind, letter, seps, slash1, slash2, d).len() == idx.len(),
{
    let (raw, start) = absolute_base(idx, kind, letter, seps, slash1, slash2);
    assert(raw.len() == idx.len());
    lemma_rewrite_len(raw, start, raw[start - 1], Style::Windows, d, raw.len() as int);
}

/// The path that the draws give from a separator on: the separator by the
/// coin `sep`, then digits and letters from `idx` with the special bytes
/// that the draws `d` give after a `\`.
pub open spec fn root_only_of(idx: Seq<u8>, sep: bool, d: Seq<u8>) -> Seq<u8> {
    rewritten(alnum_bytes(idx).update(0, slash_of(sep)), 1, BACKSLASH, Style::Windows, d).0
}

/// The path that the draws give; see `root_only_of`.
pub fn root_only_from(idx: &[u8], sep: bool, d: &[u8]) -> (res: Vec<u8>)
    requires
        idx@.len() > 0,
        d@.len() == idx@.len(),
        draws_below(idx@, 62),
        draws_below(d@, 12),
    ensures
        res@ == root_only_of(idx@, sep, d@),
        res@.len() == idx@.len(),
        is_sep(res@[0]),
{
    let mut raw = alphanumeric(idx);
    raw.set(0, any_slash(sep));
    rewrite(&mut raw, 1, BACKSLASH, Style::Windows, d);
    raw
}

/// A random path of `len` bytes made of a separator and then a relative
/// path with any special patterns.
pub fn root_only(len: usize) -> (res: Vec<u8>)
    requires
        len > 0,
    ensures
        res@.len() == len,
        is_sep(res@[0]),
        exists|idx: Seq<u8>, sep: bool, d: Seq<u8>|
            idx.len() == len && d.len() == len && draws_below(idx, 62) && draws_below(d, 12) && res@
                == #[trigger] root_only_of(idx, sep, d),
{
    let idx = draw_bytes(len, 62);
    let sep = rand_bool();
    let d = draw_bytes(len, 12);
    let res = root_only_from(idx.as_slice(), sep, d.as_slice());
    assert(res@ == root_only_of(idx@, sep, d@));
    res
}

/// The drive that the letter draw `letter` gives, like `c:`.
pub fn disk_only_from(letter: u8) -> (res: Vec<u8>)
    requires
        letter < 52,
    ensures
        res@ == seq![letter_of(letter), COLON],
        is_disk(res@),
{
    let mut raw: Vec<u8> = Vec::new();
    raw.push(any_letter(letter));
    raw.push(COLON);
    assert(raw@ =~= seq![letter_of(letter), COLON]);
    raw
}

/// A random drive alone, like `c:`.
pub fn disk_only() -> (res: Vec<u8>)
    ensures
        res@.len() == 2,
        is_letter(res@[0]),
        res@[1] == COLON,
        is_disk(res@),
        exists|letter: u8| letter < 52 && res@ == seq![#[trigger] letter_of(letter), COLON],
{
    let letter = rand_u8(0, 52);
    let res = disk_only_from(letter);
    assert(res@ == seq![letter_of(letter), COLON]);
    res
}

} // verus!
