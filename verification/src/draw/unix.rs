//! Random Unix paths.
use vstd::prelude::*;

use super::{
    alnum_bytes, alphanumeric, draw_bytes, draws_below, is_alnum, rand_bool, rewrite, rewritten,
    Style,
};
use crate::imp::unix_model::{
    has_root, is_normal_component, is_normalized, lemma_split_shape, lemma_split_step, sep_free,
    split, DOT, SLASH,
};

verus! {

/// The special byte, if any, that the draw `r` in `0..6` gives after
/// `last`: after a separator, a dot for two draws, nothing for three and a
/// separator for one; after a dot, by `r` modulo three, a dot, nothing or a
/// separator; after anything else, a separator for one draw.
pub open spec fn special_for(last: u8, r: u8) -> Option<u8> {
    if last == SLASH {
        if r < 2 {
            Some(DOT)
        } else if r < 5 {
            None
        } else {
            Some(SLASH)
        }
    } else if last == DOT {
        if r % 3 == 0 {
            Some(DOT)
        } else if r % 3 == 1 {
            None
        } else {
            Some(SLASH)
        }
    } else if r == 0 {
        Some(SLASH)
    } else {
        None
    }
}

/// The special byte, if any, that the draw `r` gives after `last`.
pub fn maybe_special(last: u8, r: u8) -> (res: Option<u8>)
    requires
        r < 6,
    ensures
        res == special_for(last, r),
{
    if last == SLASH {
        if r < 2 {
            Some(DOT)
        } else if r < 5 {
            None
        } else {
            Some(SLASH)
        }
    } else if last == DOT {
        if r % 3 == 0 {
            Some(DOT)
        } else if r % 3 == 1 {
            None
        } else {
            Some(SLASH)
        }
    } else if r == 0 {
        Some(SLASH)
    } else {
        None
    }
}

/// The special byte, if any, that the draw `r` in `0..6` gives after
/// `last` in a normalized path: after a separator a dot when `r` is a
/// multiple of three, after a dot a dot when `r` is even, after anything
/// else a separator when `r` is zero.
pub open spec fn norm_special_for(last: u8, r: u8) -> Option<u8> {
    if last == SLASH {
        if r % 3 == 0 {
            Some(DOT)
        } else {
            None
        }
    } else if last == DOT {
        if r % 2 == 0 {
            Some(DOT)
        } else {
            None
        }
    } else if r == 0 {
        Some(SLASH)
    } else {
        None
    }
}

/// The special byte, if any, that the draw `r` gives after `last` in a
/// normalized path.
pub fn maybe_norm_special(last: u8, r: u8) -> (res: Option<u8>)
    requires
        r < 6,
    ensures
        res == norm_special_for(last, r),
{
    if last == SLASH {
        if r % 3 == 0 {
            Some(DOT)
        } else {
            None
        }
    } else if last == DOT {
        if r % 2 == 0 {
            Some(DOT)
        } else {
            None
        }
    } else if r == 0 {
        Some(SLASH)
    } else {
        None
    }
}

/// Where the drawing of a normalized path stands after writing `q`, whose
/// last special byte is `last` (any other byte for a plain one): the root
/// first, every finished component a plain name, and the current one empty
/// right after a separator and otherwise ending with a dot exactly when the
/// last byte written was one.
pub open spec fn unix_norm_state(q: Seq<u8>, last: u8) -> bool {
    let cs = split(q.drop_first());
    &&& q.len() >= 1
    &&& q[0] == SLASH
    &&& forall|k: int| 0 <= k < cs.len() - 1 ==> #[trigger] is_normal_component(cs[k])
    &&& (last == SLASH ==> cs.last().len() == 0 && q.last() == SLASH)
    &&& (last == DOT ==> cs.last().len() > 0 && cs.last().last() == DOT && q.last() == DOT)
    &&& (last != SLASH && last != DOT ==> cs.last().len() > 0 && cs.last().last() != DOT)
}

/// A component that does not end with a dot and holds no separator is a
/// plain name as soon as it is not empty.
proof fn lemma_plain_name(c: Seq<u8>)
    requires
        c.len() > 0,
        c.last() != DOT,
    ensures
        is_normal_component(c),
{
    if c == seq![DOT] {
        assert(c.last() == DOT);
    }
    if c == seq![DOT, DOT] {
        assert(c.last() == DOT);
    }
}

/// One more byte keeps the drawing of a normalized path on track.
pub proof fn lemma_norm_step(q: Seq<u8>, prev: u8, b: u8, last: u8)
    requires
        unix_norm_state(q, prev),
        (last == b && (prev == SLASH || prev == DOT ==> b == DOT) && (prev != SLASH && prev
            != DOT ==> b == SLASH)) || (last == 120 && is_alnum(b)),
    ensures
        unix_norm_state(q.push(b), last),
{
    let p = q.drop_first();
    let cs = split(p);
    assert(q.push(b).drop_first() =~= p.push(b));
    lemma_split_step(p, b);
    lemma_split_shape(p);
    let cs2 = split(p.push(b));
    if b == SLASH {
        lemma_plain_name(cs.last());
        assert forall|k: int| 0 <= k < cs2.len() - 1 implies #[trigger] is_normal_component(cs2[k]) by {
            if k < cs.len() - 1 {
                assert(cs2[k] == cs[k]);
            } else {
                assert(cs2[k] == cs.last());
            }
        }
    } else {
        assert forall|k: int| 0 <= k < cs2.len() - 1 implies #[trigger] is_normal_component(cs2[k]) by {
            assert(cs2[k] == cs[k]);
        }
        assert(cs2.last() == cs.last().push(b));
    }
}

/// The final touch of `normal`: a trailing separator or dot becomes a plain
/// byte, which leaves a normalized path.
proof fn lemma_norm_finish(q: Seq<u8>, last: u8)
    requires
        unix_norm_state(q, last),
    ensures
        is_normalized(if q.len() != 1 && (last == SLASH || last == DOT) {
            q.update(q.len() - 1, 120)
        } else {
            q
        }),
{
    let p = q.drop_first();
    let cs = split(p);
    lemma_split_shape(p);
    if q.len() == 1 {
        assert(q =~= seq![SLASH]);
    } else if last == SLASH || last == DOT {
        let q2 = q.update(q.len() - 1, 120);
        let p0 = p.drop_last();
        assert(p0.push(p.last()) =~= p);
        lemma_split_step(p0, p.last());
        lemma_split_shape(p0);
        assert(q2.drop_first() =~= p0.push(120));
        lemma_split_step(p0, 120);
        let c0 = split(p0);
        let c2 = split(p0.push(120));
        assert(p.last() == q.last());
        if last == SLASH {
            assert(cs =~= c0.push(Seq::<u8>::empty()));
            assert(cs[c0.len() - 1] == c0[c0.len() - 1]);
            assert(is_normal_component(cs[c0.len() - 1]));
        }
        lemma_plain_name(c0.last().push(120));
        assert forall|k: int| 0 <= k < c2.len() implies #[trigger] is_normal_component(c2[k]) by {
            if k < c2.len() - 1 {
                assert(c2[k] == c0[k]);
                assert(c0[k] == cs[k]);
            }
        }
        assert(q2[0] == SLASH);
    } else {
        lemma_plain_name(cs.last());
        assert forall|k: int| 0 <= k < cs.len() implies #[trigger] is_normal_component(cs[k]) by {}
    }
}

/// The relative path that the draws give: digits and letters from `idx`,
/// the first byte a dot or an `x` by `dot_first`, then the special bytes
/// that the draws `d` give from the second byte on.
pub open spec fn relative_of(idx: Seq<u8>, dot_first: bool, d: Seq<u8>) -> Seq<u8> {
    if idx.len() == 0 {
        Seq::empty()
    } else {
        let init: u8 = if dot_first {
            DOT
        } else {
            120
        };
        rewritten(alnum_bytes(idx).update(0, init), 1, init, Style::Unix, d).0
    }
}

/// The relative path that the draws give; see `relative_of`.
pub fn relative_from(idx: &[u8], dot_first: bool, d: &[u8]) -> (res: Vec<u8>)
    requires
        d@.len() == idx@.len(),
        draws_below(idx@, 62),
        draws_below(d@, 6),
    ensures
        res@ == relative_of(idx@, dot_first, d@),
        res@.len() == idx@.len(),
        !has_root(res@),
        forall|j: int| 0 <= j < idx@.len() ==> is_alnum(#[trigger] res@[j]) || res@[j] == DOT
            || res@[j] == SLASH,
{
    let len = idx.len();
    if len == 0 {
        return Vec::new();
    }
    let mut raw = alphanumeric(idx);
    let init = if dot_first {
        DOT
    } else {
        120
    };
    raw.set(0, init);
    let ghost before = raw@;
    rewrite(&mut raw, 1, init, Style::Unix, d);
    proof {
        assert forall|j: int| 0 <= j < len implies is_alnum(#[trigger] raw@[j]) || raw@[j] == DOT
            || raw@[j] == SLASH by {
            if j >= 1 {
                assert(before[j] == raw@[j] || raw@[j] == DOT || raw@[j] == SLASH);
            }
        }
    }
    raw
}

/// A random relative path of `len` bytes: it starts with a dot or a plain
/// byte, never with the root.
pub fn relative(len: usize) -> (res: Vec<u8>)
    ensures
        res@.len() == len,
        !has_root(res@),
        forall|j: int| 0 <= j < len ==> is_alnum(#[trigger] res@[j]) || res@[j] == DOT
            || res@[j] == SLASH,
        exists|idx: Seq<u8>, dot_first: bool, d: Seq<u8>|
            idx.len() == len && d.len() == len && draws_below(idx, 62) && draws_below(d, 6) && res@
                == #[trigger] relative_of(idx, dot_first, d),
{
    let idx = draw_bytes(len, 62);
    let dot_first = rand_bool();
    let d = draw_bytes(len, 6);
    let res = relative_from(idx.as_slice(), dot_first, d.as_slice());
    assert(res@ == relative_of(idx@, dot_first, d@));
    res
}

/// The absolute path that the draws give: the root, then digits and
/// letters from `idx` and the special bytes that the draws `d` give from
/// the second byte on.
pub open spec fn absolute_of(idx: Seq<u8>, d: Seq<u8>) -> Seq<u8> {
    rewritten(alnum_bytes(idx).update(0, SLASH), 1, SLASH, Style::Unix, d).0
}

/// The absolute path that the draws give; see `absolute_of`.
pub fn absolute_from(idx: &[u8], d: &[u8]) -> (res: Vec<u8>)
    requires
        idx@.len() > 0,
        d@.len() == idx@.len(),
        draws_below(idx@, 62),
        draws_below(d@, 6),
    ensures
        res@ == absolute_of(idx@, d@),
        res@.len() == idx@.len(),
        has_root(res@),
        forall|j: int| 0 <= j < idx@.len() ==> is_alnum(#[trigger] res@[j]) || res@[j] == DOT
            || res@[j] == SLASH,
{
    let len = idx.len();
    let mut raw = alphanumeric(idx);
    raw.set(0, SLASH);
    let ghost before = raw@;
    rewrite(&mut raw, 1, SLASH, Style::Unix, d);
    proof {
        assert forall|j: int| 0 <= j < len implies is_alnum(#[trigger] raw@[j]) || raw@[j] == DOT
            || raw@[j] == SLASH by {
            if j >= 1 {
                assert(before[j] == raw@[j] || raw@[j] == DOT || raw@[j] == SLASH);
            }
        }
    }
    raw
}

/// A random absolute path of `len` bytes, which may hold any special
/// pattern.
pub fn absolute(len: usize) -> (res: Vec<u8>)
    requires
        len > 0,
    ensures
        res@.len() == len,
        has_root(res@),
        forall|j: int| 0 <= j < len ==> is_alnum(#[trigger] res@[j]) || res@[j] == DOT
            || res@[j] == SLASH,
        exists|idx: Seq<u8>, d: Seq<u8>|
            idx.len() == len && d.len() == len && draws_below(idx, 62) && draws_below(d, 6) && res@
                == #[trigger] absolute_of(idx, d),
{
    let idx = draw_bytes(len, 62);
    let d = draw_bytes(len, 6);
    let res = absolute_from(idx.as_slice(), d.as_slice());
    assert(res@ == absolute_of(idx@, d@));
    res
}

/// A random absolute or relative path of `len` bytes: either outcome of
/// `absolute` or of `relative`, by a coin.
pub fn common(len: usize) -> (res: Vec<u8>)
    requires
        len > 0,
    ensures
        res@.len() == len,
        forall|j: int| 0 <= j < len ==> is_alnum(#[trigger] res@[j]) || res@[j] == DOT
            || res@[j] == SLASH,
        (exists|idx: Seq<u8>, d: Seq<u8>|
            idx.len() == len && d.len() == len && draws_below(idx, 62) && draws_below(d, 6) && res@
                == #[trigger] absolute_of(idx, d)) || (exists|idx: Seq<u8>, dot_first: bool, d: Seq<u8>|
            idx.len() == len && d.len() == len && draws_below(idx, 62) && draws_below(d, 6) && res@
                == #[trigger] relative_of(idx, dot_first, d)),
{
    if rand_bool() {
        absolute(len)
    } else {
        relative(len)
    }
}

/// The normalized path that the draws give: the root, then digits and
/// letters from `idx` and the special bytes that the draws `d` give in a
/// normalized path from the second byte on; a last byte that is a
/// separator or a dot becomes an `x`.
pub open spec fn normal_of(idx: Seq<u8>, d: Seq<u8>) -> Seq<u8> {
    let (q, last) = rewritten(alnum_bytes(idx).update(0, SLASH), 1, SLASH, Style::UnixNormal, d);
    if idx.len() != 1 && (last == SLASH || last == DOT) {
        q.update(idx.len() - 1, 120)
    } else {
        q
    }
}

/// The normalized path that the draws give; see `normal_of`.
pub fn normal_from(idx: &[u8], d: &[u8]) -> (res: Vec<u8>)
    requires
        idx@.len() > 0,
        d@.len() == idx@.len(),
        draws_below(idx@, 62),
        draws_below(d@, 6),
    ensures
        res@ == normal_of(idx@, d@),
        res@.len() == idx@.len(),
        is_normalized(res@),
{
    let len = idx.len();
    let mut raw = alphanumeric(idx);
    raw.set(0, SLASH);
    proof {
        let q = raw@.subrange(0, 1);
        assert(q =~= seq![SLASH]);
        assert(q.drop_first() =~= Seq::<u8>::empty());
        assert(split(q.drop_first()) =~= seq![Seq::<u8>::empty()]);
    }
    let last = rewrite(&mut raw, 1, SLASH, Style::UnixNormal, d);
    proof {
        assert(raw@.subrange(0, len as int) =~= raw@);
        lemma_norm_finish(raw@, last);
    }
    if len != 1 && (last == SLASH || last == DOT) {
        raw.set(len - 1, 120);
    }
    raw
}

/// A random normalized path of `len` bytes.
pub fn normal(len: usize) -> (res: Vec<u8>)
    requires
        len > 0,
    ensures
        res@.len() == len,
        is_normalized(res@),
        exists|idx: Seq<u8>, d: Seq<u8>|
            idx.len() == len && d.len() == len && draws_below(idx, 62) && draws_below(d, 6) && res@
                == #[trigger] normal_of(idx, d),
{
    let idx = draw_bytes(len, 62);
    let d = draw_bytes(len, 6);
    let res = normal_from(idx.as_slice(), d.as_slice());
    assert(res@ == normal_of(idx@, d@));
    res
}

} // verus!
