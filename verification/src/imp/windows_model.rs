//! The mathematical model of Windows paths: a prefix (drive, device
//! namespace, UNC share or verbatim), then components separated by `\` or
//! `/`, where `..` can be collapsed lexically.
use vstd::prelude::*;

use super::unix_model::{dot, dot_dot, is_kept, is_normal_component, DOT, SLASH};
use crate::trivial::Error;

verus! {

/// The separator `\`, the canonical one on Windows.
pub const BACKSLASH: u8 = 92;

/// The `:` of a drive prefix.
pub const COLON: u8 = 58;

/// The `?` of a verbatim prefix.
pub const QUESTION: u8 = 63;

/// A separator: `\` or `/`.
pub open spec fn is_sep(b: u8) -> bool {
    b == SLASH || b == BACKSLASH
}

/// Whether `c` holds no separator.
pub open spec fn win_sep_free(c: Seq<u8>) -> bool {
    forall|j: int| 0 <= j < c.len() ==> !is_sep(#[trigger] c[j])
}

/// The pieces of `p` between separators, in order; one more than there are
/// separators.
pub open spec fn wsplit(p: Seq<u8>) -> Seq<Seq<u8>>
    decreases p.len(),
{
    if p.len() == 0 {
        seq![Seq::empty()]
    } else {
        let rest = wsplit(p.drop_last());
        if is_sep(p.last()) {
            rest.push(Seq::empty())
        } else {
            rest.update(rest.len() - 1, rest.last().push(p.last()))
        }
    }
}

/// The separators of `p`, in order.
pub open spec fn seps(p: Seq<u8>) -> Seq<u8>
    decreases p.len(),
{
    if p.len() == 0 {
        Seq::empty()
    } else if is_sep(p.last()) {
        seps(p.drop_last()).push(p.last())
    } else {
        seps(p.drop_last())
    }
}

/// The pieces joined back together with `\` between consecutive ones.
pub open spec fn join_bs(ks: Seq<Seq<u8>>) -> Seq<u8>
    decreases ks.len(),
{
    if ks.len() == 0 {
        Seq::empty()
    } else if ks.len() == 1 {
        ks[0]
    } else {
        join_bs(ks.drop_last()) + seq![BACKSLASH] + ks.last()
    }
}

/// The separator after the component at index `i`, if any.
pub open spec fn sep_after(ss: Seq<u8>, i: int) -> Option<u8> {
    if 0 <= i < ss.len() {
        Some(ss[i])
    } else {
        None
    }
}

/// How many components deep a scan is after one more component: a plain name
/// goes one level down, a `..` one level up unless already at the top.
pub open spec fn depth_after(d: nat, c: Seq<u8>) -> nat {
    if is_normal_component(c) {
        d + 1
    } else if c == dot_dot() && d > 0 {
        (d - 1) as nat
    } else {
        d
    }
}

/// The depth after the first `k` components, starting at depth `d0`.
pub open spec fn depth_upto(cs: Seq<Seq<u8>>, d0: nat, k: int) -> nat
    decreases k,
{
    if k <= 0 {
        d0
    } else {
        depth_after(depth_upto(cs, d0, k - 1), cs[k - 1])
    }
}

/// What is wrong with a component found at depth `d` and followed by `sep`:
/// an empty or `.` component is not canonical; `..` is not canonical when it
/// can be collapsed and escapes the base otherwise; a `/` separator is not
/// canonical unless it is already reported with the component before it.
pub open spec fn comp_issues(c: Seq<u8>, d: nat, sep: Option<u8>) -> Seq<Error> {
    if !is_kept(c) {
        seq![Error::NotCanonical]
    } else if c == dot_dot() {
        if d > 0 {
            seq![Error::NotCanonical]
        } else if sep == Some(SLASH) {
            seq![Error::ContainsParent, Error::NotCanonical]
        } else {
            seq![Error::ContainsParent]
        }
    } else if sep == Some(SLASH) {
        seq![Error::NotCanonical]
    } else {
        Seq::empty()
    }
}

/// The issues of the first `k` components, in order.
pub open spec fn issues_upto(cs: Seq<Seq<u8>>, ss: Seq<u8>, d0: nat, k: int) -> Seq<Error>
    decreases k,
{
    if k <= 0 {
        Seq::empty()
    } else {
        issues_upto(cs, ss, d0, k - 1) + comp_issues(
            cs[k - 1],
            depth_upto(cs, d0, k - 1),
            sep_after(ss, k - 1),
        )
    }
}

/// The part after a leading separator, if there is one.
pub open spec fn after_root(t: Seq<u8>) -> Seq<u8> {
    if t.len() > 0 && is_sep(t[0]) {
        t.drop_first()
    } else {
        t
    }
}

/// The issues of the components of `t`, scanned from depth `d0`.
pub open spec fn tail_issues(t: Seq<u8>, d0: nat) -> Seq<Error> {
    if t.len() == 0 {
        Seq::empty()
    } else {
        let u = after_root(t);
        issues_upto(wsplit(u), seps(u), d0, wsplit(u).len() as int)
    }
}

/// The issues found in the part of a path after its prefix: a leading `/`
/// first, then those of the components; a part of at most one byte is only
/// wrong when it is `.` or `/`.
pub open spec fn searcher_issues(t: Seq<u8>) -> Seq<Error> {
    if t.len() <= 1 {
        if t == dot() || t == seq![SLASH] {
            seq![Error::NotCanonical]
        } else {
            Seq::empty()
        }
    } else {
        (if t[0] == SLASH {
            seq![Error::NotCanonical]
        } else {
            Seq::empty()
        }) + tail_issues(t, 0)
    }
}

// ---------------------------------------------------------------------------
// Prefixes
// ---------------------------------------------------------------------------

/// The shape of a prefix that normalization works on.
#[derive(Clone, Copy)]
pub enum PrefixCharacteristic {
    /// A drive, like `C:`.
    Disk,
    /// A device namespace `\\.\name` or a UNC share `\\server\share`: the
    /// length of the prefix and that of the part between the two leading
    /// separators and the next one.
    Namespace(usize, usize),
}

/// A verbatim path, starting with `\\?\`: it is never changed.
pub open spec fn is_verbatim(p: Seq<u8>) -> bool {
    p.len() >= 4 && p[0] == BACKSLASH && p[1] == BACKSLASH && p[2] == QUESTION && p[3]
        == BACKSLASH
}

/// The index of the first separator at or after `i`, or the length.
pub open spec fn first_sep_from(p: Seq<u8>, i: int) -> int
    decreases p.len() - i,
{
    if i >= p.len() {
        p.len() as int
    } else if i < 0 {
        first_sep_from(p, 0)
    } else if is_sep(p[i]) {
        i
    } else {
        first_sep_from(p, i + 1)
    }
}

/// An ASCII letter.
pub open spec fn is_letter(b: u8) -> bool {
    (65 <= b && b <= 90) || (97 <= b && b <= 122)
}

/// A device namespace prefix `\\.\name`.
pub open spec fn is_device(p: Seq<u8>) -> bool {
    p.len() >= 4 && is_sep(p[0]) && is_sep(p[1]) && p[2] == DOT && is_sep(p[3])
}

/// A UNC prefix `\\server\share`, with a non-empty server and share.
pub open spec fn is_unc(p: Seq<u8>) -> bool {
    &&& p.len() >= 2
    &&& is_sep(p[0])
    &&& is_sep(p[1])
    &&& !is_verbatim(p)
    &&& !is_device(p)
    &&& first_sep_from(p, 2) > 2
    &&& first_sep_from(p, 2) < p.len()
    &&& first_sep_from(p, first_sep_from(p, 2) + 1) > first_sep_from(p, 2) + 1
}

/// A drive prefix `C:`.
pub open spec fn is_disk(p: Seq<u8>) -> bool {
    p.len() >= 2 && is_letter(p[0]) && p[1] == COLON
}

/// The prefix of a path that is not verbatim, as the standard library parses
/// it on Windows.
pub open spec fn win_prefix(p: Seq<u8>) -> Option<PrefixCharacteristic> {
    if is_device(p) {
        Some(PrefixCharacteristic::Namespace(first_sep_from(p, 4) as usize, 1))
    } else if is_unc(p) {
        Some(
            PrefixCharacteristic::Namespace(
                first_sep_from(p, first_sep_from(p, 2) + 1) as usize,
                (first_sep_from(p, 2) - 2) as usize,
            ),
        )
    } else if is_disk(p) {
        Some(PrefixCharacteristic::Disk)
    } else {
        None
    }
}

/// The length of the prefix.
pub open spec fn prefix_len(pc: Option<PrefixCharacteristic>) -> int {
    match pc {
        None => 0,
        Some(PrefixCharacteristic::Disk) => 2,
        Some(PrefixCharacteristic::Namespace(len, _)) => len as int,
    }
}

/// The part of a path after its prefix.
pub open spec fn win_tail(p: Seq<u8>) -> Seq<u8> {
    p.subrange(prefix_len(win_prefix(p)), p.len() as int)
}

/// An absolute Windows path: a prefix and a root, which a device namespace
/// or a UNC share always has.
pub open spec fn win_absolute(p: Seq<u8>) -> bool {
    match win_prefix(p) {
        None => false,
        Some(PrefixCharacteristic::Disk) => win_tail(p).len() > 0 && is_sep(win_tail(p)[0]),
        Some(PrefixCharacteristic::Namespace(_, _)) => true,
    }
}

/// The prefix itself is at fault: a lowercase drive letter, or a namespace
/// written with `/` or followed by nothing but a separator. A path without
/// prefix is not absolute.
pub open spec fn prefix_error(p: Seq<u8>) -> Option<Error> {
    match win_prefix(p) {
        None => Some(Error::NotAbsolute),
        Some(PrefixCharacteristic::Disk) => if 97 <= p[0] && p[0] <= 122 {
            Some(Error::NotCanonical)
        } else {
            None
        },
        Some(PrefixCharacteristic::Namespace(len, name)) => if win_tail(p).len() == 1 || p[0]
            != BACKSLASH || p[1] != BACKSLASH || p[2 + name] != BACKSLASH {
            Some(Error::NotCanonical)
        } else {
            None
        },
    }
}

/// The part that validation scans after the prefix: nothing after a prefix
/// followed by a lone separator.
pub open spec fn scanned_tail(p: Seq<u8>) -> Seq<u8> {
    match win_prefix(p) {
        Some(PrefixCharacteristic::Namespace(_, _)) => if win_tail(p).len() == 1 {
            Seq::empty()
        } else {
            win_tail(p)
        },
        _ => win_tail(p),
    }
}

/// The issues of the components after the prefix.
pub open spec fn win_path_issues(p: Seq<u8>) -> Seq<Error> {
    searcher_issues(scanned_tail(p))
}

/// Fail-fast validation on Windows: a verbatim path is always valid; then a
/// missing root, a fault of the prefix, and the first issue found.
pub open spec fn win_validate_result(p: Seq<u8>) -> Result<(), Error> {
    if is_verbatim(p) {
        Ok(())
    } else if !win_absolute(p) {
        Err(Error::NotAbsolute)
    } else if prefix_error(p) is Some {
        Err(prefix_error(p)->0)
    } else if win_path_issues(p).len() > 0 {
        Err(win_path_issues(p)[0])
    } else {
        Ok(())
    }
}

/// Validation on Windows that reports non-canonicality first, then a
/// parent component that escapes the base, then a missing root.
pub open spec fn win_validate_canonical_result(p: Seq<u8>) -> Result<(), Error> {
    if is_verbatim(p) {
        Ok(())
    } else if prefix_error(p) == Some(Error::NotCanonical) || win_path_issues(p).contains(
        Error::NotCanonical,
    ) {
        Err(Error::NotCanonical)
    } else if win_path_issues(p).contains(Error::ContainsParent) {
        Err(Error::ContainsParent)
    } else if !win_absolute(p) {
        Err(Error::NotAbsolute)
    } else {
        Ok(())
    }
}

/// Validation on Windows that reports a parent component that escapes the
/// base first, then non-canonicality, then a missing root.
pub open spec fn win_validate_parentless_result(p: Seq<u8>) -> Result<(), Error> {
    if is_verbatim(p) {
        Ok(())
    } else if win_path_issues(p).contains(Error::ContainsParent) {
        Err(Error::ContainsParent)
    } else if prefix_error(p) == Some(Error::NotCanonical) || win_path_issues(p).contains(
        Error::NotCanonical,
    ) {
        Err(Error::NotCanonical)
    } else if !win_absolute(p) {
        Err(Error::NotAbsolute)
    } else {
        Ok(())
    }
}

// ---------------------------------------------------------------------------
// The canonical form
// ---------------------------------------------------------------------------

/// Collapses the components `cs`: empty and `.` components vanish, and a
/// `..` removes the name before it, or is counted when there is none.
/// Yields the number of `..` that remain and the names, in order.
pub open spec fn resolve(cs: Seq<Seq<u8>>) -> (nat, Seq<Seq<u8>>)
    decreases cs.len(),
{
    if cs.len() == 0 {
        (0, Seq::empty())
    } else {
        let (d, st) = resolve(cs.drop_last());
        let c = cs.last();
        if !is_kept(c) {
            (d, st)
        } else if c == dot_dot() {
            if st.len() > 0 {
                (d, st.drop_last())
            } else {
                (d + 1, st)
            }
        } else {
            (d, st.push(c))
        }
    }
}

/// `n` parent components.
pub open spec fn dot_dots(n: nat) -> Seq<Seq<u8>> {
    Seq::new(n, |i: int| dot_dot())
}

/// The letter in upper case.
pub open spec fn upper(b: u8) -> u8 {
    if 97 <= b && b <= 122 {
        (b - 32) as u8
    } else {
        b
    }
}

/// The prefix in canonical form: an upper case drive letter, and `\` for
/// the three separators of a namespace.
pub open spec fn canonical_prefix(p: Seq<u8>) -> Seq<u8> {
    match win_prefix(p) {
        None => Seq::empty(),
        Some(PrefixCharacteristic::Disk) => seq![upper(p[0]), COLON],
        Some(PrefixCharacteristic::Namespace(len, name)) => p.subrange(0, len as int).update(
            0,
            BACKSLASH,
        ).update(1, BACKSLASH).update(2 + name, BACKSLASH),
    }
}

/// The canonical form of a Windows path: verbatim paths are kept; otherwise
/// the prefix in canonical form, the root, and the collapsed components
/// joined by `\`. A namespace followed by nothing keeps no root.
pub open spec fn win_canonical(p: Seq<u8>) -> Seq<u8> {
    if is_verbatim(p) {
        p
    } else {
        let t = win_tail(p);
        let rooted = t.len() > 0 && is_sep(t[0]);
        let (d, st) = resolve(wsplit(after_root(t)));
        let body = join_bs(dot_dots(d) + st);
        let ns = win_prefix(p) matches Some(PrefixCharacteristic::Namespace(_, _));
        canonical_prefix(p) + (if rooted && !(ns && body.len() == 0) {
            seq![BACKSLASH]
        } else {
            Seq::empty()
        }) + body
    }
}

/// What normalization reports on Windows: a `..` that escapes the base
/// first, then a missing root.
pub open spec fn win_normalize_error(p: Seq<u8>) -> Option<Error> {
    if is_verbatim(p) {
        None
    } else if resolve(wsplit(after_root(win_tail(p)))).0 > 0 {
        Some(Error::ContainsParent)
    } else if !win_absolute(p) {
        Some(Error::NotAbsolute)
    } else {
        None
    }
}

// ---------------------------------------------------------------------------
// Lemmas on splitting
// ---------------------------------------------------------------------------

pub proof fn lemma_wsplit_step(p: Seq<u8>, b: u8)
    ensures
        wsplit(p.push(b)) == if is_sep(b) {
            wsplit(p).push(Seq::empty())
        } else {
            wsplit(p).update(wsplit(p).len() - 1, wsplit(p).last().push(b))
        },
        seps(p.push(b)) == if is_sep(b) {
            seps(p).push(b)
        } else {
            seps(p)
        },
{
    assert(p.push(b).drop_last() =~= p);
}

pub proof fn lemma_wsplit_shape(p: Seq<u8>)
    ensures
        wsplit(p).len() >= 1,
        seps(p).len() + 1 == wsplit(p).len(),
        forall|i: int| 0 <= i < wsplit(p).len() ==> #[trigger] win_sep_free(wsplit(p)[i]),
        forall|i: int| 0 <= i < seps(p).len() ==> #[trigger] is_sep(seps(p)[i]),
    decreases p.len(),
{
    if p.len() > 0 {
        let q = p.drop_last();
        lemma_wsplit_shape(q);
        assert(q.push(p.last()) =~= p);
        lemma_wsplit_step(q, p.last());
        let s = wsplit(q);
        if !is_sep(p.last()) {
            assert forall|i: int| 0 <= i < wsplit(p).len() implies #[trigger] win_sep_free(wsplit(p)[i]) by {
                if i == s.len() - 1 {
                    assert(win_sep_free(s[i]));
                    assert forall|j: int| 0 <= j < wsplit(p)[i].len() implies !is_sep(#[trigger] wsplit(p)[i][j]) by {
                        if j < s[i].len() {
                            assert(wsplit(p)[i][j] == s[i][j]);
                        }
                    }
                } else {
                    assert(wsplit(p)[i] == s[i]);
                }
            }
        } else {
            assert forall|i: int| 0 <= i < wsplit(p).len() implies #[trigger] win_sep_free(wsplit(p)[i]) by {
                if i < s.len() {
                    assert(wsplit(p)[i] == s[i]);
                }
            }
            assert forall|i: int| 0 <= i < seps(p).len() implies #[trigger] is_sep(seps(p)[i]) by {
                if i < seps(q).len() {
                    assert(seps(p)[i] == seps(q)[i]);
                }
            }
        }
    }
}

pub proof fn lemma_wsplit_concat(x: Seq<u8>, s: u8, y: Seq<u8>)
    requires
        is_sep(s),
    ensures
        wsplit(x + seq![s] + y) == wsplit(x) + wsplit(y),
        seps(x + seq![s] + y) == seps(x) + seq![s] + seps(y),
    decreases y.len(),
{
    lemma_wsplit_shape(x);
    if y.len() == 0 {
        assert(x + seq![s] + y =~= x.push(s));
        lemma_wsplit_step(x, s);
        assert(wsplit(x).push(Seq::empty()) =~= wsplit(x) + wsplit(y));
        assert(seps(x).push(s) =~= seps(x) + seq![s] + seps(y));
    } else {
        let z = y.drop_last();
        let b = y.last();
        lemma_wsplit_concat(x, s, z);
        lemma_wsplit_shape(z);
        assert(x + seq![s] + y =~= (x + seq![s] + z).push(b));
        assert(z.push(b) =~= y);
        lemma_wsplit_step(x + seq![s] + z, b);
        lemma_wsplit_step(z, b);
        if is_sep(b) {
            assert((wsplit(x) + wsplit(z)).push(Seq::empty()) =~= wsplit(x) + wsplit(z).push(
                Seq::empty(),
            ));
            assert((seps(x) + seq![s] + seps(z)).push(b) =~= seps(x) + seq![s] + seps(z).push(b));
        } else {
            let l = wsplit(x) + wsplit(z);
            assert(l.update(l.len() - 1, l.last().push(b)) =~= wsplit(x) + wsplit(z).update(
                wsplit(z).len() - 1,
                wsplit(z).last().push(b),
            ));
        }
    }
}

pub proof fn lemma_wsplit_sep_free(c: Seq<u8>)
    requires
        win_sep_free(c),
    ensures
        wsplit(c) == seq![c],
        seps(c) == Seq::<u8>::empty(),
    decreases c.len(),
{
    if c.len() > 0 {
        let q = c.drop_last();
        assert(win_sep_free(q));
        lemma_wsplit_sep_free(q);
        assert(q.push(c.last()) =~= c);
        assert(!is_sep(c[c.len() - 1]));
        lemma_wsplit_step(q, c.last());
        assert(wsplit(c) =~= seq![c]);
    } else {
        assert(c =~= Seq::<u8>::empty());
        assert(wsplit(c) =~= seq![c]);
    }
}

// ---------------------------------------------------------------------------
// Lemmas on issues
// ---------------------------------------------------------------------------

/// Issues and depth only depend on the components scanned and the
/// separators after them.
pub proof fn lemma_issues_upto_ext(
    cs1: Seq<Seq<u8>>,
    ss1: Seq<u8>,
    cs2: Seq<Seq<u8>>,
    ss2: Seq<u8>,
    d0: nat,
    k: int,
)
    requires
        forall|i: int| 0 <= i < k ==> cs1[i] == cs2[i] && sep_after(ss1, i) == sep_after(ss2, i),
    ensures
        issues_upto(cs1, ss1, d0, k) == issues_upto(cs2, ss2, d0, k),
        depth_upto(cs1, d0, k) == depth_upto(cs2, d0, k),
    decreases k,
{
    if k > 0 {
        lemma_issues_upto_ext(cs1, ss1, cs2, ss2, d0, k - 1);
        assert(cs1[k - 1] == cs2[k - 1]);
        assert(sep_after(ss1, k - 1) == sep_after(ss2, k - 1));
    }
}

/// Scanning two runs of components one after the other.
pub proof fn lemma_issues_upto_split(
    a: Seq<Seq<u8>>,
    sa: Seq<u8>,
    s: u8,
    b: Seq<Seq<u8>>,
    sb: Seq<u8>,
    d0: nat,
    j: int,
)
    requires
        sa.len() + 1 == a.len(),
        sb.len() + 1 == b.len(),
        0 <= j <= b.len(),
    ensures
        issues_upto(a + b, sa + seq![s] + sb, d0, a.len() + j) == issues_upto(
            a,
            sa + seq![s],
            d0,
            a.len() as int,
        ) + issues_upto(b, sb, depth_upto(a, d0, a.len() as int), j),
        depth_upto(a + b, d0, a.len() + j) == depth_upto(
            b,
            depth_upto(a, d0, a.len() as int),
            j,
        ),
    decreases j,
{
    let cs = a + b;
    let ss = sa + seq![s] + sb;
    if j == 0 {
        lemma_issues_upto_ext(cs, ss, a, sa + seq![s], d0, a.len() as int);
        assert(issues_upto(b, sb, depth_upto(a, d0, a.len() as int), 0) =~= Seq::<Error>::empty());
        assert(issues_upto(a, sa + seq![s], d0, a.len() as int) + Seq::<Error>::empty() =~= issues_upto(
            a,
            sa + seq![s],
            d0,
            a.len() as int,
        ));
    } else {
        lemma_issues_upto_split(a, sa, s, b, sb, d0, j - 1);
        assert(cs[a.len() + j - 1] == b[j - 1]);
        assert(sep_after(ss, a.len() + j - 1) == sep_after(sb, j - 1));
        let x = issues_upto(a, sa + seq![s], d0, a.len() as int);
        let y = issues_upto(b, sb, depth_upto(a, d0, a.len() as int), j - 1);
        let z = comp_issues(b[j - 1], depth_upto(b, depth_upto(a, d0, a.len() as int), j - 1), sep_after(sb, j - 1));
        assert(x + y + z =~= x + (y + z));
    }
}

/// The last component of a scan, followed by `sep`.
pub proof fn lemma_issues_upto_last(cs: Seq<Seq<u8>>, ss: Seq<u8>, sep: u8, d0: nat)
    requires
        ss.len() + 1 == cs.len(),
    ensures
        issues_upto(cs, ss + seq![sep], d0, cs.len() as int) == issues_upto(
            cs,
            ss,
            d0,
            cs.len() - 1,
        ) + comp_issues(cs.last(), depth_upto(cs, d0, cs.len() - 1), Some(sep)),
        issues_upto(cs, ss, d0, cs.len() as int) == issues_upto(cs, ss, d0, cs.len() - 1)
            + comp_issues(cs.last(), depth_upto(cs, d0, cs.len() - 1), None),
{
    lemma_issues_upto_ext(cs, ss + seq![sep], cs, ss, d0, cs.len() - 1);
}

// ---------------------------------------------------------------------------
// Lemmas on the canonical form
// ---------------------------------------------------------------------------

/// Each piece followed by a `\`.
pub open spec fn trail(ks: Seq<Seq<u8>>) -> Seq<u8>
    decreases ks.len(),
{
    if ks.len() == 0 {
        Seq::empty()
    } else {
        trail(ks.drop_last()) + ks.last() + seq![BACKSLASH]
    }
}

pub proof fn lemma_trail_step(ks: Seq<Seq<u8>>, c: Seq<u8>)
    ensures
        trail(ks.push(c)) == trail(ks) + c + seq![BACKSLASH],
        join_bs(ks.push(c)) == trail(ks) + c,
    decreases ks.len(),
{
    assert(ks.push(c).drop_last() =~= ks);
    if ks.len() == 0 {
        assert(trail(ks) =~= Seq::<u8>::empty());
        assert(trail(ks) + c =~= c);
    } else {
        lemma_trail_step(ks.drop_last(), ks.last());
        assert(ks.drop_last().push(ks.last()) =~= ks);
        assert(join_bs(ks) + seq![BACKSLASH] + c =~= trail(ks) + c) by {
            if ks.len() == 1 {
                assert(trail(ks.drop_last()) =~= Seq::<u8>::empty());
                assert(trail(ks) =~= ks[0] + seq![BACKSLASH]);
            } else {
                assert(trail(ks) == trail(ks.drop_last()) + ks.last() + seq![BACKSLASH]);
            }
        }
    }
}

pub proof fn lemma_trail_concat(a: Seq<Seq<u8>>, b: Seq<Seq<u8>>)
    ensures
        trail(a + b) == trail(a) + trail(b),
    decreases b.len(),
{
    if b.len() == 0 {
        assert(a + b =~= a);
        assert(trail(a) + trail(b) =~= trail(a));
    } else {
        let c = b.drop_last();
        lemma_trail_concat(a, c);
        assert(a + b =~= (a + c).push(b.last()));
        assert(c.push(b.last()) =~= b);
        lemma_trail_step(a + c, b.last());
        lemma_trail_step(c, b.last());
        assert(trail(a) + trail(c) + b.last() + seq![BACKSLASH] =~= trail(a) + (trail(c) + b.last()
            + seq![BACKSLASH]));
    }
}

/// One more component for `resolve`.
pub proof fn lemma_resolve_step(cs: Seq<Seq<u8>>, c: Seq<u8>)
    ensures
        resolve(cs.push(c)) == if !is_kept(c) {
            resolve(cs)
        } else if c == dot_dot() {
            if resolve(cs).1.len() > 0 {
                (resolve(cs).0, resolve(cs).1.drop_last())
            } else {
                ((resolve(cs).0 + 1) as nat, resolve(cs).1)
            }
        } else {
            (resolve(cs).0, resolve(cs).1.push(c))
        },
{
    assert(cs.push(c).drop_last() =~= cs);
}

/// The names that `resolve` keeps are plain names taken from its input.
pub proof fn lemma_resolve_shape(cs: Seq<Seq<u8>>)
    requires
        forall|i: int| 0 <= i < cs.len() ==> #[trigger] win_sep_free(cs[i]),
    ensures
        forall|i: int| 0 <= i < resolve(cs).1.len() ==> #[trigger] is_normal_component(
            resolve(cs).1[i],
        ) && win_sep_free(resolve(cs).1[i]),
    decreases cs.len(),
{
    if cs.len() > 0 {
        let init = cs.drop_last();
        assert forall|i: int| 0 <= i < init.len() implies #[trigger] win_sep_free(init[i]) by {
            assert(init[i] == cs[i]);
        }
        lemma_resolve_shape(init);
        assert(init.push(cs.last()) =~= cs);
        lemma_resolve_step(init, cs.last());
        assert(win_sep_free(cs[cs.len() - 1]));
    }
}

pub proof fn lemma_dot_dots_push(n: nat)
    ensures
        dot_dots(n).push(dot_dot()) == dot_dots(n + 1),
        dot_dots(n).len() == n,
{
    assert(dot_dots(n).push(dot_dot()) =~= dot_dots(n + 1));
}

/// A non-empty run of pieces, each followed by `\`, ends with `\`.
pub proof fn lemma_trail_last(ks: Seq<Seq<u8>>)
    ensures
        ks.len() > 0 ==> trail(ks).len() > ks.last().len() && trail(ks).last() == BACKSLASH
            && trail(ks) == join_bs(ks) + seq![BACKSLASH],
        ks.len() == 0 ==> trail(ks).len() == 0,
{
    if ks.len() > 0 {
        lemma_trail_step(ks.drop_last(), ks.last());
        assert(ks.drop_last().push(ks.last()) =~= ks);
    }
}

/// `n` parent components take three bytes each.
pub proof fn lemma_trail_dot_dots_len(n: nat)
    ensures
        trail(dot_dots(n)).len() == 3 * n,
    decreases n,
{
    if n > 0 {
        lemma_trail_dot_dots_len((n - 1) as nat);
        lemma_dot_dots_push((n - 1) as nat);
        lemma_trail_step(dot_dots((n - 1) as nat), dot_dot());
    } else {
        assert(dot_dots(0) =~= Seq::<Seq<u8>>::empty());
    }
}

/// The start of the last name written after `base`, found as the position
/// just after the last `\` that precedes the trailing one, or `begin`.
pub proof fn lemma_pop_position(base: Seq<u8>, st: Seq<Seq<u8>>, begin: int, at: int)
    requires
        st.len() > 0,
        forall|k: int| 0 <= k < st.len() ==> #[trigger] st[k].len() > 0 && win_sep_free(st[k]),
        0 <= begin,
        begin == base.len() || (begin + 1 == base.len() && base[begin] == BACKSLASH),
        begin <= at < (base + trail(st)).len(),
        at == begin || (base + trail(st))[at - 1] == BACKSLASH,
        forall|j: int| at <= j < (base + trail(st)).len() - 1 ==> (base + trail(st))[j] != BACKSLASH,
    ensures
        at == base.len() + trail(st.drop_last()).len(),
{
    let init = st.drop_last();
    let c = st.last();
    lemma_trail_step(init, c);
    assert(init.push(c) =~= st);
    lemma_trail_last(init);
    let out = base + trail(st);
    let m = base.len() + trail(init).len();
    assert(out =~= base + trail(init) + c + seq![BACKSLASH]);
    assert(out.len() == m + c.len() + 1);
    assert(win_sep_free(c) && c.len() > 0) by {
        assert(st[st.len() - 1] == c);
    }
    if at < m {
        if init.len() > 0 {
            assert(out[m - 1] == trail(init).last());
        } else {
            assert(begin == base.len() - 1);
            assert(out[m - 1] == base[m - 1]);
        }
        assert(out[m - 1] == BACKSLASH);
        assert(false);
    } else if at > m {
        assert(out[at - 1] == c[at - 1 - m]);
        assert(!is_sep(c[at - 1 - m]));
        assert(false);
    }
}

/// Where a prefix ends, and where the separators of a namespace stand.
pub proof fn lemma_first_sep_bounds(p: Seq<u8>, i: int)
    requires
        0 <= i <= p.len(),
    ensures
        i <= first_sep_from(p, i) <= p.len(),
        first_sep_from(p, i) < p.len() ==> is_sep(p[first_sep_from(p, i)]),
    decreases p.len() - i,
{
    if i < p.len() && !is_sep(p[i]) {
        lemma_first_sep_bounds(p, i + 1);
    }
}

/// The bounds of a prefix within its path.
pub proof fn lemma_prefix_bounds(p: Seq<u8>)
    requires
        p.len() <= usize::MAX,
    ensures
        0 <= prefix_len(win_prefix(p)) <= p.len(),
        win_prefix(p) == Some(PrefixCharacteristic::Disk) ==> p.len() >= 2,
        match win_prefix(p) {
            Some(PrefixCharacteristic::Namespace(len, name)) => 2 + name < len <= p.len(),
            _ => true,
        },
{
    if is_device(p) {
        lemma_first_sep_bounds(p, 4);
    } else if p.len() >= 2 {
        lemma_first_sep_bounds(p, 2);
        if 2 <= first_sep_from(p, 2) < p.len() {
            lemma_first_sep_bounds(p, first_sep_from(p, 2) + 1);
        }
    }
}

/// Validation that reports a missing root first, then a parent component
/// that escapes the base, then non-canonicality.
pub open spec fn win_validate_fully_result(p: Seq<u8>) -> Result<(), Error> {
    if is_verbatim(p) {
        Ok(())
    } else if !win_absolute(p) {
        Err(Error::NotAbsolute)
    } else {
        win_validate_parentless_result(p)
    }
}

/// The part of `path` after `base`, compared byte by byte: `base` must be a
/// prefix of `path` that ends with a separator, or ends where a `\` follows
/// or at the end of `path`.
pub open spec fn win_strip_result(path: Seq<u8>, base: Seq<u8>) -> Option<Seq<u8>> {
    if base.len() <= path.len() && path.subrange(0, base.len() as int) == base {
        if path.len() == base.len() {
            Some(Seq::empty())
        } else if base.len() > 0 && is_sep(base.last()) {
            Some(path.subrange(base.len() as int, path.len() as int))
        } else if path[base.len() as int] == BACKSLASH {
            Some(path.subrange(base.len() + 1int, path.len() as int))
        } else {
            None
        }
    } else {
        None
    }
}

/// The `..` that escape the base after collapsing the components of the
/// part of `p` after its prefix and root.
pub open spec fn escaping_parents(p: Seq<u8>) -> nat {
    resolve(wsplit(after_root(win_tail(p)))).0
}

pub proof fn lemma_contains_concat(a: Seq<Error>, b: Seq<Error>, x: Error)
    ensures
        (a + b).contains(x) <==> a.contains(x) || b.contains(x),
{
    if a.contains(x) {
        let i = choose|i: int| 0 <= i < a.len() && a[i] == x;
        assert((a + b)[i] == x);
    }
    if b.contains(x) {
        let i = choose|i: int| 0 <= i < b.len() && b[i] == x;
        assert((a + b)[a.len() + i] == x);
    }
    if (a + b).contains(x) {
        let i = choose|i: int| 0 <= i < (a + b).len() && (a + b)[i] == x;
        if i < a.len() {
            assert(a[i] == x);
        } else {
            assert(b[i - a.len()] == x);
        }
    }
}

/// What the scan of one component reports.
pub proof fn lemma_comp_issues_facts(c: Seq<u8>, d: nat, sep: Option<u8>)
    ensures
        comp_issues(c, d, sep).contains(Error::ContainsParent) <==> (c == dot_dot() && d == 0),
        forall|i: int| 0 <= i < comp_issues(c, d, sep).len() ==> (#[trigger] comp_issues(c, d, sep)[i]
            == Error::NotCanonical || comp_issues(c, d, sep)[i] == Error::ContainsParent),
{
    let r = comp_issues(c, d, sep);
    super::unix_model::lemma_dot_facts();
    if c == dot_dot() && d == 0 {
        assert(r[0] == Error::ContainsParent);
    } else if r.contains(Error::ContainsParent) {
        let i = choose|i: int| 0 <= i < r.len() && r[i] == Error::ContainsParent;
        assert(r[i] != Error::ContainsParent);
    }
}

/// The depth of a scan is the number of names that collapsing keeps, and the
/// scan reports a parent that escapes the base exactly when collapsing
/// counts one; it reports nothing else than these two kinds.
pub proof fn lemma_issues_upto_parent(cs: Seq<Seq<u8>>, ss: Seq<u8>, k: int)
    requires
        0 <= k <= cs.len(),
    ensures
        depth_upto(cs, 0, k) == resolve(cs.subrange(0, k)).1.len(),
        issues_upto(cs, ss, 0, k).contains(Error::ContainsParent) <==> resolve(
            cs.subrange(0, k),
        ).0 > 0,
        forall|i: int| 0 <= i < issues_upto(cs, ss, 0, k).len() ==> (#[trigger] issues_upto(
            cs,
            ss,
            0,
            k,
        )[i] == Error::NotCanonical || issues_upto(cs, ss, 0, k)[i] == Error::ContainsParent),
    decreases k,
{
    if k == 0 {
        assert(cs.subrange(0, 0) =~= Seq::<Seq<u8>>::empty());
        assert(!Seq::<Error>::empty().contains(Error::ContainsParent));
    } else {
        lemma_issues_upto_parent(cs, ss, k - 1);
        let init = cs.subrange(0, k - 1);
        let c = cs[k - 1];
        assert(cs.subrange(0, k) =~= init.push(c));
        lemma_resolve_step(init, c);
        let d = depth_upto(cs, 0, k - 1);
        let a = issues_upto(cs, ss, 0, k - 1);
        let b = comp_issues(c, d, sep_after(ss, k - 1));
        lemma_comp_issues_facts(c, d, sep_after(ss, k - 1));
        lemma_contains_concat(a, b, Error::ContainsParent);
        super::unix_model::lemma_dot_facts();
        assert forall|i: int| 0 <= i < (a + b).len() implies (#[trigger] (a + b)[i]
            == Error::NotCanonical || (a + b)[i] == Error::ContainsParent) by {
            if i < a.len() {
                assert((a + b)[i] == a[i]);
            } else {
                assert((a + b)[i] == b[i - a.len()]);
            }
        }
    }
}

/// A part of at most one byte after the prefix has no `..` to collapse.
pub proof fn lemma_short_tail(t: Seq<u8>)
    requires
        t.len() <= 1,
    ensures
        resolve(wsplit(after_root(t))).0 == 0,
{
    let u = after_root(t);
    super::unix_model::lemma_dot_facts();
    if u.len() == 0 {
        assert(wsplit(u) =~= seq![Seq::<u8>::empty()]);
        lemma_resolve_step(Seq::empty(), Seq::<u8>::empty());
        assert(seq![Seq::<u8>::empty()] =~= Seq::<Seq<u8>>::empty().push(Seq::<u8>::empty()));
    } else {
        assert(u =~= t);
        assert(!is_sep(u[0]));
        assert(win_sep_free(u));
        lemma_wsplit_sep_free(u);
        assert(seq![u] =~= Seq::<Seq<u8>>::empty().push(u));
        lemma_resolve_step(Seq::empty(), u);
        assert(u != dot_dot());
    }
}

/// Validation reports a parent component that escapes the base exactly when
/// normalization finds one; validation reports no other kinds of issue than
/// these and non-canonicality.
pub proof fn lemma_win_parent_agrees(p: Seq<u8>)
    requires
        !is_verbatim(p),
    ensures
        win_path_issues(p).contains(Error::ContainsParent) <==> escaping_parents(p) > 0,
        forall|i: int| 0 <= i < win_path_issues(p).len() ==> (#[trigger] win_path_issues(p)[i]
            == Error::NotCanonical || win_path_issues(p)[i] == Error::ContainsParent),
{
    let t = win_tail(p);
    let st = scanned_tail(p);
    if t.len() <= 1 {
        lemma_short_tail(t);
    }
    if st.len() <= 1 {
        let r = searcher_issues(st);
        assert forall|i: int| 0 <= i < r.len() implies (#[trigger] r[i] == Error::NotCanonical
            || r[i] == Error::ContainsParent) by {}
        assert(!r.contains(Error::ContainsParent)) by {
            if r.contains(Error::ContainsParent) {
                let i = choose|i: int| 0 <= i < r.len() && r[i] == Error::ContainsParent;
            }
        }
        if t.len() > 1 {
            assert(st == t);
        }
    } else {
        assert(st == t);
        let u = after_root(t);
        let cs = wsplit(u);
        lemma_wsplit_shape(u);
        lemma_issues_upto_parent(cs, seps(u), cs.len() as int);
        assert(cs.subrange(0, cs.len() as int) =~= cs);
        let x = if t[0] == SLASH {
            seq![Error::NotCanonical]
        } else {
            Seq::empty()
        };
        let y = tail_issues(t, 0);
        lemma_contains_concat(x, y, Error::ContainsParent);
        assert(!x.contains(Error::ContainsParent)) by {
            if x.contains(Error::ContainsParent) {
                let i = choose|i: int| 0 <= i < x.len() && x[i] == Error::ContainsParent;
            }
        }
        assert forall|i: int| 0 <= i < (x + y).len() implies (#[trigger] (x + y)[i]
            == Error::NotCanonical || (x + y)[i] == Error::ContainsParent) by {
            if i >= x.len() {
                assert((x + y)[i] == y[i - x.len()]);
            }
        }
    }
}

/// A scan that reports nothing has seen only names, separated by `\`, and
/// collapsing keeps them all.
pub proof fn lemma_no_issues_components(cs: Seq<Seq<u8>>, ss: Seq<u8>, k: int)
    requires
        0 <= k <= cs.len(),
        issues_upto(cs, ss, 0, k).len() == 0,
    ensures
        forall|i: int| 0 <= i < k ==> #[trigger] is_normal_component(cs[i]) && sep_after(ss, i)
            != Some(SLASH),
        resolve(cs.subrange(0, k)) == (0nat, cs.subrange(0, k)),
        depth_upto(cs, 0, k) == k,
    decreases k,
{
    if k == 0 {
        assert(cs.subrange(0, 0) =~= Seq::<Seq<u8>>::empty());
    } else {
        let a = issues_upto(cs, ss, 0, k - 1);
        let c = cs[k - 1];
        let b = comp_issues(c, depth_upto(cs, 0, k - 1), sep_after(ss, k - 1));
        assert(a.len() == 0 && b.len() == 0) by {
            assert((a + b).len() == a.len() + b.len());
        }
        lemma_no_issues_components(cs, ss, k - 1);
        super::unix_model::lemma_dot_facts();
        let init = cs.subrange(0, k - 1);
        assert(cs.subrange(0, k) =~= init.push(c));
        lemma_resolve_step(init, c);
    }
}

/// Joining the pieces of `u` with `\` gives `u` back when all its
/// separators are `\`.
pub proof fn lemma_join_bs_wsplit(u: Seq<u8>)
    requires
        forall|i: int| 0 <= i < seps(u).len() ==> #[trigger] seps(u)[i] == BACKSLASH,
    ensures
        join_bs(wsplit(u)) == u,
    decreases u.len(),
{
    if u.len() == 0 {
        assert(wsplit(u) =~= seq![Seq::<u8>::empty()]);
        assert(join_bs(wsplit(u)) =~= u);
    } else {
        let q = u.drop_last();
        let b = u.last();
        assert(q.push(b) =~= u);
        lemma_wsplit_step(q, b);
        lemma_wsplit_shape(q);
        assert forall|i: int| 0 <= i < seps(q).len() implies #[trigger] seps(q)[i] == BACKSLASH by {
            assert(seps(u)[i] == seps(q)[i]);
        }
        lemma_join_bs_wsplit(q);
        let ws = wsplit(q);
        let init = ws.drop_last();
        assert(init.push(ws.last()) =~= ws);
        lemma_trail_step(init, ws.last());
        if is_sep(b) {
            assert(seps(u).last() == b);
            lemma_trail_last(ws);
            assert(wsplit(u) =~= ws.push(Seq::<u8>::empty()));
            lemma_trail_step(ws, Seq::<u8>::empty());
            assert(join_bs(wsplit(u)) =~= u);
        } else {
            assert(wsplit(u) =~= init.push(ws.last().push(b)));
            lemma_trail_step(init, ws.last().push(b));
            assert(join_bs(wsplit(u)) =~= u);
        }
    }
}

/// The part after a namespace prefix is empty or starts with a separator.
pub proof fn lemma_namespace_tail(p: Seq<u8>)
    requires
        p.len() <= usize::MAX,
        win_prefix(p) matches Some(PrefixCharacteristic::Namespace(_, _)),
    ensures
        win_tail(p).len() > 0 ==> is_sep(win_tail(p)[0]),
{
    lemma_prefix_bounds(p);
    if is_device(p) {
        lemma_first_sep_bounds(p, 4);
    } else {
        lemma_first_sep_bounds(p, 2);
        lemma_first_sep_bounds(p, first_sep_from(p, 2) + 1);
    }
}

/// A path that validation accepts is its own canonical form, and
/// normalization reports nothing on it.
pub proof fn lemma_win_valid_is_canonical(p: Seq<u8>)
    requires
        p.len() <= usize::MAX,
        is_verbatim(p) || (win_absolute(p) && prefix_error(p) is None && win_path_issues(p).len()
            == 0),
    ensures
        win_canonical(p) == p,
        win_normalize_error(p) is None,
{
    if !is_verbatim(p) {
        lemma_prefix_bounds(p);
        let start = prefix_len(win_prefix(p));
        let t = win_tail(p);
        let u = after_root(t);
        let cs = wsplit(u);
        let pre = canonical_prefix(p);
        assert(pre =~= p.subrange(0, start));
        assert(p =~= p.subrange(0, start) + t);
        if win_prefix(p) matches Some(PrefixCharacteristic::Namespace(_, _)) {
            lemma_namespace_tail(p);
        }
        if t.len() <= 1 {
            lemma_short_tail(t);
        }
        if t.len() == 0 {
            assert(cs =~= seq![Seq::<u8>::empty()]);
            assert(seq![Seq::<u8>::empty()] =~= Seq::<Seq<u8>>::empty().push(Seq::<u8>::empty()));
            lemma_resolve_step(Seq::empty(), Seq::<u8>::empty());
            assert(dot_dots(0) =~= Seq::<Seq<u8>>::empty());
            assert(win_canonical(p) =~= p);
        } else if t.len() == 1 {
            assert(scanned_tail(p) == t);
            assert(is_sep(t[0]));
            if t[0] == SLASH {
                assert(t =~= seq![SLASH]);
                assert(win_path_issues(p).len() > 0);
            }
            assert(u =~= Seq::<u8>::empty());
            assert(cs =~= seq![Seq::<u8>::empty()]);
            assert(seq![Seq::<u8>::empty()] =~= Seq::<Seq<u8>>::empty().push(Seq::<u8>::empty()));
            lemma_resolve_step(Seq::empty(), Seq::<u8>::empty());
            assert(dot_dots(0) =~= Seq::<Seq<u8>>::empty());
            assert(t =~= seq![BACKSLASH]);
            assert(win_canonical(p) =~= p);
        } else {
            let x = if t[0] == SLASH {
                seq![Error::NotCanonical]
            } else {
                Seq::empty()
            };
            let y = tail_issues(t, 0);
            assert(win_path_issues(p) == x + y);
            assert(x.len() == 0 && y.len() == 0) by {
                assert((x + y).len() == x.len() + y.len());
            }
            lemma_wsplit_shape(u);
            lemma_no_issues_components(cs, seps(u), cs.len() as int);
            assert(cs.subrange(0, cs.len() as int) =~= cs);
            assert forall|i: int| 0 <= i < seps(u).len() implies #[trigger] seps(u)[i] == BACKSLASH by {
                assert(is_normal_component(cs[i]));
                assert(sep_after(seps(u), i) != Some(SLASH));
                assert(is_sep(seps(u)[i]));
            }
            lemma_join_bs_wsplit(u);
            assert(dot_dots(0) =~= Seq::<Seq<u8>>::empty());
            assert(dot_dots(0) + cs =~= cs);
            assert(t =~= seq![BACKSLASH] + u);
            assert(win_canonical(p) =~= p);
        }
    }
}

// ---------------------------------------------------------------------------
// Pushing
// ---------------------------------------------------------------------------

/// Whether `p` has a root on Windows: a verbatim path, a device namespace
/// or a UNC share always has one; otherwise a separator must follow the
/// prefix, if any.
pub open spec fn win_has_root(p: Seq<u8>) -> bool {
    if is_verbatim(p) {
        true
    } else {
        match win_prefix(p) {
            Some(PrefixCharacteristic::Namespace(_, _)) => true,
            _ => win_tail(p).len() > 0 && is_sep(win_tail(p)[0]),
        }
    }
}

/// Whether `p` has a prefix, verbatim or not.
pub open spec fn win_has_prefix(p: Seq<u8>) -> bool {
    is_verbatim(p) || win_prefix(p) is Some
}

/// Whether `PathBuf::push` puts a `\` between `buf` and what is pushed: when
/// `buf` is not empty, does not end with a separator, and is not a drive
/// alone.
pub open spec fn needs_sep(buf: Seq<u8>) -> bool {
    buf.len() > 0 && !is_sep(buf.last()) && !(win_prefix(buf) == Some(PrefixCharacteristic::Disk)
        && buf.len() == 2)
}

/// What `PathBuf::push` makes of `buf`, which is not verbatim, and `path` on
/// Windows: a path with a prefix replaces `buf`; a path with a root but no
/// prefix replaces all of `buf` but its prefix; any other path is appended,
/// after a `\` where one is needed.
pub open spec fn win_joined(buf: Seq<u8>, path: Seq<u8>) -> Seq<u8> {
    if win_has_prefix(path) {
        path
    } else if path.len() > 0 && is_sep(path[0]) {
        buf.subrange(0, prefix_len(win_prefix(buf))) + path
    } else if needs_sep(buf) {
        buf + seq![BACKSLASH] + path
    } else {
        buf + path
    }
}

/// A device namespace or a UNC share followed by a lone `\`.
pub open spec fn win_is_phony_root(p: Seq<u8>) -> bool {
    &&& !is_verbatim(p)
    &&& win_prefix(p) matches Some(PrefixCharacteristic::Namespace(_, _))
    &&& win_tail(p) == seq![BACKSLASH]
}

/// The bytes before the first separator at or after `i` are not separators.
pub proof fn lemma_first_sep_before(p: Seq<u8>, i: int)
    requires
        0 <= i <= p.len(),
    ensures
        forall|k: int| i <= k < first_sep_from(p, i) ==> !is_sep(#[trigger] p[k]),
    decreases p.len() - i,
{
    if i < p.len() && !is_sep(p[i]) {
        lemma_first_sep_before(p, i + 1);
    }
}

/// The first separator at or after `i` is at `j` when none comes before.
pub proof fn lemma_first_sep_is(p: Seq<u8>, i: int, j: int)
    requires
        0 <= i <= j <= p.len(),
        forall|k: int| i <= k < j ==> !is_sep(#[trigger] p[k]),
        j < p.len() ==> is_sep(p[j]),
    ensures
        first_sep_from(p, i) == j,
    decreases j - i,
{
    if i < j {
        lemma_first_sep_is(p, i + 1, j);
    }
}

/// A prefix keeps its meaning when what follows it is replaced by nothing or
/// by something that starts with a separator, and when its separators are
/// replaced by others and its drive letter by a letter.
pub proof fn lemma_prefix_kept(p: Seq<u8>, q: Seq<u8>)
    requires
        !is_verbatim(p),
        win_prefix(p) is Some,
        p.len() <= usize::MAX,
        q.len() <= usize::MAX,
        q.len() >= prefix_len(win_prefix(p)),
        forall|i: int| 0 <= i < prefix_len(win_prefix(p)) ==> (#[trigger] is_sep(q[i]) <==> is_sep(
            p[i],
        )),
        forall|i: int| 0 <= i < prefix_len(win_prefix(p)) && !is_sep(p[i]) && i != 0 ==> #[trigger] q[i]
            == p[i],
        !is_sep(p[0]) ==> is_letter(q[0]),
        q.len() == prefix_len(win_prefix(p)) || is_sep(q[prefix_len(win_prefix(p))]),
        !is_verbatim(q),
    ensures
        win_prefix(q) == win_prefix(p),
        win_tail(q) == q.subrange(prefix_len(win_prefix(p)), q.len() as int),
{
    lemma_prefix_bounds(p);
    let l = prefix_len(win_prefix(p));
    if is_device(p) {
        lemma_first_sep_before(p, 4);
        lemma_first_sep_bounds(p, 4);
        assert(q[2] == p[2]);
        lemma_first_sep_is(q, 4, l);
    } else if is_unc(p) {
        let k = first_sep_from(p, 2);
        lemma_first_sep_before(p, 2);
        lemma_first_sep_bounds(p, 2);
        lemma_first_sep_before(p, k + 1);
        lemma_first_sep_bounds(p, k + 1);
        lemma_first_sep_is(q, 2, k);
        lemma_first_sep_is(q, k + 1, l);
        if is_device(q) {
            assert(q[2] == p[2]);
            assert(q[3] == p[3] || is_sep(q[3]));
            assert(is_sep(p[3]) || p[3] == q[3]);
            assert(is_device(p));
        }
    } else {
        assert(is_disk(p));
        assert(q[1] == p[1]);
    }
}

/// The first byte of pieces joined by `\` is that of the first piece.
pub proof fn lemma_join_bs_first(ks: Seq<Seq<u8>>)
    requires
        ks.len() > 0,
        ks[0].len() > 0,
    ensures
        join_bs(ks).len() > 0,
        join_bs(ks)[0] == ks[0][0],
    decreases ks.len(),
{
    if ks.len() > 1 {
        let init = ks.drop_last();
        assert(init[0] == ks[0]);
        lemma_join_bs_first(init);
    }
}

/// The collapsed parts of a path: the `..` that escape the base, then the
/// names that remain; none is empty or holds a separator.
pub proof fn lemma_parts_shape(cs: Seq<Seq<u8>>)
    requires
        forall|i: int| 0 <= i < cs.len() ==> #[trigger] win_sep_free(cs[i]),
    ensures
        forall|k: int| 0 <= k < (dot_dots(resolve(cs).0) + resolve(cs).1).len() ==> (#[trigger] (
        dot_dots(resolve(cs).0) + resolve(cs).1)[k]).len() > 0 && win_sep_free(
            (dot_dots(resolve(cs).0) + resolve(cs).1)[k],
        ),
{
    let n = resolve(cs).0;
    let ks = dot_dots(n) + resolve(cs).1;
    lemma_resolve_shape(cs);
    super::unix_model::lemma_dot_facts();
    assert forall|k: int| 0 <= k < ks.len() implies (#[trigger] ks[k]).len() > 0 && win_sep_free(
        ks[k],
    ) by {
        if k < n {
            assert(ks[k] == dot_dot());
            assert forall|j: int| 0 <= j < dot_dot().len() implies !is_sep(#[trigger] dot_dot()[j]) by {
                assert(dot_dot()[j] == DOT);
            }
        } else {
            assert(ks[k] == resolve(cs).1[k - n]);
            assert(is_normal_component(resolve(cs).1[k - n]));
        }
    }
}

/// Normalization never leaves a device namespace or a UNC share followed by
/// a lone `\`.
pub proof fn lemma_win_canonical_not_phony(p: Seq<u8>)
    requires
        p.len() <= usize::MAX,
        win_canonical(p).len() <= usize::MAX,
    ensures
        !win_is_phony_root(win_canonical(p)),
{
    let c = win_canonical(p);
    if !is_verbatim(p) && !is_verbatim(c) {
        lemma_prefix_bounds(p);
        let t = win_tail(p);
        let u = after_root(t);
        let cs = wsplit(u);
        let ks = dot_dots(resolve(cs).0) + resolve(cs).1;
        let body = join_bs(ks);
        lemma_wsplit_shape(u);
        lemma_parts_shape(cs);
        if ks.len() > 0 {
            lemma_join_bs_first(ks);
            assert(!is_sep(ks[0][0]));
        } else {
            assert(body.len() == 0);
        }
        match win_prefix(p) {
            None => {
                if c.len() >= 2 {
                    assert(!is_sep(c[1]) || !is_sep(c[0]));
                }
            },
            Some(PrefixCharacteristic::Disk) => {
                assert(c[0] == upper(p[0]));
            },
            Some(PrefixCharacteristic::Namespace(len, name)) => {
                lemma_namespace_tail(p);
                let rest = c.subrange(len as int, c.len() as int);
                if t.len() == 0 {
                    assert(u =~= Seq::<u8>::empty());
                    assert(cs =~= seq![Seq::<u8>::empty()]);
                    assert(cs =~= Seq::<Seq<u8>>::empty().push(Seq::<u8>::empty()));
                    lemma_resolve_step(Seq::empty(), Seq::<u8>::empty());
                    assert(ks =~= Seq::<Seq<u8>>::empty());
                }
                if is_device(p) {
                    assert(is_sep(p[2 + name]));
                } else {
                    lemma_first_sep_bounds(p, 2);
                    assert(is_sep(p[2 + name]));
                }
                if body.len() > 0 {
                    assert(t.len() > 0);
                    assert(rest =~= seq![BACKSLASH] + body);
                    assert(rest != seq![BACKSLASH]) by {
                        assert(rest.len() >= 2);
                    }
                } else {
                    assert(rest =~= Seq::<u8>::empty());
                }
                assert forall|i: int| 0 <= i < len implies (#[trigger] is_sep(c[i]) <==> is_sep(p[i])) by {
                    assert(c[i] == canonical_prefix(p)[i]);
                }
                assert forall|i: int| 0 <= i < len && !is_sep(p[i]) && i != 0 implies #[trigger] c[i]
                    == p[i] by {
                    assert(c[i] == canonical_prefix(p)[i]);
                }
                lemma_prefix_kept(p, c);
            },
        }
    }
}

/// Joining a path without prefix onto a normalized path yields an absolute
/// path that is not verbatim; when the joined path has a root, the prefix of
/// the normalized path is kept and the joined path follows it.
pub proof fn lemma_joined_prefix(buf: Seq<u8>, path: Seq<u8>)
    requires
        !is_verbatim(buf),
        win_validate_result(buf) is Ok,
        !win_has_prefix(path),
        buf.len() <= usize::MAX,
        win_joined(buf, path).len() <= usize::MAX,
    ensures
        ({
            let j = win_joined(buf, path);
            let l = prefix_len(win_prefix(buf));
            &&& !is_verbatim(j)
            &&& win_absolute(j)
            &&& (path.len() > 0 && is_sep(path[0]) ==> win_prefix(j) == win_prefix(buf)
                && win_tail(j) == path && canonical_prefix(j) == buf.subrange(0, l)
                && j == buf.subrange(0, l) + path)
        }),
{
    let j = win_joined(buf, path);
    lemma_prefix_bounds(buf);
    let l = prefix_len(win_prefix(buf));
    if win_prefix(buf) matches Some(PrefixCharacteristic::Namespace(_, _)) {
        lemma_namespace_tail(buf);
    }
    assert(j.subrange(0, l) =~= buf.subrange(0, l));
    assert(!is_verbatim(j)) by {
        if is_verbatim(j) {
            if l >= 4 {
                assert(j[2] == buf[2] && j[3] == buf[3] && j[0] == buf[0] && j[1] == buf[1]);
            } else {
                assert(j[0] == buf[0]);
            }
        }
    }
    let rooted = path.len() > 0 && is_sep(path[0]);
    let sep_at_l = j.len() == l || is_sep(j[l]);
    if rooted {
        assert(j[l] == path[0]);
    } else if buf.len() > l {
        assert(j[l] == buf[l]);
        assert(win_tail(buf)[0] == buf[l]);
    } else if needs_sep(buf) {
        assert(j[l] == BACKSLASH);
    }
    assert forall|i: int| 0 <= i < l implies (#[trigger] is_sep(j[i]) <==> is_sep(buf[i])) by {
        assert(j[i] == buf[i]);
    }
    assert forall|i: int| 0 <= i < l && !is_sep(buf[i]) && i != 0 implies #[trigger] j[i] == buf[i] by {
        assert(j[i] == buf[i]);
    }
    if sep_at_l {
        lemma_prefix_kept(buf, j);
        if rooted {
            assert(win_tail(j) =~= path);
            assert(j =~= buf.subrange(0, l) + path);
        } else {
            if win_prefix(buf) == Some(PrefixCharacteristic::Disk) {
                assert(win_tail(j)[0] == j[2]);
            }
        }
        assert(canonical_prefix(j) =~= buf.subrange(0, l)) by {
            match win_prefix(buf) {
                Some(PrefixCharacteristic::Disk) => {
                    assert(j[0] == buf[0]);
                    assert(j[1] == buf[1]);
                },
                _ => {},
            }
        }
    } else {
        // A device namespace with an empty name and nothing after it: the
        // joined path is still a device namespace.
        assert(buf.len() == l);
        assert(!needs_sep(buf));
        assert(is_device(buf)) by {
            if is_unc(buf) {
                lemma_first_sep_before(buf, first_sep_from(buf, 2) + 1);
                assert(!is_sep(buf[l - 1]));
            }
        }
        assert(is_device(j)) by {
            assert(j[0] == buf[0] && j[1] == buf[1] && j[2] == buf[2] && j[3] == buf[3]);
        }
    }
}

// ---------------------------------------------------------------------------
// Pushing onto a verbatim path
// ---------------------------------------------------------------------------

/// A separator: `\` alone where only it counts, as in a verbatim path;
/// `\` or `/` otherwise.
pub open spec fn is_sep_of(b: u8, bs_only: bool) -> bool {
    b == BACKSLASH || (!bs_only && b == SLASH)
}

/// The pieces of `p` between separators, in order.
pub open spec fn split_by(p: Seq<u8>, bs_only: bool) -> Seq<Seq<u8>>
    decreases p.len(),
{
    if p.len() == 0 {
        seq![Seq::empty()]
    } else {
        let rest = split_by(p.drop_last(), bs_only);
        if is_sep_of(p.last(), bs_only) {
            rest.push(Seq::empty())
        } else {
            rest.update(rest.len() - 1, rest.last().push(p.last()))
        }
    }
}

/// One more piece for the components of a verbatim path: an empty piece is
/// skipped; when resolving a pushed path, `.` is skipped too and `..`
/// removes the last component if it is a name, and is dropped otherwise.
pub open spec fn vstep(comps: Seq<Seq<u8>>, c: Seq<u8>, resolving: bool) -> Seq<Seq<u8>> {
    if c.len() == 0 || (resolving && c == dot()) {
        comps
    } else if resolving && c == dot_dot() {
        if comps.len() > 0 && comps.last() != dot() && comps.last() != dot_dot() {
            comps.drop_last()
        } else {
            comps
        }
    } else {
        comps.push(c)
    }
}

/// The components after taking the pieces `ks` in turn.
pub open spec fn vfold(comps: Seq<Seq<u8>>, ks: Seq<Seq<u8>>, resolving: bool) -> Seq<Seq<u8>>
    decreases ks.len(),
{
    if ks.len() == 0 {
        comps
    } else {
        vstep(vfold(comps, ks.drop_last(), resolving), ks.last(), resolving)
    }
}

/// The index of the first `\` at or after `i`, or the length.
pub open spec fn first_bs_from(p: Seq<u8>, i: int) -> int
    decreases p.len() - i,
{
    if i >= p.len() {
        p.len() as int
    } else if i < 0 {
        first_bs_from(p, 0)
    } else if p[i] == BACKSLASH {
        i
    } else {
        first_bs_from(p, i + 1)
    }
}

/// The length of the prefix of a verbatim path as the standard library
/// parses it on Windows: `\\?\UNC\server\share`, a drive exactly as in
/// `\\?\C:`, or `\\?\name`.
pub open spec fn verbatim_prefix_len(p: Seq<u8>) -> int {
    if p.len() >= 8 && p[4] == 85 && p[5] == 78 && p[6] == 67 && is_sep(p[7]) {
        let server_end = first_bs_from(p, 8);
        if server_end < p.len() && first_bs_from(p, server_end + 1) > server_end + 1 {
            first_bs_from(p, server_end + 1)
        } else {
            server_end
        }
    } else if p.len() >= 6 && is_letter(p[4]) && p[5] == COLON && (p.len() == 6 || p[6]
        == BACKSLASH) {
        6
    } else {
        first_bs_from(p, 4)
    }
}

/// What `PathBuf::push` makes of the verbatim `buf` and `path` on Windows: a
/// path with a prefix replaces `buf`; an empty path adds a `\` unless `buf`
/// ends with a separator; otherwise the components of `buf` after its
/// prefix and root (only `\` separates them) are rebuilt with those of
/// `path`, a root in `path` dropping them all, and joined by `\` after the
/// prefix and the root.
pub open spec fn win_verbatim_joined(buf: Seq<u8>, path: Seq<u8>) -> Seq<u8> {
    if win_has_prefix(path) {
        path
    } else if path.len() == 0 {
        if buf.len() > 0 && !is_sep(buf.last()) {
            buf.push(BACKSLASH)
        } else {
            buf
        }
    } else {
        let l = verbatim_prefix_len(buf);
        let rooted = 0 <= l < buf.len() && is_sep(buf[l]);
        let body = buf.subrange(if rooted {
            l + 1
        } else {
            l
        }, buf.len() as int);
        let own = vfold(Seq::empty(), split_by(body, true), false);
        let prooted = is_sep(path[0]);
        let start = if prooted {
            Seq::empty()
        } else {
            own
        };
        let comps = vfold(start, split_by(path, false), true);
        buf.subrange(0, l) + (if rooted || prooted || comps.len() > 0 {
            seq![BACKSLASH]
        } else {
            Seq::empty()
        }) + join_bs(comps)
    }
}

pub proof fn lemma_split_by_step(p: Seq<u8>, b: u8, bs_only: bool)
    ensures
        split_by(p.push(b), bs_only) == if is_sep_of(b, bs_only) {
            split_by(p, bs_only).push(Seq::empty())
        } else {
            split_by(p, bs_only).update(
                split_by(p, bs_only).len() - 1,
                split_by(p, bs_only).last().push(b),
            )
        },
{
    assert(p.push(b).drop_last() =~= p);
}

pub proof fn lemma_split_by_len(p: Seq<u8>, bs_only: bool)
    ensures
        split_by(p, bs_only).len() >= 1,
    decreases p.len(),
{
    if p.len() > 0 {
        lemma_split_by_len(p.drop_last(), bs_only);
    }
}

pub proof fn lemma_vfold_step(comps: Seq<Seq<u8>>, ks: Seq<Seq<u8>>, c: Seq<u8>, resolving: bool)
    ensures
        vfold(comps, ks.push(c), resolving) == vstep(vfold(comps, ks, resolving), c, resolving),
{
    assert(ks.push(c).drop_last() =~= ks);
}

/// Splitting pieces joined by `\` gives them back, with `\` between them.
pub proof fn lemma_wsplit_join_bs(ks: Seq<Seq<u8>>)
    requires
        ks.len() >= 1,
        forall|i: int| 0 <= i < ks.len() ==> #[trigger] win_sep_free(ks[i]),
    ensures
        wsplit(join_bs(ks)) == ks,
        forall|i: int| 0 <= i < seps(join_bs(ks)).len() ==> #[trigger] seps(join_bs(ks))[i]
            == BACKSLASH,
    decreases ks.len(),
{
    if ks.len() == 1 {
        lemma_wsplit_sep_free(ks[0]);
        assert(wsplit(ks[0]) =~= ks);
    } else {
        let init = ks.drop_last();
        let c = ks.last();
        assert forall|i: int| 0 <= i < init.len() implies #[trigger] win_sep_free(init[i]) by {
            assert(init[i] == ks[i]);
        }
        assert(win_sep_free(ks[ks.len() - 1]));
        lemma_wsplit_join_bs(init);
        lemma_wsplit_concat(join_bs(init), BACKSLASH, c);
        lemma_wsplit_sep_free(c);
        assert(init + seq![c] =~= ks);
        let ss = seps(join_bs(init));
        assert forall|i: int| 0 <= i < seps(join_bs(ks)).len() implies #[trigger] seps(join_bs(ks))[i]
            == BACKSLASH by {
            assert(seps(join_bs(ks)) == ss + seq![BACKSLASH] + Seq::<u8>::empty());
            if i < ss.len() {
                assert(seps(join_bs(ks))[i] == ss[i]);
            }
        }
    }
}

/// A scan over plain names separated by `\` finds nothing.
pub proof fn lemma_names_no_issues(cs: Seq<Seq<u8>>, ss: Seq<u8>, k: int)
    requires
        0 <= k <= cs.len(),
        forall|i: int| 0 <= i < cs.len() ==> #[trigger] is_normal_component(cs[i]),
        forall|i: int| 0 <= i < ss.len() ==> #[trigger] ss[i] == BACKSLASH,
    ensures
        issues_upto(cs, ss, 0, k) == Seq::<Error>::empty(),
        depth_upto(cs, 0, k) == k,
    decreases k,
{
    if k > 0 {
        lemma_names_no_issues(cs, ss, k - 1);
        assert(is_normal_component(cs[k - 1]));
        if k - 1 < ss.len() {
            assert(ss[k - 1] == BACKSLASH);
        }
        assert(issues_upto(cs, ss, 0, k) =~= Seq::<Error>::empty());
    }
}

/// What normalization yields without error is a path that validation
/// accepts.
pub proof fn lemma_win_canonical_valid(p: Seq<u8>)
    requires
        p.len() <= usize::MAX,
        win_canonical(p).len() <= usize::MAX,
        win_normalize_error(p) is None,
    ensures
        win_validate_result(win_canonical(p)) is Ok,
{
    let c = win_canonical(p);
    if !is_verbatim(p) && !is_verbatim(c) {
        lemma_prefix_bounds(p);
        let t = win_tail(p);
        let u = after_root(t);
        let cs = wsplit(u);
        let st = resolve(cs).1;
        let ks = dot_dots(resolve(cs).0) + st;
        let body = join_bs(ks);
        lemma_wsplit_shape(u);
        lemma_parts_shape(cs);
        lemma_resolve_shape(cs);
        assert(dot_dots(0) =~= Seq::<Seq<u8>>::empty());
        assert(ks =~= st);
        let l = prefix_len(win_prefix(p));
        let rest = c.subrange(l, c.len() as int);
        match win_prefix(p) {
            Some(PrefixCharacteristic::Disk) => {
                assert(c[0] == upper(p[0]));
                assert(c[1] == COLON);
                assert(rest =~= seq![BACKSLASH] + body);
                assert(c[2] == BACKSLASH);
                lemma_prefix_kept(p, c);
            },
            Some(PrefixCharacteristic::Namespace(len, name)) => {
                lemma_namespace_tail(p);
                if t.len() == 0 {
                    assert(u =~= Seq::<u8>::empty());
                    assert(cs =~= seq![Seq::<u8>::empty()]);
                    assert(cs =~= Seq::<Seq<u8>>::empty().push(Seq::<u8>::empty()));
                    lemma_resolve_step(Seq::empty(), Seq::<u8>::empty());
                    assert(ks =~= Seq::<Seq<u8>>::empty());
                }
                if is_device(p) {
                    assert(is_sep(p[2 + name]));
                } else {
                    lemma_first_sep_bounds(p, 2);
                    assert(is_sep(p[2 + name]));
                }
                if body.len() > 0 {
                    assert(rest =~= seq![BACKSLASH] + body);
                } else {
                    assert(rest =~= Seq::<u8>::empty());
                }
                assert forall|i: int| 0 <= i < len implies (#[trigger] is_sep(c[i]) <==> is_sep(p[i])) by {
                    assert(c[i] == canonical_prefix(p)[i]);
                }
                assert forall|i: int| 0 <= i < len && !is_sep(p[i]) && i != 0 implies #[trigger] c[i]
                    == p[i] by {
                    assert(c[i] == canonical_prefix(p)[i]);
                }
                lemma_prefix_kept(p, c);
            },
            None => {},
        }
        assert(win_tail(c) == rest);
        if body.len() > 0 {
            lemma_join_bs_first(ks);
            lemma_wsplit_join_bs(ks);
            assert(after_root(rest) =~= body);
            lemma_names_no_issues(st, seps(body), st.len() as int);
            assert(rest.len() >= 2);
            assert(scanned_tail(c) == rest);
            assert(win_path_issues(c) =~= Seq::<Error>::empty());
        } else {
            assert(ks.len() == 0) by {
                if ks.len() > 0 {
                    lemma_join_bs_first(ks);
                }
            }
        }
    }
}

/// The length of the prefix of `p`, verbatim or not; zero without one.
pub open spec fn any_prefix_len(p: Seq<u8>) -> int {
    if is_verbatim(p) {
        verbatim_prefix_len(p)
    } else {
        prefix_len(win_prefix(p))
    }
}

/// The kinds of prefix of a Windows path.
#[derive(Clone, Copy, PartialEq, Eq, Debug, Structural)]
pub enum PrefixKind {
    /// `\\?\` followed by anything else.
    Verbatim,
    /// `\\?\UNC\server\share`.
    VerbatimUnc,
    /// `\\?\C:`.
    VerbatimDisk,
    /// A device namespace `\\.\name`.
    DeviceNs,
    /// A UNC share `\\server\share`.
    Unc,
    /// A drive `C:`.
    Disk,
}

/// The kind of prefix that `p` starts with, if any.
pub open spec fn prefix_kind(p: Seq<u8>) -> Option<PrefixKind> {
    if is_verbatim(p) {
        if p.len() >= 8 && p[4] == 85 && p[5] == 78 && p[6] == 67 && is_sep(p[7]) {
            Some(PrefixKind::VerbatimUnc)
        } else if p.len() >= 6 && is_letter(p[4]) && p[5] == COLON && (p.len() == 6 || p[6]
            == BACKSLASH) {
            Some(PrefixKind::VerbatimDisk)
        } else {
            Some(PrefixKind::Verbatim)
        }
    } else if is_device(p) {
        Some(PrefixKind::DeviceNs)
    } else if is_unc(p) {
        Some(PrefixKind::Unc)
    } else if is_disk(p) {
        Some(PrefixKind::Disk)
    } else {
        None
    }
}

/// The components of `p` after its prefix and its root: the pieces between
/// separators (only `\` in a verbatim path), none when nothing follows the
/// root.
pub open spec fn win_components(p: Seq<u8>) -> Seq<Seq<u8>> {
    let bs_only = is_verbatim(p);
    let t = p.subrange(any_prefix_len(p), p.len() as int);
    let u = if t.len() > 0 && is_sep_of(t[0], bs_only) {
        t.drop_first()
    } else {
        t
    };
    if u.len() == 0 {
        Seq::empty()
    } else {
        split_by(u, bs_only)
    }
}

} // verus!
