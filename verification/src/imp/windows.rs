//! Validation and normalization of Windows paths.
use vstd::prelude::*;

use super::unix_model::{
    dot, dot_dot, is_kept, is_normal_component, lemma_dot_facts, lemma_subrange_cut, DOT, SLASH,
};
use super::windows_model::{
    after_root, any_prefix_len, canonical_prefix, depth_upto, dot_dots, first_bs_from,
    first_sep_from, is_device, is_disk, is_letter, is_sep, is_sep_of, is_unc, is_verbatim,
    issues_upto, join_bs, lemma_dot_dots_push, lemma_issues_upto_ext, lemma_issues_upto_last,
    lemma_issues_upto_split, lemma_joined_prefix, lemma_pop_position, lemma_prefix_bounds,
    lemma_resolve_shape, lemma_resolve_step, lemma_split_by_len, lemma_split_by_step,
    lemma_trail_concat, lemma_trail_dot_dots_len, lemma_trail_last, lemma_trail_step,
    lemma_vfold_step, lemma_win_canonical_not_phony, lemma_win_parent_agrees,
    lemma_win_valid_is_canonical, lemma_wsplit_concat, lemma_wsplit_shape, lemma_wsplit_step,
    prefix_error, prefix_kind, prefix_len, resolve, scanned_tail, searcher_issues, seps, split_by,
    tail_issues, trail, upper, verbatim_prefix_len, vfold, vstep, win_absolute, win_canonical,
    win_components, win_has_prefix, win_has_root, win_is_phony_root, win_joined,
    win_normalize_error, win_path_issues, win_prefix, win_sep_free, win_strip_result, win_tail,
    win_validate_canonical_result, win_validate_fully_result, win_validate_parentless_result,
    win_validate_result, win_verbatim_joined, wsplit, BACKSLASH, COLON, PrefixCharacteristic,
    PrefixKind, QUESTION,
};
use crate::trivial::{ConvertError as Ec, Error as E};
use std::borrow::Cow;
use vstd::slice::slice_to_vec;

verus! {

/// Whether the byte is a separator, `\` or `/`.
fn is_sep_byte(b: u8) -> (res: bool)
    ensures
        res == is_sep(b),
{
    b == SLASH || b == BACKSLASH
}

/// The index of the first separator at or after `i`, or the length.
fn find_sep(p: &[u8], i: usize) -> (res: usize)
    requires
        i <= p@.len(),
    ensures
        res == first_sep_from(p@, i as int),
        i <= res <= p@.len(),
{
    let mut k = i;
    while k < p.len() && !is_sep_byte(p[k])
        invariant
            i <= k <= p@.len(),
            first_sep_from(p@, i as int) == first_sep_from(p@, k as int),
        decreases p@.len() - k,
    {
        k = k + 1;
    }
    k
}

/// Whether `path` is verbatim, starting with `\\?\`.
fn is_verbatim_path(path: &[u8]) -> (res: bool)
    ensures
        res == is_verbatim(path@),
{
    path.len() >= 4 && path[0] == BACKSLASH && path[1] == BACKSLASH && path[2] == QUESTION
        && path[3] == BACKSLASH
}

/// The prefix of a path that is not verbatim, as the standard library
/// parses it on Windows.
fn prefix_of(path: &[u8]) -> (res: Option<PrefixCharacteristic>)
    requires
        !is_verbatim(path@),
    ensures
        res == win_prefix(path@),
        match res {
            Some(PrefixCharacteristic::Namespace(len, name)) => 4 <= len + 1 && 2 + name < len
                <= path@.len() && name >= 1,
            _ => true,
        },
{
    let n = path.len();
    if n >= 4 && is_sep_byte(path[0]) && is_sep_byte(path[1]) && path[2] == DOT && is_sep_byte(
        path[3],
    ) {
        let end = find_sep(path, 4);
        return Some(PrefixCharacteristic::Namespace(end, 1));
    }
    if n >= 2 && is_sep_byte(path[0]) && is_sep_byte(path[1]) {
        let k = find_sep(path, 2);
        if k > 2 && k < n {
            let m = find_sep(path, k + 1);
            if m > k + 1 {
                return Some(PrefixCharacteristic::Namespace(m, k - 2));
            }
        }
        return None;
    }
    if n >= 2 && ((65 <= path[0] && path[0] <= 90) || (97 <= path[0] && path[0] <= 122))
        && path[1] == COLON {
        Some(PrefixCharacteristic::Disk)
    } else {
        None
    }
}

/// What the scanner has seen since the start of the current component.
enum Seen {
    /// Nothing at all: the scan starts at a separator or at the end.
    Empty,
    /// Something that makes the component a plain name.
    Plain,
    /// Nothing yet after a separator: the component is still empty.
    Slash,
    /// A single `.`.
    SlashDot,
    /// Exactly `..`.
    SlashDotDot,
}

/// The scanner state that corresponds to a partial component.
spec fn seen_of(seg: Seq<u8>) -> Seen {
    if seg.len() == 0 {
        Seen::Slash
    } else if seg == dot() {
        Seen::SlashDot
    } else if seg == dot_dot() {
        Seen::SlashDotDot
    } else {
        Seen::Plain
    }
}

proof fn lemma_seen_step(cur: Seq<u8>, b: u8)
    requires
        !is_sep(b),
    ensures
        seen_of(cur.push(b)) == if b == DOT {
            match seen_of(cur) {
                Seen::Slash => Seen::SlashDot,
                Seen::SlashDot => Seen::SlashDotDot,
                _ => Seen::Plain,
            }
        } else {
            Seen::Plain
        },
{
    let c = cur.push(b);
    assert(c.len() == cur.len() + 1);
    assert(c[c.len() - 1] == b);
    if cur.len() == 0 {
        assert(c =~= seq![b]);
        if b == DOT {
            assert(c =~= dot());
        } else {
            assert(c[0] != dot()[0]);
        }
    } else if cur == dot() {
        if b == DOT {
            assert(c =~= dot_dot());
        } else {
            assert(c[1] != dot_dot()[1]);
        }
    } else if cur == dot_dot() {
        assert(c.len() == 3);
    } else {
        if c == dot_dot() {
            assert(cur =~= dot());
        }
    }
}

proof fn lemma_seen_kind(cur: Seq<u8>)
    ensures
        seen_of(cur) == Seen::Plain <==> is_normal_component(cur),
        seen_of(cur) == Seen::Slash || seen_of(cur) == Seen::SlashDot <==> !is_kept(cur),
        seen_of(cur) == Seen::SlashDotDot <==> cur == dot_dot(),
{
    lemma_dot_facts();
}

/// A resumable scan for the issues of the part of a path after its prefix.
struct Searcher<'a> {
    haystack: &'a [u8],
    pos: usize,
    level: usize,
    err_slash: bool,
}

impl<'a> Searcher<'a> {
    spec fn wf(&self) -> bool {
        self.pos <= self.haystack@.len() && self.level <= self.pos
    }

    /// The issues that the scan has yet to report.
    spec fn pending(&self) -> Seq<E> {
        (if self.err_slash {
            seq![E::NotCanonical]
        } else {
            Seq::empty()
        }) + tail_issues(
            self.haystack@.subrange(self.pos as int, self.haystack@.len() as int),
            self.level as nat,
        )
    }

    /// A measure of the work left.
    spec fn measure(&self) -> int {
        2 * (self.haystack@.len() - self.pos) + if self.err_slash {
            1int
        } else {
            0
        }
    }

    /// A scan of `value`, the part of a path after its prefix; fails at once
    /// on a lone `.`.
    fn new(value: &'a [u8]) -> (res: Result<Self, E>)
        ensures
            match res {
                Ok(s) => s.wf() && s.haystack@ == value@ && s.pending() == searcher_issues(
                    value@,
                ),
                Err(e) => e == E::NotCanonical && searcher_issues(value@) == seq![E::NotCanonical],
            },
            res is Err <==> value@ == dot(),
    {
        if value.len() <= 1 {
            if value.len() == 1 && value[0] == DOT {
                proof {
                    assert(value@ =~= dot());
                }
                Err(E::NotCanonical)
            } else {
                let s = Searcher {
                    haystack: value,
                    pos: value.len(),
                    level: 0,
                    err_slash: value.len() == 1 && value[0] == SLASH,
                };
                proof {
                    let r = value@.subrange(value.len() as int, value.len() as int);
                    assert(r =~= Seq::<u8>::empty());
                    if value.len() == 1 {
                        assert(value@ != dot());
                        if value[0] == SLASH {
                            assert(value@ =~= seq![SLASH]);
                        } else {
                            assert(value@ != seq![SLASH]);
                        }
                    } else {
                        assert(value@ != seq![SLASH]);
                        assert(value@ != dot());
                    }
                    assert(s.pending() =~= searcher_issues(value@));
                }
                Ok(s)
            }
        } else {
            let s = Searcher { haystack: value, pos: 0, level: 0, err_slash: value[0] == SLASH };
            proof {
                assert(value@.subrange(0, value.len() as int) =~= value@);
            }
            Ok(s)
        }
    }
}

/// Finds the next issue of the scanned part.
///
/// On an issue, the scan stops at the end of the offending component, so
/// that the next call resumes right after it.
fn search_next(s: &mut Searcher) -> (res: Option<E>)
    requires
        old(s).wf(),
    ensures
        final(s).wf(),
        final(s).haystack@ == old(s).haystack@,
        match res {
            None => old(s).pending() == Seq::<E>::empty() && final(s).pending() == Seq::<E>::empty(),
            Some(e) => old(s).pending() == seq![e] + final(s).pending() && final(s).measure()
                < old(s).measure(),
        },
{
    if s.err_slash {
        s.err_slash = false;
        return Some(E::NotCanonical);
    }
    let ghost hay = s.haystack@;
    let ghost start = s.pos as int;
    let ghost level0 = s.level as nat;
    let n = s.haystack.len();
    let mut byte: Option<u8> = if s.pos < n {
        Some(s.haystack[s.pos])
    } else {
        None
    };
    let mut seen = match byte {
        None => Seen::Empty,
        Some(b) => if is_sep_byte(b) {
            Seen::Empty
        } else {
            Seen::Slash
        },
    };
    let ghost t0: int = if start < n && is_sep(hay[start]) {
        start + 1
    } else {
        start
    };
    proof {
        if start < n {
            let r = hay.subrange(start, n as int);
            assert(after_root(r) =~= hay.subrange(t0, n as int));
        }
    }
    loop
        invariant
            s.haystack@ == hay,
            hay == old(s).haystack@,
            start == old(s).pos,
            level0 == old(s).level,
            !old(s).err_slash,
            !s.err_slash,
            n == hay.len(),
            0 <= start <= s.pos <= n,
            s.level <= s.pos,
            seen == Seen::Plain ==> s.level < s.pos,
            byte == if s.pos < n {
                Some(hay[s.pos as int])
            } else {
                None::<u8>
            },
            t0 == if start < n && is_sep(hay[start]) {
                start + 1
            } else {
                start
            },
            start < n ==> after_root(hay.subrange(start, n as int)) == hay.subrange(t0, n as int),
            (start == n && seen == Seen::Empty && s.level == level0) || (s.pos == start && start
                < n && is_sep(hay[start]) && seen == Seen::Empty && s.level == level0) || (start
                < n && t0 <= s.pos && seen == seen_of(wsplit(hay.subrange(t0, s.pos as int)).last())
                && issues_upto(
                wsplit(hay.subrange(t0, s.pos as int)),
                seps(hay.subrange(t0, s.pos as int)),
                level0,
                wsplit(hay.subrange(t0, s.pos as int)).len() - 1,
            ) == Seq::<E>::empty() && s.level == depth_upto(
                wsplit(hay.subrange(t0, s.pos as int)),
                level0,
                wsplit(hay.subrange(t0, s.pos as int)).len() - 1,
            )),
        decreases n - s.pos,
    {
        let ghost u = hay.subrange(t0, s.pos as int);
        let ghost cs = wsplit(u);
        let ghost ss = seps(u);
        let ghost cur = cs.last();
        let ghost k = cs.len() - 1;
        proof {
            lemma_wsplit_shape(u);
        }
        if byte.is_none() {
            proof {
                if start < n {
                    assert(hay.subrange(t0, n as int) =~= u);
                    lemma_issues_upto_last(cs, ss, SLASH, level0);
                    lemma_seen_kind(cur);
                    lemma_dot_facts();
                    let r = hay.subrange(n as int, n as int);
                    assert(r =~= Seq::<u8>::empty());
                } else {
                    assert(hay.subrange(start, n as int) =~= Seq::<u8>::empty());
                }
            }
            match seen {
                Seen::Slash | Seen::SlashDot => {
                    return Some(E::NotCanonical);
                },
                Seen::SlashDotDot => {
                    if s.level > 0 {
                        s.level = s.level - 1;
                        return Some(E::NotCanonical);
                    } else {
                        return Some(E::ContainsParent);
                    }
                },
                _ => {
                    return None;
                },
            }
        }
        let b = byte.unwrap();
        if is_sep_byte(b) {
            match seen {
                Seen::Empty => {
                    seen = Seen::Slash;
                },
                Seen::Plain => {
                    s.level = s.level + 1;
                    if b == SLASH {
                        proof {
                            let y = hay.subrange(s.pos + 1, n as int);
                            lemma_subrange_cut(hay, t0, s.pos as int, n as int);
                            lemma_wsplit_concat(u, b, y);
                            lemma_wsplit_shape(y);
                            lemma_issues_upto_split(cs, ss, b, wsplit(y), seps(y), level0, wsplit(y).len() as int);
                            lemma_issues_upto_last(cs, ss, b, level0);
                            lemma_seen_kind(cur);
                            let nr = hay.subrange(s.pos as int, n as int);
                            assert(after_root(nr) =~= y);
                        }
                        return Some(E::NotCanonical);
                    }
                    seen = Seen::Slash;
                },
                _ => {
                    proof {
                        let y = hay.subrange(s.pos + 1, n as int);
                        lemma_subrange_cut(hay, t0, s.pos as int, n as int);
                        lemma_wsplit_concat(u, b, y);
                        lemma_wsplit_shape(y);
                        lemma_issues_upto_split(cs, ss, b, wsplit(y), seps(y), level0, wsplit(y).len() as int);
                        lemma_issues_upto_last(cs, ss, b, level0);
                        lemma_seen_kind(cur);
                        lemma_dot_facts();
                        let nr = hay.subrange(s.pos as int, n as int);
                        assert(after_root(nr) =~= y);
                    }
                    if let Seen::SlashDotDot = seen {
                        if s.level > 0 {
                            s.level = s.level - 1;
                            return Some(E::NotCanonical);
                        } else {
                            s.err_slash = b == SLASH;
                            return Some(E::ContainsParent);
                        }
                    } else {
                        return Some(E::NotCanonical);
                    }
                },
            }
        } else if b == DOT {
            seen = match seen {
                Seen::Slash => Seen::SlashDot,
                Seen::SlashDot => Seen::SlashDotDot,
                _ => Seen::Plain,
            };
        } else {
            seen = Seen::Plain;
        }
        proof {
            if s.pos == start && start < n && is_sep(hay[start]) && t0 == start + 1 {
                let e = hay.subrange(t0, t0);
                assert(e =~= Seq::<u8>::empty());
                assert(wsplit(e) =~= seq![Seq::<u8>::empty()]);
                assert(seps(e) =~= Seq::<u8>::empty());
            } else {
                let u2 = hay.subrange(t0, s.pos + 1);
                lemma_subrange_cut(hay, t0, s.pos as int, n as int);
                assert(u2 == u.push(b));
                lemma_wsplit_step(u, b);
                if is_sep(b) {
                    lemma_seen_kind(cur);
                    assert(wsplit(u2).len() - 1 == cs.len());
                    assert(wsplit(u2) =~= cs.push(Seq::<u8>::empty()));
                    lemma_issues_upto_ext(wsplit(u2), seps(u2), cs, ss.push(b), level0, cs.len() as int);
                    assert(ss.push(b) =~= ss + seq![b]);
                    lemma_issues_upto_last(cs, ss, b, level0);
                } else {
                    lemma_seen_step(cur, b);
                    lemma_issues_upto_ext(wsplit(u2), seps(u2), cs, ss, level0, k);
                }
            }
        }
        s.pos = s.pos + 1;
        byte = if s.pos < n {
            Some(s.haystack[s.pos])
        } else {
            None
        };
    }
}

/// Checks a namespace prefix (`\\.\name` or `\\server\share`): a lone
/// separator after it is not canonical, nor is a `/` among its separators.
fn check_namespace_prefix<'a>(path: &'a [u8], name: usize, tail: &'a [u8]) -> (res: (
    &'a [u8],
    Option<E>,
))
    requires
        2 + name < path@.len(),
    ensures
        res.0@ == if tail@.len() == 1 {
            Seq::<u8>::empty()
        } else {
            tail@
        },
        res.1 == if tail@.len() == 1 || path@[0] != BACKSLASH || path@[1] != BACKSLASH || path@[2
            + name] != BACKSLASH {
            Some(E::NotCanonical)
        } else {
            None
        },
{
    let is_phony_root = tail.len() == 1;
    if is_phony_root {
        (&path[0..0], Some(E::NotCanonical))
    } else if path[0] != BACKSLASH || path[1] != BACKSLASH || path[2 + name] != BACKSLASH {
        (tail, Some(E::NotCanonical))
    } else {
        (tail, None)
    }
}

/// Checks the prefix of `path`: nothing to check for a verbatim path;
/// otherwise the part to scan after the prefix and the fault of the prefix.
fn check_prefix<'a>(path: &'a [u8]) -> (res: Option<(&'a [u8], Option<E>)>)
    ensures
        match res {
            None => is_verbatim(path@),
            Some((t, e)) => !is_verbatim(path@) && t@ == scanned_tail(path@) && e == prefix_error(
                path@,
            ),
        },
{
    if is_verbatim_path(path) {
        return None;
    }
    let n = path.len();
    match prefix_of(path) {
        None => {
            assert(path@.subrange(0, n as int) =~= path@);
            Some((path, Some(E::NotAbsolute)))
        },
        Some(PrefixCharacteristic::Disk) => {
            let tail = &path[2..n];
            if 97 <= path[0] && path[0] <= 122 {
                Some((tail, Some(E::NotCanonical)))
            } else {
                Some((tail, None))
            }
        },
        Some(PrefixCharacteristic::Namespace(len, name)) => {
            let tail = &path[len..n];
            Some(check_namespace_prefix(path, name, tail))
        },
    }
}

/// Whether `path`, which is not verbatim, is absolute: it has a prefix and
/// a root.
fn is_absolute(path: &[u8]) -> (res: bool)
    requires
        !is_verbatim(path@),
    ensures
        res == win_absolute(path@),
{
    match prefix_of(path) {
        None => false,
        Some(PrefixCharacteristic::Disk) => path.len() > 2 && is_sep_byte(path[2]),
        Some(PrefixCharacteristic::Namespace(_, _)) => true,
    }
}

/// Fails with the first fault of `path`, if any.
fn check_path_quick(path: &[u8]) -> (res: Result<(), E>)
    ensures
        res == if is_verbatim(path@) {
            Ok(())
        } else if prefix_error(path@) is Some {
            Err(prefix_error(path@)->0)
        } else if win_path_issues(path@).len() > 0 {
            Err(win_path_issues(path@)[0])
        } else {
            Ok(())
        },
{
    let tail = match check_prefix(path) {
        None => return Ok(()),
        Some((_, Some(err))) => return Err(err),
        Some((tail, None)) => tail,
    };
    let mut s = match Searcher::new(tail) {
        Ok(s) => s,
        Err(e) => return Err(e),
    };
    match search_next(&mut s) {
        Some(err) => Err(err),
        None => Ok(()),
    }
}

/// Checks all of `path`, preferring a `..` that escapes the base over
/// non-canonicality.
fn check_path_parentless(path: &[u8]) -> (res: Result<(), E>)
    ensures
        res == if is_verbatim(path@) {
            Ok::<(), E>(())
        } else if win_path_issues(path@).contains(E::ContainsParent) {
            Err(E::ContainsParent)
        } else if prefix_error(path@) == Some(E::NotCanonical) || win_path_issues(path@).contains(
            E::NotCanonical,
        ) {
            Err(E::NotCanonical)
        } else {
            Ok(())
        },
{
    let (tail, err) = match check_prefix(path) {
        None => return Ok(()),
        Some(pair) => pair,
    };
    let mut not_canonical = match err {
        Some(E::NotCanonical) => true,
        _ => false,
    };
    let mut s = match Searcher::new(tail) {
        Ok(s) => s,
        Err(e) => {
            proof {
                assert(win_path_issues(path@)[0] == E::NotCanonical);
                if win_path_issues(path@).contains(E::ContainsParent) {
                    let k = choose|k: int| 0 <= k < win_path_issues(path@).len() && win_path_issues(path@)[k] == E::ContainsParent;
                    assert(k == 0);
                }
            }
            return Err(e);
        },
    };
    let ghost mut found: Seq<E> = Seq::empty();
    let ghost base = err == Some(E::NotCanonical);
    proof {
        assert(win_path_issues(path@) =~= found + s.pending());
    }
    loop
        invariant
            s.wf(),
            s.haystack@ == tail@,
            tail@ == scanned_tail(path@),
            win_path_issues(path@) == found + s.pending(),
            not_canonical == (base || found.contains(E::NotCanonical)),
            base == (prefix_error(path@) == Some(E::NotCanonical)),
            !found.contains(E::ContainsParent),
            !is_verbatim(path@),
        ensures
            win_path_issues(path@) == found,
            not_canonical == (base || found.contains(E::NotCanonical)),
            !found.contains(E::ContainsParent),
        decreases s.measure(),
    {
        match search_next(&mut s) {
            None => {
                assert(win_path_issues(path@) =~= found);
                break ;
            },
            Some(e) => {
                let ghost prev = found;
                proof {
                    found = found.push(e);
                    assert(win_path_issues(path@) =~= found + s.pending());
                    assert(win_path_issues(path@)[prev.len() as int] == e);
                }
                match e {
                    E::ContainsParent => {
                        return Err(E::ContainsParent);
                    },
                    _ => {
                        if let E::NotCanonical = e {
                            not_canonical = true;
                        }
                    },
                }
                proof {
                    if prev.contains(E::NotCanonical) {
                        let k = choose|k: int| 0 <= k < prev.len() && prev[k] == E::NotCanonical;
                        assert(found[k] == E::NotCanonical);
                    }
                    if found.contains(E::NotCanonical) && e != E::NotCanonical {
                        let k = choose|k: int| 0 <= k < found.len() && found[k] == E::NotCanonical;
                        assert(prev[k] == E::NotCanonical);
                    }
                    if e == E::NotCanonical {
                        assert(found[prev.len() as int] == E::NotCanonical);
                    }
                    if found.contains(E::ContainsParent) {
                        let k = choose|k: int| 0 <= k < found.len() && found[k] == E::ContainsParent;
                        assert(prev[k] == E::ContainsParent);
                    }
                }
            },
        }
    }
    if not_canonical {
        Err(E::NotCanonical)
    } else {
        Ok(())
    }
}

/// Checks all of `path`, preferring non-canonicality over a `..` that
/// escapes the base.
fn check_path_canonical(path: &[u8]) -> (res: Result<(), E>)
    ensures
        res == if is_verbatim(path@) {
            Ok::<(), E>(())
        } else if prefix_error(path@) == Some(E::NotCanonical) || win_path_issues(path@).contains(
            E::NotCanonical,
        ) {
            Err(E::NotCanonical)
        } else if win_path_issues(path@).contains(E::ContainsParent) {
            Err(E::ContainsParent)
        } else {
            Ok(())
        },
{
    let tail = match check_prefix(path) {
        None => return Ok(()),
        Some((_, Some(E::NotCanonical))) => return Err(E::NotCanonical),
        Some((tail, _)) => tail,
    };
    let mut s = match Searcher::new(tail) {
        Ok(s) => s,
        Err(e) => {
            proof {
                assert(win_path_issues(path@)[0] == E::NotCanonical);
            }
            return Err(e);
        },
    };
    let mut has_parent = false;
    let ghost mut found: Seq<E> = Seq::empty();
    proof {
        assert(win_path_issues(path@) =~= found + s.pending());
    }
    loop
        invariant
            s.wf(),
            s.haystack@ == tail@,
            tail@ == scanned_tail(path@),
            win_path_issues(path@) == found + s.pending(),
            has_parent == found.contains(E::ContainsParent),
            !found.contains(E::NotCanonical),
            !is_verbatim(path@),
        ensures
            win_path_issues(path@) == found,
            has_parent == found.contains(E::ContainsParent),
            !found.contains(E::NotCanonical),
        decreases s.measure(),
    {
        match search_next(&mut s) {
            None => {
                assert(win_path_issues(path@) =~= found);
                break ;
            },
            Some(e) => {
                let ghost prev = found;
                proof {
                    found = found.push(e);
                    assert(win_path_issues(path@) =~= found + s.pending());
                    assert(win_path_issues(path@)[prev.len() as int] == e);
                }
                match e {
                    E::NotCanonical => {
                        return Err(E::NotCanonical);
                    },
                    _ => {
                        if let E::ContainsParent = e {
                            has_parent = true;
                        }
                    },
                }
                proof {
                    if prev.contains(E::ContainsParent) {
                        let k = choose|k: int| 0 <= k < prev.len() && prev[k] == E::ContainsParent;
                        assert(found[k] == E::ContainsParent);
                    }
                    if found.contains(E::ContainsParent) && e != E::ContainsParent {
                        let k = choose|k: int| 0 <= k < found.len() && found[k] == E::ContainsParent;
                        assert(prev[k] == E::ContainsParent);
                    }
                    if e == E::ContainsParent {
                        assert(found[prev.len() as int] == E::ContainsParent);
                    }
                    if found.contains(E::NotCanonical) {
                        let k = choose|k: int| 0 <= k < found.len() && found[k] == E::NotCanonical;
                        assert(prev[k] == E::NotCanonical);
                    }
                }
            },
        }
    }
    if has_parent {
        Err(E::ContainsParent)
    } else {
        Ok(())
    }
}

/// Validates that `path` is normalized, failing fast with the first error;
/// a verbatim path is always valid.
pub fn validate<'a>(path: &'a [u8]) -> (res: Result<&'a [u8], E>)
    ensures
        match res {
            Ok(p) => p@ == path@ && win_validate_result(path@) is Ok,
            Err(e) => win_validate_result(path@) == Err::<(), E>(e),
        },
{
    if is_verbatim_path(path) {
        return Ok(path);
    }
    if !is_absolute(path) {
        return Err(E::NotAbsolute);
    }
    match check_path_quick(path) {
        Err(e) => Err(e),
        Ok(()) => Ok(path),
    }
}

/// Validates that `path` is normalized, reporting non-canonicality first,
/// then a `..` that escapes the base, then a missing root.
pub fn validate_canonical<'a>(path: &'a [u8]) -> (res: Result<&'a [u8], E>)
    ensures
        match res {
            Ok(p) => p@ == path@ && win_validate_canonical_result(path@) is Ok,
            Err(e) => win_validate_canonical_result(path@) == Err::<(), E>(e),
        },
{
    if is_verbatim_path(path) {
        return Ok(path);
    }
    match check_path_canonical(path) {
        Err(e) => return Err(e),
        Ok(()) => {},
    }
    if !is_absolute(path) {
        return Err(E::NotAbsolute);
    }
    Ok(path)
}

/// Validates that `path` is normalized, reporting a `..` that escapes the
/// base first, then non-canonicality, then a missing root.
pub fn validate_parentless<'a>(path: &'a [u8]) -> (res: Result<&'a [u8], E>)
    ensures
        match res {
            Ok(p) => p@ == path@ && win_validate_parentless_result(path@) is Ok,
            Err(e) => win_validate_parentless_result(path@) == Err::<(), E>(e),
        },
{
    if is_verbatim_path(path) {
        return Ok(path);
    }
    match check_path_parentless(path) {
        Err(e) => return Err(e),
        Ok(()) => {},
    }
    if !is_absolute(path) {
        return Err(E::NotAbsolute);
    }
    Ok(path)
}

/// Makes the drive letter at the start of `path` upper case.
fn normalize_drive_letter(path: &mut Vec<u8>)
    requires
        old(path)@.len() > 0,
    ensures
        final(path)@ == old(path)@.update(0, upper(old(path)@[0])),
{
    let b = path[0];
    if 97 <= b && b <= 122 {
        path.set(0, b - 32);
    }
    assert(path@ =~= old(path)@.update(0, upper(old(path)@[0])));
}

/// Makes the separator at `at` a `\`.
fn normalize_slash(path: &mut Vec<u8>, at: usize)
    requires
        at < old(path)@.len(),
    ensures
        final(path)@ == old(path)@.update(at as int, BACKSLASH),
{
    path.set(at, BACKSLASH);
}

/// Where the last name above `bottom` starts in `path[..pos]`, which ends
/// with a separator: just after the last `\` before that separator, or at
/// the bottom. Nothing when there is no name above the bottom.
fn position_pop_slash(path: &[u8], start: usize, bottom: usize, pos: usize) -> (res: Option<usize>)
    requires
        start <= bottom <= pos <= path@.len(),
    ensures
        match res {
            None => bottom == pos,
            Some(at) => {
                let begin = if bottom != start {
                    bottom - 1
                } else {
                    start as int
                };
                &&& bottom < pos
                &&& begin <= at <= pos - 1
                &&& (at == begin || path@[at - 1] == BACKSLASH)
                &&& forall|j: int| at <= j < pos - 1 ==> path@[j] != BACKSLASH
            },
        },
{
    if bottom == pos {
        return None;
    }
    let begin = if bottom != start {
        bottom - 1
    } else {
        start
    };
    let end = pos - 1;
    let mut k = end;
    while k > begin && path[k - 1] != BACKSLASH
        invariant
            begin <= k <= end,
            end < path@.len(),
            forall|j: int| k <= j < end ==> path@[j] != BACKSLASH,
        decreases k,
    {
        k = k - 1;
    }
    Some(k)
}

/// The bytes normalization has written for a partial component: nothing
/// for an empty, `.` or `..` component until it is known to continue.
spec fn wwritten(cur: Seq<u8>) -> Seq<u8> {
    if is_normal_component(cur) {
        cur
    } else {
        Seq::empty()
    }
}

/// The root, if any.
spec fn root_bytes(rooted: bool) -> Seq<u8> {
    if rooted {
        seq![BACKSLASH]
    } else {
        Seq::empty()
    }
}

/// What normalization has written once the components `done` are complete
/// and `cur` is being read.
spec fn wnorm_out(pre: Seq<u8>, rooted: bool, done: Seq<Seq<u8>>, cur: Seq<u8>) -> Seq<u8> {
    pre + root_bytes(rooted) + trail(dot_dots(resolve(done).0)) + trail(resolve(done).1)
        + wwritten(cur)
}

/// The bytes below the bottom line: the prefix, the root and the `..`
/// components that escape the base, which end with a `\` when there are any.
proof fn lemma_pop_facts(pre: Seq<u8>, rooted: bool, d: nat, start: int, bottom: int)
    requires
        pre.len() == start,
        bottom == start + root_bytes(rooted).len() + 3 * d,
    ensures
        (pre + root_bytes(rooted) + trail(dot_dots(d))).len() == bottom,
        bottom != start ==> (pre + root_bytes(rooted) + trail(dot_dots(d)))[bottom - 1]
            == BACKSLASH,
{
    lemma_trail_dot_dots_len(d);
    lemma_trail_last(dot_dots(d));
    let base = pre + root_bytes(rooted) + trail(dot_dots(d));
    if d > 0 {
        assert(base[bottom - 1] == trail(dot_dots(d)).last());
    } else if rooted {
        assert(base[bottom - 1] == root_bytes(rooted)[0]);
    }
}

proof fn lemma_wwritten_step_empty(cur: Seq<u8>)
    ensures
        !is_normal_component(cur) ==> wwritten(cur) == Seq::<u8>::empty(),
        is_normal_component(cur) ==> wwritten(cur) == cur,
        wwritten(Seq::empty()) == Seq::<u8>::empty(),
{
    lemma_dot_facts();
}

proof fn lemma_wwritten_step(cur: Seq<u8>, b: u8)
    requires
        !is_sep(b),
    ensures
        wwritten(cur.push(b)) == match seen_of(cur) {
            Seen::Slash => if b == DOT {
                Seq::<u8>::empty()
            } else {
                seq![b]
            },
            Seen::SlashDot => if b == DOT {
                Seq::<u8>::empty()
            } else {
                seq![DOT, b]
            },
            Seen::SlashDotDot => seq![DOT, DOT, b],
            _ => wwritten(cur).push(b),
        },
{
    lemma_dot_facts();
    lemma_seen_step(cur, b);
    lemma_seen_kind(cur);
    lemma_seen_kind(cur.push(b));
    let c = cur.push(b);
    if cur.len() == 0 {
        assert(c =~= seq![b]);
    } else if cur == dot() {
        assert(c =~= seq![DOT, b]);
    } else if cur == dot_dot() {
        assert(c =~= seq![DOT, DOT, b]);
    }
}

/// Every piece is a plain name without separator.
spec fn all_names(st: Seq<Seq<u8>>) -> bool {
    forall|k: int| 0 <= k < st.len() ==> #[trigger] is_normal_component(st[k]) && win_sep_free(st[k])
}

/// Removes the last name written above the bottom line, if there is one:
/// `out` holds the prefix, the root, `d` parent components and the names
/// `st`, each followed by `\`.
fn pop_name(
    out: &mut Vec<u8>,
    start: usize,
    bottom: usize,
    Ghost(pre): Ghost<Seq<u8>>,
    Ghost(rooted): Ghost<bool>,
    Ghost(d): Ghost<nat>,
    Ghost(st): Ghost<Seq<Seq<u8>>>,
) -> (popped: bool)
    requires
        pre.len() == start,
        bottom == start + root_bytes(rooted).len() + 3 * d,
        old(out)@ == pre + root_bytes(rooted) + trail(dot_dots(d)) + trail(st),
        all_names(st),
    ensures
        popped == (st.len() > 0),
        popped ==> final(out)@ == pre + root_bytes(rooted) + trail(dot_dots(d)) + trail(
            st.drop_last(),
        ),
        !popped ==> final(out)@ == old(out)@,
{
    let ghost base = pre + root_bytes(rooted) + trail(dot_dots(d));
    proof {
        lemma_pop_facts(pre, rooted, d, start as int, bottom as int);
        lemma_trail_last(st);
        assert forall|k: int| 0 <= k < st.len() implies #[trigger] st[k].len() > 0 && win_sep_free(
            st[k],
        ) by {
            assert(is_normal_component(st[k]));
        }
    }
    match position_pop_slash(out.as_slice(), start, bottom, out.len()) {
        Some(at) => {
            proof {
                let begin: int = if bottom != start {
                    bottom - 1
                } else {
                    start as int
                };
                lemma_pop_position(base, st, begin, at as int);
            }
            out.truncate(at);
            proof {
                assert(out@ =~= base + trail(st.drop_last()));
            }
            true
        },
        None => false,
    }
}

/// A separator in the scan of `normalize_in_place`: it completes the
/// component `cur`; a `..` removes the last name or, where there is none,
/// is written out.
fn step_separator(
    out: &mut Vec<u8>,
    seen: Seen,
    bottom: usize,
    start: usize,
    Ghost(pre): Ghost<Seq<u8>>,
    Ghost(rooted): Ghost<bool>,
    Ghost(done): Ghost<Seq<Seq<u8>>>,
    Ghost(cur): Ghost<Seq<u8>>,
) -> (res: usize)
    requires
        pre.len() == start,
        old(out)@ == wnorm_out(pre, rooted, done, cur),
        seen == seen_of(cur),
        bottom == start + root_bytes(rooted).len() + 3 * resolve(done).0,
        forall|k: int| 0 <= k < done.len() ==> #[trigger] win_sep_free(done[k]),
        win_sep_free(cur),
    ensures
        final(out)@ == wnorm_out(pre, rooted, done.push(cur), Seq::empty()),
        res == start + root_bytes(rooted).len() + 3 * resolve(done.push(cur)).0,
{
    let ghost d = resolve(done).0;
    let ghost st = resolve(done).1;
    proof {
        lemma_resolve_step(done, cur);
        lemma_seen_kind(cur);
        lemma_dot_facts();
        lemma_resolve_shape(done);
        lemma_wwritten_step_empty(cur);
        assert(resolve(done.push(cur)).0 >= d);
    }
    match seen {
        Seen::Slash | Seen::SlashDot => bottom,
        Seen::SlashDotDot => {
            proof {
                assert(out@ =~= pre + root_bytes(rooted) + trail(dot_dots(d)) + trail(st));
            }
            if pop_name(out, start, bottom, Ghost(pre), Ghost(rooted), Ghost(d), Ghost(st)) {
                proof {
                    assert(out@ =~= wnorm_out(pre, rooted, done.push(cur), Seq::empty()));
                }
                bottom
            } else {
                out.push(DOT);
                out.push(DOT);
                out.push(BACKSLASH);
                proof {
                    lemma_dot_dots_push(d);
                    lemma_trail_step(dot_dots(d), dot_dot());
                    assert(st =~= Seq::<Seq<u8>>::empty());
                    assert(out@ =~= wnorm_out(pre, rooted, done.push(cur), Seq::empty()));
                    lemma_trail_dot_dots_len(d + 1);
                }
                out.len()
            }
        },
        _ => {
            out.push(BACKSLASH);
            proof {
                lemma_trail_step(st, cur);
                assert(out@ =~= wnorm_out(pre, rooted, done.push(cur), Seq::empty()));
            }
            bottom
        },
    }
}

/// A byte other than a separator in the scan of `normalize_in_place`: the
/// `.` of an empty, `.` or `..` component is held back until the component
/// is known to be a name.
fn step_byte(
    out: &mut Vec<u8>,
    seen: Seen,
    byte: u8,
    Ghost(pre): Ghost<Seq<u8>>,
    Ghost(rooted): Ghost<bool>,
    Ghost(done): Ghost<Seq<Seq<u8>>>,
    Ghost(cur): Ghost<Seq<u8>>,
) -> (res: Seen)
    requires
        !is_sep(byte),
        old(out)@ == wnorm_out(pre, rooted, done, cur),
        seen == seen_of(cur),
    ensures
        final(out)@ == wnorm_out(pre, rooted, done, cur.push(byte)),
        res == seen_of(cur.push(byte)),
{
    proof {
        lemma_seen_step(cur, byte);
        lemma_wwritten_step(cur, byte);
    }
    let next = match seen {
        Seen::Slash => {
            if byte == DOT {
                Seen::SlashDot
            } else {
                out.push(byte);
                Seen::Plain
            }
        },
        Seen::SlashDot => {
            if byte == DOT {
                Seen::SlashDotDot
            } else {
                out.push(DOT);  // compensate
                out.push(byte);
                Seen::Plain
            }
        },
        Seen::SlashDotDot => {
            out.push(DOT);
            out.push(DOT);
            out.push(byte);
            Seen::Plain
        },
        _ => {
            out.push(byte);
            Seen::Plain
        },
    };
    proof {
        assert(out@ =~= wnorm_out(pre, rooted, done, cur.push(byte)));
    }
    next
}

/// The parts of the canonical form of the components `cs`: the `..` that
/// escape the base, then the names that remain.
spec fn wparts(cs: Seq<Seq<u8>>) -> Seq<Seq<u8>> {
    dot_dots(resolve(cs).0) + resolve(cs).1
}

proof fn lemma_wparts_shape(cs: Seq<Seq<u8>>)
    requires
        forall|i: int| 0 <= i < cs.len() ==> #[trigger] win_sep_free(cs[i]),
    ensures
        forall|k: int| 0 <= k < wparts(cs).len() ==> #[trigger] wparts(cs)[k].len() > 0
            && win_sep_free(wparts(cs)[k]),
{
    let n = resolve(cs).0;
    lemma_resolve_shape(cs);
    lemma_dot_facts();
    assert forall|k: int| 0 <= k < wparts(cs).len() implies #[trigger] wparts(cs)[k].len() > 0
        && win_sep_free(wparts(cs)[k]) by {
        if k < n {
            assert(wparts(cs)[k] == dot_dot());
            assert forall|j: int| 0 <= j < dot_dot().len() implies !is_sep(#[trigger] dot_dot()[j]) by {
                assert(dot_dot()[j] == DOT);
            }
        } else {
            assert(wparts(cs)[k] == resolve(cs).1[k - n]);
            assert(is_normal_component(resolve(cs).1[k - n]));
        }
    }
}

/// The end of the scan of `normalize_in_place`: a final `..` removes the last
/// name or is written out. Says whether what was written ends with the
/// separator after its last part, and where the names start.
fn close_scan(
    out: &mut Vec<u8>,
    seen: Seen,
    bottom: usize,
    start: usize,
    Ghost(pre): Ghost<Seq<u8>>,
    Ghost(rooted): Ghost<bool>,
    Ghost(done): Ghost<Seq<Seq<u8>>>,
    Ghost(cur): Ghost<Seq<u8>>,
) -> (res: (bool, usize))
    requires
        pre.len() == start,
        old(out)@ == wnorm_out(pre, rooted, done, cur),
        seen == seen_of(cur),
        bottom == start + root_bytes(rooted).len() + 3 * resolve(done).0,
        forall|k: int| 0 <= k < done.len() ==> #[trigger] win_sep_free(done[k]),
        win_sep_free(cur),
    ensures
        res.0 ==> final(out)@ == pre + root_bytes(rooted) + trail(wparts(done.push(cur))),
        !res.0 ==> final(out)@ == pre + root_bytes(rooted) + join_bs(wparts(done.push(cur)))
            && wparts(done.push(cur)).len() > 0,
        resolve(done.push(cur)).0 > 0 ==> res.1 >= start + 2,
        resolve(done.push(cur)).0 == 0 ==> res.1 == start + root_bytes(rooted).len(),
{
    let ghost d = resolve(done).0;
    let ghost st = resolve(done).1;
    let ghost ks = wparts(done.push(cur));
    proof {
        lemma_resolve_step(done, cur);
        lemma_seen_kind(cur);
        lemma_dot_facts();
        lemma_resolve_shape(done);
        lemma_wwritten_step_empty(cur);
        lemma_trail_concat(dot_dots(d), st);
        lemma_trail_dot_dots_len(d);
    }
    match seen {
        Seen::SlashDotDot => {
            proof {
                assert(out@ =~= pre + root_bytes(rooted) + trail(dot_dots(d)) + trail(st));
            }
            proof {
                assert(all_names(st));
            }
            if pop_name(out, start, bottom, Ghost(pre), Ghost(rooted), Ghost(d), Ghost(st)) {
                proof {
                    lemma_trail_concat(dot_dots(d), st.drop_last());
                    assert(ks =~= dot_dots(d) + st.drop_last());
                    assert(out@ =~= pre + root_bytes(rooted) + trail(ks));
                }
                (true, bottom)
            } else {
                out.push(DOT);
                out.push(DOT);
                proof {
                    lemma_dot_dots_push(d);
                    lemma_trail_step(dot_dots(d), dot_dot());
                    assert(st =~= Seq::<Seq<u8>>::empty());
                    assert(ks =~= dot_dots(d).push(dot_dot()));
                    assert(out@ =~= pre + root_bytes(rooted) + join_bs(ks));
                }
                (false, out.len())
            }
        },
        Seen::Plain => {
            proof {
                lemma_trail_step(dot_dots(d) + st, cur);
                assert(ks =~= (dot_dots(d) + st).push(cur));
                assert(out@ =~= pre + root_bytes(rooted) + join_bs(ks));
            }
            (false, bottom)
        },
        _ => {
            proof {
                assert(ks =~= dot_dots(d) + st);
                assert(out@ =~= pre + root_bytes(rooted) + trail(ks));
            }
            (true, bottom)
        },
    }
}

/// The prefix of `path` in canonical form, and its length.
fn canonical_prefix_of(path: &[u8], prefix: Option<PrefixCharacteristic>) -> (res: (Vec<u8>, usize))
    requires
        prefix == win_prefix(path@),
    ensures
        res.0@ == canonical_prefix(path@),
        res.0@.len() == res.1,
        res.1 == prefix_len(prefix),
        res.1 <= path@.len(),
{
    let n = path.len();
    proof {
        lemma_prefix_bounds(path@);
    }
    let start: usize = match prefix {
        None => 0,
        Some(PrefixCharacteristic::Disk) => 2,
        Some(PrefixCharacteristic::Namespace(len, _)) => len,
    };
    let mut out: Vec<u8> = Vec::new();
    let mut j: usize = 0;
    while j < start
        invariant
            j <= start <= n,
            n == path@.len(),
            out@ == path@.subrange(0, j as int),
        decreases start - j,
    {
        out.push(path[j]);
        j = j + 1;
        assert(out@ =~= path@.subrange(0, j as int));
    }
    match prefix {
        None => {
            assert(out@ =~= Seq::<u8>::empty());
        },
        Some(PrefixCharacteristic::Disk) => {
            normalize_drive_letter(&mut out);
            assert(out@ =~= seq![upper(path@[0]), COLON]);
        },
        Some(PrefixCharacteristic::Namespace(_, name)) => {
            normalize_slash(&mut out, 0);
            normalize_slash(&mut out, 1);
            normalize_slash(&mut out, 2 + name);
            assert(out@ =~= canonical_prefix(path@));
        },
    }
    (out, start)
}

/// The scan of `normalize_in_place` over the components that follow the
/// prefix and the root, from `from` to the end of `path`.
fn scan_components(
    path: &[u8],
    from: usize,
    out: &mut Vec<u8>,
    bottom: usize,
    start: usize,
    Ghost(pre): Ghost<Seq<u8>>,
    Ghost(rooted): Ghost<bool>,
) -> (res: (Seen, usize))
    requires
        from <= path@.len(),
        pre.len() == start,
        old(out)@ == pre + root_bytes(rooted),
        bottom == start + root_bytes(rooted).len(),
    ensures
        res.0 == seen_of(wsplit(path@.subrange(from as int, path@.len() as int)).last()),
        final(out)@ == wnorm_out(
            pre,
            rooted,
            wsplit(path@.subrange(from as int, path@.len() as int)).drop_last(),
            wsplit(path@.subrange(from as int, path@.len() as int)).last(),
        ),
        res.1 == start + root_bytes(rooted).len() + 3 * resolve(
            wsplit(path@.subrange(from as int, path@.len() as int)).drop_last(),
        ).0,
{
    let n = path.len();
    let ghost t0 = from as int;
    let mut i = from;
    let mut bottom = bottom;
    let mut seen = Seen::Slash;
    proof {
        let e = path@.subrange(t0, t0);
        assert(e =~= Seq::<u8>::empty());
        assert(wsplit(e).drop_last() =~= Seq::<Seq<u8>>::empty());
        assert(wsplit(e).last() =~= Seq::<u8>::empty());
        assert(resolve(Seq::<Seq<u8>>::empty()) == (0nat, Seq::<Seq<u8>>::empty()));
        assert(dot_dots(0) =~= Seq::<Seq<u8>>::empty());
        assert(out@ =~= wnorm_out(pre, rooted, Seq::empty(), Seq::empty()));
    }
    while i < n
        invariant
            n == path@.len(),
            t0 == from,
            t0 <= i <= n,
            pre.len() == start,
            seen == seen_of(wsplit(path@.subrange(t0, i as int)).last()),
            out@ == wnorm_out(
                pre,
                rooted,
                wsplit(path@.subrange(t0, i as int)).drop_last(),
                wsplit(path@.subrange(t0, i as int)).last(),
            ),
            bottom == start + root_bytes(rooted).len() + 3 * resolve(
                wsplit(path@.subrange(t0, i as int)).drop_last(),
            ).0,
        decreases n - i,
    {
        let byte = path[i];
        let ghost u = path@.subrange(t0, i as int);
        let ghost segs = wsplit(u);
        proof {
            lemma_wsplit_shape(u);
            lemma_subrange_cut(path@, t0, i as int, n as int);
            lemma_wsplit_step(u, byte);
            assert forall|k: int| 0 <= k < segs.drop_last().len() implies #[trigger] win_sep_free(
                segs.drop_last()[k],
            ) by {
                assert(segs.drop_last()[k] == segs[k]);
            }
            assert(win_sep_free(segs[segs.len() - 1]));
        }
        if is_sep_byte(byte) {
            bottom = step_separator(
                out,
                seen,
                bottom,
                start,
                Ghost(pre),
                Ghost(rooted),
                Ghost(segs.drop_last()),
                Ghost(segs.last()),
            );
            seen = Seen::Slash;
        } else {
            seen = step_byte(
                out,
                seen,
                byte,
                Ghost(pre),
                Ghost(rooted),
                Ghost(segs.drop_last()),
                Ghost(segs.last()),
            );
        }
        proof {
            let u2 = path@.subrange(t0, i + 1);
            assert(u2 == u.push(byte));
            if is_sep(byte) {
                assert(wsplit(u2).drop_last() =~= segs.drop_last().push(segs.last()));
                assert(wsplit(u2).last() =~= Seq::<u8>::empty());
            } else {
                assert(wsplit(u2).drop_last() =~= segs.drop_last());
                assert(wsplit(u2).last() =~= segs.last().push(byte));
            }
        }
        i = i + 1;
    }
    (seen, bottom)
}

/// Drops the separator after the last part, and the root of a namespace
/// that is followed by nothing, so that what remains is the prefix, the root
/// where there is one, and the parts joined by `\`.
fn trim_trailing(
    out: &mut Vec<u8>,
    trailing: bool,
    keep: usize,
    Ghost(pre): Ghost<Seq<u8>>,
    Ghost(rooted): Ghost<bool>,
    Ghost(ks): Ghost<Seq<Seq<u8>>>,
    Ghost(ns): Ghost<bool>,
)
    requires
        keep == pre.len() + if ns {
            0int
        } else {
            1int
        },
        trailing ==> old(out)@ == pre + root_bytes(rooted) + trail(ks),
        !trailing ==> old(out)@ == pre + root_bytes(rooted) + join_bs(ks) && ks.len() > 0,
        forall|k: int| 0 <= k < ks.len() ==> #[trigger] ks[k].len() > 0,
    ensures
        final(out)@ == pre + (if rooted && !(ns && join_bs(ks).len() == 0) {
            seq![BACKSLASH]
        } else {
            Seq::empty()
        }) + join_bs(ks),
{
    proof {
        lemma_trail_last(ks);
        if ks.len() > 0 {
            lemma_trail_step(ks.drop_last(), ks.last());
            assert(ks.drop_last().push(ks.last()) =~= ks);
            assert(ks[ks.len() - 1].len() > 0);
        }
    }
    if trailing {
        if out.len() > keep {
            let last = out.len() - 1;
            out.truncate(last);
        }
    }
    proof {
        assert(out@ =~= pre + (if rooted && !(ns && join_bs(ks).len() == 0) {
            seq![BACKSLASH]
        } else {
            Seq::empty()
        }) + join_bs(ks));
    }
}

/// The canonical form and the error of normalization, in terms of the parts
/// that the scan computes.
proof fn lemma_win_canonical_unfold(p: Seq<u8>)
    requires
        !is_verbatim(p),
    ensures
        ({
            let t = win_tail(p);
            let rooted = t.len() > 0 && is_sep(t[0]);
            let cs = wsplit(after_root(t));
            let body = join_bs(wparts(cs));
            let ns = win_prefix(p) matches Some(PrefixCharacteristic::Namespace(_, _));
            &&& win_canonical(p) == canonical_prefix(p) + (if rooted && !(ns && body.len() == 0) {
                seq![BACKSLASH]
            } else {
                Seq::empty()
            }) + body
            &&& win_normalize_error(p) == if resolve(cs).0 > 0 {
                Some(E::ContainsParent)
            } else if !win_absolute(p) {
                Some(E::NotAbsolute)
            } else {
                None
            }
        }),
{
}

/// Normalizes `path`, which is not verbatim and has the prefix `prefix`,
/// collapsing `..` lexically, and reports a `..` that escapes the base
/// first, then a missing root.
fn normalize_in_place(path: &mut Vec<u8>, prefix: Option<PrefixCharacteristic>) -> (res: Option<E>)
    requires
        !is_verbatim(old(path)@),
        prefix == win_prefix(old(path)@),
    ensures
        final(path)@ == win_canonical(old(path)@),
        res == win_normalize_error(old(path)@),
{
    let ghost p = path@;
    let (mut out, start) = canonical_prefix_of(path.as_slice(), prefix);
    let n = path.len();
    let ghost pre = canonical_prefix(p);
    let ghost t = win_tail(p);
    let ghost rooted = t.len() > 0 && is_sep(t[0]);
    proof {
        assert(t =~= path@.subrange(start as int, n as int));
    }
    let has_root = start < n && is_sep_byte(path[start]);
    let mut i: usize = start;
    let mut bottom: usize = start;
    if has_root {
        out.push(BACKSLASH);
        i = start + 1;
        bottom = start + 1;
    }
    let ghost t0 = i as int;
    proof {
        assert(out@ =~= pre + root_bytes(rooted));
    }
    let (seen, bottom) = scan_components(
        path.as_slice(),
        i,
        &mut out,
        bottom,
        start,
        Ghost(pre),
        Ghost(rooted),
    );
    let ghost u = path@.subrange(t0, n as int);
    let ghost segs = wsplit(u);
    proof {
        lemma_wsplit_shape(u);
        assert forall|k: int| 0 <= k < segs.drop_last().len() implies #[trigger] win_sep_free(
            segs.drop_last()[k],
        ) by {
            assert(segs.drop_last()[k] == segs[k]);
        }
        assert(win_sep_free(segs[segs.len() - 1]));
        assert(segs =~= segs.drop_last().push(segs.last()));
    }
    let (trailing, bottom) = close_scan(
        &mut out,
        seen,
        bottom,
        start,
        Ghost(pre),
        Ghost(rooted),
        Ghost(segs.drop_last()),
        Ghost(segs.last()),
    );
    let ghost ks = wparts(segs);
    let ghost ns = win_prefix(p) matches Some(PrefixCharacteristic::Namespace(_, _));
    proof {
        lemma_wparts_shape(segs);
    }
    let keep = match prefix {
        Some(PrefixCharacteristic::Namespace(_, _)) => start,
        _ => start + 1,
    };
    trim_trailing(&mut out, trailing, keep, Ghost(pre), Ghost(rooted), Ghost(ks), Ghost(ns));
    let res = if bottom - start >= 2 {
        Some(E::ContainsParent)
    } else {
        match prefix {
            None => Some(E::NotAbsolute),
            Some(PrefixCharacteristic::Disk) => if has_root {
                None
            } else {
                Some(E::NotAbsolute)
            },
            _ => None,
        }
    };
    proof {
        assert(after_root(t) =~= u);
        lemma_win_canonical_unfold(p);
    }
    *path = out;
    res
}

/// Validates `path`, reporting a missing root first, then a parent
/// component that escapes the base.
fn validate_fully<'a>(path: &'a [u8]) -> (res: Result<&'a [u8], E>)
    ensures
        match res {
            Ok(p) => p@ == path@ && win_validate_fully_result(path@) is Ok,
            Err(e) => win_validate_fully_result(path@) == Err::<(), E>(e),
        },
{
    if is_verbatim_path(path) {
        return Ok(path);
    }
    if !is_absolute(path) {
        return Err(E::NotAbsolute);
    }
    match check_path_parentless(path) {
        Err(e) => Err(e),
        Ok(()) => Ok(path),
    }
}

/// What validation that reports a missing root first says of `p`, in terms
/// of what normalization does.
proof fn lemma_fully_vs_normalize(p: Seq<u8>)
    requires
        p.len() <= usize::MAX,
    ensures
        win_validate_fully_result(p) is Ok ==> win_canonical(p) == p && win_normalize_error(p) is None,
        win_validate_fully_result(p) == Err::<(), E>(E::NotCanonical) ==> win_normalize_error(p) is None,
        win_validate_fully_result(p) is Err && win_validate_fully_result(p) != Err::<(), E>(
            E::NotCanonical,
        ) ==> win_normalize_error(p) is Some && win_validate_fully_result(p) == Err::<(), E>(
            if !win_absolute(p) {
                E::NotAbsolute
            } else {
                E::ContainsParent
            },
        ),
{
    if !is_verbatim(p) {
        lemma_win_parent_agrees(p);
        if win_validate_fully_result(p) is Ok {
            let r = win_path_issues(p);
            if r.len() > 0 {
                assert(r[0] == E::NotCanonical || r[0] == E::ContainsParent);
                assert(r.contains(r[0]));
            }
            lemma_win_valid_is_canonical(p);
        }
    }
}

/// Normalizes `path` in place with the Windows path syntax; a verbatim path
/// is left as it is.
pub fn normalize(path: &mut Vec<u8>) -> (res: Result<(), E>)
    ensures
        final(path)@ == win_canonical(old(path)@),
        match res {
            Ok(()) => win_normalize_error(old(path)@) is None,
            Err(e) => win_normalize_error(old(path)@) == Some(e),
        },
{
    if is_verbatim_path(path.as_slice()) {
        return Ok(());
    }
    let prefix = prefix_of(path.as_slice());
    match normalize_in_place(path, prefix) {
        None => Ok(()),
        Some(e) => Err(e),
    }
}

/// Borrows `path` if it is normalized, otherwise normalizes a copy of it;
/// fails if it is not absolute or has a `..` that escapes the base.
pub fn normalize_new_cow<'a>(path: &'a [u8]) -> (res: Result<Cow<'a, [u8]>, E>)
    ensures
        match res {
            Ok(c) => c@ == win_canonical(path@) && win_normalize_error(path@) is None && ((c is Borrowed)
                == (win_validate_fully_result(path@) is Ok)),
            Err(e) => win_normalize_error(path@) is Some && e == if !win_absolute(path@) {
                E::NotAbsolute
            } else {
                E::ContainsParent
            },
        },
{
    let n = path.len();
    proof {
        lemma_fully_vs_normalize(path@);
    }
    match validate_fully(path) {
        Ok(p) => Ok(Cow::Borrowed(p)),
        Err(E::NotCanonical) => {
            let mut buf = slice_to_vec(path);
            let _ = normalize(&mut buf);
            Ok(Cow::Owned(buf))
        },
        Err(e) => Err(e),
    }
}

/// Takes `path` if it is normalized, otherwise normalizes it; on failure the
/// input is handed back untouched.
pub fn normalize_new_buf(path: Vec<u8>) -> (res: Result<Vec<u8>, Ec<Vec<u8>>>)
    ensures
        match res {
            Ok(b) => b@ == win_canonical(path@) && win_normalize_error(path@) is None,
            Err(ec) => ec.value@ == path@ && win_normalize_error(path@) is Some && ec.error == if !win_absolute(
                path@,
            ) {
                E::NotAbsolute
            } else {
                E::ContainsParent
            },
        },
{
    let n = path.len();
    proof {
        lemma_fully_vs_normalize(path@);
    }
    let status = match validate_fully(path.as_slice()) {
        Ok(_) => Ok(()),
        Err(e) => Err(e),
    };
    match status {
        Ok(()) => Ok(path),
        Err(E::NotCanonical) => {
            let mut path = path;
            let _ = normalize(&mut path);
            Ok(path)
        },
        Err(e) => Err(Ec::new(e, path)),
    }
}

/// The part of `path` after `base`, compared byte by byte, where `base` ends
/// with a separator, at a `\` of `path` or at its end.
pub fn strip<'a>(path: &'a [u8], base: &[u8]) -> (res: Option<&'a [u8]>)
    ensures
        match res {
            Some(r) => win_strip_result(path@, base@) == Some(r@),
            None => win_strip_result(path@, base@) is None,
        },
{
    let n = base.len();
    if n > path.len() {
        return None;
    }
    let mut i: usize = 0;
    while i < n
        invariant
            i <= n,
            n == base@.len(),
            n <= path@.len(),
            path@.subrange(0, i as int) == base@.subrange(0, i as int),
        decreases n - i,
    {
        if path[i] != base[i] {
            assert(path@.subrange(0, n as int)[i as int] != base@[i as int]);
            return None;
        }
        i = i + 1;
        assert(path@.subrange(0, i as int) =~= base@.subrange(0, i as int));
    }
    assert(base@.subrange(0, n as int) =~= base@);
    if path.len() == n {
        Some(&path[0..0])
    } else if n > 0 && (base[n - 1] == BACKSLASH || base[n - 1] == SLASH) {
        Some(&path[n..path.len()])
    } else if path[n] == BACKSLASH {
        Some(&path[n + 1..path.len()])
    } else {
        None
    }
}

/// Whether `path` has a root on Windows.
fn has_root(path: &[u8]) -> (res: bool)
    ensures
        res == win_has_root(path@),
{
    if is_verbatim_path(path) {
        return true;
    }
    match prefix_of(path) {
        Some(PrefixCharacteristic::Namespace(_, _)) => true,
        Some(PrefixCharacteristic::Disk) => {
            proof {
                if path@.len() > 2 {
                    assert(win_tail(path@)[0] == path@[2]);
                }
            }
            path.len() > 2 && is_sep_byte(path[2])
        },
        None => {
            proof {
                assert(win_tail(path@) =~= path@);
            }
            path.len() > 0 && is_sep_byte(path[0])
        },
    }
}

/// Whether `path` has a prefix, verbatim or not.
fn has_prefix(path: &[u8]) -> (res: bool)
    ensures
        res == win_has_prefix(path@),
{
    is_verbatim_path(path) || prefix_of(path).is_some()
}

/// Appends `path` to `buf`, which is not verbatim, as `PathBuf::push` does
/// on Windows.
fn pathbuf_push(buf: &mut Vec<u8>, path: &[u8])
    requires
        !is_verbatim(old(buf)@),
    ensures
        final(buf)@ == win_joined(old(buf)@, path@),
{
    let ghost b0 = buf@;
    proof {
        lemma_prefix_bounds(b0);
    }
    if has_prefix(path) {
        buf.clear();
    } else if path.len() > 0 && is_sep_byte(path[0]) {
        let keep: usize = match prefix_of(buf.as_slice()) {
            None => 0,
            Some(PrefixCharacteristic::Disk) => 2,
            Some(PrefixCharacteristic::Namespace(len, _)) => len,
        };
        buf.truncate(keep);
    } else {
        let n = buf.len();
        let disk_alone = n == 2 && match prefix_of(buf.as_slice()) {
            Some(PrefixCharacteristic::Disk) => true,
            _ => false,
        };
        if n > 0 && !is_sep_byte(buf[n - 1]) && !disk_alone {
            buf.push(BACKSLASH);
        }
    }
    let ghost base = buf@;
    let n = path.len();
    let mut i: usize = 0;
    while i < n
        invariant
            i <= n,
            n == path@.len(),
            buf@ == base + path@.subrange(0, i as int),
        decreases n - i,
    {
        buf.push(path[i]);
        i = i + 1;
        assert(buf@ =~= base + path@.subrange(0, i as int));
    }
    assert(path@.subrange(0, n as int) =~= path@);
    assert(buf@ =~= win_joined(b0, path@));
}

/// Whether `path` is a device namespace or a UNC share followed by a lone
/// `\`.
fn is_phony_root(path: &[u8]) -> (res: bool)
    ensures
        res == win_is_phony_root(path@),
{
    if is_verbatim_path(path) {
        return false;
    }
    match prefix_of(path) {
        Some(PrefixCharacteristic::Namespace(len, _)) => {
            proof {
                if path@.len() == len + 1 {
                    assert(win_tail(path@).len() == 1);
                    assert(win_tail(path@)[0] == path@[len as int]);
                }
            }
            let res = path.len() > len && path.len() - len == 1 && path[len] == BACKSLASH;
            proof {
                if res {
                    assert(win_tail(path@) =~= seq![BACKSLASH]);
                }
            }
            res
        },
        _ => false,
    }
}

/// The byte strings held by `v`.
spec fn views(v: Seq<Vec<u8>>) -> Seq<Seq<u8>> {
    Seq::new(v.len(), |i: int| v[i]@)
}

/// The index of the first `\` at or after `i`, or the length.
fn first_bs(p: &[u8], i: usize) -> (res: usize)
    requires
        i <= p@.len(),
    ensures
        res == first_bs_from(p@, i as int),
        i <= res <= p@.len(),
{
    let mut k = i;
    while k < p.len() && p[k] != BACKSLASH
        invariant
            i <= k <= p@.len(),
            first_bs_from(p@, i as int) == first_bs_from(p@, k as int),
        decreases p@.len() - k,
    {
        k = k + 1;
    }
    k
}

/// The length of the prefix of the verbatim `p`.
fn verbatim_prefix_length(p: &[u8]) -> (res: usize)
    requires
        is_verbatim(p@),
    ensures
        res == verbatim_prefix_len(p@),
        res <= p@.len(),
{
    let n = p.len();
    if n >= 8 && p[4] == 85 && p[5] == 78 && p[6] == 67 && is_sep_byte(p[7]) {
        let server_end = first_bs(p, 8);
        if server_end < n {
            let share_end = first_bs(p, server_end + 1);
            if share_end > server_end + 1 {
                return share_end;
            }
        }
        server_end
    } else if n >= 6 && ((65 <= p[4] && p[4] <= 90) || (97 <= p[4] && p[4] <= 122)) && p[5] == COLON
        && (n == 6 || p[6] == BACKSLASH) {
        6
    } else {
        first_bs(p, 4)
    }
}

/// One more piece for the components of a verbatim path.
fn vstep_exec(comps: &mut Vec<Vec<u8>>, c: Vec<u8>, resolving: bool)
    ensures
        views(final(comps)@) == vstep(views(old(comps)@), c@, resolving),
{
    let ghost before = views(comps@);
    let is_dot = c.len() == 1 && c[0] == DOT;
    let is_dot_dot = c.len() == 2 && c[0] == DOT && c[1] == DOT;
    proof {
        lemma_dot_facts();
        assert(is_dot == (c@ == dot())) by {
            if c@ == dot() {
                assert(c@.len() == 1 && c@[0] == DOT);
            }
            if is_dot {
                assert(c@ =~= dot());
            }
        }
        assert(is_dot_dot == (c@ == dot_dot())) by {
            if c@ == dot_dot() {
                assert(c@.len() == 2 && c@[0] == DOT && c@[1] == DOT);
            }
            if is_dot_dot {
                assert(c@ =~= dot_dot());
            }
        }
    }
    if c.len() == 0 || (resolving && is_dot) {
    } else if resolving && is_dot_dot {
        let n = comps.len();
        if n > 0 {
            let last = &comps[n - 1];
            let last_dot = last.len() == 1 && last[0] == DOT;
            let last_dot_dot = last.len() == 2 && last[0] == DOT && last[1] == DOT;
            proof {
                let l = before.last();
                assert(l == comps@[n - 1]@);
                if l == dot() {
                    assert(l.len() == 1 && l[0] == DOT);
                }
                if l == dot_dot() {
                    assert(l.len() == 2 && l[0] == DOT && l[1] == DOT);
                }
                if last_dot {
                    assert(l =~= dot());
                }
                if last_dot_dot {
                    assert(l =~= dot_dot());
                }
            }
            if !last_dot && !last_dot_dot {
                comps.pop();
                proof {
                    assert(views(comps@) =~= before.drop_last());
                }
            }
        }
    } else {
        comps.push(c);
        proof {
            assert(views(comps@) =~= before.push(c@));
        }
    }
}

/// Takes the pieces of `src[from..]` in turn into the components `comps`.
fn scan_pieces(src: &[u8], from: usize, bs_only: bool, resolving: bool, comps: &mut Vec<Vec<u8>>)
    requires
        from <= src@.len(),
    ensures
        views(final(comps)@) == vfold(
            views(old(comps)@),
            split_by(src@.subrange(from as int, src@.len() as int), bs_only),
            resolving,
        ),
{
    let ghost c0 = views(comps@);
    let n = src.len();
    let mut cur: Vec<u8> = Vec::new();
    let mut i = from;
    proof {
        let e = src@.subrange(from as int, from as int);
        assert(e =~= Seq::<u8>::empty());
        assert(split_by(e, bs_only).drop_last() =~= Seq::<Seq<u8>>::empty());
    }
    while i < n
        invariant
            from <= i <= n,
            n == src@.len(),
            views(comps@) == vfold(
                c0,
                split_by(src@.subrange(from as int, i as int), bs_only).drop_last(),
                resolving,
            ),
            cur@ == split_by(src@.subrange(from as int, i as int), bs_only).last(),
        decreases n - i,
    {
        let b = src[i];
        let ghost u = src@.subrange(from as int, i as int);
        proof {
            assert(src@.subrange(from as int, i + 1) =~= u.push(b));
            lemma_split_by_step(u, b, bs_only);
            lemma_split_by_len(u, bs_only);
        }
        if b == BACKSLASH || (!bs_only && b == SLASH) {
            let piece = cur;
            cur = Vec::new();
            vstep_exec(comps, piece, resolving);
            proof {
                let ks = split_by(u, bs_only);
                assert(ks =~= ks.drop_last().push(ks.last()));
                lemma_vfold_step(c0, ks.drop_last(), ks.last(), resolving);
                assert(split_by(u.push(b), bs_only).drop_last() =~= ks);
                assert(split_by(u.push(b), bs_only).last() =~= Seq::<u8>::empty());
            }
        } else {
            cur.push(b);
            proof {
                let ks = split_by(u, bs_only);
                assert(split_by(u.push(b), bs_only).drop_last() =~= ks.drop_last());
                assert(split_by(u.push(b), bs_only).last() =~= ks.last().push(b));
            }
        }
        i = i + 1;
    }
    vstep_exec(comps, cur, resolving);
    proof {
        let ks = split_by(src@.subrange(from as int, n as int), bs_only);
        lemma_split_by_len(src@.subrange(from as int, n as int), bs_only);
        assert(ks =~= ks.drop_last().push(ks.last()));
        lemma_vfold_step(c0, ks.drop_last(), ks.last(), resolving);
    }
}

/// Appends `path` to the verbatim `buf` as `PathBuf::push` does on Windows.
fn verbatim_push(buf: &mut Vec<u8>, path: &[u8])
    requires
        is_verbatim(old(buf)@),
    ensures
        final(buf)@ == win_verbatim_joined(old(buf)@, path@),
{
    let ghost b0 = buf@;
    if has_prefix(path) {
        *buf = slice_to_vec(path);
        return;
    }
    if path.len() == 0 {
        let n = buf.len();
        if n > 0 && !is_sep_byte(buf[n - 1]) {
            buf.push(BACKSLASH);
        }
        return;
    }
    let n = buf.len();
    let l = verbatim_prefix_length(buf.as_slice());
    let rooted = l < n && is_sep_byte(buf[l]);
    let body_start = if rooted {
        l + 1
    } else {
        l
    };
    let mut comps: Vec<Vec<u8>> = Vec::new();
    proof {
        assert(views(comps@) =~= Seq::<Seq<u8>>::empty());
    }
    scan_pieces(buf.as_slice(), body_start, true, false, &mut comps);
    let prooted = is_sep_byte(path[0]);
    if prooted {
        comps = Vec::new();
        proof {
            assert(views(comps@) =~= Seq::<Seq<u8>>::empty());
        }
    }
    scan_pieces(path, 0, false, true, &mut comps);
    proof {
        assert(path@.subrange(0, path@.len() as int) =~= path@);
    }
    let mut out: Vec<u8> = Vec::new();
    let mut j: usize = 0;
    while j < l
        invariant
            j <= l <= n,
            n == buf@.len(),
            out@ == buf@.subrange(0, j as int),
        decreases l - j,
    {
        out.push(buf[j]);
        j = j + 1;
        assert(out@ =~= buf@.subrange(0, j as int));
    }
    let m = comps.len();
    if rooted || prooted || m > 0 {
        out.push(BACKSLASH);
    }
    let ghost head = out@;
    let ghost cs = views(comps@);
    let mut k: usize = 0;
    proof {
        assert(cs.subrange(0, 0) =~= Seq::<Seq<u8>>::empty());
        assert(out@ =~= head + join_bs(cs.subrange(0, 0)));
    }
    while k < m
        invariant
            k <= m,
            m == comps@.len(),
            cs == views(comps@),
            out@ == head + join_bs(cs.subrange(0, k as int)),
        decreases m - k,
    {
        if k > 0 {
            out.push(BACKSLASH);
        }
        let piece = &comps[k];
        let pn = piece.len();
        let ghost mid = out@;
        let mut t: usize = 0;
        while t < pn
            invariant
                t <= pn,
                pn == piece@.len(),
                out@ == mid + piece@.subrange(0, t as int),
            decreases pn - t,
        {
            out.push(piece[t]);
            t = t + 1;
            assert(out@ =~= mid + piece@.subrange(0, t as int));
        }
        proof {
            assert(piece@.subrange(0, pn as int) =~= piece@);
            assert(cs[k as int] == piece@);
            let pre = cs.subrange(0, k as int);
            assert(cs.subrange(0, k + 1) =~= pre.push(cs[k as int]));
            assert(pre.push(cs[k as int]).drop_last() =~= pre);
            if k > 0 {
                assert(out@ =~= head + join_bs(cs.subrange(0, k + 1)));
            } else {
                assert(out@ =~= head + join_bs(cs.subrange(0, k + 1)));
            }
        }
        k = k + 1;
    }
    proof {
        assert(cs.subrange(0, m as int) =~= cs);
        assert(out@ =~= win_verbatim_joined(b0, path@));
    }
    *buf = out;
}

/// What the validation that puts parent components first reports, without
/// the check of the root.
spec fn parentless_check(p: Seq<u8>) -> Result<(), E> {
    if is_verbatim(p) {
        Ok(())
    } else if win_path_issues(p).contains(E::ContainsParent) {
        Err(E::ContainsParent)
    } else if prefix_error(p) == Some(E::NotCanonical) || win_path_issues(p).contains(
        E::NotCanonical,
    ) {
        Err(E::NotCanonical)
    } else {
        Ok(())
    }
}

/// What pushing `path` onto the normalized `buf`, which is not verbatim,
/// comes to on each outcome of the check of `path`.
proof fn lemma_push_cases(buf: Seq<u8>, path: Seq<u8>)
    requires
        !is_verbatim(buf),
        win_validate_result(buf) is Ok,
        buf.len() + path.len() < usize::MAX,
    ensures
        win_joined(buf, path).len() <= usize::MAX,
        ({
            let j = win_joined(buf, path);
            let chk = parentless_check(path);
            &&& win_has_root(path) && chk is Ok ==> win_normalize_error(j) is None && win_canonical(j)
                == if win_is_phony_root(j) {
                j.drop_last()
            } else {
                j
            }
            &&& win_has_root(path) && chk == Err::<(), E>(E::ContainsParent) ==> win_normalize_error(j)
                == Some(E::ContainsParent) && win_absolute(j)
            &&& win_has_root(path) && chk == Err::<(), E>(E::NotCanonical) ==> win_normalize_error(j)
                is None
            &&& !win_has_root(path) && win_has_prefix(path) ==> !win_absolute(j) && !is_verbatim(j)
                && win_normalize_error(j) is Some
            &&& !win_has_root(path) && !win_has_prefix(path) ==> !is_verbatim(j) && win_absolute(j)
        }),
{
    let j = win_joined(buf, path);
    let chk = parentless_check(path);
    lemma_prefix_bounds(buf);
    assert(j.len() <= buf.len() + 1 + path.len());
    if !is_verbatim(path) {
        lemma_win_parent_agrees(path);
        lemma_prefix_bounds(path);
    }
    if !win_has_prefix(path) {
        lemma_joined_prefix(buf, path);
        assert(win_tail(path) =~= path);
    }
    let r = win_path_issues(path);
    if r.len() > 0 {
        assert(r.contains(r[0]));
    }
    if win_has_root(path) && chk is Ok {
        if win_has_prefix(path) {
            if !is_verbatim(path) {
                lemma_win_valid_is_canonical(path);
            }
        } else {
            lemma_prefix_bounds(buf);
            let l = prefix_len(win_prefix(buf));
            assert(scanned_tail(path) == path);
            if (win_prefix(buf) matches Some(PrefixCharacteristic::Namespace(_, _))) && path.len() == 1 {
                if path[0] == SLASH {
                    assert(path =~= seq![SLASH]);
                }
                assert(path =~= seq![BACKSLASH]);
                assert(win_is_phony_root(j));
                assert(j.drop_last() =~= buf.subrange(0, l));
                super::windows_model::lemma_short_tail(path);
                assert(after_root(path) =~= Seq::<u8>::empty());
                assert(wsplit(Seq::<u8>::empty()) =~= seq![Seq::<u8>::empty()]);
                assert(seq![Seq::<u8>::empty()] =~= Seq::<Seq<u8>>::empty().push(Seq::<u8>::empty()));
                lemma_resolve_step(Seq::empty(), Seq::<u8>::empty());
                assert(dot_dots(0) =~= Seq::<Seq<u8>>::empty());
                assert(win_canonical(j) =~= j.drop_last());
            } else {
                assert(scanned_tail(j) == path);
                assert(win_path_issues(j) == win_path_issues(path));
                lemma_win_valid_is_canonical(j);
            }
        }
    }
    if win_has_root(path) && chk != Ok::<(), E>(()) && !win_has_prefix(path) {
        assert(after_root(win_tail(j)) == after_root(win_tail(path)));
    }
}

/// Appends the relative `path`, which has no prefix, to the normalized
/// `buf`, collapsing `..` lexically; fails, leaving `buf` untouched, when a
/// `..` escapes the prefix and root of `buf`.
fn push_with_bottom_line(buf: &mut Vec<u8>, path: &[u8]) -> (res: Result<(), E>)
    requires
        !is_verbatim(old(buf)@),
        win_validate_result(old(buf)@) is Ok,
        !win_has_prefix(path@),
        !win_has_root(path@),
    ensures
        match res {
            Ok(()) => final(buf)@ == win_canonical(win_joined(old(buf)@, path@))
                && win_normalize_error(win_joined(old(buf)@, path@)) is None,
            Err(e) => final(buf)@ == old(buf)@ && win_normalize_error(
                win_joined(old(buf)@, path@),
            ) == Some(e),
        },
{
    let mut joined = slice_to_vec(buf.as_slice());
    pathbuf_push(&mut joined, path);
    proof {
        assert(buf@.len() == buf.len());
        assert(joined@.len() == joined.len());
        lemma_joined_prefix(buf@, path@);
    }
    let prefix = prefix_of(joined.as_slice());
    match normalize_in_place(&mut joined, prefix) {
        Some(e) => Err(e),
        None => {
            *buf = joined;
            Ok(())
        },
    }
}

/// Pushes `path` onto the normalized `buf` and normalizes the result, so
/// that it stays normalized; a verbatim `buf` is extended as `PathBuf::push`
/// extends it, which never fails.
///
/// Fails, leaving `buf` untouched, if the result would not be absolute or
/// would hold a `..` that escapes its base.
pub fn push(buf: &mut Vec<u8>, path: &[u8]) -> (res: Result<(), E>)
    requires
        win_validate_result(old(buf)@) is Ok,
        old(buf)@.len() + path@.len() < usize::MAX,
    ensures
        is_verbatim(old(buf)@) ==> res is Ok && final(buf)@ == win_verbatim_joined(
            old(buf)@,
            path@,
        ),
        !is_verbatim(old(buf)@) ==> match res {
            Ok(()) => final(buf)@ == win_canonical(win_joined(old(buf)@, path@))
                && win_normalize_error(win_joined(old(buf)@, path@)) is None,
            Err(e) => final(buf)@ == old(buf)@ && win_normalize_error(
                win_joined(old(buf)@, path@),
            ) is Some && e == if !win_absolute(win_joined(old(buf)@, path@)) {
                E::NotAbsolute
            } else {
                E::ContainsParent
            },
        },
{
    if is_verbatim_path(buf.as_slice()) {
        verbatim_push(buf, path);
        return Ok(());
    }
    let ghost b0 = buf@;
    let ghost j = win_joined(b0, path@);
    let rooted = has_root(path);
    proof {
        lemma_push_cases(b0, path@);
    }
    match check_path_parentless(path) {
        Ok(()) if rooted => {
            pathbuf_push(buf, path);
        },
        Err(E::ContainsParent) if rooted => {
            return Err(E::ContainsParent);
        },
        Err(E::NotCanonical) if rooted => {
            pathbuf_push(buf, path);
            let _ = normalize(buf);
            proof {
                assert(buf@.len() == buf.len());
                lemma_win_canonical_not_phony(j);
            }
        },
        _ => {
            if !is_verbatim_path(path) && !is_absolute(path) && has_prefix(path) {
                return Err(E::NotAbsolute);
            }
            match push_with_bottom_line(buf, path) {
                Err(e) => return Err(e),
                Ok(()) => {},
            }
            proof {
                assert(buf@.len() == buf.len());
                lemma_win_canonical_not_phony(j);
            }
        },
    }
    if is_phony_root(buf.as_slice()) {
        buf.pop();
    }
    Ok(())
}

/// Splits `path` into its prefix and the rest, as the standard library
/// parses prefixes on Windows; nothing when it has no prefix.
pub fn windows_split_components<'a>(path: &'a [u8]) -> (res: Option<(&'a [u8], &'a [u8])>)
    ensures
        match res {
            Some((pre, rest)) => win_has_prefix(path@) && pre@ + rest@ == path@ && pre@.len()
                == any_prefix_len(path@),
            None => !win_has_prefix(path@),
        },
{
    let n = path.len();
    let len = if is_verbatim_path(path) {
        verbatim_prefix_length(path)
    } else {
        proof {
            lemma_prefix_bounds(path@);
        }
        match prefix_of(path) {
            None => {
                return None;
            },
            Some(PrefixCharacteristic::Disk) => 2,
            Some(PrefixCharacteristic::Namespace(len, _)) => len,
        }
    };
    let pre = &path[0..len];
    let rest = &path[len..n];
    assert(pre@ + rest@ =~= path@);
    Some((pre, rest))
}

/// The prefix of `path` on Windows, if it has one.
pub fn windows_prefix<'a>(path: &'a [u8]) -> (res: Option<&'a [u8]>)
    ensures
        match res {
            Some(pre) => win_has_prefix(path@) && pre@ == path@.subrange(0, any_prefix_len(path@)),
            None => !win_has_prefix(path@),
        },
{
    match windows_split_components(path) {
        Some((pre, rest)) => {
            assert(pre@ =~= path@.subrange(0, any_prefix_len(path@)));
            Some(pre)
        },
        None => None,
    }
}

/// The kind of prefix that `path` starts with on Windows, if any.
pub fn windows_prefix_kind(path: &[u8]) -> (res: Option<PrefixKind>)
    ensures
        res == prefix_kind(path@),
        res is Some <==> win_has_prefix(path@),
{
    let n = path.len();
    if is_verbatim_path(path) {
        if n >= 8 && path[4] == 85 && path[5] == 78 && path[6] == 67 && (path[7] == SLASH || path[7]
            == BACKSLASH) {
            Some(PrefixKind::VerbatimUnc)
        } else if n >= 6 && ((65 <= path[4] && path[4] <= 90) || (97 <= path[4] && path[4] <= 122))
            && path[5] == COLON && (n == 6 || path[6] == BACKSLASH) {
            Some(PrefixKind::VerbatimDisk)
        } else {
            Some(PrefixKind::Verbatim)
        }
    } else {
        match prefix_of(path) {
            None => None,
            Some(PrefixCharacteristic::Disk) => Some(PrefixKind::Disk),
            Some(PrefixCharacteristic::Namespace(_, _)) => {
                if path[2] == DOT && is_sep_byte(path[3]) && is_sep_byte(path[0]) && is_sep_byte(
                    path[1],
                ) {
                    Some(PrefixKind::DeviceNs)
                } else {
                    Some(PrefixKind::Unc)
                }
            },
        }
    }
}

/// The components of the normalized `path` after its prefix and its root,
/// in order: the names between `\`, none for a path that ends at its root.
pub fn windows_components<'a>(path: &'a [u8]) -> (res: Vec<&'a [u8]>)
    requires
        win_validate_result(path@) is Ok,
    ensures
        res@.len() == win_components(path@).len(),
        forall|k: int| 0 <= k < res@.len() ==> #[trigger] res@[k]@ == win_components(path@)[k],
{
    let bs_only = is_verbatim_path(path);
    let mut res: Vec<&'a [u8]> = Vec::new();
    let (_, tail) = match windows_split_components(path) {
        Some(parts) => parts,
        None => {
            return res;
        },
    };
    let ghost t = tail@;
    proof {
        assert(t =~= path@.subrange(any_prefix_len(path@), path@.len() as int));
    }
    let n = tail.len();
    let first: usize = if n > 0 && (tail[0] == BACKSLASH || (!bs_only && tail[0] == SLASH)) {
        1
    } else {
        0
    };
    let ghost u = t.subrange(first as int, n as int);
    proof {
        if first == 1 {
            assert(u =~= t.drop_first());
        } else {
            assert(u =~= t);
        }
    }
    if first == n {
        return res;
    }
    let mut start: usize = first;
    let mut i: usize = first;
    proof {
        assert(t.subrange(first as int, first as int) =~= Seq::<u8>::empty());
    }
    while i < n
        invariant
            first <= start <= i <= n,
            n == t.len(),
            t == tail@,
            bs_only == is_verbatim(path@),
            split_by(t.subrange(first as int, i as int), bs_only).len() == res@.len() + 1,
            split_by(t.subrange(first as int, i as int), bs_only).last() == t.subrange(
                start as int,
                i as int,
            ),
            forall|k: int| 0 <= k < res@.len() ==> #[trigger] res@[k]@ == split_by(
                t.subrange(first as int, i as int),
                bs_only,
            )[k],
        decreases n - i,
    {
        let ghost before = split_by(t.subrange(first as int, i as int), bs_only);
        proof {
            assert(t.subrange(first as int, i + 1) =~= t.subrange(first as int, i as int).push(
                t[i as int],
            ));
            lemma_split_by_step(t.subrange(first as int, i as int), t[i as int], bs_only);
        }
        if tail[i] == BACKSLASH || (!bs_only && tail[i] == SLASH) {
            let piece = &tail[start..i];
            res.push(piece);
            start = i + 1;
            proof {
                assert(t.subrange(start as int, i + 1) =~= Seq::<u8>::empty());
            }
        } else {
            proof {
                assert(t.subrange(start as int, i + 1) =~= t.subrange(start as int, i as int).push(
                    t[i as int],
                ));
            }
        }
        i = i + 1;
        proof {
            let now = split_by(t.subrange(first as int, i as int), bs_only);
            assert forall|k: int| 0 <= k < res@.len() implies #[trigger] res@[k]@ == now[k] by {
                assert(now[k] == before[k]);
            }
        }
    }
    let last = &tail[start..n];
    res.push(last);
    proof {
        assert(t.subrange(first as int, n as int) == u);
    }
    res
}

} // verus!
