//! Validation and normalization of Unix paths.
use vstd::prelude::*;

use super::unix_model::{
    canonical, checked_components, component_issue, components, contains_parent, dot, dot_dot,
    has_root, is_kept, is_normalized, issues, join, joined, kept, lemma_canonical_components,
    lemma_canonical_is_normalized, lemma_canonical_of_normalized, lemma_dot_facts,
    lemma_issues_concat, lemma_issues_kinds, lemma_join_no_root, lemma_join_step,
    lemma_joined_no_parent, lemma_joined_normalized, lemma_kept_dot_dot, lemma_kept_sep_free,
    lemma_kept_shape, lemma_normalized_iff_no_issue, lemma_normalized_no_parent,
    lemma_normalized_shape, lemma_parent_issue, lemma_split_concat, lemma_split_shape,
    lemma_split_step, lemma_subrange_cut, normalize_error, parent_of, path_issues, sep_free, split,
    strip_result, validate_canonical_result, validate_parentless_result, validate_result, DOT,
    SLASH,
};
use crate::trivial::{ConvertError as Ec, CowNormpath, Error as E, Normpath, NormpathBuf};
use vstd::slice::slice_to_vec;

verus! {

/// What the scanner has seen since the start of the current component.
enum Seen {
    /// Something that makes the component a plain name.
    Nothing,
    /// Nothing yet: the component is still empty.
    Slash,
    /// A single `.`.
    SlashDot,
    /// Exactly `..`.
    SlashDotDot,
}

/// The scanner state that corresponds to a partial component.
spec fn seen_of(seg: Seq<u8>) -> Seen {
    if seg.len() == 0 {
        Seen::Slash
    } else if seg == dot() {
        Seen::SlashDot
    } else if seg == dot_dot() {
        Seen::SlashDotDot
    } else {
        Seen::Nothing
    }
}

proof fn lemma_seen_step(cur: Seq<u8>, b: u8)
    requires
        b != SLASH,
    ensures
        seen_of(cur.push(b)) == if b == DOT {
            match seen_of(cur) {
                Seen::Slash => Seen::SlashDot,
                Seen::SlashDot => Seen::SlashDotDot,
                _ => Seen::Nothing,
            }
        } else {
            Seen::Nothing
        },
{
    let c = cur.push(b);
    assert(c.len() == cur.len() + 1);
    assert(c[c.len() - 1] == b);
    if cur.len() == 0 {
        assert(c =~= seq![b]);
        if b == DOT {
            assert(c =~= dot());
        } else {
            assert(c[0] != dot()[0]);
        }
    } else if cur == dot() {
        if b == DOT {
            assert(c =~= dot_dot());
        } else {
            assert(c[1] != dot_dot()[1]);
        }
    } else if cur == dot_dot() {
        assert(c.len() == 3);
    } else {
        if c == dot_dot() {
            assert(cur =~= dot());
        }
    }
}

proof fn lemma_seen_issue(cur: Seq<u8>)
    ensures
        seen_of(cur) == Seen::Nothing ==> component_issue(cur) is None,
        seen_of(cur) == Seen::Slash ==> component_issue(cur) == Some(E::NotCanonical),
        seen_of(cur) == Seen::SlashDot ==> component_issue(cur) == Some(E::NotCanonical),
        seen_of(cur) == Seen::SlashDotDot ==> component_issue(cur) == Some(E::ContainsParent),
{
    lemma_dot_facts();
}

/// The components that a scan of `rem` inspects: none in an empty string.
spec fn scan(rem: Seq<u8>) -> Seq<Seq<u8>> {
    if rem.len() == 0 {
        Seq::empty()
    } else {
        components(rem)
    }
}

/// A resumable scan for the issues of a path.
struct Searcher<'a> {
    haystack: &'a [u8],
    pos: usize,
}

impl<'a> Searcher<'a> {
    spec fn wf(&self) -> bool {
        self.pos <= self.haystack@.len()
    }

    /// The part that is not scanned yet.
    spec fn rest(&self) -> Seq<u8> {
        self.haystack@.subrange(self.pos as int, self.haystack@.len() as int)
    }

    /// A scan of the components of `value` that validation inspects.
    fn new(value: &'a [u8]) -> (res: Self)
        ensures
            res.wf(),
            res.haystack@ == value@,
            scan(res.rest()) == checked_components(value@),
    {
        let pos = if value.len() == 0 || (value.len() == 1 && value[0] == SLASH) {
            value.len()
        } else {
            0
        };
        let res = Searcher { haystack: value, pos };
        assert(pos == 0 ==> res.rest() =~= value@);
        assert(value.len() == 1 && value[0] == SLASH ==> value@ =~= seq![SLASH]);
        res
    }
}

/// Finds the next issue of the scanned path.
///
/// On an issue, the scan stops at the end of the offending component, so
/// that the next call resumes right after it.
fn search_next(s: &mut Searcher) -> (res: Option<E>)
    requires
        old(s).wf(),
    ensures
        final(s).wf(),
        final(s).haystack@ == old(s).haystack@,
        match res {
            None => issues(scan(old(s).rest())) == Seq::<E>::empty() && final(s).pos
                == final(s).haystack@.len(),
            Some(e) => final(s).pos > old(s).pos && issues(scan(old(s).rest())) == seq![e]
                + issues(scan(final(s).rest())),
        },
{
    let ghost hay = s.haystack@;
    let ghost start = s.pos as int;
    let n = s.haystack.len();
    let mut byte: Option<u8> = if s.pos < n {
        Some(s.haystack[s.pos])
    } else {
        None
    };
    let mut seen = match byte {
        None => Seen::Nothing,
        Some(b) => if b == SLASH {
            Seen::Nothing
        } else {
            Seen::Slash
        },
    };
    let ghost t0: int = if start < n && hay[start] == SLASH {
        start + 1
    } else {
        start
    };
    proof {
        let r = hay.subrange(start, n as int);
        if start < n {
            assert(scan(r) == split(hay.subrange(t0, n as int))) by {
                if hay[start] == SLASH {
                    assert(r.drop_first() =~= hay.subrange(t0, n as int));
                } else {
                    assert(r =~= hay.subrange(t0, n as int));
                }
            }
        }
    }
    loop
        invariant
            s.haystack@ == hay,
            hay == old(s).haystack@,
            start == old(s).pos,
            n == hay.len(),
            0 <= start <= s.pos <= n,
            byte == if s.pos < n {
                Some(hay[s.pos as int])
            } else {
                None::<u8>
            },
            t0 == if start < n && hay[start] == SLASH {
                start + 1
            } else {
                start
            },
            start < n ==> scan(hay.subrange(start, n as int)) == split(hay.subrange(t0, n as int)),
            (start == n && seen == Seen::Nothing) || (s.pos == start && start < n && hay[start]
                == SLASH && seen == Seen::Nothing) || (start < n && t0 <= s.pos && seen
                == seen_of(split(hay.subrange(t0, s.pos as int)).last()) && issues(
                split(hay.subrange(t0, s.pos as int)).drop_last(),
            ) == Seq::<E>::empty()),
        decreases n - s.pos,
    {
        let ghost t = hay.subrange(t0, s.pos as int);
        proof {
            lemma_split_shape(t);
        }
        if byte.is_none() {
            {
                proof {
                    if start < n {
                        assert(hay.subrange(t0, n as int) =~= t);
                        lemma_seen_issue(split(t).last());
                        assert(split(t) =~= split(t).drop_last().push(split(t).last()));
                    }
                }
                match seen {
                    Seen::Slash | Seen::SlashDot => {
                        return Some(E::NotCanonical);
                    },
                    Seen::SlashDotDot => {
                        return Some(E::ContainsParent);
                    },
                    Seen::Nothing => {
                        return None;
                    },
                }
            }
        }
        let b = byte.unwrap();
        if b == SLASH {
            match seen {
                Seen::Nothing => {
                    seen = Seen::Slash;
                },
                _ => {
                    proof {
                        assert(t0 <= s.pos);
                        assert(hay[s.pos as int] == SLASH);
                        let whole = hay.subrange(t0, n as int);
                        let after = hay.subrange(s.pos + 1, n as int);
                        lemma_subrange_cut(hay, t0, s.pos as int, n as int);
                        lemma_split_concat(t, after);
                        lemma_issues_concat(split(t), split(after));
                        lemma_seen_issue(split(t).last());
                        assert(split(t) =~= split(t).drop_last().push(split(t).last()));
                        let nr = hay.subrange(s.pos as int, n as int);
                        assert(nr.drop_first() =~= after);
                    }
                    if let Seen::SlashDotDot = seen {
                        return Some(E::ContainsParent);
                    } else {
                        return Some(E::NotCanonical);
                    }
                },
            }
        } else if b == DOT {
            seen = match seen {
                Seen::Slash => Seen::SlashDot,
                Seen::SlashDot => Seen::SlashDotDot,
                _ => Seen::Nothing,
            };
        } else {
            seen = Seen::Nothing;
        }
        proof {
            if s.pos == start && start < n && hay[start] == SLASH && t0 == start + 1 {
                // the root has just been consumed
                let e = hay.subrange(t0, t0);
                assert(e =~= Seq::<u8>::empty());
                assert(split(e) =~= seq![Seq::<u8>::empty()]);
                assert(split(e).drop_last() =~= Seq::<Seq<u8>>::empty());
            } else {
                assert(t0 <= s.pos);
                assert(hay[s.pos as int] == b);
                let t2 = hay.subrange(t0, s.pos + 1);
                lemma_subrange_cut(hay, t0, s.pos as int, n as int);
                lemma_split_step(t, b);
                if b == SLASH {
                    lemma_seen_issue(split(t).last());
                    assert(split(t2).drop_last() =~= split(t));
                    assert(split(t) =~= split(t).drop_last().push(split(t).last()));
                } else {
                    lemma_seen_step(split(t).last(), b);
                    assert(split(t2).drop_last() =~= split(t).drop_last());
                }
            }
        }
        s.pos = s.pos + 1;
        byte = if s.pos < n {
            Some(s.haystack[s.pos])
        } else {
            None
        };
    }
}

/// Fails with the first issue of `path`, if any.
fn check_component_quick(path: &[u8]) -> (res: Result<(), E>)
    ensures
        res == if path_issues(path@).len() > 0 {
            Err::<(), E>(path_issues(path@)[0])
        } else {
            Ok(())
        },
{
    let mut s = Searcher::new(path);
    match search_next(&mut s) {
        Some(err) => Err(err),
        None => Ok(()),
    }
}

/// Checks all components of `path`, preferring a parent component over
/// non-canonicality.
fn check_component_parentless(path: &[u8]) -> (res: Result<(), E>)
    ensures
        res == if path_issues(path@).contains(E::ContainsParent) {
            Err::<(), E>(E::ContainsParent)
        } else if path_issues(path@).contains(E::NotCanonical) {
            Err(E::NotCanonical)
        } else {
            Ok(())
        },
{
    let mut s = Searcher::new(path);
    let mut not_canonical = false;
    let ghost mut found: Seq<E> = Seq::empty();
    proof {
        lemma_issues_kinds(checked_components(path@));
        assert(path_issues(path@) =~= found + issues(scan(s.rest())));
    }
    loop
        invariant
            s.wf(),
            s.haystack@ == path@,
            path_issues(path@) == found + issues(scan(s.rest())),
            not_canonical == found.contains(E::NotCanonical),
            !found.contains(E::ContainsParent),
            !path_issues(path@).contains(E::NotAbsolute),
        ensures
            path_issues(path@) == found,
            not_canonical == found.contains(E::NotCanonical),
            !found.contains(E::ContainsParent),
        decreases s.haystack@.len() - s.pos,
    {
        let ghost before = issues(scan(s.rest()));
        match search_next(&mut s) {
            None => {
                assert(path_issues(path@) =~= found);
                break ;
            },
            Some(err) => {
                let ghost prev = found;
                proof {
                    found = found.push(err);
                    assert(path_issues(path@) =~= found + issues(scan(s.rest())));
                    assert(path_issues(path@)[prev.len() as int] == err);
                }
                match err {
                    E::NotCanonical => {
                        not_canonical = true;
                        assert(found[prev.len() as int] == E::NotCanonical);
                    },
                    E::ContainsParent => {
                        assert(path_issues(path@)[prev.len() as int] == E::ContainsParent);
                        return Err(E::ContainsParent);
                    },
                    E::NotAbsolute => {
                        assert(path_issues(path@)[prev.len() as int] == E::NotAbsolute);
                    },
                }
                proof {
                    if prev.contains(E::NotCanonical) {
                        let k = choose|k: int| 0 <= k < prev.len() && prev[k] == E::NotCanonical;
                        assert(found[k] == E::NotCanonical);
                    }
                    if found.contains(E::NotCanonical) && err != E::NotCanonical {
                        let k = choose|k: int| 0 <= k < found.len() && found[k] == E::NotCanonical;
                        assert(prev[k] == E::NotCanonical);
                    }
                    if found.contains(E::ContainsParent) {
                        let k = choose|k: int| 0 <= k < found.len() && found[k] == E::ContainsParent;
                        assert(prev[k] == E::ContainsParent);
                    }
                }
            },
        }
    }
    if not_canonical {
        Err(E::NotCanonical)
    } else {
        Ok(())
    }
}

/// Checks all components of `path`, preferring non-canonicality over a
/// parent component.
fn check_component_canonical(path: &[u8]) -> (res: Result<(), E>)
    ensures
        res == if path_issues(path@).contains(E::NotCanonical) {
            Err::<(), E>(E::NotCanonical)
        } else if path_issues(path@).contains(E::ContainsParent) {
            Err(E::ContainsParent)
        } else {
            Ok(())
        },
{
    let mut s = Searcher::new(path);
    let mut has_parent = false;
    let ghost mut found: Seq<E> = Seq::empty();
    proof {
        lemma_issues_kinds(checked_components(path@));
        assert(path_issues(path@) =~= found + issues(scan(s.rest())));
    }
    loop
        invariant
            s.wf(),
            s.haystack@ == path@,
            path_issues(path@) == found + issues(scan(s.rest())),
            has_parent == found.contains(E::ContainsParent),
            !found.contains(E::NotCanonical),
            !path_issues(path@).contains(E::NotAbsolute),
        ensures
            path_issues(path@) == found,
            has_parent == found.contains(E::ContainsParent),
            !found.contains(E::NotCanonical),
        decreases s.haystack@.len() - s.pos,
    {
        match search_next(&mut s) {
            None => {
                assert(path_issues(path@) =~= found);
                break ;
            },
            Some(err) => {
                let ghost prev = found;
                proof {
                    found = found.push(err);
                    assert(path_issues(path@) =~= found + issues(scan(s.rest())));
                    assert(path_issues(path@)[prev.len() as int] == err);
                }
                match err {
                    E::NotCanonical => {
                        assert(path_issues(path@)[prev.len() as int] == E::NotCanonical);
                        return Err(E::NotCanonical);
                    },
                    E::ContainsParent => {
                        has_parent = true;
                        assert(found[prev.len() as int] == E::ContainsParent);
                    },
                    E::NotAbsolute => {
                        assert(path_issues(path@)[prev.len() as int] == E::NotAbsolute);
                    },
                }
                proof {
                    if prev.contains(E::ContainsParent) {
                        let k = choose|k: int| 0 <= k < prev.len() && prev[k] == E::ContainsParent;
                        assert(found[k] == E::ContainsParent);
                    }
                    if found.contains(E::ContainsParent) && err != E::ContainsParent {
                        let k = choose|k: int| 0 <= k < found.len() && found[k] == E::ContainsParent;
                        assert(prev[k] == E::ContainsParent);
                    }
                    if found.contains(E::NotCanonical) {
                        let k = choose|k: int| 0 <= k < found.len() && found[k] == E::NotCanonical;
                        assert(prev[k] == E::NotCanonical);
                    }
                }
            },
        }
    }
    if has_parent {
        Err(E::ContainsParent)
    } else {
        Ok(())
    }
}

/// Whether `path` is absolute, i.e. starts at the root.
fn is_absolute(path: &[u8]) -> (res: bool)
    ensures
        res == has_root(path@),
{
    path.len() > 0 && path[0] == SLASH
}

/// Validates that `path` is normalized, failing fast with the first error.
pub fn validate<'a>(path: &'a [u8]) -> (res: Result<Normpath<'a>, E>)
    ensures
        match res {
            Ok(p) => p@ == path@ && validate_result(path@) is Ok,
            Err(e) => validate_result(path@) == Err::<(), E>(e),
        },
{
    if !is_absolute(path) {
        return Err(E::NotAbsolute);
    }
    match check_component_quick(path) {
        Err(e) => Err(e),
        Ok(()) => {
            proof {
                lemma_normalized_iff_no_issue(path@);
            }
            Ok(Normpath::wrap(path))
        },
    }
}

/// Validates that `path` is normalized, reporting a parent component before
/// non-canonicality and that before a missing root.
fn validate_fully<'a>(path: &'a [u8]) -> (res: Result<Normpath<'a>, E>)
    ensures
        match res {
            Ok(p) => p@ == path@ && is_normalized(path@),
            Err(e) => e == if !has_root(path@) {
                E::NotAbsolute
            } else if path_issues(path@).contains(E::ContainsParent) {
                E::ContainsParent
            } else {
                E::NotCanonical
            },
        },
        res is Ok <==> is_normalized(path@),
{
    proof {
        lemma_normalized_iff_no_issue(path@);
        lemma_issues_kinds(checked_components(path@));
        issues_nonempty_kind(path@);
    }
    if !is_absolute(path) {
        return Err(E::NotAbsolute);
    }
    match check_component_parentless(path) {
        Err(e) => Err(e),
        Ok(()) => Ok(Normpath::wrap(path)),
    }
}

proof fn issues_nonempty_kind(p: Seq<u8>)
    ensures
        path_issues(p).len() > 0 ==> path_issues(p).contains(E::NotCanonical)
            || path_issues(p).contains(E::ContainsParent),
{
    lemma_issues_kinds(checked_components(p));
    if path_issues(p).len() > 0 {
        let e = path_issues(p)[0];
        assert(path_issues(p).contains(e));
    }
}

/// Validates that `path` is normalized, reporting non-canonicality first,
/// then a parent component, then a missing root.
pub fn validate_canonical<'a>(path: &'a [u8]) -> (res: Result<Normpath<'a>, E>)
    ensures
        match res {
            Ok(p) => p@ == path@ && validate_canonical_result(path@) is Ok,
            Err(e) => validate_canonical_result(path@) == Err::<(), E>(e),
        },
{
    match check_component_canonical(path) {
        Err(e) => return Err(e),
        Ok(()) => {},
    }
    if !is_absolute(path) {
        return Err(E::NotAbsolute);
    }
    proof {
        lemma_normalized_iff_no_issue(path@);
        issues_nonempty_kind(path@);
    }
    Ok(Normpath::wrap(path))
}

/// Validates that `path` is normalized, reporting a parent component first,
/// then non-canonicality, then a missing root.
pub fn validate_parentless<'a>(path: &'a [u8]) -> (res: Result<Normpath<'a>, E>)
    ensures
        match res {
            Ok(p) => p@ == path@ && validate_parentless_result(path@) is Ok,
            Err(e) => validate_parentless_result(path@) == Err::<(), E>(e),
        },
{
    match check_component_parentless(path) {
        Err(e) => return Err(e),
        Ok(()) => {},
    }
    if !is_absolute(path) {
        return Err(E::NotAbsolute);
    }
    proof {
        lemma_normalized_iff_no_issue(path@);
        issues_nonempty_kind(path@);
    }
    Ok(Normpath::wrap(path))
}

/// What normalization has written for a partial component: an empty or `.`
/// component is held back until it is known to be something else.
spec fn written(cur: Seq<u8>) -> Seq<u8> {
    if is_kept(cur) {
        cur
    } else {
        Seq::empty()
    }
}

/// The root, if any.
spec fn root_part(rooted: bool) -> Seq<u8> {
    if rooted {
        seq![SLASH]
    } else {
        Seq::empty()
    }
}

/// A separator after a non-empty list of components.
spec fn sep_after(ks: Seq<Seq<u8>>) -> Seq<u8> {
    if ks.len() > 0 {
        seq![SLASH]
    } else {
        Seq::empty()
    }
}

/// The output of normalization once the components `done` are complete and
/// `cur` is being read.
spec fn norm_out(rooted: bool, done: Seq<Seq<u8>>, cur: Seq<u8>) -> Seq<u8> {
    root_part(rooted) + join(kept(done)) + sep_after(kept(done)) + written(cur)
}

spec fn has_dot_dot(cs: Seq<Seq<u8>>) -> bool {
    exists|j: int| 0 <= j < cs.len() && #[trigger] cs[j] == dot_dot()
}

proof fn lemma_written_step(cur: Seq<u8>, b: u8)
    requires
        b != SLASH,
    ensures
        written(cur.push(b)) == match seen_of(cur) {
            Seen::Slash => if b == DOT {
                Seq::<u8>::empty()
            } else {
                seq![b]
            },
            Seen::SlashDot => seq![DOT, b],
            _ => written(cur).push(b),
        },
{
    lemma_dot_facts();
    let c = cur.push(b);
    if cur.len() == 0 {
        assert(c =~= seq![b]);
        if b == DOT {
            assert(c =~= dot());
        } else {
            assert(c[0] != dot()[0]);
        }
    } else {
        assert(c.len() >= 2);
        assert(c != dot());
        if cur == dot() {
            assert(c =~= seq![DOT, b]);
        }
    }
}

/// Completing the component `cur` of a path whose earlier components are
/// `done`.
proof fn lemma_norm_out_complete(rooted: bool, done: Seq<Seq<u8>>, cur: Seq<u8>)
    ensures
        kept(done.push(cur)) == if is_kept(cur) {
            kept(done).push(cur)
        } else {
            kept(done)
        },
        norm_out(rooted, done.push(cur), Seq::empty()) == if is_kept(cur) {
            norm_out(rooted, done, cur).push(SLASH)
        } else {
            norm_out(rooted, done, cur)
        },
        has_dot_dot(done.push(cur)) == (has_dot_dot(done) || cur == dot_dot()),
{
    let d2 = done.push(cur);
    assert(d2.drop_last() =~= done);
    assert(d2.last() == cur);
    let kd = kept(done);
    assert(written(Seq::empty()) =~= Seq::<u8>::empty());
    if is_kept(cur) {
        lemma_join_step(kd, cur);
        if kd.len() == 0 {
            assert(norm_out(rooted, d2, Seq::empty()) =~= norm_out(rooted, done, cur).push(SLASH));
        } else {
            assert(norm_out(rooted, d2, Seq::empty()) =~= norm_out(rooted, done, cur).push(SLASH));
        }
    } else {
        assert(norm_out(rooted, d2, Seq::empty()) =~= norm_out(rooted, done, cur));
    }
    if has_dot_dot(d2) {
        let j = choose|j: int| 0 <= j < d2.len() && #[trigger] d2[j] == dot_dot();
        if j < done.len() {
            assert(done[j] == d2[j]);
        }
    }
    if has_dot_dot(done) {
        let j = choose|j: int| 0 <= j < done.len() && #[trigger] done[j] == dot_dot();
        assert(d2[j] == done[j]);
    }
    if cur == dot_dot() {
        assert(d2[done.len() as int] == cur);
    }
}

/// Normalizes `path`, removing every non-canonical pattern, and reports a
/// parent component first, then a missing root.
///
/// The bytes are rewritten even when an error is reported.
fn normalize_in_place(path: &mut Vec<u8>) -> (res: Option<E>)
    ensures
        final(path)@ == canonical(old(path)@),
        res == normalize_error(old(path)@),
{
    let ghost p = path@;
    let n = path.len();
    let rooted = n > 0 && path[0] == SLASH;
    let ghost t0: int = if rooted {
        1
    } else {
        0
    };
    let mut out: Vec<u8> = Vec::new();
    let mut has_parent = false;
    let mut seen = if rooted {
        Seen::Nothing
    } else {
        Seen::Slash
    };
    proof {
        if !rooted {
            let e = p.subrange(0, 0);
            assert(e =~= Seq::<u8>::empty());
            assert(split(e) =~= seq![Seq::<u8>::empty()]);
            assert(split(e).drop_last() =~= Seq::<Seq<u8>>::empty());
            assert(kept(Seq::<Seq<u8>>::empty()) =~= Seq::<Seq<u8>>::empty());
            assert(norm_out(false, Seq::empty(), Seq::empty()) =~= Seq::<u8>::empty());
        }
    }
    let mut i: usize = 0;
    while i < n
        invariant
            path@ == p,
            n == p.len(),
            rooted == has_root(p),
            t0 == if rooted {
                1int
            } else {
                0int
            },
            i <= n,
            (rooted && i == 0 && seen == Seen::Nothing && out@ == Seq::<u8>::empty()
                && !has_parent) || (t0 <= i && seen == seen_of(
                split(p.subrange(t0, i as int)).last(),
            ) && out@ == norm_out(
                rooted,
                split(p.subrange(t0, i as int)).drop_last(),
                split(p.subrange(t0, i as int)).last(),
            ) && has_parent == has_dot_dot(split(p.subrange(t0, i as int)).drop_last())),
        decreases n - i,
    {
        let byte = path[i];
        let ghost t = p.subrange(t0, i as int);
        let ghost first = rooted && i == 0;
        proof {
            if !first {
                lemma_split_shape(t);
                lemma_subrange_cut(p, t0, i as int, n as int);
                lemma_split_step(t, byte);
                assert(split(t) =~= split(t).drop_last().push(split(t).last()));
                lemma_norm_out_complete(rooted, split(t).drop_last(), split(t).last());
            } else {
                let e = p.subrange(1, 1);
                assert(e =~= Seq::<u8>::empty());
                assert(split(e) =~= seq![Seq::<u8>::empty()]);
                assert(split(e).drop_last() =~= Seq::<Seq<u8>>::empty());
                assert(kept(Seq::<Seq<u8>>::empty()) =~= Seq::<Seq<u8>>::empty());
                assert(norm_out(true, Seq::empty(), Seq::empty()) =~= seq![SLASH]);
                assert(!has_dot_dot(Seq::<Seq<u8>>::empty()));
            }
        }
        if byte == SLASH {
            match seen {
                Seen::Nothing => {
                    seen = Seen::Slash;
                    out.push(SLASH);
                },
                Seen::Slash | Seen::SlashDot => {
                    seen = Seen::Slash;
                },
                Seen::SlashDotDot => {
                    seen = Seen::Slash;
                    has_parent = true;
                    out.push(SLASH);
                },
            }
            proof {
                if !first {
                    lemma_seen_issue(split(t).last());
                    lemma_dot_facts();
                    let t2 = p.subrange(t0, i + 1);
                    assert(split(t2).drop_last() =~= split(t));
                    assert(split(t2).last() =~= Seq::<u8>::empty());
                }
            }
        } else {
            proof {
                lemma_seen_step(split(t).last(), byte);
                lemma_written_step(split(t).last(), byte);
            }
            match seen {
                Seen::Slash => {
                    if byte == DOT {
                        seen = Seen::SlashDot;
                    } else {
                        seen = Seen::Nothing;
                        out.push(byte);
                    }
                },
                Seen::SlashDot => {
                    seen = if byte == DOT {
                        Seen::SlashDotDot
                    } else {
                        Seen::Nothing
                    };
                    out.push(DOT);  // compensate
                    out.push(byte);
                },
                _ => {
                    seen = Seen::Nothing;
                    out.push(byte);
                },
            }
            proof {
                let t2 = p.subrange(t0, i + 1);
                let segs = split(t);
                assert(split(t2).drop_last() =~= segs.drop_last());
                assert(split(t2).last() =~= segs.last().push(byte));
                assert(out@ =~= norm_out(rooted, segs.drop_last(), segs.last().push(byte)));
            }
        }
        i = i + 1;
    }
    let ghost segs = split(p.subrange(t0, n as int));
    let ghost done = segs.drop_last();
    let ghost cur = segs.last();
    proof {
        if rooted {
            assert(p.drop_first() =~= p.subrange(t0, n as int));
        } else {
            assert(p =~= p.subrange(t0, n as int));
        }
        assert(components(p) == segs);
        lemma_split_shape(p.subrange(t0, n as int));
        assert(segs =~= done.push(cur));
        lemma_norm_out_complete(rooted, done, cur);
        lemma_kept_shape(done);
        lemma_kept_sep_free(done);
        lemma_join_no_root(kept(done));
        lemma_seen_issue(cur);
        lemma_dot_facts();
        lemma_kept_dot_dot(segs);
    }
    match seen {
        Seen::SlashDot | Seen::Slash => {
            if out.len() > 1 {
                let l = out.len() - 1;
                out.truncate(l);
            }
        },
        Seen::SlashDotDot => {
            has_parent = true;
        },
        _ => {},
    }
    proof {
        lemma_join_step(kept(done), cur);
        assert(out@ =~= root_part(rooted) + join(kept(segs)));
        assert(has_parent == has_dot_dot(segs));
    }
    proof {
        assert(out@ =~= canonical(p));
        lemma_canonical_components(p);
    }
    let err = if has_parent {
        Some(E::ContainsParent)
    } else if !(out.len() > 0 && out[0] == SLASH) {
        Some(E::NotAbsolute)
    } else {
        None
    };
    *path = out;
    err
}

/// Normalizes `path` in place, removing every non-canonical pattern even
/// when an error is reported.
pub fn normalize(path: &mut Vec<u8>) -> (res: Result<(), E>)
    ensures
        final(path)@ == canonical(old(path)@),
        match res {
            Ok(()) => normalize_error(old(path)@) is None,
            Err(e) => normalize_error(old(path)@) == Some(e),
        },
{
    match normalize_in_place(path) {
        None => Ok(()),
        Some(e) => Err(e),
    }
}

/// Borrows `path` if it is normalized, otherwise normalizes a copy of it.
pub fn normalize_new_cow<'a>(path: &'a [u8]) -> (res: Result<CowNormpath<'a>, E>)
    ensures
        match res {
            Ok(c) => c@ == canonical(path@) && normalize_error(path@) is None && ((c is Borrowed)
                == is_normalized(path@)),
            Err(e) => normalize_error(path@) is Some && e == if !has_root(path@) {
                E::NotAbsolute
            } else {
                E::ContainsParent
            },
        },
{
    proof {
        lemma_parent_issue(path@);
        if is_normalized(path@) {
            lemma_canonical_of_normalized(path@);
            lemma_normalized_no_parent(path@);
        }
    }
    match validate_fully(path) {
        Ok(p) => Ok(CowNormpath::Borrowed(p)),
        Err(E::NotCanonical) => {
            let mut buf = slice_to_vec(path);
            let _ = normalize(&mut buf);
            proof {
                lemma_canonical_is_normalized(path@);
            }
            Ok(CowNormpath::Owned(NormpathBuf::wrap(buf)))
        },
        Err(e) => Err(e),
    }
}

/// Takes `path` if it is normalized, otherwise normalizes it; on failure the
/// input is handed back untouched.
pub fn normalize_new_buf(path: Vec<u8>) -> (res: Result<NormpathBuf, Ec<Vec<u8>>>)
    ensures
        match res {
            Ok(b) => b@ == canonical(path@) && normalize_error(path@) is None,
            Err(ec) => ec.value@ == path@ && normalize_error(path@) is Some && ec.error == if !has_root(
                path@,
            ) {
                E::NotAbsolute
            } else {
                E::ContainsParent
            },
        },
{
    proof {
        lemma_parent_issue(path@);
        if is_normalized(path@) {
            lemma_canonical_of_normalized(path@);
            lemma_normalized_no_parent(path@);
        }
    }
    let status = match validate_fully(path.as_slice()) {
        Ok(_) => Ok(()),
        Err(e) => Err(e),
    };
    match status {
        Ok(()) => Ok(NormpathBuf::wrap(path)),
        Err(E::NotCanonical) => {
            let ghost orig = path@;
            let mut path = path;
            let _ = normalize(&mut path);
            proof {
                lemma_canonical_is_normalized(orig);
            }
            Ok(NormpathBuf::wrap(path))
        },
        Err(e) => Err(Ec::new(e, path)),
    }
}

/// Appends `path` to `buf` as `PathBuf::push` does on Unix: an absolute
/// `path` replaces `buf`.
fn pathbuf_push(buf: &mut Vec<u8>, path: &[u8])
    ensures
        final(buf)@ == joined(old(buf)@, path@),
{
    if is_absolute(path) {
        buf.clear();
    } else if buf.len() > 0 && buf[buf.len() - 1] != SLASH {
        buf.push(SLASH);
    }
    let ghost base = buf@;
    let n = path.len();
    let mut i: usize = 0;
    while i < n
        invariant
            i <= n,
            n == path@.len(),
            buf@ == base + path@.subrange(0, i as int),
        decreases n - i,
    {
        buf.push(path[i]);
        i = i + 1;
        assert(buf@ =~= base + path@.subrange(0, i as int));
    }
    assert(path@.subrange(0, n as int) =~= path@);
    assert(buf@ =~= joined(old(buf)@, path@));
}

/// Extends the normalized `buf` with `path`, normalizing the result.
///
/// Fails, leaving `buf` untouched, if `path` has a parent component.
pub fn push(buf: &mut Vec<u8>, path: &[u8]) -> (res: Result<(), E>)
    requires
        is_normalized(old(buf)@),
    ensures
        is_normalized(final(buf)@),
        match res {
            Ok(()) => final(buf)@ == canonical(joined(old(buf)@, path@)),
            Err(e) => e == E::ContainsParent && final(buf)@ == old(buf)@,
        },
        res is Err <==> contains_parent(path@),
{
    proof {
        lemma_parent_issue(path@);
        lemma_issues_kinds(checked_components(path@));
        issues_nonempty_kind(path@);
    }
    let canonical = match check_component_parentless(path) {
        Ok(_) => !(path.len() == 0 || (path.len() == 1 && path[0] == DOT)),
        Err(E::NotCanonical) => false,
        Err(e) => return Err(e),
    };
    let ghost orig = buf@;
    proof {
        lemma_joined_no_parent(orig, path@);
    }
    if canonical {
        pathbuf_push(buf, path);
        proof {
            if path@ == dot() {
                assert(path@.len() == 1 && path@[0] == DOT);
            }
            lemma_joined_normalized(orig, path@);
            lemma_canonical_of_normalized(buf@);
        }
    } else {
        pathbuf_push(buf, path);
        let _ = normalize_in_place(buf);
        proof {
            lemma_canonical_is_normalized(joined(orig, path@));
        }
    }
    Ok(())
}

/// The part of `path` after `base`, compared byte by byte.
pub fn strip<'a>(path: &'a [u8], base: &[u8]) -> (res: Option<&'a [u8]>)
    ensures
        match res {
            Some(r) => strip_result(path@, base@) == Some(r@),
            None => strip_result(path@, base@) is None,
        },
{
    let n = base.len();
    if n > path.len() {
        return None;
    }
    let mut i: usize = 0;
    while i < n
        invariant
            i <= n,
            n == base@.len(),
            n <= path@.len(),
            path@.subrange(0, i as int) == base@.subrange(0, i as int),
        decreases n - i,
    {
        if path[i] != base[i] {
            assert(path@.subrange(0, n as int)[i as int] != base@[i as int]);
            return None;
        }
        i = i + 1;
        assert(path@.subrange(0, i as int) =~= base@.subrange(0, i as int));
    }
    assert(base@.subrange(0, n as int) =~= base@);
    if path.len() == n {
        Some(&path[0..0])
    } else if n > 0 && base[n - 1] == SLASH {
        Some(&path[n..path.len()])
    } else if path[n] == SLASH {
        Some(&path[n + 1..path.len()])
    } else {
        None
    }
}

/// The parent of the normalized `path`, or nothing for the root.
pub fn parent(path: &[u8]) -> (res: Option<&[u8]>)
    requires
        is_normalized(path@),
    ensures
        match res {
            Some(r) => parent_of(path@) == Some(r@) && r@.len() < path@.len() && r@ == path@.subrange(
                0,
                r@.len() as int,
            ),
            None => parent_of(path@) is None,
        },
{
    let n = path.len();
    if n <= 1 {
        return None;
    }
    let ghost cs = components(path@);
    let ghost init = cs.drop_last();
    let ghost m: int = if init.len() == 0 {
        0
    } else {
        1 + join(init).len() as int
    };
    proof {
        lemma_normalized_shape(path@);
        assert(cs =~= init.push(cs.last()));
        lemma_join_step(init, cs.last());
        assert(sep_free(cs[cs.len() - 1]));
        assert(path@[m] == SLASH);
        assert forall|j: int| m < j < n implies path@[j] != SLASH by {
            assert(path@[j] == cs.last()[j - m - 1]);
        }
    }
    let mut k = n - 1;
    while k > 0 && path[k] != SLASH
        invariant
            0 <= k < n,
            n == path@.len(),
            forall|j: int| k < j < n ==> path@[j] != SLASH,
        decreases k,
    {
        k = k - 1;
    }
    assert(k == m);
    if k == 0 {
        assert(path@.subrange(0, 1) =~= seq![SLASH] + join(init));
        Some(&path[0..1])
    } else {
        assert(path@.subrange(0, k as int) =~= seq![SLASH] + join(init));
        Some(&path[0..k])
    }
}

} // verus!
