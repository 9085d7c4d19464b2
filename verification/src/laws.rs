//! Properties that relate the operations on paths to each other, for the
//! Unix and the Windows path syntax.
use vstd::prelude::*;

use crate::imp::unix_model::{
    canonical, checked_components, component_issue, dot, issues, DOT, components, contains_parent, has_root, is_normal_component,
    is_normalized, join, joined, lemma_canonical_idempotent, lemma_canonical_is_normalized,
    lemma_canonical_of_normalized, lemma_issues_kinds, lemma_joined_components,
    lemma_joined_no_parent, lemma_kept_all, lemma_normalized_shape, lemma_parent_issue,
    lemma_parent_normalized, lemma_split_join, lemma_split_sep_free, lemma_validate_results,
    normalize_error, parent_of, sep_free, strip_result, validate_canonical_result,
    validate_parentless_result, validate_result, SLASH,
};
use crate::imp::windows_model::{
    is_sep, is_verbatim, lemma_split_by_len, lemma_split_by_step, lemma_win_canonical_valid,
    lemma_win_parent_agrees, lemma_win_valid_is_canonical, prefix_error, prefix_kind, split_by,
    vfold, vstep, win_absolute, win_canonical, win_has_prefix, win_joined, win_normalize_error,
    win_path_issues, win_strip_result, win_validate_canonical_result, win_validate_fully_result,
    win_validate_parentless_result, win_validate_result, win_verbatim_joined, PrefixKind, BACKSLASH,
    COLON,
};
use crate::trivial::Error;

verus! {

/// The three validations accept exactly the same paths: the normalized
/// ones. They differ only in which error they report.
pub proof fn law_validations_agree(p: Seq<u8>)
    ensures
        validate_result(p) is Ok <==> is_normalized(p),
        validate_canonical_result(p) is Ok <==> is_normalized(p),
        validate_parentless_result(p) is Ok <==> is_normalized(p),
{
    lemma_validate_results(p);
}

/// Normalizing twice is normalizing once.
pub proof fn law_normalize_idempotent(p: Seq<u8>)
    ensures
        canonical(canonical(p)) == canonical(p),
{
    lemma_canonical_idempotent(p);
}

/// A normalized path is left as it is by normalization.
pub proof fn law_normalized_is_fixed(p: Seq<u8>)
    requires
        is_normalized(p),
    ensures
        canonical(p) == p,
        normalize_error(p) is None,
{
    lemma_canonical_of_normalized(p);
    lemma_validate_results(p);
    lemma_parent_issue(p);
}

/// Normalization succeeds exactly on the absolute paths whose only fault,
/// if any, is non-canonicality, and then yields a normalized path.
pub proof fn law_normalize_repairs_canonicality(p: Seq<u8>)
    ensures
        normalize_error(p) is None <==> (has_root(p) && (validate_parentless_result(p) is Ok
            || validate_parentless_result(p) == Err::<(), Error>(Error::NotCanonical))),
        normalize_error(p) is None ==> is_normalized(canonical(p)),
        normalize_error(p) != Some(Error::NotCanonical),
{
    lemma_parent_issue(p);
    lemma_issues_kinds(checked_components(p));
    if normalize_error(p) is None {
        lemma_canonical_is_normalized(p);
    }
}

/// Pushing onto a normalized path a path without parent components gives a
/// normalized path.
pub proof fn law_push_keeps_normalized(buf: Seq<u8>, path: Seq<u8>)
    requires
        is_normalized(buf),
        !contains_parent(path),
    ensures
        is_normalized(canonical(joined(buf, path))),
{
    lemma_joined_no_parent(buf, path);
    lemma_canonical_is_normalized(joined(buf, path));
}

/// Pushing an absolute path replaces what was there.
pub proof fn law_push_absolute_replaces(buf: Seq<u8>, path: Seq<u8>)
    requires
        has_root(path),
    ensures
        canonical(joined(buf, path)) == canonical(path),
{
}

/// Pushing a single plain name and then taking the parent gives back the
/// path pushed onto: `pop` undoes such a `push`.
pub proof fn law_pop_undoes_push(buf: Seq<u8>, name: Seq<u8>)
    requires
        is_normalized(buf),
        is_normal_component(name),
        sep_free(name),
    ensures
        canonical(joined(buf, name)) == (if buf.len() == 1 {
            buf + name
        } else {
            buf + seq![SLASH] + name
        }),
        parent_of(canonical(joined(buf, name))) == Some(buf),
{
    let j = joined(buf, name);
    lemma_split_sep_free(name);
    assert(name[0] != SLASH);
    lemma_joined_components(buf, name);
    lemma_normalized_shape(buf);
    let cs = if buf.len() == 1 {
        seq![name]
    } else {
        components(buf) + seq![name]
    };
    assert(components(j) == cs);
    assert forall|i: int| 0 <= i < cs.len() implies #[trigger] is_normal_component(cs[i])
        && sep_free(cs[i]) by {
        if buf.len() > 1 && i < components(buf).len() {
            assert(cs[i] == components(buf)[i]);
        }
    }
    assert forall|i: int| 0 <= i < cs.len() implies #[trigger] crate::imp::unix_model::is_kept(
        cs[i],
    ) by {
        assert(is_normal_component(cs[i]));
    }
    lemma_kept_all(cs);
    if buf.len() == 1 {
        assert(buf + name =~= seq![SLASH] + join(cs));
        assert(j =~= buf + name);
    } else {
        crate::imp::unix_model::lemma_join_concat(components(buf), seq![name]);
        assert(join(seq![name]) == name);
        assert(buf + seq![SLASH] + name =~= seq![SLASH] + join(cs));
        assert(buf.last() != SLASH) by {
            let bc = components(buf);
            assert(sep_free(bc[bc.len() - 1]));
            assert(is_normal_component(bc[bc.len() - 1]));
            if bc.len() > 1 {
                assert(join(bc) == join(bc.drop_last()) + seq![SLASH] + bc.last());
            }
        }
    }
    let c = canonical(j);
    assert(c.len() > 1);
    lemma_split_join(cs);
    assert(components(c) =~= cs) by {
        assert(c.drop_first() =~= join(cs));
    }
    if buf.len() == 1 {
        assert(cs.drop_last() =~= Seq::<Seq<u8>>::empty());
        assert(seq![SLASH] + join(Seq::<Seq<u8>>::empty()) =~= buf);
    } else {
        assert(cs.drop_last() =~= components(buf));
    }
}

/// The parent of a normalized path other than the root is normalized and
/// shorter; the root has none.
pub proof fn law_parent_shrinks(p: Seq<u8>)
    requires
        is_normalized(p),
    ensures
        parent_of(p) is None <==> p.len() == 1,
        parent_of(p) matches Some(q) ==> is_normalized(q) && q.len() < p.len(),
{
    if p.len() > 1 {
        lemma_parent_normalized(p);
        lemma_normalized_shape(p);
        let cs = components(p);
        if cs.len() > 1 {
            assert(join(cs) == join(cs.drop_last()) + seq![SLASH] + cs.last());
        } else {
            assert(cs.drop_last() =~= Seq::<Seq<u8>>::empty());
            assert(join(cs) == cs[0]);
            assert(is_normal_component(cs[0]));
        }
    }
}

/// What `quick_strip_prefix` returns, joined back onto `base` (with a
/// separator between them unless `base` ends with one), is the path that was
/// stripped; a relative rest joined onto `base` as `push` does gives it back.
pub proof fn law_strip_rejoins(path: Seq<u8>, base: Seq<u8>)
    requires
        strip_result(path, base) is Some,
    ensures
        path == if path.len() == base.len() {
            base
        } else if base.len() > 0 && base.last() == SLASH {
            base + strip_result(path, base)->0
        } else {
            base + seq![SLASH] + strip_result(path, base)->0
        },
        strip_result(path, base)->0.len() > 0 && !has_root(strip_result(path, base)->0)
            && base.len() > 0 ==> joined(base, strip_result(path, base)->0) == path,
        base.len() <= path.len() && path.subrange(0, base.len() as int) == base && (path.len()
            == base.len() || (base.len() > 0 && base.last() == SLASH) || path[base.len() as int]
            == SLASH) ==> strip_result(path, base) is Some,
{
    let n = base.len() as int;
    if path.len() == base.len() {
        assert(path =~= path.subrange(0, n));
    } else if base.len() > 0 && base.last() == SLASH {
        assert(path =~= path.subrange(0, n) + path.subrange(n, path.len() as int));
    } else {
        assert(path =~= path.subrange(0, n) + seq![SLASH] + path.subrange(n + 1, path.len() as int));
    }
}

/// On Windows too, the validations accept exactly the same paths, whichever
/// error they put first.
pub proof fn law_win_validations_agree(p: Seq<u8>)
    ensures
        win_validate_result(p) is Ok <==> win_validate_canonical_result(p) is Ok,
        win_validate_result(p) is Ok <==> win_validate_parentless_result(p) is Ok,
        win_validate_result(p) is Ok <==> win_validate_fully_result(p) is Ok,
{
    if !is_verbatim(p) {
        lemma_win_parent_agrees(p);
        let r = win_path_issues(p);
        if r.len() > 0 {
            assert(r.contains(r[0]));
        }
        if r.contains(Error::NotCanonical) || r.contains(Error::ContainsParent) {
            assert(r.len() > 0);
        }
    }
}

/// On Windows, a path that validation accepts is left as it is by
/// normalization.
pub proof fn law_win_normalized_is_fixed(p: Seq<u8>)
    requires
        p.len() <= usize::MAX,
        win_validate_result(p) is Ok,
    ensures
        win_canonical(p) == p,
        win_normalize_error(p) is None,
{
    lemma_win_valid_is_canonical(p);
}

/// On Windows, a `..` is a hard error exactly when it escapes the base: the
/// validation that puts parent components first reports one exactly when
/// normalization fails on one. Normalization never reports
/// non-canonicality.
pub proof fn law_win_parent_errors_agree(p: Seq<u8>)
    ensures
        win_validate_parentless_result(p) == Err::<(), Error>(Error::ContainsParent)
            <==> win_normalize_error(p) == Some(Error::ContainsParent),
        win_normalize_error(p) != Some(Error::NotCanonical),
{
    if !is_verbatim(p) {
        lemma_win_parent_agrees(p);
    }
}

/// On Windows, normalization that reports nothing yields a path that
/// validation accepts.
pub proof fn law_win_normalize_repairs(p: Seq<u8>)
    requires
        p.len() <= usize::MAX,
        win_canonical(p).len() <= usize::MAX,
        win_normalize_error(p) is None,
    ensures
        win_validate_result(win_canonical(p)) is Ok,
{
    lemma_win_canonical_valid(p);
}

/// On Windows, normalizing again what normalization yielded without error
/// changes nothing.
pub proof fn law_win_normalize_idempotent(p: Seq<u8>)
    requires
        p.len() <= usize::MAX,
        win_canonical(p).len() <= usize::MAX,
        win_normalize_error(p) is None,
    ensures
        win_canonical(win_canonical(p)) == win_canonical(p),
        win_normalize_error(win_canonical(p)) is None,
{
    lemma_win_canonical_valid(p);
    lemma_win_valid_is_canonical(win_canonical(p));
}

/// On Windows, pushing onto a normalized path that is not verbatim, when it
/// succeeds, gives a normalized path again.
pub proof fn law_win_push_keeps_normalized(buf: Seq<u8>, path: Seq<u8>)
    requires
        win_validate_result(buf) is Ok,
        !is_verbatim(buf),
        win_joined(buf, path).len() <= usize::MAX,
        win_canonical(win_joined(buf, path)).len() <= usize::MAX,
        win_normalize_error(win_joined(buf, path)) is None,
    ensures
        win_validate_result(win_canonical(win_joined(buf, path))) is Ok,
{
    lemma_win_canonical_valid(win_joined(buf, path));
}

/// On Windows, every path that validation accepts starts with a prefix, so
/// `windows_prefix` and `windows_split_components` always find one in it.
pub proof fn law_win_valid_has_prefix(p: Seq<u8>)
    requires
        win_validate_result(p) is Ok,
    ensures
        win_has_prefix(p),
{
}

/// The issues of `cs` are empty exactly when no component has one, and
/// otherwise start with the issue of the first faulty component.
proof fn lemma_first_issue(cs: Seq<Seq<u8>>)
    ensures
        (issues(cs).len() == 0) <==> (forall|i: int| 0 <= i < cs.len() ==> #[trigger] component_issue(cs[i]) is None),
        forall|i: int|
            0 <= i < cs.len() && #[trigger] component_issue(cs[i]) is Some && (forall|j: int|
                0 <= j < i ==> #[trigger] component_issue(cs[j]) is None) ==> issues(cs).len() > 0
                && issues(cs)[0] == component_issue(cs[i])->0,
    decreases cs.len(),
{
    if cs.len() > 0 {
        let q = cs.drop_last();
        lemma_first_issue(q);
        assert forall|i: int| 0 <= i < q.len() implies q[i] == cs[i] by {}
        let n = cs.len() - 1;
        if issues(q).len() == 0 {
            assert forall|i: int| 0 <= i < cs.len() && component_issue(cs[i]) is Some implies i == n by {
                if i < n {
                    assert(component_issue(q[i]) is Some);
                }
            }
        } else {
            assert(exists|i: int| 0 <= i < q.len() && #[trigger] component_issue(q[i]) is Some);
        }
        assert forall|i: int|
            0 <= i < cs.len() && #[trigger] component_issue(cs[i]) is Some && (forall|j: int|
                0 <= j < i ==> #[trigger] component_issue(cs[j]) is None) implies issues(cs).len() > 0
            && issues(cs)[0] == component_issue(cs[i])->0 by {
            if i < n {
                assert(component_issue(q[i]) is Some);
                assert forall|j: int| 0 <= j < i implies #[trigger] component_issue(q[j]) is None by {
                    assert(q[j] == cs[j]);
                    assert(component_issue(cs[j]) is None);
                }
                assert(issues(q).len() > 0 && issues(q)[0] == component_issue(cs[i])->0);
            } else {
                assert forall|j: int| 0 <= j < q.len() implies #[trigger] component_issue(q[j]) is None by {
                    assert(q[j] == cs[j]);
                    assert(component_issue(cs[j]) is None);
                }
                assert(issues(q).len() == 0);
            }
        }
    }
}

/// Fail-fast validation of an absolute Unix path accepts it exactly when no
/// component has an issue, and otherwise reports the issue of the first
/// faulty component: a `..` met before any non-canonical pattern is a parent
/// error, and the other way round.
pub proof fn law_validate_first_fault(p: Seq<u8>)
    requires
        has_root(p),
    ensures
        validate_result(p) is Ok <==> (forall|i: int|
            0 <= i < checked_components(p).len() ==> #[trigger] component_issue(
                checked_components(p)[i],
            ) is None),
        forall|i: int|
            0 <= i < checked_components(p).len() && #[trigger] component_issue(
                checked_components(p)[i],
            ) is Some && (forall|j: int|
                0 <= j < i ==> #[trigger] component_issue(checked_components(p)[j]) is None)
                ==> validate_result(p) == Err::<(), Error>(
                component_issue(checked_components(p)[i])->0,
            ),
{
    lemma_first_issue(checked_components(p));
}

/// On Windows, what the byte-wise strip returns is the rest of `path` after
/// `base`: `base` is a byte prefix of `path`, followed by the rest directly
/// when `base` ends with a separator and otherwise by a `\`; and a `base` that
/// is a byte prefix ending there is always stripped.
pub proof fn law_win_strip_rejoins(path: Seq<u8>, base: Seq<u8>)
    ensures
        win_strip_result(path, base) is Some ==> base.len() <= path.len() && path.subrange(
            0,
            base.len() as int,
        ) == base,
        win_strip_result(path, base) is Some ==> path == if path.len() == base.len() {
            base
        } else if base.len() > 0 && is_sep(base.last()) {
            base + win_strip_result(path, base)->0
        } else {
            base + seq![BACKSLASH] + win_strip_result(path, base)->0
        },
        base.len() <= path.len() && path.subrange(0, base.len() as int) == base && (path.len()
            == base.len() || (base.len() > 0 && is_sep(base.last())) || path[base.len() as int]
            == BACKSLASH) ==> win_strip_result(path, base) is Some,
{
    let n = base.len() as int;
    if win_strip_result(path, base) is Some {
        if path.len() == base.len() {
            assert(path =~= path.subrange(0, n));
        } else if base.len() > 0 && is_sep(base.last()) {
            assert(path =~= path.subrange(0, n) + path.subrange(n, path.len() as int));
        } else {
            assert(path =~= path.subrange(0, n) + seq![BACKSLASH] + path.subrange(n + 1, path.len() as int));
        }
    }
}

/// On Windows, fail-fast validation of an absolute path that is not
/// verbatim reports a fault of its prefix before anything in the rest of
/// the path.
pub proof fn law_win_prefix_fault_first(p: Seq<u8>)
    requires
        !is_verbatim(p),
        win_absolute(p),
        prefix_error(p) is Some,
    ensures
        win_validate_result(p) == Err::<(), Error>(prefix_error(p)->0),
{
}

/// On Windows, a drive path with a root and a lowercase drive letter fails
/// fast validation as not canonical, whatever follows the root.
pub proof fn law_win_lowercase_drive_first(p: Seq<u8>)
    requires
        p.len() >= 3,
        97 <= p[0] <= 122,
        p[1] == COLON,
        is_sep(p[2]),
    ensures
        win_validate_result(p) == Err::<(), Error>(Error::NotCanonical),
{
    assert(!is_verbatim(p));
}

/// On Windows, a verbatim path with an ASCII letter of either case and a
/// colon after `\\?\`, followed by nothing or a `\`, has a verbatim drive
/// prefix, and conversely.
pub proof fn law_verbatim_disk_kind(p: Seq<u8>)
    requires
        is_verbatim(p),
    ensures
        prefix_kind(p) == Some(PrefixKind::VerbatimDisk) <==> (p.len() >= 6 && ((65 <= p[4] <= 90)
            || (97 <= p[4] <= 122)) && p[5] == COLON && (p.len() == 6 || p[6] == BACKSLASH)),
{
}

/// The pieces of a path that starts with `.\` are `.` and the pieces of the
/// rest.
proof fn lemma_split_dot_first(p: Seq<u8>)
    ensures
        split_by(seq![DOT, BACKSLASH] + p, false) == seq![dot()] + split_by(p, false),
    decreases p.len(),
{
    let pre = seq![DOT, BACKSLASH];
    if p.len() == 0 {
        let e = Seq::<u8>::empty();
        assert(pre + p =~= pre);
        assert(split_by(e, false) =~= seq![e]);
        lemma_split_by_step(e, DOT, false);
        assert(e.push(DOT) =~= seq![DOT]);
        assert(seq![e].update(0, e.push(DOT)) =~= seq![dot()]);
        lemma_split_by_step(seq![DOT], BACKSLASH, false);
        assert(seq![DOT].push(BACKSLASH) =~= pre);
        assert(split_by(pre, false) =~= seq![dot(), e]);
        assert(seq![dot()] + split_by(p, false) =~= seq![dot(), e]);
    } else {
        let q = p.drop_last();
        let c = p.last();
        lemma_split_dot_first(q);
        assert(pre + p =~= (pre + q).push(c));
        lemma_split_by_step(pre + q, c, false);
        lemma_split_by_step(q, c, false);
        lemma_split_by_len(q, false);
        assert(q.push(c) =~= p);
        let a = split_by(q, false);
        if !(c == BACKSLASH || c == SLASH) {
            assert((seq![dot()] + a).update(a.len() as int, (seq![dot()] + a).last().push(c))
                =~= seq![dot()] + a.update(a.len() - 1, a.last().push(c)));
        } else {
            assert((seq![dot()] + a).push(Seq::empty()) =~= seq![dot()] + a.push(Seq::empty()));
        }
    }
}

/// Resolving a leading `.` piece changes nothing.
proof fn lemma_vfold_dot_first(start: Seq<Seq<u8>>, ks: Seq<Seq<u8>>)
    ensures
        vfold(start, seq![dot()] + ks, true) == vfold(start, ks, true),
    decreases ks.len(),
{
    if ks.len() == 0 {
        assert(seq![dot()] + ks =~= seq![dot()]);
        assert(seq![dot()].drop_last() =~= Seq::<Seq<u8>>::empty());
        assert(vfold(start, Seq::<Seq<u8>>::empty(), true) == start);
        assert(vfold(start, seq![dot()], true) == vstep(start, dot(), true));
    } else {
        lemma_vfold_dot_first(start, ks.drop_last());
        assert((seq![dot()] + ks).drop_last() =~= seq![dot()] + ks.drop_last());
    }
}

/// On Windows, pushing onto a verbatim path drops `.` components of what is
/// pushed, as `PathBuf::push` does: pushing `.\` followed by a relative path
/// gives what pushing that path gives.
pub proof fn law_win_verbatim_push_drops_dot(buf: Seq<u8>, path: Seq<u8>)
    requires
        is_verbatim(buf),
        path.len() > 0,
        !win_has_prefix(path),
        !is_sep(path[0]),
    ensures
        win_verbatim_joined(buf, seq![DOT, BACKSLASH] + path) == win_verbatim_joined(buf, path),
{
    let dp = seq![DOT, BACKSLASH] + path;
    assert(dp[0] == DOT);
    assert(!win_has_prefix(dp)) by {
        assert(!is_verbatim(dp));
    }
    lemma_split_dot_first(path);
    let l = crate::imp::windows_model::verbatim_prefix_len(buf);
    let rooted = 0 <= l < buf.len() && is_sep(buf[l]);
    let body = buf.subrange(if rooted { l + 1 } else { l }, buf.len() as int);
    let own = vfold(Seq::empty(), split_by(body, true), false);
    lemma_vfold_dot_first(own, split_by(path, false));
}

/// An error is among the issues of `cs` exactly when some component has it.
proof fn lemma_issue_found(cs: Seq<Seq<u8>>, e: Error)
    ensures
        issues(cs).contains(e) <==> exists|i: int| 0 <= i < cs.len() && #[trigger] component_issue(cs[i]) == Some(e),
    decreases cs.len(),
{
    if cs.len() > 0 {
        let q = cs.drop_last();
        lemma_issue_found(q, e);
        let n = cs.len() - 1;
        if issues(cs).contains(e) {
            let k = choose|k: int| 0 <= k < issues(cs).len() && issues(cs)[k] == e;
            if k < issues(q).len() {
                assert(issues(cs)[k] == issues(q)[k]);
                assert(issues(q).contains(e));
                let i = choose|i: int| 0 <= i < q.len() && #[trigger] component_issue(q[i]) == Some(e);
                assert(q[i] == cs[i]);
            } else {
                assert(component_issue(cs[n]) == Some(e));
            }
        }
        if exists|i: int| 0 <= i < cs.len() && #[trigger] component_issue(cs[i]) == Some(e) {
            let i = choose|i: int| 0 <= i < cs.len() && #[trigger] component_issue(cs[i]) == Some(e);
            if i < n {
                assert(q[i] == cs[i]);
                assert(component_issue(q[i]) == Some(e));
                let k = choose|k: int| 0 <= k < issues(q).len() && issues(q)[k] == e;
                assert(issues(cs)[k] == e);
            } else {
                assert(issues(cs) == issues(q).push(e));
                assert(issues(cs)[issues(q).len() as int] == e);
            }
        }
    }
}

/// The two ordered validations of a Unix path: `validate_canonical` reports
/// non-canonicality whenever some component is not canonical, and a parent
/// component only when none is; `validate_parentless` reports a parent
/// component whenever there is one, and non-canonicality only when there is
/// none; with no faulty component both report only a missing root.
pub proof fn law_validation_precedence(p: Seq<u8>)
    ensures
        (exists|i: int| 0 <= i < checked_components(p).len() && #[trigger] component_issue(
            checked_components(p)[i],
        ) == Some(Error::NotCanonical)) ==> validate_canonical_result(p) == Err::<(), Error>(
            Error::NotCanonical,
        ),
        (exists|i: int| 0 <= i < checked_components(p).len() && #[trigger] component_issue(
            checked_components(p)[i],
        ) == Some(Error::ContainsParent)) ==> validate_parentless_result(p) == Err::<(), Error>(
            Error::ContainsParent,
        ),
        (exists|i: int| 0 <= i < checked_components(p).len() && #[trigger] component_issue(
            checked_components(p)[i],
        ) == Some(Error::ContainsParent)) && !(exists|i: int| 0 <= i < checked_components(p).len()
            && #[trigger] component_issue(checked_components(p)[i]) == Some(Error::NotCanonical))
            ==> validate_canonical_result(p) == Err::<(), Error>(Error::ContainsParent),
        (exists|i: int| 0 <= i < checked_components(p).len() && #[trigger] component_issue(
            checked_components(p)[i],
        ) == Some(Error::NotCanonical)) && !(exists|i: int| 0 <= i < checked_components(p).len()
            && #[trigger] component_issue(checked_components(p)[i]) == Some(Error::ContainsParent))
            ==> validate_parentless_result(p) == Err::<(), Error>(Error::NotCanonical),
        (forall|i: int| 0 <= i < checked_components(p).len() ==> #[trigger] component_issue(
            checked_components(p)[i],
        ) is None) ==> validate_canonical_result(p) == validate_parentless_result(p)
            && validate_canonical_result(p) == if has_root(p) {
            Ok::<(), Error>(())
        } else {
            Err(Error::NotAbsolute)
        },
{
    let cs = checked_components(p);
    lemma_issue_found(cs, Error::NotCanonical);
    lemma_issue_found(cs, Error::ContainsParent);
    if forall|i: int| 0 <= i < cs.len() ==> #[trigger] component_issue(cs[i]) is None {
        assert(!(exists|i: int| 0 <= i < cs.len() && #[trigger] component_issue(cs[i]) == Some(Error::NotCanonical)));
        assert(!(exists|i: int| 0 <= i < cs.len() && #[trigger] component_issue(cs[i]) == Some(Error::ContainsParent)));
    }
}

/// Windows prefixes by their bytes: a drive is an ASCII letter and a colon;
/// a device namespace two separators, a dot and a separator; a verbatim UNC
/// share `\\?\UNC` and a separator; anything else after `\\?\` is a plain
/// verbatim prefix unless it is a drive.
pub proof fn law_prefix_kinds(p: Seq<u8>)
    ensures
        !is_verbatim(p) && p.len() >= 2 && ((65 <= p[0] <= 90) || (97 <= p[0] <= 122)) && p[1]
            == COLON ==> prefix_kind(p) == Some(PrefixKind::Disk),
        !is_verbatim(p) && p.len() >= 4 && is_sep(p[0]) && is_sep(p[1]) && p[2] == DOT && is_sep(p[3])
            ==> prefix_kind(p) == Some(PrefixKind::DeviceNs),
        is_verbatim(p) && p.len() >= 8 && p[4] == 85 && p[5] == 78 && p[6] == 67 && is_sep(p[7])
            ==> prefix_kind(p) == Some(PrefixKind::VerbatimUnc),
        is_verbatim(p) ==> prefix_kind(p) is Some,
        !is_verbatim(p) && p.len() > 0 && !is_sep(p[0]) && !(p.len() >= 2 && p[1] == COLON
            && ((65 <= p[0] <= 90) || (97 <= p[0] <= 122))) ==> prefix_kind(p) is None,
{
}

} // verus!
