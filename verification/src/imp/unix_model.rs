//! The mathematical model of Unix paths: a path is a sequence of bytes, its
//! components are the pieces between `/` separators, and normalization is
//! defined over those components.
use vstd::prelude::*;

use crate::trivial::Error;

verus! {

/// The path separator `/`.
pub const SLASH: u8 = 47;

/// The dot `.` of the current and parent directory components.
pub const DOT: u8 = 46;

/// Whether `p` starts at the root, i.e. is absolute on Unix.
pub open spec fn has_root(p: Seq<u8>) -> bool {
    p.len() > 0 && p[0] == SLASH
}

/// The pieces of `p` between `/` separators, in order; there is always one
/// more piece than there are separators.
pub open spec fn split(p: Seq<u8>) -> Seq<Seq<u8>>
    decreases p.len(),
{
    if p.len() == 0 {
        seq![Seq::empty()]
    } else {
        let rest = split(p.drop_last());
        if p.last() == SLASH {
            rest.push(Seq::empty())
        } else {
            rest.update(rest.len() - 1, rest.last().push(p.last()))
        }
    }
}

/// The pieces joined back together with `/` between consecutive ones.
pub open spec fn join(ks: Seq<Seq<u8>>) -> Seq<u8>
    decreases ks.len(),
{
    if ks.len() == 0 {
        Seq::empty()
    } else if ks.len() == 1 {
        ks[0]
    } else {
        join(ks.drop_last()) + seq![SLASH] + ks.last()
    }
}

/// The components of `p`: the pieces after the root, if there is one.
pub open spec fn components(p: Seq<u8>) -> Seq<Seq<u8>> {
    if has_root(p) {
        split(p.drop_first())
    } else {
        split(p)
    }
}

/// The current directory component `.`.
pub open spec fn dot() -> Seq<u8> {
    seq![DOT]
}

/// The parent directory component `..`.
pub open spec fn dot_dot() -> Seq<u8> {
    seq![DOT, DOT]
}

/// A component that survives normalization: neither empty nor `.`.
pub open spec fn is_kept(c: Seq<u8>) -> bool {
    c.len() > 0 && c != dot()
}

/// A component allowed in a normalized path.
pub open spec fn is_normal_component(c: Seq<u8>) -> bool {
    is_kept(c) && c != dot_dot()
}

/// What is wrong with a single component, if anything.
pub open spec fn component_issue(c: Seq<u8>) -> Option<Error> {
    if !is_kept(c) {
        Some(Error::NotCanonical)
    } else if c == dot_dot() {
        Some(Error::ContainsParent)
    } else {
        None
    }
}

/// The components inspected by validation: the empty path and the root
/// have nothing to inspect.
pub open spec fn checked_components(p: Seq<u8>) -> Seq<Seq<u8>> {
    if p.len() == 0 || p == seq![SLASH] {
        Seq::empty()
    } else {
        components(p)
    }
}

/// The issues of the components `cs`, in order of appearance.
pub open spec fn issues(cs: Seq<Seq<u8>>) -> Seq<Error>
    decreases cs.len(),
{
    if cs.len() == 0 {
        Seq::empty()
    } else {
        let rest = issues(cs.drop_last());
        match component_issue(cs.last()) {
            Some(e) => rest.push(e),
            None => rest,
        }
    }
}

/// The issues found in the path `p`, in order of appearance.
pub open spec fn path_issues(p: Seq<u8>) -> Seq<Error> {
    issues(checked_components(p))
}

/// A normalized Unix path: absolute, and every component is a plain name.
pub open spec fn is_normalized(p: Seq<u8>) -> bool {
    &&& has_root(p)
    &&& forall|i: int|
        0 <= i < checked_components(p).len() ==> #[trigger] is_normal_component(
            checked_components(p)[i],
        )
}

/// The components that survive normalization, in order.
pub open spec fn kept(cs: Seq<Seq<u8>>) -> Seq<Seq<u8>>
    decreases cs.len(),
{
    if cs.len() == 0 {
        cs
    } else {
        let rest = kept(cs.drop_last());
        if is_kept(cs.last()) {
            rest.push(cs.last())
        } else {
            rest
        }
    }
}

/// Whether `p` has a parent component `..`.
pub open spec fn contains_parent(p: Seq<u8>) -> bool {
    exists|i: int| 0 <= i < components(p).len() && #[trigger] components(p)[i] == dot_dot()
}

/// The canonical form of `p`: empty and `.` components removed and the
/// root kept; nothing is left of a relative path without names.
pub open spec fn canonical(p: Seq<u8>) -> Seq<u8> {
    let j = join(kept(components(p)));
    if has_root(p) {
        seq![SLASH] + j
    } else {
        j
    }
}

/// What normalization reports on `p`: a parent component first, then a
/// missing root.
pub open spec fn normalize_error(p: Seq<u8>) -> Option<Error> {
    if contains_parent(p) {
        Some(Error::ContainsParent)
    } else if !has_root(p) {
        Some(Error::NotAbsolute)
    } else {
        None
    }
}

/// Fail-fast validation: a missing root first, then the first issue found.
pub open spec fn validate_result(p: Seq<u8>) -> Result<(), Error> {
    if !has_root(p) {
        Err(Error::NotAbsolute)
    } else if path_issues(p).len() > 0 {
        Err(path_issues(p)[0])
    } else {
        Ok(())
    }
}

/// Validation that reports non-canonicality first, then a parent component,
/// then a missing root.
pub open spec fn validate_canonical_result(p: Seq<u8>) -> Result<(), Error> {
    if path_issues(p).contains(Error::NotCanonical) {
        Err(Error::NotCanonical)
    } else if path_issues(p).contains(Error::ContainsParent) {
        Err(Error::ContainsParent)
    } else if !has_root(p) {
        Err(Error::NotAbsolute)
    } else {
        Ok(())
    }
}

/// Validation that reports a parent component first, then non-canonicality,
/// then a missing root.
pub open spec fn validate_parentless_result(p: Seq<u8>) -> Result<(), Error> {
    if path_issues(p).contains(Error::ContainsParent) {
        Err(Error::ContainsParent)
    } else if path_issues(p).contains(Error::NotCanonical) {
        Err(Error::NotCanonical)
    } else if !has_root(p) {
        Err(Error::NotAbsolute)
    } else {
        Ok(())
    }
}

/// The bytes that `PathBuf::push` produces on Unix: an absolute `path`
/// replaces `buf`, otherwise `path` is appended after a separator unless
/// `buf` is empty or already ends with one.
pub open spec fn joined(buf: Seq<u8>, path: Seq<u8>) -> Seq<u8> {
    if has_root(path) {
        path
    } else if buf.len() > 0 && buf.last() != SLASH {
        buf + seq![SLASH] + path
    } else {
        buf + path
    }
}

/// Whether `c` holds no separator.
pub open spec fn sep_free(c: Seq<u8>) -> bool {
    forall|j: int| 0 <= j < c.len() ==> c[j] != SLASH
}

// ---------------------------------------------------------------------------
// Lemmas on subranges
// ---------------------------------------------------------------------------

pub proof fn lemma_subrange_cut(s: Seq<u8>, a: int, k: int, b: int)
    requires
        0 <= a <= k < b <= s.len(),
    ensures
        s.subrange(a, b) == s.subrange(a, k) + seq![s[k]] + s.subrange(k + 1, b),
        s.subrange(a, k + 1) == s.subrange(a, k).push(s[k]),
{
    assert(s.subrange(a, b) =~= s.subrange(a, k) + seq![s[k]] + s.subrange(k + 1, b));
    assert(s.subrange(a, k + 1) =~= s.subrange(a, k).push(s[k]));
}

// ---------------------------------------------------------------------------
// Lemmas on splitting and joining
// ---------------------------------------------------------------------------

pub proof fn lemma_split_step(p: Seq<u8>, b: u8)
    ensures
        split(p.push(b)) == if b == SLASH {
            split(p).push(Seq::empty())
        } else {
            split(p).update(split(p).len() - 1, split(p).last().push(b))
        },
{
    assert(p.push(b).drop_last() =~= p);
}

pub proof fn lemma_split_shape(p: Seq<u8>)
    ensures
        split(p).len() >= 1,
        forall|i: int| 0 <= i < split(p).len() ==> #[trigger] sep_free(split(p)[i]),
    decreases p.len(),
{
    if p.len() > 0 {
        let q = p.drop_last();
        lemma_split_shape(q);
        assert(q.push(p.last()) =~= p);
        lemma_split_step(q, p.last());
        let s = split(q);
        if p.last() != SLASH {
            assert forall|i: int| 0 <= i < split(p).len() implies #[trigger] sep_free(split(p)[i]) by {
                if i == s.len() - 1 {
                    assert(sep_free(s[i]));
                    assert forall|j: int| 0 <= j < split(p)[i].len() implies split(p)[i][j] != SLASH by {
                        if j < s[i].len() {
                            assert(split(p)[i][j] == s[i][j]);
                        }
                    }
                } else {
                    assert(split(p)[i] == s[i]);
                }
            }
        } else {
            assert forall|i: int| 0 <= i < split(p).len() implies #[trigger] sep_free(split(p)[i]) by {
                if i < s.len() {
                    assert(split(p)[i] == s[i]);
                }
            }
        }
    }
}

pub proof fn lemma_split_sep_free(c: Seq<u8>)
    requires
        sep_free(c),
    ensures
        split(c) == seq![c],
    decreases c.len(),
{
    if c.len() > 0 {
        let q = c.drop_last();
        assert(sep_free(q));
        lemma_split_sep_free(q);
        assert(q.push(c.last()) =~= c);
        lemma_split_step(q, c.last());
        assert(split(c) =~= seq![c]);
    } else {
        assert(c =~= Seq::<u8>::empty());
        assert(split(c) =~= seq![c]);
    }
}

pub proof fn lemma_split_concat(x: Seq<u8>, y: Seq<u8>)
    ensures
        split(x + seq![SLASH] + y) == split(x) + split(y),
    decreases y.len(),
{
    lemma_split_shape(x);
    if y.len() == 0 {
        assert(x + seq![SLASH] + y =~= x.push(SLASH));
        lemma_split_step(x, SLASH);
        assert(split(x).push(Seq::empty()) =~= split(x) + split(y));
    } else {
        let z = y.drop_last();
        let b = y.last();
        lemma_split_concat(x, z);
        lemma_split_shape(z);
        assert(x + seq![SLASH] + y =~= (x + seq![SLASH] + z).push(b));
        assert(z.push(b) =~= y);
        lemma_split_step(x + seq![SLASH] + z, b);
        lemma_split_step(z, b);
        if b == SLASH {
            assert((split(x) + split(z)).push(Seq::empty()) =~= split(x) + split(z).push(
                Seq::empty(),
            ));
        } else {
            let l = split(x) + split(z);
            assert(l.update(l.len() - 1, l.last().push(b)) =~= split(x) + split(z).update(
                split(z).len() - 1,
                split(z).last().push(b),
            ));
        }
    }
}

pub proof fn lemma_join_step(ks: Seq<Seq<u8>>, c: Seq<u8>)
    ensures
        join(ks.push(c)) == if ks.len() == 0 {
            c
        } else {
            join(ks) + seq![SLASH] + c
        },
{
    assert(ks.push(c).drop_last() =~= ks);
}

pub proof fn lemma_join_split(p: Seq<u8>)
    ensures
        join(split(p)) == p,
    decreases p.len(),
{
    if p.len() == 0 {
    } else {
        let q = p.drop_last();
        let b = p.last();
        lemma_join_split(q);
        lemma_split_shape(q);
        assert(q.push(b) =~= p);
        lemma_split_step(q, b);
        let s = split(q);
        if b == SLASH {
            lemma_join_step(s, Seq::empty());
            assert(q + seq![SLASH] + Seq::<u8>::empty() =~= p);
        } else {
            let t = s.update(s.len() - 1, s.last().push(b));
            assert(t.drop_last() =~= s.drop_last());
            if s.len() == 1 {
                assert(t[0] =~= q.push(b));
            } else {
                assert(s =~= s.drop_last().push(s.last()));
                lemma_join_step(s.drop_last(), s.last());
                lemma_join_step(t.drop_last(), t.last());
                assert(t =~= t.drop_last().push(t.last()));
                assert(join(s.drop_last()) + seq![SLASH] + s.last().push(b) =~= (join(
                    s.drop_last(),
                ) + seq![SLASH] + s.last()).push(b));
            }
        }
    }
}

pub proof fn lemma_split_join(ks: Seq<Seq<u8>>)
    requires
        ks.len() >= 1,
        forall|i: int| 0 <= i < ks.len() ==> #[trigger] sep_free(ks[i]),
    ensures
        split(join(ks)) == ks,
    decreases ks.len(),
{
    if ks.len() == 1 {
        lemma_split_sep_free(ks[0]);
        assert(seq![ks[0]] =~= ks);
    } else {
        let init = ks.drop_last();
        assert forall|i: int| 0 <= i < init.len() implies #[trigger] sep_free(init[i]) by {
            assert(init[i] == ks[i]);
        }
        lemma_split_join(init);
        assert(sep_free(ks[ks.len() - 1]));
        lemma_split_sep_free(ks.last());
        lemma_split_concat(join(init), ks.last());
        assert(init + seq![ks.last()] =~= ks);
    }
}

pub proof fn lemma_dot_facts()
    ensures
        dot() != dot_dot(),
        !is_kept(dot()),
        is_kept(dot_dot()),
        component_issue(dot_dot()) == Some(Error::ContainsParent),
        component_issue(dot()) == Some(Error::NotCanonical),
        component_issue(Seq::empty()) == Some(Error::NotCanonical),
{
    assert(dot().len() == 1);
    assert(dot_dot().len() == 2);
}

pub proof fn lemma_kept_single(c: Seq<u8>)
    ensures
        kept(seq![c]) == if is_kept(c) {
            seq![c]
        } else {
            Seq::empty()
        },
{
    assert(seq![c].drop_last() =~= Seq::<Seq<u8>>::empty());
    assert(kept(Seq::<Seq<u8>>::empty()) == Seq::<Seq<u8>>::empty());
    assert(seq![c].last() == c);
    if is_kept(c) {
        assert(Seq::<Seq<u8>>::empty().push(c) =~= seq![c]);
    }
}

// ---------------------------------------------------------------------------
// Lemmas on issues
// ---------------------------------------------------------------------------

pub proof fn lemma_issues_concat(a: Seq<Seq<u8>>, b: Seq<Seq<u8>>)
    ensures
        issues(a + b) == issues(a) + issues(b),
    decreases b.len(),
{
    if b.len() == 0 {
        assert(a + b =~= a);
        assert(issues(a) + issues(b) =~= issues(a));
    } else {
        let c = b.drop_last();
        lemma_issues_concat(a, c);
        assert((a + b).drop_last() =~= a + c);
        assert((a + b).last() == b.last());
        match component_issue(b.last()) {
            Some(e) => {
                assert((issues(a) + issues(c)).push(e) =~= issues(a) + issues(c).push(e));
            },
            None => {},
        }
    }
}

pub proof fn lemma_issues_contains(cs: Seq<Seq<u8>>, e: Error)
    ensures
        issues(cs).contains(e) <==> exists|i: int|
            0 <= i < cs.len() && #[trigger] component_issue(cs[i]) == Some(e),
    decreases cs.len(),
{
    if cs.len() > 0 {
        let init = cs.drop_last();
        lemma_issues_contains(init, e);
        if issues(cs).contains(e) {
            let k = choose|k: int| 0 <= k < issues(cs).len() && issues(cs)[k] == e;
            if k < issues(init).len() {
                assert(issues(cs)[k] == issues(init)[k]);
                assert(issues(init).contains(e));
                let i = choose|i: int| 0 <= i < init.len() && #[trigger] component_issue(init[i]) == Some(e);
                assert(cs[i] == init[i]);
            } else {
                assert(component_issue(cs[cs.len() - 1]) == Some(e));
            }
        }
        if exists|i: int| 0 <= i < cs.len() && #[trigger] component_issue(cs[i]) == Some(e) {
            let i = choose|i: int| 0 <= i < cs.len() && #[trigger] component_issue(cs[i]) == Some(e);
            if i < init.len() {
                assert(init[i] == cs[i]);
                assert(issues(init).contains(e));
                let k = choose|k: int| 0 <= k < issues(init).len() && issues(init)[k] == e;
                assert(issues(cs)[k] == e);
            } else {
                assert(issues(cs).last() == e);
                assert(issues(cs)[issues(cs).len() - 1] == e);
            }
        }
    }
}

pub proof fn lemma_issues_empty(cs: Seq<Seq<u8>>)
    ensures
        issues(cs).len() == 0 <==> forall|i: int|
            0 <= i < cs.len() ==> #[trigger] component_issue(cs[i]) is None,
    decreases cs.len(),
{
    if cs.len() > 0 {
        let init = cs.drop_last();
        lemma_issues_empty(init);
        if issues(cs).len() == 0 {
            assert forall|i: int| 0 <= i < cs.len() implies #[trigger] component_issue(
                cs[i],
            ) is None by {
                if i < init.len() {
                    assert(init[i] == cs[i]);
                }
            }
        }
        if forall|i: int| 0 <= i < cs.len() ==> #[trigger] component_issue(cs[i]) is None {
            assert forall|i: int| 0 <= i < init.len() implies #[trigger] component_issue(
                init[i],
            ) is None by {
                assert(init[i] == cs[i]);
            }
            assert(component_issue(cs[cs.len() - 1]) is None);
        }
    }
}

pub proof fn lemma_issues_kinds(cs: Seq<Seq<u8>>)
    ensures
        !issues(cs).contains(Error::NotAbsolute),
{
    lemma_issues_contains(cs, Error::NotAbsolute);
}

/// A path is normalized exactly when it has a root and no issue.
pub proof fn lemma_normalized_iff_no_issue(p: Seq<u8>)
    ensures
        is_normalized(p) <==> has_root(p) && path_issues(p).len() == 0,
{
    let cs = checked_components(p);
    lemma_issues_empty(cs);
    if has_root(p) && path_issues(p).len() == 0 {
        assert forall|i: int| 0 <= i < cs.len() implies #[trigger] is_normal_component(cs[i]) by {
            assert(component_issue(cs[i]) is None);
        }
    }
    if is_normalized(p) {
        assert forall|i: int| 0 <= i < cs.len() implies #[trigger] component_issue(cs[i]) is None by {
            assert(is_normal_component(cs[i]));
        }
    }
}

// ---------------------------------------------------------------------------
// Lemmas on kept components and the canonical form
// ---------------------------------------------------------------------------

pub proof fn lemma_kept_shape(cs: Seq<Seq<u8>>)
    ensures
        kept(cs).len() <= cs.len(),
        forall|i: int| 0 <= i < kept(cs).len() ==> #[trigger] is_kept(kept(cs)[i]),
        forall|i: int|
            0 <= i < kept(cs).len() ==> exists|j: int|
                0 <= j < cs.len() && #[trigger] cs[j] == #[trigger] kept(cs)[i],
    decreases cs.len(),
{
    if cs.len() > 0 {
        let init = cs.drop_last();
        lemma_kept_shape(init);
        let r = kept(init);
        assert forall|i: int| 0 <= i < kept(cs).len() implies exists|j: int|
            0 <= j < cs.len() && #[trigger] cs[j] == #[trigger] kept(cs)[i] by {
            if i < r.len() {
                assert(kept(cs)[i] == r[i]);
                let j = choose|j: int| 0 <= j < init.len() && #[trigger] init[j] == r[i];
                assert(cs[j] == init[j]);
            } else {
                assert(cs[cs.len() - 1] == kept(cs)[i]);
            }
        }
        assert forall|i: int| 0 <= i < kept(cs).len() implies #[trigger] is_kept(kept(cs)[i]) by {
            if i < r.len() {
                assert(kept(cs)[i] == r[i]);
            }
        }
    }
}

pub proof fn lemma_kept_all(cs: Seq<Seq<u8>>)
    requires
        forall|i: int| 0 <= i < cs.len() ==> #[trigger] is_kept(cs[i]),
    ensures
        kept(cs) == cs,
    decreases cs.len(),
{
    if cs.len() > 0 {
        let init = cs.drop_last();
        assert forall|i: int| 0 <= i < init.len() implies #[trigger] is_kept(init[i]) by {
            assert(init[i] == cs[i]);
        }
        lemma_kept_all(init);
        assert(is_kept(cs[cs.len() - 1]));
        assert(init.push(cs.last()) =~= cs);
    }
}

pub proof fn lemma_kept_sep_free(cs: Seq<Seq<u8>>)
    requires
        forall|i: int| 0 <= i < cs.len() ==> #[trigger] sep_free(cs[i]),
    ensures
        forall|i: int| 0 <= i < kept(cs).len() ==> #[trigger] sep_free(kept(cs)[i]),
{
    lemma_kept_shape(cs);
    assert forall|i: int| 0 <= i < kept(cs).len() implies #[trigger] sep_free(kept(cs)[i]) by {
        let j = choose|j: int| 0 <= j < cs.len() && #[trigger] cs[j] == #[trigger] kept(cs)[i];
        assert(sep_free(cs[j]));
    }
}

pub proof fn lemma_kept_dot_dot(cs: Seq<Seq<u8>>)
    ensures
        (exists|i: int| 0 <= i < kept(cs).len() && #[trigger] kept(cs)[i] == dot_dot()) <==> (
        exists|j: int| 0 <= j < cs.len() && #[trigger] cs[j] == dot_dot()),
    decreases cs.len(),
{
    if cs.len() > 0 {
        let init = cs.drop_last();
        lemma_kept_dot_dot(init);
        let r = kept(init);
        if exists|i: int| 0 <= i < kept(cs).len() && #[trigger] kept(cs)[i] == dot_dot() {
            let i = choose|i: int| 0 <= i < kept(cs).len() && #[trigger] kept(cs)[i] == dot_dot();
            if i < r.len() {
                assert(r[i] == kept(cs)[i]);
                let j = choose|j: int| 0 <= j < init.len() && #[trigger] init[j] == dot_dot();
                assert(cs[j] == init[j]);
            } else {
                assert(cs[cs.len() - 1] == dot_dot());
            }
        }
        if exists|j: int| 0 <= j < cs.len() && #[trigger] cs[j] == dot_dot() {
            let j = choose|j: int| 0 <= j < cs.len() && #[trigger] cs[j] == dot_dot();
            if j < init.len() {
                assert(init[j] == cs[j]);
                let i = choose|i: int| 0 <= i < r.len() && #[trigger] r[i] == dot_dot();
                assert(kept(cs)[i] == r[i]);
            } else {
                assert(is_kept(cs.last()));
                assert(kept(cs)[kept(cs).len() - 1] == dot_dot());
            }
        }
    }
}

pub proof fn lemma_kept_concat(a: Seq<Seq<u8>>, b: Seq<Seq<u8>>)
    ensures
        kept(a + b) == kept(a) + kept(b),
    decreases b.len(),
{
    if b.len() == 0 {
        assert(a + b =~= a);
        assert(kept(a) + kept(b) =~= kept(a));
    } else {
        let c = b.drop_last();
        lemma_kept_concat(a, c);
        assert((a + b).drop_last() =~= a + c);
        assert((a + b).last() == b.last());
        if is_kept(b.last()) {
            assert((kept(a) + kept(c)).push(b.last()) =~= kept(a) + kept(c).push(b.last()));
        }
    }
}

pub proof fn lemma_join_concat(a: Seq<Seq<u8>>, b: Seq<Seq<u8>>)
    requires
        a.len() > 0,
        b.len() > 0,
    ensures
        join(a + b) == join(a) + seq![SLASH] + join(b),
    decreases b.len(),
{
    if b.len() == 1 {
        assert(a + b =~= a.push(b[0]));
        lemma_join_step(a, b[0]);
    } else {
        let c = b.drop_last();
        lemma_join_concat(a, c);
        assert(a + b =~= (a + c).push(b.last()));
        lemma_join_step(a + c, b.last());
        assert(c.push(b.last()) =~= b);
        lemma_join_step(c, b.last());
        assert(join(a) + seq![SLASH] + join(c) + seq![SLASH] + b.last() =~= join(a) + seq![SLASH]
            + (join(c) + seq![SLASH] + b.last()));
    }
}

pub proof fn lemma_join_no_root(ks: Seq<Seq<u8>>)
    requires
        forall|i: int| 0 <= i < ks.len() ==> #[trigger] is_kept(ks[i]),
        forall|i: int| 0 <= i < ks.len() ==> #[trigger] sep_free(ks[i]),
    ensures
        ks.len() == 0 <==> join(ks).len() == 0,
        ks.len() > 0 ==> join(ks)[0] == ks[0][0],
        ks.len() > 0 ==> join(ks)[0] != SLASH,
    decreases ks.len(),
{
    if ks.len() > 1 {
        let init = ks.drop_last();
        assert forall|i: int| 0 <= i < init.len() implies #[trigger] is_kept(init[i]) by {
            assert(init[i] == ks[i]);
        }
        assert forall|i: int| 0 <= i < init.len() implies #[trigger] sep_free(init[i]) by {
            assert(init[i] == ks[i]);
        }
        lemma_join_no_root(init);
        assert(init[0] == ks[0]);
    }
    if ks.len() > 0 {
        assert(is_kept(ks[0]));
        assert(sep_free(ks[0]));
    }
}

/// The components of `p` hold no separator.
pub proof fn lemma_components_sep_free(p: Seq<u8>)
    ensures
        components(p).len() >= 1,
        forall|i: int| 0 <= i < components(p).len() ==> #[trigger] sep_free(components(p)[i]),
{
    if has_root(p) {
        lemma_split_shape(p.drop_first());
    } else {
        lemma_split_shape(p);
    }
}

/// The components of a canonical form are the kept components, and they
/// stay kept.
pub proof fn lemma_canonical_components(p: Seq<u8>)
    ensures
        kept(components(canonical(p))) == kept(components(p)),
        has_root(canonical(p)) == has_root(p),
{
    let ks = kept(components(p));
    lemma_components_sep_free(p);
    lemma_kept_shape(components(p));
    lemma_kept_sep_free(components(p));
    lemma_join_no_root(ks);
    let c = canonical(p);
    if has_root(p) {
        assert(c.drop_first() =~= join(ks));
        if ks.len() == 0 {
            assert(c.drop_first() =~= Seq::<u8>::empty());
            assert(split(Seq::<u8>::empty()) =~= seq![Seq::<u8>::empty()]);
            lemma_kept_single(Seq::<u8>::empty());
        } else {
            lemma_split_join(ks);
            lemma_kept_all(ks);
        }
    } else {
        if ks.len() == 0 {
            assert(c =~= Seq::<u8>::empty());
            assert(split(Seq::<u8>::empty()) =~= seq![Seq::<u8>::empty()]);
            lemma_kept_single(Seq::<u8>::empty());
        } else {
            lemma_split_join(ks);
            lemma_kept_all(ks);
        }
    }
}

/// Normalization is idempotent.
pub proof fn lemma_canonical_idempotent(p: Seq<u8>)
    ensures
        canonical(canonical(p)) == canonical(p),
{
    lemma_canonical_components(p);
}

/// The canonical form has a parent component exactly when `p` has one.
pub proof fn lemma_canonical_parent(p: Seq<u8>)
    ensures
        contains_parent(canonical(p)) == contains_parent(p),
{
    lemma_canonical_components(p);
    lemma_kept_dot_dot(components(p));
    lemma_kept_dot_dot(components(canonical(p)));
}

/// Every component of the canonical form is kept.
pub proof fn lemma_canonical_all_kept(p: Seq<u8>)
    ensures
        forall|i: int|
            0 <= i < checked_components(canonical(p)).len() ==> #[trigger] is_kept(
                checked_components(canonical(p))[i],
            ),
{
    let ks = kept(components(p));
    lemma_components_sep_free(p);
    lemma_kept_shape(components(p));
    lemma_kept_sep_free(components(p));
    lemma_join_no_root(ks);
    let c = canonical(p);
    if c.len() > 0 && c != seq![SLASH] {
        if has_root(p) {
            assert(c.drop_first() =~= join(ks));
        }
        if ks.len() == 0 {
            assert(join(ks) =~= Seq::<u8>::empty());
            if has_root(p) {
                assert(c =~= seq![SLASH]);
            }
        }
        assert(ks.len() > 0);
        lemma_split_join(ks);
        assert(checked_components(c) == ks);
    }
}

/// A normalized path is its own canonical form.
pub proof fn lemma_canonical_of_normalized(p: Seq<u8>)
    requires
        is_normalized(p),
    ensures
        canonical(p) == p,
{
    let t = p.drop_first();
    lemma_split_shape(t);
    lemma_join_split(t);
    if p.len() == 1 {
        assert(t =~= Seq::<u8>::empty());
        assert(split(t) =~= seq![Seq::<u8>::empty()]);
        lemma_kept_single(Seq::<u8>::empty());
        assert(canonical(p) =~= p);
    } else {
        let cs = components(p);
        assert forall|i: int| 0 <= i < cs.len() implies #[trigger] is_kept(cs[i]) by {
            assert(is_normal_component(checked_components(p)[i]));
        }
        lemma_kept_all(cs);
        assert(seq![SLASH] + t =~= p);
    }
}

/// The canonical form of an absolute path without parent components is
/// normalized.
pub proof fn lemma_canonical_is_normalized(p: Seq<u8>)
    requires
        has_root(p),
        !contains_parent(p),
    ensures
        is_normalized(canonical(p)),
{
    let c = canonical(p);
    lemma_canonical_all_kept(p);
    lemma_canonical_components(p);
    lemma_canonical_parent(p);
    if c.len() > 1 {
        assert forall|i: int| 0 <= i < checked_components(c).len() implies #[trigger] is_normal_component(
            checked_components(c)[i],
        ) by {
            assert(is_kept(checked_components(c)[i]));
            if checked_components(c)[i] == dot_dot() {
                assert(components(c)[i] == dot_dot());
            }
        }
    }
}

/// A normalized path has no parent component.
pub proof fn lemma_normalized_no_parent(p: Seq<u8>)
    requires
        is_normalized(p),
    ensures
        !contains_parent(p),
{
    if p.len() <= 1 {
        let t = p.drop_first();
        assert(t =~= Seq::<u8>::empty());
        assert(components(p) =~= seq![Seq::<u8>::empty()]);
    } else {
        if contains_parent(p) {
            let i = choose|i: int| 0 <= i < components(p).len() && #[trigger] components(p)[i] == dot_dot();
            assert(is_normal_component(checked_components(p)[i]));
        }
    }
}

/// Paths of more than one byte: parent components are exactly the
/// `ContainsParent` issues.
pub proof fn lemma_parent_issue(p: Seq<u8>)
    ensures
        path_issues(p).contains(Error::ContainsParent) <==> contains_parent(p),
{
    lemma_issues_contains(checked_components(p), Error::ContainsParent);
    if p.len() <= 1 {
        if contains_parent(p) {
            let i = choose|i: int| 0 <= i < components(p).len() && #[trigger] components(p)[i] == dot_dot();
            lemma_components_sep_free(p);
            if has_root(p) {
                assert(p.drop_first() =~= Seq::<u8>::empty());
                assert(split(p.drop_first()) =~= seq![Seq::<u8>::empty()]);
            } else {
                if p.len() == 0 {
                    assert(split(p) =~= seq![Seq::<u8>::empty()]);
                } else {
                    assert(p =~= Seq::<u8>::empty().push(p[0]));
                    lemma_split_step(Seq::<u8>::empty(), p[0]);
                    assert(split(p)[0] =~= seq![p[0]]);
                }
            }
            assert(components(p)[i].len() < 2);
        }
    } else {
        if contains_parent(p) {
            let i = choose|i: int| 0 <= i < components(p).len() && #[trigger] components(p)[i] == dot_dot();
            lemma_dot_facts();
            assert(component_issue(checked_components(p)[i]) == Some(Error::ContainsParent));
        }
    }
}

/// The part of `path` after `base`, compared byte by byte: `base` must be a
/// prefix of `path` that ends with a separator, or ends where a separator
/// follows or at the end of `path`.
pub open spec fn strip_result(path: Seq<u8>, base: Seq<u8>) -> Option<Seq<u8>> {
    if base.len() <= path.len() && path.subrange(0, base.len() as int) == base {
        if path.len() == base.len() {
            Some(Seq::empty())
        } else if base.len() > 0 && base.last() == SLASH {
            Some(path.subrange(base.len() as int, path.len() as int))
        } else if path[base.len() as int] == SLASH {
            Some(path.subrange(base.len() + 1int, path.len() as int))
        } else {
            None
        }
    } else {
        None
    }
}

/// The parent of a normalized path: its last component removed, or nothing
/// for the root.
pub open spec fn parent_of(p: Seq<u8>) -> Option<Seq<u8>> {
    if p.len() <= 1 {
        None
    } else {
        Some(seq![SLASH] + join(components(p).drop_last()))
    }
}

/// The components of a normalized path longer than the root are all plain
/// names, and the path is the root followed by them.
pub proof fn lemma_normalized_shape(p: Seq<u8>)
    requires
        is_normalized(p),
    ensures
        p == seq![SLASH] + join(components(p)),
        components(p).len() >= 1,
        p.len() > 1 ==> forall|i: int|
            0 <= i < components(p).len() ==> #[trigger] is_normal_component(components(p)[i]),
        forall|i: int| 0 <= i < components(p).len() ==> #[trigger] sep_free(components(p)[i]),
        p.len() == 1 ==> components(p) == seq![Seq::<u8>::empty()],
{
    lemma_join_split(p.drop_first());
    lemma_split_shape(p.drop_first());
    assert(p =~= seq![SLASH] + p.drop_first());
    if p.len() == 1 {
        assert(p.drop_first() =~= Seq::<u8>::empty());
        assert(split(p.drop_first()) =~= seq![Seq::<u8>::empty()]);
    } else {
        assert forall|i: int| 0 <= i < components(p).len() implies #[trigger] is_normal_component(
            components(p)[i],
        ) by {
            assert(is_normal_component(checked_components(p)[i]));
        }
    }
}

/// A path made of the root and plain names is normalized.
pub proof fn lemma_build_normalized(ks: Seq<Seq<u8>>)
    requires
        forall|i: int| 0 <= i < ks.len() ==> #[trigger] is_normal_component(ks[i]),
        forall|i: int| 0 <= i < ks.len() ==> #[trigger] sep_free(ks[i]),
    ensures
        is_normalized(seq![SLASH] + join(ks)),
        ks.len() > 0 ==> components(seq![SLASH] + join(ks)) == ks,
{
    let p = seq![SLASH] + join(ks);
    assert(p.drop_first() =~= join(ks));
    assert forall|i: int| 0 <= i < ks.len() implies #[trigger] is_kept(ks[i]) by {
        assert(is_normal_component(ks[i]));
    }
    lemma_join_no_root(ks);
    if ks.len() > 0 {
        lemma_split_join(ks);
        assert forall|i: int| 0 <= i < checked_components(p).len() implies #[trigger] is_normal_component(
            checked_components(p)[i],
        ) by {
            assert(checked_components(p)[i] == ks[i]);
        }
    }
}

/// The parent of a normalized path is normalized.
pub proof fn lemma_parent_normalized(p: Seq<u8>)
    requires
        is_normalized(p),
        p.len() > 1,
    ensures
        is_normalized(parent_of(p)->0),
{
    lemma_normalized_shape(p);
    let cs = components(p);
    let init = cs.drop_last();
    assert forall|i: int| 0 <= i < init.len() implies #[trigger] is_normal_component(init[i]) by {
        assert(init[i] == cs[i]);
    }
    assert forall|i: int| 0 <= i < init.len() implies #[trigger] sep_free(init[i]) by {
        assert(init[i] == cs[i]);
    }
    lemma_build_normalized(init);
}

/// The components of what `PathBuf::push` makes of a normalized `buf` and a
/// relative `path`.
pub proof fn lemma_joined_components(buf: Seq<u8>, path: Seq<u8>)
    requires
        is_normalized(buf),
        !has_root(path),
    ensures
        has_root(joined(buf, path)),
        components(joined(buf, path)) == if buf.len() == 1 {
            split(path)
        } else {
            components(buf) + split(path)
        },
{
    let j = joined(buf, path);
    if buf.len() == 1 {
        assert(buf.last() == SLASH);
        assert(j =~= buf + path);
        assert(j.drop_first() =~= path);
    } else {
        lemma_normalized_shape(buf);
        let cs = components(buf);
        assert(is_normal_component(cs[cs.len() - 1]));
        assert(sep_free(cs[cs.len() - 1]));
        // the last byte of a longer normalized path is not a separator
        if cs.len() == 1 {
            assert(join(cs) == cs[0]);
        } else {
            assert(join(cs) == join(cs.drop_last()) + seq![SLASH] + cs.last());
        }
        assert(buf.last() == cs.last().last());
        assert(cs.last()[cs.last().len() - 1] != SLASH);
        assert(j =~= buf + seq![SLASH] + path);
        assert(j.drop_first() =~= buf.drop_first() + seq![SLASH] + path);
        lemma_split_concat(buf.drop_first(), path);
    }
}

/// Pushing a path without parent components onto a normalized path keeps
/// the root and adds no parent component.
pub proof fn lemma_joined_no_parent(buf: Seq<u8>, path: Seq<u8>)
    requires
        is_normalized(buf),
        !contains_parent(path),
    ensures
        has_root(joined(buf, path)),
        !contains_parent(joined(buf, path)),
{
    if !has_root(path) {
        lemma_joined_components(buf, path);
        lemma_normalized_no_parent(buf);
        let j = joined(buf, path);
        if contains_parent(j) {
            let i = choose|i: int| 0 <= i < components(j).len() && #[trigger] components(j)[i] == dot_dot();
            if buf.len() == 1 {
                assert(components(path)[i] == dot_dot());
            } else {
                let cb = components(buf);
                if i < cb.len() {
                    assert(cb[i] == dot_dot());
                } else {
                    assert(components(path)[i - cb.len()] == dot_dot());
                }
            }
        }
    }
}

/// Pushing a canonical path without parent components onto a normalized
/// path gives a normalized path.
pub proof fn lemma_joined_normalized(buf: Seq<u8>, path: Seq<u8>)
    requires
        is_normalized(buf),
        path_issues(path).len() == 0,
        path.len() > 0,
        path != dot(),
    ensures
        is_normalized(joined(buf, path)),
{
    lemma_issues_empty(checked_components(path));
    if has_root(path) {
        lemma_normalized_iff_no_issue(path);
    } else {
        lemma_joined_components(buf, path);
        lemma_split_shape(path);
        let j = joined(buf, path);
        let sp = split(path);
        assert forall|i: int| 0 <= i < sp.len() implies #[trigger] is_normal_component(sp[i]) by {
            if path.len() >= 2 {
                assert(component_issue(checked_components(path)[i]) is None);
            } else {
                assert(sep_free(path));
                lemma_split_sep_free(path);
                assert(sp[i] == path);
                assert(path.len() == 1);
                assert(path != dot_dot());
            }
        }
        lemma_normalized_shape(buf);
        assert(j.len() > 1);
        assert forall|i: int| 0 <= i < checked_components(j).len() implies #[trigger] is_normal_component(
            checked_components(j)[i],
        ) by {
            if buf.len() == 1 {
                assert(checked_components(j)[i] == sp[i]);
            } else {
                let cb = components(buf);
                if i < cb.len() {
                    assert(checked_components(j)[i] == cb[i]);
                } else {
                    assert(checked_components(j)[i] == sp[i - cb.len()]);
                }
            }
        }
    }
}

/// All three validations succeed exactly on normalized paths.
pub proof fn lemma_validate_results(p: Seq<u8>)
    ensures
        validate_result(p) is Ok <==> is_normalized(p),
        validate_canonical_result(p) is Ok <==> is_normalized(p),
        validate_parentless_result(p) is Ok <==> is_normalized(p),
{
    lemma_normalized_iff_no_issue(p);
    lemma_issues_kinds(checked_components(p));
    if path_issues(p).len() > 0 {
        let e = path_issues(p)[0];
        assert(path_issues(p).contains(e));
    }
}

} // verus!
