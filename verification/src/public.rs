//! The operations on normalized paths.
use vstd::prelude::*;

use crate::imp;
use crate::imp::unix_model::{
    canonical, checked_components, contains_parent, has_root, is_normalized, joined,
    lemma_canonical_is_normalized, lemma_parent_normalized, lemma_split_step, normalize_error,
    parent_of, split, strip_result, validate_canonical_result, validate_parentless_result,
    validate_result, SLASH,
};
use crate::trivial::{ConvertError, CowNormpath, Error, Normpath, NormpathBuf};
use vstd::slice::slice_to_vec;
use vstd::string::StringSliceAdditionalSpecFns;

verus! {

impl Normpath<'static> {
    /// The root path `/`.
    pub fn unix_root() -> (res: Self)
        ensures
            res@ == seq![SLASH],
    {
        let root: &'static [u8] = &[SLASH];
        assert(root@ == seq![SLASH]);
        assert(root@.drop_first() =~= Seq::<u8>::empty());
        Normpath::wrap(root)
    }

    /// The root path of the local platform, `/` on Unix.
    pub fn root() -> (res: Option<Self>)
        ensures
            res matches Some(r) && r@ == seq![SLASH],
    {
        Some(Self::unix_root())
    }
}

impl<'a> Normpath<'a> {
    /// Validates that `path` is normalized, failing fast with the first
    /// error: a missing root, then the first faulty component.
    pub fn validate(path: &'a [u8]) -> (res: Result<Self, Error>)
        ensures
            match res {
                Ok(p) => p@ == path@ && is_normalized(path@),
                Err(e) => validate_result(path@) == Err::<(), Error>(e),
            },
            res is Ok <==> is_normalized(path@),
    {
        proof {
            crate::imp::unix_model::lemma_validate_results(path@);
        }
        imp::validate(path)
    }

    /// Validates that `path` is normalized, reporting non-canonicality
    /// first, then a parent component, then a missing root.
    pub fn validate_canonical(path: &'a [u8]) -> (res: Result<Self, Error>)
        ensures
            match res {
                Ok(p) => p@ == path@ && is_normalized(path@),
                Err(e) => validate_canonical_result(path@) == Err::<(), Error>(e),
            },
            res is Ok <==> is_normalized(path@),
    {
        proof {
            crate::imp::unix_model::lemma_validate_results(path@);
        }
        imp::validate_canonical(path)
    }

    /// Validates that `path` is normalized, reporting a parent component
    /// first, then non-canonicality, then a missing root.
    pub fn validate_parentless(path: &'a [u8]) -> (res: Result<Self, Error>)
        ensures
            match res {
                Ok(p) => p@ == path@ && is_normalized(path@),
                Err(e) => validate_parentless_result(path@) == Err::<(), Error>(e),
            },
            res is Ok <==> is_normalized(path@),
    {
        proof {
            crate::imp::unix_model::lemma_validate_results(path@);
        }
        imp::validate_parentless(path)
    }

    /// Validates that `path` is normalized while normalizing non-canonical
    /// patterns: a normalized `path` is borrowed, any other is normalized
    /// into an owned path.
    ///
    /// Fails if `path` is not absolute or has a parent component; never with
    /// `NotCanonical`.
    pub fn normalize(path: &'a [u8]) -> (res: Result<CowNormpath<'a>, Error>)
        ensures
            match res {
                Ok(c) => c@ == canonical(path@) && ((c is Borrowed) == is_normalized(path@)),
                Err(e) => e == if !has_root(path@) {
                    Error::NotAbsolute
                } else {
                    Error::ContainsParent
                },
            },
            res is Ok <==> normalize_error(path@) is None,
    {
        imp::normalize_new_cow(path)
    }

    /// Wraps `path` without checking it at run time; the contract demands
    /// that it be normalized.
    pub fn new_unchecked(path: &'a [u8]) -> (res: Self)
        requires
            is_normalized(path@),
        ensures
            res@ == path@,
    {
        Normpath::wrap(path)
    }

    /// The length of the path in bytes.
    pub fn len(&self) -> (res: usize)
        ensures
            res == self@.len(),
    {
        self.as_path().len()
    }

    /// The path without its final component, or nothing for the root.
    pub fn parent(&self) -> (res: Option<Normpath<'a>>)
        ensures
            match res {
                Some(p) => parent_of(self@) == Some(p@),
                None => parent_of(self@) is None,
            },
    {
        let path = self.as_path();
        match imp::unix::parent(path) {
            Some(p) => {
                proof {
                    lemma_parent_normalized(path@);
                }
                Some(Normpath::wrap(p))
            },
            None => None,
        }
    }

    /// The components of the path after its root, in order: none for the
    /// root itself, and otherwise the names between the separators.
    pub fn components(&self) -> (res: Vec<&'a [u8]>)
        ensures
            res@.len() == checked_components(self@).len(),
            forall|k: int| 0 <= k < res@.len() ==> #[trigger] res@[k]@ == checked_components(self@)[k],
    {
        let path = self.as_path();
        let n = path.len();
        let mut res: Vec<&'a [u8]> = Vec::new();
        if n == 1 {
            proof {
                assert(path@ =~= seq![SLASH]);
            }
            return res;
        }
        let ghost p = path@;
        let mut start: usize = 1;
        let mut i: usize = 1;
        proof {
            assert(p.subrange(1, 1) =~= Seq::<u8>::empty());
        }
        while i < n
            invariant
                1 <= start <= i <= n,
                n == p.len(),
                p == path@,
                split(p.subrange(1, i as int)).len() == res@.len() + 1,
                split(p.subrange(1, i as int)).last() == p.subrange(start as int, i as int),
                forall|k: int| 0 <= k < res@.len() ==> #[trigger] res@[k]@ == split(
                    p.subrange(1, i as int),
                )[k],
            decreases n - i,
        {
            let ghost before = split(p.subrange(1, i as int));
            proof {
                assert(p.subrange(1, i + 1) =~= p.subrange(1, i as int).push(p[i as int]));
                lemma_split_step(p.subrange(1, i as int), p[i as int]);
            }
            if path[i] == SLASH {
                let piece = &path[start..i];
                res.push(piece);
                start = i + 1;
                proof {
                    assert(p.subrange(start as int, i + 1) =~= Seq::<u8>::empty());
                }
            } else {
                proof {
                    assert(p.subrange(start as int, i + 1) =~= p.subrange(start as int, i as int).push(
                        p[i as int],
                    ));
                }
            }
            i = i + 1;
            proof {
                let now = split(p.subrange(1, i as int));
                assert forall|k: int| 0 <= k < res@.len() implies #[trigger] res@[k]@ == now[k] by {
                    assert(now[k] == before[k]);
                }
            }
        }
        let last = &path[start..n];
        res.push(last);
        proof {
            assert(p.drop_first() =~= p.subrange(1, n as int));
            assert(has_root(p));
            assert(p != seq![SLASH]) by {
                assert(p.len() != 1);
            }
            assert(checked_components(p) == split(p.subrange(1, n as int)));
        }
        res
    }

    /// The prefix of the path and the rest, if it has a prefix: a Unix path
    /// never has one. See `imp::windows::windows_split_components` for the
    /// Windows path syntax.
    pub fn split_components(&self) -> (res: Option<(&'a [u8], &'a [u8])>)
        ensures
            res is None,
    {
        None
    }

    /// The prefix of the path, if it has one: a Unix path never has one.
    pub fn prefix(&self) -> (res: Option<&'a [u8]>)
        ensures
            res is None,
    {
        None
    }

    /// A new normalized path with `path` pushed onto `self`, as `push` does.
    ///
    /// Fails only when `path` has a parent component; never with
    /// `NotCanonical`.
    pub fn checked_join(&self, path: &[u8]) -> (res: Result<NormpathBuf, Error>)
        ensures
            match res {
                Ok(b) => b@ == canonical(joined(self@, path@)),
                Err(e) => e == Error::ContainsParent,
            },
            res is Err <==> contains_parent(path@),
    {
        let mut buf = slice_to_vec(self.as_path());
        match imp::push(&mut buf, path) {
            Ok(()) => Ok(NormpathBuf::wrap(buf)),
            Err(e) => Err(e),
        }
    }

    /// The part of `self` after `base`, compared byte by byte rather than
    /// component by component.
    pub fn quick_strip_prefix(&self, base: &[u8]) -> (res: Option<&'a [u8]>)
        ensures
            match res {
                Some(r) => strip_result(self@, base@) == Some(r@),
                None => strip_result(self@, base@) is None,
            },
    {
        imp::strip(self.as_path(), base)
    }

    /// Whether `base` is a prefix of `self`, compared byte by byte and
    /// ending at a separator or at the end of `self`.
    pub fn quick_starts_with(&self, base: &[u8]) -> (res: bool)
        ensures
            res == strip_result(self@, base@) is Some,
    {
        imp::strip(self.as_path(), base).is_some()
    }

    /// An owned copy of the path.
    pub fn to_owned(&self) -> (res: NormpathBuf)
        ensures
            res@ == self@,
    {
        NormpathBuf::wrap(slice_to_vec(self.as_path()))
    }
}

impl NormpathBuf {
    /// The root path `/`.
    pub fn root() -> (res: Self)
        ensures
            res@ == seq![SLASH],
    {
        let mut bytes = Vec::new();
        bytes.push(SLASH);
        proof {
            assert(bytes@.drop_first() =~= Seq::<u8>::empty());
        }
        NormpathBuf::wrap(bytes)
    }

    /// Validates that `path` is normalized, handing it back unchanged with
    /// the first error otherwise.
    pub fn validate(path: Vec<u8>) -> (res: Result<Self, ConvertError<Vec<u8>>>)
        ensures
            match res {
                Ok(p) => p@ == path@ && is_normalized(path@),
                Err(ec) => ec.value@ == path@ && validate_result(path@) == Err::<(), Error>(
                    ec.error,
                ),
            },
            res is Ok <==> is_normalized(path@),
    {
        proof {
            crate::imp::unix_model::lemma_validate_results(path@);
        }
        let status = match imp::validate(path.as_slice()) {
            Ok(_) => Ok(()),
            Err(e) => Err(e),
        };
        match status {
            Ok(()) => Ok(NormpathBuf::wrap(path)),
            Err(e) => Err(ConvertError::new(e, path)),
        }
    }

    /// Normalizes `path`, removing every non-canonical pattern even when an
    /// error is reported: the error then holds the rewritten path.
    ///
    /// Fails if `path` is not absolute or has a parent component; never with
    /// `NotCanonical`.
    pub fn normalize(path: Vec<u8>) -> (res: Result<Self, ConvertError<Vec<u8>>>)
        ensures
            match res {
                Ok(p) => p@ == canonical(path@),
                Err(ec) => ec.value@ == canonical(path@) && normalize_error(path@) == Some(
                    ec.error,
                ),
            },
            res is Ok <==> normalize_error(path@) is None,
    {
        let ghost orig = path@;
        let mut path = path;
        match imp::normalize(&mut path) {
            Ok(()) => {
                proof {
                    lemma_canonical_is_normalized(orig);
                }
                Ok(NormpathBuf::wrap(path))
            },
            Err(e) => Err(ConvertError::new(e, path)),
        }
    }

    /// Takes `path` without checking it at run time; the contract demands
    /// that it be normalized.
    pub fn new_unchecked(path: Vec<u8>) -> (res: Self)
        requires
            is_normalized(path@),
        ensures
            res@ == path@,
    {
        NormpathBuf::wrap(path)
    }

    /// Borrows `self` as a `Normpath`.
    pub fn as_normpath(&self) -> (res: Normpath<'_>)
        ensures
            res@ == self@,
    {
        Normpath::wrap(self.as_bytes())
    }

    /// Consumes `self`, yielding the underlying bytes.
    pub fn into_os_string(self) -> (res: Vec<u8>)
        ensures
            res@ == self@,
    {
        self.into_path_buf()
    }
}

impl TryFrom<Vec<u8>> for NormpathBuf {
    type Error = ConvertError<Vec<u8>>;

    /// Takes `value` if it is normalized, otherwise normalizes it; on
    /// failure `value` is handed back unchanged.
    fn try_from(value: Vec<u8>) -> (res: Result<Self, Self::Error>)
        ensures
            match res {
                Ok(b) => b@ == canonical(value@),
                Err(ec) => ec.value@ == value@ && normalize_error(value@) is Some && ec.error
                    == if !has_root(value@) {
                    Error::NotAbsolute
                } else {
                    Error::ContainsParent
                },
            },
            res is Ok <==> normalize_error(value@) is None,
    {
        imp::normalize_new_buf(value)
    }
}

impl vstd::std_specs::convert::TryFromSpecImpl<Vec<u8>> for NormpathBuf {
    open spec fn obeys_try_from_spec() -> bool {
        false
    }

    open spec fn try_from_spec(v: Vec<u8>) -> Result<Self, ConvertError<Vec<u8>>> {
        arbitrary()
    }
}

impl<'a> TryFrom<&'a [u8]> for NormpathBuf {
    type Error = ConvertError<&'a [u8]>;

    /// Normalizes a copy of `value`; on failure `value` is handed back.
    fn try_from(value: &'a [u8]) -> (res: Result<Self, Self::Error>)
        ensures
            match res {
                Ok(b) => b@ == canonical(value@),
                Err(ec) => ec.value@ == value@ && normalize_error(value@) is Some && ec.error
                    == if !has_root(value@) {
                    Error::NotAbsolute
                } else {
                    Error::ContainsParent
                },
            },
            res is Ok <==> normalize_error(value@) is None,
    {
        match imp::normalize_new_buf(slice_to_vec(value)) {
            Ok(b) => Ok(b),
            Err(ec) => Err(ConvertError::new(ec.error, value)),
        }
    }
}

impl<'a> vstd::std_specs::convert::TryFromSpecImpl<&'a [u8]> for NormpathBuf {
    open spec fn obeys_try_from_spec() -> bool {
        false
    }

    open spec fn try_from_spec(v: &'a [u8]) -> Result<Self, ConvertError<&'a [u8]>> {
        arbitrary()
    }
}

impl std::str::FromStr for NormpathBuf {
    type Err = ConvertError<String>;

    /// Normalizes the bytes of `s`; on failure `s` is handed back.
    fn from_str(s: &str) -> (res: Result<Self, Self::Err>)
        ensures
            match res {
                Ok(b) => b@ == canonical(s.spec_bytes()),
                Err(ec) => ec.value@ == s@ && normalize_error(s.spec_bytes()) is Some && ec.error
                    == if !has_root(s.spec_bytes()) {
                    Error::NotAbsolute
                } else {
                    Error::ContainsParent
                },
            },
            res is Ok <==> normalize_error(s.spec_bytes()) is None,
    {
        match imp::normalize_new_buf(slice_to_vec(s.as_bytes())) {
            Ok(b) => Ok(b),
            Err(ec) => Err(ConvertError::new(ec.error, s.to_owned())),
        }
    }
}

/// Normalizes all non-canonical patterns of `path`, keeping parent
/// components and relative paths as they are.
pub fn canonicalize_lexically(path: Vec<u8>) -> (res: Vec<u8>)
    ensures
        res@ == canonical(path@),
{
    match NormpathBuf::normalize(path) {
        Ok(it) => it.into_path_buf(),
        Err(e) => e.value,
    }
}

} // verus!
