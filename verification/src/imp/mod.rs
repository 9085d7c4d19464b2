pub mod unix_model;
pub mod unix;
pub mod windows_model;
pub mod windows;

use vstd::prelude::*;

use crate::trivial::{ConvertError as Ec, CowNormpath, Error as E, Normpath, NormpathBuf};
use unix_model::{
    canonical, contains_parent, has_root, is_normalized, joined, normalize_error, strip_result,
    validate_canonical_result, validate_parentless_result, validate_result,
};

verus! {

/// Normalizes `path` in place with the local (Unix) path syntax.
pub fn normalize(path: &mut Vec<u8>) -> (res: Result<(), E>)
    ensures
        final(path)@ == canonical(old(path)@),
        match res {
            Ok(()) => normalize_error(old(path)@) is None,
            Err(e) => normalize_error(old(path)@) == Some(e),
        },
{
    unix::normalize(path)
}

/// Validates `path`, failing fast with the first error.
pub fn validate<'a>(path: &'a [u8]) -> (res: Result<Normpath<'a>, E>)
    ensures
        match res {
            Ok(p) => p@ == path@ && validate_result(path@) is Ok,
            Err(e) => validate_result(path@) == Err::<(), E>(e),
        },
{
    unix::validate(path)
}

/// Validates `path`, reporting non-canonicality first.
pub fn validate_canonical<'a>(path: &'a [u8]) -> (res: Result<Normpath<'a>, E>)
    ensures
        match res {
            Ok(p) => p@ == path@ && validate_canonical_result(path@) is Ok,
            Err(e) => validate_canonical_result(path@) == Err::<(), E>(e),
        },
{
    unix::validate_canonical(path)
}

/// Validates `path`, reporting a parent component first.
pub fn validate_parentless<'a>(path: &'a [u8]) -> (res: Result<Normpath<'a>, E>)
    ensures
        match res {
            Ok(p) => p@ == path@ && validate_parentless_result(path@) is Ok,
            Err(e) => validate_parentless_result(path@) == Err::<(), E>(e),
        },
{
    unix::validate_parentless(path)
}

/// Borrows `path` if it is normalized, otherwise normalizes a copy of it.
pub fn normalize_new_cow<'a>(path: &'a [u8]) -> (res: Result<CowNormpath<'a>, E>)
    ensures
        match res {
            Ok(c) => c@ == canonical(path@) && normalize_error(path@) is None && ((c is Borrowed)
                == is_normalized(path@)),
            Err(e) => normalize_error(path@) is Some && e == if !has_root(path@) {
                E::NotAbsolute
            } else {
                E::ContainsParent
            },
        },
{
    unix::normalize_new_cow(path)
}

/// Takes `path` if it is normalized, otherwise normalizes it.
pub fn normalize_new_buf(path: Vec<u8>) -> (res: Result<NormpathBuf, Ec<Vec<u8>>>)
    ensures
        match res {
            Ok(b) => b@ == canonical(path@) && normalize_error(path@) is None,
            Err(ec) => ec.value@ == path@ && normalize_error(path@) is Some && ec.error == if !has_root(
                path@,
            ) {
                E::NotAbsolute
            } else {
                E::ContainsParent
            },
        },
{
    unix::normalize_new_buf(path)
}

/// Extends the normalized `buf` with `path`, normalizing the result.
pub fn push(buf: &mut Vec<u8>, path: &[u8]) -> (res: Result<(), E>)
    requires
        is_normalized(old(buf)@),
    ensures
        is_normalized(final(buf)@),
        match res {
            Ok(()) => final(buf)@ == canonical(joined(old(buf)@, path@)),
            Err(e) => e == E::ContainsParent && final(buf)@ == old(buf)@,
        },
        res is Err <==> contains_parent(path@),
{
    unix::push(buf, path)
}

/// The part of `path` after `base`, compared byte by byte.
pub fn strip<'a>(path: &'a [u8], base: &[u8]) -> (res: Option<&'a [u8]>)
    ensures
        match res {
            Some(r) => strip_result(path@, base@) == Some(r@),
            None => strip_result(path@, base@) is None,
        },
{
    unix::strip(path, base)
}

} // verus!
