use vstd::prelude::*;

use crate::imp::unix_model::{
    canonical, contains_parent, is_normalized, joined, lemma_parent_normalized, parent_of,
};
use std::collections::TryReserveError;
use vstd::slice::slice_to_vec;

verus! {

/// Why a path cannot be a normalized path.
#[derive(Debug, Clone, Copy, PartialEq, Eq, Structural)]
pub enum Error {
    /// The path is not absolute.
    NotAbsolute,
    /// The path is not canonical.
    NotCanonical,
    /// The path contains a parent component that cannot be normalized away.
    ContainsParent,
}

/// Why a value cannot be converted into a normalized path, together with
/// the value itself.
#[derive(Debug, Clone, Copy, PartialEq, Eq)]
pub struct ConvertError<T> {
    /// The reason of the failure.
    pub error: Error,
    /// The value that failed to convert.
    pub value: T,
}

impl Error {
    /// A description of the error.
    pub fn message(&self) -> (res: &'static str)
        ensures
            res@ == match self {
                Error::NotAbsolute => "path is not absolute"@,
                Error::NotCanonical => "path is not canonical"@,
                Error::ContainsParent => "path contains a '..' component"@,
            },
    {
        match self {
            Error::NotAbsolute => "path is not absolute",
            Error::NotCanonical => "path is not canonical",
            Error::ContainsParent => "path contains a '..' component",
        }
    }
}

impl Error {
    /// A description of the error for the Windows path syntax, where only a
    /// `..` that escapes the base is a parent error.
    pub fn windows_message(&self) -> (res: &'static str)
        ensures
            res@ == match self {
                Error::NotAbsolute => "path is not absolute"@,
                Error::NotCanonical => "path is not canonical"@,
                Error::ContainsParent => "path contains a '..' component that points outside of base directory"@,
            },
    {
        match self {
            Error::NotAbsolute => "path is not absolute",
            Error::NotCanonical => "path is not canonical",
            Error::ContainsParent => "path contains a '..' component that points outside of base directory",
        }
    }
}

impl<T> ConvertError<T> {
    /// Creates a new `ConvertError` with the given error and value.
    pub fn new(error: Error, value: T) -> (res: Self)
        ensures
            res.error == error,
            res.value == value,
    {
        ConvertError { error, value }
    }

    /// Maps the value with `f`, keeping the error.
    pub fn map<U, F: FnOnce(T) -> U>(self, f: F) -> (res: ConvertError<U>)
        requires
            call_requires(f, (self.value,)),
        ensures
            res.error == self.error,
            call_ensures(f, (self.value,), res.value),
    {
        ConvertError { error: self.error, value: f(self.value) }
    }
}

impl<T> From<ConvertError<T>> for Error {
    /// The reason of the failure, dropping the value.
    fn from(value: ConvertError<T>) -> (res: Self) {
        value.error
    }
}

impl<T> vstd::std_specs::convert::FromSpecImpl<ConvertError<T>> for Error {
    open spec fn obeys_from_spec() -> bool {
        true
    }

    open spec fn from_spec(v: ConvertError<T>) -> Self {
        v.error
    }
}

impl<'a, T: Clone> ConvertError<&'a T> {
    /// Clones the value, keeping the error.
    pub fn cloned(&self) -> (res: ConvertError<T>)
        ensures
            res.error == self.error,
            cloned::<T>(*self.value, res.value),
    {
        ConvertError { error: self.error, value: self.value.clone() }
    }
}

impl<'a> ConvertError<&'a [u8]> {
    /// Copies the value into an owned buffer, keeping the error.
    pub fn to_owned(&self) -> (res: ConvertError<Vec<u8>>)
        ensures
            res.error == self.error,
            res.value@ == self.value@,
    {
        ConvertError { error: self.error, value: slice_to_vec(self.value) }
    }
}

} // verus!

verus! {

/// A borrowed normalized Unix path.
///
/// The bytes it wraps always form a normalized path: absolute, canonical and
/// without parent components.
pub struct Normpath<'a> {
    bytes: &'a [u8],
}

impl<'a> Normpath<'a> {
    #[verifier::type_invariant]
    spec fn inv(self) -> bool {
        is_normalized(self.bytes@)
    }

    /// The bytes of the path.
    pub closed spec fn view(&self) -> Seq<u8> {
        self.bytes@
    }

    /// Wraps bytes already known to be normalized.
    pub(crate) fn wrap(bytes: &'a [u8]) -> (res: Self)
        requires
            is_normalized(bytes@),
        ensures
            res@ == bytes@,
    {
        Normpath { bytes }
    }

    /// Yields the underlying bytes.
    pub fn as_path(&self) -> (res: &'a [u8])
        ensures
            res@ == self@,
            is_normalized(res@),
    {
        proof {
            use_type_invariant(self);
        }
        self.bytes
    }
}

/// An owned normalized Unix path.
///
/// The bytes it holds always form a normalized path: absolute, canonical
/// and without parent components.
pub struct NormpathBuf {
    bytes: Vec<u8>,
}

impl NormpathBuf {
    #[verifier::type_invariant]
    spec fn inv(self) -> bool {
        is_normalized(self.bytes@)
    }

    /// The bytes of the path.
    pub closed spec fn view(&self) -> Seq<u8> {
        self.bytes@
    }

    /// Wraps bytes already known to be normalized.
    pub(crate) fn wrap(bytes: Vec<u8>) -> (res: Self)
        requires
            is_normalized(bytes@),
        ensures
            res@ == bytes@,
    {
        NormpathBuf { bytes }
    }

    /// Borrows the underlying bytes.
    pub fn as_bytes(&self) -> (res: &[u8])
        ensures
            res@ == self@,
            is_normalized(res@),
    {
        proof {
            use_type_invariant(self);
        }
        self.bytes.as_slice()
    }

    /// Consumes `self`, yielding the underlying bytes.
    pub fn into_path_buf(self) -> (res: Vec<u8>)
        ensures
            res@ == self@,
            is_normalized(res@),
    {
        proof {
            use_type_invariant(&self);
        }
        self.bytes
    }
}

} // verus!

verus! {

/// A normalized path that is either borrowed from the input or owned after
/// normalization.
pub enum CowNormpath<'a> {
    /// The input was already normalized.
    Borrowed(Normpath<'a>),
    /// The normalized form of the input.
    Owned(NormpathBuf),
}

impl<'a> CowNormpath<'a> {
    /// The bytes of the path.
    pub open spec fn view(&self) -> Seq<u8> {
        match self {
            CowNormpath::Borrowed(p) => p@,
            CowNormpath::Owned(p) => p@,
        }
    }

    /// Yields an owned path, copying the bytes if they are borrowed.
    pub fn into_owned(self) -> (res: NormpathBuf)
        ensures
            res@ == self@,
    {
        match self {
            CowNormpath::Borrowed(p) => {
                let bytes = p.as_path();
                NormpathBuf::wrap(slice_to_vec(bytes))
            },
            CowNormpath::Owned(p) => p,
        }
    }

    /// Borrows the bytes of the path.
    pub fn as_bytes(&self) -> (res: &[u8])
        ensures
            res@ == self@,
            is_normalized(res@),
    {
        match self {
            CowNormpath::Borrowed(p) => p.as_path(),
            CowNormpath::Owned(p) => p.as_bytes(),
        }
    }
}

} // verus!

verus! {

/// `Vec::capacity`: the number of bytes the buffer holds without
/// reallocating, which its documentation guarantees to be at least the
/// length.
#[verifier::external_body]
fn vec_capacity(v: &Vec<u8>) -> (res: usize)
    ensures
        res >= v@.len(),
{
    v.capacity()
}

/// `Vec::reserve_exact`: reserves room and leaves the contents as they are;
/// it panics when the new capacity would exceed `isize::MAX` bytes, which the
/// precondition rules out.
#[verifier::external_body]
fn vec_reserve_exact(v: &mut Vec<u8>, additional: usize)
    requires
        old(v)@.len() + additional <= isize::MAX,
    ensures
        final(v)@ == old(v)@,
{
    v.reserve_exact(additional)
}

/// `Vec::try_reserve_exact`: tries to reserve room and leaves the contents
/// as they are, whatever the outcome. Its documentation promises an error
/// when the capacity overflows, which it does when the length and
/// `additional` together exceed `isize::MAX` bytes; whether it succeeds
/// otherwise is up to the allocator and is left unsaid.
#[verifier::external_body]
fn vec_try_reserve_exact(v: &mut Vec<u8>, additional: usize) -> (res: Result<(), TryReserveError>)
    ensures
        final(v)@ == old(v)@,
        old(v)@.len() + additional > isize::MAX ==> res is Err,
{
    v.try_reserve_exact(additional)
}

/// `Vec::shrink_to_fit`: releases spare room and leaves the contents as
/// they are.
#[verifier::external_body]
fn vec_shrink_to_fit(v: &mut Vec<u8>)
    ensures
        final(v)@ == old(v)@,
{
    v.shrink_to_fit()
}

/// `Vec::shrink_to`: releases spare room down to a bound and leaves the
/// contents as they are.
#[verifier::external_body]
fn vec_shrink_to(v: &mut Vec<u8>, min_capacity: usize)
    ensures
        final(v)@ == old(v)@,
{
    v.shrink_to(min_capacity)
}

impl NormpathBuf {
    /// Extends `self` with `path` as `PathBuf::push` does, normalizing the
    /// result.
    ///
    /// Fails, leaving `self` untouched, only when `path` has a parent
    /// component; never with `NotCanonical`.
    pub fn push(&mut self, path: &[u8]) -> (res: Result<(), Error>)
        ensures
            match res {
                Ok(()) => final(self)@ == canonical(joined(old(self)@, path@)),
                Err(e) => e == Error::ContainsParent && final(self)@ == old(self)@,
            },
            res is Err <==> contains_parent(path@),
    {
        proof {
            use_type_invariant(&*self);
        }
        let mut buf = NormpathBuf::root().bytes;
        std::mem::swap(&mut self.bytes, &mut buf);
        let res = crate::imp::push(&mut buf, path);
        self.bytes = buf;
        res
    }

    /// Truncates `self` to its parent; returns `false` and does nothing for
    /// the root.
    pub fn pop(&mut self) -> (res: bool)
        ensures
            res == (old(self)@.len() > 1),
            match parent_of(old(self)@) {
                Some(p) => final(self)@ == p,
                None => final(self)@ == old(self)@,
            },
    {
        proof {
            use_type_invariant(&*self);
        }
        let ghost mut pv: Seq<u8> = Seq::empty();
        let len = match crate::imp::unix::parent(self.bytes.as_slice()) {
            Some(p) => {
                proof {
                    pv = p@;
                }
                p.len()
            },
            None => {
                return false;
            },
        };
        proof {
            lemma_parent_normalized(self.bytes@);
        }
        let mut buf = NormpathBuf::root().bytes;
        std::mem::swap(&mut self.bytes, &mut buf);
        buf.truncate(len);
        assert(buf@ == pv);
        self.bytes = buf;
        true
    }

    /// The capacity of the underlying buffer, at least its length.
    pub fn capacity(&self) -> (res: usize)
        ensures
            res >= self@.len(),
    {
        vec_capacity(&self.bytes)
    }

    /// Reserves room for at least `additional` more bytes; the path is
    /// unchanged. The new capacity must fit in `isize::MAX` bytes.
    pub fn reserve(&mut self, additional: usize)
        requires
            old(self)@.len() + additional <= isize::MAX,
        ensures
            final(self)@ == old(self)@,
    {
        proof {
            use_type_invariant(&*self);
        }
        let mut buf = NormpathBuf::root().bytes;
        std::mem::swap(&mut self.bytes, &mut buf);
        buf.reserve(additional);
        self.bytes = buf;
    }

    /// Reserves room for exactly `additional` more bytes; the path is
    /// unchanged. The new capacity must fit in `isize::MAX` bytes.
    pub fn reserve_exact(&mut self, additional: usize)
        requires
            old(self)@.len() + additional <= isize::MAX,
        ensures
            final(self)@ == old(self)@,
    {
        proof {
            use_type_invariant(&*self);
        }
        let mut buf = NormpathBuf::root().bytes;
        std::mem::swap(&mut self.bytes, &mut buf);
        vec_reserve_exact(&mut buf, additional);
        self.bytes = buf;
    }

    /// Tries to reserve room for at least `additional` more bytes; the path
    /// is unchanged whatever the outcome.
    pub fn try_reserve(&mut self, additional: usize) -> (res: Result<(), TryReserveError>)
        ensures
            final(self)@ == old(self)@,
    {
        proof {
            use_type_invariant(&*self);
        }
        let mut buf = NormpathBuf::root().bytes;
        std::mem::swap(&mut self.bytes, &mut buf);
        let res = buf.try_reserve(additional);
        self.bytes = buf;
        res
    }

    /// Tries to reserve room for exactly `additional` more bytes; the path
    /// is unchanged whatever the outcome. Fails when the new capacity would
    /// exceed `isize::MAX` bytes.
    pub fn try_reserve_exact(&mut self, additional: usize) -> (res: Result<(), TryReserveError>)
        ensures
            final(self)@ == old(self)@,
            old(self)@.len() + additional > isize::MAX ==> res is Err,
    {
        proof {
            use_type_invariant(&*self);
        }
        let mut buf = NormpathBuf::root().bytes;
        std::mem::swap(&mut self.bytes, &mut buf);
        let res = vec_try_reserve_exact(&mut buf, additional);
        self.bytes = buf;
        res
    }

    /// Releases spare room; the path is unchanged.
    pub fn shrink_to_fit(&mut self)
        ensures
            final(self)@ == old(self)@,
    {
        proof {
            use_type_invariant(&*self);
        }
        let mut buf = NormpathBuf::root().bytes;
        std::mem::swap(&mut self.bytes, &mut buf);
        vec_shrink_to_fit(&mut buf);
        self.bytes = buf;
    }

    /// Releases spare room down to `min_capacity`; the path is unchanged.
    pub fn shrink_to(&mut self, min_capacity: usize)
        ensures
            final(self)@ == old(self)@,
    {
        proof {
            use_type_invariant(&*self);
        }
        let mut buf = NormpathBuf::root().bytes;
        std::mem::swap(&mut self.bytes, &mut buf);
        vec_shrink_to(&mut buf, min_capacity);
        self.bytes = buf;
    }
}

} // verus!
