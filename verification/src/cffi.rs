//! Reference-counted handles to values, slices and strings, for handing shared
//! data across an interface: each is one pointer to data that stays put for as
//! long as a handle to it lives, and cloning a handle shares the data.
use vstd::prelude::*;
use std::ops::Deref;
use std::rc::Rc;
use crate::text::str_eq;

verus! {

/// A shared slice.
#[derive(Debug, PartialEq, Eq, Hash)]
pub struct SliceRC<T> {
    rc: Rc<[T]>,
}

impl<T> SliceRC<T> {
    /// The elements.
    pub closed spec fn view(&self) -> Seq<T> {
        (*self.rc)@
    }

    pub fn new(rc: Rc<[T]>) -> (r: Self)
        ensures
            r.view() == (*rc)@,
    {
        SliceRC { rc }
    }

    /// The shared elements.
    pub fn as_slice(&self) -> (r: &[T])
        ensures
            r@ == self.view(),
    {
        &self.rc
    }

    /// Gives the handle back as the `Rc` it holds.
    pub fn into_rc(self) -> (r: Rc<[T]>)
        ensures
            (*r)@ == self.view(),
    {
        self.rc
    }
}

impl<T> Deref for SliceRC<T> {
    type Target = [T];

    fn deref(&self) -> (r: &[T])
        ensures
            r@ == self.view(),
    {
        &self.rc
    }
}

impl<T> Clone for SliceRC<T> {
    fn clone(&self) -> (r: Self)
        ensures
            r.view() == self.view(),
    {
        SliceRC { rc: share_slice(&self.rc) }
    }
}

impl<T> From<Rc<[T]>> for SliceRC<T> {
    fn from(rc: Rc<[T]>) -> (r: Self)
        ensures
            r.view() == (*rc)@,
    {
        SliceRC { rc }
    }
}

impl<T> vstd::std_specs::convert::FromSpecImpl<Rc<[T]>> for SliceRC<T> {
    open spec fn obeys_from_spec() -> bool {
        true
    }

    closed spec fn from_spec(rc: Rc<[T]>) -> Self {
        SliceRC { rc }
    }
}

/// `Rc::clone` on a shared slice: another handle to the same elements.
#[verifier::external_body]
fn share_slice<T>(rc: &Rc<[T]>) -> (r: Rc<[T]>)
    ensures
        (*r)@ == (**rc)@,
{
    Rc::clone(rc)
}

/// A shared value.
#[derive(Debug, PartialEq, Eq, Hash)]
pub struct RC<T> {
    rc: Rc<T>,
}

impl<T> RC<T> {
    /// The value.
    pub closed spec fn view(&self) -> T {
        *self.rc
    }

    #[inline]
    pub fn new(rc: Rc<T>) -> (r: Self)
        ensures
            r.view() == *rc,
    {
        RC { rc }
    }

    /// The shared value.
    pub fn get(&self) -> (r: &T)
        ensures
            *r == self.view(),
    {
        &self.rc
    }

    /// Gives the handle back as the `Rc` it holds.
    pub fn into_rc(self) -> (r: Rc<T>)
        ensures
            *r == self.view(),
    {
        self.rc
    }
}

impl<T> Deref for RC<T> {
    type Target = T;

    #[inline]
    fn deref(&self) -> (r: &T)
        ensures
            *r == self.view(),
    {
        &self.rc
    }
}

impl<T> Clone for RC<T> {
    fn clone(&self) -> (r: Self)
        ensures
            r.view() == self.view(),
    {
        RC { rc: share_value(&self.rc) }
    }
}

impl<T> From<Rc<T>> for RC<T> {
    fn from(rc: Rc<T>) -> (r: Self)
        ensures
            r.view() == *rc,
    {
        RC { rc }
    }
}

impl<T> vstd::std_specs::convert::FromSpecImpl<Rc<T>> for RC<T> {
    open spec fn obeys_from_spec() -> bool {
        true
    }

    closed spec fn from_spec(rc: Rc<T>) -> Self {
        RC { rc }
    }
}

/// `Rc::clone` on a shared value: another handle to the same value.
#[verifier::external_body]
fn share_value<T>(rc: &Rc<T>) -> (r: Rc<T>)
    ensures
        *r == **rc,
{
    Rc::clone(rc)
}

/// A shared string.
#[derive(Debug, Hash)]
pub struct StrRC {
    rc: Rc<str>,
}

impl StrRC {
    /// The characters.
    pub closed spec fn view(&self) -> Seq<char> {
        (*self.rc)@
    }

    #[inline]
    pub fn new(rc: Rc<str>) -> (r: Self)
        ensures
            r.view() == (*rc)@,
    {
        StrRC { rc }
    }

    #[inline]
    pub fn as_str(&self) -> (r: &str)
        ensures
            r@ == self.view(),
    {
        &self.rc
    }

    /// Gives the handle back as the `Rc` it holds.
    pub fn into_rc(self) -> (r: Rc<str>)
        ensures
            (*r)@ == self.view(),
    {
        self.rc
    }

    /// A handle to a new shared copy of `s`.
    pub fn from_string(s: String) -> (r: Self)
        ensures
            r.view() == s@,
    {
        StrRC { rc: rc_from_string(s) }
    }
}

impl Deref for StrRC {
    type Target = str;

    #[inline]
    fn deref(&self) -> (r: &str)
        ensures
            r@ == self.view(),
    {
        &self.rc
    }
}

impl Eq for StrRC {
}

impl Clone for StrRC {
    fn clone(&self) -> (r: Self)
        ensures
            r.view() == self.view(),
    {
        StrRC { rc: share_str(&self.rc) }
    }
}

impl PartialEq for StrRC {
    fn eq(&self, other: &Self) -> (r: bool) {
        str_eq(self.as_str(), other.as_str())
    }
}

impl vstd::std_specs::cmp::PartialEqSpecImpl for StrRC {
    open spec fn obeys_eq_spec() -> bool {
        true
    }

    open spec fn eq_spec(&self, other: &Self) -> bool {
        self.view() == other.view()
    }
}

impl From<Rc<str>> for StrRC {
    fn from(rc: Rc<str>) -> (r: Self)
        ensures
            r.view() == (*rc)@,
    {
        StrRC { rc }
    }
}

impl vstd::std_specs::convert::FromSpecImpl<Rc<str>> for StrRC {
    open spec fn obeys_from_spec() -> bool {
        true
    }

    closed spec fn from_spec(rc: Rc<str>) -> Self {
        StrRC { rc }
    }
}

/// `Rc::clone` on a shared string: another handle to the same text.
#[verifier::external_body]
fn share_str(rc: &Rc<str>) -> (r: Rc<str>)
    ensures
        (*r)@ == (**rc)@,
{
    Rc::clone(rc)
}

/// `Rc::<str>::from` on a `String`: a shared string with the same text.
#[verifier::external_body]
fn rc_from_string(s: String) -> (r: Rc<str>)
    ensures
        (*r)@ == s@,
{
    Rc::from(s)
}

} // verus!
