//! The language's types, and handles to values that are interned: stored once,
//! so that two handles to equal values point at the same place.
use vstd::prelude::*;
use std::hash::{Hash, Hasher};
use std::ops::Deref;

verus! {

/// Keeps the interned handles from being built other than through
/// `new_unchecked`; its field is private.
#[derive(Clone, Copy, Debug)]
pub struct PrivateZst(());

/// A reference to a value that is interned, and is known to be unique.
///
/// Note that it is possible to have a `T` and a `Interned<T>` that are (or
/// refer to) equal but different values. But if you have two different
/// `Interned<T>`s, they both refer to the same value, at a single location in
/// memory. This means that equality and hashing can be done on the value's
/// address rather than the value's contents, which can improve performance.
///
/// The `PrivateZst` field means you can pattern match with `Interned(v, _)`
/// but you can only construct a `Interned` with `new_unchecked`, and not
/// directly.
#[derive(Debug)]
pub struct Interned<'a, T>(pub &'a T, pub PrivateZst);

impl<'a, T> Interned<'a, T> {
    /// Create a new `Interned` value. The value referred to *must* be interned
    /// and thus be unique, and it *must* remain unique in the future. If the
    /// uniqueness condition is violated it will cause incorrect behaviour but
    /// will not affect memory safety.
    #[inline]
    pub fn new_unchecked(t: &'a T) -> (r: Self)
        ensures
            *r.0 == *t,
    {
        Interned(t, PrivateZst(()))
    }

    /// The interned value.
    #[inline]
    pub fn get(&self) -> (r: &'a T)
        ensures
            *r == *self.0,
    {
        self.0
    }
}

impl<'a, T> Clone for Interned<'a, T> {
    fn clone(&self) -> (r: Self)
        ensures
            *r.0 == *self.0,
    {
        *self
    }
}

impl<'a, T> Copy for Interned<'a, T> {
}

impl<'a, T> Deref for Interned<'a, T> {
    type Target = T;

    #[inline]
    fn deref(&self) -> (r: &T)
        ensures
            *r == *self.0,
    {
        self.0
    }
}

impl<'a, T> PartialEq for Interned<'a, T> {
    /// Pointer equality implies equality, due to the uniqueness constraint.
    #[inline]
    fn eq(&self, other: &Self) -> (r: bool) {
        same_place(self.0, other.0)
    }
}

/// Equality of interned handles compares where the values lie, which no
/// contract over values can state.
impl<'a, T> vstd::std_specs::cmp::PartialEqSpecImpl for Interned<'a, T> {
    open spec fn obeys_eq_spec() -> bool {
        false
    }

    open spec fn eq_spec(&self, other: &Self) -> bool {
        *self.0 == *other.0
    }
}

impl<'a, T> Eq for Interned<'a, T> {
}

impl<'a, T: Hash> Hash for Interned<'a, T> {
    /// Pointer hashing is sufficient, due to the uniqueness constraint.
    #[inline]
    fn hash<H: Hasher>(&self, s: &mut H) {
        hash_place(self.0, s)
    }
}

/// `std::ptr::eq` on two references: whether they point at the same place.
#[verifier::external_body]
fn same_place<T>(a: &T, b: &T) -> (r: bool) {
    std::ptr::eq(a, b)
}

/// `std::ptr::eq` on two slices: whether they start at the same place and have
/// the same length.
#[verifier::external_body]
fn same_slice_place<T>(a: &[T], b: &[T]) -> (r: bool) {
    std::ptr::eq(a, b)
}

/// `std::ptr::hash`: feeds the address a reference holds to a hasher.
#[verifier::external_body]
fn hash_place<T, H: Hasher>(a: &T, s: &mut H) {
    std::ptr::hash(a, s)
}

/// `std::ptr::hash` on a slice: feeds its address and length to a hasher.
#[verifier::external_body]
fn hash_slice_place<T, H: Hasher>(a: &[T], s: &mut H) {
    std::ptr::hash(a, s)
}

/// An interned slice: a slice stored once, compared and hashed by where it lies.
#[derive(Debug)]
pub struct InternedSlice<'a, T>(pub &'a [T], pub PrivateZst);

impl<'a, T> InternedSlice<'a, T> {
    #[inline]
    pub fn new_unchecked(t: &'a [T]) -> (r: Self)
        ensures
            r.0@ == t@,
    {
        Self(t, PrivateZst(()))
    }

    /// The interned elements.
    #[inline]
    pub fn as_slice(&self) -> (r: &'a [T])
        ensures
            r@ == self.0@,
    {
        self.0
    }
}

impl<'a, T> Clone for InternedSlice<'a, T> {
    fn clone(&self) -> (r: Self)
        ensures
            r.0@ == self.0@,
    {
        *self
    }
}

impl<'a, T> Copy for InternedSlice<'a, T> {
}

impl<'a, T> Deref for InternedSlice<'a, T> {
    type Target = [T];

    #[inline]
    fn deref(&self) -> (r: &[T])
        ensures
            r@ == self.0@,
    {
        self.0
    }
}

impl<'a, T> PartialEq for InternedSlice<'a, T> {
    /// Pointer equality implies equality, due to the uniqueness constraint.
    #[inline]
    fn eq(&self, other: &Self) -> (r: bool) {
        same_slice_place(self.0, other.0)
    }
}

/// Equality of interned slices compares where they lie, which no contract over
/// values can state.
impl<'a, T> vstd::std_specs::cmp::PartialEqSpecImpl for InternedSlice<'a, T> {
    open spec fn obeys_eq_spec() -> bool {
        false
    }

    open spec fn eq_spec(&self, other: &Self) -> bool {
        self.0@ == other.0@
    }
}

impl<'a, T> Eq for InternedSlice<'a, T> {
}

impl<'a, T: Hash> Hash for InternedSlice<'a, T> {
    /// Pointer hashing is sufficient, due to the uniqueness constraint.
    #[inline]
    fn hash<H: Hasher>(&self, s: &mut H) {
        hash_slice_place(self.0, s)
    }
}

/// An interned slice behind one thin pointer.
#[derive(Debug, Clone, Copy, PartialEq, Eq, Hash)]
pub struct ThinSlice<'a, T>(pub Interned<'a, InternedSlice<'a, T>>);

impl<'a, T> ThinSlice<'a, T> {
    #[inline]
    pub fn new_unchecked(t: &'a InternedSlice<'a, T>) -> (r: Self)
        ensures
            (*r.0.0).0@ == t.0@,
    {
        Self(Interned::new_unchecked(t))
    }

    /// The elements.
    #[inline]
    pub fn as_slice(&self) -> (r: &'a [T])
        ensures
            r@ == (*self.0.0).0@,
    {
        self.0.0.0
    }
}

impl<'a, T> Deref for ThinSlice<'a, T> {
    type Target = [T];

    #[inline]
    fn deref(&self) -> (r: &[T])
        ensures
            r@ == (*self.0.0).0@,
    {
        self.0.0.0
    }
}

#[derive(Debug, Copy, Clone, PartialEq, Eq, Hash, Structural)]
pub struct VarID(pub u32);

#[derive(Debug, Copy, Clone, PartialEq, Eq, Hash, Structural)]
pub struct GVarID(pub u32);

#[derive(Debug, Clone, Copy, PartialEq, Eq, Hash)]
pub enum Type<'a> {
    Function { input: ThinSlice<'a, Type<'a>>, output: Interned<'a, Type<'a>> },
    Tuple(InternedSlice<'a, Type<'a>>),
    Pointer(Interned<'a, Type<'a>>),
    Int(IntType),
    String,
    Void,
}

#[derive(Debug, Clone, Copy, PartialEq, Eq, Hash, Structural)]
pub enum IntSign {
    Signed,
    Unsigned,
}

#[derive(Debug, Clone, Copy, PartialEq, Eq, Hash, Structural)]
pub enum IntSize {
    I1,
    I8,
    I16,
    I32,
    I64,
    I128,
}

#[derive(Debug, Clone, Copy, PartialEq, Eq, Hash, Structural)]
pub struct IntType {
    pub sign: IntSign,
    pub size: IntSize,
}

} // verus!
