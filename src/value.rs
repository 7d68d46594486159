use vstd::prelude::*;

verus! {

/// A signal, as opposed to a plain value, where either is accepted.
pub struct Sig<T>(pub T);

/// A plain value that may borrow for `'a`.
pub trait RefValue<'a> {}

/// A plain value that owns its data.
pub trait Value: RefValue<'static> {}

impl<T: Value> RefValue<'static> for T {}

impl Value for i8 {}
impl Value for i16 {}
impl Value for i32 {}
impl Value for i64 {}
impl Value for u8 {}
impl Value for u16 {}
impl Value for u32 {}
impl Value for u64 {}
impl Value for bool {}
impl Value for String {}

impl<'a> RefValue<'a> for &'a str {}

impl<'a> RefValue<'a> for &'a String {}

impl<'a, T: 'a> RefValue<'a> for Option<T> {}

impl<'a, T: 'a> RefValue<'a> for [T] {}

impl<'a, const COUNT: usize, T: 'a> RefValue<'a> for [T; COUNT] {}

} // verus!
