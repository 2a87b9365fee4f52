//! Classes: how native Rust data is reflected as JS-managed data.
use vstd::prelude::*;

verus! {

/// A trait for Rust data which can be reflected: the class that reflects it.
pub trait HasClass {
    type Class;
}

/// A class whose instances, in compartment `C`, are native values of type `Instance`.
pub trait HasInstance<'a, C>: Sized {
    type Instance: HasClass<Class = Self>;
}

/// Strings are reflected by the class `String` itself.
impl HasClass for String {
    type Class = String;
}

impl<'a, C> HasInstance<'a, C> for String {
    type Instance = String;
}

/// The class initializer used when a class names no other.
pub struct DefaultInitializer;

} // verus!
