//! Small combinators that attach conditional failure and wrapping to any value.
use vstd::prelude::*;

verus! {

/// Maps any value to `()`.
pub trait ForgetValue: Sized {
    /// Drops the value.
    fn forget_val(self);
}

impl<T> ForgetValue for T {
    fn forget_val(self) {
    }
}

/// Wraps a value in either variant of `Result`.
pub trait WrapInRes: Sized {
    /// The value in `Ok`.
    fn in_ok<E>(self) -> (r: Result<Self, E>)
        ensures
            r == Ok::<Self, E>(self),
    ;

    /// The value in `Err`.
    fn in_err<O>(self) -> (r: Result<O, Self>)
        ensures
            r == Err::<O, Self>(self),
    ;
}

impl<T> WrapInRes for T {
    fn in_ok<E>(self) -> (r: Result<Self, E>) {
        Ok(self)
    }

    fn in_err<O>(self) -> (r: Result<O, Self>) {
        Err(self)
    }
}

/// Swaps `Ok` and `Err`.
pub trait SwapRes<T, E>: Sized {
    /// The value with its variants swapped.
    spec fn swapped(self) -> Result<T, E>;

    /// Swaps the `Ok` and `Err` variants.
    fn swap_res(self) -> (r: Result<T, E>)
        ensures
            r == self.swapped(),
    ;
}

impl<T, E> SwapRes<E, T> for Result<T, E> {
    open spec fn swapped(self) -> Result<E, T> {
        match self {
            Ok(t) => Err(t),
            Err(e) => Ok(e),
        }
    }

    fn swap_res(self) -> (r: Result<E, T>) {
        match self {
            Ok(t) => Err(t),
            Err(e) => Ok(e),
        }
    }
}

/// Turns an `Option` into a `Result`, with its content as either variant.
pub trait AddToRes<T>: Sized {
    /// The value as an `Option`.
    spec fn as_option(self) -> Option<T>;

    /// `Ok(ok)` for `None`, `Err(t)` for `Some(t)`.
    fn with_ok<O>(self, ok: O) -> (r: Result<O, T>)
        ensures
            r == match self.as_option() {
                None => Ok::<O, T>(ok),
                Some(t) => Err::<O, T>(t),
            },
    ;

    /// `Ok(t)` for `Some(t)`, `Err(err)` for `None`.
    fn with_err<E>(self, err: E) -> (r: Result<T, E>)
        ensures
            r == match self.as_option() {
                Some(t) => Ok::<T, E>(t),
                None => Err::<T, E>(err),
            },
    ;
}

impl<T> AddToRes<T> for Option<T> {
    open spec fn as_option(self) -> Option<T> {
        self
    }

    fn with_ok<O>(self, ok: O) -> (r: Result<O, T>) {
        match self {
            None => Ok(ok),
            Some(e) => Err(e),
        }
    }

    fn with_err<E>(self, err: E) -> (r: Result<T, E>) {
        match self {
            Some(t) => Ok(t),
            None => Err(err),
        }
    }
}

} // verus!
