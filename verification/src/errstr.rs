//! A minimal error wrapper around an arbitrary payload.
//!
//! Command-line front ends use it to turn a message into an error value
//! without defining a dedicated error type for each occasion.

use vstd::prelude::*;

verus! {

/// An error that is nothing but its payload.
pub enum ErrStr<T> {
    Data { data: T },
}

impl<T> ErrStr<T> {
    /// Wraps a payload as an error value.
    pub fn new(data: T) -> (r: ErrStr<T>)
        ensures
            r == (ErrStr::Data { data }),
    {
        ErrStr::Data { data }
    }

    /// Wraps a payload as the error of a result.
    pub fn result<R>(data: T) -> (r: Result<R, ErrStr<T>>)
        ensures
            r == Result::<R, ErrStr<T>>::Err(ErrStr::Data { data }),
    {
        Err(ErrStr::Data { data })
    }
}

} // verus!
