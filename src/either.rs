use vstd::prelude::*;

verus! {

/// Generic "either one or the other" type.
#[derive(Clone, Copy, Debug, PartialEq, Eq)]
pub enum Either<T, U> {
    Left(T),
    Right(U),
}

impl<T, U> Either<T, U> {
    /// Check whether this container stores the Left type.
    pub fn is_left(&self) -> (r: bool)
        ensures
            r == (*self is Left),
    {
        match self {
            Either::Left(_) => true,
            Either::Right(_) => false,
        }
    }

    /// Check whether this container stores the Right type.
    pub fn is_right(&self) -> (r: bool)
        ensures
            r == (*self is Right),
    {
        match self {
            Either::Left(_) => false,
            Either::Right(_) => true,
        }
    }

    /// Return the stored item if it is in Left.
    pub fn left(&self) -> (r: Option<&T>)
        ensures
            r == (match *self {
                Either::Left(v) => Some(&v),
                Either::Right(_) => None,
            }),
    {
        match self {
            Either::Left(v) => Some(v),
            Either::Right(_) => None,
        }
    }

    /// Return the stored item if it is in Right.
    pub fn right(&self) -> (r: Option<&U>)
        ensures
            r == (match *self {
                Either::Left(_) => None,
                Either::Right(v) => Some(&v),
            }),
    {
        match self {
            Either::Left(_) => None,
            Either::Right(v) => Some(v),
        }
    }
}

} // verus!
