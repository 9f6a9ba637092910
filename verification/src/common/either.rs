use vstd::prelude::*;

verus! {

/// One of two values.
#[derive(Clone, Copy, PartialEq, Eq, Debug)]
pub enum Either<L, R> {
    Left(L),
    Right(R),
}

pub fn left<L, R>(value: L) -> (r: Either<L, R>)
    ensures
        r == Either::<L, R>::Left(value),
{
    Either::Left(value)
}

pub fn right<L, R>(value: R) -> (r: Either<L, R>)
    ensures
        r == Either::<L, R>::Right(value),
{
    Either::Right(value)
}

impl<L, R> Either<L, R> {
    pub fn left(&self) -> (r: Option<&L>)
        ensures
            r == match self {
                Either::Left(l) => Some(l),
                Either::Right(_) => None::<&L>,
            },
    {
        match self {
            Either::Left(l) => Some(l),
            _ => None,
        }
    }

    pub fn right(&self) -> (r: Option<&R>)
        ensures
            r == match self {
                Either::Right(v) => Some(v),
                Either::Left(_) => None::<&R>,
            },
    {
        match self {
            Either::Right(v) => Some(v),
            _ => None,
        }
    }

    pub fn left_mut(&mut self) -> (r: Option<&mut L>)
        ensures
            r is Some <==> *old(self) is Left,
            match r {
                Some(l) => {
                    &&& *old(self) == Either::<L, R>::Left(*l)
                    &&& *final(self) == Either::<L, R>::Left(*final(l))
                },
                None => *final(self) == *old(self),
            },
    {
        match self {
            Either::Left(l) => Some(l),
            _ => None,
        }
    }

    pub fn right_mut(&mut self) -> (r: Option<&mut R>)
        ensures
            r is Some <==> *old(self) is Right,
            match r {
                Some(v) => {
                    &&& *old(self) == Either::<L, R>::Right(*v)
                    &&& *final(self) == Either::<L, R>::Right(*final(v))
                },
                None => *final(self) == *old(self),
            },
    {
        match self {
            Either::Right(v) => Some(v),
            _ => None,
        }
    }

    /// Applies `f` to a left value; a right value is kept.
    pub fn map_left<U>(self, f: impl FnOnce(L) -> U) -> (r: Either<U, R>)
        requires
            self matches Either::Left(l) ==> f.requires((l,)),
        ensures
            match self {
                Either::Left(l) => r matches Either::Left(u) && f.ensures((l,), u),
                Either::Right(v) => r == Either::<U, R>::Right(v),
            },
    {
        match self {
            Either::Left(l) => Either::Left(f(l)),
            Either::Right(v) => Either::Right(v),
        }
    }

    /// Applies `f` to a right value; a left value is kept.
    pub fn map_right<U>(self, f: impl FnOnce(R) -> U) -> (r: Either<L, U>)
        requires
            self matches Either::Right(v) ==> f.requires((v,)),
        ensures
            match self {
                Either::Right(v) => r matches Either::Right(u) && f.ensures((v,), u),
                Either::Left(l) => r == Either::<L, U>::Left(l),
            },
    {
        match self {
            Either::Left(l) => Either::Left(l),
            Either::Right(v) => Either::Right(f(v)),
        }
    }

    pub fn as_ref(&self) -> (r: Either<&L, &R>)
        ensures
            r == match self {
                Either::Left(l) => Either::<&L, &R>::Left(l),
                Either::Right(v) => Either::<&L, &R>::Right(v),
            },
    {
        match self {
            Either::Left(l) => Either::Left(l),
            Either::Right(v) => Either::Right(v),
        }
    }

    pub fn as_mut(&mut self) -> (r: Either<&mut L, &mut R>)
        ensures
            match r {
                Either::Left(l) => {
                    &&& *old(self) == Either::<L, R>::Left(*l)
                    &&& *final(self) == Either::<L, R>::Left(*final(l))
                },
                Either::Right(v) => {
                    &&& *old(self) == Either::<L, R>::Right(*v)
                    &&& *final(self) == Either::<L, R>::Right(*final(v))
                },
            },
    {
        match self {
            Either::Left(l) => Either::Left(l),
            Either::Right(v) => Either::Right(v),
        }
    }

    pub fn is_left(&self) -> (r: bool)
        ensures
            r == (self is Left),
    {
        matches!(self, Either::Left(_))
    }

    pub fn is_right(&self) -> (r: bool)
        ensures
            r == (self is Right),
    {
        matches!(self, Either::Right(_))
    }
}

impl<L: Default, R> Default for Either<L, R> {
    /// The default of the left side.
    fn default() -> (r: Self)
        ensures
            r is Left,
    {
        Either::Left(L::default())
    }
}

impl<L, R> From<Result<L, R>> for Either<L, R> {
    /// `Ok` becomes `Left`, `Err` becomes `Right`.
    fn from(result: Result<L, R>) -> (r: Self) {
        match result {
            Ok(l) => Either::Left(l),
            Err(e) => Either::Right(e),
        }
    }
}

impl<L, R> vstd::std_specs::convert::FromSpecImpl<Result<L, R>> for Either<L, R> {
    open spec fn obeys_from_spec() -> bool {
        true
    }

    open spec fn from_spec(v: Result<L, R>) -> Self {
        match v {
            Ok(l) => Either::Left(l),
            Err(e) => Either::Right(e),
        }
    }
}

impl<L, R> From<Either<L, R>> for Result<L, R> {
    /// `Left` becomes `Ok`, `Right` becomes `Err`.
    fn from(either: Either<L, R>) -> (r: Self) {
        match either {
            Either::Left(l) => Ok(l),
            Either::Right(e) => Err(e),
        }
    }
}

impl<L, R> vstd::std_specs::convert::FromSpecImpl<Either<L, R>> for Result<L, R> {
    open spec fn obeys_from_spec() -> bool {
        true
    }

    open spec fn from_spec(v: Either<L, R>) -> Self {
        match v {
            Either::Left(l) => Ok(l),
            Either::Right(e) => Err(e),
        }
    }
}

} // verus!
