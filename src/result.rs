//! A result that may carry warnings along with its value or error.
use vstd::prelude::*;

verus! {

pub enum WResult<T, W, E> {
    Success(T),
    Warned(T, Vec<W>),
    Failure(E, Vec<W>),
}

/// `r` is `fr` after the warnings `w`: their warnings come first.
pub open spec fn after_warnings<U, W, E>(w: Seq<W>, fr: WResult<U, W, E>, r: WResult<U, W, E>) -> bool {
    match fr {
        WResult::Success(u) => r matches WResult::Warned(u2, w2) && u2 == u && w2@ == w,
        WResult::Warned(u, ww) => r matches WResult::Warned(u2, w2) && u2 == u && w2@ == w + ww@,
        WResult::Failure(e, ww) => r matches WResult::Failure(e2, w2) && e2 == e && w2@ == w + ww@,
    }
}

/// `r` is `fr`, warning for warning.
pub open spec fn same_outcome<U, W, E>(fr: WResult<U, W, E>, r: WResult<U, W, E>) -> bool {
    match fr {
        WResult::Success(u) => r matches WResult::Success(u2) && u2 == u,
        WResult::Warned(u, ww) => r matches WResult::Warned(u2, w2) && u2 == u && w2@ == ww@,
        WResult::Failure(e, ww) => r matches WResult::Failure(e2, w2) && e2 == e && w2@ == ww@,
    }
}

impl<T, W, E> WResult<T, W, E> {
    /// The value or the error, without the warnings.
    pub fn as_result(&self) -> (r: Result<&T, &E>)
        ensures
            match self {
                WResult::Success(t) => r == Ok::<&T, &E>(t),
                WResult::Warned(t, _) => r == Ok::<&T, &E>(t),
                WResult::Failure(e, _) => r == Err::<&T, &E>(e),
            },
    {
        match self {
            WResult::Success(t) => Ok(t),
            WResult::Warned(t, _) => Ok(t),
            WResult::Failure(e, _) => Err(e),
        }
    }

    /// The value or the error; the warnings are dropped.
    pub fn into_result(self) -> (r: Result<T, E>)
        ensures
            match self {
                WResult::Success(t) => r == Ok::<T, E>(t),
                WResult::Warned(t, _) => r == Ok::<T, E>(t),
                WResult::Failure(e, _) => r == Err::<T, E>(e),
            },
    {
        match self {
            WResult::Success(t) => Ok(t),
            WResult::Warned(t, _) => Ok(t),
            WResult::Failure(e, _) => Err(e),
        }
    }

    /// Continues with `f` on the value, keeping the warnings of both steps in
    /// order; an error stops.
    pub fn and_then<F, U>(self, f: F) -> (r: WResult<U, W, E>) where
        F: FnOnce(T) -> WResult<U, W, E>,

        requires
            match self {
                WResult::Success(t) => f.requires((t,)),
                WResult::Warned(t, _) => f.requires((t,)),
                WResult::Failure(_, _) => true,
            },
        ensures
            self is Success ==> (exists|fr: WResult<U, W, E>|
                call_ensures(f, (self->Success_0,), fr) && same_outcome(fr, r)),
            self is Warned ==> (exists|fr: WResult<U, W, E>|
                call_ensures(f, (self->Warned_0,), fr) && after_warnings(self->Warned_1@, fr, r)),
            self is Failure ==> (r matches WResult::Failure(e2, w2) && e2 == self->Failure_0
                && w2@ == self->Failure_1@),
    {
        let ghost s = self;
        let (t, mut w, warned) = match self {
            WResult::Success(t) => (t, Vec::new(), false),
            WResult::Warned(t, w) => (t, w, true),
            WResult::Failure(e, w) => {
                return WResult::Failure(e, w);
            },
        };
        assert(warned ==> s is Warned && t == s->Warned_0 && w@ == s->Warned_1@);
        assert(!warned ==> s is Success && t == s->Success_0 && w@ == Seq::<W>::empty());
        let fr = f(t);
        let ghost frv = fr;
        let ghost w0 = w@;
        let r = match fr {
            WResult::Success(u) => {
                if warned {
                    WResult::Warned(u, w)
                } else {
                    WResult::Success(u)
                }
            },
            WResult::Warned(u, mut ww) => {
                w.append(&mut ww);
                WResult::Warned(u, w)
            },
            WResult::Failure(e, mut ww) => {
                w.append(&mut ww);
                WResult::Failure(e, w)
            },
        };
        proof {
            if warned {
                assert(after_warnings(w0, frv, r));
            } else {
                assert(same_outcome(frv, r));
            }
        }
        r
    }
}

} // verus!
