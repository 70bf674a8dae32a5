//! Applying a fallible function to every element of a sequence, stopping at
//! the first failure.
use vstd::prelude::*;
use crate::outcome::{
    callable_while_ok, callable_while_present, mapped_all, mapped_all_opt, ok_prefix, option_seq,
    present_prefix, result_seq,
};

verus! {

/// Mapping a sequence through a function that returns a `Result`.
pub trait TryMapAll: Sized {
    type Item;

    /// The elements, in the order they are visited.
    spec fn elements(&self) -> Seq<Self::Item>;

    /// Applies `f` to the elements in order until one application fails; returns
    /// that failure, or every success in order. `f` is never applied to an
    /// element after the first failure.
    fn try_map_all<T, E, F: Fn(Self::Item) -> Result<T, E>>(self, f: F) -> (r: Result<Vec<T>, E>)
        requires
            callable_while_ok(self.elements(), f),
        ensures
            mapped_all(self.elements(), f, result_seq(r)),
    ;
}

impl<A> TryMapAll for Vec<A> {
    type Item = A;

    open spec fn elements(&self) -> Seq<A> {
        self@
    }

    fn try_map_all<T, E, F: Fn(A) -> Result<T, E>>(self, f: F) -> (r: Result<Vec<T>, E>)
        ensures
            mapped_all(self@, f, result_seq(r)),
    {
        let ghost s = self@;
        let mut ok: Vec<T> = Vec::new();
        for t in it: self
            invariant
                it.seq() == s,
                callable_while_ok(s, f),
                ok@.len() == it.index(),
                forall|i: int|
                    #![trigger ok@[i]]
                    0 <= i < it.index() ==> f.ensures((s[i],), Ok::<T, E>(ok@[i])),
        {
            assert(ok_prefix(s, f, ok@));
            match f(t) {
                Ok(x) => ok.push(x),
                Err(e) => {
                    assert(ok_prefix(s, f, ok@) && ok@.len() < s.len());
                    return Err(e);
                },
            }
        }
        Ok(ok)
    }
}

/// Mapping a sequence through a function that returns an `Option`.
pub trait TryMapAllOption: Sized {
    type Item;

    /// The elements, in the order they are visited.
    spec fn elements(&self) -> Seq<Self::Item>;

    /// Applies `f` to the elements in order until one application gives `None`;
    /// returns `None` then, or every present value in order. `f` is never
    /// applied to an element after the first `None`.
    fn try_map_all_opt<T, F: Fn(Self::Item) -> Option<T>>(self, f: F) -> (r: Option<Vec<T>>)
        requires
            callable_while_present(self.elements(), f),
        ensures
            mapped_all_opt(self.elements(), f, option_seq(r)),
    ;
}

impl<A> TryMapAllOption for Vec<A> {
    type Item = A;

    open spec fn elements(&self) -> Seq<A> {
        self@
    }

    fn try_map_all_opt<T, F: Fn(A) -> Option<T>>(self, f: F) -> (r: Option<Vec<T>>)
        ensures
            mapped_all_opt(self@, f, option_seq(r)),
    {
        let ghost s = self@;
        let mut ok: Vec<T> = Vec::new();
        for t in it: self
            invariant
                it.seq() == s,
                callable_while_present(s, f),
                ok@.len() == it.index(),
                forall|i: int|
                    #![trigger ok@[i]]
                    0 <= i < it.index() ==> f.ensures((s[i],), Some(ok@[i])),
        {
            assert(present_prefix(s, f, ok@));
            match f(t) {
                Some(x) => ok.push(x),
                None => {
                    assert(present_prefix(s, f, ok@) && ok@.len() < s.len());
                    return None;
                },
            }
        }
        Some(ok)
    }
}

} // verus!
