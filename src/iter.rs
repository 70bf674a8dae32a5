//! Collecting every success of a sequence of outcomes, or its first failure.
use vstd::prelude::*;
use crate::outcome::{
    collect_options, collect_results, lemma_options_absent_persists, lemma_results_failure_persists,
    option_seq, result_seq,
};

verus! {

/// Collecting a whole sequence of outcomes: every payload in order, or the
/// first failure.
pub trait TryAll: Sized {
    type AllOrFirst;

    /// `r` is what collecting `self` yields.
    spec fn all_or_first(self, r: Self::AllOrFirst) -> bool;

    /// Checks the elements in order and stops at the first failure, which it
    /// returns; if there is none, returns every payload in order.
    fn try_all(self) -> (r: Self::AllOrFirst)
        ensures
            self.all_or_first(r),
    ;
}

impl<X> TryAll for Vec<X> where (Vec<X>, X): TryAllHack<Iter = Vec<X>> {
    type AllOrFirst = <(Vec<X>, X) as TryAllHack>::AllOrFirst;

    open spec fn all_or_first(self, r: Self::AllOrFirst) -> bool {
        <(Vec<X>, X) as TryAllHack>::all_or_first(self, r)
    }

    fn try_all(self) -> (r: Self::AllOrFirst)
        ensures
            <(Vec<X>, X) as TryAllHack>::all_or_first(self, r),
    {
        <(Vec<X>, X) as TryAllHack>::try_all(self)
    }
}

/// The worker behind [`TryAll`], chosen by the pair of the sequence type and
/// its element type, so that one method name serves both outcome shapes.
pub trait TryAllHack {
    type Iter;
    type AllOrFirst;

    /// `r` is what collecting `iter` yields: every payload in order, or the
    /// first failure.
    spec fn all_or_first(iter: Self::Iter, r: Self::AllOrFirst) -> bool;

    fn try_all(iter: Self::Iter) -> (r: Self::AllOrFirst)
        ensures
            Self::all_or_first(iter, r),
    ;
}

impl<T> TryAllHack for (Vec<Option<T>>, Option<T>) {
    type Iter = Vec<Option<T>>;
    type AllOrFirst = Option<Vec<T>>;

    open spec fn all_or_first(iter: Vec<Option<T>>, r: Option<Vec<T>>) -> bool {
        option_seq(r) == collect_options(iter@)
    }

    fn try_all(iter: Vec<Option<T>>) -> (r: Option<Vec<T>>)
        ensures
            option_seq(r) == collect_options(iter@),
    {
        let ghost s = iter@;
        let mut ok: Vec<T> = Vec::new();
        for t in it: iter
            invariant
                it.seq() == s,
                collect_options(s.take(it.index() as int)) == Some(ok@),
        {
            proof {
                assert(s.take(it.index() + 1).drop_last() =~= s.take(it.index() as int));
            }
            match t {
                Some(x) => ok.push(x),
                None => {
                    proof {
                        lemma_options_absent_persists(s, it.index() + 1, s.len() as int);
                        assert(s.take(s.len() as int) =~= s);
                    }
                    return None;
                },
            }
        }
        proof {
            assert(s.take(s.len() as int) =~= s);
        }
        Some(ok)
    }
}

impl<T, E> TryAllHack for (Vec<Result<T, E>>, Result<T, E>) {
    type Iter = Vec<Result<T, E>>;
    type AllOrFirst = Result<Vec<T>, E>;

    open spec fn all_or_first(iter: Vec<Result<T, E>>, r: Result<Vec<T>, E>) -> bool {
        result_seq(r) == collect_results(iter@)
    }

    fn try_all(iter: Vec<Result<T, E>>) -> (r: Result<Vec<T>, E>)
        ensures
            result_seq(r) == collect_results(iter@),
    {
        let ghost s = iter@;
        let mut ok: Vec<T> = Vec::new();
        for t in it: iter
            invariant
                it.seq() == s,
                collect_results(s.take(it.index() as int)) == Ok::<Seq<T>, E>(ok@),
        {
            proof {
                assert(s.take(it.index() + 1).drop_last() =~= s.take(it.index() as int));
            }
            match t {
                Ok(x) => ok.push(x),
                Err(e) => {
                    proof {
                        lemma_results_failure_persists(s, it.index() + 1, s.len() as int);
                        assert(s.take(s.len() as int) =~= s);
                    }
                    return Err(e);
                },
            }
        }
        proof {
            assert(s.take(s.len() as int) =~= s);
        }
        Ok(ok)
    }
}

} // verus!
