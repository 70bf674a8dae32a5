//! Mathematical model of the collectors: what collecting a sequence of
//! outcomes yields, stopping at the first failure.
use vstd::prelude::*;

verus! {

/// All payloads of `s` in order when every element is present, `None` as soon
/// as one is absent.
pub open spec fn collect_options<T>(s: Seq<Option<T>>) -> Option<Seq<T>>
    decreases s.len(),
{
    if s.len() == 0 {
        Some(Seq::empty())
    } else {
        match collect_options(s.drop_last()) {
            None => None,
            Some(v) => match s.last() {
                Some(x) => Some(v.push(x)),
                None => None,
            },
        }
    }
}

/// All payloads of `s` in order when every element succeeds, else the error of
/// the first failure.
pub open spec fn collect_results<T, E>(s: Seq<Result<T, E>>) -> Result<Seq<T>, E>
    decreases s.len(),
{
    if s.len() == 0 {
        Ok(Seq::empty())
    } else {
        match collect_results(s.drop_last()) {
            Err(e) => Err(e),
            Ok(v) => match s.last() {
                Ok(x) => Ok(v.push(x)),
                Err(e) => Err(e),
            },
        }
    }
}

/// The view of a collected `Option<Vec<T>>`.
pub open spec fn option_seq<T>(r: Option<Vec<T>>) -> Option<Seq<T>> {
    match r {
        Some(v) => Some(v@),
        None => None,
    }
}

/// The view of a collected `Result<Vec<T>, E>`.
pub open spec fn result_seq<T, E>(r: Result<Vec<T>, E>) -> Result<Seq<T>, E> {
    match r {
        Ok(v) => Ok(v@),
        Err(e) => Err(e),
    }
}

/// `p` is a possible run of present values of `f` on the first `p.len()`
/// elements of `s`.
pub open spec fn present_prefix<A, T, F: Fn(A) -> Option<T>>(s: Seq<A>, f: F, p: Seq<T>) -> bool {
    &&& p.len() <= s.len()
    &&& forall|j: int| 0 <= j < p.len() ==> f.ensures((s[j],), Some(#[trigger] p[j]))
}

/// `f` can be called on every element of `s` that an in-order pass reaches,
/// that is on each element whose predecessors can all give a present value.
pub open spec fn callable_while_present<A, T, F: Fn(A) -> Option<T>>(s: Seq<A>, f: F) -> bool {
    forall|p: Seq<T>|
        #[trigger] present_prefix(s, f, p) && p.len() < s.len() ==> f.requires((s[p.len() as int],))
}

/// `r` is an outcome of applying `f` to the elements of `s` in order and
/// stopping at the first absent value: `Some` of a value of `f` for each
/// element, or `None` where `f` gave `None` on an element after giving present
/// values on all before it.
pub open spec fn mapped_all_opt<A, T, F: Fn(A) -> Option<T>>(
    s: Seq<A>,
    f: F,
    r: Option<Seq<T>>,
) -> bool {
    match r {
        Some(v) => present_prefix(s, f, v) && v.len() == s.len(),
        None => exists|p: Seq<T>|
            #[trigger] present_prefix(s, f, p) && p.len() < s.len() && f.ensures(
                (s[p.len() as int],),
                None::<T>,
            ),
    }
}

/// `p` is a possible run of successes of `f` on the first `p.len()` elements
/// of `s`.
pub open spec fn ok_prefix<A, T, E, F: Fn(A) -> Result<T, E>>(s: Seq<A>, f: F, p: Seq<T>) -> bool {
    &&& p.len() <= s.len()
    &&& forall|j: int| 0 <= j < p.len() ==> f.ensures((s[j],), Ok::<T, E>(#[trigger] p[j]))
}

/// `f` can be called on every element of `s` that an in-order pass reaches,
/// that is on each element whose predecessors can all succeed.
pub open spec fn callable_while_ok<A, T, E, F: Fn(A) -> Result<T, E>>(s: Seq<A>, f: F) -> bool {
    forall|p: Seq<T>|
        #[trigger] ok_prefix(s, f, p) && p.len() < s.len() ==> f.requires((s[p.len() as int],))
}

/// `r` is an outcome of applying `f` to the elements of `s` in order and
/// stopping at the first failure: `Ok` of a success of `f` for each element, or
/// the error `f` gave on an element after succeeding on all before it.
pub open spec fn mapped_all<A, T, E, F: Fn(A) -> Result<T, E>>(
    s: Seq<A>,
    f: F,
    r: Result<Seq<T>, E>,
) -> bool {
    match r {
        Ok(v) => ok_prefix(s, f, v) && v.len() == s.len(),
        Err(e) => exists|p: Seq<T>|
            #[trigger] ok_prefix(s, f, p) && p.len() < s.len() && f.ensures(
                (s[p.len() as int],),
                Err::<T, E>(e),
            ),
    }
}

/// Once a prefix of `s` has an absent element, every longer prefix has too.
pub proof fn lemma_options_absent_persists<T>(s: Seq<Option<T>>, k: int, m: int)
    requires
        0 <= k <= m <= s.len(),
        collect_options(s.take(k)) is None,
    ensures
        collect_options(s.take(m)) is None,
    decreases m - k,
{
    if k < m {
        assert(s.take(k + 1).drop_last() =~= s.take(k));
        lemma_options_absent_persists(s, k + 1, m);
    }
}

/// Once a prefix of `s` has failed with `e`, every longer prefix fails with `e`.
pub proof fn lemma_results_failure_persists<T, E>(s: Seq<Result<T, E>>, k: int, m: int)
    requires
        0 <= k <= m <= s.len(),
        collect_results(s.take(k)) is Err,
    ensures
        collect_results(s.take(m)) == collect_results(s.take(k)),
    decreases m - k,
{
    if k < m {
        assert(s.take(k + 1).drop_last() =~= s.take(k));
        lemma_results_failure_persists(s, k + 1, m);
    }
}

/// A prefix of present elements with payloads `p` collects to that prefix of `p`.
proof fn lemma_options_prefix_present<T>(s: Seq<Option<T>>, p: Seq<T>, k: int)
    requires
        0 <= k <= s.len(),
        p.len() == s.len(),
        forall|j: int| 0 <= j < k ==> s[j] == Some(p[j]),
    ensures
        collect_options(s.take(k)) == Some(p.take(k)),
    decreases k,
{
    if k > 0 {
        lemma_options_prefix_present(s, p, k - 1);
        assert(s.take(k).drop_last() =~= s.take(k - 1));
        assert(p.take(k) =~= p.take(k - 1).push(p[k - 1]));
    }
}

/// A prefix of successes with payloads `p` collects to that prefix of `p`.
proof fn lemma_results_prefix_ok<T, E>(s: Seq<Result<T, E>>, p: Seq<T>, k: int)
    requires
        0 <= k <= s.len(),
        p.len() == s.len(),
        forall|j: int| 0 <= j < k ==> s[j] == Ok::<T, E>(p[j]),
    ensures
        collect_results(s.take(k)) == Ok::<Seq<T>, E>(p.take(k)),
    decreases k,
{
    if k > 0 {
        lemma_results_prefix_ok(s, p, k - 1);
        assert(s.take(k).drop_last() =~= s.take(k - 1));
        assert(s.take(k).last() == s[k - 1]);
        assert(p.take(k) =~= p.take(k - 1).push(p[k - 1]));
    } else {
        assert(p.take(0) =~= Seq::<T>::empty());
    }
}

/// A prefix of successes collects to a success.
proof fn lemma_results_prefix_is_ok<T, E>(s: Seq<Result<T, E>>, k: int)
    requires
        0 <= k <= s.len(),
        forall|j: int| 0 <= j < k ==> s[j] is Ok,
    ensures
        collect_results(s.take(k)) is Ok,
    decreases k,
{
    if k > 0 {
        lemma_results_prefix_is_ok(s, k - 1);
        assert(s.take(k).drop_last() =~= s.take(k - 1));
    }
}

/// Collecting a sequence of present values yields exactly their payloads, in
/// order.
pub proof fn lemma_collect_all_present<T>(p: Seq<T>)
    ensures
        collect_options(p.map_values(|x: T| Some(x))) == Some(p),
{
    let s = p.map_values(|x: T| Some(x));
    lemma_options_prefix_present(s, p, s.len() as int);
    assert(s.take(s.len() as int) =~= s);
    assert(p.take(p.len() as int) =~= p);
}

/// Collecting a sequence of successes yields exactly their payloads, in order.
pub proof fn lemma_collect_all_ok<T, E>(p: Seq<T>)
    ensures
        collect_results(p.map_values(|x: T| Ok::<T, E>(x))) == Ok::<Seq<T>, E>(p),
{
    let s = p.map_values(|x: T| Ok::<T, E>(x));
    lemma_results_prefix_ok(s, p, s.len() as int);
    assert(s.take(s.len() as int) =~= s);
    assert(p.take(p.len() as int) =~= p);
}

/// A sequence with an absent element anywhere collects to `None`.
pub proof fn lemma_collect_some_absent<T>(s: Seq<Option<T>>, k: int)
    requires
        0 <= k < s.len(),
        s[k] is None,
    ensures
        collect_options(s) is None,
{
    assert(s.take(k + 1).drop_last() =~= s.take(k));
    assert(s.take(k + 1).last() == s[k]);
    lemma_options_absent_persists(s, k + 1, s.len() as int);
    assert(s.take(s.len() as int) =~= s);
}

/// A sequence whose first failure stands at `k` collects to exactly that
/// failure's error, whatever follows it.
pub proof fn lemma_collect_first_failure<T, E>(s: Seq<Result<T, E>>, k: int)
    requires
        0 <= k < s.len(),
        s[k] is Err,
        forall|j: int| 0 <= j < k ==> s[j] is Ok,
    ensures
        collect_results(s) == Err::<Seq<T>, E>(s[k]->Err_0),
{
    lemma_results_prefix_is_ok(s, k);
    assert(s.take(k + 1).drop_last() =~= s.take(k));
    assert(s.take(k + 1).last() == s[k]);
    lemma_results_failure_persists(s, k + 1, s.len() as int);
    assert(s.take(s.len() as int) =~= s);
}

/// Collecting again the payloads that collecting `s` yielded gives the same
/// payloads in the same order.
pub proof fn lemma_collect_options_idempotent<T>(s: Seq<Option<T>>)
    requires
        collect_options(s) is Some,
    ensures
        collect_options(collect_options(s)->Some_0.map_values(|x: T| Some(x)))
            == collect_options(s),
{
    lemma_collect_all_present(collect_options(s)->Some_0);
}

/// Collecting again the payloads that collecting `s` yielded gives the same
/// payloads in the same order.
pub proof fn lemma_collect_results_idempotent<T, E>(s: Seq<Result<T, E>>)
    requires
        collect_results(s) is Ok,
    ensures
        collect_results(collect_results(s)->Ok_0.map_values(|x: T| Ok::<T, E>(x)))
            == collect_results(s),
{
    lemma_collect_all_ok::<T, E>(collect_results(s)->Ok_0);
}

/// The index of the first failure of `m` among its first `n` elements, or `n`
/// when there is none.
proof fn lemma_first_err<T, E>(m: Seq<Result<T, E>>, n: int) -> (k: int)
    requires
        0 <= n <= m.len(),
    ensures
        0 <= k <= n,
        forall|j: int| 0 <= j < k ==> m[j] is Ok,
        k < n ==> m[k] is Err,
    decreases n,
{
    if n == 0 {
        0
    } else {
        let k0 = lemma_first_err(m, n - 1);
        if k0 < n - 1 {
            k0
        } else if m[n - 1] is Ok {
            n
        } else {
            n - 1
        }
    }
}

/// The index of the first absent element of `m` among its first `n`
/// elements, or `n` when there is none.
proof fn lemma_first_none<T>(m: Seq<Option<T>>, n: int) -> (k: int)
    requires
        0 <= n <= m.len(),
    ensures
        0 <= k <= n,
        forall|j: int| 0 <= j < k ==> m[j] is Some,
        k < n ==> m[k] is None,
    decreases n,
{
    if n == 0 {
        0
    } else {
        let k0 = lemma_first_none(m, n - 1);
        if k0 < n - 1 {
            k0
        } else if m[n - 1] is Some {
            n
        } else {
            n - 1
        }
    }
}

/// Mapping with a pure `f`, one whose only result on each `x` is `g(x)`, has
/// exactly one outcome: what collecting the sequence of its results yields.
pub proof fn lemma_map_all_is_try_all_of_map<A, T, E, F: Fn(A) -> Result<T, E>>(
    s: Seq<A>,
    f: F,
    g: spec_fn(A) -> Result<T, E>,
    r: Result<Seq<T>, E>,
)
    requires
        forall|x: A, y: Result<T, E>| #[trigger] f.ensures((x,), y) <==> y == g(x),
    ensures
        mapped_all(s, f, r) <==> r == collect_results(s.map_values(g)),
{
    let m = s.map_values(g);
    let n = m.len() as int;
    let k = lemma_first_err(m, n);
    let p = Seq::new(k as nat, |i: int| m[i]->Ok_0);
    assert forall|j: int| 0 <= j < p.len() implies f.ensures((s[j],), Ok::<T, E>(#[trigger] p[j])) by {
        assert(m[j] == g(s[j]));
    }
    assert(ok_prefix(s, f, p));
    if k == n {
        assert forall|j: int| 0 <= j < n implies m[j] == Ok::<T, E>(#[trigger] p[j]) by {}
        lemma_results_prefix_ok(m, p, n);
        assert(m.take(n) =~= m);
        assert(p.take(n) =~= p);
        match r {
            Ok(v) => {
                if mapped_all(s, f, r) {
                    assert forall|j: int| 0 <= j < n implies v[j] == p[j] by {
                        assert(f.ensures((s[j],), Ok::<T, E>(v[j])));
                        assert(m[j] == g(s[j]));
                    }
                    assert(v =~= p);
                }
            },
            Err(e) => {
                if mapped_all(s, f, r) {
                    let q = choose|q: Seq<T>|
                        #[trigger] ok_prefix(s, f, q) && q.len() < s.len() && f.ensures(
                            (s[q.len() as int],),
                            Err::<T, E>(e),
                        );
                    assert(m[q.len() as int] == g(s[q.len() as int]));
                    assert(m[q.len() as int] is Ok);
                }
            },
        }
    } else {
        lemma_collect_first_failure(m, k);
        assert(m[k] == g(s[k]));
        match r {
            Ok(v) => {
                if mapped_all(s, f, r) {
                    assert(f.ensures((s[k],), Ok::<T, E>(v[k])));
                }
            },
            Err(e) => {
                if mapped_all(s, f, r) {
                    let q = choose|q: Seq<T>|
                        #[trigger] ok_prefix(s, f, q) && q.len() < s.len() && f.ensures(
                            (s[q.len() as int],),
                            Err::<T, E>(e),
                        );
                    let l = q.len() as int;
                    assert(m[l] == g(s[l]));
                    if l < k {
                        assert(m[l] is Ok);
                    } else if l > k {
                        assert(f.ensures((s[k],), Ok::<T, E>(q[k])));
                    }
                }
                if r == collect_results(m) {
                    assert(f.ensures((s[p.len() as int],), Err::<T, E>(e)));
                }
            },
        }
    }
}

/// Mapping with a pure `f`, one whose only result on each `x` is `g(x)`, has
/// exactly one outcome: what collecting the sequence of its results yields.
pub proof fn lemma_map_all_opt_is_try_all_of_map<A, T, F: Fn(A) -> Option<T>>(
    s: Seq<A>,
    f: F,
    g: spec_fn(A) -> Option<T>,
    r: Option<Seq<T>>,
)
    requires
        forall|x: A, y: Option<T>| #[trigger] f.ensures((x,), y) <==> y == g(x),
    ensures
        mapped_all_opt(s, f, r) <==> r == collect_options(s.map_values(g)),
{
    let m = s.map_values(g);
    let n = m.len() as int;
    let k = lemma_first_none(m, n);
    let p = Seq::new(k as nat, |i: int| m[i]->Some_0);
    assert forall|j: int| 0 <= j < p.len() implies f.ensures((s[j],), Some(#[trigger] p[j])) by {
        assert(m[j] == g(s[j]));
    }
    assert(present_prefix(s, f, p));
    if k == n {
        assert forall|j: int| 0 <= j < n implies m[j] == Some(#[trigger] p[j]) by {}
        lemma_options_prefix_present(m, p, n);
        assert(m.take(n) =~= m);
        assert(p.take(n) =~= p);
        match r {
            Some(v) => {
                if mapped_all_opt(s, f, r) {
                    assert forall|j: int| 0 <= j < n implies v[j] == p[j] by {
                        assert(f.ensures((s[j],), Some(v[j])));
                        assert(m[j] == g(s[j]));
                    }
                    assert(v =~= p);
                }
            },
            None => {
                if mapped_all_opt(s, f, r) {
                    let q = choose|q: Seq<T>|
                        #[trigger] present_prefix(s, f, q) && q.len() < s.len() && f.ensures(
                            (s[q.len() as int],),
                            None::<T>,
                        );
                    assert(m[q.len() as int] == g(s[q.len() as int]));
                    assert(m[q.len() as int] is Some);
                }
            },
        }
    } else {
        lemma_collect_some_absent(m, k);
        assert(m[k] == g(s[k]));
        match r {
            Some(v) => {
                if mapped_all_opt(s, f, r) {
                    assert(f.ensures((s[k],), Some(v[k])));
                }
            },
            None => {
                assert(f.ensures((s[p.len() as int],), None::<T>));
            },
        }
    }
}

/// Where `f` can only fail on element `i`, an in-order pass never reaches an
/// element after `i`: `f` needs to be callable on the elements up to `i` alone.
pub proof fn lemma_map_all_stops_at_failure<A, T, E, F: Fn(A) -> Result<T, E>>(
    s: Seq<A>,
    f: F,
    i: int,
)
    requires
        0 <= i < s.len(),
        forall|y: Result<T, E>| #[trigger] f.ensures((s[i],), y) ==> y is Err,
        forall|p: Seq<T>|
            #[trigger] ok_prefix(s, f, p) && p.len() <= i ==> f.requires((s[p.len() as int],)),
    ensures
        callable_while_ok(s, f),
{
    assert forall|p: Seq<T>| #[trigger] ok_prefix(s, f, p) && p.len() < s.len() implies f.requires(
        (s[p.len() as int],),
    ) by {
        if p.len() > i {
            assert(f.ensures((s[i],), Ok::<T, E>(p[i])));
        }
    }
}

/// Where `f` can only give `None` on element `i`, an in-order pass never
/// reaches an element after `i`: `f` needs to be callable on the elements up
/// to `i` alone.
pub proof fn lemma_map_all_opt_stops_at_absent<A, T, F: Fn(A) -> Option<T>>(
    s: Seq<A>,
    f: F,
    i: int,
)
    requires
        0 <= i < s.len(),
        forall|y: Option<T>| #[trigger] f.ensures((s[i],), y) ==> y is None,
        forall|p: Seq<T>|
            #[trigger] present_prefix(s, f, p) && p.len() <= i ==> f.requires((s[p.len() as int],)),
    ensures
        callable_while_present(s, f),
{
    assert forall|p: Seq<T>| #[trigger] present_prefix(s, f, p) && p.len() < s.len() implies f.requires(
        (s[p.len() as int],),
    ) by {
        if p.len() > i {
            assert(f.ensures((s[i],), Some(p[i])));
        }
    }
}

} // verus!

