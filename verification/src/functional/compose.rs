//! Function composition and piping combinators.
//!
//! Every combinator here is pure: the closures it returns only call the
//! functions they were built from.  The contracts describe a composed
//! function through the `requires` / `ensures` of its parts, so a caller
//! that knows what its stages do knows what the pipeline does.
//!
//! The fallible combinators follow the railway convention: once a stage
//! yields `Err`, later stages are skipped and that error is the result.
use vstd::prelude::*;

verus! {

/// `h` behaves as "first `f`, then `g`": it accepts every input that `f`
/// accepts and whose `f`-outputs `g` accepts, and each of its results is
/// `g` applied to some result of `f`.
pub open spec fn pipes_to<A, B, C, F: Fn(A) -> B, G: Fn(B) -> C, H: Fn(A) -> C>(
    f: F,
    g: G,
    h: H,
) -> bool {
    &&& forall|a: A|
        f.requires((a,)) && (forall|b: B| f.ensures((a,), b) ==> g.requires((b,)))
            ==> #[trigger] h.requires((a,))
    &&& forall|a: A, c: C|
        #[trigger] h.ensures((a,), c) ==> exists|b: B| f.ensures((a,), b) && g.ensures((b,), c)
}

/// `h` behaves as the mathematical composition `f ∘ g`: first `g`, then `f`.
pub open spec fn composes_to<A, B, C, F: Fn(B) -> C, G: Fn(A) -> B, H: Fn(A) -> C>(
    f: F,
    g: G,
    h: H,
) -> bool {
    &&& forall|a: A|
        g.requires((a,)) && (forall|b: B| g.ensures((a,), b) ==> f.requires((b,)))
            ==> #[trigger] h.requires((a,))
    &&& forall|a: A, c: C|
        #[trigger] h.ensures((a,), c) ==> exists|b: B| g.ensures((a,), b) && f.ensures((b,), c)
}

/// One step on the success rail: `r` is what `g` yields on the `Ok` value of
/// `fr`, or the error of `fr` itself when `fr` is `Err` (and `g` is skipped).
pub open spec fn rail_step<B, C, E, G: Fn(B) -> Result<C, E>>(
    fr: Result<B, E>,
    g: G,
    r: Result<C, E>,
) -> bool {
    match fr {
        Ok(b) => g.ensures((b,), r),
        Err(e) => r == Err::<C, E>(e),
    }
}

/// `g` accepts the `Ok` value of every result that `f` may yield on `a`.
pub open spec fn rail_accepts<A, B, C, E, F: Fn(A) -> Result<B, E>, G: Fn(B) -> Result<C, E>>(
    f: F,
    g: G,
    a: A,
) -> bool {
    forall|b: B| f.ensures((a,), Ok::<B, E>(b)) ==> g.requires((b,))
}

/// Along the success rail of `f` then `g`, every stage accepts what the
/// previous one may hand it.
pub open spec fn rail3_accepts<
    A,
    B,
    C,
    D,
    E,
    F: Fn(A) -> Result<B, E>,
    G: Fn(B) -> Result<C, E>,
    H: Fn(C) -> Result<D, E>,
>(f: F, g: G, h: H, a: A) -> bool {
    forall|b: B|
        #[trigger] f.ensures((a,), Ok::<B, E>(b)) ==> g.requires((b,)) && rail_accepts(g, h, b)
}

/// `h` behaves as `|a| f(a).and_then(g)`.
pub open spec fn chains_to<
    A,
    B,
    C,
    E,
    F: Fn(A) -> Result<B, E>,
    G: Fn(B) -> Result<C, E>,
    H: Fn(A) -> Result<C, E>,
>(f: F, g: G, h: H) -> bool {
    &&& forall|a: A| f.requires((a,)) && rail_accepts(f, g, a) ==> #[trigger] h.requires((a,))
    &&& forall|a: A, r: Result<C, E>|
        #[trigger] h.ensures((a,), r) ==> exists|fr: Result<B, E>|
            f.ensures((a,), fr) && rail_step(fr, g, r)
}

/// Reading order aside, piping and composing agree: `h` behaves as
/// `pipe(f, g)` exactly when it behaves as `compose(g, f)`, so both give
/// `g(f(x))`.
pub proof fn lemma_pipe_is_reversed_compose<A, B, C, F: Fn(A) -> B, G: Fn(B) -> C, H: Fn(A) -> C>(
    f: F,
    g: G,
    h: H,
)
    ensures
        pipes_to(f, g, h) <==> composes_to(g, f, h),
{
}

/// Railway law: when the first stage fails with `e`, the chained function
/// fails with that same `e` (the second stage is skipped).
pub proof fn lemma_chain_forwards_error<
    A,
    B,
    C,
    E,
    F: Fn(A) -> Result<B, E>,
    G: Fn(B) -> Result<C, E>,
    H: Fn(A) -> Result<C, E>,
>(f: F, g: G, h: H, a: A, e: E)
    requires
        chains_to(f, g, h),
        forall|fr: Result<B, E>| f.ensures((a,), fr) ==> fr == Err::<B, E>(e),
    ensures
        forall|r: Result<C, E>| h.ensures((a,), r) ==> r == Err::<C, E>(e),
{
}

/// The identity function — returns its argument unchanged.
///
/// Useful as a default "no-op" stage in generic pipeline construction.
pub fn identity<T>(x: T) -> (r: T)
    ensures
        r == x,
{
    x
}

/// Compose two functions left-to-right: `pipe(f, g)(x) == g(f(x))`.
///
/// This is the natural reading order for data pipelines:
/// *first* `f`, *then* `g`.
pub fn pipe<A, B, C, F, G>(f: F, g: G) -> (h: impl Fn(A) -> C)
    where
        F: Fn(A) -> B,
        G: Fn(B) -> C,
    ensures
        pipes_to(f, g, h),
{
    move |a: A| -> (c: C)
        requires
            f.requires((a,)),
            forall|b: B| f.ensures((a,), b) ==> g.requires((b,)),
        ensures
            exists|b: B| f.ensures((a,), b) && g.ensures((b,), c),
        {
            let b = f(a);
            g(b)
        }
}

/// Compose three functions left-to-right: `pipe3(f, g, h)(x) == h(g(f(x)))`.
pub fn pipe3<A, B, C, D, F, G, H>(f: F, g: G, h: H) -> (k: impl Fn(A) -> D)
    where
        F: Fn(A) -> B,
        G: Fn(B) -> C,
        H: Fn(C) -> D,
    ensures
        forall|a: A|
            f.requires((a,)) && (forall|b: B|
                f.ensures((a,), b) ==> g.requires((b,)) && (forall|c: C|
                    g.ensures((b,), c) ==> h.requires((c,)))) ==> #[trigger] k.requires((a,)),
        forall|a: A, d: D|
            #[trigger] k.ensures((a,), d) ==> exists|b: B, c: C|
                f.ensures((a,), b) && g.ensures((b,), c) && h.ensures((c,), d),
{
    move |a: A| -> (d: D)
        requires
            f.requires((a,)),
            forall|b: B|
                f.ensures((a,), b) ==> g.requires((b,)) && (forall|c: C|
                    g.ensures((b,), c) ==> h.requires((c,))),
        ensures
            exists|b: B, c: C| f.ensures((a,), b) && g.ensures((b,), c) && h.ensures((c,), d),
        {
            let b = f(a);
            let c = g(b);
            h(c)
        }
}

/// Compose two functions right-to-left: `compose(f, g)(x) == f(g(x))`.
///
/// Matches the mathematical convention `(f ∘ g)(x) = f(g(x))`.
pub fn compose<A, B, C, F, G>(f: F, g: G) -> (h: impl Fn(A) -> C)
    where
        G: Fn(A) -> B,
        F: Fn(B) -> C,
    ensures
        composes_to(f, g, h),
{
    move |a: A| -> (c: C)
        requires
            g.requires((a,)),
            forall|b: B| g.ensures((a,), b) ==> f.requires((b,)),
        ensures
            exists|b: B| g.ensures((a,), b) && f.ensures((b,), c),
        {
            let b = g(a);
            f(b)
        }
}

/// Chain two fallible functions on the success rail.
///
/// `chain(f, g)(x)` is equivalent to `f(x).and_then(g)`.
/// If `f` returns `Err`, `g` is never called.
pub fn chain<A, B, C, E, F, G>(f: F, g: G) -> (h: impl Fn(A) -> Result<C, E>)
    where
        F: Fn(A) -> Result<B, E>,
        G: Fn(B) -> Result<C, E>,
    ensures
        chains_to(f, g, h),
{
    move |a: A| -> (r: Result<C, E>)
        requires
            f.requires((a,)),
            rail_accepts(f, g, a),
        ensures
            exists|fr: Result<B, E>| f.ensures((a,), fr) && rail_step(fr, g, r),
        {
            let fr = f(a);
            let ghost fr0 = fr;
            let r = match fr {
                Ok(b) => g(b),
                Err(e) => Err(e),
            };
            assert(f.ensures((a,), fr0) && rail_step(fr0, g, r));
            r
        }
}

/// Chain three fallible functions on the success rail.
pub fn chain3<A, B, C, D, E, F, G, H>(f: F, g: G, h: H) -> (k: impl Fn(A) -> Result<D, E>)
    where
        F: Fn(A) -> Result<B, E>,
        G: Fn(B) -> Result<C, E>,
        H: Fn(C) -> Result<D, E>,
    ensures
        forall|a: A| f.requires((a,)) && rail3_accepts(f, g, h, a) ==> #[trigger] k.requires((a,)),
        forall|a: A, r: Result<D, E>|
            #[trigger] k.ensures((a,), r) ==> exists|fr: Result<B, E>, gr: Result<C, E>|
                f.ensures((a,), fr) && rail_step(fr, g, gr) && rail_step(gr, h, r),
{
    move |a: A| -> (r: Result<D, E>)
        requires
            f.requires((a,)),
            rail3_accepts(f, g, h, a),
        ensures
            exists|fr: Result<B, E>, gr: Result<C, E>|
                f.ensures((a,), fr) && rail_step(fr, g, gr) && rail_step(gr, h, r),
        {
            let fr = f(a);
            let ghost fr0 = fr;
            let gr = match fr {
                Ok(b) => {
                    assert(f.ensures((a,), Ok::<B, E>(b)));
                    g(b)
                },
                Err(e) => Err(e),
            };
            let ghost gr0 = gr;
            assert(rail_step(fr0, g, gr0));
            let r = match gr {
                Ok(c) => {
                    assert(rail_accepts(g, h, fr0->Ok_0));
                    h(c)
                },
                Err(e) => Err(e),
            };
            assert(f.ensures((a,), fr0) && rail_step(fr0, g, gr0) && rail_step(gr0, h, r));
            r
        }
}

/// Run a side-effect on a value without consuming it.
///
/// Useful for logging or metrics in the middle of a pipeline.
pub fn tap<T, F>(f: F) -> (h: impl Fn(&T))
    where
        F: Fn(&T),
    ensures
        forall|x: &T| f.requires((x,)) ==> #[trigger] h.requires((x,)),
        forall|x: &T| #[trigger] h.ensures((x,), ()) ==> f.ensures((x,), ()),
{
    move |x: &T|
        requires
            f.requires((x,)),
        ensures
            f.ensures((x,), ()),
        {
            f(x)
        }
}

/// Run a side-effect on the `Ok` branch of a `Result`, returning
/// the same `Result` unchanged.
pub fn tap_ok<T: Clone, E, F>(result: Result<T, E>, f: F) -> (r: Result<T, E>)
    where
        F: FnOnce(&T),
    requires
        result matches Ok(v) ==> f.requires((&v,)),
    ensures
        r == result,
        result matches Ok(v) ==> f.ensures((&v,), ()),
{
    if let Ok(ref val) = result {
        f(val);
    }
    result
}

/// Run a side-effect on the `Err` branch of a `Result`, returning
/// the same `Result` unchanged.
pub fn tap_err<T, E: Clone, F>(result: Result<T, E>, f: F) -> (r: Result<T, E>)
    where
        F: FnOnce(&E),
    requires
        result matches Err(e) ==> f.requires((&e,)),
    ensures
        r == result,
        result matches Err(e) ==> f.ensures((&e,), ()),
{
    if let Err(ref err) = result {
        f(err);
    }
    result
}

/// `outs` is a possible run of [`retry`] with `f` and `max_attempts`:
/// attempt `k` (0-based) returned `outs[k]`, every attempt but the last
/// failed, and the run stops early only on success.
pub open spec fn retry_run<T, E, F: FnMut(usize) -> Result<T, E>>(
    f: F,
    max_attempts: usize,
    outs: Seq<Result<T, E>>,
) -> bool {
    &&& 1 <= outs.len() <= max_attempts
    &&& forall|k: int| 0 <= k < outs.len() ==> f.ensures((k as usize,), #[trigger] outs[k])
    &&& forall|k: int| 0 <= k < outs.len() - 1 ==> (#[trigger] outs[k]) is Err
    &&& outs.last() is Err ==> outs.len() == max_attempts
}

/// Retry a fallible operation up to `max_attempts` times.
///
/// Returns the first `Ok`, or the last `Err` if all attempts fail.
/// The closure receives the 0-based attempt index.  `max_attempts` must
/// be positive (zero attempts leave no error to report).
pub fn retry<T, E, F>(max_attempts: usize, f: F) -> (r: Result<T, E>)
    where
        F: FnMut(usize) -> Result<T, E>,
    requires
        max_attempts > 0,
        forall|k: usize| k < max_attempts ==> #[trigger] f.requires((k,)),
    ensures
        exists|outs: Seq<Result<T, E>>| retry_run(f, max_attempts, outs) && r == outs.last(),
{
    let mut attempt_fn = f;
    let ghost mut outs: Seq<Result<T, E>> = Seq::empty();
    let mut last_err: Option<E> = None;
    for attempt in 0..max_attempts
        invariant
            attempt_fn == f,
            max_attempts > 0,
            forall|k: usize| k < max_attempts ==> #[trigger] f.requires((k,)),
            outs.len() == attempt,
            forall|k: int| 0 <= k < outs.len() ==> f.ensures((k as usize,), #[trigger] outs[k]),
            forall|k: int| 0 <= k < outs.len() ==> (#[trigger] outs[k]) is Err,
            attempt == 0 ==> last_err is None,
            attempt > 0 ==> last_err == Some(outs.last()->Err_0),
    {
        let res = attempt_fn(attempt);
        proof {
            outs = outs.push(res);
        }
        match res {
            Ok(val) => {
                return Ok(val);
            },
            Err(e) => last_err = Some(e),
        }
    }
    Err(last_err.expect("max_attempts must be > 0"))
}

} // verus!
