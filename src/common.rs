use vstd::prelude::*;

verus! {

/// `accs` is a run of folding `f` over `s`, oldest element first, from
/// `init`: `accs[i + 1]` is what `f` gave for `s[i]` and `accs[i]`.
pub open spec fn fold_run<T, S, F: Fn(&T, S) -> S>(f: F, init: S, s: Seq<T>, accs: Seq<S>) -> bool {
    &&& accs.len() == s.len() + 1
    &&& accs[0] == init
    &&& forall|i: int| 0 <= i < s.len() ==> f.ensures((&s[i], accs[i]), #[trigger] accs[i + 1])
}

/// `res` is a result that folding `f` over `s`, oldest element first, can
/// give from `init`.
pub open spec fn folds_to<T, S, F: Fn(&T, S) -> S>(f: F, init: S, s: Seq<T>, res: S) -> bool {
    exists|accs: Seq<S>| #[trigger] fold_run(f, init, s, accs) && accs.last() == res
}

/// `dst` holds a clone of each element of `src`, in the same order.
pub open spec fn clones_of<T: Clone>(src: Seq<T>, dst: Seq<T>) -> bool {
    &&& dst.len() == src.len()
    &&& forall|i: int| 0 <= i < src.len() ==> cloned(src[i], #[trigger] dst[i])
}

/// Where `f` computes `g`, a fold of `f` is the left-to-right fold of `g` over
/// the elements in their logical order.
pub proof fn lemma_folds_to_fold_left<T, S, F: Fn(&T, S) -> S>(
    f: F,
    g: spec_fn(S, T) -> S,
    init: S,
    s: Seq<T>,
    res: S,
)
    requires
        forall|x: T, acc: S, out: S| #[trigger] f.ensures((&x, acc), out) ==> out == g(acc, x),
        folds_to(f, init, s, res),
    ensures
        res == s.fold_left(init, g),
{
    let accs = choose|accs: Seq<S>| #[trigger] fold_run(f, init, s, accs) && accs.last() == res;
    assert forall|k: int| 0 <= k <= s.len() implies #[trigger] accs[k] == s.take(k).fold_left(init, g) by {
        lemma_fold_run_prefix(f, g, init, s, accs, k);
    }
    assert(s.take(s.len() as int) =~= s);
}

proof fn lemma_fold_run_prefix<T, S, F: Fn(&T, S) -> S>(
    f: F,
    g: spec_fn(S, T) -> S,
    init: S,
    s: Seq<T>,
    accs: Seq<S>,
    k: int,
)
    requires
        forall|x: T, acc: S, out: S| #[trigger] f.ensures((&x, acc), out) ==> out == g(acc, x),
        fold_run(f, init, s, accs),
        0 <= k <= s.len(),
    ensures
        accs[k] == s.take(k).fold_left(init, g),
    decreases k,
{
    if k > 0 {
        lemma_fold_run_prefix(f, g, init, s, accs, k - 1);
        assert(s.take(k).drop_last() =~= s.take(k - 1));
        let i = k - 1;
        assert(f.ensures((&s[i], accs[i]), accs[i + 1]));
    }
}

/// A clone of every element is the sequence itself where cloning keeps the
/// value.
pub proof fn lemma_exact_clones<T: Clone>(src: Seq<T>, dst: Seq<T>)
    requires
        clones_of(src, dst),
        forall|a: T, b: T| #[trigger] cloned(a, b) ==> a == b,
    ensures
        dst == src,
{
    assert forall|i: int| 0 <= i < src.len() implies dst[i] == src[i] by {
        assert(cloned(src[i], dst[i]));
    }
    assert(dst =~= src);
}


} // verus!
