//! Laws that relate the operations of the engines to one another, stated
//! over the sequences of values that the engines stand for.

use vstd::prelude::*;
use crate::algebra::{fold, lemma_fold_single, lemma_fold_split, Action, Monoid};
use crate::segment_tree::base::root_fold;
use crate::segment_tree::layout::{lemma_ceil_log2, root_offset};
use crate::segment_tree::tags::acted;

verus! {

/// A fold over an empty range is the identity: `range_fold(l, l) == id()`
/// for every `l` in `0 ..= n`.
pub proof fn law_empty_range_fold<S: Monoid>(a: Seq<S>, l: int)
    requires
        0 <= l <= a.len(),
    ensures
        fold(a.subrange(l, l)) == S::id_spec(),
{
    assert(a.subrange(l, l) =~= Seq::<S>::empty());
}

/// After `set(i, x)`, reading index `i` gives `x`, the fold over `i .. i + 1`
/// is `x`, and the fold over every range that excludes `i` is what it was.
pub proof fn law_set_then_read<S: Monoid>(a: Seq<S>, i: int, x: S, l: int, r: int)
    requires
        0 <= i < a.len(),
        0 <= l <= r <= a.len(),
        r <= i || i < l,
    ensures
        a.update(i, x)[i] == x,
        fold(a.update(i, x).subrange(i, i + 1)) == x,
        fold(a.update(i, x).subrange(l, r)) == fold(a.subrange(l, r)),
{
    assert(a.update(i, x).subrange(i, i + 1) =~= seq![x]);
    lemma_fold_single(x);
    assert(a.update(i, x).subrange(l, r) =~= a.subrange(l, r));
}

/// The fold over the whole domain is the left-to-right reduction of the
/// sequence: `range_fold(0, n)` is the fold that the fold-and-apply
/// engine's `all_fold` returns.
pub proof fn law_whole_range_fold<S: Monoid>(a: Seq<S>)
    ensures
        fold(a.subrange(0, a.len() as int)) == fold(a),
{
    assert(a.subrange(0, a.len() as int) =~= a);
}

/// The aggregate cached at the root of the fold-only engine is the
/// left-to-right reduction of the sequence, and so `all_fold()` equals
/// `range_fold(0, n)`, whenever the number of values is a power of two or
/// the reduction of the values from `root_offset(n)` on commutes with the
/// reduction of those before.
pub proof fn law_root_fold<S: Monoid>(a: Seq<S>)
    requires
        a.len() >= 1,
        root_offset(a.len()) == 0 || ({
            let k = root_offset(a.len()) as int;
            let head = fold(a.subrange(0, k));
            let tail = fold(a.subrange(k, a.len() as int));
            tail.op_spec(head) == head.op_spec(tail)
        }),
    ensures
        root_fold(a) == fold(a),
        root_fold(a) == fold(a.subrange(0, a.len() as int)),
{
    let n = a.len() as int;
    let k = root_offset(a.len()) as int;
    lemma_ceil_log2(a.len());
    assert(a.subrange(0, n) =~= a);
    lemma_fold_split(a, 0, k, n);
    if k == 0 {
        assert(a.subrange(0, 0) =~= Seq::<S>::empty());
        S::lemma_identity(fold(a.subrange(0, n)));
    }
}

/// A range apply is the eager application of the action to every covered
/// index and to no other.
pub proof fn law_range_apply_pointwise<S, F: Action<S>>(a: Seq<S>, l: int, r: int, f: F, i: int)
    requires
        0 <= i < a.len(),
    ensures
        acted(a, l, r, f).len() == a.len(),
        acted(a, l, r, f)[i] == if l <= i < r {
            f.act_spec(a[i])
        } else {
            a[i]
        },
{
}

/// Applying to a one-element range is the point `apply`.
pub proof fn law_range_apply_single<S, F: Action<S>>(a: Seq<S>, i: int, f: F)
    requires
        0 <= i < a.len(),
    ensures
        acted(a, i, i + 1, f) == a.update(i, f.act_spec(a[i])),
{
    assert(acted(a, i, i + 1, f) =~= a.update(i, f.act_spec(a[i])));
}

/// Applying `g` and then `f` to the same range is applying their
/// composition `f.op(g)` once.
pub proof fn law_range_apply_compose<S, F: Action<S>>(a: Seq<S>, l: int, r: int, f: F, g: F)
    ensures
        acted(acted(a, l, r, g), l, r, f) == acted(a, l, r, f.op_spec(g)),
{
    assert forall|i: int| 0 <= i < a.len() implies acted(acted(a, l, r, g), l, r, f)[i] == acted(
        a,
        l,
        r,
        f.op_spec(g),
    )[i] by {
        F::lemma_act_compose(f, g, a[i]);
    }
    assert(acted(acted(a, l, r, g), l, r, f) =~= acted(a, l, r, f.op_spec(g)));
}

} // verus!
