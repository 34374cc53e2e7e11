//! Laws about sequences of operations on an `AppendVec`, stated over the
//! sequence view that the methods' contracts use: `push` turns the view `s`
//! into `s.push(x)` and `pop` turns it into `s.drop_last()` when `s` is not
//! empty, and leaves it unchanged otherwise.

use vstd::prelude::*;

verus! {

/// One operation on the sequence.
pub enum Op<T> {
    Push(T),
    Pop,
}

/// The view after applying `op` to a sequence whose view is `s`.
pub open spec fn apply_op<T>(s: Seq<T>, op: Op<T>) -> Seq<T> {
    match op {
        Op::Push(x) => s.push(x),
        Op::Pop => if s.len() > 0 {
            s.drop_last()
        } else {
            s
        },
    }
}

/// The view after applying `ops` in order, starting from `s`.
pub open spec fn replay<T>(s: Seq<T>, ops: Seq<Op<T>>) -> Seq<T>
    decreases ops.len(),
{
    if ops.len() == 0 {
        s
    } else {
        apply_op(replay(s, ops.drop_last()), ops.last())
    }
}

/// The number of pushes in `ops`.
pub open spec fn push_count<T>(ops: Seq<Op<T>>) -> nat
    decreases ops.len(),
{
    if ops.len() == 0 {
        0
    } else {
        push_count(ops.drop_last()) + if ops.last() is Push {
            1nat
        } else {
            0nat
        }
    }
}

/// The number of pops in `ops`.
pub open spec fn pop_count<T>(ops: Seq<Op<T>>) -> nat
    decreases ops.len(),
{
    if ops.len() == 0 {
        0
    } else {
        pop_count(ops.drop_last()) + if ops.last() is Pop {
            1nat
        } else {
            0nat
        }
    }
}

/// One push of each value of `xs`, in order.
pub open spec fn pushes<T>(xs: Seq<T>) -> Seq<Op<T>> {
    xs.map_values(|x: T| Op::Push(x))
}

/// Pushing the values `xs` one by one onto `s` gives `s + xs`: what was
/// there keeps its index and value, and `xs[k]` lands at `s.len() + k`.
pub proof fn lemma_pushes_append<T>(s: Seq<T>, xs: Seq<T>)
    ensures
        replay(s, pushes(xs)) == s + xs,
    decreases xs.len(),
{
    if xs.len() > 0 {
        let pre = xs.drop_last();
        assert(pushes(xs).drop_last() =~= pushes(pre));
        lemma_pushes_append(s, pre);
        assert(s + xs =~= (s + pre).push(xs.last()));
    }
}

/// After pushing `xs` onto an empty sequence, index `i` holds exactly the
/// value pushed at that index, and it already held that value after the
/// first `j` pushes whenever `i < j`: later pushes leave it unchanged.
pub proof fn lemma_pushed_values_stay<T>(xs: Seq<T>, j: int)
    requires
        0 <= j <= xs.len(),
    ensures
        replay(Seq::empty(), pushes(xs)).len() == xs.len(),
        forall|i: int| 0 <= i < xs.len() ==> #[trigger] replay(Seq::empty(), pushes(xs))[i] == xs[i],
        forall|i: int|
            0 <= i < j ==> #[trigger] replay(Seq::empty(), pushes(xs.take(j)))[i] == replay(
                Seq::empty(),
                pushes(xs),
            )[i],
{
    lemma_pushes_append(Seq::empty(), xs);
    lemma_pushes_append(Seq::empty(), xs.take(j));
    assert(Seq::<T>::empty() + xs =~= xs);
    assert(Seq::<T>::empty() + xs.take(j) =~= xs.take(j));
}

/// Starting from an empty sequence, after `k` pushes and `m` pops in any
/// order in which no pop finds the sequence empty, the length is `k - m`.
pub proof fn lemma_len_after_pushes_and_pops<T>(ops: Seq<Op<T>>)
    requires
        forall|j: int|
            0 <= j <= ops.len() ==> #[trigger] pop_count(ops.take(j)) <= push_count(ops.take(j)),
    ensures
        replay(Seq::empty(), ops).len() == push_count(ops) - pop_count(ops),
    decreases ops.len(),
{
    if ops.len() > 0 {
        let pre = ops.drop_last();
        assert forall|j: int| 0 <= j <= pre.len() implies #[trigger] pop_count(pre.take(j))
            <= push_count(pre.take(j)) by {
            assert(pre.take(j) =~= ops.take(j));
        }
        lemma_len_after_pushes_and_pops(pre);
        assert(ops.take(ops.len() as int) =~= ops);
        assert(pop_count(ops.take(ops.len() as int)) <= push_count(ops.take(ops.len() as int)));
    }
}

} // verus!
