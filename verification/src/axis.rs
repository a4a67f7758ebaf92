//! The order of one axis of a matrix: the identity, or an explicit permutation.
//!
//! An axis is an `either::Either`: `Left(n)` leaves `n` positions where they are,
//! `Right(order)` sends the logical position `i` to the stored position `order[i]`.

use either::Either;
use vstd::prelude::*;

verus! {

/// `either::Either`, with its two variants as the crate declares them.
#[verifier::external_type_specification]
#[verifier::reject_recursive_types(L)]
#[verifier::reject_recursive_types(R)]
pub struct ExEither<L, R>(Either<L, R>);

/// `Either::clone` keeps the variant and clones what it holds.
pub assume_specification<L: Clone, R: Clone>[ <Either<L, R> as Clone>::clone ](
    this: &Either<L, R>,
) -> (copy: Either<L, R>)
    ensures
        match (*this, copy) {
            (Either::Left(a), Either::Left(b)) => cloned(a, b),
            (Either::Right(a), Either::Right(b)) => cloned(a, b),
            _ => false,
        },
;

/// `Either::as_ref` keeps the variant and borrows what it holds.
pub assume_specification<L, R>[ Either::<L, R>::as_ref ](this: &Either<L, R>) -> (borrowed: Either<
    &L,
    &R,
>)
    ensures
        match (*this, borrowed) {
            (Either::Left(a), Either::Left(b)) => a == *b,
            (Either::Right(a), Either::Right(b)) => a == *b,
            _ => false,
        },
;

/// `Either::is_right` tells whether the value is the `Right` variant.
pub assume_specification<L, R>[ Either::<L, R>::is_right ](this: &Either<L, R>) -> (answer: bool)
    ensures
        answer == (*this is Right),
;

/// Whether some position of `order` holds `target`.
pub open spec fn reaches(order: Seq<int>, target: int) -> bool {
    exists|i: int| 0 <= i < order.len() && #[trigger] order[i] == target
}

/// `order` maps `0..order.len()` onto itself, one to one.
pub open spec fn is_permutation(order: Seq<int>) -> bool {
    &&& forall|i: int| 0 <= i < order.len() ==> 0 <= #[trigger] order[i] < order.len()
    &&& forall|i: int, j: int|
        0 <= i < order.len() && 0 <= j < order.len() && i != j ==> #[trigger] order[i]
            != #[trigger] order[j]
    &&& forall|x: int| 0 <= x < order.len() ==> #[trigger] reaches(order, x)
}

/// The order that leaves `size` positions where they are.
pub open spec fn identity(size: nat) -> Seq<int> {
    Seq::new(size, |i: int| i)
}

/// The order with the entries at `a` and `b` exchanged.
pub open spec fn exchanged(order: Seq<int>, a: int, b: int) -> Seq<int> {
    order.update(a, order[b]).update(b, order[a])
}

/// The order that an axis descriptor stands for: logical position to stored position.
pub open spec fn axis_order(axis: Either<usize, Vec<usize>>) -> Seq<int> {
    match axis {
        Either::Left(size) => identity(size as nat),
        Either::Right(order) => order@.map_values(|x: usize| x as int),
    }
}

/// How many of the flags are not set.
pub open spec fn pending(flags: Seq<bool>) -> nat
    decreases flags.len(),
{
    if flags.len() == 0 {
        0
    } else {
        pending(flags.drop_last()) + if flags.last() {
            0nat
        } else {
            1nat
        }
    }
}

/// Setting a flag that was not set leaves one fewer pending.
pub proof fn lemma_pending_set(flags: Seq<bool>, index: int)
    requires
        0 <= index < flags.len(),
        !flags[index],
    ensures
        pending(flags.update(index, true)) + 1 == pending(flags),
    decreases flags.len(),
{
    let after = flags.update(index, true);
    if index == flags.len() - 1 {
        assert(after.drop_last() =~= flags.drop_last());
    } else {
        lemma_pending_set(flags.drop_last(), index);
        assert(after.drop_last() =~= flags.drop_last().update(index, true));
    }
}

/// An axis never has more positions than `usize` can count.
pub proof fn lemma_axis_size(axis: Either<usize, Vec<usize>>)
    ensures
        axis_order(axis).len() <= usize::MAX,
{
    match axis {
        Either::Left(size) => {},
        Either::Right(order) => {
            assert(order@.len() == order.len());
        },
    }
}

pub proof fn lemma_identity_is_permutation(size: nat)
    ensures
        is_permutation(identity(size)),
{
    let order = identity(size);
    assert forall|x: int| 0 <= x < order.len() implies #[trigger] reaches(order, x) by {
        assert(order[x] == x);
    }
}

/// The order with `extra` positions added behind it, each left where it is.
pub open spec fn extended(order: Seq<int>, extra: nat) -> Seq<int> {
    order + Seq::new(extra, |j: int| order.len() + j)
}

pub proof fn lemma_extended_is_permutation(order: Seq<int>, extra: nat)
    requires
        is_permutation(order),
    ensures
        is_permutation(extended(order, extra)),
{
    let next = extended(order, extra);
    assert forall|x: int| 0 <= x < next.len() implies #[trigger] reaches(next, x) by {
        if x < order.len() {
            assert(reaches(order, x));
            let i = choose|i: int| 0 <= i < order.len() && #[trigger] order[i] == x;
            assert(next[i] == x);
        } else {
            assert(next[x] == x);
        }
    }
    assert forall|i: int, j: int|
        0 <= i < next.len() && 0 <= j < next.len() && i != j implies #[trigger] next[i]
        != #[trigger] next[j] by {
        if i < order.len() {
            assert(next[i] == order[i]);
        }
        if j < order.len() {
            assert(next[j] == order[j]);
        }
    }
    assert forall|i: int| 0 <= i < next.len() implies 0 <= #[trigger] next[i] < next.len() by {
        if i < order.len() {
            assert(next[i] == order[i]);
        }
    }
}

pub proof fn lemma_exchanged_is_permutation(order: Seq<int>, a: int, b: int)
    requires
        is_permutation(order),
        0 <= a < order.len(),
        0 <= b < order.len(),
    ensures
        is_permutation(exchanged(order, a, b)),
{
    let next = exchanged(order, a, b);
    assert forall|x: int| 0 <= x < next.len() implies #[trigger] reaches(next, x) by {
        assert(reaches(order, x));
        let i = choose|i: int| 0 <= i < order.len() && #[trigger] order[i] == x;
        if i == a {
            assert(next[b] == x);
        } else if i == b {
            assert(next[a] == x);
        } else {
            assert(next[i] == x);
        }
    }
    assert forall|i: int, j: int|
        0 <= i < next.len() && 0 <= j < next.len() && i != j implies #[trigger] next[i]
        != #[trigger] next[j] by {
        let pi = if i == a { b } else if i == b { a } else { i };
        let pj = if j == a { b } else if j == b { a } else { j };
        assert(next[i] == order[pi]);
        assert(next[j] == order[pj]);
    }
}

/// The number of positions on the axis.
pub(crate) fn axis_size(axis: &Either<usize, Vec<usize>>) -> (size: usize)
    ensures
        size == axis_order(*axis).len(),
{
    match axis.as_ref() {
        Either::Left(size) => *size,
        Either::Right(order) => order.len(),
    }
}

/// The stored position of the logical position `index`, if the axis has it.
pub(crate) fn axis_lookup(axis: &Either<usize, Vec<usize>>, index: usize) -> (stored: Option<usize>)
    ensures
        index < axis_order(*axis).len() ==> stored == Some(axis_order(*axis)[index as int] as usize)
            && axis_order(*axis)[index as int] == stored.unwrap(),
        index >= axis_order(*axis).len() ==> stored is None,
{
    match axis.as_ref() {
        Either::Left(size) => if index < *size {
            Some(index)
        } else {
            None
        },
        Either::Right(order) => if index < order.len() {
            Some(order[index])
        } else {
            None
        },
    }
}

/// Exchanges two positions of the axis, writing the identity out first where it was implicit.
/// An index past the end changes nothing.
pub(crate) fn axis_swap(axis: &mut Either<usize, Vec<usize>>, a: usize, b: usize) -> (done: Option<()>)
    ensures
        done is Some <==> a < axis_order(*old(axis)).len() && b < axis_order(*old(axis)).len(),
        done is Some ==> axis_order(*final(axis)) == exchanged(
            axis_order(*old(axis)),
            a as int,
            b as int,
        ),
        done is None ==> *final(axis) == *old(axis),
{
    let size = axis_size(axis);
    if a >= size || b >= size {
        return None;
    }
    match axis {
        Either::Left(_) => {
            let mut order: Vec<usize> = Vec::new();
            let mut i: usize = 0;
            while i < size
                invariant
                    i <= size,
                    order@.len() == i,
                    forall|k: int| 0 <= k < i ==> order@[k] == k,
                decreases size - i,
            {
                order.push(i);
                i += 1;
            }
            let at_a = order[a];
            let at_b = order[b];
            order[a] = at_b;
            order[b] = at_a;
            proof {
                assert(order@.map_values(|x: usize| x as int) =~= exchanged(
                    identity(size as nat),
                    a as int,
                    b as int,
                ));
            }
            *axis = Either::Right(order);
        },
        Either::Right(order) => {
            let ghost before = order@;
            let at_a = order[a];
            let at_b = order[b];
            order[a] = at_b;
            order[b] = at_a;
            proof {
                assert(order@.map_values(|x: usize| x as int) =~= exchanged(
                    before.map_values(|x: usize| x as int),
                    a as int,
                    b as int,
                ));
            }
        },
    }
    Some(())
}

/// Adds `extra` positions behind the last, each stored where it stands.
pub(crate) fn axis_extend(axis: &mut Either<usize, Vec<usize>>, extra: usize)
    requires
        axis_order(*old(axis)).len() + extra <= usize::MAX,
    ensures
        axis_order(*final(axis)) == extended(axis_order(*old(axis)), extra as nat),
{
    match axis {
        Either::Left(size) => {
            let ghost before = *size;
            *size = *size + extra;
            proof {
                assert(identity((before + extra) as nat) =~= extended(
                    identity(before as nat),
                    extra as nat,
                ));
            }
        },
        Either::Right(order) => {
            let ghost before = order@;
            let from = order.len();
            let mut added: usize = 0;
            while added < extra
                invariant
                    added <= extra,
                    from == before.len(),
                    from + extra <= usize::MAX,
                    order@.len() == from + added,
                    forall|k: int| 0 <= k < from ==> order@[k] == before[k],
                    forall|k: int| from <= k < from + added ==> order@[k] == k,
                decreases extra - added,
            {
                order.push(from + added);
                added += 1;
            }
            proof {
                assert(order@.map_values(|x: usize| x as int) =~= extended(
                    before.map_values(|x: usize| x as int),
                    extra as nat,
                ));
            }
        },
    }
}

} // verus!
