//! Bringing lists into an order.

use vstd::prelude::*;

verus! {

/// An order of things: any two can be told apart or belong to the same place.
pub trait Arrangement<T> {
    /// Whether the first may stand before the second.
    spec fn may_precede(&self, a: T, b: T) -> bool;

    proof fn total(&self, a: T, b: T)
        ensures
            self.may_precede(a, b) || self.may_precede(b, a),
    ;

    proof fn transitive(&self, a: T, b: T, c: T)
        requires
            self.may_precede(a, b),
            self.may_precede(b, c),
        ensures
            self.may_precede(a, c),
    ;

    fn can_precede(&self, a: &T, b: &T) -> (result: bool)
        ensures
            result == self.may_precede(*a, *b),
    ;
}

/// Whether each thing of a list may stand before all behind it.
pub open spec fn is_arranged<T, A: Arrangement<T>>(items: Seq<T>, order: &A) -> bool {
    forall|i: int, j: int|
        0 <= i < j < items.len() ==> order.may_precede(#[trigger] items[i], #[trigger] items[j])
}

proof fn lemma_taken<T>(items: Seq<T>, n: int)
    requires
        0 <= n < items.len(),
    ensures
        items.take(n + 1).to_multiset() == items.take(n).to_multiset().insert(items[n]),
{
    assert(items.take(n + 1) =~= items.take(n).push(items[n]));
    vstd::seq_lib::to_multiset_build(items.take(n), items[n]);
}

fn merged<T: Copy, A: Arrangement<T>>(left: &Vec<T>, right: &Vec<T>, order: &A) -> (result: Vec<T>)
    requires
        is_arranged(left@, order),
        is_arranged(right@, order),
        left@.len() + right@.len() <= usize::MAX,
    ensures
        is_arranged(result@, order),
        result@.to_multiset() == left@.to_multiset().add(right@.to_multiset()),
        result@.len() == left@.len() + right@.len(),
{
    let mut result: Vec<T> = Vec::new();
    let mut i: usize = 0;
    let mut j: usize = 0;
    proof {
        assert(left@.take(0) =~= Seq::<T>::empty());
        assert(right@.take(0) =~= Seq::<T>::empty());
        vstd::seq_lib::lemma_multiset_commutative(left@.take(0), right@.take(0));
        assert(result@ =~= left@.take(0) + right@.take(0));
    }
    while i < left.len() || j < right.len()
        invariant
            i <= left@.len(),
            j <= right@.len(),
            left@.len() + right@.len() <= usize::MAX,
            is_arranged(left@, order),
            is_arranged(right@, order),
            is_arranged(result@, order),
            result@.len() == i + j,
            result@.to_multiset() == left@.take(i as int).to_multiset().add(
                right@.take(j as int).to_multiset(),
            ),
            forall|k: int, l: int|
                0 <= k < result@.len() && i <= l < left@.len() ==> order.may_precede(
                    #[trigger] result@[k],
                    #[trigger] left@[l],
                ),
            forall|k: int, l: int|
                0 <= k < result@.len() && j <= l < right@.len() ==> order.may_precede(
                    #[trigger] result@[k],
                    #[trigger] right@[l],
                ),
        decreases left@.len() - i + right@.len() - j,
    {
        let from_left: bool = if i >= left.len() {
            false
        } else if j >= right.len() {
            true
        } else {
            order.can_precede(&left[i], &right[j])
        };
        let ghost before = result@;
        if from_left {
            let one: T = left[i];
            proof {
                lemma_taken(left@, i as int);
                vstd::seq_lib::to_multiset_build(before, one);
                assert forall|l: int| j <= l < right@.len() implies order.may_precede(
                    one,
                    #[trigger] right@[l],
                ) by {
                    if l > j {
                        order.transitive(one, right@[j as int], right@[l]);
                    }
                }
            }
            result.push(one);
            i += 1;
            assert(result@.to_multiset() =~= left@.take(i as int).to_multiset().add(
                right@.take(j as int).to_multiset(),
            ));
        } else {
            let one: T = right[j];
            proof {
                lemma_taken(right@, j as int);
                vstd::seq_lib::to_multiset_build(before, one);
                if i < left@.len() {
                    order.total(left@[i as int], one);
                }
                assert forall|l: int| i <= l < left@.len() implies order.may_precede(
                    one,
                    #[trigger] left@[l],
                ) by {
                    if l > i {
                        order.transitive(one, left@[i as int], left@[l]);
                    }
                }
            }
            result.push(one);
            j += 1;
            assert(result@.to_multiset() =~= left@.take(i as int).to_multiset().add(
                right@.take(j as int).to_multiset(),
            ));
        }
    }
    assert(left@.take(i as int) =~= left@);
    assert(right@.take(j as int) =~= right@);
    result
}

fn arranged_part<T: Copy, A: Arrangement<T>>(
    items: &Vec<T>,
    from: usize,
    to: usize,
    order: &A,
) -> (result: Vec<T>)
    requires
        from <= to <= items@.len(),
    ensures
        is_arranged(result@, order),
        result@.to_multiset() == items@.subrange(from as int, to as int).to_multiset(),
        result@.len() == to - from,
    decreases to - from,
{
    if to - from < 2 {
        let mut result: Vec<T> = Vec::new();
        if from < to {
            result.push(items[from]);
        }
        assert(result@ =~= items@.subrange(from as int, to as int));
        return result;
    }
    let middle: usize = from + (to - from) / 2;
    let left: Vec<T> = arranged_part(items, from, middle, order);
    let right: Vec<T> = arranged_part(items, middle, to, order);
    proof {
        let a = items@.subrange(from as int, middle as int);
        let b = items@.subrange(middle as int, to as int);
        assert(items@.subrange(from as int, to as int) =~= a + b);
        vstd::seq_lib::lemma_multiset_commutative(a, b);
    }
    merged(&left, &right, order)
}

/// The things of a list in an order.
pub fn arranged<T: Copy, A: Arrangement<T>>(items: &Vec<T>, order: &A) -> (result: Vec<T>)
    ensures
        is_arranged(result@, order),
        result@.to_multiset() == items@.to_multiset(),
        result@.len() == items@.len(),
{
    assert(items@.subrange(0, items@.len() as int) =~= items@);
    arranged_part(items, 0, items.len(), order)
}

} // verus!
