//! Handles on one allocation: what the stores of colours share.

use std::rc::Rc;

use vstd::prelude::*;

verus! {

/// `Rc::clone` of the standard library: a second handle on the same value.
#[verifier::external_body]
pub(crate) fn another_handle<T>(one: &Rc<T>) -> (handle: Rc<T>)
    ensures
        handle == *one,
{
    Rc::clone(one)
}

/// `Rc::ptr_eq` of the standard library: whether two handles are on one
/// allocation, and so on one value. Two allocations may hold equal values, so
/// nothing is claimed of the answer `false`.
#[verifier::external_body]
pub(crate) fn one_allocation<T>(a: &Rc<T>, b: &Rc<T>) -> (same: bool)
    ensures
        same ==> *a == *b,
{
    Rc::ptr_eq(a, b)
}

/// `Rc::strong_count` of the standard library: how many handles there are on an
/// allocation, the one in hand among them. What else holds a handle is not the
/// library's to know, so no more is claimed of the number.
#[verifier::external_body]
pub(crate) fn handles<T>(one: &Rc<T>) -> (count: usize)
    ensures
        count >= 1,
{
    Rc::strong_count(one)
}

/// `n` is what [`handles`] answers of this handle. It may answer otherwise of
/// another handle on an equal value, or of this one at another time.
pub closed spec fn is_answer<T>(one: Rc<T>, n: usize) -> bool {
    call_ensures(handles::<T>, (&one,), n)
}

/// `same` is what [`one_allocation`] says of two handles. It may say otherwise of
/// two others on equal values.
pub closed spec fn is_told<T>(a: Rc<T>, b: Rc<T>, same: bool) -> bool {
    call_ensures(one_allocation::<T>, (&a, &b), same)
}

/// `handle` is what [`another_handle`] gives of this one: a second handle on its
/// allocation, not a value like it elsewhere.
pub closed spec fn is_second<T>(one: Rc<T>, handle: Rc<T>) -> bool {
    call_ensures(another_handle::<T>, (&one,), handle)
}

/// These of the handles are the first on their allocation: of each, it is said of
/// every earlier one that it is on another; of each of the rest, of an earlier one
/// that it is on the same.
pub open spec fn are_firsts<T>(all: Seq<Rc<T>>, first: Seq<bool>) -> bool {
    &&& first.len() == all.len()
    &&& forall|i: int, k: int|
        0 <= k < i < first.len() && first[i] ==> #[trigger] is_told(all[k], all[i], false)
    &&& forall|i: int|
        0 <= i < first.len() && !#[trigger] first[i] ==> exists|k: int|
            0 <= k < i && all[k] == all[i] && #[trigger] is_told(all[k], all[i], true)
}

/// What a handle is answered that is asked how many there are.
fn answer<T, C: Fn(&Rc<T>) -> usize>(one: &Rc<T>, count: C) -> (n: usize)
    requires
        count.requires((one,)),
    ensures
        count.ensures((one,), n),
{
    count(one)
}

/// How many handles there are on an allocation, as [`handles`] answers.
pub(crate) fn count_handles<T>(one: &Rc<T>) -> (n: usize)
    ensures
        is_answer(*one, n),
        n >= 1,
{
    answer(one, handles::<T>)
}

/// What is said of two handles.
fn say<T, S: Fn(&Rc<T>, &Rc<T>) -> bool>(a: &Rc<T>, b: &Rc<T>, same: S) -> (answer: bool)
    requires
        same.requires((a, b)),
    ensures
        same.ensures((a, b), answer),
{
    same(a, b)
}

/// Whether two handles are on one allocation, as [`one_allocation`] says.
pub(crate) fn tell<T>(a: &Rc<T>, b: &Rc<T>) -> (same: bool)
    ensures
        is_told(*a, *b, same),
        same ==> *a == *b,
{
    say(a, b, one_allocation::<T>)
}

/// What a handle gives.
fn give<T, H: Fn(&Rc<T>) -> Rc<T>>(one: &Rc<T>, another: H) -> (handle: Rc<T>)
    requires
        another.requires((one,)),
    ensures
        another.ensures((one,), handle),
{
    another(one)
}

/// A second handle on an allocation, as [`another_handle`] gives it.
pub(crate) fn second_handle<T>(one: &Rc<T>) -> (handle: Rc<T>)
    ensures
        is_second(*one, handle),
        handle == *one,
{
    give(one, another_handle::<T>)
}

/// Which of the handles are the first of those that are the same as they, told of
/// any two whether they are: one is passed over just where an earlier one is.
pub fn first_told<T, S: Fn(&Rc<T>, &Rc<T>) -> bool>(all: &Vec<Rc<T>>, same: S) -> (first: Vec<bool>)
    requires
        forall|a: &Rc<T>, b: &Rc<T>| #[trigger] same.requires((a, b)),
    ensures
        first@.len() == all@.len(),
        forall|i: int, k: int|
            0 <= k < i < first@.len() && first@[i] ==> #[trigger] same.ensures(
                (&all@[k], &all@[i]),
                false,
            ),
        forall|i: int|
            0 <= i < first@.len() && !#[trigger] first@[i] ==> exists|k: int|
                0 <= k < i && #[trigger] same.ensures((&all@[k], &all@[i]), true),
{
    let mut first: Vec<bool> = Vec::new();
    let mut i: usize = 0;
    while i < all.len()
        invariant
            i <= all@.len(),
            first@.len() == i,
            forall|a: &Rc<T>, b: &Rc<T>| #[trigger] same.requires((a, b)),
            forall|j: int, k: int|
                0 <= k < j < i && first@[j] ==> #[trigger] same.ensures(
                    (&all@[k], &all@[j]),
                    false,
                ),
            forall|j: int|
                0 <= j < i && !#[trigger] first@[j] ==> exists|k: int|
                    0 <= k < j && #[trigger] same.ensures((&all@[k], &all@[j]), true),
        decreases all@.len() - i,
    {
        let mut seen = false;
        let mut k: usize = 0;
        while k < i && !seen
            invariant
                k <= i < all@.len(),
                forall|a: &Rc<T>, b: &Rc<T>| #[trigger] same.requires((a, b)),
                !seen ==> forall|j: int|
                    0 <= j < k ==> #[trigger] same.ensures((&all@[j], &all@[i as int]), false),
                seen ==> exists|j: int|
                    0 <= j < i && #[trigger] same.ensures((&all@[j], &all@[i as int]), true),
            decreases i - k,
        {
            seen = same(&all[k], &all[i]);
            k += 1;
        }
        first.push(!seen);
        i += 1;
    }
    first
}

/// Which of the handles are the first on their allocation: one is passed over just
/// where [`one_allocation`] says of an earlier one that it is on the same
/// allocation, and so the same value; of one that is not, it says of every earlier
/// one that it is not.
pub fn first_handles<T>(all: &Vec<Rc<T>>) -> (first: Vec<bool>)
    ensures
        are_firsts(all@, first@),
{
    let first = first_told(all, one_allocation::<T>);
    proof {
        assert forall|i: int, k: int| 0 <= k < i < first@.len() && first@[i] implies #[trigger]
        is_told(all@[k], all@[i], false) by {
            assert(call_ensures(one_allocation::<T>, (&all@[k], &all@[i]), false));
        }
        assert forall|i: int| 0 <= i < first@.len() && !#[trigger] first@[i] implies exists|k: int|
            0 <= k < i && all@[k] == all@[i] && #[trigger] is_told(all@[k], all@[i], true) by {
            let k = choose|k: int|
                0 <= k < i && #[trigger] call_ensures(
                    one_allocation::<T>,
                    (&all@[k], &all@[i]),
                    true,
                );
            assert(is_told(all@[k], all@[i], true));
        }
    }
    first
}

} // verus!
