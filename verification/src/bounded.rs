//! The fixed-capacity sequences of positions that the path and the search
//! are stored in. They are `heapless` collections; what this module states
//! of them is taken from their source and is not proved here.

use vstd::prelude::*;
use crate::vec::Vecu;
use crate::MAZE_SIZE;

verus! {

/// `heapless::Vec`, a vector with a fixed capacity. Nothing inside it is
/// seen here: what it holds is named by [`vec_items`].
#[verifier::external_type_specification]
#[verifier::external_body]
#[verifier::reject_recursive_types(T)]
pub struct ExVec<T, const N: usize>(heapless::Vec<T, N>);

/// `heapless::Deque`, a queue with a fixed capacity. Nothing inside it is
/// seen here: what it holds is named by [`deque_items`].
#[verifier::external_type_specification]
#[verifier::external_body]
#[verifier::reject_recursive_types(T)]
pub struct ExDeque<T, const N: usize>(heapless::Deque<T, N>);

/// The positions that a `heapless::Vec` holds, first to last.
pub uninterp spec fn vec_items(v: heapless::Vec<Vecu, MAZE_SIZE>) -> Seq<Vecu>;

/// The positions that a `heapless::Deque` holds, front to back.
pub uninterp spec fn deque_items(d: heapless::Deque<Vecu, MAZE_SIZE>) -> Seq<Vecu>;

/// `heapless::Vec::new`: a vector that holds nothing.
#[verifier::external_body]
pub(crate) fn vec_new() -> (v: heapless::Vec<Vecu, MAZE_SIZE>)
    ensures
        vec_items(v) == Seq::<Vecu>::empty(),
{
    heapless::Vec::new()
}

/// `heapless::Vec::push`: below the capacity the item is put behind the
/// others; at the capacity nothing changes and the item comes back.
#[verifier::external_body]
pub(crate) fn vec_push(
    v: &mut heapless::Vec<Vecu, MAZE_SIZE>,
    item: Vecu,
) -> (r: Result<(), Vecu>)
    ensures
        match r {
            Ok(_) => vec_items(*old(v)).len() < MAZE_SIZE && vec_items(*final(v)) == vec_items(
                *old(v),
            ).push(item),
            Err(back) => vec_items(*old(v)).len() >= MAZE_SIZE && back == item && vec_items(
                *final(v),
            ) == vec_items(*old(v)),
        },
{
    v.push(item)
}

/// `heapless::Vec::as_slice`: the items as a slice, which is never longer
/// than the capacity.
#[verifier::external_body]
pub(crate) fn vec_as_slice(v: &heapless::Vec<Vecu, MAZE_SIZE>) -> (s: &[Vecu])
    ensures
        s@ == vec_items(*v),
        s@.len() <= MAZE_SIZE,
{
    v.as_slice()
}

/// `heapless::Deque::new`: a queue that holds nothing.
#[verifier::external_body]
pub(crate) fn deque_new() -> (d: heapless::Deque<Vecu, MAZE_SIZE>)
    ensures
        deque_items(d) == Seq::<Vecu>::empty(),
{
    heapless::Deque::new()
}

/// `heapless::Deque::is_empty`: whether the queue holds nothing.
#[verifier::external_body]
pub(crate) fn deque_is_empty(d: &heapless::Deque<Vecu, MAZE_SIZE>) -> (b: bool)
    ensures
        b == (deque_items(*d).len() == 0),
{
    d.is_empty()
}

/// `heapless::Deque::push_back`: below the capacity the item is put behind
/// the others; at the capacity nothing changes and the item comes back.
#[verifier::external_body]
pub(crate) fn deque_push_back(
    d: &mut heapless::Deque<Vecu, MAZE_SIZE>,
    item: Vecu,
) -> (r: Result<(), Vecu>)
    ensures
        match r {
            Ok(_) => deque_items(*old(d)).len() < MAZE_SIZE && deque_items(*final(d))
                == deque_items(*old(d)).push(item),
            Err(back) => deque_items(*old(d)).len() >= MAZE_SIZE && back == item && deque_items(
                *final(d),
            ) == deque_items(*old(d)),
        },
{
    d.push_back(item)
}

/// `heapless::Deque::pop_front`: takes the item at the front out and
/// returns it, or returns `None` where the queue holds nothing.
#[verifier::external_body]
pub(crate) fn deque_pop_front(d: &mut heapless::Deque<Vecu, MAZE_SIZE>) -> (r: Option<Vecu>)
    ensures
        match r {
            Some(front) => deque_items(*old(d)).len() > 0 && front == deque_items(*old(d))[0]
                && deque_items(*final(d)) == deque_items(*old(d)).subrange(
                1,
                deque_items(*old(d)).len() as int,
            ),
            None => deque_items(*old(d)).len() == 0 && deque_items(*final(d)) == deque_items(
                *old(d),
            ),
        },
{
    d.pop_front()
}

} // verus!
