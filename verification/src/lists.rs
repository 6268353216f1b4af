//! Building lists item by item.
use vstd::prelude::*;

verus! {

/// The list with the item at its end.
pub(crate) fn with<T>(item: T, list: Vec<T>) -> (r: Vec<T>)
    ensures
        r@.len() == list@.len() + 1,
        r@[list@.len() as int] == item,
        forall|i: int| 0 <= i < list@.len() ==> #[trigger] r@[i] == list@[i],
{
    let mut r = list;
    r.push(item);
    r
}

/// The list of the item alone.
pub(crate) fn alone<T>(item: T) -> (list: Vec<T>)
    ensures
        list@.len() == 1,
        list@[0] == item,
{
    let mut list: Vec<T> = Vec::new();
    list.push(item);
    list
}

}
