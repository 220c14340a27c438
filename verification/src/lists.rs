//! Lists and the values that they hold.
use vstd::prelude::*;

verus! {

/// The values of the items of a list.
pub open spec fn views_of<T: View>(items: Seq<T>) -> Seq<T::V> {
    Seq::new(items.len(), |i: int| items[i]@)
}

/// The value of an optional item.
pub open spec fn view_of<T: View>(item: Option<T>) -> Option<T::V> {
    match item {
        Some(item) => Some(item@),
        None => None,
    }
}

/// The values of a list with one more item at its end.
pub proof fn lemma_views_push<T: View>(items: Seq<T>, item: T)
    ensures
        views_of(items.push(item)) == views_of(items).push(item@),
{
    assert(views_of(items.push(item)) =~= views_of(items).push(item@));
}

/// The first items of a list, with the next one at their end.
pub proof fn lemma_views_take<T: View>(items: Seq<T>, i: int)
    requires
        0 <= i < items.len(),
    ensures
        views_of(items).take(i + 1) == views_of(items).take(i).push(items[i]@),
        views_of(items).take(i + 1).drop_last() == views_of(items).take(i),
        views_of(items).take(i + 1).last() == items[i]@,
{
    assert(views_of(items).take(i + 1) =~= views_of(items).take(i).push(items[i]@));
    assert(views_of(items).take(i + 1).drop_last() =~= views_of(items).take(i));
}

/// All the items of a list.
pub proof fn lemma_views_all<T: View>(items: Seq<T>)
    ensures
        views_of(items).take(items.len() as int) == views_of(items),
        views_of(items).take(0) == Seq::<T::V>::empty(),
{
    assert(views_of(items).take(items.len() as int) =~= views_of(items));
    assert(views_of(items).take(0) =~= Seq::<T::V>::empty());
}

} // verus!
