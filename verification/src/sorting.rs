//! Putting lists in order.
use vstd::prelude::*;

use crate::date::{DateTime, DateTimeView};
use crate::lists;

verus! {

/// A list with one more item: behind the last item that must not come after it.
pub open spec fn placed<V>(list: Seq<V>, item: V, before: spec_fn(V, V) -> bool) -> Seq<V>
    decreases list.len(),
{
    if list.len() > 0 && before(item, list.last()) {
        placed(list.drop_last(), item, before).push(list.last())
    } else {
        list.push(item)
    }
}

/// A list in order. Items of which neither comes before the other stay as they were.
pub open spec fn sorted<V>(list: Seq<V>, before: spec_fn(V, V) -> bool) -> Seq<V>
    decreases list.len(),
{
    if list.len() == 0 {
        list
    } else {
        placed(sorted(list.drop_last(), before), list.last(), before)
    }
}

/// Whether no item of a list must come before an earlier one.
pub open spec fn is_sorted<V>(list: Seq<V>, before: spec_fn(V, V) -> bool) -> bool {
    forall|i: int, j: int| 0 <= i < j < list.len() ==> !before(#[trigger] list[j], #[trigger] list[i])
}

/// Whether a relation puts items in order: none comes before itself or before one that comes before
/// it, and of items that may stand in some order, the first may stand before the last.
pub open spec fn is_order<V>(before: spec_fn(V, V) -> bool) -> bool {
    &&& forall|a: V, b: V| #[trigger] before(a, b) ==> !before(b, a)
    &&& forall|a: V, b: V, c: V|
        !(#[trigger] before(b, a)) && !(#[trigger] before(c, b)) ==> !before(c, a)
}

/// A list without the items that are like the one kept before them.
pub open spec fn deduplicated<V>(list: Seq<V>, alike: spec_fn(V, V) -> bool) -> Seq<V>
    decreases list.len(),
{
    if list.len() == 0 {
        list
    } else {
        let kept = deduplicated(list.drop_last(), alike);
        if kept.len() > 0 && alike(kept.last(), list.last()) {
            kept
        } else {
            kept.push(list.last())
        }
    }
}

proof fn lemma_placed<V>(list: Seq<V>, item: V, before: spec_fn(V, V) -> bool)
    requires
        is_order(before),
        is_sorted(list, before),
    ensures
        is_sorted(placed(list, item, before), before),
        placed(list, item, before).to_multiset() == list.to_multiset().insert(item),
        placed(list, item, before).len() == list.len() + 1,
        forall|x: V|
            #![trigger placed(list, item, before).contains(x)]
            #![trigger list.contains(x)]
            placed(list, item, before).contains(x) <==> list.contains(x) || x == item,
        placed(list, item, before).contains(item),
    decreases list.len(),
{
    broadcast use vstd::seq_lib::group_to_multiset_ensures;

    if list.len() > 0 && before(item, list.last()) {
        let shorter = list.drop_last();
        assert forall|i: int, j: int| 0 <= i < j < shorter.len() implies !before(
            #[trigger] shorter[j],
            #[trigger] shorter[i],
        ) by {
            assert(!before(list[j], list[i]));
        }
        lemma_placed(shorter, item, before);
        let inner = placed(shorter, item, before);
        let out = inner.push(list.last());
        assert(list =~= shorter.push(list.last()));
        assert forall|x: V| #![trigger out.contains(x)] #![trigger list.contains(x)] out.contains(x) <==> list.contains(x) || x == item by {
            if out.contains(x) {
                let i = choose|i: int| 0 <= i < out.len() && out[i] == x;
                if i < inner.len() {
                    assert(inner[i] == x);
                    assert(inner.contains(x));
                    if shorter.contains(x) {
                        let k = choose|k: int| 0 <= k < shorter.len() && shorter[k] == x;
                        assert(list[k] == x);
                    }
                } else {
                    assert(list[list.len() - 1] == x);
                }
            }
            if list.contains(x) || x == item {
                if list.contains(x) {
                    let k = choose|k: int| 0 <= k < list.len() && list[k] == x;
                    if k < shorter.len() {
                        assert(shorter[k] == x);
                        assert(inner.contains(x));
                    } else {
                        assert(out[inner.len() as int] == x);
                    }
                }
                if inner.contains(x) {
                    let i = choose|i: int| 0 <= i < inner.len() && inner[i] == x;
                    assert(out[i] == x);
                }
            }
        }
        assert forall|i: int, j: int| 0 <= i < j < out.len() implies !before(
            #[trigger] out[j],
            #[trigger] out[i],
        ) by {
            if j < inner.len() {
                assert(inner[i] == out[i] && inner[j] == out[j]);
            } else {
                assert(out[i] == inner[i]);
                assert(inner.contains(inner[i]));
                if inner[i] == item {
                    assert(before(item, list.last()));
                } else {
                    let k = choose|k: int| 0 <= k < shorter.len() && shorter[k] == inner[i];
                    assert(list[k] == inner[i]);
                    assert(!before(list[list.len() - 1], list[k]));
                }
            }
        }
        assert(out.to_multiset() =~= list.to_multiset().insert(item));
    } else {
        let out = list.push(item);
        assert forall|x: V| #![trigger out.contains(x)] #![trigger list.contains(x)] out.contains(x) <==> list.contains(x) || x == item by {
            if list.contains(x) {
                let k = choose|k: int| 0 <= k < list.len() && list[k] == x;
                assert(out[k] == x);
            }
            assert(out[list.len() as int] == item);
        }
        assert forall|i: int, j: int| 0 <= i < j < out.len() implies !before(
            #[trigger] out[j],
            #[trigger] out[i],
        ) by {
            if j == list.len() {
                let last = list[list.len() - 1];
                if i < list.len() - 1 {
                    assert(!before(last, list[i]));
                } else {
                    assert(list[i] == last);
                }
                assert(!before(item, last));
            }
        }
    }
}

/// Sorting puts a list in order and keeps its items.
pub proof fn law_sorted<V>(list: Seq<V>, before: spec_fn(V, V) -> bool)
    requires
        is_order(before),
    ensures
        is_sorted(sorted(list, before), before),
        sorted(list, before).to_multiset() == list.to_multiset(),
        sorted(list, before).len() == list.len(),
        forall|x: V|
            #![trigger sorted(list, before).contains(x)]
            #![trigger list.contains(x)]
            sorted(list, before).contains(x) <==> list.contains(x),
    decreases list.len(),
{
    broadcast use vstd::seq_lib::group_to_multiset_ensures;

    if list.len() > 0 {
        let shorter = list.drop_last();
        law_sorted(shorter, before);
        lemma_placed(sorted(shorter, before), list.last(), before);
        assert(list =~= shorter.push(list.last()));
        assert forall|x: V|
            #![trigger sorted(list, before).contains(x)]
            #![trigger list.contains(x)]
            sorted(list, before).contains(x) <==> list.contains(x) by {
            if list.contains(x) {
                let k = choose|k: int| 0 <= k < list.len() && list[k] == x;
                if k < shorter.len() {
                    assert(shorter[k] == x);
                }
            }
            if shorter.contains(x) {
                let k = choose|k: int| 0 <= k < shorter.len() && shorter[k] == x;
                assert(list[k] == x);
            }
            assert(list[list.len() - 1] == list.last());
        }
    }
}

/// A list without its doubles is no longer than the list, and has only items of the list.
pub proof fn lemma_deduplicated<V>(list: Seq<V>, alike: spec_fn(V, V) -> bool)
    ensures
        deduplicated(list, alike).len() <= list.len(),
        forall|x: V| #[trigger] deduplicated(list, alike).contains(x) ==> list.contains(x),
    decreases list.len(),
{
    if list.len() > 0 {
        let shorter = list.drop_last();
        lemma_deduplicated(shorter, alike);
        let kept = deduplicated(shorter, alike);
        assert forall|x: V| #[trigger] deduplicated(list, alike).contains(x) implies list.contains(x) by {
            let out = deduplicated(list, alike);
            let i = choose|i: int| 0 <= i < out.len() && out[i] == x;
            if i < kept.len() {
                assert(kept[i] == x);
                assert(kept.contains(x));
                let k = choose|k: int| 0 <= k < shorter.len() && shorter[k] == x;
                assert(list[k] == x);
            } else {
                assert(list[list.len() - 1] == x);
            }
        }
    }
}

/// Items that can be put in order.
pub trait Ranked: View + Sized {
    /// Whether one item comes before another, by their values.
    spec fn order() -> spec_fn(Self::V, Self::V) -> bool;

    /// Whether this item comes before `other`.
    fn comes_before(&self, other: &Self) -> (r: bool)
        ensures
            r == (Self::order())(self@, other@),
    ;
}

/// Put one more item into a list.
fn place<T: Ranked>(list: &mut Vec<T>, item: T)
    ensures
        lists::views_of(final(list)@) == placed(lists::views_of(old(list)@), item@, T::order()),
{
    let ghost all = lists::views_of(list@);
    let ghost before = list@;
    let mut at: usize = list.len();
    let ghost mut tail: Seq<T::V> = seq![];
    assert(all.take(all.len() as int) =~= all);
    assert(placed(all, item@, T::order()) + tail =~= placed(all, item@, T::order()));
    while at > 0 && item.comes_before(&list[at - 1])
        invariant
            list@ == before,
            all == lists::views_of(before),
            at <= list@.len(),
            tail == all.skip(at as int),
            placed(all, item@, T::order()) == placed(all.take(at as int), item@, T::order()) + tail,
        decreases at,
    {
        proof {
            let head = all.take(at as int);
            assert(head.last() == list@[at - 1]@);
            assert(head.drop_last() =~= all.take(at - 1));
            assert(placed(head.drop_last(), item@, T::order()).push(head.last()) + tail =~= placed(
                head.drop_last(),
                item@,
                T::order(),
            ) + (seq![head.last()] + tail));
            tail = seq![head.last()] + tail;
            assert(tail =~= all.skip(at - 1));
        }
        at -= 1;
    }
    let ghost head = all.take(at as int);
    let ghost value = item@;
    assert(at > 0 ==> head.last() == list@[at - 1]@);
    list.insert(at, item);
    assert(lists::views_of(list@) =~= head.push(value) + tail);
}

/// Put a list in order.
pub fn sort<T: Ranked>(list: Vec<T>) -> (r: Vec<T>)
    ensures
        lists::views_of(r@) == sorted(lists::views_of(list@), T::order()),
{
    let ghost all = lists::views_of(list@);
    let ghost items = list@;
    let mut rest = list;
    let mut reversed: Vec<T> = Vec::new();
    let mut out: Vec<T> = Vec::new();
    while rest.len() > 0
        invariant
            rest@.len() <= items.len(),
            reversed@.len() + rest@.len() == items.len(),
            rest@ == items.take(rest@.len() as int),
            forall|k: int|
                0 <= k < reversed@.len() ==> #[trigger] reversed@[k] == items[items.len() - 1 - k],
        decreases rest@.len(),
    {
        if let Some(item) = rest.pop() {
            reversed.push(item);
            assert(rest@ =~= items.take(rest@.len() as int));
        }
    }
    assert(lists::views_of(out@) =~= sorted(all.take(0), T::order()));
    while reversed.len() > 0
        invariant
            all == lists::views_of(items),
            reversed@.len() <= items.len(),
            forall|k: int|
                0 <= k < reversed@.len() ==> #[trigger] reversed@[k] == items[items.len() - 1 - k],
            lists::views_of(out@) == sorted(all.take(items.len() - reversed@.len()), T::order()),
        decreases reversed@.len(),
    {
        let ghost n = items.len() - reversed@.len();
        if let Some(item) = reversed.pop() {
            proof {
                assert(item == items[n]);
                assert(all.take(n + 1).drop_last() =~= all.take(n));
                assert(all.take(n + 1).last() == item@);
            }
            place(&mut out, item);
        }
    }
    assert(all.take(items.len() as int) =~= all);
    out
}

impl Ranked for DateTime {
    open spec fn order() -> spec_fn(DateTimeView, DateTimeView) -> bool {
        by_instant()
    }

    fn comes_before(&self, other: &DateTime) -> (r: bool) {
        self.before(other)
    }
}

/// The order of instants.
pub open spec fn by_instant() -> spec_fn(DateTimeView, DateTimeView) -> bool {
    |a: DateTimeView, b: DateTimeView| a.before(b)
}

/// Whether two are one instant.
pub open spec fn one_instant() -> spec_fn(DateTimeView, DateTimeView) -> bool {
    |a: DateTimeView, b: DateTimeView| a.same_instant(b)
}

/// Whether two instants fall on one local day.
pub open spec fn one_day() -> spec_fn(DateTimeView, DateTimeView) -> bool {
    |a: DateTimeView, b: DateTimeView| a.local_day() == b.local_day()
}

/// A list of instants without those that are the same instant as the one before them.
pub fn without_same_instants(list: &Vec<DateTime>) -> (r: Vec<DateTime>)
    ensures
        lists::views_of(r@) == deduplicated(lists::views_of(list@), one_instant()),
{
    let ghost all = lists::views_of(list@);
    let mut out: Vec<DateTime> = Vec::new();
    assert(lists::views_of(out@) =~= deduplicated(all.take(0), one_instant()));
    for i in 0..list.len()
        invariant
            all == lists::views_of(list@),
            lists::views_of(out@) == deduplicated(all.take(i as int), one_instant()),
    {
        let ghost before = out@;
        proof {
            lists::lemma_views_take(list@, i as int);
            assert(before.len() > 0 ==> lists::views_of(before).last() == before.last()@);
        }
        if out.len() == 0 || !out[out.len() - 1].same_instant(&list[i]) {
            out.push(list[i]);
            proof {
                lists::lemma_views_push(before, list@[i as int]);
            }
        }
    }
    proof {
        lists::lemma_views_all(list@);
    }
    out
}

/// A list of instants without those that fall on the local day of the one before them.
pub fn without_same_days(list: &Vec<DateTime>) -> (r: Vec<DateTime>)
    ensures
        lists::views_of(r@) == deduplicated(lists::views_of(list@), one_day()),
{
    let ghost all = lists::views_of(list@);
    let mut out: Vec<DateTime> = Vec::new();
    assert(lists::views_of(out@) =~= deduplicated(all.take(0), one_day()));
    for i in 0..list.len()
        invariant
            all == lists::views_of(list@),
            lists::views_of(out@) == deduplicated(all.take(i as int), one_day()),
    {
        let ghost before = out@;
        proof {
            lists::lemma_views_take(list@, i as int);
            assert(before.len() > 0 ==> lists::views_of(before).last() == before.last()@);
        }
        if out.len() == 0 || !out[out.len() - 1].local_date().same(&list[i].local_date()) {
            out.push(list[i]);
            proof {
                lists::lemma_views_push(before, list@[i as int]);
            }
        }
    }
    proof {
        lists::lemma_views_all(list@);
    }
    out
}

/// Leaving out what is like the one kept before it loses nothing: every item of the list is like one
/// that is kept. And no item that is kept is like the one kept before it.
pub proof fn law_deduplicated<V>(list: Seq<V>, alike: spec_fn(V, V) -> bool)
    requires
        forall|x: V| #[trigger] alike(x, x),
    ensures
        forall|i: int|
            0 <= i < list.len() ==> exists|k: int|
                0 <= k < deduplicated(list, alike).len() && alike(
                    #[trigger] deduplicated(list, alike)[k],
                    #[trigger] list[i],
                ),
        forall|k: int|
            0 < k < deduplicated(list, alike).len() ==> !alike(
                deduplicated(list, alike)[k - 1],
                #[trigger] deduplicated(list, alike)[k],
            ),
    decreases list.len(),
{
    if list.len() > 0 {
        let shorter = list.drop_last();
        law_deduplicated(shorter, alike);
        let kept = deduplicated(shorter, alike);
        let out = deduplicated(list, alike);
        assert forall|i: int| 0 <= i < list.len() implies exists|k: int|
            0 <= k < out.len() && alike(#[trigger] out[k], #[trigger] list[i]) by {
            if i < shorter.len() {
                assert(shorter[i] == list[i]);
                let k = choose|k: int|
                    0 <= k < kept.len() && alike(#[trigger] kept[k], shorter[i]);
                assert(out[k] == kept[k]);
                assert(alike(out[k], list[i]));
            } else {
                let k = out.len() - 1;
                assert(alike(list.last(), list.last()));
                assert(alike(out[k], list[i]));
            }
        }
        assert forall|k: int| 0 < k < out.len() implies !alike(out[k - 1], #[trigger] out[k]) by {
            if k < kept.len() {
                assert(out[k] == kept[k]);
                assert(out[k - 1] == kept[k - 1]);
            }
        }
    }
}

} // verus!
