//! Sequences of viewed values: the vocabulary that every contract of the crate is written in.
use vstd::prelude::*;

verus! {

/// The views of a sequence's items, in order.
pub open spec fn views<T: View>(items: Seq<T>) -> Seq<T::V> {
    Seq::new(items.len(), |i: int| items[i]@)
}

/// The view of what an option holds, if it holds anything.
pub open spec fn opt_view<T: View>(item: Option<T>) -> Option<T::V> {
    match item {
        Some(value) => Some(value@),
        None => None,
    }
}

/// The items of `items` without repetitions, each at the place of its first occurrence.
pub open spec fn distinct<A>(items: Seq<A>) -> Seq<A>
    decreases items.len(),
{
    if items.len() == 0 {
        Seq::empty()
    } else {
        let earlier = distinct(items.drop_last());
        if earlier.contains(items.last()) {
            earlier
        } else {
            earlier.push(items.last())
        }
    }
}

/// What the options hold, those that hold nothing left out.
pub open spec fn somes<A>(items: Seq<Option<A>>) -> Seq<A>
    decreases items.len(),
{
    if items.len() == 0 {
        Seq::empty()
    } else {
        match items.last() {
            Some(x) => somes(items.drop_last()).push(x),
            None => somes(items.drop_last()),
        }
    }
}

/// The pairs whose first half does not occur in an earlier pair.
pub open spec fn first_of_each<K, V>(pairs: Seq<(K, V)>) -> Seq<(K, V)>
    decreases pairs.len(),
{
    if pairs.len() == 0 {
        Seq::empty()
    } else {
        let earlier = first_of_each(pairs.drop_last());
        if some_item(earlier, keyed(pairs.last().0)) {
            earlier
        } else {
            earlier.push(pairs.last())
        }
    }
}

pub open spec fn keyed<K, V>(key: K) -> spec_fn((K, V)) -> bool {
    |pair: (K, V)| pair.0 == key
}

/// `base`, and behind it each of `items` that is not there yet.
pub open spec fn with_new<A>(base: Seq<A>, items: Seq<A>) -> Seq<A>
    decreases items.len(),
{
    if items.len() == 0 {
        base
    } else {
        let earlier = with_new(base, items.drop_last());
        if earlier.contains(items.last()) {
            earlier
        } else {
            earlier.push(items.last())
        }
    }
}

/// The items that occur more than once, each at the place of its second occurrence.
pub open spec fn repeats<A>(items: Seq<A>) -> Seq<A>
    decreases items.len(),
{
    if items.len() == 0 {
        Seq::empty()
    } else {
        let rest = items.drop_last();
        if rest.contains(items.last()) && !repeats(rest).contains(items.last()) {
            repeats(rest).push(items.last())
        } else {
            repeats(rest)
        }
    }
}

/// The items of all the sequences, one sequence behind the other.
pub open spec fn concat_all<A>(lists: Seq<Seq<A>>) -> Seq<A>
    decreases lists.len(),
{
    if lists.len() == 0 {
        Seq::empty()
    } else {
        concat_all(lists.drop_last()) + lists.last()
    }
}

/// The position of the first item that `pred` accepts, or the length if there is none.
pub open spec fn first_where<A>(items: Seq<A>, pred: spec_fn(A) -> bool) -> int
    decreases items.len(),
{
    if items.len() == 0 {
        0
    } else {
        let earlier = first_where(items.drop_last(), pred);
        if earlier < items.len() - 1 || pred(items.last()) {
            earlier
        } else {
            earlier + 1
        }
    }
}

/// The first item that `pred` accepts.
pub open spec fn find_first<A>(items: Seq<A>, pred: spec_fn(A) -> bool) -> Option<A> {
    let at = first_where(items, pred);
    if at < items.len() {
        Some(items[at])
    } else {
        None
    }
}

/// Whether `pred` accepts some item.
pub open spec fn some_item<A>(items: Seq<A>, pred: spec_fn(A) -> bool) -> bool {
    exists|i: int| 0 <= i < items.len() && pred(#[trigger] items[i])
}

/// Whether `pred` accepts every item.
pub open spec fn every_item<A>(items: Seq<A>, pred: spec_fn(A) -> bool) -> bool {
    forall|i: int| 0 <= i < items.len() ==> pred(#[trigger] items[i])
}

/// `items` is in the order `le`, earlier items first.
pub open spec fn in_order<A>(items: Seq<A>, le: spec_fn(A, A) -> bool) -> bool {
    forall|i: int, j: int|
        0 <= i < j < items.len() ==> le(#[trigger] items[i], #[trigger] items[j])
}

/// `items` with `x` put behind the last item that `le` lets come before it.
pub open spec fn insert_in_order<A>(items: Seq<A>, x: A, le: spec_fn(A, A) -> bool) -> Seq<A>
    decreases items.len(),
{
    if items.len() == 0 {
        seq![x]
    } else if le(items.last(), x) {
        items.push(x)
    } else {
        insert_in_order(items.drop_last(), x, le).push(items.last())
    }
}

/// `items` sorted by `le`; items that `le` does not tell apart keep their order.
pub open spec fn sorted<A>(items: Seq<A>, le: spec_fn(A, A) -> bool) -> Seq<A>
    decreases items.len(),
{
    if items.len() == 0 {
        Seq::empty()
    } else {
        insert_in_order(sorted(items.drop_last(), le), items.last(), le)
    }
}

/// `le` orders every two items, and does so transitively.
pub open spec fn total_order<A>(le: spec_fn(A, A) -> bool) -> bool {
    &&& forall|a: A, b: A| #[trigger] le(a, b) || le(b, a)
    &&& forall|a: A, b: A, c: A| #[trigger] le(a, b) && #[trigger] le(b, c) ==> le(a, c)
}

pub proof fn lemma_views_push<T: View>(items: Seq<T>, x: T)
    ensures
        views(items.push(x)) == views(items).push(x@),
{
    assert(views(items.push(x)) =~= views(items).push(x@));
}

pub proof fn lemma_views_add<T: View>(a: Seq<T>, b: Seq<T>)
    ensures
        views(a + b) == views(a) + views(b),
{
    assert(views(a + b) =~= views(a) + views(b));
}

/// One step of a loop that has handled the first `n` items.
pub proof fn lemma_take_next<A>(items: Seq<A>, n: int)
    requires
        0 <= n < items.len(),
    ensures
        items.take(n + 1) == items.take(n).push(items[n]),
        items.take(n + 1).drop_last() == items.take(n),
        items.take(n + 1).last() == items[n],
{
    assert(items.take(n + 1) =~= items.take(n).push(items[n]));
    assert(items.take(n + 1).drop_last() =~= items.take(n));
}

pub proof fn lemma_take_all<A>(items: Seq<A>)
    ensures
        items.take(items.len() as int) == items,
{
    assert(items.take(items.len() as int) =~= items);
}

pub proof fn lemma_concat_next<A, B>(items: Seq<A>, n: int, f: spec_fn(A) -> Seq<B>)
    requires
        0 <= n < items.len(),
    ensures
        concat_all(items.take(n + 1).map_values(f)) == concat_all(items.take(n).map_values(f)) + f(
            items[n],
        ),
{
    lemma_map_next(items, n, f);
    assert(items.take(n + 1).map_values(f).drop_last() =~= items.take(n).map_values(f));
}

pub proof fn lemma_somes_next<A, B>(items: Seq<A>, n: int, f: spec_fn(A) -> Option<B>)
    requires
        0 <= n < items.len(),
    ensures
        somes(items.take(n + 1).map_values(f)) == match f(items[n]) {
            Some(x) => somes(items.take(n).map_values(f)).push(x),
            None => somes(items.take(n).map_values(f)),
        },
{
    lemma_map_next(items, n, f);
    assert(items.take(n + 1).map_values(f).drop_last() =~= items.take(n).map_values(f));
}

/// What is among the held values is held by one of the options, and the reverse.
pub proof fn lemma_somes_members<A>(items: Seq<Option<A>>)
    ensures
        forall|x: A| #[trigger] somes(items).contains(x) <==> items.contains(Some(x)),
    decreases items.len(),
{
    if items.len() > 0 {
        let rest = items.drop_last();
        lemma_somes_members(rest);
        let out = somes(items);
        assert forall|x: A| #[trigger] out.contains(x) <==> items.contains(Some(x)) by {
            let before = somes(rest);
            if out.contains(x) {
                let k = choose|k: int| 0 <= k < out.len() && out[k] == x;
                if k < before.len() {
                    assert(before[k] == x);
                    assert(before.contains(x));
                    let i = choose|i: int| 0 <= i < rest.len() && rest[i] == Some(x);
                    assert(items[i] == Some(x));
                } else {
                    assert(items[items.len() - 1] == Some(x));
                }
            }
            if items.contains(Some(x)) {
                let i = choose|i: int| 0 <= i < items.len() && items[i] == Some(x);
                if i < rest.len() {
                    assert(rest[i] == Some(x));
                    assert(before.contains(x));
                    let k = choose|k: int| 0 <= k < before.len() && before[k] == x;
                    assert(out[k] == x);
                } else {
                    assert(out[out.len() - 1] == x);
                }
            }
        }
    }
}

/// What is in the concatenation is in one of the sequences, and the reverse.
pub proof fn lemma_concat_members<A>(lists: Seq<Seq<A>>)
    ensures
        forall|x: A| #[trigger]
            concat_all(lists).contains(x) <==> exists|i: int|
                0 <= i < lists.len() && (#[trigger] lists[i]).contains(x),
    decreases lists.len(),
{
    if lists.len() > 0 {
        let rest = lists.drop_last();
        let all = concat_all(lists);
        lemma_concat_members(rest);
        assert forall|x: A| #[trigger] all.contains(x) <==> exists|i: int|
            0 <= i < lists.len() && (#[trigger] lists[i]).contains(x) by {
            let before = concat_all(rest);
            if all.contains(x) {
                let k = choose|k: int| 0 <= k < all.len() && all[k] == x;
                if k < before.len() {
                    assert(before[k] == x);
                    assert(before.contains(x));
                    let i = choose|i: int| 0 <= i < rest.len() && (#[trigger] rest[i]).contains(x);
                    assert(lists[i].contains(x));
                } else {
                    assert(lists.last()[k - before.len()] == x);
                    assert(lists[lists.len() - 1].contains(x));
                }
            }
            if exists|i: int| 0 <= i < lists.len() && (#[trigger] lists[i]).contains(x) {
                let i = choose|i: int| 0 <= i < lists.len() && (#[trigger] lists[i]).contains(x);
                if i < rest.len() {
                    assert(rest[i].contains(x));
                    assert(before.contains(x));
                    let k = choose|k: int| 0 <= k < before.len() && before[k] == x;
                    assert(all[k] == x);
                } else {
                    let k = choose|k: int| 0 <= k < lists[i].len() && lists[i][k] == x;
                    assert(all[before.len() + k] == x);
                }
            }
        }
    }
}

pub proof fn lemma_filter_next<A>(items: Seq<A>, n: int, pred: spec_fn(A) -> bool)
    requires
        0 <= n < items.len(),
    ensures
        items.take(n + 1).filter(pred) == if pred(items[n]) {
            items.take(n).filter(pred).push(items[n])
        } else {
            items.take(n).filter(pred)
        },
{
    lemma_take_next(items, n);
    items.take(n).lemma_filter_push(items[n], pred);
}

pub proof fn lemma_map_next<A, B>(items: Seq<A>, n: int, f: spec_fn(A) -> B)
    requires
        0 <= n < items.len(),
    ensures
        items.take(n + 1).map_values(f) == items.take(n).map_values(f).push(f(items[n])),
{
    assert(items.take(n + 1).map_values(f) =~= items.take(n).map_values(f).push(f(items[n])));
}

/// Every item of a filtered sequence is an accepted item of the whole one, and the reverse.
pub proof fn lemma_filter_members<A>(items: Seq<A>, pred: spec_fn(A) -> bool)
    ensures
        forall|x: A| #[trigger]
            items.filter(pred).contains(x) <==> items.contains(x) && pred(x),
    decreases items.len(),
{
    if items.len() > 0 {
        let rest = items.drop_last();
        lemma_filter_members(rest, pred);
        assert(items =~= rest.push(items.last()));
        rest.lemma_filter_push(items.last(), pred);
        assert forall|x: A| #[trigger] items.filter(pred).contains(x) <==> items.contains(x)
            && pred(x) by {
            if rest.contains(x) {
                let i = choose|i: int| 0 <= i < rest.len() && rest[i] == x;
                assert(items[i] == x);
            }
            if items.contains(x) {
                let i = choose|i: int| 0 <= i < items.len() && items[i] == x;
                if i < rest.len() {
                    assert(rest[i] == x);
                }
            }
            let sub = rest.filter(pred);
            if sub.contains(x) {
                let i = choose|i: int| 0 <= i < sub.len() && sub[i] == x;
                assert(items.filter(pred)[i] == x);
            }
            if pred(items.last()) {
                let out = items.filter(pred);
                assert(out[out.len() - 1] == items.last());
                if out.contains(x) {
                    let i = choose|i: int| 0 <= i < out.len() && out[i] == x;
                    if i < sub.len() {
                        assert(sub[i] == x);
                    }
                }
            }
        }
    } else {
        reveal(Seq::filter);
    }
}

/// Filtering leaves out what is not accepted.
pub proof fn lemma_filter_shorter<A>(items: Seq<A>, pred: spec_fn(A) -> bool)
    ensures
        items.filter(pred).len() <= items.len(),
        !every_item(items, pred) ==> items.filter(pred).len() < items.len(),
    decreases items.len(),
{
    reveal(Seq::filter);
    if items.len() > 0 {
        let rest = items.drop_last();
        lemma_filter_shorter(rest, pred);
        if every_item(rest, pred) && pred(items.last()) {
            assert forall|i: int| 0 <= i < items.len() implies pred(#[trigger] items[i]) by {
                if i < rest.len() {
                    assert(pred(rest[i]));
                }
            }
        }
    }
}

/// Filtering with a predicate that accepts everything changes nothing.
pub proof fn lemma_filter_all<A>(items: Seq<A>, pred: spec_fn(A) -> bool)
    requires
        every_item(items, pred),
    ensures
        items.filter(pred) == items,
    decreases items.len(),
{
    reveal(Seq::filter);
    if items.len() > 0 {
        assert forall|i: int| 0 <= i < items.drop_last().len() implies pred(
            #[trigger] items.drop_last()[i],
        ) by {
            assert(pred(items[i]));
        }
        lemma_filter_all(items.drop_last(), pred);
        assert(pred(items[items.len() - 1]));
        assert(items.filter(pred) =~= items);
    }
}

/// Filtering with a predicate that accepts nothing leaves nothing.
pub proof fn lemma_filter_none<A>(items: Seq<A>, pred: spec_fn(A) -> bool)
    requires
        !some_item(items, pred),
    ensures
        items.filter(pred) == Seq::<A>::empty(),
    decreases items.len(),
{
    reveal(Seq::filter);
    if items.len() > 0 {
        assert forall|i: int| 0 <= i < items.drop_last().len() implies !pred(
            #[trigger] items.drop_last()[i],
        ) by {
            assert(!pred(items[i]));
        }
        lemma_filter_none(items.drop_last(), pred);
        assert(!pred(items[items.len() - 1]));
    }
}

/// What [`first_where`] finds: the first accepted item, and no accepted one before it.
pub proof fn lemma_first_where<A>(items: Seq<A>, pred: spec_fn(A) -> bool)
    ensures
        0 <= first_where(items, pred) <= items.len(),
        first_where(items, pred) < items.len() ==> pred(items[first_where(items, pred)]),
        forall|i: int| 0 <= i < first_where(items, pred) ==> !pred(#[trigger] items[i]),
        first_where(items, pred) < items.len() <==> some_item(items, pred),
    decreases items.len(),
{
    if items.len() > 0 {
        let rest = items.drop_last();
        lemma_first_where(rest, pred);
        assert forall|i: int| 0 <= i < first_where(items, pred) implies !pred(
            #[trigger] items[i],
        ) by {
            if i < rest.len() {
                assert(rest[i] == items[i]);
            }
        }
        let at = first_where(items, pred);
        if at < items.len() {
            if at < rest.len() {
                assert(rest[at] == items[at]);
            }
            assert(pred(items[at]));
        }
    }
}

/// A position with an accepted item and none before it is the one [`first_where`] gives.
pub proof fn lemma_first_where_is<A>(items: Seq<A>, pred: spec_fn(A) -> bool, at: int)
    requires
        0 <= at <= items.len(),
        at < items.len() ==> pred(items[at]),
        forall|i: int| 0 <= i < at ==> !pred(#[trigger] items[i]),
    ensures
        first_where(items, pred) == at,
{
    lemma_first_where(items, pred);
    let found = first_where(items, pred);
    if found < at {
        assert(!pred(items[found]));
    } else if at < found {
        assert(!pred(items[at]));
    }
}

/// [`distinct`] keeps the members and repeats none.
pub proof fn lemma_distinct<A>(items: Seq<A>)
    ensures
        distinct(items).no_duplicates(),
        forall|x: A| #[trigger] distinct(items).contains(x) <==> items.contains(x),
    decreases items.len(),
{
    if items.len() > 0 {
        let rest = items.drop_last();
        let last = items.last();
        lemma_distinct(rest);
        let before = distinct(rest);
        let after = distinct(items);
        assert forall|x: A| #[trigger] after.contains(x) <==> items.contains(x) by {
            if rest.contains(x) {
                let i = choose|i: int| 0 <= i < rest.len() && rest[i] == x;
                assert(items[i] == x);
                assert(before.contains(x));
                let j = choose|j: int| 0 <= j < before.len() && before[j] == x;
                assert(after[j] == x);
            }
            if items.contains(x) && !rest.contains(x) {
                let i = choose|i: int| 0 <= i < items.len() && items[i] == x;
                if i < rest.len() {
                    assert(rest[i] == x);
                }
                assert(x == last);
                assert(!before.contains(last));
                assert(after == before.push(last));
                assert(after[after.len() - 1] == x);
            }
            if after.contains(x) {
                let i = choose|i: int| 0 <= i < after.len() && after[i] == x;
                if i < before.len() {
                    assert(before[i] == x);
                    assert(before.contains(x));
                } else {
                    assert(items[items.len() - 1] == x);
                }
            }
        }
        assert(after.no_duplicates()) by {
            if !before.contains(last) {
                assert forall|i: int, j: int|
                    0 <= i < after.len() && 0 <= j < after.len() && i != j implies after[i]
                    != after[j] by {
                    if i < before.len() && j < before.len() {
                        assert(before[i] != before[j]);
                    } else if i < before.len() {
                        assert(before.contains(before[i]));
                    } else if j < before.len() {
                        assert(before.contains(before[j]));
                    }
                }
            }
        }
    }
}

pub proof fn lemma_distinct_push<A>(items: Seq<A>, x: A)
    ensures
        distinct(items.push(x)) == if distinct(items).contains(x) {
            distinct(items)
        } else {
            distinct(items).push(x)
        },
{
    assert(items.push(x).drop_last() =~= items);
}

pub proof fn lemma_distinct_next<A>(items: Seq<A>, n: int)
    requires
        0 <= n < items.len(),
    ensures
        distinct(items.take(n + 1)) == if distinct(items.take(n)).contains(items[n]) {
            distinct(items.take(n))
        } else {
            distinct(items.take(n)).push(items[n])
        },
{
    lemma_take_next(items, n);
}

/// [`with_new`] starts with `base` and has the members of both.
pub proof fn lemma_with_new<A>(base: Seq<A>, items: Seq<A>)
    ensures
        base.len() <= with_new(base, items).len(),
        with_new(base, items).take(base.len() as int) == base,
        forall|x: A| #[trigger]
            with_new(base, items).contains(x) <==> base.contains(x) || items.contains(x),
    decreases items.len(),
{
    if items.len() == 0 {
        lemma_take_all(base);
    } else {
        let rest = items.drop_last();
        let last = items.last();
        lemma_with_new(base, rest);
        let before = with_new(base, rest);
        let after = with_new(base, items);
        assert(after.take(base.len() as int) =~= before.take(base.len() as int));
        assert forall|x: A| #[trigger] after.contains(x) <==> base.contains(x) || items.contains(
            x,
        ) by {
            if after.contains(x) {
                let k = choose|k: int| 0 <= k < after.len() && after[k] == x;
                if k < before.len() {
                    assert(before[k] == x);
                    assert(before.contains(x));
                    if rest.contains(x) {
                        let i = choose|i: int| 0 <= i < rest.len() && rest[i] == x;
                        assert(items[i] == x);
                    }
                } else {
                    assert(items[items.len() - 1] == x);
                }
            }
            if before.contains(x) {
                let k = choose|k: int| 0 <= k < before.len() && before[k] == x;
                assert(after[k] == x);
            }
            if items.contains(x) {
                let i = choose|i: int| 0 <= i < items.len() && items[i] == x;
                if i < rest.len() {
                    assert(rest[i] == x);
                    assert(before.contains(x));
                } else if !before.contains(x) {
                    assert(after[after.len() - 1] == x);
                }
            }
            if base.contains(x) {
                assert(before.contains(x));
            }
        }
    }
}

/// What [`repeats`] has is what stands at two places.
pub proof fn lemma_repeats<A>(items: Seq<A>)
    ensures
        forall|i: int, j: int|
            0 <= i < j < items.len() && #[trigger] items[i] == #[trigger] items[j] ==> repeats(
                items,
            ).contains(items[i]),
        forall|x: A| #[trigger]
            repeats(items).contains(x) ==> exists|i: int, j: int|
                0 <= i < j < items.len() && #[trigger] items[i] == x && #[trigger] items[j] == x,
    decreases items.len(),
{
    if items.len() > 0 {
        let rest = items.drop_last();
        lemma_repeats(rest);
        let before = repeats(rest);
        let after = repeats(items);
        assert forall|x: A| before.contains(x) implies after.contains(x) by {
            let k = choose|k: int| 0 <= k < before.len() && before[k] == x;
            assert(after[k] == x);
        }
        assert forall|i: int, j: int|
            0 <= i < j < items.len() && #[trigger] items[i] == #[trigger] items[j] implies after.contains(
            items[i],
        ) by {
            if j < rest.len() {
                assert(rest[i] == rest[j]);
                assert(before.contains(rest[i]));
            } else {
                assert(rest[i] == items.last());
                assert(rest.contains(items.last()));
                if !before.contains(items.last()) {
                    assert(after[after.len() - 1] == items.last());
                }
            }
        }
        assert forall|x: A| #[trigger] after.contains(x) implies exists|i: int, j: int|
            0 <= i < j < items.len() && #[trigger] items[i] == x && #[trigger] items[j] == x by {
            let k = choose|k: int| 0 <= k < after.len() && after[k] == x;
            if k < before.len() {
                assert(before[k] == x);
                assert(before.contains(x));
                let (i, j) = choose|i: int, j: int|
                    0 <= i < j < rest.len() && #[trigger] rest[i] == x && #[trigger] rest[j] == x;
                assert(items[i] == x && items[j] == x);
            } else {
                let i = choose|i: int| 0 <= i < rest.len() && rest[i] == x;
                assert(items[i] == x && items[items.len() - 1] == x);
            }
        }
    }
}

/// [`first_of_each`] keeps pairs of the sequence, one for each first half.
pub proof fn lemma_first_of_each<K, V>(pairs: Seq<(K, V)>)
    ensures
        forall|i: int|
            0 <= i < first_of_each(pairs).len() ==> pairs.contains(
                #[trigger] first_of_each(pairs)[i],
            ),
        forall|i: int, j: int|
            0 <= i < j < first_of_each(pairs).len() ==> (#[trigger] first_of_each(pairs)[i]).0 != (
            #[trigger] first_of_each(pairs)[j]).0,
        forall|i: int|
            0 <= i < pairs.len() ==> some_item(
                first_of_each(pairs),
                keyed((#[trigger] pairs[i]).0),
            ),
    decreases pairs.len(),
{
    if pairs.len() > 0 {
        let rest = pairs.drop_last();
        let last = pairs.last();
        lemma_first_of_each(rest);
        let before = first_of_each(rest);
        let after = first_of_each(pairs);
        assert forall|i: int| 0 <= i < after.len() implies pairs.contains(#[trigger] after[i]) by {
            if i < before.len() {
                assert(rest.contains(before[i]));
                let k = choose|k: int| 0 <= k < rest.len() && rest[k] == before[i];
                assert(pairs[k] == after[i]);
            } else {
                assert(pairs[pairs.len() - 1] == after[i]);
            }
        }
        assert forall|i: int, j: int| 0 <= i < j < after.len() implies (#[trigger] after[i]).0 != (
        #[trigger] after[j]).0 by {
            if j < before.len() {
                assert(before[i].0 != before[j].0);
            } else {
                assert(!keyed::<K, V>(last.0)(before[i]));
            }
        }
        assert forall|i: int| 0 <= i < pairs.len() implies some_item(
            after,
            keyed((#[trigger] pairs[i]).0),
        ) by {
            let pred = keyed::<K, V>(pairs[i].0);
            if i < rest.len() {
                assert(rest[i] == pairs[i]);
                assert(some_item(before, pred));
                let k = choose|k: int| 0 <= k < before.len() && pred(#[trigger] before[k]);
                assert(pred(after[k]));
            } else if some_item(before, pred) {
                let k = choose|k: int| 0 <= k < before.len() && pred(#[trigger] before[k]);
                assert(pred(after[k]));
            } else {
                assert(pred(after[after.len() - 1]));
            }
        }
    }
}

/// Inserting keeps a sequence in order and adds exactly the new item.
pub proof fn lemma_insert_in_order<A>(items: Seq<A>, x: A, le: spec_fn(A, A) -> bool)
    requires
        total_order(le),
        in_order(items, le),
    ensures
        in_order(insert_in_order(items, x, le), le),
        insert_in_order(items, x, le).to_multiset() == items.to_multiset().insert(x),
        insert_in_order(items, x, le).len() == items.len() + 1,
        forall|i: int|
            0 <= i < items.len() + 1 ==> #[trigger] insert_in_order(items, x, le)[i] == x
                || items.contains(insert_in_order(items, x, le)[i]),
    decreases items.len(),
{
    broadcast use vstd::seq_lib::group_to_multiset_ensures;

    let out = insert_in_order(items, x, le);
    if items.len() == 0 {
        assert(seq![x] =~= items.push(x));
    } else if le(items.last(), x) {
        assert forall|i: int, j: int| 0 <= i < j < out.len() implies le(
            #[trigger] out[i],
            #[trigger] out[j],
        ) by {
            if j < items.len() {
                assert(le(items[i], items[j]));
            } else if i < items.len() - 1 {
                assert(le(items[i], items[items.len() - 1]));
                assert(le(items.last(), x));
            }
        }
    } else {
        let rest = items.drop_last();
        lemma_insert_in_order(rest, x, le);
        let sub = insert_in_order(rest, x, le);
        assert(items =~= rest.push(items.last()));
        assert forall|i: int, j: int| 0 <= i < j < out.len() implies le(
            #[trigger] out[i],
            #[trigger] out[j],
        ) by {
            if j < sub.len() {
                assert(le(sub[i], sub[j]));
            } else {
                assert(sub[i] == x || rest.contains(sub[i]));
                if sub[i] == x {
                    assert(le(x, items.last()) || le(items.last(), x));
                } else {
                    let k = choose|k: int| 0 <= k < rest.len() && rest[k] == sub[i];
                    assert(le(items[k], items[items.len() - 1]));
                }
            }
        }
        assert forall|i: int| 0 <= i < items.len() + 1 implies #[trigger] out[i] == x
            || items.contains(out[i]) by {
            if i < sub.len() {
                assert(sub[i] == x || rest.contains(sub[i]));
                if rest.contains(sub[i]) {
                    let k = choose|k: int| 0 <= k < rest.len() && rest[k] == sub[i];
                    assert(items[k] == out[i]);
                }
            } else {
                assert(items[items.len() - 1] == out[i]);
            }
        }
        assert(out.to_multiset() =~= items.to_multiset().insert(x));
    }
}

/// Inserting behind the last item that comes before `x` is what [`insert_in_order`] does.
pub proof fn lemma_insert_at<A>(items: Seq<A>, x: A, le: spec_fn(A, A) -> bool, at: int)
    requires
        0 <= at <= items.len(),
        at > 0 ==> le(items[at - 1], x),
        forall|k: int| at <= k < items.len() ==> !le(#[trigger] items[k], x),
    ensures
        insert_in_order(items, x, le) == items.insert(at, x),
    decreases items.len(),
{
    if items.len() == 0 {
        assert(seq![x] =~= items.insert(at, x));
    } else if at == items.len() {
        assert(items.push(x) =~= items.insert(at, x));
    } else {
        let rest = items.drop_last();
        assert(!le(items[items.len() - 1], x));
        assert forall|k: int| at <= k < rest.len() implies !le(#[trigger] rest[k], x) by {
            assert(!le(items[k], x));
        }
        lemma_insert_at(rest, x, le, at);
        assert(rest.insert(at, x).push(items.last()) =~= items.insert(at, x));
    }
}

/// Sorting puts the items in order and neither loses nor adds one.
pub proof fn lemma_sorted<A>(items: Seq<A>, le: spec_fn(A, A) -> bool)
    requires
        total_order(le),
    ensures
        in_order(sorted(items, le), le),
        sorted(items, le).to_multiset() == items.to_multiset(),
    decreases items.len(),
{
    broadcast use vstd::seq_lib::group_to_multiset_ensures;

    if items.len() > 0 {
        lemma_sorted(items.drop_last(), le);
        lemma_insert_in_order(sorted(items.drop_last(), le), items.last(), le);
        assert(items =~= items.drop_last().push(items.last()));
    } else {
        assert(items =~= Seq::<A>::empty());
    }
}

} // verus!
