//! Laws of the ordered cache, stated over its model.

use crate::cache::{
    after_cursor, first_n, in_order, insert_outcome, kept_by, listing, CacheModel, Error,
    EventModel,
};
use crate::entries::{
    has_key, index_of, lemma_drop_first_sorted, lemma_key_position, lemma_place_sorted,
    lemma_remove_sorted, lemma_update_sorted, lookup, map_of, rank, sorted, Entries,
};
use crate::list_props::{ListProps, StartAfter};
use crate::text::{lemma_lex_lt_irreflexive, lex_lt};
use vstd::prelude::*;
use vstd::std_specs::cmp::PartialEqSpec;

verus! {

/// What a removal of the present key `k` turns `pre` into.
pub open spec fn remove_outcome<V>(pre: CacheModel<V>, k: Seq<char>, post: CacheModel<V>) -> bool {
    &&& has_key(pre.entries, k)
    &&& post == (CacheModel { entries: pre.removed(k), ..pre }).record(
        EventModel::Remove { key: k },
    )
}

/// One insert or one successful removal leads from `pre` to `post`.
pub open spec fn step<V: PartialEq + Clone>(pre: CacheModel<V>, post: CacheModel<V>) -> bool {
    ||| exists|k: Seq<char>, v: V| insert_outcome(pre, k, v, post)
    ||| exists|k: Seq<char>| remove_outcome(pre, k, post)
}

/// The keys of a sorted list are distinct: the map has as many keys as the
/// list has entries.
pub proof fn lemma_list_len_is_map_len<V>(entries: Entries<V>)
    requires
        sorted(entries),
    ensures
        map_of(entries).dom().finite(),
        map_of(entries).dom().len() == entries.len(),
    decreases entries.len(),
{
    if entries.len() == 0 {
        assert(map_of(entries).dom() =~= Set::<Seq<char>>::empty());
    } else {
        let init = entries.drop_last();
        let last = entries.last();
        assert forall|i: int, j: int| 0 <= i < j < init.len() implies lex_lt(
            #[trigger] init[i].0,
            #[trigger] init[j].0,
        ) by {
            assert(init[i] == entries[i] && init[j] == entries[j]);
        }
        lemma_list_len_is_map_len(init);
        assert(!has_key(init, last.0)) by {
            if has_key(init, last.0) {
                let i = index_of(init, last.0);
                assert(init[i] == entries[i]);
                lemma_lex_lt_irreflexive(last.0);
            }
        }
        assert forall|k: Seq<char>| has_key(entries, k) <==> (has_key(init, k) || k == last.0) by {
            if has_key(entries, k) {
                let i = index_of(entries, k);
                if i < init.len() {
                    assert(init[i] == entries[i]);
                }
            }
            if has_key(init, k) {
                let i = index_of(init, k);
                assert(entries[i] == init[i]);
            }
            if k == last.0 {
                assert(entries[entries.len() - 1] == last);
            }
        }
        assert(map_of(entries).dom() =~= map_of(init).dom().insert(last.0));
    }
}

/// An insert keeps the list strictly ascending and the map as large as
/// the list, and keeps the cache within its capacity.
pub proof fn lemma_insert_keeps_order<V: PartialEq + Clone>(
    pre: CacheModel<V>,
    k: Seq<char>,
    v: V,
    post: CacheModel<V>,
)
    requires
        pre.wf(),
        insert_outcome(pre, k, v, post),
    ensures
        post.wf(),
        post.map().dom().finite(),
        post.map().dom().len() == post.list().len(),
        pre.within_capacity() ==> post.within_capacity(),
{
    if post != pre {
        if has_key(pre.entries, k) {
            let i = index_of(pre.entries, k);
            lemma_update_sorted(pre.entries, i, v);
        } else {
            let kept = pre.after_eviction();
            if kept.len() < pre.entries.len() {
                lemma_drop_first_sorted(pre.entries);
            }
            assert(!has_key(kept, k)) by {
                if has_key(kept, k) {
                    let i = index_of(kept, k);
                    if kept.len() < pre.entries.len() {
                        assert(kept[i] == pre.entries[i + 1]);
                    }
                }
            }
            lemma_place_sorted(kept, k, v);
        }
    }
    lemma_list_len_is_map_len(post.entries);
}

/// A removal keeps the list strictly ascending and the map as large as
/// the list, and keeps the cache within its capacity.
pub proof fn lemma_remove_keeps_order<V>(pre: CacheModel<V>, k: Seq<char>, post: CacheModel<V>)
    requires
        pre.wf(),
        remove_outcome(pre, k, post),
    ensures
        post.wf(),
        post.map().dom().finite(),
        post.map().dom().len() == post.list().len(),
        pre.within_capacity() ==> post.within_capacity(),
{
    lemma_remove_sorted(pre.entries, index_of(pre.entries, k));
    lemma_list_len_is_map_len(post.entries);
}

/// After any sequence of inserts and removals the list is strictly
/// ascending and as long as the map is large; a cache that began within
/// its capacity is still within it.
pub proof fn lemma_order_and_bound_hold<V: PartialEq + Clone>(trace: Seq<CacheModel<V>>)
    requires
        trace.len() > 0,
        trace[0].wf(),
        forall|i: int| 0 <= i < trace.len() - 1 ==> step(#[trigger] trace[i], trace[i + 1]),
    ensures
        forall|i: int|
            0 <= i < trace.len() ==> {
                &&& sorted((#[trigger] trace[i]).entries)
                &&& trace[i].map().dom().finite()
                &&& trace[i].map().dom().len() == trace[i].list().len()
                &&& trace[0].within_capacity() ==> trace[i].within_capacity()
            },
    decreases trace.len(),
{
    if trace.len() == 1 {
        lemma_list_len_is_map_len(trace[0].entries);
    } else {
        let init = trace.drop_last();
        assert forall|i: int| 0 <= i < init.len() - 1 implies step(
            #[trigger] init[i],
            init[i + 1],
        ) by {
            assert(init[i] == trace[i] && init[i + 1] == trace[i + 1]);
        }
        lemma_order_and_bound_hold(init);
        let n = trace.len() as int;
        let pre = trace[n - 2];
        let post = trace[n - 1];
        assert(init[n - 2] == pre);
        assert(pre.wf()) by {
            assert(init[0] == trace[0]);
            lemma_capacity_constant(init);
        }
        assert(step(pre, post));
        if exists|k: Seq<char>, v: V| insert_outcome(pre, k, v, post) {
            let (k, v) = choose|k: Seq<char>, v: V| insert_outcome(pre, k, v, post);
            lemma_insert_keeps_order(pre, k, v, post);
        } else {
            let k = choose|k: Seq<char>| remove_outcome(pre, k, post);
            lemma_remove_keeps_order(pre, k, post);
        }
        assert forall|i: int| 0 <= i < trace.len() implies {
            &&& sorted((#[trigger] trace[i]).entries)
            &&& trace[i].map().dom().finite()
            &&& trace[i].map().dom().len() == trace[i].list().len()
            &&& trace[0].within_capacity() ==> trace[i].within_capacity()
        } by {
            if i < n - 1 {
                assert(init[i] == trace[i]);
                assert(init[0] == trace[0]);
            }
        }
    }
}

/// Inserts and removals leave the capacity as it is.
pub proof fn lemma_capacity_constant<V: PartialEq + Clone>(trace: Seq<CacheModel<V>>)
    requires
        trace.len() > 0,
        forall|i: int| 0 <= i < trace.len() - 1 ==> step(#[trigger] trace[i], trace[i + 1]),
    ensures
        forall|i: int| 0 <= i < trace.len() ==> (#[trigger] trace[i]).capacity == trace[0].capacity,
    decreases trace.len(),
{
    if trace.len() > 1 {
        let init = trace.drop_last();
        assert forall|i: int| 0 <= i < init.len() - 1 implies step(
            #[trigger] init[i],
            init[i + 1],
        ) by {
            assert(init[i] == trace[i] && init[i + 1] == trace[i + 1]);
        }
        lemma_capacity_constant(init);
        let n = trace.len() as int;
        assert(init[n - 2] == trace[n - 2]);
        assert(step(trace[n - 2], trace[n - 1]));
        assert forall|i: int| 0 <= i < trace.len() implies (#[trigger] trace[i]).capacity
            == trace[0].capacity by {
            if i < n - 1 {
                assert(init[i] == trace[i]);
                assert(init[0] == trace[0]);
            }
        }
    }
}

/// The entry that an insert evicts from a full cache is the one with the
/// smallest key, and no other entry leaves.
pub proof fn lemma_eviction_victim_is_minimum<V: PartialEq + Clone>(
    pre: CacheModel<V>,
    k: Seq<char>,
    v: V,
    post: CacheModel<V>,
)
    requires
        pre.wf(),
        !has_key(pre.entries, k),
        pre.entries.len() >= pre.capacity,
        insert_outcome(pre, k, v, post),
    ensures
        forall|i: int|
            1 <= i < pre.entries.len() ==> lex_lt(pre.entries[0].0, (#[trigger] pre.entries[i]).0),
        forall|i: int| 1 <= i < pre.entries.len() ==> has_key(post.entries, (#[trigger] pre.entries[i]).0),
        has_key(post.entries, k),
        pre.entries[0].0 != k ==> !has_key(post.entries, pre.entries[0].0),
        post.entries.len() == pre.entries.len(),
{
    let kept = pre.entries.drop_first();
    lemma_drop_first_sorted(pre.entries);
    assert(!has_key(kept, k)) by {
        if has_key(kept, k) {
            let i = index_of(kept, k);
            assert(kept[i] == pre.entries[i + 1]);
        }
    }
    lemma_place_sorted(kept, k, v);
    let r = rank(kept, k);
    assert(post.entries == kept.insert(r, (k, v)));
    assert(post.entries[r] == (k, v));
    assert forall|i: int| 1 <= i < pre.entries.len() implies has_key(
        post.entries,
        (#[trigger] pre.entries[i]).0,
    ) by {
        let j = if i - 1 < r { i - 1 } else { i };
        assert(post.entries[j] == pre.entries[i]);
    }
    if pre.entries[0].0 != k && has_key(post.entries, pre.entries[0].0) {
        let j = index_of(post.entries, pre.entries[0].0);
        let j0 = if j < r { j } else { j - 1 };
        assert(post.entries[j] == kept[j0]);
        assert(kept[j0] == pre.entries[j0 + 1]);
        lemma_lex_lt_irreflexive(pre.entries[0].0);
    }
}

/// Inserting the same value under the same key twice leaves the cache as
/// one insert leaves it: the second insert changes nothing and records
/// nothing.
pub proof fn lemma_insert_idempotent<V: PartialEq + Clone>(
    pre: CacheModel<V>,
    k: Seq<char>,
    v: V,
    once: CacheModel<V>,
    twice: CacheModel<V>,
)
    requires
        pre.wf(),
        V::obeys_eq_spec(),
        v.eq_spec(&v),
        insert_outcome(pre, k, v, once),
        insert_outcome(once, k, v, twice),
    ensures
        twice == once,
{
    lemma_stored_value(pre, k, v);
    if once == pre {
    } else {
        assert(lookup(once.entries, k) == Some(v));
    }
}

/// Once `v` is stored under `k`, it is what a lookup of `k` finds.
pub proof fn lemma_stored_value<V>(pre: CacheModel<V>, k: Seq<char>, v: V)
    requires
        pre.wf(),
    ensures
        sorted(pre.stored(k, v)),
        lookup(pre.stored(k, v), k) == Some(v),
{
    if has_key(pre.entries, k) {
        let i = index_of(pre.entries, k);
        lemma_update_sorted(pre.entries, i, v);
        lemma_key_position(pre.stored(k, v), k, i);
    } else {
        let kept = pre.after_eviction();
        if kept.len() < pre.entries.len() {
            lemma_drop_first_sorted(pre.entries);
        }
        assert(!has_key(kept, k)) by {
            if has_key(kept, k) {
                let i = index_of(kept, k);
                if kept.len() < pre.entries.len() {
                    assert(kept[i] == pre.entries[i + 1]);
                }
            }
        }
        lemma_place_sorted(kept, k, v);
        lemma_key_position(pre.stored(k, v), k, rank(kept, k));
    }
}

/// A cache of capacity one that receives two keys, the second above the
/// first, holds the second alone.
pub proof fn lemma_capacity_one_keeps_larger<V: PartialEq + Clone>(
    empty: CacheModel<V>,
    k1: Seq<char>,
    v1: V,
    k2: Seq<char>,
    v2: V,
    mid: CacheModel<V>,
    post: CacheModel<V>,
)
    requires
        empty.wf(),
        empty.capacity == 1,
        empty.entries.len() == 0,
        lex_lt(k1, k2),
        insert_outcome(empty, k1, v1, mid),
        insert_outcome(mid, k2, v2, post),
    ensures
        post.entries == seq![(k2, v2)],
{
    assert(!has_key(empty.entries, k1));
    assert(mid.entries =~= seq![(k1, v1)]);
    lemma_lex_lt_irreflexive(k1);
    assert(!has_key(mid.entries, k2)) by {
        if has_key(mid.entries, k2) {
            let i = index_of(mid.entries, k2);
            assert(mid.entries[i].0 == k1);
        }
    }
    assert(mid.after_eviction() =~= Seq::<(Seq<char>, V)>::empty());
    assert(post.entries =~= seq![(k2, v2)]);
}

/// A listing in ascending order whose cursor is the last key is empty.
pub proof fn lemma_listing_after_last_is_empty<V>(entries: Entries<V>, props: ListProps)
    requires
        sorted(entries),
        entries.len() > 0,
        props.order is Asc,
        props.start_after_key matches StartAfter::Key(k) && k@ == entries.last().0,
    ensures
        listing(entries, props) == Ok::<Entries<V>, Error>(Seq::empty()),
{
    let k = props.start_after_key->Key_0;
    lemma_key_position(entries, k@, entries.len() - 1);
    let rest = after_cursor(entries, props.start_after_key);
    assert(rest =~= Seq::<(Seq<char>, V)>::empty());
    reveal(Seq::filter);
    assert(rest.filter(kept_by::<V>(props.filter)) =~= Seq::<(Seq<char>, V)>::empty());
}

/// A listing with limit zero is empty, whatever the cache holds, unless the
/// cursor names no key.
pub proof fn lemma_listing_limit_zero_is_empty<V>(entries: Entries<V>, props: ListProps)
    requires
        props.limit == 0,
    ensures
        listing(entries, props) == (if props.start_after_key matches StartAfter::Key(k) && !has_key(
            entries,
            k@,
        ) {
            Err::<Entries<V>, Error>(Error::SortKeyNotFound)
        } else {
            Ok::<Entries<V>, Error>(Seq::empty())
        }),
{
    let all = in_order(entries, props.order);
    let found = after_cursor(all, props.start_after_key).filter(kept_by::<V>(props.filter));
    assert(first_n(found, 0) =~= Seq::<(Seq<char>, V)>::empty());
}

} // verus!
