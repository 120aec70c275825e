//! Documents stored in a cache: what a cache of values holds by content,
//! and how the leaves and the reference records of a document enter it.

use crate::cache::{insert_outcome, Cache, CacheModel, EventModel};
use crate::entries::{
    has_key, index_of, lemma_drop_first_sorted, lemma_key_position, lemma_same_keys, lookup,
    rank, same_keys, Entries,
};
use crate::path_map::PathMap;
use crate::payload::{flatten, leaves, ref_value, refs, Ref, RefModel};
use crate::datum::{Datum, DatumModel};
use vstd::prelude::*;

verus! {

/// The content of an event of a cache of values.
pub open spec fn event_content(e: EventModel<Datum>) -> EventModel<DatumModel> {
    match e {
        EventModel::Insert { key, value } => EventModel::Insert { key, value: value@ },
        EventModel::Remove { key } => EventModel::Remove { key },
        EventModel::Clear => EventModel::Clear,
    }
}

/// The content of the entries of a cache of values.
pub open spec fn entries_content(entries: Entries<Datum>) -> Entries<DatumModel> {
    entries.map_values(|e: (Seq<char>, Datum)| (e.0, e.1@))
}

/// A cache of values by content: each value and each recorded event
/// replaced by its content.
pub open spec fn content(c: CacheModel<Datum>) -> CacheModel<DatumModel> {
    CacheModel {
        entries: entries_content(c.entries),
        capacity: c.capacity,
        events: match c.events {
            Some(log) => Some(log.map_values(|e: EventModel<Datum>| event_content(e))),
            None => None,
        },
    }
}

/// What an insert of the content `v` under `k` makes of a cache: nothing
/// changes where `k` holds `v` already; else `v` is stored and an `Insert`
/// event recorded.
pub open spec fn assign(c: CacheModel<DatumModel>, k: Seq<char>, v: DatumModel) -> CacheModel<
    DatumModel,
> {
    if lookup(c.entries, k) == Some(v) {
        c
    } else {
        (CacheModel { entries: c.stored(k, v), ..c }).record(
            EventModel::Insert { key: k, value: v },
        )
    }
}

/// What the removal of `k` makes of a cache, a key that is absent being no
/// error: nothing changes there.
pub open spec fn discard(c: CacheModel<DatumModel>, k: Seq<char>) -> CacheModel<DatumModel> {
    if has_key(c.entries, k) {
        (CacheModel { entries: c.removed(k), ..c }).record(EventModel::Remove { key: k })
    } else {
        c
    }
}

/// What the first `n` of `items`, inserted one after the other, make of a
/// cache.
pub open spec fn assign_all(c: CacheModel<DatumModel>, items: Entries<DatumModel>, n: nat)
    -> CacheModel<DatumModel>
    decreases n,
{
    if n == 0 || n > items.len() {
        c
    } else {
        assign(assign_all(c, items, (n - 1) as nat), items[n - 1].0, items[n - 1].1)
    }
}

/// The reference records as the values that stand for them.
pub open spec fn ref_entries(index: Entries<RefModel>) -> Entries<DatumModel> {
    index.map_values(|e: (Seq<char>, RefModel)| (e.0, ref_value(e.1)))
}

/// What a flattened document makes of a cache: its leaves are inserted in
/// ascending order of their paths, then its reference records likewise.
pub open spec fn stored_document(
    c: CacheModel<DatumModel>,
    flat: Entries<DatumModel>,
    index: Entries<RefModel>,
) -> CacheModel<DatumModel> {
    assign_all(assign_all(c, flat, flat.len()), ref_entries(index), index.len())
}

/// The rank of a key lies within the list.
proof fn lemma_rank_bounds<V>(entries: Entries<V>, k: Seq<char>)
    ensures
        0 <= rank(entries, k) <= entries.len(),
    decreases entries.len(),
{
    if entries.len() > 0 {
        lemma_rank_bounds(entries.drop_first(), k);
    }
}

/// An insert into a cache of values is, by content, an assignment.
pub proof fn lemma_insert_content(
    pre: CacheModel<Datum>,
    k: Seq<char>,
    v: Datum,
    post: CacheModel<Datum>,
)
    requires
        pre.wf(),
        insert_outcome(pre, k, v, post),
    ensures
        content(post) == assign(content(pre), k, v@),
{
    let before = content(pre);
    assert(same_keys(pre.entries, before.entries));
    lemma_same_keys(pre.entries, before.entries, k);
    if has_key(pre.entries, k) {
        let i = index_of(pre.entries, k);
        lemma_key_position(pre.entries, k, i);
        lemma_key_position(before.entries, k, i);
        assert(before.entries[i].1 == pre.entries[i].1@);
    }
    let unchanged = lookup(pre.entries, k) matches Some(existing) && existing@ == v@;
    if unchanged {
        assert(post == pre);
        assert(lookup(before.entries, k) == Some(v@));
    } else {
        assert(post.entries == pre.stored(k, v));
        assert(lookup(before.entries, k) != Some(v@));
        let kept = pre.after_eviction();
        let kept_content = before.after_eviction();
        assert(same_keys(kept, kept_content));
        if kept.len() < pre.entries.len() {
            lemma_drop_first_sorted(pre.entries);
        }
        lemma_same_keys(kept, kept_content, k);
        assert(entries_content(kept) =~= kept_content);
        if has_key(pre.entries, k) {
            let i = index_of(pre.entries, k);
            assert(entries_content(pre.entries.update(i, (k, v))) =~= before.entries.update(
                i,
                (k, v@),
            ));
        } else {
            let r = rank(kept, k);
            lemma_rank_bounds(kept, k);
            assert(entries_content(kept.insert(r, (k, v))) =~= kept_content.insert(r, (k, v@)));
        }
        assert(content(post).entries == before.stored(k, v@));
        if pre.events is Some {
            let log = pre.events->0;
            let after = post.events->0;
            assert(after =~= log.push(after.last()));
            assert(event_content(after.last()) == EventModel::Insert { key: k, value: v@ });
            assert(content(post).events->0 =~= before.events->0.push(
                EventModel::Insert { key: k, value: v@ },
            ));
        }
    }
}

/// Inserts the leaves of a flattened document into `cache`, then its
/// reference records, each in ascending order of the paths.
pub fn store_document(cache: &mut Cache<Datum>, flat: &PathMap<Datum>, index: &PathMap<Ref>)
    requires
        old(cache).wf(),
    ensures
        final(cache).wf(),
        content(final(cache)@) == stored_document(
            content(old(cache)@),
            flat.content(),
            index.content(),
        ),
        old(cache)@.within_capacity() ==> final(cache)@.within_capacity(),
{
    let ghost start = content(cache@);
    let mut i: usize = 0;
    while i < flat.len()
        invariant
            cache.wf(),
            0 <= i <= flat.content().len(),
            content(cache@) == assign_all(start, flat.content(), i as nat),
            old(cache)@.within_capacity() ==> cache@.within_capacity(),
        decreases flat.content().len() - i,
    {
        let ghost pre = cache@;
        let value = flat.value_at(i).clone();
        cache.insert(flat.path_at(i).clone(), value);
        proof {
            lemma_insert_content(pre, flat.content()[i as int].0, value, cache@);
        }
        i += 1;
    }
    let ghost middle = content(cache@);
    let mut j: usize = 0;
    while j < index.len()
        invariant
            cache.wf(),
            0 <= j <= index.content().len(),
            content(cache@) == assign_all(middle, ref_entries(index.content()), j as nat),
            old(cache)@.within_capacity() ==> cache@.within_capacity(),
        decreases index.content().len() - j,
    {
        let ghost pre = cache@;
        let value = index.value_at(j).to_value();
        cache.insert(index.path_at(j).clone(), value);
        proof {
            lemma_insert_content(pre, index.content()[j as int].0, value, cache@);
        }
        j += 1;
    }
}

/// What a document `v` rooted at `key` makes of a cache: its leaves and
/// then its reference records are inserted.
pub open spec fn stored_value(c: CacheModel<DatumModel>, key: Seq<char>, v: DatumModel)
    -> CacheModel<DatumModel> {
    stored_document(c, leaves(v, key, Seq::empty()), refs(v, key, Seq::empty()))
}

/// Flattens `value`, rooted at `key`, and inserts its leaves and then its
/// reference records into `cache`.
pub fn store_value(cache: &mut Cache<Datum>, key: &str, value: &Datum)
    requires
        old(cache).wf(),
    ensures
        final(cache).wf(),
        content(final(cache)@) == stored_value(content(old(cache)@), key@, value@),
        old(cache)@.within_capacity() ==> final(cache)@.within_capacity(),
{
    let (flat, index) = flatten(key, value);
    store_document(cache, &flat, &index);
}

/// Removes `key` from `cache` where it is a key.
pub fn discard_key(cache: &mut Cache<Datum>, key: &str)
    requires
        old(cache).wf(),
    ensures
        final(cache).wf(),
        content(final(cache)@) == discard(content(old(cache)@), key@),
        old(cache)@.within_capacity() ==> final(cache)@.within_capacity(),
{
    let ghost pre = cache@;
    proof {
        assert(same_keys(pre.entries, content(pre).entries));
        lemma_same_keys(pre.entries, content(pre).entries, key@);
    }
    match cache.remove(key) {
        Ok(_) => {
            proof {
                let i = index_of(pre.entries, key@);
                assert(content(cache@).entries =~= content(pre).removed(key@));
                if pre.events is Some {
                    assert(content(cache@).events->0 =~= content(pre).events->0.push(
                        EventModel::Remove { key: key@ },
                    ));
                }
            }
        },
        Err(_) => {},
    }
}

} // verus!
