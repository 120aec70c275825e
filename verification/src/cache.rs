//! A capacity-bounded key/value store whose keys are kept in ascending
//! lexicographic order, with an optional log of change events.

use crate::list_props::{Filter, IntoListProps, ListProps, Order, StartAfter};
use crate::entries::{
    entries_view, has_key, index_of, lemma_drop_first_sorted, lemma_has_key_at_rank,
    lemma_key_position, lemma_place_sorted, lemma_rank_splits, lemma_remove_sorted,
    lemma_update_sorted, lookup, map_of, keys_of, position, rank, search, sorted, Entries,
};
use crate::text::{
    chars_of, ends_with, lemma_lex_lt_irreflexive, lemma_lex_lt_total, lemma_lex_lt_transitive,
    lex_lt, starts_with, str_lt,
};
use vstd::prelude::*;
use vstd::std_specs::cmp::PartialEqSpec;

verus! {

/// The key of an entry.
pub type Key = String;

/// What a cache operation can fail with.
#[derive(Clone, Copy, Debug, PartialEq, Eq)]
pub enum Error {
    SortKeyNotFound,
    CacheAlreadyExists,
    SortKeyExists,
    TableAlreadyExists,
    KeyNotFound,
}

impl Error {
    /// The error in words.
    pub fn message(&self) -> (text: &'static str)
        ensures
            text@ == (match self {
                Error::SortKeyNotFound => "Sort key not found"@,
                Error::CacheAlreadyExists => "Cache already exists"@,
                Error::SortKeyExists => "Sort key exists"@,
                Error::TableAlreadyExists => "Table already exists"@,
                Error::KeyNotFound => "Key not found"@,
            }),
    {
        match self {
            Error::SortKeyNotFound => "Sort key not found",
            Error::CacheAlreadyExists => "Cache already exists",
            Error::SortKeyExists => "Sort key exists",
            Error::TableAlreadyExists => "Table already exists",
            Error::KeyNotFound => "Key not found",
        }
    }
}

/// A change that a cache with an event log records.
#[derive(Clone, Debug, PartialEq)]
pub enum Event<V> {
    Insert { key: String, value: V },
    Remove { key: String },
    Clear,
}

/// The mathematical content of an [`Event`].
pub enum EventModel<V> {
    Insert { key: Seq<char>, value: V },
    Remove { key: Seq<char> },
    Clear,
}

impl<V> View for Event<V> {
    type V = EventModel<V>;

    open spec fn view(&self) -> EventModel<V> {
        match self {
            Event::Insert { key, value } => EventModel::Insert { key: key@, value: *value },
            Event::Remove { key } => EventModel::Remove { key: key@ },
            Event::Clear => EventModel::Clear,
        }
    }
}

/// The mathematical content of a [`Cache`].
pub struct CacheModel<V> {
    /// Key and value of each entry, in list order.
    pub entries: Entries<V>,
    /// The most entries an insert lets the cache hold.
    pub capacity: usize,
    /// The events recorded and not yet taken; `None` without an event log.
    pub events: Option<Seq<EventModel<V>>>,
}

impl<V> CacheModel<V> {
    /// What every cache satisfies: strictly ascending keys and a capacity of
    /// at least one.
    pub open spec fn wf(self) -> bool {
        &&& sorted(self.entries)
        &&& self.capacity >= 1
    }

    /// The cache holds no more than its capacity.
    pub open spec fn within_capacity(self) -> bool {
        self.entries.len() <= self.capacity
    }

    /// The key/value mapping.
    pub open spec fn map(self) -> Map<Seq<char>, V> {
        map_of(self.entries)
    }

    /// The ordered list of keys.
    pub open spec fn list(self) -> Seq<Seq<char>> {
        keys_of(self.entries)
    }

    /// The entries that an insert of a new key starts from: all of them, or
    /// all but the first where the cache is full.
    pub open spec fn after_eviction(self) -> Entries<V> {
        if self.entries.len() >= self.capacity && self.entries.len() > 0 {
            self.entries.drop_first()
        } else {
            self.entries
        }
    }

    /// The entries once `v` is stored under `k`: the value of a present key
    /// is replaced where it stands; a new key is placed at its rank, after
    /// the smallest key has left a full cache.
    pub open spec fn stored(self, k: Seq<char>, v: V) -> Entries<V> {
        if has_key(self.entries, k) {
            self.entries.update(index_of(self.entries, k), (k, v))
        } else {
            self.after_eviction().insert(rank(self.after_eviction(), k), (k, v))
        }
    }

    /// The entries once `k` is removed.
    pub open spec fn removed(self, k: Seq<char>) -> Entries<V> {
        self.entries.remove(index_of(self.entries, k))
    }

    /// The same cache with `e` appended to its event log, if it has one.
    pub open spec fn record(self, e: EventModel<V>) -> Self {
        CacheModel {
            events: match self.events {
                Some(log) => Some(log.push(e)),
                None => None,
            },
            ..self
        }
    }
}

/// A bounded store of values under string keys. The entries are kept in
/// ascending lexicographic order of their keys; an insert into a full
/// cache first evicts the entry with the smallest key.
#[derive(Clone, Debug, PartialEq)]
pub struct Cache<V> {
    entries: Vec<(String, V)>,
    capacity: usize,
    events: Option<Vec<Event<V>>>,
}

/// Another name of the ordered cache.
pub type Quickleaf<V> = Cache<V>;

impl<V> View for Cache<V> {
    type V = CacheModel<V>;

    closed spec fn view(&self) -> CacheModel<V> {
        CacheModel {
            entries: entries_view(self.entries@),
            capacity: self.capacity,
            events: match self.events {
                Some(log) => Some(log@.map_values(|e: Event<V>| e@)),
                None => None,
            },
        }
    }
}

impl<V> Cache<V> where V: PartialEq + Clone {
    /// Validity of a cache: see [`CacheModel::wf`].
    pub open spec fn wf(&self) -> bool {
        self@.wf()
    }

    /// An empty cache of the given capacity, without an event log.
    pub fn new(capacity: usize) -> (cache: Self)
        requires
            capacity >= 1,
        ensures
            cache.wf(),
            cache@.entries.len() == 0,
            cache@.capacity == capacity,
            cache@.events is None,
    {
        Cache { entries: Vec::new(), capacity, events: None }
    }

    /// An empty cache of the given capacity that records its changes.
    pub fn with_events(capacity: usize) -> (cache: Self)
        requires
            capacity >= 1,
        ensures
            cache.wf(),
            cache@.entries.len() == 0,
            cache@.capacity == capacity,
            cache@.events == Some(Seq::<EventModel<V>>::empty()),
    {
        let cache = Cache { entries: Vec::new(), capacity, events: Some(Vec::new()) };
        assert(cache@.events->0 =~= Seq::<EventModel<V>>::empty());
        cache
    }

    /// The capacity of the cache.
    pub fn capacity(&self) -> (n: usize)
        ensures
            n == self@.capacity,
    {
        self.capacity
    }

    /// Changes the capacity. Entries beyond a smaller capacity stay.
    pub fn set_capacity(&mut self, capacity: usize)
        requires
            old(self).wf(),
            capacity >= 1,
        ensures
            final(self).wf(),
            final(self)@ == (CacheModel { capacity, ..old(self)@ }),
    {
        self.capacity = capacity;
    }

    /// The number of entries.
    pub fn len(&self) -> (n: usize)
        ensures
            n == self@.entries.len(),
    {
        self.entries.len()
    }

    /// Whether the cache holds no entry.
    pub fn is_empty(&self) -> (b: bool)
        ensures
            b == (self@.entries.len() == 0),
    {
        self.entries.len() == 0
    }

    /// The value stored under `key`, if any.
    pub fn get(&self, key: &str) -> (r: Option<&V>)
        requires
            self.wf(),
        ensures
            match r {
                Some(v) => lookup(self@.entries, key@) == Some(*v),
                None => lookup(self@.entries, key@) is None,
            },
    {
        match position(&self.entries, key) {
            Some(i) => Some(&self.entries[i].1),
            None => None,
        }
    }

    /// Whether `key` is a key of the cache.
    pub fn contains_key(&self, key: &str) -> (b: bool)
        requires
            self.wf(),
        ensures
            b == has_key(self@.entries, key@),
    {
        position(&self.entries, key).is_some()
    }

    /// Appends `e` to the event log, if there is one.
    fn record(&mut self, e: Event<V>)
        ensures
            final(self)@ == old(self)@.record(e@),
    {
        let ghost before = self@;
        match &mut self.events {
            Some(log) => {
                log.push(e);
            },
            None => {},
        }
        proof {
            if before.events is Some {
                assert(self@.events->0 =~= before.events->0.push(e@));
            }
        }
    }

    /// The events recorded since the last call, oldest first. The log is
    /// left empty. Without an event log the result is empty.
    pub fn take_events(&mut self) -> (out: Vec<Event<V>>)
        ensures
            final(self)@.entries == old(self)@.entries,
            final(self)@.capacity == old(self)@.capacity,
            match old(self)@.events {
                Some(log) => out@.map_values(|e: Event<V>| e@) == log && final(self)@.events == Some(
                    Seq::<EventModel<V>>::empty(),
                ),
                None => out@.len() == 0 && final(self)@.events is None,
            },
    {
        let mut out: Vec<Event<V>> = Vec::new();
        match &mut self.events {
            Some(log) => {
                std::mem::swap(log, &mut out);
            },
            None => {},
        }
        proof {
            if self@.events is Some {
                assert(self@.events->0 =~= Seq::<EventModel<V>>::empty());
            }
        }
        out
    }

    /// Stores `value` under `key`. Where the key is present with an equal
    /// value nothing changes and nothing is recorded. Otherwise the value is
    /// stored, a new key at its sorted position after the smallest key has
    /// left a full cache, and an `Insert` event is recorded.
    pub fn insert(&mut self, key: Key, value: V)
        requires
            old(self).wf(),
        ensures
            final(self).wf(),
            insert_outcome(old(self)@, key@, value, final(self)@),
            old(self)@.within_capacity() ==> final(self)@.within_capacity(),
    {
        let at = search(&self.entries, key.as_str());
        proof {
            lemma_has_key_at_rank(self@.entries, key@);
            lemma_rank_splits(self@.entries, key@);
        }
        let ghost pre = self@;
        if at < self.entries.len() && !str_lt(key.as_str(), self.entries[at].0.as_str()) {
            proof {
                lemma_lex_lt_total(pre.entries[at as int].0, key@);
                lemma_key_position(pre.entries, key@, at as int);
            }
            if self.entries[at].1 == value {
                return ;
            }
            let event = self.insert_event(&key, &value);
            self.entries.set(at, (key, value));
            proof {
                assert(self@.entries =~= pre.stored(key@, value));
                lemma_update_sorted(pre.entries, at as int, value);
            }
            self.record_insert(event);
        } else {
            proof {
                if at < self.entries.len() {
                    lemma_lex_lt_irreflexive(key@);
                }
                assert(!has_key(pre.entries, key@));
            }
            let mut at = at;
            if self.entries.len() >= self.capacity {
                self.entries.remove(0);
                proof {
                    assert(self@.entries =~= pre.entries.drop_first());
                    lemma_drop_first_sorted(pre.entries);
                    lemma_rank_splits(self@.entries, key@);
                    if at == 0 {
                        assert(!lex_lt(pre.entries[0].0, key@));
                        if self@.entries.len() > 0 && lex_lt(self@.entries[0].0, key@) {
                            assert(self@.entries[0] == pre.entries[1]);
                            lemma_lex_lt_transitive(pre.entries[0].0, pre.entries[1].0, key@);
                        }
                        assert(rank(self@.entries, key@) == 0) by {
                            reveal_with_fuel(rank, 2);
                        }
                    }
                }
                if at > 0 {
                    at = at - 1;
                }
            }
            let ghost kept = self@.entries;
            let event = self.insert_event(&key, &value);
            self.entries.insert(at, (key, value));
            proof {
                assert(self@.entries =~= kept.insert(at as int, (key@, value)));
                assert(!has_key(kept, key@)) by {
                    if has_key(kept, key@) {
                        let i = index_of(kept, key@);
                        if kept.len() < pre.entries.len() {
                            assert(kept[i] == pre.entries[i + 1]);
                        }
                    }
                }
                lemma_place_sorted(kept, key@, value);
            }
            self.record_insert(event);
        }
    }

    /// The event of an insert, where there is a log to record it in.
    fn insert_event(&self, key: &Key, value: &V) -> (event: Option<Event<V>>)
        ensures
            match event {
                Some(e) => {
                    &&& self@.events is Some
                    &&& e@ matches EventModel::Insert { key: k, value: v }
                    &&& k == key@
                    &&& cloned(*value, v)
                },
                None => self@.events is None,
            },
    {
        match &self.events {
            Some(_) => Some(Event::Insert { key: key.clone(), value: value.clone() }),
            None => None,
        }
    }

    /// Records the event of an insert.
    fn record_insert(&mut self, event: Option<Event<V>>)
        requires
            event is Some <==> old(self)@.events is Some,
        ensures
            final(self)@.entries == old(self)@.entries,
            final(self)@.capacity == old(self)@.capacity,
            match old(self)@.events {
                Some(log) => {
                    &&& final(self)@.events matches Some(after)
                    &&& after.len() == log.len() + 1
                    &&& after.drop_last() == log
                    &&& after.last() == event->0@
                },
                None => final(self)@.events is None,
            },
    {
        let ghost before = self@;
        match event {
            Some(e) => {
                self.record(e);
                assert(self@.events->0.drop_last() =~= before.events->0);
            },
            None => {},
        }
    }

    /// Stores `value` under a key given as a string literal.
    pub fn insert_str(&mut self, key: &'static str, value: V)
        requires
            old(self).wf(),
        ensures
            final(self).wf(),
            insert_outcome(old(self)@, key@, value, final(self)@),
            old(self)@.within_capacity() ==> final(self)@.within_capacity(),
    {
        self.insert(key.to_owned(), value);
    }

    /// Stores `value` under `key` unless the key is present.
    pub fn insert_if_not_exists(&mut self, key: Key, value: V) -> (r: Result<(), Error>)
        requires
            old(self).wf(),
        ensures
            final(self).wf(),
            old(self)@.within_capacity() ==> final(self)@.within_capacity(),
            match r {
                Ok(_) => !has_key(old(self)@.entries, key@) && insert_outcome(
                    old(self)@,
                    key@,
                    value,
                    final(self)@,
                ),
                Err(e) => e == Error::SortKeyExists && has_key(old(self)@.entries, key@)
                    && final(self)@ == old(self)@,
            },
    {
        if self.contains_key(key.as_str()) {
            return Err(Error::SortKeyExists);
        }
        self.insert(key, value);
        Ok(())
    }

    /// Removes `key` and its value, and records a `Remove` event.
    pub fn remove(&mut self, key: &str) -> (r: Result<(), Error>)
        requires
            old(self).wf(),
        ensures
            final(self).wf(),
            old(self)@.within_capacity() ==> final(self)@.within_capacity(),
            match r {
                Ok(_) => has_key(old(self)@.entries, key@) && final(self)@ == (CacheModel {
                    entries: old(self)@.removed(key@),
                    ..old(self)@
                }).record(EventModel::Remove { key: key@ }),
                Err(e) => e == Error::KeyNotFound && !has_key(old(self)@.entries, key@)
                    && final(self)@ == old(self)@,
            },
    {
        let ghost pre = self@;
        match position(&self.entries, key) {
            Some(at) => {
                self.entries.remove(at);
                proof {
                    assert(self@.entries =~= pre.removed(key@));
                    lemma_remove_sorted(pre.entries, at as int);
                }
                self.record(Event::Remove { key: key.to_owned() });
                Ok(())
            },
            None => Err(Error::KeyNotFound),
        }
    }

    /// Removes every entry, and records a `Clear` event.
    pub fn clear(&mut self)
        requires
            old(self).wf(),
        ensures
            final(self).wf(),
            final(self)@ == (CacheModel {
                entries: Seq::<(Seq<char>, V)>::empty(),
                ..old(self)@
            }).record(EventModel::Clear),
    {
        self.entries.clear();
        proof {
            assert(self@.entries =~= Seq::<(Seq<char>, V)>::empty());
        }
        self.record(Event::Clear);
    }

    /// The value stored under `key`, to be changed in place. The key, the
    /// order and the event log are not affected.
    pub fn get_mut(&mut self, key: &str) -> (r: Option<&mut V>)
        requires
            old(self).wf(),
        ensures
            final(self).wf(),
            match r {
                Some(v) => {
                    &&& lookup(old(self)@.entries, key@) == Some(*v)
                    &&& final(self)@ == (CacheModel {
                        entries: old(self)@.entries.update(
                            index_of(old(self)@.entries, key@),
                            (key@, *final(v)),
                        ),
                        ..old(self)@
                    })
                },
                None => lookup(old(self)@.entries, key@) is None && final(self)@ == old(self)@,
            },
    {
        match position(&self.entries, key) {
            Some(i) => {
                let ghost pre = self@;
                proof {
                    lemma_key_position(pre.entries, key@, i as int);
                }
                proof {
                    let stored = self.entries@;
                    assert forall|x: V|
                        sorted(#[trigger] pre.entries.update(i as int, (key@, x))) by {
                        lemma_update_sorted(pre.entries, i as int, x);
                    }
                    assert forall|x: V| #[trigger]
                        entries_view(stored.update(i as int, (stored[i as int].0, x)))
                            == pre.entries.update(i as int, (key@, x)) by {
                        assert(entries_view(stored.update(i as int, (stored[i as int].0, x)))
                            =~= pre.entries.update(i as int, (key@, x)));
                    }
                }
                let slot = &mut self.entries[i];
                Some(&mut slot.1)
            },
            None => None,
        }
    }

    /// The entries that `props` asks for: those after the cursor in the
    /// chosen direction whose keys the filter keeps, up to the limit.
    pub fn list<T: IntoListProps>(&self, props: T) -> (r: Result<Vec<(Key, &V)>, Error>)
        requires
            self.wf(),
        ensures
            match r {
                Ok(items) => listing(self@.entries, props.list_props()) == Ok::<
                    Entries<V>,
                    Error,
                >(items_view(items@)),
                Err(e) => listing(self@.entries, props.list_props()) == Err::<Entries<V>, Error>(e),
            },
    {
        let props = props.into_list_props();
        let n = self.entries.len();
        let ghost all = in_order(self@.entries, props.order);
        let skip: usize = match props.start_after_key {
            StartAfter::Key(k) => match position(&self.entries, k) {
                Some(i) => {
                    proof {
                        lemma_key_position(self@.entries, k@, i as int);
                        lemma_reverse_position(self@.entries, k@, i as int);
                    }
                    match props.order {
                        Order::Asc => i + 1,
                        Order::Desc => n - i,
                    }
                },
                None => {
                    return Err(Error::SortKeyNotFound);
                },
            },
            StartAfter::Start => 0,
        };
        let ghost rest = after_cursor(all, props.start_after_key);
        assert(rest == all.skip(skip as int));
        let all_kept = match props.filter {
            Filter::All => true,
            _ => false,
        };
        let prefix: Vec<char> = match props.filter {
            Filter::StartWith(p) => chars_of(p),
            Filter::StartAndEndWith(p, _) => chars_of(p),
            _ => Vec::new(),
        };
        let suffix: Vec<char> = match props.filter {
            Filter::EndWith(s) => chars_of(s),
            Filter::StartAndEndWith(_, s) => chars_of(s),
            _ => Vec::new(),
        };
        let ghost keep = kept_by::<V>(props.filter);
        let mut out: Vec<(Key, &V)> = Vec::new();
        let mut j: usize = skip;
        assert(rest.take(0).filter(keep) =~= Seq::<(Seq<char>, V)>::empty());
        while j < n && out.len() < props.limit
            invariant
                n == self.entries.len(),
                all == in_order(self@.entries, props.order),
                all.len() == n,
                rest == all.skip(skip as int),
                skip <= j <= n,
                keep == kept_by::<V>(props.filter),
                all_kept == (props.filter is All),
                forall|k: Seq<char>|
                    props.filter.keeps(k) == (prefix@.is_prefix_of(k) && suffix@.is_suffix_of(k)),
                items_view(out@) == rest.take(j - skip).filter(keep),
                out.len() <= props.limit,
            decreases n - j,
        {
            let at: usize = match props.order {
                Order::Asc => j,
                Order::Desc => n - 1 - j,
            };
            let entry = &self.entries[at];
            proof {
                assert(rest[j - skip] == self@.entries[at as int]);
                let upto = rest.take(j - skip + 1);
                assert(upto.drop_last() =~= rest.take(j - skip));
                assert(upto.last() == rest[j - skip]);
            }
            let kept = if all_kept {
                true
            } else {
                let key_chars = chars_of(entry.0.as_str());
                starts_with(&key_chars, &prefix) && ends_with(&key_chars, &suffix)
            };
            let ghost upto = rest.take(j - skip + 1);
            proof {
                assert(self@.entries[at as int] == (entry.0@, entry.1));
                assert(kept == props.filter.keeps(entry.0@));
                assert(kept == keep(rest[j - skip]));
                reveal(Seq::filter);
                assert(upto.filter(keep) == if keep(upto.last()) {
                    upto.drop_last().filter(keep).push(upto.last())
                } else {
                    upto.drop_last().filter(keep)
                });
            }
            if kept {
                let ghost before = out@;
                out.push((entry.0.clone(), &entry.1));
                proof {
                    assert(items_view(out@) =~= items_view(before).push(rest[j - skip]));
                }
            }
            assert(items_view(out@) == upto.filter(keep));
            j += 1;
        }
        proof {
            let found = rest.take(j - skip).filter(keep);
            let wanted = rest.filter(keep);
            if j == n {
                assert(rest.take(j - skip) =~= rest);
            } else {
                assert(rest =~= rest.take(j - skip) + rest.skip(j - skip));
                Seq::filter_distributes_over_add(rest.take(j - skip), rest.skip(j - skip), keep);
                assert(wanted.take(props.limit as int) =~= found);
            }
        }
        Ok(out)
    }
}

/// The entries in the direction of a listing.
pub open spec fn in_order<V>(entries: Entries<V>, order: Order) -> Entries<V> {
    match order {
        Order::Asc => entries,
        Order::Desc => entries.reverse(),
    }
}

/// What follows the cursor in `all`.
pub open spec fn after_cursor<V>(all: Entries<V>, start: StartAfter) -> Entries<V> {
    match start {
        StartAfter::Key(k) => all.skip(index_of(all, k@) + 1),
        StartAfter::Start => all,
    }
}

/// Whether a filter keeps an entry, as a function of the entry.
pub open spec fn kept_by<V>(filter: Filter) -> spec_fn((Seq<char>, V)) -> bool {
    |e: (Seq<char>, V)| filter.keeps(e.0)
}

/// The first `n` items of `s`, or all of them where there are fewer.
pub open spec fn first_n<A>(s: Seq<A>, n: int) -> Seq<A> {
    if 0 <= n < s.len() {
        s.take(n)
    } else {
        s
    }
}

/// The result of a listing: an error where the cursor names no key of the
/// cache; else the entries after the cursor, in the chosen direction, that
/// the filter keeps, cut off at the limit.
pub open spec fn listing<V>(entries: Entries<V>, props: ListProps) -> Result<Entries<V>, Error> {
    let all = in_order(entries, props.order);
    if props.start_after_key matches StartAfter::Key(k) && !has_key(entries, k@) {
        Err(Error::SortKeyNotFound)
    } else {
        Ok(
            first_n(
                after_cursor(all, props.start_after_key).filter(kept_by::<V>(props.filter)),
                props.limit as int,
            ),
        )
    }
}

/// The items of a listing as entries.
pub open spec fn items_view<V>(items: Seq<(Key, &V)>) -> Entries<V> {
    items.map_values(|it: (Key, &V)| (it.0@, *it.1))
}

/// Where a key stands in a sorted list read backwards.
pub proof fn lemma_reverse_position<V>(entries: Entries<V>, k: Seq<char>, i: int)
    requires
        sorted(entries),
        0 <= i < entries.len(),
        entries[i].0 == k,
    ensures
        entries.reverse().len() == entries.len(),
        has_key(entries.reverse(), k),
        index_of(entries.reverse(), k) == entries.len() - 1 - i,
{
    let back = entries.reverse();
    let n = entries.len() as int;
    assert(back[n - 1 - i] == entries[i]);
    let j = index_of(back, k);
    assert(back[j] == entries[n - 1 - j]);
    lemma_key_position(entries, k, i);
    lemma_key_position(entries, k, n - 1 - j);
}

/// What an insert of `v` under `k` may turn `pre` into. Where equality on
/// `V` is what `eq_spec` says, the outcome is one cache; otherwise it is
/// one of the two caches that the two answers of `==` lead to.
pub open spec fn insert_outcome<V: PartialEq + Clone>(
    pre: CacheModel<V>,
    k: Seq<char>,
    v: V,
    post: CacheModel<V>,
) -> bool {
    let unchanged = post == pre;
    let stored = {
        &&& post.capacity == pre.capacity
        &&& post.entries == pre.stored(k, v)
        &&& match pre.events {
            None => post.events is None,
            Some(log) => {
                &&& post.events matches Some(after)
                &&& after.len() == log.len() + 1
                &&& after.drop_last() == log
                &&& after.last() matches EventModel::Insert { key, value }
                &&& key == k
                &&& cloned(v, value)
            },
        }
    };
    match lookup(pre.entries, k) {
        Some(existing) => if V::obeys_eq_spec() {
            if existing.eq_spec(&v) {
                unchanged
            } else {
                stored
            }
        } else {
            unchanged || stored
        },
        None => stored,
    }
}

} // verus!
