//! Lists of key/value entries in strictly ascending order of their keys:
//! what the ordered containers of this crate are made of.

use crate::text::{
    lemma_lex_lt_irreflexive, lemma_lex_lt_total, lemma_lex_lt_transitive, lex_lt, str_lt,
};
use vstd::prelude::*;

verus! {

/// Key and value of each entry, in list order.
pub type Entries<V> = Seq<(Seq<char>, V)>;

/// Keys strictly ascending: the list is sorted and no key occurs twice.
pub open spec fn sorted<V>(entries: Entries<V>) -> bool {
    forall|i: int, j: int|
        0 <= i < j < entries.len() ==> lex_lt(#[trigger] entries[i].0, #[trigger] entries[j].0)
}

/// The keys of the entries, in list order.
pub open spec fn keys_of<V>(entries: Entries<V>) -> Seq<Seq<char>> {
    entries.map_values(|e: (Seq<char>, V)| e.0)
}

/// Whether some entry has key `k`.
pub open spec fn has_key<V>(entries: Entries<V>, k: Seq<char>) -> bool {
    exists|i: int| 0 <= i < entries.len() && (#[trigger] entries[i]).0 == k
}

/// The position of an entry with key `k`, where there is one.
pub open spec fn index_of<V>(entries: Entries<V>, k: Seq<char>) -> int {
    choose|i: int| 0 <= i < entries.len() && (#[trigger] entries[i]).0 == k
}

/// The value stored under `k`, if any.
pub open spec fn lookup<V>(entries: Entries<V>, k: Seq<char>) -> Option<V> {
    if has_key(entries, k) {
        Some(entries[index_of(entries, k)].1)
    } else {
        None
    }
}

/// The number of leading entries whose key is below `k`: where `k` belongs
/// in a sorted list.
pub open spec fn rank<V>(entries: Entries<V>, k: Seq<char>) -> int
    decreases entries.len(),
{
    if entries.len() == 0 {
        0
    } else if lex_lt(entries[0].0, k) {
        1 + rank(entries.drop_first(), k)
    } else {
        0
    }
}

/// The entries as a finite map from key to value.
pub open spec fn map_of<V>(entries: Entries<V>) -> Map<Seq<char>, V> {
    Map::new(|k: Seq<char>| has_key(entries, k), |k: Seq<char>| entries[index_of(entries, k)].1)
}

/// In a sorted list, a position that splits the keys below `k` from the
/// rest is the rank of `k`.
pub proof fn lemma_rank_is_split<V>(entries: Entries<V>, k: Seq<char>, r: int)
    requires
        0 <= r <= entries.len(),
        forall|i: int| 0 <= i < r ==> lex_lt((#[trigger] entries[i]).0, k),
        forall|i: int| r <= i < entries.len() ==> !lex_lt((#[trigger] entries[i]).0, k),
    ensures
        rank(entries, k) == r,
    decreases entries.len(),
{
    if entries.len() > 0 {
        if r > 0 {
            let rest = entries.drop_first();
            assert(lex_lt(entries[0].0, k));
            assert forall|i: int| 0 <= i < r - 1 implies lex_lt((#[trigger] rest[i]).0, k) by {
                assert(rest[i] == entries[i + 1]);
            }
            assert forall|i: int| r - 1 <= i < rest.len() implies !lex_lt(
                (#[trigger] rest[i]).0,
                k,
            ) by {
                assert(rest[i] == entries[i + 1]);
            }
            lemma_rank_is_split(rest, k, r - 1);
        } else {
            assert(!lex_lt(entries[0].0, k));
        }
    }
}

/// In a sorted list the rank of `k` splits the keys below `k` from the rest.
pub proof fn lemma_rank_splits<V>(entries: Entries<V>, k: Seq<char>)
    requires
        sorted(entries),
    ensures
        0 <= rank(entries, k) <= entries.len(),
        forall|i: int| 0 <= i < rank(entries, k) ==> lex_lt((#[trigger] entries[i]).0, k),
        forall|i: int|
            rank(entries, k) <= i < entries.len() ==> !lex_lt((#[trigger] entries[i]).0, k),
    decreases entries.len(),
{
    if entries.len() > 0 {
        let rest = entries.drop_first();
        assert forall|i: int, j: int| 0 <= i < j < rest.len() implies lex_lt(
            #[trigger] rest[i].0,
            #[trigger] rest[j].0,
        ) by {
            assert(rest[i] == entries[i + 1] && rest[j] == entries[j + 1]);
        }
        if lex_lt(entries[0].0, k) {
            lemma_rank_splits(rest, k);
            assert forall|i: int| 0 <= i < rank(entries, k) implies lex_lt(
                (#[trigger] entries[i]).0,
                k,
            ) by {
                if i > 0 {
                    assert(entries[i] == rest[i - 1]);
                }
            }
            assert forall|i: int| rank(entries, k) <= i < entries.len() implies !lex_lt(
                (#[trigger] entries[i]).0,
                k,
            ) by {
                assert(entries[i] == rest[i - 1]);
            }
        } else {
            assert forall|i: int| 0 <= i < entries.len() implies !lex_lt(
                (#[trigger] entries[i]).0,
                k,
            ) by {
                if i > 0 && lex_lt(entries[i].0, k) {
                    lemma_lex_lt_transitive(entries[0].0, entries[i].0, k);
                }
            }
        }
    }
}

/// In a sorted list a key occurs at most once, and where it occurs it
/// stands at its rank.
pub proof fn lemma_key_position<V>(entries: Entries<V>, k: Seq<char>, i: int)
    requires
        sorted(entries),
        0 <= i < entries.len(),
        entries[i].0 == k,
    ensures
        has_key(entries, k),
        index_of(entries, k) == i,
        rank(entries, k) == i,
        lookup(entries, k) == Some(entries[i].1),
{
    let j = index_of(entries, k);
    lemma_lex_lt_irreflexive(k);
    assert(entries[j].0 == k);
    assert(i == j);
    assert forall|a: int| 0 <= a < i implies lex_lt((#[trigger] entries[a]).0, k) by {}
    assert forall|a: int| i <= a < entries.len() implies !lex_lt((#[trigger] entries[a]).0, k) by {
        if a > i && lex_lt(entries[a].0, k) {
            lemma_lex_lt_transitive(entries[i].0, entries[a].0, k);
        }
    }
    lemma_rank_is_split(entries, k, i);
}

/// In a sorted list `k` is a key exactly where the entry at its rank has it.
pub proof fn lemma_has_key_at_rank<V>(entries: Entries<V>, k: Seq<char>)
    requires
        sorted(entries),
    ensures
        0 <= rank(entries, k) <= entries.len(),
        has_key(entries, k) <==> (rank(entries, k) < entries.len() && entries[rank(
            entries,
            k,
        )].0 == k),
{
    lemma_rank_splits(entries, k);
    if has_key(entries, k) {
        lemma_key_position(entries, k, index_of(entries, k));
    }
}

/// The entries of a cache as its model holds them.
pub open spec fn entries_view<V>(stored: Seq<(String, V)>) -> Entries<V> {
    stored.map_values(|e: (String, V)| (e.0@, e.1))
}

/// Replacing the value of an entry keeps the list sorted.
pub proof fn lemma_update_sorted<V>(entries: Entries<V>, i: int, v: V)
    requires
        sorted(entries),
        0 <= i < entries.len(),
    ensures
        sorted(entries.update(i, (entries[i].0, v))),
{
    let after = entries.update(i, (entries[i].0, v));
    assert forall|a: int, b: int| 0 <= a < b < after.len() implies lex_lt(
        #[trigger] after[a].0,
        #[trigger] after[b].0,
    ) by {
        assert(after[a].0 == entries[a].0 && after[b].0 == entries[b].0);
    }
}

/// Dropping the first entry keeps the list sorted.
pub proof fn lemma_drop_first_sorted<V>(entries: Entries<V>)
    requires
        sorted(entries),
        entries.len() > 0,
    ensures
        sorted(entries.drop_first()),
{
    let rest = entries.drop_first();
    assert forall|a: int, b: int| 0 <= a < b < rest.len() implies lex_lt(
        #[trigger] rest[a].0,
        #[trigger] rest[b].0,
    ) by {
        assert(rest[a] == entries[a + 1] && rest[b] == entries[b + 1]);
    }
}

/// Removing an entry keeps the list sorted.
pub proof fn lemma_remove_sorted<V>(entries: Entries<V>, i: int)
    requires
        sorted(entries),
        0 <= i < entries.len(),
    ensures
        sorted(entries.remove(i)),
{
    let rest = entries.remove(i);
    assert forall|a: int, b: int| 0 <= a < b < rest.len() implies lex_lt(
        #[trigger] rest[a].0,
        #[trigger] rest[b].0,
    ) by {
        let a0 = if a < i { a } else { a + 1 };
        let b0 = if b < i { b } else { b + 1 };
        assert(rest[a] == entries[a0] && rest[b] == entries[b0]);
    }
}

/// Placing a new key at its rank keeps the list sorted.
pub proof fn lemma_place_sorted<V>(entries: Entries<V>, k: Seq<char>, v: V)
    requires
        sorted(entries),
        !has_key(entries, k),
    ensures
        0 <= rank(entries, k) <= entries.len(),
        sorted(entries.insert(rank(entries, k), (k, v))),
{
    lemma_rank_splits(entries, k);
    let r = rank(entries, k);
    let after = entries.insert(r, (k, v));
    assert forall|a: int, b: int| 0 <= a < b < after.len() implies lex_lt(
        #[trigger] after[a].0,
        #[trigger] after[b].0,
    ) by {
        if a == r {
            assert(after[b] == entries[b - 1]);
            lemma_lex_lt_total(entries[b - 1].0, k);
        } else if b == r {
            assert(after[a] == entries[a]);
        } else {
            let a0 = if a < r { a } else { a - 1 };
            let b0 = if b < r { b } else { b - 1 };
            assert(after[a] == entries[a0] && after[b] == entries[b0]);
        }
    }
}

/// The entries once `v` stands under `k`: in place of the value that a
/// present key had, or at the rank of a new key.
pub open spec fn put<V>(entries: Entries<V>, k: Seq<char>, v: V) -> Entries<V> {
    if has_key(entries, k) {
        entries.update(index_of(entries, k), (k, v))
    } else {
        entries.insert(rank(entries, k), (k, v))
    }
}

/// Two lists with the same keys at the same positions.
pub open spec fn same_keys<A, B>(a: Entries<A>, b: Entries<B>) -> bool {
    &&& a.len() == b.len()
    &&& forall|i: int| 0 <= i < a.len() ==> (#[trigger] a[i]).0 == b[i].0
}

/// What is said of a list by its keys alone holds of any list with the
/// same keys.
pub proof fn lemma_same_keys<A, B>(a: Entries<A>, b: Entries<B>, k: Seq<char>)
    requires
        same_keys(a, b),
        sorted(a),
    ensures
        sorted(b),
        rank(a, k) == rank(b, k),
        has_key(a, k) == has_key(b, k),
        has_key(a, k) ==> index_of(a, k) == index_of(b, k),
{
    assert forall|i: int, j: int| 0 <= i < j < b.len() implies lex_lt(
        #[trigger] b[i].0,
        #[trigger] b[j].0,
    ) by {
        assert(a[i].0 == b[i].0 && a[j].0 == b[j].0);
    }
    lemma_rank_splits(a, k);
    let r = rank(a, k);
    assert forall|i: int| 0 <= i < r implies lex_lt((#[trigger] b[i]).0, k) by {
        assert(a[i].0 == b[i].0);
    }
    assert forall|i: int| r <= i < b.len() implies !lex_lt((#[trigger] b[i]).0, k) by {
        assert(a[i].0 == b[i].0);
    }
    lemma_rank_is_split(b, k, r);
    if has_key(a, k) {
        let i = index_of(a, k);
        assert(a[i].0 == b[i].0);
        lemma_key_position(b, k, i);
    }
    if has_key(b, k) {
        let i = index_of(b, k);
        assert(a[i].0 == b[i].0);
    }
}

/// Putting a value keeps the list sorted, makes its key a key, and leaves
/// every other key and its value as they were.
pub proof fn lemma_put<V>(entries: Entries<V>, k: Seq<char>, v: V)
    requires
        sorted(entries),
    ensures
        sorted(put(entries, k, v)),
        lookup(put(entries, k, v), k) == Some(v),
        forall|other: Seq<char>|
            other != k ==> lookup(#[trigger] put(entries, k, v), other) == lookup(entries, other),
        forall|other: Seq<char>|
            has_key(put(entries, k, v), other) <==> (has_key(entries, other) || other == k),
{
    let after = put(entries, k, v);
    if has_key(entries, k) {
        let i = index_of(entries, k);
        lemma_update_sorted(entries, i, v);
        lemma_key_position(after, k, i);
        assert forall|other: Seq<char>| other != k implies lookup(after, other) == lookup(
            entries,
            other,
        ) by {
            if has_key(entries, other) {
                let j = index_of(entries, other);
                assert(after[j] == entries[j]);
                lemma_key_position(after, other, j);
            }
            if has_key(after, other) {
                let j = index_of(after, other);
                assert(after[j] == entries[j]);
                lemma_key_position(entries, other, j);
            }
        }
        assert forall|other: Seq<char>| has_key(after, other) <==> (has_key(entries, other)
            || other == k) by {
            if has_key(entries, other) {
                let j = index_of(entries, other);
                assert(after[j].0 == entries[j].0);
            }
            if has_key(after, other) {
                let j = index_of(after, other);
                assert(after[j].0 == entries[j].0);
            }
        }
    } else {
        lemma_place_sorted(entries, k, v);
        let r = rank(entries, k);
        assert(after[r] == (k, v));
        lemma_key_position(after, k, r);
        assert forall|other: Seq<char>| other != k implies lookup(after, other) == lookup(
            entries,
            other,
        ) by {
            if has_key(entries, other) {
                let j = index_of(entries, other);
                let j1 = if j < r { j } else { j + 1 };
                assert(after[j1] == entries[j]);
                lemma_key_position(after, other, j1);
            }
            if has_key(after, other) {
                let j = index_of(after, other);
                let j0 = if j < r { j } else { j - 1 };
                assert(after[j] == entries[j0]);
                lemma_key_position(entries, other, j0);
            }
        }
        assert forall|other: Seq<char>| has_key(after, other) <==> (has_key(entries, other)
            || other == k) by {
            if has_key(entries, other) {
                let j = index_of(entries, other);
                let j1 = if j < r { j } else { j + 1 };
                assert(after[j1] == entries[j]);
            }
            if has_key(after, other) && other != k {
                let j = index_of(after, other);
                let j0 = if j < r { j } else { j - 1 };
                assert(after[j] == entries[j0]);
            }
        }
    }
}

/// Removing the entry of a key keeps the list sorted, makes the key
/// absent, and leaves every other key and its value as they were.
pub proof fn lemma_remove<V>(entries: Entries<V>, k: Seq<char>)
    requires
        sorted(entries),
        has_key(entries, k),
    ensures
        sorted(entries.remove(index_of(entries, k))),
        !has_key(entries.remove(index_of(entries, k)), k),
        forall|other: Seq<char>|
            other != k ==> lookup(#[trigger] entries.remove(index_of(entries, k)), other)
                == lookup(entries, other) && has_key(
                entries.remove(index_of(entries, k)),
                other,
            ) == has_key(entries, other),
{
    let at = index_of(entries, k);
    let after = entries.remove(at);
    lemma_remove_sorted(entries, at);
    lemma_key_position(entries, k, at);
    if has_key(after, k) {
        let j = index_of(after, k);
        let j0 = if j < at { j } else { j + 1 };
        assert(after[j] == entries[j0]);
        lemma_key_position(entries, k, j0);
    }
    assert forall|other: Seq<char>| other != k implies lookup(after, other) == lookup(
        entries,
        other,
    ) && has_key(after, other) == has_key(entries, other) by {
        if has_key(entries, other) {
            let j = index_of(entries, other);
            let j1 = if j < at { j } else { j - 1 };
            assert(after[j1] == entries[j]);
            lemma_key_position(after, other, j1);
        }
        if has_key(after, other) {
            let j = index_of(after, other);
            let j0 = if j < at { j } else { j + 1 };
            assert(after[j] == entries[j0]);
            lemma_key_position(entries, other, j0);
        }
    }
}

/// A sorted list is determined by what its keys hold: two sorted lists in
/// which every key finds the same are one list.
pub proof fn lemma_sorted_unique<V>(a: Entries<V>, b: Entries<V>)
    requires
        sorted(a),
        sorted(b),
        forall|k: Seq<char>| lookup(a, k) == lookup(b, k),
    ensures
        a == b,
    decreases a.len(),
{
    if a.len() == 0 {
        if b.len() > 0 {
            lemma_key_position(b, b[0].0, 0);
            assert(lookup(a, b[0].0) is None);
        }
        assert(a =~= b);
    } else {
        lemma_key_position(a, a[0].0, 0);
        assert(lookup(b, a[0].0) == Some(a[0].1));
        let j = index_of(b, a[0].0);
        lemma_key_position(b, a[0].0, j);
        lemma_key_position(b, b[0].0, 0);
        assert(lookup(a, b[0].0) == Some(b[0].1));
        let i = index_of(a, b[0].0);
        lemma_key_position(a, b[0].0, i);
        if j > 0 {
            assert(lex_lt(b[0].0, b[j].0));
            if i > 0 {
                assert(lex_lt(a[0].0, a[i].0));
                lemma_lex_lt_transitive(a[0].0, b[0].0, a[0].0);
            }
            lemma_lex_lt_irreflexive(a[0].0);
        }
        assert(j == 0);
        let a1 = a.drop_first();
        let b1 = b.drop_first();
        lemma_drop_first_sorted(a);
        lemma_drop_first_sorted(b);
        lemma_lex_lt_irreflexive(a[0].0);
        assert forall|k: Seq<char>| lookup(a1, k) == lookup(b1, k) by {
            lemma_rest_lookup(a, k);
            lemma_rest_lookup(b, k);
        }
        lemma_sorted_unique(a1, b1);
        assert(a =~= seq![a[0]] + a1);
        assert(b =~= seq![b[0]] + b1);
    }
}

/// What a key finds in a sorted list without its first entry: nothing for
/// the key of that entry, and for another key what it finds in the list.
pub proof fn lemma_rest_lookup<V>(entries: Entries<V>, k: Seq<char>)
    requires
        sorted(entries),
        entries.len() > 0,
    ensures
        lookup(entries.drop_first(), k) == (if k == entries[0].0 {
            None
        } else {
            lookup(entries, k)
        }),
{
    let rest = entries.drop_first();
    lemma_drop_first_sorted(entries);
    if has_key(rest, k) {
        let j = index_of(rest, k);
        assert(rest[j] == entries[j + 1]);
        lemma_key_position(entries, k, j + 1);
        lemma_key_position(rest, k, j);
        lemma_lex_lt_irreflexive(k);
    }
    if has_key(entries, k) && k != entries[0].0 {
        let j = index_of(entries, k);
        assert(rest[j - 1] == entries[j]);
        lemma_key_position(rest, k, j - 1);
    }
}

/// The rank of `key` in a sorted list, by bisection.
pub fn search<V>(stored: &Vec<(String, V)>, key: &str) -> (r: usize)
    requires
        sorted(entries_view(stored@)),
    ensures
        r == rank(entries_view(stored@), key@),
        r <= stored@.len(),
{
    let ghost entries = entries_view(stored@);
    let mut lo: usize = 0;
    let mut hi: usize = stored.len();
    while lo < hi
        invariant
            sorted(entries),
            entries == entries_view(stored@),
            0 <= lo <= hi <= stored.len(),
            forall|i: int| 0 <= i < lo ==> lex_lt((#[trigger] entries[i]).0, key@),
            forall|i: int| hi <= i < entries.len() ==> !lex_lt((#[trigger] entries[i]).0, key@),
        decreases hi - lo,
    {
        let mid: usize = lo + (hi - lo) / 2;
        assert(entries[mid as int].0 == stored@[mid as int].0@);
        if str_lt(stored[mid].0.as_str(), key) {
            proof {
                assert forall|i: int| 0 <= i < mid + 1 implies lex_lt(
                    (#[trigger] entries[i]).0,
                    key@,
                ) by {
                    if i < mid {
                        lemma_lex_lt_transitive(entries[i].0, entries[mid as int].0, key@);
                    }
                }
            }
            lo = mid + 1;
        } else {
            proof {
                assert forall|i: int| mid <= i < entries.len() implies !lex_lt(
                    (#[trigger] entries[i]).0,
                    key@,
                ) by {
                    if i > mid && lex_lt(entries[i].0, key@) {
                        lemma_lex_lt_transitive(entries[mid as int].0, entries[i].0, key@);
                    }
                }
            }
            hi = mid;
        }
    }
    proof {
        lemma_rank_is_split(entries, key@, lo as int);
    }
    lo
}

/// The position of `key` in a sorted list, if it is a key.
pub fn position<V>(stored: &Vec<(String, V)>, key: &str) -> (r: Option<usize>)
    requires
        sorted(entries_view(stored@)),
    ensures
        match r {
            Some(i) => has_key(entries_view(stored@), key@) && i == index_of(
                entries_view(stored@),
                key@,
            ) && i < stored@.len(),
            None => !has_key(entries_view(stored@), key@),
        },
{
    let ghost entries = entries_view(stored@);
    let at = search(stored, key);
    proof {
        lemma_has_key_at_rank(entries, key@);
    }
    if at < stored.len() && !str_lt(key, stored[at].0.as_str()) {
        proof {
            assert(entries[at as int].0 == stored@[at as int].0@);
            lemma_rank_splits(entries, key@);
            lemma_lex_lt_total(entries[at as int].0, key@);
            lemma_key_position(entries, key@, at as int);
        }
        Some(at)
    } else {
        proof {
            if at < stored.len() {
                assert(entries[at as int].0 == stored@[at as int].0@);
                lemma_lex_lt_irreflexive(key@);
            }
        }
        None
    }
}

} // verus!
