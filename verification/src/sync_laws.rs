//! Laws of the synchronizer: of the parsing of diffs, of the steps that
//! changes ask for, and of what documents make of a cache.

use crate::branch_handler::{
    applied, cache_key, diff_records, path_at, plan_of, records, rejected, status_of,
    steps_of, two_paths, ChangeModel, Status, StepModel,
};
use crate::cache::{CacheModel, EventModel};
use crate::datum::DatumModel;
use crate::document::{assign, assign_all, discard, ref_entries, stored_document, stored_value};
use crate::entries::{
    has_key, index_of, lemma_place_sorted, lemma_put, lemma_remove, lemma_same_keys,
    lemma_sorted_unique, lookup, put, same_keys, sorted, Entries,
};
use crate::payload::{
    leaves, leaves_of_members, member_paths, ref_value, refs, refs_of_members, valid_file,
    RefModel, RefType,
};
use crate::text::{
    after_first, before_first, child_path, has_char, lemma_first_index,
    lemma_lex_lt_irreflexive, lex_lt, path_in, split,
};
use vstd::prelude::*;

verus! {

/// Where `a` holds no `c`, the parts of `a`, `c`, `b` joined are `a` and
/// the parts of `b`.
pub proof fn lemma_split_join(a: Seq<char>, c: char, b: Seq<char>)
    requires
        !has_char(a, c),
    ensures
        split(a + seq![c] + b, c) == seq![a] + split(b, c),
{
    let s = a + seq![c] + b;
    assert forall|j: int| 0 <= j < a.len() implies s[j] != c by {
        assert(s[j] == a[j]);
    }
    assert(s[a.len() as int] == c);
    lemma_first_index(s, c, a.len() as int);
    assert(before_first(s, c) =~= a);
    assert(after_first(s, c) =~= b);
}

/// The empty text has one part, the empty one.
pub proof fn lemma_split_empty(c: char)
    ensures
        split(Seq::empty(), c) == seq![Seq::<char>::empty()],
{
}

/// A text has at least one part.
pub proof fn lemma_split_some(s: Seq<char>, c: char)
    ensures
        split(s, c).len() >= 1,
{
}

/// Where `s` holds no `c`, it is its only part.
pub proof fn lemma_split_whole(s: Seq<char>, c: char)
    requires
        !has_char(s, c),
    ensures
        split(s, c) == seq![s],
{
    lemma_first_index(s, c, s.len() as int);
}

/// What the tokens hold from a position on does not depend on the tokens
/// before that position.
pub proof fn lemma_records_shift(front: Seq<Seq<char>>, rest: Seq<Seq<char>>, j: int)
    requires
        0 <= j,
    ensures
        records(front + rest, front.len() + j) == records(rest, j),
    decreases rest.len() - j,
{
    let all = front + rest;
    let i = front.len() + j;
    if j < rest.len() {
        assert(all[i] == rest[j]);
        if j + 1 < rest.len() {
            assert(all[i + 1] == rest[j + 1]);
        }
        if j + 2 < rest.len() {
            assert(all[i + 2] == rest[j + 2]);
        }
        assert(path_at(all, i + 1) == path_at(rest, j + 1));
        assert(path_at(all, i + 2) == path_at(rest, j + 2));
        lemma_records_shift(front, rest, j + 1);
        if j + 2 <= rest.len() {
            lemma_records_shift(front, rest, j + 2);
        }
        if j + 3 <= rest.len() {
            lemma_records_shift(front, rest, j + 3);
        }
    }
}

/// A complete record with one path, and after it what the rest of the
/// diff holds.
pub proof fn lemma_diff_one_path(status: Seq<char>, path: Seq<char>, tail: Seq<char>)
    requires
        status_of(status) matches Some(s) && !two_paths(s),
        !has_char(status, '\0'),
        path.len() > 0,
        !has_char(path, '\0'),
    ensures
        diff_records(status + seq!['\0'] + (path + seq!['\0'] + tail)) == seq![
            ChangeModel { status: status_of(status)->0, path, new_path: None },
        ] + diff_records(tail),
{
    let nul = '\0';
    let rest = path + seq![nul] + tail;
    lemma_split_join(status, nul, rest);
    lemma_split_join(path, nul, tail);
    lemma_split_some(tail, nul);
    let front = seq![status, path];
    let tokens = split(status + seq![nul] + rest, nul);
    assert(tokens =~= front + split(tail, nul));
    assert(tokens[0] == status && tokens[1] == path);
    assert(path_at(tokens, 1));
    lemma_records_shift(front, split(tail, nul), 0);
}

/// A complete record with two paths, and after it what the rest of the
/// diff holds.
pub proof fn lemma_diff_two_paths(
    status: Seq<char>,
    path: Seq<char>,
    new_path: Seq<char>,
    tail: Seq<char>,
)
    requires
        status_of(status) matches Some(s) && two_paths(s),
        !has_char(status, '\0'),
        path.len() > 0,
        !has_char(path, '\0'),
        new_path.len() > 0,
        !has_char(new_path, '\0'),
    ensures
        diff_records(
            status + seq!['\0'] + (path + seq!['\0'] + (new_path + seq!['\0'] + tail)),
        ) == seq![ChangeModel { status: status_of(status)->0, path, new_path: Some(new_path) }]
            + diff_records(tail),
{
    let nul = '\0';
    let last = new_path + seq![nul] + tail;
    let rest = path + seq![nul] + last;
    lemma_split_join(status, nul, rest);
    lemma_split_join(path, nul, last);
    lemma_split_join(new_path, nul, tail);
    lemma_split_some(tail, nul);
    let front = seq![status, path, new_path];
    let tokens = split(status + seq![nul] + rest, nul);
    assert(tokens =~= front + split(tail, nul));
    assert(tokens[0] == status && tokens[1] == path && tokens[2] == new_path);
    assert(path_at(tokens, 1) && path_at(tokens, 2));
    lemma_records_shift(front, split(tail, nul), 0);
}

/// A status token that stands for no status is passed over: the diff
/// holds what the rest of it holds.
pub proof fn lemma_diff_unknown_status(status: Seq<char>, tail: Seq<char>)
    requires
        status.len() > 0,
        status_of(status) is None,
        !has_char(status, '\0'),
    ensures
        diff_records(status + seq!['\0'] + tail) == diff_records(tail),
{
    let nul = '\0';
    lemma_split_join(status, nul, tail);
    let tokens = split(status + seq![nul] + tail, nul);
    assert(tokens[0] == status);
    lemma_records_shift(seq![status], split(tail, nul), 0);
}

/// An empty status token ends the records: a diff that is empty or
/// begins with NUL holds none.
pub proof fn lemma_diff_empty_status(tail: Seq<char>)
    ensures
        diff_records(Seq::empty()) == Seq::<ChangeModel>::empty(),
        diff_records(seq!['\0'] + tail) == Seq::<ChangeModel>::empty(),
{
    let nul = '\0';
    lemma_split_empty(nul);
    let none = Seq::<char>::empty();
    assert(!has_char(none, nul));
    lemma_split_join(none, nul, tail);
    assert(none + seq![nul] + tail =~= seq![nul] + tail);
    assert(split(seq![nul] + tail, nul)[0] == none);
}

/// A record cut off before its path holds nothing: a status token alone,
/// or a status token and a path that no NUL ends.
pub proof fn lemma_diff_cut_off_path(status: Seq<char>, path: Seq<char>)
    requires
        !has_char(status, '\0'),
        !has_char(path, '\0'),
    ensures
        diff_records(status) == Seq::<ChangeModel>::empty(),
        diff_records(status + seq!['\0'] + path) == Seq::<ChangeModel>::empty(),
{
    let nul = '\0';
    lemma_split_whole(status, nul);
    let alone = split(status, nul);
    assert(alone =~= seq![status]);
    assert(!path_at(alone, 1));
    assert(records(alone, 1) =~= Seq::empty());
    assert(records(alone, 0) =~= Seq::empty());
    lemma_split_join(status, nul, path);
    lemma_split_whole(path, nul);
    let tokens = split(status + seq![nul] + path, nul);
    assert(tokens =~= seq![status, path]);
    assert(!path_at(tokens, 1) && !path_at(tokens, 2));
    assert(records(tokens, 2) =~= Seq::empty());
    assert(records(tokens, 1) =~= Seq::empty());
    assert(records(tokens, 0) =~= Seq::empty());
}

/// A record whose path is empty holds nothing, whatever follows.
pub proof fn lemma_diff_empty_path(status: Seq<char>, tail: Seq<char>)
    requires
        status_of(status) is Some,
        !has_char(status, '\0'),
    ensures
        diff_records(status + seq!['\0'] + (seq!['\0'] + tail)) == Seq::<ChangeModel>::empty(),
{
    let nul = '\0';
    let none = Seq::<char>::empty();
    assert(!has_char(none, nul));
    let rest = seq![nul] + tail;
    lemma_split_join(status, nul, rest);
    lemma_split_join(none, nul, tail);
    assert(none + seq![nul] + tail =~= rest);
    let tokens = split(status + seq![nul] + rest, nul);
    assert(tokens[0] == status);
    assert(tokens[1] == none);
    assert(!path_at(tokens, 1));
}

/// A record cut off before its second path holds nothing: the second
/// path is missing, empty, or not ended by NUL.
pub proof fn lemma_diff_cut_off_second_path(
    status: Seq<char>,
    path: Seq<char>,
    last: Seq<char>,
    tail: Seq<char>,
)
    requires
        status_of(status) matches Some(s) && two_paths(s),
        !has_char(status, '\0'),
        !has_char(path, '\0'),
        !has_char(last, '\0'),
    ensures
        diff_records(status + seq!['\0'] + (path + seq!['\0'] + last)) == Seq::<
            ChangeModel,
        >::empty(),
        diff_records(status + seq!['\0'] + (path + seq!['\0'] + (seq!['\0'] + tail))) == Seq::<
            ChangeModel,
        >::empty(),
{
    let nul = '\0';
    let none = Seq::<char>::empty();
    assert(!has_char(none, nul));
    {
        let rest = path + seq![nul] + last;
        lemma_split_join(status, nul, rest);
        lemma_split_join(path, nul, last);
        lemma_split_whole(last, nul);
        let tokens = split(status + seq![nul] + rest, nul);
        assert(tokens =~= seq![status, path, last]);
        assert(!path_at(tokens, 2));
    }
    {
        let after = seq![nul] + tail;
        let rest = path + seq![nul] + after;
        lemma_split_join(status, nul, rest);
        lemma_split_join(path, nul, after);
        lemma_split_join(none, nul, tail);
        assert(none + seq![nul] + tail =~= after);
        let tokens = split(status + seq![nul] + rest, nul);
        assert(tokens[0] == status);
        assert(tokens[2] == none);
        assert(!path_at(tokens, 2));
    }
}

/// A record as it stands in a diff: its status token and its paths.
pub struct RecordText {
    pub status: Seq<char>,
    pub path: Seq<char>,
    pub new_path: Option<Seq<char>>,
}

impl RecordText {
    /// Whether the record is complete: its status token stands for a
    /// status, it has as many paths as the status asks for, none of them
    /// empty, and no token holds NUL.
    pub open spec fn complete(self) -> bool {
        &&& status_of(self.status) is Some
        &&& two_paths(status_of(self.status)->0) <==> self.new_path is Some
        &&& !has_char(self.status, '\0')
        &&& self.path.len() > 0
        &&& !has_char(self.path, '\0')
        &&& self.new_path matches Some(second) ==> second.len() > 0 && !has_char(second, '\0')
    }

    /// The record read as a change.
    pub open spec fn change(self) -> ChangeModel {
        ChangeModel {
            status: status_of(self.status)->0,
            path: self.path,
            new_path: self.new_path,
        }
    }

    /// The text of the record, each token ended by NUL, with `tail`
    /// after it.
    pub open spec fn before(self, tail: Seq<char>) -> Seq<char> {
        self.status + seq!['\0'] + (self.path + seq!['\0'] + (match self.new_path {
            Some(second) => second + seq!['\0'] + tail,
            None => tail,
        }))
    }
}

/// The text of the records in their order, with `tail` after them.
pub open spec fn diff_text(list: Seq<RecordText>, tail: Seq<char>) -> Seq<char>
    decreases list.len(),
{
    if list.len() == 0 {
        tail
    } else {
        list[0].before(diff_text(list.drop_first(), tail))
    }
}

/// A diff of complete records followed by anything holds those records,
/// in their order, and after them what the rest holds. Where the rest is
/// garbage that holds nothing, an empty status token or a record that is
/// cut off, the diff holds exactly the records before it.
pub proof fn lemma_diff_of_records(list: Seq<RecordText>, tail: Seq<char>)
    requires
        forall|i: int| 0 <= i < list.len() ==> (#[trigger] list[i]).complete(),
    ensures
        diff_records(diff_text(list, tail)) == list.map_values(|r: RecordText| r.change())
            + diff_records(tail),
    decreases list.len(),
{
    let changes = list.map_values(|r: RecordText| r.change());
    if list.len() == 0 {
        assert(changes + diff_records(tail) =~= diff_records(tail));
    } else {
        let first = list[0];
        let others = list.drop_first();
        assert(first.complete());
        assert forall|i: int| 0 <= i < others.len() implies (#[trigger] others[i]).complete() by {
            assert(others[i] == list[i + 1]);
        }
        let rest = diff_text(others, tail);
        lemma_diff_of_records(others, tail);
        match first.new_path {
            Some(second) => {
                lemma_diff_two_paths(first.status, first.path, second, rest);
            },
            None => {
                lemma_diff_one_path(first.status, first.path, rest);
            },
        }
        assert(changes =~= seq![first.change()] + others.map_values(|r: RecordText| r.change()));
        assert(diff_records(diff_text(list, tail)) =~= changes + diff_records(tail));
    }
}

/// The diff `A`, NUL, `p`, NUL holds one record: `p` was added.
pub proof fn lemma_diff_added(p: Seq<char>)
    requires
        p.len() > 0,
        !has_char(p, '\0'),
    ensures
        diff_records(seq!['A'] + seq!['\0'] + (p + seq!['\0'] + Seq::empty())) == seq![
            ChangeModel { status: Status::Added, path: p, new_path: None },
        ],
{
    let status = seq!['A'];
    assert(!has_char(status, '\0')) by {
        if has_char(status, '\0') {
            let i = choose|i: int| 0 <= i < status.len() && status[i] == '\0';
            assert(status[i] == 'A');
        }
    }
    lemma_diff_one_path(status, p, Seq::empty());
    lemma_diff_empty_status(Seq::empty());
}

/// The diff `R` with a score, NUL, `a`, NUL, `b`, NUL holds one record:
/// `a` was renamed to `b`.
pub proof fn lemma_diff_renamed(score: Seq<char>, a: Seq<char>, b: Seq<char>)
    requires
        !has_char(score, '\0'),
        a.len() > 0,
        !has_char(a, '\0'),
        b.len() > 0,
        !has_char(b, '\0'),
    ensures
        diff_records(
            (seq!['R'] + score) + seq!['\0'] + (a + seq!['\0'] + (b + seq!['\0'] + Seq::empty())),
        ) == seq![ChangeModel { status: Status::Renamed, path: a, new_path: Some(b) }],
{
    let status = seq!['R'] + score;
    assert(!has_char(status, '\0')) by {
        if has_char(status, '\0') {
            let i = choose|i: int| 0 <= i < status.len() && status[i] == '\0';
            if i > 0 {
                assert(score[i - 1] == '\0');
            }
        }
    }
    assert(status[0] == 'R');
    assert(status != seq!['A']) by {
        assert(seq!['A'][0] == 'A');
    }
    assert(status != seq!['D']) by {
        assert(seq!['D'][0] == 'D');
    }
    lemma_diff_two_paths(status, a, b, Seq::empty());
    lemma_diff_empty_status(Seq::empty());
}

/// A renaming cut off before its second path asks for nothing: the diff
/// `R` with a score, NUL, `a`, NUL holds no record.
pub proof fn lemma_diff_renamed_cut_off(score: Seq<char>, a: Seq<char>)
    requires
        !has_char(score, '\0'),
        !has_char(a, '\0'),
    ensures
        diff_records((seq!['R'] + score) + seq!['\0'] + (a + seq!['\0'] + Seq::empty()))
            == Seq::<ChangeModel>::empty(),
{
    let status = seq!['R'] + score;
    assert(!has_char(status, '\0')) by {
        if has_char(status, '\0') {
            let i = choose|i: int| 0 <= i < status.len() && status[i] == '\0';
            if i > 0 {
                assert(score[i - 1] == '\0');
            }
        }
    }
    assert(status[0] == 'R');
    assert(status != seq!['A']) by {
        assert(seq!['A'][0] == 'A');
    }
    assert(status != seq!['D']) by {
        assert(seq!['D'][0] == 'D');
    }
    let none = Seq::<char>::empty();
    assert(!has_char(none, '\0'));
    lemma_diff_cut_off_second_path(status, a, none, none);
}

/// A change to a file that is no configuration file asks for nothing.
pub proof fn lemma_unknown_extension_ignored(
    change: ChangeModel,
    repo_path: Seq<char>,
    ignore: Seq<Seq<char>>,
)
    requires
        !valid_file(path_in(repo_path, change.path)),
    ensures
        steps_of(change, repo_path, ignore).len() == 0,
{
}

/// No change asks for a file to be loaded that is left out: every file to
/// load is a configuration file that is not ignored.
pub proof fn lemma_loads_are_accepted(
    changes: Seq<ChangeModel>,
    n: nat,
    repo_path: Seq<char>,
    ignore: Seq<Seq<char>>,
)
    requires
        n <= changes.len(),
    ensures
        forall|i: int|
            0 <= i < plan_of(changes, n, repo_path, ignore).len() ==> (#[trigger] plan_of(
                changes,
                n,
                repo_path,
                ignore,
            )[i] matches StepModel::Load { file, key } ==> !rejected(ignore, file)),
    decreases n,
{
    if n > 0 {
        lemma_loads_are_accepted(changes, (n - 1) as nat, repo_path, ignore);
        let before = plan_of(changes, (n - 1) as nat, repo_path, ignore);
        let more = steps_of(changes[n - 1], repo_path, ignore);
        let all = plan_of(changes, n, repo_path, ignore);
        assert forall|i: int| 0 <= i < all.len() implies (#[trigger] all[i] matches StepModel::Load {
            file,
            key,
        } ==> !rejected(ignore, file)) by {
            if i < before.len() {
                assert(all[i] == before[i]);
            } else {
                assert(all[i] == more[i - before.len()]);
            }
        }
    }
}

/// What a leaf stored under `key` makes of a cache: one assignment.
pub proof fn lemma_store_leaf(c: CacheModel<DatumModel>, key: Seq<char>, v: DatumModel)
    requires
        v.is_leaf(),
    ensures
        stored_value(c, key, v) == assign(c, key, v),
{
    let none = Seq::<(Seq<char>, DatumModel)>::empty();
    assert(!has_key(none, key));
    let flat = leaves(v, key, none);
    assert(flat =~= seq![(key, v)]);
    let index = refs(v, key, Seq::empty());
    assert(index.len() == 0);
    reveal_with_fuel(assign_all, 2);
    assert(assign_all(c, flat, 1) == assign(c, key, v));
}

/// A file that fails to decode leaves exactly one event in the log of a
/// cache that did not hold `Undefined` under its key: the insert of
/// `Undefined` under that key.
pub proof fn lemma_decode_error_event(
    c: CacheModel<DatumModel>,
    key: Seq<char>,
    log: Seq<EventModel<DatumModel>>,
)
    requires
        c.events == Some(log),
        lookup(c.entries, key) != Some(DatumModel::Undefined),
    ensures
        stored_value(c, key, DatumModel::Undefined).events == Some(
            log.push(EventModel::Insert { key, value: DatumModel::Undefined }),
        ),
{
    lemma_store_leaf(c, key, DatumModel::Undefined);
}

/// Inserting items that a cache holds already changes nothing.
pub proof fn lemma_assign_held(c: CacheModel<DatumModel>, items: Entries<DatumModel>, n: nat)
    requires
        n <= items.len(),
        forall|i: int|
            0 <= i < n ==> lookup(c.entries, (#[trigger] items[i]).0) == Some(items[i].1),
    ensures
        assign_all(c, items, n) == c,
    decreases n,
{
    if n > 0 {
        lemma_assign_held(c, items, (n - 1) as nat);
        assert(lookup(c.entries, items[n - 1].0) == Some(items[n - 1].1));
    }
}

/// Storing a document again in a cache that holds all of it, every leaf
/// and every reference record under its path, changes nothing and records
/// nothing.
pub proof fn lemma_store_again(
    c: CacheModel<DatumModel>,
    flat: Entries<DatumModel>,
    index: Entries<RefModel>,
)
    requires
        forall|i: int|
            0 <= i < flat.len() ==> lookup(c.entries, (#[trigger] flat[i]).0) == Some(flat[i].1),
        forall|i: int|
            0 <= i < index.len() ==> lookup(c.entries, (#[trigger] index[i]).0) == Some(
                ref_value(index[i].1),
            ),
    ensures
        stored_document(c, flat, index) == c,
{
    lemma_assign_held(c, flat, flat.len());
    let listed = ref_entries(index);
    assert forall|i: int| 0 <= i < listed.len() implies lookup(
        c.entries,
        (#[trigger] listed[i]).0,
    ) == Some(listed[i].1) by {
        assert(listed[i] == (index[i].0, ref_value(index[i].1)));
    }
    lemma_assign_held(c, listed, index.len());
}

/// A leaf stored once more under the same key, in a cache that has the
/// key or room for it, leaves the cache as the first storing left it.
pub proof fn lemma_store_leaf_twice(c: CacheModel<DatumModel>, key: Seq<char>, v: DatumModel)
    requires
        c.wf(),
        v.is_leaf(),
    ensures
        stored_value(stored_value(c, key, v), key, v) == stored_value(c, key, v),
{
    lemma_store_leaf(c, key, v);
    let once = stored_value(c, key, v);
    lemma_store_leaf(once, key, v);
    if lookup(c.entries, key) != Some(v) {
        crate::cache_laws::lemma_stored_value(c, key, v);
    }
}

/// No key of `a` is a key of `b`.
pub open spec fn disjoint_keys<A, B>(a: Entries<A>, b: Entries<B>) -> bool {
    forall|i: int, j: int|
        0 <= i < a.len() && 0 <= j < b.len() ==> (#[trigger] a[i]).0 != (#[trigger] b[j]).0
}

/// Items of distinct keys, inserted into a cache that has room for all of
/// them, are all held afterwards, nothing is evicted, and what stands
/// under other keys stays.
pub proof fn lemma_assign_all_with_room(
    c: CacheModel<DatumModel>,
    items: Entries<DatumModel>,
    n: nat,
)
    requires
        c.wf(),
        sorted(items),
        n <= items.len(),
        c.entries.len() + n <= c.capacity,
    ensures
        assign_all(c, items, n).wf(),
        assign_all(c, items, n).capacity == c.capacity,
        assign_all(c, items, n).entries.len() <= c.entries.len() + n,
        forall|i: int|
            0 <= i < n ==> lookup(assign_all(c, items, n).entries, (#[trigger] items[i]).0)
                == Some(items[i].1),
        forall|k: Seq<char>|
            !has_key(items.take(n as int), k) ==> #[trigger] lookup(
                assign_all(c, items, n).entries,
                k,
            ) == lookup(c.entries, k),
    decreases n,
{
    if n > 0 {
        let m = (n - 1) as nat;
        lemma_assign_all_with_room(c, items, m);
        let c1 = assign_all(c, items, m);
        let k = items[n - 1].0;
        let v = items[n - 1].1;
        let after = assign_all(c, items, n);
        assert(after == assign(c1, k, v));
        lemma_put(c1.entries, k, v);
        if lookup(c1.entries, k) != Some(v) {
            if !has_key(c1.entries, k) {
                assert(c1.after_eviction() == c1.entries);
                lemma_place_sorted(c1.entries, k, v);
            }
            assert(after.entries == put(c1.entries, k, v));
        }
        assert forall|i: int| 0 <= i < n implies lookup(after.entries, (#[trigger] items[i]).0)
            == Some(items[i].1) by {
            if i < n - 1 {
                assert(lex_lt(items[i].0, items[n - 1].0));
                lemma_lex_lt_irreflexive(k);
                assert(items[i].0 != k);
            }
        }
        assert forall|other: Seq<char>| !has_key(items.take(n as int), other) implies lookup(
            after.entries,
            other,
        ) == lookup(c.entries, other) by {
            let upto = items.take(n as int);
            assert(upto[n - 1] == items[n - 1]);
            assert(other != k);
            if has_key(items.take(m as int), other) {
                let i = index_of(items.take(m as int), other);
                assert(upto[i] == items.take(m as int)[i]);
            }
            assert(lookup(c1.entries, other) == lookup(c.entries, other));
            if after != c1 {
                assert(lookup(put(c1.entries, k, v), other) == lookup(c1.entries, other));
            }
        }
    }
}

/// A document whose leaves and reference records have no path in common,
/// stored in a cache that has room for all of them, is held whole:
/// nothing is evicted, and what stands under other keys stays.
pub proof fn lemma_store_with_room(
    c: CacheModel<DatumModel>,
    flat: Entries<DatumModel>,
    index: Entries<RefModel>,
)
    requires
        c.wf(),
        sorted(flat),
        sorted(index),
        disjoint_keys(flat, index),
        c.entries.len() + flat.len() + index.len() <= c.capacity,
    ensures
        stored_document(c, flat, index).wf(),
        stored_document(c, flat, index).capacity == c.capacity,
        stored_document(c, flat, index).entries.len() <= c.entries.len() + flat.len()
            + index.len(),
        forall|i: int|
            0 <= i < flat.len() ==> lookup(
                stored_document(c, flat, index).entries,
                (#[trigger] flat[i]).0,
            ) == Some(flat[i].1),
        forall|i: int|
            0 <= i < index.len() ==> lookup(
                stored_document(c, flat, index).entries,
                (#[trigger] index[i]).0,
            ) == Some(ref_value(index[i].1)),
        forall|k: Seq<char>|
            !has_key(flat, k) && !has_key(index, k) ==> #[trigger] lookup(
                stored_document(c, flat, index).entries,
                k,
            ) == lookup(c.entries, k),
{
    lemma_assign_all_with_room(c, flat, flat.len());
    let middle = assign_all(c, flat, flat.len());
    let listed = ref_entries(index);
    assert(same_keys(index, listed));
    lemma_same_keys(index, listed, Seq::empty());
    lemma_assign_all_with_room(middle, listed, index.len());
    let after = stored_document(c, flat, index);
    assert(flat.take(flat.len() as int) =~= flat);
    assert(listed.take(index.len() as int) =~= listed);
    assert forall|k: Seq<char>| has_key(listed, k) implies has_key(index, k) by {
        let j = index_of(listed, k);
        assert(listed[j].0 == index[j].0);
    }
    assert forall|i: int| 0 <= i < flat.len() implies lookup(after.entries, (#[trigger] flat[i]).0)
        == Some(flat[i].1) by {
        let k = flat[i].0;
        if has_key(index, k) {
            let j = index_of(index, k);
            assert(index[j].0 == flat[i].0);
        }
        assert(lookup(after.entries, k) == lookup(middle.entries, k));
    }
    assert forall|i: int| 0 <= i < index.len() implies lookup(
        after.entries,
        (#[trigger] index[i]).0,
    ) == Some(ref_value(index[i].1)) by {
        assert(listed[i] == (index[i].0, ref_value(index[i].1)));
    }
    assert forall|k: Seq<char>| !has_key(flat, k) && !has_key(index, k) implies lookup(
        after.entries,
        k,
    ) == lookup(c.entries, k) by {
        assert(lookup(after.entries, k) == lookup(middle.entries, k));
        assert(lookup(middle.entries, k) == lookup(c.entries, k));
    }
}

/// A document whose leaves and reference records have no path in common,
/// stored again in a cache that had room for all of them, changes nothing
/// and records nothing.
pub proof fn lemma_store_twice_with_room(
    c: CacheModel<DatumModel>,
    flat: Entries<DatumModel>,
    index: Entries<RefModel>,
)
    requires
        c.wf(),
        sorted(flat),
        sorted(index),
        disjoint_keys(flat, index),
        c.entries.len() + flat.len() + index.len() <= c.capacity,
    ensures
        stored_document(stored_document(c, flat, index), flat, index) == stored_document(
            c,
            flat,
            index,
        ),
{
    lemma_store_with_room(c, flat, index);
    lemma_store_again(stored_document(c, flat, index), flat, index);
}

/// A document none of whose paths is both a leaf and a container, stored
/// under a key in a cache that has room for all of its entries, leaves
/// the cache the same when it is stored again: the same bytes, decoded to
/// the same document, give the same cache.
pub proof fn lemma_store_value_twice_with_room(
    c: CacheModel<DatumModel>,
    key: Seq<char>,
    v: DatumModel,
)
    requires
        c.wf(),
        disjoint_keys(leaves(v, key, Seq::empty()), refs(v, key, Seq::empty())),
        c.entries.len() + leaves(v, key, Seq::empty()).len() + refs(v, key, Seq::empty()).len()
            <= c.capacity,
    ensures
        stored_value(stored_value(c, key, v), key, v) == stored_value(c, key, v),
{
    let none_flat = Seq::<(Seq<char>, DatumModel)>::empty();
    let none_index = Seq::<(Seq<char>, RefModel)>::empty();
    assert forall|k: Seq<char>| !has_key(none_index, k) by {}
    crate::payload_laws::lemma_node_closed(v, key, none_flat, none_index);
    lemma_store_twice_with_room(c, leaves(v, key, none_flat), refs(v, key, none_index));
}

/// Applying a `Load` step again with the same document, on a cache that
/// holds all of the document since the first time, changes nothing and
/// records nothing.
pub proof fn lemma_same_document_twice(
    c: CacheModel<DatumModel>,
    file: Seq<char>,
    key: Seq<char>,
    document: DatumModel,
)
    requires
        ({
            let once = applied(c, StepModel::Load { file, key }, document);
            let flat = leaves(document, key, Seq::empty());
            let index = refs(document, key, Seq::empty());
            &&& forall|i: int|
                0 <= i < flat.len() ==> lookup(once.entries, (#[trigger] flat[i]).0) == Some(
                    flat[i].1,
                )
            &&& forall|i: int|
                0 <= i < index.len() ==> lookup(once.entries, (#[trigger] index[i]).0) == Some(
                    ref_value(index[i].1),
                )
        }),
    ensures
        applied(
            applied(c, StepModel::Load { file, key }, document),
            StepModel::Load { file, key },
            document,
        ) == applied(c, StepModel::Load { file, key }, document),
{
    let once = applied(c, StepModel::Load { file, key }, document);
    lemma_store_again(
        once,
        leaves(document, key, Seq::empty()),
        refs(document, key, Seq::empty()),
    );
}

/// A renaming of `a` to `b` and then of `b` back to `a`, of a file that
/// decodes to a leaf, restores what the cache held: the same entries in
/// the same order.
pub proof fn lemma_rename_there_and_back(
    c: CacheModel<DatumModel>,
    a: Seq<char>,
    b: Seq<char>,
    v: DatumModel,
)
    requires
        c.wf(),
        v.is_leaf(),
        a != b,
        lookup(c.entries, a) == Some(v),
        !has_key(c.entries, b),
        c.entries.len() < c.capacity,
    ensures
        discard(stored_value(discard(stored_value(c, b, v), a), a, v), b).entries == c.entries,
{
    lemma_store_leaf(c, b, v);
    let c1 = stored_value(c, b, v);
    assert(c1.entries == put(c.entries, b, v));
    lemma_put(c.entries, b, v);
    let c2 = discard(c1, a);
    assert(has_key(c1.entries, a));
    lemma_remove(c1.entries, a);
    assert(c2.entries == c1.entries.remove(index_of(c1.entries, a)));
    lemma_store_leaf(c2, a, v);
    let c3 = stored_value(c2, a, v);
    lemma_place_sorted(c.entries, b, v);
    assert(c1.entries.len() == c.entries.len() + 1);
    assert(0 <= index_of(c1.entries, a) < c1.entries.len());
    assert(c2.entries.len() == c.entries.len());
    assert(c3.entries == put(c2.entries, a, v));
    lemma_put(c2.entries, a, v);
    let c4 = discard(c3, b);
    assert(has_key(c3.entries, b));
    lemma_remove(c3.entries, b);
    assert(c4.entries == c3.entries.remove(index_of(c3.entries, b)));
    assert forall|k: Seq<char>| lookup(c4.entries, k) == lookup(c.entries, k) by {
        if k == b {
        } else if k == a {
        } else {
            assert(lookup(c1.entries, k) == lookup(c.entries, k));
            assert(lookup(c2.entries, k) == lookup(c1.entries, k));
            assert(lookup(c3.entries, k) == lookup(c2.entries, k));
            assert(lookup(c4.entries, k) == lookup(c3.entries, k));
        }
    }
    lemma_sorted_unique(c4.entries, c.entries);
}

/// An object with one member, `name`, that holds `leaf`.
pub open spec fn single(name: Seq<char>, leaf: DatumModel) -> DatumModel {
    DatumModel::Object(seq![(name, leaf)])
}

/// The record of an object at `key` with the one member `name`.
pub open spec fn single_record(key: Seq<char>, name: Seq<char>) -> RefModel {
    RefModel { kind: RefType::Object, children: seq![child_path(key, name)] }
}

/// An object with one member that holds a leaf flattens into that leaf
/// under the path of the member, and the record of the object under its
/// own path.
pub proof fn lemma_single_flat(name: Seq<char>, leaf: DatumModel, key: Seq<char>)
    requires
        leaf.is_leaf(),
    ensures
        leaves(single(name, leaf), key, Seq::empty()) == seq![(child_path(key, name), leaf)],
        refs(single(name, leaf), key, Seq::empty()) == seq![(key, single_record(key, name))],
{
    let members = seq![(name, leaf)];
    let none_flat = Seq::<(Seq<char>, DatumModel)>::empty();
    let none_index = Seq::<(Seq<char>, RefModel)>::empty();
    let path = child_path(key, name);
    assert(!has_key(none_flat, path));
    assert(!has_key(none_index, key));
    assert(members[0] == (name, leaf));
    assert(leaves_of_members(members, key, 0, none_flat) == none_flat);
    assert(leaves_of_members(members, key, 1, none_flat) == leaves(leaf, path, none_flat));
    assert(leaves(leaf, path, none_flat) == put(none_flat, path, leaf));
    assert(put(none_flat, path, leaf) =~= seq![(path, leaf)]);
    assert(refs_of_members(members, key, 0, none_index) == none_index);
    assert(refs_of_members(members, key, 1, none_index) == refs(leaf, path, none_index));
    assert(refs(leaf, path, none_index) == none_index);
    assert(member_paths(members, key) =~= seq![path]);
    assert(put(none_index, key, single_record(key, name)) =~= seq![
        (key, single_record(key, name)),
    ]);
}

/// A file added, then modified, then renamed: where the file holds an
/// object with one member that holds a leaf, and the cache began empty
/// with room for four entries, the leaf stands under the path of the
/// member below the new key, the new key has its record, and the old key
/// is gone. The leaf below the old key stays: only the key of the file
/// leaves the cache.
pub proof fn lemma_added_modified_renamed(
    c: CacheModel<DatumModel>,
    old_file: Seq<char>,
    old_key: Seq<char>,
    new_file: Seq<char>,
    new_key: Seq<char>,
    name: Seq<char>,
    leaf: DatumModel,
)
    requires
        c.wf(),
        c.entries.len() == 0,
        c.capacity >= 4,
        leaf.is_leaf(),
        old_key != new_key,
        child_path(old_key, name) != old_key,
        child_path(old_key, name) != new_key,
        child_path(new_key, name) != old_key,
        child_path(new_key, name) != new_key,
    ensures
        ({
            let document = single(name, leaf);
            let load_old = StepModel::Load { file: old_file, key: old_key };
            let load_new = StepModel::Load { file: new_file, key: new_key };
            let remove_old = StepModel::Remove { key: old_key };
            let after = applied(
                applied(
                    applied(applied(c, load_old, document), load_old, document),
                    load_new,
                    document,
                ),
                remove_old,
                document,
            );
            &&& lookup(after.entries, child_path(new_key, name)) == Some(leaf)
            &&& lookup(after.entries, new_key) == Some(ref_value(single_record(new_key, name)))
            &&& !has_key(after.entries, old_key)
            &&& lookup(after.entries, child_path(old_key, name)) == Some(leaf)
        }),
{
    let document = single(name, leaf);
    let old_path = child_path(old_key, name);
    let new_path = child_path(new_key, name);
    lemma_single_flat(name, leaf, old_key);
    lemma_single_flat(name, leaf, new_key);
    let old_flat = seq![(old_path, leaf)];
    let old_index = seq![(old_key, single_record(old_key, name))];
    let new_flat = seq![(new_path, leaf)];
    let new_index = seq![(new_key, single_record(new_key, name))];
    assert(old_flat[0].0 == old_path && old_index[0].0 == old_key);
    assert(new_flat[0].0 == new_path && new_index[0].0 == new_key);
    lemma_store_with_room(c, old_flat, old_index);
    let c1 = stored_document(c, old_flat, old_index);
    lemma_store_twice_with_room(c, old_flat, old_index);
    let c2 = stored_document(c1, old_flat, old_index);
    assert(c2 == c1);
    lemma_store_with_room(c2, new_flat, new_index);
    let c3 = stored_document(c2, new_flat, new_index);
    assert(!has_key(new_flat, old_key) && !has_key(new_index, old_key)) by {
        if has_key(new_flat, old_key) {
            assert(new_flat[index_of(new_flat, old_key)].0 == new_path);
        }
        if has_key(new_index, old_key) {
            assert(new_index[index_of(new_index, old_key)].0 == new_key);
        }
    }
    assert(!has_key(new_flat, old_path) && !has_key(new_index, old_path)) by {
        if has_key(new_flat, old_path) {
            assert(new_flat[index_of(new_flat, old_path)].0 == new_path);
            lemma_child_path_injective(old_key, new_key, name);
        }
        if has_key(new_index, old_path) {
            assert(new_index[index_of(new_index, old_path)].0 == new_key);
        }
    }
    assert(lookup(c1.entries, old_flat[0].0) == Some(leaf));
    assert(lookup(c1.entries, old_index[0].0) is Some);
    assert(lookup(c3.entries, old_key) == lookup(c2.entries, old_key));
    assert(lookup(c3.entries, old_path) == lookup(c2.entries, old_path));
    assert(lookup(c3.entries, new_flat[0].0) == Some(leaf));
    assert(lookup(c3.entries, new_index[0].0) == Some(ref_value(new_index[0].1)));
    assert(has_key(c3.entries, old_key));
    lemma_remove(c3.entries, old_key);
}

/// A file added, then modified, then renamed under a new key asks for
/// four steps: the file is loaded twice, the new file is loaded, and the
/// old key leaves the cache.
pub proof fn lemma_plan_added_modified_renamed(
    path: Seq<char>,
    new_path: Seq<char>,
    repo_path: Seq<char>,
    ignore: Seq<Seq<char>>,
)
    requires
        !rejected(ignore, path_in(repo_path, path)),
        !rejected(ignore, path_in(repo_path, new_path)),
        cache_key(repo_path, path_in(repo_path, path)) != cache_key(
            repo_path,
            path_in(repo_path, new_path),
        ),
    ensures
        ({
            let file = path_in(repo_path, path);
            let new_file = path_in(repo_path, new_path);
            let key = cache_key(repo_path, file);
            let new_key = cache_key(repo_path, new_file);
            let changes = seq![
                ChangeModel { status: Status::Added, path, new_path: None },
                ChangeModel { status: Status::Modified, path, new_path: None },
                ChangeModel { status: Status::Renamed, path, new_path: Some(new_path) },
            ];
            plan_of(changes, 3, repo_path, ignore) == seq![
                StepModel::Load { file, key },
                StepModel::Load { file, key },
                StepModel::Load { file: new_file, key: new_key },
                StepModel::Remove { key },
            ]
        }),
{
    let changes = seq![
        ChangeModel { status: Status::Added, path, new_path: None },
        ChangeModel { status: Status::Modified, path, new_path: None },
        ChangeModel { status: Status::Renamed, path, new_path: Some(new_path) },
    ];
    reveal_with_fuel(plan_of, 4);
    assert(plan_of(changes, 0, repo_path, ignore) =~= Seq::empty());
    let file = path_in(repo_path, path);
    let new_file = path_in(repo_path, new_path);
    let key = cache_key(repo_path, file);
    let new_key = cache_key(repo_path, new_file);
    assert(plan_of(changes, 3, repo_path, ignore) =~= seq![
        StepModel::Load { file, key },
        StepModel::Load { file, key },
        StepModel::Load { file: new_file, key: new_key },
        StepModel::Remove { key },
    ]);
}

/// The paths of a child of one name below two roots are the same only
/// where the roots are.
pub proof fn lemma_child_path_injective(a: Seq<char>, b: Seq<char>, name: Seq<char>)
    requires
        child_path(a, name) == child_path(b, name),
        child_path(a, name) != a,
        child_path(b, name) != b,
    ensures
        a == b,
{
    let pa = child_path(a, name);
    let pb = child_path(b, name);
    if a.len() == 0 && b.len() == 0 {
        assert(a =~= b);
    } else if a.len() == 0 {
        assert(pb.len() == b.len() + 1 + name.len());
        assert(pa.len() == name.len());
    } else if b.len() == 0 {
        assert(pa.len() == a.len() + 1 + name.len());
        assert(pb.len() == name.len());
    } else {
        assert(pa.len() == a.len() + 1 + name.len());
        assert(pb.len() == b.len() + 1 + name.len());
        assert(a =~= pa.take(a.len() as int));
        assert(b =~= pb.take(b.len() as int));
    }
}

} // verus!
