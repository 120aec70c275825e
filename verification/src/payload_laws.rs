//! Laws of flattening.

use crate::entries::{has_key, lemma_put, lookup, put, sorted, Entries};
use crate::payload::{
    item_paths, leaves, leaves_of_items, leaves_of_members, member_paths, refs, refs_of_items,
    refs_of_members, RefModel, RefType,
};
use crate::text::{child_path, decimal};
use crate::datum::{Datum, DatumModel};
use vstd::prelude::*;

verus! {

/// Every child that a reference record of `index` lists has an entry of
/// its own, among the leaves or among the records.
pub open spec fn children_present(flat: Entries<DatumModel>, index: Entries<RefModel>) -> bool {
    forall|c: Seq<char>, i: int|
        has_key(index, c) && 0 <= i < lookup(index, c)->0.children.len() ==> {
            let child = #[trigger] lookup(index, c)->0.children[i];
            has_key(flat, child) || has_key(index, child)
        }
}

/// Every key of `before` is a key of `after`.
pub open spec fn keys_stay<V>(before: Entries<V>, after: Entries<V>) -> bool {
    forall|k: Seq<char>| has_key(before, k) ==> has_key(after, k)
}

/// Flattening is a function of the root key and of the content of the
/// document: equal inputs give equal leaves and equal reference records,
/// the order of the children included.
pub proof fn lemma_flatten_is_function(a: Datum, b: Datum, root_a: Seq<char>, root_b: Seq<char>)
    requires
        a@ == b@,
        root_a == root_b,
    ensures
        leaves(a@, root_a, Seq::empty()) == leaves(b@, root_b, Seq::empty()),
        refs(a@, root_a, Seq::empty()) == refs(b@, root_b, Seq::empty()),
{
}

/// In what flattening gives, every child listed under a container is a
/// leaf or a container with a record of its own.
pub proof fn lemma_flatten_children_present(v: DatumModel, root: Seq<char>)
    ensures
        children_present(leaves(v, root, Seq::empty()), refs(v, root, Seq::empty())),
{
    let none_flat = Seq::<(Seq<char>, DatumModel)>::empty();
    let none_index = Seq::<(Seq<char>, RefModel)>::empty();
    assert(!exists|i: int| 0 <= i < none_index.len() && (#[trigger] none_index[i]).0 == root);
    assert forall|c: Seq<char>| !has_key(none_index, c) by {}
    lemma_node_closed(v, root, none_flat, none_index);
}

/// Flattening a document into maps whose listed children are present
/// leaves them so, keeps their keys, and gives the root an entry.
pub proof fn lemma_node_closed(
    v: DatumModel,
    prefix: Seq<char>,
    flat: Entries<DatumModel>,
    index: Entries<RefModel>,
)
    requires
        sorted(flat),
        sorted(index),
        children_present(flat, index),
    ensures
        sorted(leaves(v, prefix, flat)),
        sorted(refs(v, prefix, index)),
        children_present(leaves(v, prefix, flat), refs(v, prefix, index)),
        keys_stay(flat, leaves(v, prefix, flat)),
        keys_stay(index, refs(v, prefix, index)),
        has_key(leaves(v, prefix, flat), prefix) || has_key(refs(v, prefix, index), prefix),
    decreases v, 0nat,
{
    match v {
        DatumModel::Object(members) => {
            lemma_members_closed(members, prefix, members.len(), flat, index);
            let flat1 = leaves_of_members(members, prefix, members.len(), flat);
            let index1 = refs_of_members(members, prefix, members.len(), index);
            let record = RefModel {
                kind: RefType::Object,
                children: member_paths(members, prefix),
            };
            lemma_record_closed(flat1, index1, prefix, record);
        },
        DatumModel::Array(items) => {
            lemma_items_closed(items, prefix, items.len(), flat, index);
            let flat1 = leaves_of_items(items, prefix, items.len(), flat);
            let index1 = refs_of_items(items, prefix, items.len(), index);
            let record = RefModel {
                kind: RefType::Array,
                children: item_paths(items.len(), prefix),
            };
            lemma_record_closed(flat1, index1, prefix, record);
        },
        _ => {
            lemma_put(flat, prefix, v);
            let flat1 = put(flat, prefix, v);
            assert forall|c: Seq<char>, i: int|
                has_key(index, c) && 0 <= i < lookup(index, c)->0.children.len() implies {
                let child = #[trigger] lookup(index, c)->0.children[i];
                has_key(flat1, child) || has_key(index, child)
            } by {
                let child = lookup(index, c)->0.children[i];
                assert(has_key(flat, child) || has_key(index, child));
            }
        },
    }
}

/// Putting a record whose children are all present keeps the listed
/// children present.
pub proof fn lemma_record_closed(
    flat: Entries<DatumModel>,
    index: Entries<RefModel>,
    prefix: Seq<char>,
    record: RefModel,
)
    requires
        sorted(flat),
        sorted(index),
        children_present(flat, index),
        forall|i: int|
            0 <= i < record.children.len() ==> has_key(flat, #[trigger] record.children[i])
                || has_key(index, record.children[i]),
    ensures
        sorted(put(index, prefix, record)),
        children_present(flat, put(index, prefix, record)),
        keys_stay(index, put(index, prefix, record)),
        has_key(put(index, prefix, record), prefix),
{
    lemma_put(index, prefix, record);
    let index1 = put(index, prefix, record);
    assert forall|c: Seq<char>, i: int|
        has_key(index1, c) && 0 <= i < lookup(index1, c)->0.children.len() implies {
        let child = #[trigger] lookup(index1, c)->0.children[i];
        has_key(flat, child) || has_key(index1, child)
    } by {
        if c == prefix {
            assert(lookup(index1, c) == Some(record));
            let child = record.children[i];
            assert(has_key(flat, child) || has_key(index, child));
        } else {
            assert(lookup(index1, c) == lookup(index, c));
            assert(has_key(index, c));
            let child = lookup(index, c)->0.children[i];
            assert(has_key(flat, child) || has_key(index, child));
        }
    }
}

/// The members of an object, flattened one after the other, leave the
/// listed children present and give each member an entry.
pub proof fn lemma_members_closed(
    members: Seq<(Seq<char>, DatumModel)>,
    prefix: Seq<char>,
    n: nat,
    flat: Entries<DatumModel>,
    index: Entries<RefModel>,
)
    requires
        n <= members.len(),
        sorted(flat),
        sorted(index),
        children_present(flat, index),
    ensures
        sorted(leaves_of_members(members, prefix, n, flat)),
        sorted(refs_of_members(members, prefix, n, index)),
        children_present(
            leaves_of_members(members, prefix, n, flat),
            refs_of_members(members, prefix, n, index),
        ),
        keys_stay(flat, leaves_of_members(members, prefix, n, flat)),
        keys_stay(index, refs_of_members(members, prefix, n, index)),
        forall|j: int|
            0 <= j < n ==> has_key(
                leaves_of_members(members, prefix, n, flat),
                #[trigger] member_paths(members, prefix)[j],
            ) || has_key(
                refs_of_members(members, prefix, n, index),
                member_paths(members, prefix)[j],
            ),
    decreases members, n,
{
    if n > 0 {
        let m = (n - 1) as nat;
        lemma_members_closed(members, prefix, m, flat, index);
        let flat1 = leaves_of_members(members, prefix, m, flat);
        let index1 = refs_of_members(members, prefix, m, index);
        lemma_node_closed(members[n - 1].1, child_path(prefix, members[n - 1].0), flat1, index1);
        let flat2 = leaves_of_members(members, prefix, n, flat);
        let index2 = refs_of_members(members, prefix, n, index);
        assert forall|j: int| 0 <= j < n implies has_key(
            flat2,
            #[trigger] member_paths(members, prefix)[j],
        ) || has_key(index2, member_paths(members, prefix)[j]) by {
            let path = member_paths(members, prefix)[j];
            if j < m {
                assert(has_key(flat1, path) || has_key(index1, path));
            }
        }
    }
}

/// The items of an array, flattened one after the other, leave the listed
/// children present and give each item an entry.
pub proof fn lemma_items_closed(
    items: Seq<DatumModel>,
    prefix: Seq<char>,
    n: nat,
    flat: Entries<DatumModel>,
    index: Entries<RefModel>,
)
    requires
        n <= items.len(),
        sorted(flat),
        sorted(index),
        children_present(flat, index),
    ensures
        sorted(leaves_of_items(items, prefix, n, flat)),
        sorted(refs_of_items(items, prefix, n, index)),
        children_present(
            leaves_of_items(items, prefix, n, flat),
            refs_of_items(items, prefix, n, index),
        ),
        keys_stay(flat, leaves_of_items(items, prefix, n, flat)),
        keys_stay(index, refs_of_items(items, prefix, n, index)),
        forall|j: int|
            0 <= j < n ==> has_key(
                leaves_of_items(items, prefix, n, flat),
                #[trigger] item_paths(items.len(), prefix)[j],
            ) || has_key(refs_of_items(items, prefix, n, index), item_paths(items.len(), prefix)[j]),
    decreases items, n,
{
    if n > 0 {
        let m = (n - 1) as nat;
        lemma_items_closed(items, prefix, m, flat, index);
        let flat1 = leaves_of_items(items, prefix, m, flat);
        let index1 = refs_of_items(items, prefix, m, index);
        lemma_node_closed(items[n - 1], child_path(prefix, decimal(m)), flat1, index1);
        let flat2 = leaves_of_items(items, prefix, n, flat);
        let index2 = refs_of_items(items, prefix, n, index);
        assert forall|j: int| 0 <= j < n implies has_key(
            flat2,
            #[trigger] item_paths(items.len(), prefix)[j],
        ) || has_key(index2, item_paths(items.len(), prefix)[j]) by {
            let path = item_paths(items.len(), prefix)[j];
            if j < m {
                assert(has_key(flat1, path) || has_key(index1, path));
            }
        }
    }
}

/// Every value of `flat` is a leaf.
pub open spec fn all_leaves(flat: Entries<DatumModel>) -> bool {
    forall|i: int| 0 <= i < flat.len() ==> (#[trigger] flat[i]).1.is_leaf()
}

/// Putting a leaf among leaves leaves leaves only.
pub proof fn lemma_put_leaf(flat: Entries<DatumModel>, k: Seq<char>, v: DatumModel)
    requires
        sorted(flat),
        all_leaves(flat),
        v.is_leaf(),
    ensures
        all_leaves(put(flat, k, v)),
{
    let after = put(flat, k, v);
    if has_key(flat, k) {
        let at = crate::entries::index_of(flat, k);
        assert forall|i: int| 0 <= i < after.len() implies (#[trigger] after[i]).1.is_leaf() by {
            if i != at {
                assert(after[i] == flat[i]);
            }
        }
    } else {
        crate::entries::lemma_place_sorted(flat, k, v);
        let at = crate::entries::rank(flat, k);
        assert forall|i: int| 0 <= i < after.len() implies (#[trigger] after[i]).1.is_leaf() by {
            if i < at {
                assert(after[i] == flat[i]);
            } else if i > at {
                assert(after[i] == flat[i - 1]);
            }
        }
    }
}

/// The leaves of a document are leaves: no array and no object stands
/// among them.
pub proof fn lemma_leaves_are_leaves(v: DatumModel, prefix: Seq<char>, flat: Entries<DatumModel>)
    requires
        sorted(flat),
        all_leaves(flat),
    ensures
        sorted(leaves(v, prefix, flat)),
        all_leaves(leaves(v, prefix, flat)),
    decreases v, 0nat,
{
    match v {
        DatumModel::Object(members) => {
            lemma_member_leaves_are_leaves(members, prefix, members.len(), flat);
        },
        DatumModel::Array(items) => {
            lemma_item_leaves_are_leaves(items, prefix, items.len(), flat);
        },
        _ => {
            lemma_put(flat, prefix, v);
            lemma_put_leaf(flat, prefix, v);
        },
    }
}

/// The leaves of the members of an object are leaves.
pub proof fn lemma_member_leaves_are_leaves(
    members: Seq<(Seq<char>, DatumModel)>,
    prefix: Seq<char>,
    n: nat,
    flat: Entries<DatumModel>,
)
    requires
        n <= members.len(),
        sorted(flat),
        all_leaves(flat),
    ensures
        sorted(leaves_of_members(members, prefix, n, flat)),
        all_leaves(leaves_of_members(members, prefix, n, flat)),
    decreases members, n,
{
    if n > 0 {
        lemma_member_leaves_are_leaves(members, prefix, (n - 1) as nat, flat);
        lemma_leaves_are_leaves(
            members[n - 1].1,
            child_path(prefix, members[n - 1].0),
            leaves_of_members(members, prefix, (n - 1) as nat, flat),
        );
    }
}

/// The leaves of the items of an array are leaves.
pub proof fn lemma_item_leaves_are_leaves(
    items: Seq<DatumModel>,
    prefix: Seq<char>,
    n: nat,
    flat: Entries<DatumModel>,
)
    requires
        n <= items.len(),
        sorted(flat),
        all_leaves(flat),
    ensures
        sorted(leaves_of_items(items, prefix, n, flat)),
        all_leaves(leaves_of_items(items, prefix, n, flat)),
    decreases items, n,
{
    if n > 0 {
        lemma_item_leaves_are_leaves(items, prefix, (n - 1) as nat, flat);
        lemma_leaves_are_leaves(
            items[n - 1],
            child_path(prefix, decimal((n - 1) as nat)),
            leaves_of_items(items, prefix, (n - 1) as nat, flat),
        );
    }
}

/// The record of a container stands under its own path: that of an
/// object lists the paths of its members, that of an array the paths of
/// its items by index.
pub proof fn lemma_root_record(v: DatumModel, prefix: Seq<char>)
    ensures
        match v {
            DatumModel::Object(members) => lookup(refs(v, prefix, Seq::empty()), prefix) == Some(
                RefModel { kind: RefType::Object, children: member_paths(members, prefix) },
            ),
            DatumModel::Array(items) => lookup(refs(v, prefix, Seq::empty()), prefix) == Some(
                RefModel { kind: RefType::Array, children: item_paths(items.len(), prefix) },
            ),
            _ => refs(v, prefix, Seq::empty()).len() == 0,
        },
{
    let none_flat = Seq::<(Seq<char>, DatumModel)>::empty();
    let none_index = Seq::<(Seq<char>, RefModel)>::empty();
    assert forall|c: Seq<char>| !has_key(none_index, c) by {}
    match v {
        DatumModel::Object(members) => {
            lemma_members_closed(members, prefix, members.len(), none_flat, none_index);
            lemma_put(
                refs_of_members(members, prefix, members.len(), none_index),
                prefix,
                RefModel { kind: RefType::Object, children: member_paths(members, prefix) },
            );
        },
        DatumModel::Array(items) => {
            lemma_items_closed(items, prefix, items.len(), none_flat, none_index);
            lemma_put(
                refs_of_items(items, prefix, items.len(), none_index),
                prefix,
                RefModel { kind: RefType::Array, children: item_paths(items.len(), prefix) },
            );
        },
        _ => {},
    }
}

} // verus!
