//! Decoded documents flattened into dotted paths: the leaves of a
//! document by path, and for each container the paths of its children.

use crate::datum::{canonical, normalize};
use crate::decode::{decode_json, decode_yaml, yaml_document};
use crate::entries::{put, Entries};
use crate::path_map::PathMap;
use crate::text::{
    chars_of, child_path, child_path_string, decimal, decimal_string, ends_with,
};
use crate::datum::{lemma_array_view, lemma_object_view, Datum, DatumModel};
use vstd::prelude::*;

verus! {

/// The kind of a container.
#[derive(Debug, PartialEq, Eq, Clone, Copy)]
pub enum RefType {
    Object,
    Array,
}

/// The reference record of a container: its kind and the dotted paths of
/// its children, in the order of the document.
#[derive(Debug, PartialEq, Clone)]
pub struct Ref {
    pub ref_type: RefType,
    pub items: Vec<String>,
}

/// The mathematical content of a [`Ref`].
pub struct RefModel {
    pub kind: RefType,
    pub children: Seq<Seq<char>>,
}

impl View for Ref {
    type V = RefModel;

    open spec fn view(&self) -> RefModel {
        RefModel { kind: self.ref_type, children: self.items@.map_values(|s: String| s@) }
    }
}

/// The value that stands for a reference record in a cache: an object
/// whose member `kind` names the kind of the container and whose member
/// `children` lists the paths of its children.
pub open spec fn ref_value(record: RefModel) -> DatumModel {
    DatumModel::Object(
        seq![
            (
                "kind"@,
                DatumModel::String(
                    match record.kind {
                        RefType::Object => "Object"@,
                        RefType::Array => "Array"@,
                    },
                ),
            ),
            (
                "children"@,
                DatumModel::Array(
                    record.children.map_values(|path: Seq<char>| DatumModel::String(path)),
                ),
            ),
        ],
    )
}

impl Ref {
    /// The value that stands for the record in a cache.
    pub fn to_value(&self) -> (v: Datum)
        ensures
            v@ == ref_value(self@),
    {
        let kind = match self.ref_type {
            RefType::Object => "Object",
            RefType::Array => "Array",
        };
        let mut children: Vec<Datum> = Vec::new();
        let mut i: usize = 0;
        while i < self.items.len()
            invariant
                0 <= i <= self.items.len(),
                children@.len() == i,
                forall|j: int|
                    0 <= j < i ==> (#[trigger] children@[j])@ == DatumModel::String(
                        self.items@[j]@,
                    ),
            decreases self.items.len() - i,
        {
            children.push(Datum::String(self.items[i].clone()));
            i += 1;
        }
        let listed = Datum::Array(children);
        proof {
            lemma_array_view(children);
            assert(listed@->Array_0 =~= self@.children.map_values(
                |path: Seq<char>| DatumModel::String(path),
            ));
        }
        let mut members: Vec<(String, Datum)> = Vec::new();
        members.push(("kind".to_owned(), Datum::String(kind.to_owned())));
        members.push(("children".to_owned(), listed));
        let v = Datum::Object(members);
        proof {
            lemma_object_view(members);
            assert(v@->Object_0 =~= ref_value(self@)->Object_0);
        }
        v
    }
}

/// The paths of the members of an object at `prefix`, in their order.
pub open spec fn member_paths(members: Seq<(Seq<char>, DatumModel)>, prefix: Seq<char>) -> Seq<
    Seq<char>,
> {
    Seq::new(members.len(), |i: int| child_path(prefix, members[i].0))
}

/// The paths of the `n` items of an array at `prefix`, by index.
pub open spec fn item_paths(n: nat, prefix: Seq<char>) -> Seq<Seq<char>> {
    Seq::new(n, |i: int| child_path(prefix, decimal(i as nat)))
}

/// The leaves of `v`, a document rooted at `prefix`, put into `acc` in
/// the order of the document: a leaf stands under its own path.
pub open spec fn leaves(v: DatumModel, prefix: Seq<char>, acc: Entries<DatumModel>) -> Entries<
    DatumModel,
>
    decreases v, 0nat,
{
    match v {
        DatumModel::Object(members) => leaves_of_members(members, prefix, members.len(), acc),
        DatumModel::Array(items) => leaves_of_items(items, prefix, items.len(), acc),
        _ => put(acc, prefix, v),
    }
}

/// The leaves of the first `n` members of an object at `prefix`.
pub open spec fn leaves_of_members(
    members: Seq<(Seq<char>, DatumModel)>,
    prefix: Seq<char>,
    n: nat,
    acc: Entries<DatumModel>,
) -> Entries<DatumModel>
    decreases members, n,
{
    if n == 0 || n > members.len() {
        acc
    } else {
        leaves(
            members[n - 1].1,
            child_path(prefix, members[n - 1].0),
            leaves_of_members(members, prefix, (n - 1) as nat, acc),
        )
    }
}

/// The leaves of the first `n` items of an array at `prefix`.
pub open spec fn leaves_of_items(
    items: Seq<DatumModel>,
    prefix: Seq<char>,
    n: nat,
    acc: Entries<DatumModel>,
) -> Entries<DatumModel>
    decreases items, n,
{
    if n == 0 || n > items.len() {
        acc
    } else {
        leaves(
            items[n - 1],
            child_path(prefix, decimal((n - 1) as nat)),
            leaves_of_items(items, prefix, (n - 1) as nat, acc),
        )
    }
}

/// The reference records of the containers of `v`, a document rooted at
/// `prefix`, put into `acc`: those of the children first, in the order of
/// the document, then that of the container itself.
pub open spec fn refs(v: DatumModel, prefix: Seq<char>, acc: Entries<RefModel>) -> Entries<
    RefModel,
>
    decreases v, 0nat,
{
    match v {
        DatumModel::Object(members) => put(
            refs_of_members(members, prefix, members.len(), acc),
            prefix,
            RefModel { kind: RefType::Object, children: member_paths(members, prefix) },
        ),
        DatumModel::Array(items) => put(
            refs_of_items(items, prefix, items.len(), acc),
            prefix,
            RefModel { kind: RefType::Array, children: item_paths(items.len(), prefix) },
        ),
        _ => acc,
    }
}

/// The reference records under the first `n` members of an object.
pub open spec fn refs_of_members(
    members: Seq<(Seq<char>, DatumModel)>,
    prefix: Seq<char>,
    n: nat,
    acc: Entries<RefModel>,
) -> Entries<RefModel>
    decreases members, n,
{
    if n == 0 || n > members.len() {
        acc
    } else {
        refs(
            members[n - 1].1,
            child_path(prefix, members[n - 1].0),
            refs_of_members(members, prefix, (n - 1) as nat, acc),
        )
    }
}

/// The reference records under the first `n` items of an array.
pub open spec fn refs_of_items(
    items: Seq<DatumModel>,
    prefix: Seq<char>,
    n: nat,
    acc: Entries<RefModel>,
) -> Entries<RefModel>
    decreases items, n,
{
    if n == 0 || n > items.len() {
        acc
    } else {
        refs(
            items[n - 1],
            child_path(prefix, decimal((n - 1) as nat)),
            refs_of_items(items, prefix, (n - 1) as nat, acc),
        )
    }
}

/// Flattens `value`, rooted at `prefix`, into the two maps: what they
/// held under other paths stays.
pub fn flatten_into(
    value: &Datum,
    prefix: String,
    flat: &mut PathMap<Datum>,
    index: &mut PathMap<Ref>,
)
    requires
        old(flat).wf(),
        old(index).wf(),
    ensures
        final(flat).wf(),
        final(index).wf(),
        final(flat).content() == leaves(value@, prefix@, old(flat).content()),
        final(index).content() == refs(value@, prefix@, old(index).content()),
    decreases value,
{
    let ghost flat0 = flat.content();
    let ghost index0 = index.content();
    match value {
        Datum::Object(members) => {
            proof {
                lemma_object_view(*members);
            }
            let ghost model = value@->Object_0;
            let mut children: Vec<String> = Vec::new();
            let mut i: usize = 0;
            while i < members.len()
                invariant
                    *value == Datum::Object(*members),
                    model == value@->Object_0,
                    model.len() == members@.len(),
                    forall|j: int|
                        0 <= j < members@.len() ==> (#[trigger] model[j]) == (
                            members@[j].0@,
                            members@[j].1@,
                        ),
                    0 <= i <= members.len(),
                    flat.wf(),
                    index.wf(),
                    flat.content() == leaves_of_members(model, prefix@, i as nat, flat0),
                    index.content() == refs_of_members(model, prefix@, i as nat, index0),
                    children@.len() == i,
                    forall|j: int|
                        0 <= j < i ==> (#[trigger] children@[j])@ == child_path(
                            prefix@,
                            members@[j].0@,
                        ),
                decreases members.len() - i,
            {
                let child = child_path_string(prefix.as_str(), members[i].0.as_str());
                children.push(child.clone());
                proof {
                    assert(value->Object_0 == *members);
                    assert(decreases_to!(*value => value->Object_0));
                    assert(decreases_to!(*members => members@[i as int]));
                    assert(decreases_to!(members@[i as int] => members@[i as int].1));
                    assert(decreases_to!(*value => members@[i as int].1));
                    assert(model[i as int] == (members@[i as int].0@, members@[i as int].1@));
                }
                flatten_into(&members[i].1, child, flat, index);
                i += 1;
            }
            let record = Ref { ref_type: RefType::Object, items: children };
            proof {
                assert(record@.children =~= member_paths(model, prefix@));
            }
            index.insert(prefix, record);
        },
        Datum::Array(items) => {
            proof {
                lemma_array_view(*items);
            }
            let ghost model = value@->Array_0;
            let mut children: Vec<String> = Vec::new();
            let mut i: usize = 0;
            while i < items.len()
                invariant
                    *value == Datum::Array(*items),
                    model == value@->Array_0,
                    model.len() == items@.len(),
                    forall|j: int| 0 <= j < items@.len() ==> (#[trigger] model[j]) == items@[j]@,
                    0 <= i <= items.len(),
                    flat.wf(),
                    index.wf(),
                    flat.content() == leaves_of_items(model, prefix@, i as nat, flat0),
                    index.content() == refs_of_items(model, prefix@, i as nat, index0),
                    children@.len() == i,
                    forall|j: int|
                        0 <= j < i ==> (#[trigger] children@[j])@ == child_path(
                            prefix@,
                            decimal(j as nat),
                        ),
                decreases items.len() - i,
            {
                let name = decimal_string(i);
                let child = child_path_string(prefix.as_str(), name.as_str());
                children.push(child.clone());
                proof {
                    assert(value->Array_0 == *items);
                    assert(decreases_to!(*value => value->Array_0));
                    assert(decreases_to!(*items => items@[i as int]));
                    assert(decreases_to!(*value => items@[i as int]));
                    assert(model[i as int] == items@[i as int]@);
                }
                flatten_into(&items[i], child, flat, index);
                i += 1;
            }
            let record = Ref { ref_type: RefType::Array, items: children };
            proof {
                assert(record@.children =~= item_paths(model.len(), prefix@));
            }
            index.insert(prefix, record);
        },
        _ => {
            flat.insert(prefix, value.clone());
        },
    }
}

/// The leaves and the reference records of `value`, a document rooted at
/// `root_key`.
pub fn flatten(root_key: &str, value: &Datum) -> (r: (PathMap<Datum>, PathMap<Ref>))
    ensures
        r.0.wf(),
        r.1.wf(),
        r.0.content() == leaves(value@, root_key@, Seq::empty()),
        r.1.content() == refs(value@, root_key@, Seq::empty()),
{
    let mut flat: PathMap<Datum> = PathMap::new();
    let mut index: PathMap<Ref> = PathMap::new();
    assert(flat.content() =~= Seq::empty());
    assert(index.content() =~= Seq::empty());
    flatten_into(value, root_key.to_owned(), &mut flat, &mut index);
    (flat, index)
}

/// The leaves and the reference records of `value`, rooted at the empty
/// path: the path of a top-level member is its name.
pub fn value_to_mapper(value: Datum) -> (r: (PathMap<Datum>, PathMap<Ref>))
    ensures
        r.0.wf(),
        r.1.wf(),
        r.0.content() == leaves(value@, Seq::empty(), Seq::empty()),
        r.1.content() == refs(value@, Seq::empty(), Seq::empty()),
{
    proof {
        reveal_strlit("");
    }
    assert(""@ =~= Seq::<char>::empty());
    flatten("", &value)
}

/// Whether `path` names a file that a decoder exists for.
pub open spec fn decodable(path: Seq<char>) -> bool {
    ||| ".json"@.is_suffix_of(path)
    ||| ".yml"@.is_suffix_of(path)
    ||| ".yaml"@.is_suffix_of(path)
}

/// Whether `path` names a configuration file: one that ends in `.json`,
/// `.yml`, `.yaml` or `.xml`.
pub open spec fn valid_file(path: Seq<char>) -> bool {
    decodable(path) || ".xml"@.is_suffix_of(path)
}

/// Whether `path` ends in `extension`.
fn has_extension(path: &Vec<char>, extension: &str) -> (b: bool)
    ensures
        b == extension@.is_suffix_of(path@),
{
    let wanted = chars_of(extension);
    ends_with(path, &wanted)
}

/// Whether `path` names a configuration file.
pub fn is_valid_file(path: &str) -> (b: bool)
    ensures
        b == valid_file(path@),
{
    let chars = chars_of(path);
    has_extension(&chars, ".json") || has_extension(&chars, ".yml") || has_extension(
        &chars,
        ".yaml",
    ) || has_extension(&chars, ".xml")
}

/// What the answer of a decoder stands for: the value that it gave, in
/// canonical form, or `Undefined` where it failed.
pub open spec fn document_or_undefined(outcome: Option<DatumModel>) -> DatumModel {
    match outcome {
        Some(decoded) => canonical(decoded),
        None => DatumModel::Undefined,
    }
}

/// Whether `document` is the canonical form of some value.
pub open spec fn in_canonical_form(document: DatumModel) -> bool {
    exists|raw: DatumModel| document == #[trigger] canonical(raw)
}

/// Whether `document` can be what the text of `file` decodes to, by the
/// extension of the file. Of a `.json` file any document in canonical
/// form can be: its decoder is not bound to the text. Of a `.yml` or
/// `.yaml` file it is what the YAML decoder makes of the text, or
/// `Undefined` where the decoder fails. Of any other file it is
/// `Undefined`.
pub open spec fn decodes_to(file: Seq<char>, text: Seq<char>, document: DatumModel) -> bool {
    if ".json"@.is_suffix_of(file) {
        in_canonical_form(document)
    } else if ".yml"@.is_suffix_of(file) || ".yaml"@.is_suffix_of(file) {
        document == (match yaml_document(text) {
            Some(decoded) => decoded,
            None => DatumModel::Undefined,
        })
    } else {
        document is Undefined
    }
}

/// The value that the answer of a decoder stands for: what the decoder
/// gave, in canonical form, or `Undefined` where it failed.
pub fn decoded_or_undefined(outcome: Option<Datum>) -> (v: Datum)
    ensures
        v@ == document_or_undefined(
            match outcome {
                Some(decoded) => Some(decoded@),
                None => None,
            },
        ),
{
    match outcome {
        Some(decoded) => normalize(&decoded),
        None => Datum::Undefined,
    }
}

/// Decodes the text of `file` by the extension of the file: JSON for
/// `.json`, YAML for `.yml` and `.yaml`. A file of another name, and a
/// text that its decoder fails on, give `Undefined`.
pub fn parse_value(file: &str, content: &str) -> (v: Datum)
    ensures
        decodes_to(file@, content@, v@),
{
    let chars = chars_of(file);
    if has_extension(&chars, ".json") {
        let outcome = decode_json(content);
        let ghost raw = if outcome is Some {
            outcome->0@
        } else {
            DatumModel::Undefined
        };
        let v = decoded_or_undefined(outcome);
        assert(v@ == canonical(raw));
        v
    } else if has_extension(&chars, ".yml") || has_extension(&chars, ".yaml") {
        decoded_or_undefined(decode_yaml(content))
    } else {
        Datum::Undefined
    }
}

/// The leaves and the reference records of what the text of `file`
/// decodes to, rooted at `key`.
pub fn to_value(key: String, file: &str, content: &str) -> (r: (PathMap<Datum>, PathMap<Ref>))
    ensures
        r.0.wf(),
        r.1.wf(),
        exists|document: DatumModel|
            {
                &&& decodes_to(file@, content@, document)
                &&& r.0.content() == #[trigger] leaves(document, key@, Seq::empty())
                &&& r.1.content() == refs(document, key@, Seq::empty())
            },
{
    let value = parse_value(file, content);
    let r = flatten(key.as_str(), &value);
    assert(r.0.content() == leaves(value@, key@, Seq::empty()));
    r
}

} // verus!
