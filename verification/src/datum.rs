//! The dynamic document value that decoded files are held in.

use crate::entries::{put, Entries};
use crate::path_map::PathMap;
use crate::text::str_eq;
use vstd::prelude::*;

verus! {

/// A decoded document, or a part of one.
#[derive(Debug)]
pub enum Datum {
    Null,
    Bool(bool),
    /// A number, held as its decimal text.
    Number(String),
    String(String),
    Array(Vec<Datum>),
    /// The members of an object, in the order in which the decoder gave them.
    Object(Vec<(String, Datum)>),
    /// What a failed decode leaves.
    Undefined,
}

/// The mathematical content of a [`Datum`].
pub enum DatumModel {
    Null,
    Bool(bool),
    Number(Seq<char>),
    String(Seq<char>),
    Array(Seq<DatumModel>),
    Object(Seq<(Seq<char>, DatumModel)>),
    Undefined,
}

/// The content of a value.
pub open spec fn model_of(v: Datum) -> DatumModel
    decreases v, 0nat,
{
    match v {
        Datum::Null => DatumModel::Null,
        Datum::Bool(b) => DatumModel::Bool(b),
        Datum::Number(text) => DatumModel::Number(text@),
        Datum::String(text) => DatumModel::String(text@),
        Datum::Array(items) => DatumModel::Array(items_model(items@, items@.len())),
        Datum::Object(members) => DatumModel::Object(members_model(members@, members@.len())),
        Datum::Undefined => DatumModel::Undefined,
    }
}

/// The content of the first `n` items.
pub open spec fn items_model(items: Seq<Datum>, n: nat) -> Seq<DatumModel>
    decreases items, n,
{
    if n == 0 || n > items.len() {
        Seq::empty()
    } else {
        items_model(items, (n - 1) as nat).push(model_of(items[n - 1]))
    }
}

/// The key and the content of each of the first `n` members.
pub open spec fn members_model(members: Seq<(String, Datum)>, n: nat) -> Seq<
    (Seq<char>, DatumModel),
>
    decreases members, n,
{
    if n == 0 || n > members.len() {
        Seq::empty()
    } else {
        members_model(members, (n - 1) as nat).push(
            (members[n - 1].0@, model_of(members[n - 1].1)),
        )
    }
}

impl View for Datum {
    type V = DatumModel;

    open spec fn view(&self) -> DatumModel {
        model_of(*self)
    }
}

/// The content of the first `n` items, one for one.
proof fn lemma_items_model(items: Seq<Datum>, n: nat)
    requires
        n <= items.len(),
    ensures
        items_model(items, n).len() == n,
        forall|i: int| 0 <= i < n ==> (#[trigger] items_model(items, n)[i]) == items[i]@,
    decreases n,
{
    if n > 0 {
        lemma_items_model(items, (n - 1) as nat);
    }
}

/// Key and content of the first `n` members, one for one.
proof fn lemma_members_model(members: Seq<(String, Datum)>, n: nat)
    requires
        n <= members.len(),
    ensures
        members_model(members, n).len() == n,
        forall|i: int|
            0 <= i < n ==> (#[trigger] members_model(members, n)[i]) == (
                members[i].0@,
                members[i].1@,
            ),
    decreases n,
{
    if n > 0 {
        lemma_members_model(members, (n - 1) as nat);
    }
}

/// The content of an array: that of its items, one for one.
pub proof fn lemma_array_view(items: Vec<Datum>)
    ensures
        Datum::Array(items)@ is Array,
        Datum::Array(items)@->Array_0.len() == items@.len(),
        forall|i: int|
            0 <= i < items@.len() ==> (#[trigger] Datum::Array(items)@->Array_0[i]) == items@[i]@,
{
    lemma_items_model(items@, items@.len());
}

/// The content of an object: the key and the content of each member, one
/// for one.
pub proof fn lemma_object_view(members: Vec<(String, Datum)>)
    ensures
        Datum::Object(members)@ is Object,
        Datum::Object(members)@->Object_0.len() == members@.len(),
        forall|i: int|
            0 <= i < members@.len() ==> (#[trigger] Datum::Object(members)@->Object_0[i]) == (
                members@[i].0@,
                members@[i].1@,
            ),
{
    lemma_members_model(members@, members@.len());
}

/// Whether two values have the same content.
pub fn value_eq(a: &Datum, b: &Datum) -> (r: bool)
    ensures
        r == (a@ == b@),
    decreases a,
{
    match (a, b) {
        (Datum::Null, Datum::Null) => true,
        (Datum::Undefined, Datum::Undefined) => true,
        (Datum::Bool(x), Datum::Bool(y)) => *x == *y,
        (Datum::Number(x), Datum::Number(y)) => *x == *y,
        (Datum::String(x), Datum::String(y)) => *x == *y,
        (Datum::Array(x), Datum::Array(y)) => {
            proof {
                lemma_array_view(*x);
                lemma_array_view(*y);
            }
            if x.len() != y.len() {
                return false;
            }
            let mut i: usize = 0;
            while i < x.len()
                invariant
                    *a == Datum::Array(*x),
                    *b == Datum::Array(*y),
                    x.len() == y.len(),
                    0 <= i <= x.len(),
                    forall|j: int| 0 <= j < i ==> x@[j]@ == y@[j]@,
                decreases x.len() - i,
            {
                if !value_eq(&x[i], &y[i]) {
                    proof {
                        lemma_array_view(*x);
                        lemma_array_view(*y);
                    }
                    assert(a@->Array_0[i as int] == x@[i as int]@);
                    assert(b@->Array_0[i as int] == y@[i as int]@);
                    return false;
                }
                i += 1;
            }
            proof {
                lemma_array_view(*x);
                lemma_array_view(*y);
            }
            assert(a@->Array_0 =~= b@->Array_0);
            true
        },
        (Datum::Object(x), Datum::Object(y)) => {
            proof {
                lemma_object_view(*x);
                lemma_object_view(*y);
            }
            if x.len() != y.len() {
                return false;
            }
            let mut i: usize = 0;
            while i < x.len()
                invariant
                    *a == Datum::Object(*x),
                    *b == Datum::Object(*y),
                    x.len() == y.len(),
                    0 <= i <= x.len(),
                    forall|j: int| 0 <= j < i ==> x@[j].0@ == y@[j].0@ && x@[j].1@ == y@[j].1@,
                decreases x.len() - i,
            {
                if x[i].0 != y[i].0 || !value_eq(&x[i].1, &y[i].1) {
                    proof {
                        lemma_object_view(*x);
                        lemma_object_view(*y);
                    }
                    assert(a@->Object_0[i as int] == (x@[i as int].0@, x@[i as int].1@));
                    assert(b@->Object_0[i as int] == (y@[i as int].0@, y@[i as int].1@));
                    return false;
                }
                i += 1;
            }
            proof {
                lemma_object_view(*x);
                lemma_object_view(*y);
            }
            assert(a@->Object_0 =~= b@->Object_0);
            true
        },
        _ => false,
    }
}

/// A copy of `v` with the same content.
pub fn value_copy(v: &Datum) -> (r: Datum)
    ensures
        r@ == v@,
    decreases v,
{
    match v {
        Datum::Null => Datum::Null,
        Datum::Undefined => Datum::Undefined,
        Datum::Bool(x) => Datum::Bool(*x),
        Datum::Number(x) => Datum::Number(x.clone()),
        Datum::String(x) => Datum::String(x.clone()),
        Datum::Array(x) => {
            let mut items: Vec<Datum> = Vec::new();
            let mut i: usize = 0;
            while i < x.len()
                invariant
                    *v == Datum::Array(*x),
                    0 <= i <= x.len(),
                    items.len() == i,
                    forall|j: int| 0 <= j < i ==> items@[j]@ == x@[j]@,
                decreases x.len() - i,
            {
                assert(v->Array_0 == *x);
                assert(decreases_to!(*v => v->Array_0));
                assert(decreases_to!(*x => x@[i as int]));
                assert(decreases_to!(*v => x@[i as int]));
                let item = value_copy(&x[i]);
                items.push(item);
                i += 1;
            }
            let r = Datum::Array(items);
            proof {
                lemma_array_view(items);
                lemma_array_view(*x);
            }
            assert(r@->Array_0 =~= v@->Array_0);
            r
        },
        Datum::Object(x) => {
            let mut members: Vec<(String, Datum)> = Vec::new();
            let mut i: usize = 0;
            while i < x.len()
                invariant
                    *v == Datum::Object(*x),
                    0 <= i <= x.len(),
                    members.len() == i,
                    forall|j: int|
                        0 <= j < i ==> members@[j].0@ == x@[j].0@ && members@[j].1@ == x@[j].1@,
                decreases x.len() - i,
            {
                assert(v->Object_0 == *x);
                assert(decreases_to!(*v => v->Object_0));
                assert(decreases_to!(*x => x@[i as int]));
                assert(decreases_to!(x@[i as int] => x@[i as int].1));
                assert(decreases_to!(*v => x@[i as int].1));
                let member = value_copy(&x[i].1);
                members.push((x[i].0.clone(), member));
                i += 1;
            }
            let r = Datum::Object(members);
            proof {
                lemma_object_view(members);
                lemma_object_view(*x);
            }
            assert(r@->Object_0 =~= v@->Object_0);
            r
        },
    }
}

impl Clone for Datum {
    fn clone(&self) -> (r: Self)
        ensures
            r@ == self@,
    {
        value_copy(self)
    }
}

impl PartialEq for Datum {
    fn eq(&self, other: &Self) -> (r: bool) {
        value_eq(self, other)
    }
}

impl vstd::std_specs::cmp::PartialEqSpecImpl for Datum {
    open spec fn obeys_eq_spec() -> bool {
        true
    }

    open spec fn eq_spec(&self, other: &Self) -> bool {
        self@ == other@
    }
}

/// The value of the first member of `members` named `name`, if any.
pub open spec fn member(members: Seq<(Seq<char>, DatumModel)>, name: Seq<char>) -> Option<
    DatumModel,
>
    decreases members.len(),
{
    if members.len() == 0 {
        None
    } else if members[0].0 == name {
        Some(members[0].1)
    } else {
        member(members.drop_first(), name)
    }
}

impl DatumModel {
    /// Whether the value is no container: neither an array nor an object.
    pub open spec fn is_leaf(self) -> bool {
        !(self is Array) && !(self is Object)
    }
}

impl Datum {
    /// Whether the value is an object.
    pub fn is_object(&self) -> (b: bool)
        ensures
            b == (self@ is Object),
    {
        match self {
            Datum::Object(_) => true,
            _ => false,
        }
    }

    /// Whether the value is an array.
    pub fn is_array(&self) -> (b: bool)
        ensures
            b == (self@ is Array),
    {
        match self {
            Datum::Array(_) => true,
            _ => false,
        }
    }

    /// Whether the value is what a failed decode leaves.
    pub fn is_undefined(&self) -> (b: bool)
        ensures
            b == (self@ is Undefined),
    {
        match self {
            Datum::Undefined => true,
            _ => false,
        }
    }

    /// Whether the value is null.
    pub fn is_null(&self) -> (b: bool)
        ensures
            b == (self@ is Null),
    {
        match self {
            Datum::Null => true,
            _ => false,
        }
    }

    /// The text of a string value; the empty text for any other value.
    pub fn as_string(&self) -> (text: String)
        ensures
            text@ == (match self@ {
                DatumModel::String(held) => held,
                _ => Seq::empty(),
            }),
    {
        match self {
            Datum::String(text) => text.clone(),
            _ => String::new(),
        }
    }

    /// The value of a boolean value.
    pub fn as_bool(&self) -> (b: Option<bool>)
        ensures
            match b {
                Some(x) => self@ == DatumModel::Bool(x),
                None => !(self@ is Bool),
            },
    {
        match self {
            Datum::Bool(x) => Some(*x),
            _ => None,
        }
    }

    /// The member of an object named `name`: the first one, where several
    /// have the name; nothing where the value is no object.
    pub fn get(&self, name: &str) -> (r: Option<&Datum>)
        ensures
            match r {
                Some(v) => self@ is Object && member(self@->Object_0, name@) == Some(v@),
                None => !(self@ is Object) || member(self@->Object_0, name@) is None,
            },
    {
        match self {
            Datum::Object(members) => {
                proof {
                    lemma_object_view(*members);
                }
                let ghost model = self@->Object_0;
                let mut i: usize = 0;
                assert(model.skip(0) =~= model);
                while i < members.len()
                    invariant
                        *self == Datum::Object(*members),
                        model == self@->Object_0,
                        model.len() == members@.len(),
                        forall|j: int|
                            0 <= j < members@.len() ==> (#[trigger] model[j]) == (
                                members@[j].0@,
                                members@[j].1@,
                            ),
                        0 <= i <= members.len(),
                        member(model, name@) == member(model.skip(i as int), name@),
                    decreases members.len() - i,
                {
                    let ghost rest = model.skip(i as int);
                    assert(rest[0] == model[i as int]);
                    if str_eq(members[i].0.as_str(), name) {
                        return Some(&members[i].1);
                    }
                    assert(rest.drop_first() =~= model.skip(i + 1));
                    i += 1;
                }
                assert(model.skip(i as int).len() == 0);
                None
            },
            _ => None,
        }
    }
}

/// The value in canonical form: the members of every object in ascending
/// order of their names, each name once, the last member of a name
/// standing for it.
pub open spec fn canonical(v: DatumModel) -> DatumModel
    decreases v, 0nat,
{
    match v {
        DatumModel::Object(members) => DatumModel::Object(
            canonical_members(members, members.len()),
        ),
        DatumModel::Array(items) => DatumModel::Array(canonical_items(items, items.len())),
        _ => v,
    }
}

/// The first `n` members in canonical form.
pub open spec fn canonical_members(members: Seq<(Seq<char>, DatumModel)>, n: nat) -> Entries<
    DatumModel,
>
    decreases members, n,
{
    if n == 0 || n > members.len() {
        Seq::empty()
    } else {
        put(
            canonical_members(members, (n - 1) as nat),
            members[n - 1].0,
            canonical(members[n - 1].1),
        )
    }
}

/// The first `n` items, each in canonical form.
pub open spec fn canonical_items(items: Seq<DatumModel>, n: nat) -> Seq<DatumModel>
    decreases items, n,
{
    if n == 0 || n > items.len() {
        Seq::empty()
    } else {
        canonical_items(items, (n - 1) as nat).push(canonical(items[n - 1]))
    }
}

/// The value in canonical form.
pub fn normalize(v: &Datum) -> (r: Datum)
    ensures
        r@ == canonical(v@),
    decreases v,
{
    match v {
        Datum::Object(members) => {
            proof {
                lemma_object_view(*members);
            }
            let ghost model = v@->Object_0;
            let mut sorted: PathMap<Datum> = PathMap::new();
            assert(sorted.content() =~= Seq::empty());
            let mut i: usize = 0;
            while i < members.len()
                invariant
                    *v == Datum::Object(*members),
                    model == v@->Object_0,
                    model.len() == members@.len(),
                    forall|j: int|
                        0 <= j < members@.len() ==> (#[trigger] model[j]) == (
                            members@[j].0@,
                            members@[j].1@,
                        ),
                    0 <= i <= members.len(),
                    sorted.wf(),
                    sorted.content() == canonical_members(model, i as nat),
                decreases members.len() - i,
            {
                proof {
                    assert(v->Object_0 == *members);
                    assert(decreases_to!(*v => v->Object_0));
                    assert(decreases_to!(*members => members@[i as int]));
                    assert(decreases_to!(members@[i as int] => members@[i as int].1));
                    assert(decreases_to!(*v => members@[i as int].1));
                    assert(model[i as int] == (members@[i as int].0@, members@[i as int].1@));
                }
                let member = normalize(&members[i].1);
                sorted.insert(members[i].0.clone(), member);
                i += 1;
            }
            let list = sorted.into_entries();
            let r = Datum::Object(list);
            proof {
                lemma_object_view(list);
                assert(r@->Object_0 =~= canonical_members(model, model.len()));
            }
            r
        },
        Datum::Array(items) => {
            proof {
                lemma_array_view(*items);
            }
            let ghost model = v@->Array_0;
            let mut list: Vec<Datum> = Vec::new();
            let mut i: usize = 0;
            while i < items.len()
                invariant
                    *v == Datum::Array(*items),
                    model == v@->Array_0,
                    model.len() == items@.len(),
                    forall|j: int| 0 <= j < items@.len() ==> (#[trigger] model[j]) == items@[j]@,
                    0 <= i <= items.len(),
                    list@.len() == i,
                    canonical_items(model, i as nat).len() == i,
                    forall|j: int|
                        0 <= j < i ==> (#[trigger] list@[j])@ == canonical_items(model, i as nat)[j],
                decreases items.len() - i,
            {
                proof {
                    assert(v->Array_0 == *items);
                    assert(decreases_to!(*v => v->Array_0));
                    assert(decreases_to!(*items => items@[i as int]));
                    assert(decreases_to!(*v => items@[i as int]));
                    assert(model[i as int] == items@[i as int]@);
                }
                let item = normalize(&items[i]);
                list.push(item);
                i += 1;
            }
            let r = Datum::Array(list);
            proof {
                lemma_array_view(list);
                assert(r@->Array_0 =~= canonical_items(model, model.len()));
            }
            r
        },
        _ => v.clone(),
    }
}

} // verus!
