use vstd::prelude::*;

use crate::text::str_eq;

verus! {

/// A JSON-like structured value: the converter's output type.
/// Objects keep their entries in insertion order, as a sequence of
/// key/value pairs; keys produced by the converter are unique.
#[derive(Debug, PartialEq)]
pub enum Json {
    Null,
    Str(String),
    Arr(Vec<Json>),
    Obj(Vec<(String, Json)>),
}

/// The mathematical model of a `Json` value.
pub enum JsonV {
    Null,
    Str(Seq<char>),
    Arr(Seq<JsonV>),
    Obj(Seq<(Seq<char>, JsonV)>),
}

impl Json {
    pub open spec fn deep(self) -> JsonV
        decreases self,
    {
        match self {
            Json::Null => JsonV::Null,
            Json::Str(s) => JsonV::Str(s@),
            Json::Arr(items) => JsonV::Arr(arr_deep(items@)),
            Json::Obj(fields) => JsonV::Obj(obj_deep(fields@)),
        }
    }
}

/// The model of an array's elements, element by element.
pub open spec fn arr_deep(items: Seq<Json>) -> Seq<JsonV>
    decreases items,
{
    if items.len() == 0 {
        Seq::empty()
    } else {
        arr_deep(items.drop_last()).push(items[items.len() - 1].deep())
    }
}

/// The model of an object's key/value pairs, pair by pair.
pub open spec fn obj_deep(fields: Seq<(String, Json)>) -> Seq<(Seq<char>, JsonV)>
    decreases fields,
{
    if fields.len() == 0 {
        Seq::empty()
    } else {
        obj_deep(fields.drop_last()).push(
            (fields[fields.len() - 1].0@, fields[fields.len() - 1].1.deep()),
        )
    }
}

/// `arr_deep` is the pointwise model of its argument.
pub proof fn lemma_arr_deep(items: Seq<Json>)
    ensures
        arr_deep(items).len() == items.len(),
        forall|i: int| 0 <= i < items.len() ==> arr_deep(items)[i] == items[i].deep(),
    decreases items.len(),
{
    if items.len() > 0 {
        lemma_arr_deep(items.drop_last());
    }
}

/// `obj_deep` is the pointwise model of its argument.
pub proof fn lemma_obj_deep(fields: Seq<(String, Json)>)
    ensures
        obj_deep(fields).len() == fields.len(),
        forall|i: int|
            0 <= i < fields.len() ==> obj_deep(fields)[i] == (fields[i].0@, fields[i].1.deep()),
    decreases fields.len(),
{
    if fields.len() > 0 {
        lemma_obj_deep(fields.drop_last());
    }
}

/// Index of the first entry with the given key, or -1 when the key is absent.
pub open spec fn key_index(fields: Seq<(Seq<char>, JsonV)>, key: Seq<char>) -> int
    decreases fields.len(),
{
    if fields.len() == 0 {
        -1
    } else if fields[0].0 == key {
        0
    } else if key_index(fields.drop_first(), key) < 0 {
        -1
    } else {
        1 + key_index(fields.drop_first(), key)
    }
}

pub open spec fn has_key(fields: Seq<(Seq<char>, JsonV)>, key: Seq<char>) -> bool {
    key_index(fields, key) >= 0
}

/// Map-style insertion into an ordered object: an existing key keeps its
/// position and takes the new value; a new key is appended at the end.
pub open spec fn obj_insert(
    fields: Seq<(Seq<char>, JsonV)>,
    key: Seq<char>,
    val: JsonV,
) -> Seq<(Seq<char>, JsonV)> {
    if has_key(fields, key) {
        fields.update(key_index(fields, key), (key, val))
    } else {
        fields.push((key, val))
    }
}

/// `key_index` points at the first occurrence of the key, if any.
pub proof fn lemma_key_index(fields: Seq<(Seq<char>, JsonV)>, key: Seq<char>)
    ensures
        -1 <= key_index(fields, key) < fields.len(),
        key_index(fields, key) >= 0 ==> fields[key_index(fields, key)].0 == key,
        forall|j: int|
            0 <= j < fields.len() && fields[j].0 == key ==> 0 <= key_index(fields, key) <= j,
    decreases fields.len(),
{
    if fields.len() > 0 && fields[0].0 != key {
        lemma_key_index(fields.drop_first(), key);
        assert forall|j: int|
            0 <= j < fields.len() && fields[j].0 == key implies 0 <= key_index(fields, key)
            <= j by {
            assert(fields.drop_first()[j - 1] == fields[j]);
        }
    }
}

/// Renaming a key in an object: the first entry under `old` is removed and
/// its value is reinserted under `new`; values themselves are untouched.
pub open spec fn move_key(
    fields: Seq<(Seq<char>, JsonV)>,
    old_key: Seq<char>,
    new_key: Seq<char>,
) -> Seq<(Seq<char>, JsonV)> {
    let i = key_index(fields, old_key);
    if i < 0 {
        fields
    } else {
        obj_insert(fields.remove(i), new_key, fields[i].1)
    }
}

/// Renaming a key everywhere in a value: every object moves the key as
/// `move_key` does, and the rename recurses into every array element and
/// every object value.
pub open spec fn rename_value(v: JsonV, old_key: Seq<char>, new_key: Seq<char>) -> JsonV
    decreases v,
{
    match v {
        JsonV::Null => JsonV::Null,
        JsonV::Str(s) => JsonV::Str(s),
        JsonV::Arr(items) => JsonV::Arr(rename_arr(items, old_key, new_key)),
        JsonV::Obj(fields) => JsonV::Obj(
            move_key(rename_fields(fields, old_key, new_key), old_key, new_key),
        ),
    }
}

pub open spec fn rename_arr(items: Seq<JsonV>, old_key: Seq<char>, new_key: Seq<char>) -> Seq<
    JsonV,
>
    decreases items,
{
    if items.len() == 0 {
        Seq::empty()
    } else {
        rename_arr(items.drop_last(), old_key, new_key).push(
            rename_value(items[items.len() - 1], old_key, new_key),
        )
    }
}

pub open spec fn rename_fields(
    fields: Seq<(Seq<char>, JsonV)>,
    old_key: Seq<char>,
    new_key: Seq<char>,
) -> Seq<(Seq<char>, JsonV)>
    decreases fields,
{
    if fields.len() == 0 {
        Seq::empty()
    } else {
        rename_fields(fields.drop_last(), old_key, new_key).push(
            (
                fields[fields.len() - 1].0,
                rename_value(fields[fields.len() - 1].1, old_key, new_key),
            ),
        )
    }
}

/// `rename_arr` is the pointwise rename of its argument.
pub proof fn lemma_rename_arr(items: Seq<JsonV>, old_key: Seq<char>, new_key: Seq<char>)
    ensures
        rename_arr(items, old_key, new_key).len() == items.len(),
        forall|i: int|
            0 <= i < items.len() ==> rename_arr(items, old_key, new_key)[i] == rename_value(
                items[i],
                old_key,
                new_key,
            ),
    decreases items.len(),
{
    if items.len() > 0 {
        lemma_rename_arr(items.drop_last(), old_key, new_key);
    }
}

/// Finds the first entry with the given key, if any.
pub(crate) fn find_key(fields: &Vec<(String, Json)>, key: &str) -> (r: Option<usize>)
    ensures
        match r {
            Some(i) => 0 <= i < fields@.len() && key_index(obj_deep(fields@), key@) == i as int,
            None => key_index(obj_deep(fields@), key@) == -1,
        },
{
    proof {
        lemma_obj_deep(fields@);
        lemma_key_index(obj_deep(fields@), key@);
    }
    let mut i: usize = 0;
    while i < fields.len()
        invariant
            0 <= i <= fields@.len(),
            forall|j: int| 0 <= j < i ==> obj_deep(fields@)[j].0 != key@,
            obj_deep(fields@).len() == fields@.len(),
            forall|j: int|
                0 <= j < fields@.len() ==> obj_deep(fields@)[j] == (
                    fields@[j].0@,
                    fields@[j].1.deep(),
                ),
            -1 <= key_index(obj_deep(fields@), key@) < fields@.len(),
            key_index(obj_deep(fields@), key@) >= 0 ==> obj_deep(fields@)[key_index(
                obj_deep(fields@),
                key@,
            )].0 == key@,
            forall|j: int|
                0 <= j < fields@.len() && obj_deep(fields@)[j].0 == key@ ==> 0 <= key_index(
                    obj_deep(fields@),
                    key@,
                ) <= j,
        decreases fields@.len() - i,
    {
        let pair = &fields[i];
        if str_eq(pair.0.as_str(), key) {
            proof {
                let ki = key_index(obj_deep(fields@), key@);
                assert(obj_deep(fields@)[i as int].0 == key@);
                assert(0 <= ki <= i as int);
                assert(ki == i as int) by {
                    if ki < i as int {
                        assert(obj_deep(fields@)[ki].0 != key@);
                    }
                }
            }
            return Some(i);
        }
        i += 1;
    }
    None
}

/// Map-style insertion, as `obj_insert` describes it: an existing key keeps
/// its position and takes the new value; a new key is appended at the end.
pub(crate) fn insert_field(fields: &mut Vec<(String, Json)>, key: String, val: Json)
    ensures
        obj_deep(final (fields)@) == obj_insert(obj_deep(old(fields)@), key@, val.deep()),
{
    proof {
        lemma_obj_deep(old(fields)@);
    }
    match find_key(fields, key.as_str()) {
        Some(i) => {
            let _replaced = fields.remove(i);
            fields.insert(i, (key, val));
            proof {
                lemma_obj_deep(fields@);
                assert(fields@ =~= old(fields)@.update(i as int, (key, val)));
                assert(obj_deep(fields@) =~= obj_deep(old(fields)@).update(
                    i as int,
                    (key@, val.deep()),
                ));
            }
        },
        None => {
            fields.push((key, val));
            proof {
                lemma_obj_deep(fields@);
                assert(obj_deep(fields@) =~= obj_deep(old(fields)@).push((key@, val.deep())));
            }
        },
    }
}

/// `rename_fields` keeps every key and renames every value.
pub proof fn lemma_rename_fields(
    fields: Seq<(Seq<char>, JsonV)>,
    old_key: Seq<char>,
    new_key: Seq<char>,
)
    ensures
        rename_fields(fields, old_key, new_key).len() == fields.len(),
        forall|i: int|
            0 <= i < fields.len() ==> rename_fields(fields, old_key, new_key)[i] == (
                fields[i].0,
                rename_value(fields[i].1, old_key, new_key),
            ),
    decreases fields.len(),
{
    if fields.len() > 0 {
        lemma_rename_fields(fields.drop_last(), old_key, new_key);
    }
}

impl View for Json {
    type V = JsonV;

    open spec fn view(&self) -> JsonV {
        self.deep()
    }
}

} // verus!
