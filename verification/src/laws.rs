use vstd::prelude::*;

use crate::converter::{
    add_attributes, add_child_value, add_children, spec_convert, spec_parse_node, spec_parse_root,
    text_fields, ConfigV,
};
use crate::value::{
    has_key, key_index, lemma_key_index, lemma_rename_arr, lemma_rename_fields, move_key,
    obj_insert, rename_arr, rename_fields, rename_value, JsonV,
};
use crate::text::spec_trim;
use crate::xml::XmlNodeV;

verus! {

// ---------- well-formedness and key use ----------

/// The keys of an object's entries are pairwise distinct.
pub open spec fn keys_unique(fields: Seq<(Seq<char>, JsonV)>) -> bool {
    forall|i: int, j: int| 0 <= i < j < fields.len() ==> fields[i].0 != fields[j].0
}

/// Every object anywhere in the value has pairwise distinct keys.
pub open spec fn wf_value(v: JsonV) -> bool
    decreases v,
{
    match v {
        JsonV::Null => true,
        JsonV::Str(_) => true,
        JsonV::Arr(items) => wf_arr(items),
        JsonV::Obj(fields) => keys_unique(fields) && wf_fields(fields),
    }
}

pub open spec fn wf_arr(items: Seq<JsonV>) -> bool
    decreases items,
{
    if items.len() == 0 {
        true
    } else {
        wf_arr(items.drop_last()) && wf_value(items[items.len() - 1])
    }
}

pub open spec fn wf_fields(fields: Seq<(Seq<char>, JsonV)>) -> bool
    decreases fields,
{
    if fields.len() == 0 {
        true
    } else {
        wf_fields(fields.drop_last()) && wf_value(fields[fields.len() - 1].1)
    }
}

/// Some object anywhere in the value has an entry under the given key.
pub open spec fn uses_key(v: JsonV, key: Seq<char>) -> bool
    decreases v,
{
    match v {
        JsonV::Null => false,
        JsonV::Str(_) => false,
        JsonV::Arr(items) => arr_uses_key(items, key),
        JsonV::Obj(fields) => has_key(fields, key) || fields_use_key(fields, key),
    }
}

pub open spec fn arr_uses_key(items: Seq<JsonV>, key: Seq<char>) -> bool
    decreases items,
{
    if items.len() == 0 {
        false
    } else {
        arr_uses_key(items.drop_last(), key) || uses_key(items[items.len() - 1], key)
    }
}

pub open spec fn fields_use_key(fields: Seq<(Seq<char>, JsonV)>, key: Seq<char>) -> bool
    decreases fields,
{
    if fields.len() == 0 {
        false
    } else {
        fields_use_key(fields.drop_last(), key) || uses_key(fields[fields.len() - 1].1, key)
    }
}

pub proof fn lemma_wf_arr_index(items: Seq<JsonV>, i: int)
    requires
        wf_arr(items),
        0 <= i < items.len(),
    ensures
        wf_value(items[i]),
    decreases items.len(),
{
    if i < items.len() - 1 {
        lemma_wf_arr_index(items.drop_last(), i);
    }
}

pub proof fn lemma_wf_fields_index(fields: Seq<(Seq<char>, JsonV)>, i: int)
    requires
        wf_fields(fields),
        0 <= i < fields.len(),
    ensures
        wf_value(fields[i].1),
    decreases fields.len(),
{
    if i < fields.len() - 1 {
        lemma_wf_fields_index(fields.drop_last(), i);
    }
}

pub proof fn lemma_arr_uses_key_index(items: Seq<JsonV>, key: Seq<char>, i: int)
    requires
        !arr_uses_key(items, key),
        0 <= i < items.len(),
    ensures
        !uses_key(items[i], key),
    decreases items.len(),
{
    if i < items.len() - 1 {
        lemma_arr_uses_key_index(items.drop_last(), key, i);
    }
}

pub proof fn lemma_fields_use_key_index(fields: Seq<(Seq<char>, JsonV)>, key: Seq<char>, i: int)
    requires
        !fields_use_key(fields, key),
        0 <= i < fields.len(),
    ensures
        !uses_key(fields[i].1, key),
    decreases fields.len(),
{
    if i < fields.len() - 1 {
        lemma_fields_use_key_index(fields.drop_last(), key, i);
    }
}

// ---------- structural equivalence ----------

/// Structural equivalence of two values: equal scalars, pointwise equivalent
/// arrays, and objects with the same keys mapped to equivalent values,
/// regardless of the order of their entries.
pub open spec fn equiv(a: JsonV, b: JsonV) -> bool
    decreases a,
{
    match (a, b) {
        (JsonV::Null, JsonV::Null) => true,
        (JsonV::Str(x), JsonV::Str(y)) => x == y,
        (JsonV::Arr(x), JsonV::Arr(y)) => arr_equiv(x, y),
        (JsonV::Obj(x), JsonV::Obj(y)) => obj_equiv(x, y),
        _ => false,
    }
}

pub open spec fn arr_equiv(x: Seq<JsonV>, y: Seq<JsonV>) -> bool
    decreases x,
{
    if x.len() != y.len() {
        false
    } else if x.len() == 0 {
        true
    } else {
        equiv(x[x.len() - 1], y[y.len() - 1]) && arr_equiv(x.drop_last(), y.drop_last())
    }
}

pub open spec fn obj_equiv(x: Seq<(Seq<char>, JsonV)>, y: Seq<(Seq<char>, JsonV)>) -> bool
    decreases x,
{
    if x.len() != y.len() {
        false
    } else if x.len() == 0 {
        true
    } else {
        let k = x[0].0;
        has_key(y, k) && equiv(x[0].1, y[key_index(y, k)].1) && obj_equiv(
            x.drop_first(),
            y.remove(key_index(y, k)),
        )
    }
}

pub proof fn lemma_arr_equiv_pointwise(x: Seq<JsonV>, y: Seq<JsonV>)
    requires
        x.len() == y.len(),
        forall|i: int| 0 <= i < x.len() ==> equiv(x[i], y[i]),
    ensures
        arr_equiv(x, y),
    decreases x.len(),
{
    if x.len() > 0 {
        lemma_arr_equiv_pointwise(x.drop_last(), y.drop_last());
    }
}

pub proof fn lemma_obj_equiv_pointwise(x: Seq<(Seq<char>, JsonV)>, y: Seq<(Seq<char>, JsonV)>)
    requires
        x.len() == y.len(),
        forall|i: int| 0 <= i < x.len() ==> x[i].0 == y[i].0 && equiv(x[i].1, y[i].1),
    ensures
        obj_equiv(x, y),
    decreases x.len(),
{
    if x.len() > 0 {
        assert(key_index(y, x[0].0) == 0);
        assert(y.remove(0) =~= y.drop_first());
        lemma_obj_equiv_pointwise(x.drop_first(), y.drop_first());
    }
}

/// Two objects whose entries carry the same keys in the same order give the
/// same answer to every key lookup.
pub proof fn lemma_key_index_same_keys(
    x: Seq<(Seq<char>, JsonV)>,
    y: Seq<(Seq<char>, JsonV)>,
    key: Seq<char>,
)
    requires
        x.len() == y.len(),
        forall|i: int| 0 <= i < x.len() ==> x[i].0 == y[i].0,
    ensures
        key_index(x, key) == key_index(y, key),
    decreases x.len(),
{
    if x.len() > 0 && x[0].0 != key {
        assert(forall|i: int|
            0 <= i < x.drop_first().len() ==> x.drop_first()[i].0 == y.drop_first()[i].0);
        lemma_key_index_same_keys(x.drop_first(), y.drop_first(), key);
    }
}

/// An object whose entries are, up to equivalent values, the entries of `y`
/// with the entry at position `i` moved to the end is equivalent to `y`.
pub proof fn lemma_obj_equiv_move_to_end(
    x: Seq<(Seq<char>, JsonV)>,
    y: Seq<(Seq<char>, JsonV)>,
    i: int,
)
    requires
        0 <= i < y.len(),
        x.len() == y.len(),
        keys_unique(y),
        forall|j: int| 0 <= j < i ==> x[j].0 == y[j].0 && equiv(x[j].1, y[j].1),
        forall|j: int| i <= j < x.len() - 1 ==> x[j].0 == y[j + 1].0 && equiv(x[j].1, y[j + 1].1),
        x[x.len() - 1].0 == y[i].0,
        equiv(x[x.len() - 1].1, y[i].1),
    ensures
        obj_equiv(x, y),
    decreases x.len(),
{
    let n = x.len() as int;
    lemma_key_index(y, x[0].0);
    if i == 0 {
        if n == 1 {
            assert(key_index(y, x[0].0) == 0);
            assert(y.remove(0) =~= y.drop_first());
            assert(x.drop_first().len() == 0);
            assert(obj_equiv(x.drop_first(), y.remove(0)));
        } else {
            // the first entry of x stands for y[1]; y[0] differs from it
            assert(x[0].0 == y[1].0);
            assert(y[0].0 != y[1].0);
            assert(key_index(y, x[0].0) == 1) by {
                if key_index(y, x[0].0) == 0 {
                    assert(y[0].0 == x[0].0);
                }
            }
            let y2 = y.remove(1);
            assert(forall|m: int| 0 <= m < 1 ==> y2[m] == y[m]);
            assert(forall|m: int| 1 <= m < n - 1 ==> y2[m] == y[m + 1]);
            assert(keys_unique(y2));
            let x2 = x.drop_first();
            assert(forall|j: int| 0 <= j < x2.len() - 1 ==> x2[j].0 == y2[j + 1].0 && equiv(
                x2[j].1,
                y2[j + 1].1,
            ));
            assert(x2[x2.len() - 1].0 == y2[0].0 && equiv(x2[x2.len() - 1].1, y2[0].1));
            lemma_obj_equiv_move_to_end(x2, y2, 0);
            assert(y.remove(key_index(y, x[0].0)) == y2);
            assert(equiv(x[0].1, y[1].1));
            assert(obj_equiv(x.drop_first(), y2));
        }
    } else {
        assert(key_index(y, x[0].0) == 0);
        assert(y.remove(0) =~= y.drop_first());
        let y2 = y.drop_first();
        let x2 = x.drop_first();
        assert(keys_unique(y2));
        assert(forall|j: int| 0 <= j < i - 1 ==> x2[j].0 == y2[j].0 && equiv(x2[j].1, y2[j].1));
        assert(forall|j: int| i - 1 <= j < x2.len() - 1 ==> x2[j].0 == y2[j + 1].0 && equiv(
            x2[j].1,
            y2[j + 1].1,
        ));
        assert(x2[x2.len() - 1].0 == y2[i - 1].0 && equiv(x2[x2.len() - 1].1, y2[i - 1].1));
        lemma_obj_equiv_move_to_end(x2, y2, i - 1);
        assert(y.remove(key_index(y, x[0].0)) == y2);
        assert(equiv(x[0].1, y[0].1));
        assert(obj_equiv(x.drop_first(), y2));
    }
}

/// Renaming a key to a fresh one and back restores the value up to the order
/// of object entries: each moved key ends up at the end of its object, so the
/// result is structurally equivalent, not identical. The new key must not
/// already occur anywhere in the value — an object holding both keys would
/// lose the entry under the new key — and every object must have distinct
/// keys.
pub proof fn lemma_rename_round_trip(v: JsonV, old_key: Seq<char>, new_key: Seq<char>)
    requires
        wf_value(v),
        !uses_key(v, new_key),
    ensures
        equiv(rename_value(rename_value(v, old_key, new_key), new_key, old_key), v),
    decreases v,
{
    match v {
        JsonV::Null => {
        },
        JsonV::Str(_) => {
        },
        JsonV::Arr(items) => {
            let r1 = rename_arr(items, old_key, new_key);
            let r2 = rename_arr(r1, new_key, old_key);
            lemma_rename_arr(items, old_key, new_key);
            lemma_rename_arr(r1, new_key, old_key);
            assert forall|j: int| 0 <= j < items.len() implies equiv(r2[j], items[j]) by {
                lemma_wf_arr_index(items, j);
                lemma_arr_uses_key_index(items, new_key, j);
                assert(decreases_to!(items => items[j]));
                lemma_rename_round_trip(items[j], old_key, new_key);
            }
            lemma_arr_equiv_pointwise(r2, items);
        },
        JsonV::Obj(fields) => {
            let n = fields.len() as int;
            let rf = rename_fields(fields, old_key, new_key);
            lemma_rename_fields(fields, old_key, new_key);
            lemma_key_index(fields, old_key);
            lemma_key_index(fields, new_key);
            lemma_key_index_same_keys(rf, fields, old_key);
            lemma_key_index_same_keys(rf, fields, new_key);
            assert forall|j: int|
                0 <= j < n implies equiv(
                rename_value(rename_value(fields[j].1, old_key, new_key), new_key, old_key),
                fields[j].1,
            ) by {
                lemma_wf_fields_index(fields, j);
                lemma_fields_use_key_index(fields, new_key, j);
                assert(decreases_to!(fields => fields[j]));
                assert(decreases_to!(fields[j] => fields[j].1));
                lemma_rename_round_trip(fields[j].1, old_key, new_key);
            }
            let i = key_index(fields, old_key);
            if i < 0 {
                let m1 = rf;
                let rf2 = rename_fields(m1, new_key, old_key);
                lemma_rename_fields(m1, new_key, old_key);
                lemma_key_index_same_keys(rf2, fields, new_key);
                assert(move_key(rf, old_key, new_key) == rf);
                assert(move_key(rf2, new_key, old_key) == rf2);
                lemma_obj_equiv_pointwise(rf2, fields);
            } else {
                // no entry but the one at `i` carries the old key, and none
                // carries the new key at all
                assert(forall|m: int| 0 <= m < n && m != i ==> fields[m].0 != old_key);
                assert(forall|m: int| 0 <= m < n ==> fields[m].0 != new_key);
                let rem = rf.remove(i);
                assert(forall|m: int| 0 <= m < i ==> rem[m] == rf[m]);
                assert(forall|m: int| i <= m < n - 1 ==> rem[m] == rf[m + 1]);
                lemma_key_index(rem, new_key);
                assert(key_index(rem, new_key) == -1);
                let m1 = rem.push((new_key, rf[i].1));
                assert(move_key(rf, old_key, new_key) == m1);
                let rf2 = rename_fields(m1, new_key, old_key);
                lemma_rename_fields(m1, new_key, old_key);
                lemma_key_index(rf2, new_key);
                assert(key_index(rf2, new_key) == n - 1) by {
                    assert(rf2[n - 1].0 == new_key);
                    if key_index(rf2, new_key) < n - 1 {
                        assert(rf2[key_index(rf2, new_key)].0 == new_key);
                    }
                }
                let rem2 = rf2.remove(n - 1);
                assert(forall|m: int| 0 <= m < n - 1 ==> rem2[m] == rf2[m]);
                lemma_key_index(rem2, old_key);
                assert(key_index(rem2, old_key) == -1);
                let m2 = rem2.push((old_key, rf2[n - 1].1));
                assert(move_key(rf2, new_key, old_key) == m2);
                assert(rename_value(rename_value(v, old_key, new_key), new_key, old_key)
                    == JsonV::Obj(m2));
                assert(forall|j: int| 0 <= j < i ==> m2[j].0 == fields[j].0 && equiv(
                    m2[j].1,
                    fields[j].1,
                ));
                assert(forall|j: int| i <= j < n - 1 ==> m2[j].0 == fields[j + 1].0 && equiv(
                    m2[j].1,
                    fields[j + 1].1,
                ));
                assert(m2[n - 1].0 == fields[i].0 && equiv(m2[n - 1].1, fields[i].1));
                lemma_obj_equiv_move_to_end(m2, fields, i);
            }
        },
    }
}

// ---------- elision ----------

/// An element with no direct text, no attributes and no children converts
/// to nothing at all.
pub proof fn lemma_empty_leaf_elided(cfg: ConfigV, node: XmlNodeV)
    requires
        node.text is None,
        node.attributes.len() == 0,
        node.children.len() == 0,
    ensures
        spec_parse_node(cfg, node) is None,
{
}

/// A child that converts to nothing — a non-element child, or an element
/// with no text, no attributes and no surviving children — contributes no
/// entry to its parent's object: dropping it from the child list leaves the
/// conversion unchanged.
pub proof fn lemma_elided_child_ignored(
    cfg: ConfigV,
    fields: Seq<(Seq<char>, JsonV)>,
    children: Seq<XmlNodeV>,
    i: int,
)
    requires
        0 <= i < children.len(),
        children[i].name.len() == 0 || spec_parse_node(cfg, children[i]) is None,
    ensures
        add_children(cfg, fields, children) == add_children(cfg, fields, children.remove(i)),
    decreases children.len(),
{
    if i == 0 {
        assert(children.remove(0) =~= children.drop_first());
    } else {
        let child = children[0];
        let fields2 = if child.name.len() == 0 {
            fields
        } else {
            match spec_parse_node(cfg, child) {
                Some(v) => crate::converter::add_child_value(fields, child.name, v),
                None => fields,
            }
        };
        assert(children.remove(i)[0] == children[0]);
        assert(children.remove(i).drop_first() =~= children.drop_first().remove(i - 1));
        lemma_elided_child_ignored(cfg, fields2, children.drop_first(), i - 1);
    }
}

// ---------- scalar-to-array promotion ----------

/// How many children of a list survive conversion under a given tag name:
/// elements with that name whose conversion contributes something.
pub open spec fn surviving_count(cfg: ConfigV, children: Seq<XmlNodeV>, name: Seq<char>) -> nat
    decreases children,
{
    if children.len() == 0 {
        0
    } else {
        (if children[0].name == name && spec_parse_node(cfg, children[0]) is Some {
            1nat
        } else {
            0nat
        }) + surviving_count(cfg, children.drop_first(), name)
    }
}

/// Appending an entry moves no earlier key and adds the new key at the end.
pub proof fn lemma_key_index_push(
    fields: Seq<(Seq<char>, JsonV)>,
    key: Seq<char>,
    entry: (Seq<char>, JsonV),
)
    ensures
        key_index(fields, key) >= 0 ==> key_index(fields.push(entry), key) == key_index(
            fields,
            key,
        ),
        key_index(fields, key) == -1 && entry.0 == key ==> key_index(fields.push(entry), key)
            == fields.len(),
        key_index(fields, key) == -1 && entry.0 != key ==> key_index(fields.push(entry), key)
            == -1,
    decreases fields.len(),
{
    if fields.len() == 0 {
        reveal_with_fuel(key_index, 2);
        assert(fields.push(entry)[0] == entry);
        assert(fields.push(entry).drop_first() =~= Seq::<(Seq<char>, JsonV)>::empty());
    } else {
        assert(fields.push(entry)[0] == fields[0]);
        assert(fields.push(entry).drop_first() =~= fields.drop_first().push(entry));
        lemma_key_index_push(fields.drop_first(), key, entry);
    }
}

/// Walking a child list, the entry under a tag name grows exactly as the
/// number of surviving children with that name demands: absent it stays
/// absent when none survives, becomes the child's own object (never an
/// array) when exactly one survives, and becomes an array with one element
/// per occurrence when two or more survive; an existing scalar entry is
/// promoted to an array on the first further occurrence, and an existing
/// array grows by one element per occurrence.
pub proof fn lemma_sibling_collapsing(
    cfg: ConfigV,
    fields: Seq<(Seq<char>, JsonV)>,
    children: Seq<XmlNodeV>,
    name: Seq<char>,
)
    requires
        name.len() != 0,
    ensures
        ({
            let result = add_children(cfg, fields, children);
            let m = surviving_count(cfg, children, name);
            let ki = key_index(fields, name);
            let ko = key_index(result, name);
            &&& (ki == -1 && m == 0 ==> ko == -1)
            &&& (ki == -1 && m == 1 ==> ko >= 0 && !(result[ko].1 is Arr))
            &&& (ki == -1 && m >= 2 ==> ko >= 0 && result[ko].1 is Arr
                && result[ko].1->Arr_0.len() == m)
            &&& (ki >= 0 && !(fields[ki].1 is Arr) && m == 0 ==> ko == ki && result[ko].1
                == fields[ki].1)
            &&& (ki >= 0 && !(fields[ki].1 is Arr) && m >= 1 ==> ko == ki && result[ko].1 is Arr
                && result[ko].1->Arr_0.len() == m + 1)
            &&& (ki >= 0 && fields[ki].1 is Arr ==> ko == ki && result[ko].1 is Arr
                && result[ko].1->Arr_0.len() == fields[ki].1->Arr_0.len() + m)
        }),
    decreases children.len(),
{
    let result = add_children(cfg, fields, children);
    let m = surviving_count(cfg, children, name);
    let ki = key_index(fields, name);
    lemma_key_index(fields, name);
    if children.len() > 0 {
        let child = children[0];
        let fields2 = if child.name.len() == 0 {
            fields
        } else {
            match spec_parse_node(cfg, child) {
                Some(v) => add_child_value(fields, child.name, v),
                None => fields,
            }
        };
        lemma_sibling_collapsing(cfg, fields2, children.drop_first(), name);
        lemma_key_index(fields2, name);
        if child.name.len() != 0 && spec_parse_node(cfg, child) is Some {
            let v = spec_parse_node(cfg, child)->Some_0;
            assert(!(v is Arr));
            let ci = key_index(fields, child.name);
            lemma_key_index(fields, child.name);
            if child.name == name {
                if ki == -1 {
                    lemma_key_index_push(fields, name, (name, v));
                    assert(fields2 == fields.push((name, v)));
                    assert(key_index(fields2, name) == fields.len());
                    assert(fields2[fields.len() as int].1 == v);
                } else {
                    assert(ci == ki);
                    lemma_key_index_same_keys(fields2, fields, name);
                    assert(fields2[ki].1 is Arr);
                }
            } else {
                assert(ci != ki || ci == -1 && ki == -1);
                if ci == -1 {
                    lemma_key_index_push(fields, name, (child.name, v));
                    assert(fields2 == fields.push((child.name, v)));
                    assert(key_index(fields2, name) == ki);
                    assert(ki >= 0 ==> fields2[ki].1 == fields[ki].1);
                } else {
                    lemma_key_index_same_keys(fields2, fields, name);
                    assert(key_index(fields2, name) == ki);
                    assert(ki >= 0 ==> fields2[ki].1 == fields[ki].1);
                }
            }
        } else {
            assert(fields2 == fields);
        }
    }
}

// ---------- the converter only builds well-formed values ----------

/// An object under construction: distinct keys, and every value seen so far
/// is well-formed.
pub open spec fn fields_wf(fields: Seq<(Seq<char>, JsonV)>) -> bool {
    keys_unique(fields) && forall|i: int| 0 <= i < fields.len() ==> wf_value(fields[i].1)
}

pub proof fn lemma_wf_fields_build(fields: Seq<(Seq<char>, JsonV)>)
    requires
        forall|i: int| 0 <= i < fields.len() ==> wf_value(fields[i].1),
    ensures
        wf_fields(fields),
    decreases fields.len(),
{
    if fields.len() > 0 {
        lemma_wf_fields_build(fields.drop_last());
    }
}

pub proof fn lemma_obj_insert_wf(fields: Seq<(Seq<char>, JsonV)>, key: Seq<char>, val: JsonV)
    requires
        fields_wf(fields),
        wf_value(val),
    ensures
        fields_wf(obj_insert(fields, key, val)),
{
    lemma_key_index(fields, key);
    let ki = key_index(fields, key);
    if ki >= 0 {
        let r = fields.update(ki, (key, val));
        assert(forall|i: int| 0 <= i < r.len() ==> r[i].0 == fields[i].0);
    } else {
        let r = fields.push((key, val));
        assert(forall|j: int| 0 <= j < fields.len() ==> fields[j].0 != key);
    }
}

pub proof fn lemma_add_child_value_wf(fields: Seq<(Seq<char>, JsonV)>, name: Seq<char>, val: JsonV)
    requires
        fields_wf(fields),
        wf_value(val),
    ensures
        fields_wf(add_child_value(fields, name, val)),
{
    lemma_key_index(fields, name);
    let ki = key_index(fields, name);
    if ki < 0 {
        assert(forall|j: int| 0 <= j < fields.len() ==> fields[j].0 != name);
    } else {
        match fields[ki].1 {
            JsonV::Arr(items) => {
                assert(items.push(val).drop_last() =~= items);
                assert(wf_arr(items.push(val)));
                let r = fields.update(ki, (name, JsonV::Arr(items.push(val))));
                assert(forall|i: int| 0 <= i < r.len() ==> r[i].0 == fields[i].0);
            },
            _ => {
                let two = seq![fields[ki].1, val];
                reveal_with_fuel(wf_arr, 3);
                assert(two.drop_last() =~= seq![fields[ki].1]);
                assert(seq![fields[ki].1].drop_last() =~= Seq::<JsonV>::empty());
                assert(wf_arr(two));
                let r = fields.update(ki, (name, JsonV::Arr(two)));
                assert(forall|i: int| 0 <= i < r.len() ==> r[i].0 == fields[i].0);
            },
        }
    }
}

pub proof fn lemma_add_attributes_wf(
    fields: Seq<(Seq<char>, JsonV)>,
    attrs: Seq<(Seq<char>, Seq<char>)>,
    prefix: Seq<char>,
)
    requires
        fields_wf(fields),
    ensures
        fields_wf(add_attributes(fields, attrs, prefix)),
    decreases attrs.len(),
{
    if attrs.len() > 0 {
        lemma_obj_insert_wf(fields, prefix + attrs[0].0, JsonV::Str(spec_trim(attrs[0].1)));
        lemma_add_attributes_wf(
            obj_insert(fields, prefix + attrs[0].0, JsonV::Str(spec_trim(attrs[0].1))),
            attrs.drop_first(),
            prefix,
        );
    }
}

pub proof fn lemma_add_children_wf(
    cfg: ConfigV,
    fields: Seq<(Seq<char>, JsonV)>,
    children: Seq<XmlNodeV>,
)
    requires
        fields_wf(fields),
    ensures
        fields_wf(add_children(cfg, fields, children)),
    decreases children, 0int,
{
    if children.len() > 0 {
        let child = children[0];
        let fields2 = if child.name.len() == 0 {
            fields
        } else {
            match spec_parse_node(cfg, child) {
                Some(v) => add_child_value(fields, child.name, v),
                None => fields,
            }
        };
        if child.name.len() != 0 && spec_parse_node(cfg, child) is Some {
            lemma_parse_node_wf(cfg, child);
            lemma_add_child_value_wf(fields, child.name, spec_parse_node(cfg, child)->Some_0);
        }
        lemma_add_children_wf(cfg, fields2, children.drop_first());
    }
}

/// Whatever the converter produces for an element is well-formed: every
/// object in it has pairwise distinct keys.
pub proof fn lemma_parse_node_wf(cfg: ConfigV, node: XmlNodeV)
    ensures
        spec_parse_node(cfg, node) matches Some(v) ==> wf_value(v),
    decreases node, 1int,
{
    let f0 = text_fields(cfg, node.text);
    assert(fields_wf(f0)) by {
        match node.text {
            Some(t) => {
                assert(f0 == seq![(cfg.text_name, JsonV::Str(spec_trim(t)))]);
                assert(f0[0].1 is Str);
            },
            None => {},
        }
    }
    lemma_add_attributes_wf(f0, node.attributes, cfg.attribute_prefix);
    let f1 = add_attributes(f0, node.attributes, cfg.attribute_prefix);
    lemma_add_children_wf(cfg, f1, node.children);
    let f2 = add_children(cfg, f1, node.children);
    if f2.len() > 0 {
        lemma_wf_fields_build(f2);
    }
}

/// Whatever a whole conversion returns is well-formed, so the rename
/// round trip applies to it.
pub proof fn lemma_convert_wf(cfg: ConfigV, node: XmlNodeV)
    ensures
        wf_value(spec_convert(cfg, node)),
{
    lemma_parse_node_wf(cfg, node);
    if cfg.with_root {
        let inner = match spec_parse_node(cfg, node) {
            Some(v) => v,
            None => JsonV::Null,
        };
        let fields = seq![(node.name, inner)];
        assert(spec_parse_root(cfg, node) == Some(JsonV::Obj(fields)));
        reveal_with_fuel(wf_fields, 2);
        assert(fields.drop_last() =~= Seq::<(Seq<char>, JsonV)>::empty());
        assert(wf_fields(fields));
    }
}

} // verus!
