use vstd::prelude::*;

use crate::value::{
    arr_deep, find_key, insert_field, key_index, lemma_arr_deep, lemma_key_index, lemma_obj_deep,
    lemma_rename_arr, lemma_rename_fields, move_key, obj_deep, obj_insert, rename_arr,
    rename_fields, rename_value, Json, JsonV,
};
use crate::xml::{lemma_nodes_deep, XmlNode, XmlNodeV};
use crate::text::{spec_trim, trim};
use crate::parse::{parse_xml, xml_doc, ParseError};

verus! {

/// The converter's configuration: whether the output is wrapped under the
/// root element's tag name, the key under which an element's direct text is
/// stored, and the prefix put before attribute names. Built once, then read
/// by every conversion.
pub struct XmlToJson {
    with_root: bool,
    text_name: String,
    attribute_prefix: String,
}

/// The mathematical model of an `XmlToJson` configuration.
pub struct ConfigV {
    pub with_root: bool,
    pub text_name: Seq<char>,
    pub attribute_prefix: Seq<char>,
}

impl View for XmlToJson {
    type V = ConfigV;

    closed spec fn view(&self) -> ConfigV {
        ConfigV {
            with_root: self.with_root,
            text_name: self.text_name@,
            attribute_prefix: self.attribute_prefix@,
        }
    }
}

/// The default configuration: no root wrapping, text under `#text`,
/// attributes prefixed with `@`.
pub open spec fn spec_default_config() -> ConfigV {
    ConfigV { with_root: false, text_name: "#text"@, attribute_prefix: "@"@ }
}

impl Default for XmlToJson {
    fn default() -> (r: Self)
        ensures
            r@ == spec_default_config(),
    {
        XmlToJson {
            with_root: false,
            text_name: "#text".to_owned(),
            // changing this prefix would break re-encoding the output to XML
            attribute_prefix: "@".to_owned(),
        }
    }
}

// ---------- the conversion, as a specification ----------

/// The entries an element's direct text contributes: its trimmed text under
/// the configured text key, or nothing when the element has no direct text.
pub open spec fn text_fields(cfg: ConfigV, text: Option<Seq<char>>) -> Seq<(Seq<char>, JsonV)> {
    match text {
        Some(t) => seq![(cfg.text_name, JsonV::Str(spec_trim(t)))],
        None => Seq::empty(),
    }
}

/// Inserts the attributes in document order, each under its prefixed name,
/// with its value trimmed.
pub open spec fn add_attributes(
    fields: Seq<(Seq<char>, JsonV)>,
    attrs: Seq<(Seq<char>, Seq<char>)>,
    prefix: Seq<char>,
) -> Seq<(Seq<char>, JsonV)>
    decreases attrs.len(),
{
    if attrs.len() == 0 {
        fields
    } else {
        add_attributes(
            obj_insert(fields, prefix + attrs[0].0, JsonV::Str(spec_trim(attrs[0].1))),
            attrs.drop_first(),
            prefix,
        )
    }
}

/// Adds one converted child under its tag name: a first occurrence is stored
/// as it is, a second turns the entry into a two-element array, and later
/// ones are appended to that array.
pub open spec fn add_child_value(
    fields: Seq<(Seq<char>, JsonV)>,
    name: Seq<char>,
    child: JsonV,
) -> Seq<(Seq<char>, JsonV)> {
    let i = key_index(fields, name);
    if i < 0 {
        fields.push((name, child))
    } else {
        match fields[i].1 {
            JsonV::Arr(items) => fields.update(i, (name, JsonV::Arr(items.push(child)))),
            _ => fields.update(i, (name, JsonV::Arr(seq![fields[i].1, child]))),
        }
    }
}

/// Walks the children in document order, skipping non-element children
/// (empty tag name) and children that convert to nothing.
pub open spec fn add_children(
    cfg: ConfigV,
    fields: Seq<(Seq<char>, JsonV)>,
    children: Seq<XmlNodeV>,
) -> Seq<(Seq<char>, JsonV)>
    decreases children, 0int,
{
    if children.len() == 0 {
        fields
    } else {
        let child = children[0];
        let fields2 = if child.name.len() == 0 {
            fields
        } else {
            match spec_parse_node(cfg, child) {
                Some(v) => add_child_value(fields, child.name, v),
                None => fields,
            }
        };
        add_children(cfg, fields2, children.drop_first())
    }
}

/// The conversion of one element: its trimmed text under the text key, then
/// its attributes under their prefixed names, then its converted children;
/// an element that contributes no entry at all converts to nothing.
pub open spec fn spec_parse_node(cfg: ConfigV, node: XmlNodeV) -> Option<JsonV>
    decreases node, 1int,
{
    let fields = add_children(
        cfg,
        add_attributes(text_fields(cfg, node.text), node.attributes, cfg.attribute_prefix),
        node.children,
    );
    if fields.len() == 0 {
        None
    } else {
        Some(JsonV::Obj(fields))
    }
}

/// The conversion of the document's root element: wrapped under its tag name
/// when the configuration asks for it, with `Null` standing for a root that
/// converts to nothing.
pub open spec fn spec_parse_root(cfg: ConfigV, node: XmlNodeV) -> Option<JsonV> {
    if cfg.with_root {
        Some(
            JsonV::Obj(
                seq![
                    (
                        node.name,
                        match spec_parse_node(cfg, node) {
                            Some(v) => v,
                            None => JsonV::Null,
                        },
                    ),
                ],
            ),
        )
    } else {
        spec_parse_node(cfg, node)
    }
}

/// What a whole conversion returns on a successfully parsed document.
pub open spec fn spec_convert(cfg: ConfigV, node: XmlNodeV) -> JsonV {
    match spec_parse_root(cfg, node) {
        Some(v) => v,
        None => JsonV::Null,
    }
}

impl XmlToJson {
    /// Wrap the output under the root element's tag name.
    pub fn with_root(self) -> (r: Self)
        ensures
            r@ == (ConfigV { with_root: true, ..self@ }),
    {
        XmlToJson { with_root: true, ..self }
    }

    /// Change the key under which an element's direct text is stored.
    pub fn with_text_name(self, text_name: &str) -> (r: Self)
        ensures
            r@ == (ConfigV { text_name: text_name@, ..self@ }),
    {
        XmlToJson { text_name: text_name.to_owned(), ..self }
    }

    /// Parses an XML string and converts it to a structured value, as
    /// `spec_convert` describes it; a malformed document is reported as a
    /// `ParseError` carrying the parser's diagnostic.
    pub fn xml_to_json(&self, xml: &str) -> (r: Result<Json, ParseError>)
        ensures
            (r is Ok) == (xml_doc(xml@) is Some),
            r matches Ok(v) ==> v@ == spec_convert(self@, xml_doc(xml@)->Some_0),
    {
        match parse_xml(xml) {
            Ok(node) => match self.parse_root(&node) {
                Some(v) => Ok(v),
                None => Ok(Json::Null),
            },
            Err(e) => Err(e),
        }
    }

    /// Converts the document's root element, as `spec_parse_root` describes
    /// it: wrapped under the root's tag name when root wrapping is on.
    pub fn parse_root(&self, node: &XmlNode) -> (r: Option<Json>)
        ensures
            match r {
                Some(v) => spec_parse_root(self@, node@) == Some(v@),
                None => spec_parse_root(self@, node@) is None,
            },
    {
        if self.with_root {
            let inner = match self.parse_node(node) {
                Some(v) => v,
                None => Json::Null,
            };
            let mut root: Vec<(String, Json)> = Vec::new();
            root.push((node.name.clone(), inner));
            proof {
                lemma_obj_deep(root@);
                assert(obj_deep(root@) =~= seq![(node@.name, inner@)]);
            }
            Some(Json::Obj(root))
        } else {
            self.parse_node(node)
        }
    }

    /// Converts one parsed XML element, as `spec_parse_node` describes it:
    /// trimmed direct text under the text key, then the attributes under
    /// their prefixed names, then the converted children, with repeated
    /// sibling tags collapsed into arrays; an element that contributes
    /// nothing converts to `None`.
    #[verifier::loop_isolation(false)]
    pub fn parse_node(&self, node: &XmlNode) -> (r: Option<Json>)
        ensures
            match r {
                Some(v) => spec_parse_node(self@, node@) == Some(v@),
                None => spec_parse_node(self@, node@) is None,
            },
        decreases node,
    {
        let mut fields: Vec<(String, Json)> = Vec::new();
        match &node.text {
            Some(t) => {
                fields.push((self.text_name.clone(), Json::Str(trim(t.as_str()))));
            },
            None => {},
        }
        proof {
            lemma_obj_deep(fields@);
            assert(obj_deep(fields@) =~= text_fields(self@, node@.text));
        }
        let ghost f1_start = obj_deep(fields@);
        let ghost avs = node@.attributes;
        proof {
            assert(avs.skip(0) =~= avs);
        }
        let mut i: usize = 0;
        while i < node.attributes.len()
            invariant
                i <= avs.len(),
                add_attributes(obj_deep(fields@), avs.skip(i as int), self@.attribute_prefix)
                    == add_attributes(f1_start, avs, self@.attribute_prefix),
            decreases avs.len() - i,
        {
            let a = &node.attributes[i];
            let key = self.attribute_prefix.clone().concat(a.0.as_str());
            let val = Json::Str(trim(a.1.as_str()));
            let ghost before = obj_deep(fields@);
            insert_field(&mut fields, key, val);
            proof {
                assert(avs.skip(i as int)[0] == avs[i as int]);
                assert(avs.skip(i as int).drop_first() =~= avs.skip(i as int + 1));
                assert(add_attributes(before, avs.skip(i as int), self@.attribute_prefix)
                    == add_attributes(
                    obj_deep(fields@),
                    avs.skip(i as int + 1),
                    self@.attribute_prefix,
                ));
            }
            i += 1;
        }
        proof {
            assert(avs.skip(avs.len() as int) =~= Seq::<(Seq<char>, Seq<char>)>::empty());
        }
        let ghost f2_start = obj_deep(fields@);
        let ghost cvs = node@.children;
        proof {
            lemma_nodes_deep(node.children@);
            assert(cvs.skip(0) =~= cvs);
        }
        let mut c: usize = 0;
        while c < node.children.len()
            invariant
                c <= cvs.len(),
                add_children(self@, obj_deep(fields@), cvs.skip(c as int)) == add_children(
                    self@,
                    f2_start,
                    cvs,
                ),
            decreases cvs.len() - c,
        {
            let child = &node.children[c];
            proof {
                assert(child.deep() == cvs[c as int]);
                assert(cvs.skip(c as int)[0] == cvs[c as int]);
                assert(cvs.skip(c as int).drop_first() =~= cvs.skip(c as int + 1));
            }
            let ghost before = obj_deep(fields@);
            if !child.name.as_str().is_empty() {
                proof {
                    assert(decreases_to!(node.children => node.children@));
                    assert(decreases_to!(node.children@ => node.children@[c as int]));
                }
                match self.parse_node(child) {
                    Some(cv) => {
                        let ghost fv0 = fields@;
                        proof {
                            lemma_obj_deep(fv0);
                        }
                        match find_key(&fields, child.name.as_str()) {
                            None => {
                                fields.push((child.name.clone(), cv));
                                proof {
                                    lemma_obj_deep(fields@);
                                    assert(obj_deep(fields@) =~= before.push(
                                        (child@.name, cv@),
                                    ));
                                }
                            },
                            Some(j) => {
                                proof {
                                    lemma_key_index(before, child@.name);
                                }
                                let pair = fields.remove(j);
                                match pair.1 {
                                    Json::Arr(mut arr) => {
                                        let ghost arr0 = arr@;
                                        arr.push(cv);
                                        fields.insert(j, (pair.0, Json::Arr(arr)));
                                        proof {
                                            lemma_obj_deep(fields@);
                                            lemma_arr_deep(arr@);
                                            lemma_arr_deep(arr0);
                                            assert(arr_deep(arr@) =~= arr_deep(arr0).push(cv@));
                                            assert(obj_deep(fields@) =~= before.update(
                                                j as int,
                                                (
                                                    child@.name,
                                                    JsonV::Arr(arr_deep(arr0).push(cv@)),
                                                ),
                                            ));
                                        }
                                    },
                                    other => {
                                        let mut two: Vec<Json> = Vec::new();
                                        two.push(other);
                                        two.push(cv);
                                        fields.insert(j, (pair.0, Json::Arr(two)));
                                        proof {
                                            lemma_obj_deep(fields@);
                                            lemma_arr_deep(two@);
                                            assert(arr_deep(two@) =~= seq![
                                                before[j as int].1,
                                                cv@,
                                            ]);
                                            assert(obj_deep(fields@) =~= before.update(
                                                j as int,
                                                (
                                                    child@.name,
                                                    JsonV::Arr(seq![before[j as int].1, cv@]),
                                                ),
                                            ));
                                        }
                                    },
                                }
                            },
                        }
                    },
                    None => {},
                }
            }
            proof {
                assert(add_children(self@, before, cvs.skip(c as int)) == add_children(
                    self@,
                    obj_deep(fields@),
                    cvs.skip(c as int + 1),
                ));
            }
            c += 1;
        }
        proof {
            assert(cvs.skip(cvs.len() as int) =~= Seq::<XmlNodeV>::empty());
            lemma_obj_deep(fields@);
        }
        if fields.len() == 0 {
            None
        } else {
            Some(Json::Obj(fields))
        }
    }

    /// Renames the text key to `$text`, the key under which the quick-xml
    /// serializer expects an element's text when re-encoding the value.
    pub fn prepare_for_quick_xml(self, input: Json) -> (r: Json)
        ensures
            r@ == rename_value(input@, self@.text_name, "$text"@),
    {
        let text_name = self.text_name;
        Self::rename_keys(input, text_name.as_str(), "$text")
    }

    /// Renames a key everywhere in a structured value, as `rename_value`
    /// describes it; used to translate the text key into the convention of
    /// a different XML encoder before re-serialization.
    #[verifier::loop_isolation(false)]
    pub fn rename_keys(input: Json, old_key: &str, new_key: &str) -> (r: Json)
        ensures
            r@ == rename_value(input@, old_key@, new_key@),
        decreases input,
    {
        match input {
            Json::Null => Json::Null,
            Json::Str(s) => Json::Str(s),
            Json::Arr(mut items) => {
                let ghost items0 = items;
                let ghost orig = items@;
                let mut i: usize = 0;
                while i < items.len()
                    invariant
                        items@.len() == orig.len(),
                        i <= orig.len(),
                        forall|j: int|
                            0 <= j < i ==> items@[j].deep() == rename_value(
                                orig[j].deep(),
                                old_key@,
                                new_key@,
                            ),
                        forall|j: int| i <= j < orig.len() ==> items@[j] == orig[j],
                    decreases orig.len() - i,
                {
                    let x = items.remove(i);
                    proof {
                        assert(x == orig[i as int]);
                        assert(decreases_to!(input => input->Arr_0));
                        assert(input->Arr_0 == items0);
                        assert(decreases_to!(items0 => items0@));
                        assert(decreases_to!(items0@ => items0@[i as int]));
                        assert(decreases_to!(input => x));
                    }
                    let y = Self::rename_keys(x, old_key, new_key);
                    items.insert(i, y);
                    i += 1;
                }
                proof {
                    lemma_arr_deep(items@);
                    lemma_arr_deep(orig);
                    lemma_rename_arr(arr_deep(orig), old_key@, new_key@);
                    assert(arr_deep(items@) =~= rename_arr(arr_deep(orig), old_key@, new_key@));
                }
                Json::Arr(items)
            },
            Json::Obj(mut fields) => {
                let ghost fields0 = fields;
                let ghost orig = fields@;
                let mut i: usize = 0;
                while i < fields.len()
                    invariant
                        fields@.len() == orig.len(),
                        i <= orig.len(),
                        forall|j: int|
                            0 <= j < i ==> fields@[j].0 == orig[j].0 && fields@[j].1.deep()
                                == rename_value(orig[j].1.deep(), old_key@, new_key@),
                        forall|j: int| i <= j < orig.len() ==> fields@[j] == orig[j],
                    decreases orig.len() - i,
                {
                    let pair = fields.remove(i);
                    proof {
                        assert(pair == orig[i as int]);
                        assert(decreases_to!(input => input->Obj_0));
                        assert(input->Obj_0 == fields0);
                        assert(decreases_to!(fields0 => fields0@));
                        assert(decreases_to!(fields0@ => fields0@[i as int]));
                        assert(decreases_to!(fields0@[i as int] => fields0@[i as int].1));
                        assert(decreases_to!(input => pair.1));
                    }
                    let y = Self::rename_keys(pair.1, old_key, new_key);
                    fields.insert(i, (pair.0, y));
                    i += 1;
                }
                let ghost renamed = rename_fields(obj_deep(orig), old_key@, new_key@);
                proof {
                    lemma_obj_deep(fields@);
                    lemma_obj_deep(orig);
                    lemma_rename_fields(obj_deep(orig), old_key@, new_key@);
                    assert(obj_deep(fields@) =~= renamed);
                }
                match find_key(&fields, old_key) {
                    None => {
                        proof {
                            assert(move_key(renamed, old_key@, new_key@) == renamed);
                        }
                        Json::Obj(fields)
                    },
                    Some(i) => {
                        let ghost before = obj_deep(fields@);
                        let pair = fields.remove(i);
                        proof {
                            lemma_obj_deep(fields@);
                            assert(obj_deep(fields@) =~= before.remove(i as int));
                            assert(pair.1.deep() == before[i as int].1);
                        }
                        insert_field(&mut fields, new_key.to_owned(), pair.1);
                        proof {
                            assert(obj_deep(fields@) == obj_insert(
                                before.remove(i as int),
                                new_key@,
                                before[i as int].1,
                            ));
                            assert(obj_deep(fields@) == move_key(renamed, old_key@, new_key@));
                        }
                        Json::Obj(fields)
                    },
                }
            },
        }
    }
}

} // verus!
