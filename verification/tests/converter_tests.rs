use xml_to_json::{Json, XmlNode, XmlToJson};

fn s(text: &str) -> Json {
    Json::Str(text.to_string())
}

fn obj(entries: Vec<(&str, Json)>) -> Json {
    Json::Obj(entries.into_iter().map(|(k, v)| (k.to_string(), v)).collect())
}

#[test]
fn test_basic_xml_to_json() {
    let simple_xml = "<a><b>simple</b></a>";
    assert_eq!(
        XmlToJson::default().xml_to_json(simple_xml).unwrap(),
        obj(vec![("b", obj(vec![("#text", s("simple"))]))])
    );
}

#[test]
fn test_setup_xml_to_json() {
    let simple_xml = "<a><b>simple</b></a>";
    assert_eq!(
        XmlToJson::default()
            .with_root()
            .xml_to_json(simple_xml)
            .unwrap(),
        obj(vec![("a", obj(vec![("b", obj(vec![("#text", s("simple"))]))]))])
    );
    assert_eq!(
        XmlToJson::default()
            .with_text_name("$text")
            .xml_to_json(simple_xml)
            .unwrap(),
        obj(vec![("b", obj(vec![("$text", s("simple"))]))])
    );
    assert_eq!(
        XmlToJson::default()
            .with_root()
            .with_text_name("$text")
            .xml_to_json(simple_xml)
            .unwrap(),
        obj(vec![("a", obj(vec![("b", obj(vec![("$text", s("simple"))]))]))])
    );
}

#[test]
fn test_extended_xml_to_json() {
    let array_xml = "<a><b>simple</b><b>2</b></a>";
    assert_eq!(
        XmlToJson::default().xml_to_json(array_xml).unwrap(),
        obj(vec![(
            "b",
            Json::Arr(vec![
                obj(vec![("#text", s("simple"))]),
                obj(vec![("#text", s("2"))]),
            ])
        )])
    );

    let nested_xml = "<a><b>simple</b><b><c><d>D</d></c></b></a>";
    assert_eq!(
        XmlToJson::default().xml_to_json(nested_xml).unwrap(),
        obj(vec![(
            "b",
            Json::Arr(vec![
                obj(vec![("#text", s("simple"))]),
                obj(vec![("c", obj(vec![("d", obj(vec![("#text", s("D"))]))]))]),
            ])
        )])
    );

    let nested_with_xml_with_attributes =
        "<a><b href=\"#self\">simple</b><b><c class=\"my_class\"><d>D</d><d>1</d></c></b></a>";
    assert_eq!(
        XmlToJson::default()
            .xml_to_json(nested_with_xml_with_attributes)
            .unwrap(),
        obj(vec![(
            "b",
            Json::Arr(vec![
                obj(vec![("#text", s("simple")), ("@href", s("#self"))]),
                obj(vec![(
                    "c",
                    obj(vec![
                        ("@class", s("my_class")),
                        (
                            "d",
                            Json::Arr(vec![
                                obj(vec![("#text", s("D"))]),
                                obj(vec![("#text", s("1"))]),
                            ])
                        ),
                    ])
                )]),
            ])
        )])
    );
}

#[test]
fn attribute_prefixing() {
    // an attribute-bearing element with text: the text key comes first,
    // then the prefixed attribute
    let xml = "<a><b href=\"#self\">x</b></a>";
    assert_eq!(
        XmlToJson::default().xml_to_json(xml).unwrap(),
        obj(vec![(
            "b",
            obj(vec![("#text", s("x")), ("@href", s("#self"))])
        )])
    );
}

#[test]
fn empty_leaf_is_elided() {
    // a leaf with no text, no attributes and no children contributes no key;
    // its non-empty sibling is the only entry left
    let xml = "<a><b></b><c>X</c></a>";
    assert_eq!(
        XmlToJson::default().xml_to_json(xml).unwrap(),
        obj(vec![("c", obj(vec![("#text", s("X"))]))])
    );
}

#[test]
fn empty_document_converts_to_null() {
    let xml = "<a></a>";
    assert_eq!(XmlToJson::default().xml_to_json(xml).unwrap(), Json::Null);
}

#[test]
fn text_and_attribute_values_are_trimmed() {
    let xml = "<a><b href=\" #self \">  hi there  </b></a>";
    assert_eq!(
        XmlToJson::default().xml_to_json(xml).unwrap(),
        obj(vec![(
            "b",
            obj(vec![("#text", s("hi there")), ("@href", s("#self"))])
        )])
    );
}

#[test]
fn whitespace_only_text_keeps_an_empty_text_key() {
    // a text node that trims to nothing still leaves its (empty) text entry
    let xml = "<a><b> </b></a>";
    assert_eq!(
        XmlToJson::default().xml_to_json(xml).unwrap(),
        obj(vec![("b", obj(vec![("#text", s(""))]))])
    );
}

#[test]
fn three_siblings_grow_the_array() {
    let xml = "<a><b>1</b><b>2</b><b>3</b></a>";
    assert_eq!(
        XmlToJson::default().xml_to_json(xml).unwrap(),
        obj(vec![(
            "b",
            Json::Arr(vec![
                obj(vec![("#text", s("1"))]),
                obj(vec![("#text", s("2"))]),
                obj(vec![("#text", s("3"))]),
            ])
        )])
    );
}

#[test]
fn text_key_colliding_with_a_child_tag_is_promoted() {
    // with the text stored under "b", a child also tagged "b" turns the
    // entry into an array holding the text and the child's object
    let xml = "<a>t<b>x</b></a>";
    assert_eq!(
        XmlToJson::default()
            .with_text_name("b")
            .xml_to_json(xml)
            .unwrap(),
        obj(vec![(
            "b",
            Json::Arr(vec![s("t"), obj(vec![("b", s("x"))])])
        )])
    );
}

#[test]
fn root_wrapping_an_empty_root_yields_null() {
    let xml = "<a></a>";
    assert_eq!(
        XmlToJson::default().with_root().xml_to_json(xml).unwrap(),
        obj(vec![("a", Json::Null)])
    );
}

#[test]
fn malformed_xml_is_a_parse_error() {
    assert!(XmlToJson::default().xml_to_json("<a>").is_err());
    assert!(XmlToJson::default().xml_to_json("no xml at all").is_err());
}

#[test]
fn parse_node_on_a_hand_built_tree() {
    let node = XmlNode {
        name: "b".to_string(),
        attributes: vec![("href".to_string(), "#self".to_string())],
        text: Some("x".to_string()),
        children: vec![
            // a non-element child is skipped
            XmlNode {
                name: "".to_string(),
                attributes: vec![],
                text: Some("x".to_string()),
                children: vec![],
            },
            XmlNode {
                name: "c".to_string(),
                attributes: vec![],
                text: Some("y".to_string()),
                children: vec![],
            },
        ],
    };
    let converted = XmlToJson::default().parse_node(&node).unwrap();
    assert_eq!(
        converted,
        obj(vec![
            ("#text", s("x")),
            ("@href", s("#self")),
            ("c", obj(vec![("#text", s("y"))])),
        ])
    );
}

#[test]
fn parse_node_elides_an_empty_element() {
    let node = XmlNode {
        name: "b".to_string(),
        attributes: vec![],
        text: None,
        children: vec![],
    };
    assert!(XmlToJson::default().parse_node(&node).is_none());
}

#[test]
fn rename_keys_renames_everywhere() {
    let v = obj(vec![
        ("x", obj(vec![("a", s("1"))])),
        ("items", Json::Arr(vec![obj(vec![("a", s("2"))]), Json::Null])),
    ]);
    let renamed = XmlToJson::rename_keys(v, "a", "b");
    assert_eq!(
        renamed,
        obj(vec![
            ("x", obj(vec![("b", s("1"))])),
            ("items", Json::Arr(vec![obj(vec![("b", s("2"))]), Json::Null])),
        ])
    );
}

#[test]
fn rename_keys_moves_the_renamed_key_last() {
    let v = obj(vec![("a", s("1")), ("z", s("2"))]);
    let renamed = XmlToJson::rename_keys(v, "a", "b");
    assert_eq!(renamed, obj(vec![("z", s("2")), ("b", s("1"))]));
}

#[test]
fn rename_round_trip_restores_the_value() {
    // the renamed key sits last in its object, so renaming there and back
    // restores the value exactly
    let v = obj(vec![
        ("x", s("0")),
        ("a", obj(vec![("inner", s("1")), ("a", s("2"))])),
    ]);
    let there = XmlToJson::rename_keys(v, "a", "b");
    let back = XmlToJson::rename_keys(there, "b", "a");
    let expected = obj(vec![
        ("x", s("0")),
        ("a", obj(vec![("inner", s("1")), ("a", s("2"))])),
    ]);
    assert_eq!(back, expected);
}

#[test]
fn prepare_for_quick_xml_renames_the_text_key() {
    let parser = XmlToJson::default();
    let v = parser.xml_to_json("<a><b>simple</b></a>").unwrap();
    let prepared = XmlToJson::default().prepare_for_quick_xml(v);
    assert_eq!(
        prepared,
        obj(vec![("b", obj(vec![("$text", s("simple"))]))])
    );
}
