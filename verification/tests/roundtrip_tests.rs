use xml_to_json::{Json, XmlToJson};

/// Rebuilds the library's structured value as a `serde_json::Value` so the
/// quick-xml serializer can consume it; entry order is preserved.
fn to_serde_value(v: Json) -> serde_json::Value {
    match v {
        Json::Null => serde_json::Value::Null,
        Json::Str(s) => serde_json::Value::String(s),
        Json::Arr(items) => {
            serde_json::Value::Array(items.into_iter().map(to_serde_value).collect())
        }
        Json::Obj(fields) => {
            let mut map = serde_json::Map::new();
            for (k, val) in fields {
                map.insert(k, to_serde_value(val));
            }
            serde_json::Value::Object(map)
        }
    }
}

#[test]
fn test_serde_xml_to_json_to_xml() {
    let xml =
        "<a><b href=\"#self\">simple</b><b><c class=\"my_class\"><d>D</d><d>1</d></c></b></a>";
    let parser = XmlToJson::default();
    let json_value = parser.xml_to_json(xml).unwrap();
    let comp_value = to_serde_value(XmlToJson::default().prepare_for_quick_xml(json_value));
    assert_eq!(
        xml,
        quick_xml::se::to_string_with_root("a", &comp_value).unwrap()
    );
}
