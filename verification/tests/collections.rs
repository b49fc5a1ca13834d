use openapiv3::{AnySchema, Schema, SchemaData, SchemaKind};
use transformer::harvest::select_schema_names;
use transformer::namespaces::{schema_code, type_prefixed};
use transformer::registry::{ContentTypeMap, SchemaRegistry};
use transformer::strset::StringSet;
use transformer::text::{split_on, str_leq, str_trim};

fn plain_schema(title: Option<&str>) -> Schema {
    let mut data = SchemaData::default();
    data.title = title.map(|t| t.to_string());
    Schema { schema_data: data, schema_kind: SchemaKind::Any(AnySchema::default()) }
}

#[test]
fn schema_code_known_and_default() {
    assert_eq!(schema_code("http://schemas.dmtf.org/ovf/envelope/1"), "ovf");
    assert_eq!(
        schema_code("http://schemas.dmtf.org/wbem/wscim/1/cim-schema/2/CIM_VirtualSystemSettingData"),
        "vssd"
    );
    assert_eq!(schema_code("http://www.vmware.com/vcloud/versions"), "versioning");
    assert_eq!(schema_code("http://nobody.example/ns"), "vcloud");
    assert_eq!(schema_code(""), "vcloud");
}

#[test]
fn type_prefixed_identity_fallback() {
    assert_eq!(
        type_prefixed("Foo".to_string(), "http://www.vmware.com/vcloud/meta"),
        "meta_Foo"
    );
    assert_eq!(type_prefixed("Foo".to_string(), "http://nobody.example/ns"), "Foo");
}

#[test]
fn string_set_keeps_first_occurrences_in_order() {
    let mut s = StringSet::new();
    s.insert("b".to_string());
    s.insert("a".to_string());
    s.insert("b".to_string());
    assert_eq!(s.len(), 2);
    assert_eq!(s.get(0), "b");
    assert_eq!(s.get(1), "a");
    assert!(s.contains("a"));
    assert!(!s.contains("c"));
}

#[test]
fn content_type_map_stays_key_sorted_and_overwrites() {
    let mut m = ContentTypeMap::new();
    m.insert("b/x".to_string(), "B".to_string());
    m.insert("a/x".to_string(), "A".to_string());
    m.insert("c/x".to_string(), "C".to_string());
    m.insert("a/x".to_string(), "A2".to_string());
    assert_eq!(m.len(), 3);
    assert_eq!(m.pair_at(0), (&"a/x".to_string(), &"A2".to_string()));
    assert_eq!(m.pair_at(1), (&"b/x".to_string(), &"B".to_string()));
    assert_eq!(m.pair_at(2), (&"c/x".to_string(), &"C".to_string()));
    assert_eq!(m.get("b/x"), Some(&"B".to_string()));
    assert_eq!(m.get("z/x"), None);
}

#[test]
fn registry_last_write_wins_and_keeps_position() {
    let mut r = SchemaRegistry::new();
    r.insert("First".to_string(), plain_schema(Some("one")));
    r.insert("Second".to_string(), plain_schema(Some("two")));
    r.insert("First".to_string(), plain_schema(Some("replaced")));
    assert_eq!(r.len(), 2);
    assert_eq!(r.title_at(0), "First");
    assert_eq!(r.title_at(1), "Second");
    assert_eq!(r.schema_at(0).schema_data.title.as_deref(), Some("replaced"));
}

#[test]
fn selection_filters_and_sorts() {
    let names = vec![
        "doc/etc/etc/snapshot/inner.xsd".to_string(),
        "doc/etc/schemas/external/xml.xsd".to_string(),
        "doc/etc/etc/schemas/external/xml.xsd".to_string(),
        "doc/etc/b.xsd".to_string(),
        "other/a.xsd".to_string(),
        "doc/etc/a.xsd".to_string(),
        "doc/etc/readme.txt".to_string(),
    ];
    let picked = select_schema_names(names);
    assert_eq!(picked, vec!["doc/etc/a.xsd".to_string(), "doc/etc/b.xsd".to_string()]);
}

#[test]
fn split_trim_and_order_utilities() {
    assert_eq!(split_on("a,b,,c", ","), vec!["a", "b", "", "c"]);
    assert_eq!(split_on("x<br>y", "<br>"), vec!["x", "y"]);
    assert_eq!(str_trim("  padded\t"), "padded");
    assert_eq!(str_trim("\u{00A0}nbsp\u{00A0}"), "nbsp");
    assert!(str_leq("abc", "abd"));
    assert!(str_leq("ab", "abc"));
    assert!(!str_leq("b", "abc"));
}
