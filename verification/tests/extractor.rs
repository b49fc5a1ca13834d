use transformer::doc_type::{DefinitionList, DefinitionListValue, DetailPage, Type, TypeParseError};

fn page(h1: &str, items: Vec<(&str, DefinitionListValue)>) -> DetailPage {
    let mut dl = DefinitionList::new();
    for (label, value) in items {
        dl.add(label.to_string(), value);
    }
    DetailPage { h1: h1.to_string(), definition_list: dl }
}

fn text(s: &str) -> DefinitionListValue {
    DefinitionListValue::Text(s.to_string())
}

fn markup(s: &str) -> DefinitionListValue {
    DefinitionListValue::Markup(s.to_string())
}

#[test]
fn known_namespaces_prefix_type_names() {
    let table = vec![
        ("http://schemas.dmtf.org/ovf/envelope/1", "ovf"),
        ("http://schemas.dmtf.org/ovf/environment/1", "ovfenv"),
        ("http://schemas.dmtf.org/wbem/wscim/1/common", "cim"),
        ("http://www.vmware.com/vcloud/meta", "meta"),
        ("http://www.vmware.com/schema/ovf", "vmw"),
        ("http://www.vmware.com/vcloud/extension/v1.5", "vcloud-ext"),
        ("http://www.vmware.com/vcloud/versions", "versioning"),
        ("http://www.vmware.com/vcloud/v1.5", "vcloud"),
    ];
    for (uri, prefix) in table {
        let p = page(
            "Ignored",
            vec![("Namespace:", text(uri)), ("Type:", text("Foo"))],
        );
        let t = Type::try_from(p).unwrap();
        assert_eq!(t.type_id, format!("{}_Foo", prefix));
        assert_eq!(t.name, t.type_id);
        assert_eq!(t.namespace, uri);
    }
}

#[test]
fn unknown_namespace_leaves_type_name_unchanged() {
    let p = page(
        "Ignored",
        vec![
            ("Namespace:", text("http://example.com/other")),
            ("Type:", text("Foo")),
        ],
    );
    let t = Type::try_from(p).unwrap();
    assert_eq!(t.type_id, "Foo");
    assert_eq!(t.name, "Foo");
}

#[test]
fn missing_type_label_falls_back_to_title_unprefixed() {
    let p = page(
        "TheTitle",
        vec![("Namespace:", text("http://www.vmware.com/vcloud/v1.5"))],
    );
    let t = Type::try_from(p).unwrap();
    assert_eq!(t.type_id, "TheTitle");
    assert_eq!(t.name, "TheTitle");
}

#[test]
fn elements_deduplicate_preserving_order() {
    let p = page("T", vec![("Elements:", text("A, B, B"))]);
    let t = Type::try_from(p).unwrap();
    assert_eq!(t.elements.len(), 2);
    assert_eq!(t.elements.get(0), "A");
    assert_eq!(t.elements.get(1), "B");
}

#[test]
fn element_label_wins_over_elements() {
    let p = page(
        "T",
        vec![("Element:", text("X")), ("Elements:", text("A, B"))],
    );
    let t = Type::try_from(p).unwrap();
    assert_eq!(t.elements.len(), 1);
    assert_eq!(t.elements.get(0), "X");
}

#[test]
fn elements_drop_empty_and_placeholder_pieces() {
    let p = page("T", vec![("Elements:", text("A,,B"))]);
    let t = Type::try_from(p).unwrap();
    assert_eq!(t.elements.len(), 2);
    assert_eq!(t.elements.get(0), "A");
    assert_eq!(t.elements.get(1), "B");

    let p = page("T", vec![("Element:", text(" None , X,  "))]);
    let t = Type::try_from(p).unwrap();
    assert_eq!(t.elements.len(), 1);
    assert_eq!(t.elements.get(0), "X");
}

#[test]
fn markup_element_value_yields_no_elements() {
    let p = page("T", vec![("Element:", markup("<b>X</b>"))]);
    let t = Type::try_from(p).unwrap();
    assert_eq!(t.elements.len(), 0);
}

#[test]
fn media_types_drop_empty_and_placeholder_pieces() {
    let p = page(
        "T",
        vec![("Media type(s):", text("<br>None<br>application/xml<br>"))],
    );
    let t = Type::try_from(p).unwrap();
    let m = t.media_types.expect("media types documented");
    assert_eq!(m.len(), 1);
    assert_eq!(m.get(0), "application/xml");
}

#[test]
fn media_types_absent_when_label_absent() {
    let p = page("T", vec![("Type:", text("Foo"))]);
    let t = Type::try_from(p).unwrap();
    assert!(t.media_types.is_none());
}

#[test]
fn media_types_deduplicate() {
    let p = page(
        "T",
        vec![("Media type(s):", text("a/b<br>a/b<br>c/d"))],
    );
    let t = Type::try_from(p).unwrap();
    let m = t.media_types.unwrap();
    assert_eq!(m.len(), 2);
    assert_eq!(m.get(0), "a/b");
    assert_eq!(m.get(1), "c/d");
}

#[test]
fn description_extends_and_namespace_fields() {
    let p = page(
        "T",
        vec![
            ("Description:", text("A thing.")),
            ("Extends:", markup("<a>BaseType</a>rendered")),
            ("Namespace:", markup("http://example.com/ns")),
        ],
    );
    let t = Type::try_from(p).unwrap();
    assert_eq!(t.description, "A thing.");
    assert_eq!(t.extends, "<a>BaseType</a>rendered");
    assert_eq!(t.namespace, "http://example.com/ns");
}

#[test]
fn absent_fields_are_empty() {
    let p = page("OnlyTitle", vec![]);
    let t = Type::try_from(p).unwrap();
    assert_eq!(t.type_id, "OnlyTitle");
    assert_eq!(t.elements.len(), 0);
    assert_eq!(t.namespace, "");
    assert_eq!(t.description, "");
    assert!(t.media_types.is_none());
    assert_eq!(t.extends, "");
}

#[test]
fn html_to_mimes_splits_and_filters() {
    let got = transformer::doc_type::html_to_mimes("a/b<br><br>None<br>c/d<br>");
    assert_eq!(got, vec!["a/b".to_string(), "c/d".to_string()]);
}

#[test]
fn parse_error_description_names_the_cause() {
    let e = TypeParseError::DetailPageParseError("bad page".to_string());
    assert_eq!(e.describe(), "Detail Page Parse Error `bad page`");
}
