use std::cell::RefCell;
use std::io::{Cursor, Write};

use openapiv3::{AnySchema, Schema, SchemaData, SchemaKind};
use transformer::harvest::{schemas, ConvertedUnit, HarvestError, SchemaConverter};
use transformer::registry::SchemaRegistry;
use transformer::trusted::open_archive;
use zip::write::SimpleFileOptions;
use zip::ZipWriter;

fn build_zip(entries: &[(&str, &str)]) -> Vec<u8> {
    let mut w = ZipWriter::new(Cursor::new(Vec::new()));
    let options = SimpleFileOptions::default().compression_method(zip::CompressionMethod::Stored);
    for (name, body) in entries {
        w.start_file(name.to_string(), options).unwrap();
        w.write_all(body.as_bytes()).unwrap();
    }
    w.finish().unwrap().into_inner()
}

fn xsd(ns: Option<&str>, id: &str) -> String {
    match ns {
        Some(ns) => format!("<schema targetNamespace=\"{}\" id=\"{}\"/>", ns, id),
        None => format!("<schema id=\"{}\"/>", id),
    }
}

/// A stand-in for the structural converter: one schema per document, titled
/// after the document's `id` attribute and its namespace code, plus one
/// content-type pair; it records the codes it was called with.
struct FakeConverter {
    calls: RefCell<Vec<Option<String>>>,
    fail_on: Option<String>,
}

impl FakeConverter {
    fn new() -> Self {
        FakeConverter { calls: RefCell::new(Vec::new()), fail_on: None }
    }

    fn failing_on(id: &str) -> Self {
        FakeConverter { calls: RefCell::new(Vec::new()), fail_on: Some(id.to_string()) }
    }
}

impl SchemaConverter for FakeConverter {
    fn convert(
        &self,
        code: Option<&str>,
        doc: &xmltree::Element,
        _aux: &Vec<xmltree::Element>,
    ) -> Result<ConvertedUnit, String> {
        self.calls.borrow_mut().push(code.map(|c| c.to_string()));
        let id = doc.attributes.get("id").cloned().unwrap_or_default();
        if self.fail_on.as_deref() == Some(id.as_str()) {
            return Err(format!("refused {}", id));
        }
        let title = format!("{}_{}", code.unwrap_or(""), id);
        let mut data = SchemaData::default();
        data.title = Some(title.clone());
        let schema = Schema { schema_data: data, schema_kind: SchemaKind::Any(AnySchema::default()) };
        Ok(ConvertedUnit {
            schemas: vec![schema],
            content_types: vec![(format!("application/vnd.{}+xml", id), title)],
        })
    }
}

const VCLOUD: &str = "http://www.vmware.com/vcloud/v1.5";
const OVF: &str = "http://schemas.dmtf.org/ovf/envelope/1";

#[test]
fn harvest_reads_converts_and_merges() {
    let bytes = build_zip(&[
        ("doc/etc/one.xsd", &xsd(Some(VCLOUD), "one")),
        ("doc/etc/two.xsd", &xsd(Some(OVF), "two")),
    ]);
    let mut zip = open_archive(bytes).unwrap();
    let mut reg = SchemaRegistry::new();
    let conv = FakeConverter::new();
    let map = schemas(&mut reg, &mut zip, &conv).unwrap();
    assert_eq!(reg.len(), 2);
    // namespace-code order: ovf before vcloud
    assert_eq!(reg.title_at(0), "ovf_two");
    assert_eq!(reg.title_at(1), "vcloud_one");
    assert_eq!(map.len(), 2);
    assert_eq!(map.get("application/vnd.one+xml"), Some(&"vcloud_one".to_string()));
    assert_eq!(map.get("application/vnd.two+xml"), Some(&"ovf_two".to_string()));
}

#[test]
fn harvest_is_independent_of_archive_entry_order() {
    let forward = [
        ("doc/etc/a.xsd", xsd(Some(VCLOUD), "a")),
        ("doc/etc/b.xsd", xsd(Some(OVF), "b")),
        ("doc/etc/c.xsd", xsd(None, "c")),
    ];
    let mut reversed = forward.clone();
    reversed.reverse();
    let run = |entries: &[(&str, String)]| {
        let pairs: Vec<(&str, &str)> =
            entries.iter().map(|(n, b)| (*n, b.as_str())).collect();
        let bytes = build_zip(&pairs);
        let mut zip = open_archive(bytes).unwrap();
        let mut reg = SchemaRegistry::new();
        let conv = FakeConverter::new();
        let map = schemas(&mut reg, &mut zip, &conv).unwrap();
        (reg, map)
    };
    let (reg1, map1) = run(&forward);
    let (reg2, map2) = run(&reversed);
    assert_eq!(reg1, reg2);
    assert_eq!(map1, map2);
}

#[test]
fn documents_are_converted_grouped_by_ascending_code() {
    let bytes = build_zip(&[
        ("doc/etc/z.xsd", &xsd(Some(VCLOUD), "z")),
        ("doc/etc/y.xsd", &xsd(None, "y")),
        ("doc/etc/x.xsd", &xsd(Some(OVF), "x")),
    ]);
    let mut zip = open_archive(bytes).unwrap();
    let mut reg = SchemaRegistry::new();
    let conv = FakeConverter::new();
    schemas(&mut reg, &mut zip, &conv).unwrap();
    let calls = conv.calls.borrow().clone();
    assert_eq!(
        calls,
        vec![None, Some("ovf".to_string()), Some("vcloud".to_string())]
    );
}

#[test]
fn excluded_entries_are_never_parsed_or_converted() {
    let bytes = build_zip(&[
        ("doc/etc/etc/snapshot/in.xsd", &xsd(Some(VCLOUD), "excluded")),
        ("doc/etc/schemas/external/xml.xsd", &xsd(Some(VCLOUD), "excluded")),
        ("doc/etc/etc/schemas/external/xml.xsd", &xsd(Some(VCLOUD), "excluded")),
        ("doc/etc/keep.xsd", &xsd(Some(VCLOUD), "keep")),
    ]);
    let mut zip = open_archive(bytes).unwrap();
    let mut reg = SchemaRegistry::new();
    let conv = FakeConverter::failing_on("excluded");
    let map = schemas(&mut reg, &mut zip, &conv).unwrap();
    assert_eq!(reg.len(), 1);
    assert_eq!(reg.title_at(0), "vcloud_keep");
    assert_eq!(map.len(), 1);
}

#[test]
fn malformed_xml_skips_only_that_file() {
    let bytes = build_zip(&[
        ("doc/etc/bad.xsd", "<schema this is not xml"),
        ("doc/etc/good.xsd", &xsd(Some(VCLOUD), "good")),
    ]);
    let mut zip = open_archive(bytes).unwrap();
    let mut reg = SchemaRegistry::new();
    let conv = FakeConverter::new();
    let map = schemas(&mut reg, &mut zip, &conv).unwrap();
    assert_eq!(reg.len(), 1);
    assert_eq!(reg.title_at(0), "vcloud_good");
    assert_eq!(map.len(), 1);
}

#[test]
fn unreadable_entry_aborts_with_its_name() {
    let body = xsd(Some(VCLOUD), "corrupted-entry-payload");
    let mut bytes = build_zip(&[
        ("doc/etc/broken.xsd", &body),
        ("doc/etc/fine.xsd", &xsd(Some(OVF), "fine")),
    ]);
    // corrupt one byte of the stored entry data so its checksum fails
    let needle = b"corrupted-entry-payload";
    let pos = bytes
        .windows(needle.len())
        .position(|w| w == needle)
        .expect("stored payload present");
    bytes[pos] ^= 0xFF;
    let mut zip = open_archive(bytes).unwrap();
    let mut reg = SchemaRegistry::new();
    let conv = FakeConverter::new();
    let got = schemas(&mut reg, &mut zip, &conv);
    match got {
        Err(HarvestError::ReadEntry { name }) => {
            assert_eq!(name, "doc/etc/broken.xsd");
        }
        other => panic!("expected a read failure, got {:?}", other),
    }
    assert_eq!(reg.len(), 0);
}

#[test]
fn conversion_failure_aborts_with_the_namespace() {
    let bytes = build_zip(&[("doc/etc/only.xsd", &xsd(Some(VCLOUD), "only"))]);
    let mut zip = open_archive(bytes).unwrap();
    let mut reg = SchemaRegistry::new();
    let conv = FakeConverter::failing_on("only");
    let got = schemas(&mut reg, &mut zip, &conv);
    match got {
        Err(HarvestError::Convert { namespace, message }) => {
            assert_eq!(namespace, Some("vcloud".to_string()));
            assert_eq!(message, "refused only");
        }
        other => panic!("expected a conversion failure, got {:?}", other),
    }
}

#[test]
fn empty_titles_never_enter_the_registry() {
    struct UntitledConverter;
    impl SchemaConverter for UntitledConverter {
        fn convert(
            &self,
            _code: Option<&str>,
            _doc: &xmltree::Element,
            _aux: &Vec<xmltree::Element>,
        ) -> Result<ConvertedUnit, String> {
            let untitled =
                Schema { schema_data: SchemaData::default(), schema_kind: SchemaKind::Any(AnySchema::default()) };
            let mut data = SchemaData::default();
            data.title = Some(String::new());
            let empty_titled =
                Schema { schema_data: data, schema_kind: SchemaKind::Any(AnySchema::default()) };
            Ok(ConvertedUnit { schemas: vec![untitled, empty_titled], content_types: vec![] })
        }
    }
    let bytes = build_zip(&[("doc/etc/only.xsd", &xsd(Some(VCLOUD), "only"))]);
    let mut zip = open_archive(bytes).unwrap();
    let mut reg = SchemaRegistry::new();
    let map = schemas(&mut reg, &mut zip, &UntitledConverter).unwrap();
    assert_eq!(reg.len(), 0);
    assert_eq!(map.len(), 0);
}

#[test]
fn duplicate_titles_keep_last_write_and_first_position() {
    struct DupConverter;
    impl SchemaConverter for DupConverter {
        fn convert(
            &self,
            _code: Option<&str>,
            doc: &xmltree::Element,
            _aux: &Vec<xmltree::Element>,
        ) -> Result<ConvertedUnit, String> {
            let id = doc.attributes.get("id").cloned().unwrap_or_default();
            let mut data = SchemaData::default();
            data.title = Some("Dup".to_string());
            data.description = Some(id);
            let schema =
                Schema { schema_data: data, schema_kind: SchemaKind::Any(AnySchema::default()) };
            Ok(ConvertedUnit { schemas: vec![schema], content_types: vec![] })
        }
    }
    let bytes = build_zip(&[
        ("doc/etc/b.xsd", &xsd(Some(VCLOUD), "second")),
        ("doc/etc/a.xsd", &xsd(Some(VCLOUD), "first")),
    ]);
    let mut zip = open_archive(bytes).unwrap();
    let mut reg = SchemaRegistry::new();
    let map = schemas(&mut reg, &mut zip, &DupConverter).unwrap();
    // files are processed in sorted name order: a.xsd then b.xsd; the later
    // insertion wins, in the position the title first took
    assert_eq!(reg.len(), 1);
    assert_eq!(reg.title_at(0), "Dup");
    assert_eq!(reg.schema_at(0).schema_data.description.as_deref(), Some("second"));
    assert_eq!(map.len(), 0);
}

#[test]
fn archive_without_qualifying_entries_harvests_to_nothing() {
    let bytes = build_zip(&[
        ("readme.txt", "hello"),
        ("doc/etc/etc/snapshot/only.xsd", &xsd(Some(VCLOUD), "hidden")),
        ("doc/other/a.xsd", &xsd(Some(VCLOUD), "outside")),
    ]);
    let mut zip = open_archive(bytes).unwrap();
    let mut reg = SchemaRegistry::new();
    let conv = FakeConverter::new();
    let map = schemas(&mut reg, &mut zip, &conv).unwrap();
    assert_eq!(reg.len(), 0);
    assert_eq!(map.len(), 0);
    assert!(conv.calls.borrow().is_empty());
}

#[test]
fn harvest_error_descriptions() {
    let e = HarvestError::ReadEntry { name: "doc/etc/a.xsd".to_string() };
    assert_eq!(e.describe(), "Failed to read file: doc/etc/a.xsd");
    let e = HarvestError::Convert { namespace: Some("ovf".to_string()), message: "m".to_string() };
    assert_eq!(e.describe(), "Failed to parse schema for namespace ovf: m");
    let e = HarvestError::Convert { namespace: None, message: "m".to_string() };
    assert_eq!(e.describe(), "Failed to parse schema for untagged namespace: m");
}
