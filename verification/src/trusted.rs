//! Declarations of, and wrappers around, the outside crates the harvester
//! works with: the zip archive reader, the XML parser and the OpenAPI schema
//! type.  Each wrapper's contract states only what the crate's own source
//! shows; Verus believes these contracts without proof.

use vstd::prelude::*;

verus! {

#[verifier::external_type_specification]
#[verifier::external_body]
#[verifier::reject_recursive_types(R)]
pub struct ExZipArchive<R>(zip::read::ZipArchive<R>);

#[verifier::external_type_specification]
#[verifier::external_body]
#[verifier::reject_recursive_types(T)]
pub struct ExCursor<T>(std::io::Cursor<T>);

#[verifier::external_type_specification]
#[verifier::external_body]
pub struct ExElement(xmltree::Element);

#[verifier::external_type_specification]
#[verifier::external_body]
pub struct ExSchema(openapiv3::Schema);

/// The entries of an opened archive: each entry name's full contents.  An
/// archive value determines its entries; nothing else does.
pub uninterp spec fn zip_entry_map(z: zip::read::ZipArchive<std::io::Cursor<Vec<u8>>>) -> Map<
    Seq<char>,
    Seq<u8>,
>;

/// Whether the bytes are well-formed XML, which the parser alone decides,
/// the same way for the same bytes everywhere.
pub uninterp spec fn xml_well_formed(bytes: Seq<u8>) -> bool;

/// The document that well-formed bytes parse to, a function of the bytes
/// alone.
pub uninterp spec fn xml_doc_of(bytes: Seq<u8>) -> xmltree::Element;

/// The `targetNamespace` attribute of a parsed document, which depends on the
/// document alone.
pub uninterp spec fn xml_target_namespace(e: xmltree::Element) -> Option<Seq<char>>;

/// The title a converted schema carries, which depends on the value alone.
pub uninterp spec fn schema_title_of(s: openapiv3::Schema) -> Option<Seq<char>>;

/// Relies on zip::ZipArchive::new: opens an archive over in-memory bytes, or
/// fails on bytes that are no archive.
#[verifier::external_body]
pub fn open_archive(bytes: Vec<u8>) -> (r: Result<
    zip::read::ZipArchive<std::io::Cursor<Vec<u8>>>,
    String,
>)
{
    zip::read::ZipArchive::new(std::io::Cursor::new(bytes)).map_err(|e| e.to_string())
}

/// Relies on zip::ZipArchive::file_names: every entry name of the archive's
/// central directory, in no promised order.
#[verifier::external_body]
pub fn archive_names(z: &zip::read::ZipArchive<std::io::Cursor<Vec<u8>>>) -> (r: Vec<String>)
    ensures
        forall|i: int| 0 <= i < r@.len() ==> zip_entry_map(*z).dom().contains(#[trigger] r@[i]@),
        forall|n: Seq<char>|
            zip_entry_map(*z).dom().contains(n) ==> exists|i: int|
                0 <= i < r@.len() && #[trigger] r@[i]@ == n,
{
    z.file_names().map(|s| s.to_string()).collect()
}

/// Relies on zip::ZipArchive::by_name and std::io::Read::read_to_end: the
/// named entry's bytes when both succeed; reading never alters the entries.
#[verifier::external_body]
pub fn read_entry(z: &mut zip::read::ZipArchive<std::io::Cursor<Vec<u8>>>, name: &str) -> (r:
    Option<Vec<u8>>)
    ensures
        zip_entry_map(*final(z)) == zip_entry_map(*old(z)),
        r matches Some(b) ==> zip_entry_map(*old(z)).dom().contains(name@) && b@ == zip_entry_map(
            *old(z),
        )[name@],
{
    let mut file = match z.by_name(name) {
        Ok(f) => f,
        Err(_) => return None,
    };
    let mut buf = Vec::new();
    match std::io::Read::read_to_end(&mut file, &mut buf) {
        Ok(_) => Some(buf),
        Err(_) => None,
    }
}

/// Relies on xmltree::Element::parse: the bytes' document for well-formed
/// XML, nothing for malformed input; parsing is a function of the bytes.
#[verifier::external_body]
pub fn parse_xml(bytes: &Vec<u8>) -> (r: Option<xmltree::Element>)
    ensures
        match r {
            Some(e) => xml_well_formed(bytes@) && e == xml_doc_of(bytes@),
            None => !xml_well_formed(bytes@),
        },
{
    xmltree::Element::parse(bytes.as_slice()).ok()
}

/// Relies on the `attributes` map of xmltree::Element: the value under
/// `targetNamespace`, a function of the document.
#[verifier::external_body]
pub fn target_namespace(e: &xmltree::Element) -> (r: Option<String>)
    ensures
        match r {
            Some(s) => xml_target_namespace(*e) == Some(s@),
            None => xml_target_namespace(*e) is None,
        },
{
    e.attributes.get("targetNamespace").cloned()
}

/// Relies on the `schema_data.title` field of openapiv3::Schema: the schema's
/// title, a function of the value.
#[verifier::external_body]
pub fn schema_title(s: &openapiv3::Schema) -> (r: Option<String>)
    ensures
        match r {
            Some(t) => schema_title_of(*s) == Some(t@),
            None => schema_title_of(*s) is None,
        },
{
    s.schema_data.title.clone()
}

} // verus!
