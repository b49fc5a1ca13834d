//! Normalization of scraped API documentation and XSD schema archives.
//!
//! The crate turns one parsed documentation page into a canonical [`doc_type::Type`]
//! record, and harvests an archive of XML Schema files into a registry of named
//! schema components plus a content-type lookup, with deterministic ordering.

pub mod doc_type;
pub mod harvest;
pub mod namespaces;
pub mod registry;
pub mod strset;
pub mod text;
pub mod trusted;
