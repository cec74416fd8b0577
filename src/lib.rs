//! XML compression that exploits the structure of XML documents.
//!
//! A document's parse events become XMLN text, a token stream over thirteen
//! glyphs in which element and attribute names are replaced by codes from a tag
//! table and content characters by fixed-width codes from a symbol table. XMLS
//! packs those glyphs two to a byte, the two tables go in front as headers, and
//! DEFLATE compresses the whole. Decompression reverses each stage.

pub mod compact_tables;
pub mod cursor;
pub mod digits;
pub mod header;
pub mod round_trip;
pub mod stream_round_trip;
pub mod symbol_table;
pub mod tag_table;
mod text;
pub mod xflate;
pub mod xml_source;
pub mod xmlb;
pub mod xmln;
pub mod xmln_decoder;
pub mod xmls;

pub use compact_tables::{DynamicSymbolTable, DynamicTagTable, SymbolTable, TagTable};
pub use cursor::{consume_until_space, consume_until_whitespace};
pub use symbol_table::{XmlNDynamicSymbolTable, XmlNSymbolTable};
pub use tag_table::{XmlNDynamicTagTable, XmlNTagTable};
pub use xflate::{XFlate, XFlateConfig, XFlateError, scan};
pub use xml_source::{XmlAttribute, XmlItem};
pub use xmlb::{
    XmlBCompress, XmlBCompressor, XmlBDecompressor, XmlBDeflateBackend, decode_xmlb, encode_xmlb,
};
pub use xmln::{encode_items, encode_xmln};
pub use xmln_decoder::decode_xmln;
pub use xmls::{decode_xmls, encode_xmls};
