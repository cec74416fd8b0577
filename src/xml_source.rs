//! The events of an XML document, as the `xml` crate's pull parser reads them.

use vstd::prelude::*;

use xml::reader::XmlEvent;
use xml::ParserConfig;

verus! {

/// One attribute of a start tag, its name possibly prefixed.
pub struct XmlAttribute {
    pub prefix: Option<String>,
    pub local: String,
    pub value: String,
}

/// One event of a pull parse of an XML document.
pub enum XmlItem {
    /// An event that carries nothing for the encoding: the document's start or
    /// end, or its doctype.
    Other,
    /// A start tag, its name possibly prefixed, its attributes in document order.
    Start { prefix: Option<String>, local: String, attributes: Vec<XmlAttribute> },
    End,
    /// Character data, whitespace included.
    Text(String),
    /// A comment, a CDATA section or a processing instruction.
    Unsupported,
    /// The parser's report on a malformed document; nothing follows it.
    Malformed(String),
}

/// The events that the XML parser reads from a document.
pub uninterp spec fn xml_items(doc: Seq<u8>) -> Seq<XmlItem>;

/// Relies on `xml::EventReader`, made by `ParserConfig` with comments reported: the
/// events it reads from a document, up to the end of the document or the first
/// error; the parse depends on the bytes alone.
#[verifier::external_body]
pub(crate) fn parse_xml(doc: &[u8]) -> (r: Vec<XmlItem>)
    ensures
        r@ == xml_items(doc@),
{
    ParserConfig::new().ignore_comments(false).create_reader(doc).into_iter().map(|event| match event {
        Ok(XmlEvent::StartElement { name, attributes, .. }) => XmlItem::Start {
            prefix: name.prefix,
            local: name.local_name,
            attributes: attributes.into_iter().map(|a| XmlAttribute {
                prefix: a.name.prefix, local: a.name.local_name, value: a.value,
            }).collect(),
        },
        Ok(XmlEvent::EndElement { .. }) => XmlItem::End,
        Ok(XmlEvent::Characters(s) | XmlEvent::Whitespace(s)) => XmlItem::Text(s),
        Ok(XmlEvent::StartDocument { .. } | XmlEvent::EndDocument | XmlEvent::Doctype { .. }) => XmlItem::Other,
        Ok(_) => XmlItem::Unsupported,
        Err(e) => XmlItem::Malformed(e.to_string()),
    }).collect()
}

} // verus!
