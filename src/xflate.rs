//! The compressor: XMLN encoding, headers, nibble packing and DEFLATE, and back.

use vstd::prelude::*;

use vstd::utf8::{encode_utf8, valid_utf8};

use crate::cursor::{cursor_peeked, cursor_rest, multipeek_chars, next_char};
use crate::digits::{count_digits, digit_count, lemma_digit_count, pow10};
use crate::header::{
    parse_symbol_header, parse_tag_header, parsed_symbol_header, parsed_tag_header,
    symbol_header, symbol_header_text, tag_header, tag_header_text,
};
use crate::symbol_table::{XmlNDynamicSymbolTable, XmlNSymbolTable, position_of, with_symbol};
use crate::tag_table::{XmlNDynamicTagTable, XmlNTagTable};
use crate::stream_round_trip::leading_text_of;
use crate::text::{chars_of, string_of};
use crate::xml_source::{XmlAttribute, XmlItem, parse_xml, xml_items};
use crate::xmlb::{
    XmlBCompress, XmlBCompressor, XmlBDecompressor, XmlBDeflateBackend, decode_xmlb, deflated,
    encode_xmlb, inflated, inflates, level_of,
};
use crate::xmln::{encode_items_spec, encode_xmln, joined, lemma_xmln_alphabet, start, symbols_after};
use crate::xmln_decoder::{decode_xmln, decoded_xmln};
use crate::xmls::{decode_xmls, encode_xmls, packed, unpacked, valid_nibbles};

verus! {

/// The failure of one stage of the pipeline, with a message for people.
#[derive(Debug)]
pub enum XFlateError {
    PrePassError(String),
    XmlNError(String),
    XmlSError(String),
    XmlBError(String),
}

/// The characters of the valid UTF-8 text at the start of some bytes.
pub uninterp spec fn utf8_lead(b: Seq<u8>) -> Seq<char>;

/// Relies on `<[u8]>::utf8_chunks`: the valid part of the first chunk, that is the
/// text that the bytes begin with, up to the first sequence that is not valid
/// UTF-8; so no longer start of the bytes is valid UTF-8.
#[verifier::external_body]
fn leading_text(b: &[u8]) -> (r: String)
    ensures
        r@ == utf8_lead(b@),
        encode_utf8(r@).is_prefix_of(b@),
        forall|k: int|
            0 <= k <= b@.len() && #[trigger] valid_utf8(b@.take(k)) ==> k <= encode_utf8(r@).len(),
{
    b.utf8_chunks().next().map_or(String::new(), |chunk| chunk.valid().to_owned())
}

/// The bytes that follow the two headers: what is left of the leading text,
/// re-encoded, then every byte after that text.
pub open spec fn body_after_headers(b: Seq<u8>, rest: Seq<char>) -> Seq<u8> {
    encode_utf8(rest) + b.skip(encode_utf8(utf8_lead(b)).len() as int)
}

/// Whether both headers and the packed body of inflated bytes are well formed.
pub open spec fn framing_ok(b: Seq<u8>) -> bool {
    match parsed_tag_header(utf8_lead(b)) {
        None => false,
        Some((tags, r1)) => match parsed_symbol_header(r1) {
            None => false,
            Some((w, syms, r2)) => valid_nibbles(body_after_headers(b, r2)),
        },
    }
}

/// The XML text that inflated bytes decode to: tables from the headers, then the body.
pub open spec fn unpacked_stream(b: Seq<u8>) -> Option<Seq<char>> {
    match parsed_tag_header(utf8_lead(b)) {
        None => None,
        Some((tags, r1)) => match parsed_symbol_header(r1) {
            None => None,
            Some((w, syms, r2)) => {
                let body = body_after_headers(b, r2);
                if valid_nibbles(body) {
                    decoded_xmln(unpacked(body), syms, w, tags)
                } else {
                    None
                }
            },
        },
    }
}

/// The bytes that go to the back end: the headers that are asked for, then the
/// packed XMLN text.
pub open spec fn framed(
    config: XFlateConfig,
    w: nat,
    syms: Seq<char>,
    tags: Seq<Seq<char>>,
    xmln: Seq<char>,
) -> Seq<u8> {
    let with_symbols = if config.add_symbol_header {
        encode_utf8(symbol_header_text(w, syms)) + packed(xmln)
    } else {
        packed(xmln)
    };
    if config.add_tag_header {
        encode_utf8(tag_header_text(tags)) + with_symbols
    } else {
        with_symbols
    }
}

/// The compressor: the two tables, the back end and the settings.
pub struct XFlate {
    sym_table: XmlNDynamicSymbolTable,
    tag_table: XmlNDynamicTagTable,
    backend: XmlBDeflateBackend,
    config: XFlateConfig,
}

impl XFlate {
    /// Whether both tables are well formed.
    pub closed spec fn wf(&self) -> bool {
        &&& self.sym_table.wf()
        &&& self.tag_table.wf()
        &&& self.backend.opt == self.config.xmlb_opt
    }

    /// The symbols of the symbol table, in code order.
    pub closed spec fn symbols(&self) -> Seq<char> {
        self.sym_table.symbols()
    }

    /// The width of the symbol codes.
    pub closed spec fn width(&self) -> nat {
        self.sym_table.width()
    }

    /// The names of the tag table, in code order.
    pub closed spec fn tags(&self) -> Seq<Seq<char>> {
        self.tag_table.tags()
    }

    /// The settings.
    pub closed spec fn settings(&self) -> XFlateConfig {
        self.config
    }

    /// A compressor with empty tables whose symbol codes have `config.symbol_size` digits.
    pub fn new(config: XFlateConfig) -> (r: Self)
        ensures
            r.wf(),
            r.symbols() == Seq::<char>::empty(),
            r.width() == config.symbol_size,
            r.tags() == Seq::<Seq<char>>::empty(),
            r.settings() == config,
    {
        XFlate {
            sym_table: XmlNDynamicSymbolTable::new(config.symbol_size),
            tag_table: XmlNDynamicTagTable::new(),
            backend: XmlBDeflateBackend::new(config.xmlb_opt),
            config,
        }
    }

    /// Compresses an XML document: XMLN encoding into the tables, the headers,
    /// nibble packing, then DEFLATE.
    pub fn compress(&mut self, xml: &[u8]) -> (r: Result<Vec<u8>, XFlateError>)
        requires
            old(self).wf(),
        ensures
            final(self).wf(),
            final(self).settings() == old(self).settings(),
            final(self).width() == old(self).width(),
            match encode_items_spec(
                start(old(self).symbols(), old(self).tags()),
                old(self).width(),
                xml_items(xml@),
            ) {
                None => r matches Err(XFlateError::XmlNError(_)),
                Some(c) => {
                    &&& final(self).symbols() == c.syms
                    &&& final(self).tags() == c.tags
                    &&& r matches Ok(v) ==> v@ == deflated(
                        level_of(old(self).settings().xmlb_opt),
                        framed(old(self).settings(), old(self).width(), c.syms, c.tags, joined(c.tokens)),
                    )
                    &&& r matches Ok(v) ==> inflated(v@) == framed(
                        old(self).settings(),
                        old(self).width(),
                        c.syms,
                        c.tags,
                        joined(c.tokens),
                    )
                    &&& (r matches Ok(v) ==> inflates(v@))
                    &&& r is Ok
                },
            },
    {
        let xmln = match encode_xmln(xml, &mut self.sym_table, &mut self.tag_table) {
            Ok(x) => x,
            Err(e) => {
                return Err(e);
            },
        };
        proof {
            self.sym_table.lemma_wf();
            let w = old(self).width();
            old(self).sym_table.lemma_wf();
            lemma_xmln_alphabet(old(self).symbols(), old(self).tags(), w, xml_items(xml@));
        }
        let mut xmls = match encode_xmls(xmln.as_str()) {
            Ok(v) => v,
            Err(e) => {
                return Err(e);
            },
        };
        let mut body = if self.config.add_symbol_header {
            let mut header = symbol_header(&self.sym_table);
            header.append(&mut xmls);
            header
        } else {
            xmls
        };
        let body = if self.config.add_tag_header {
            let mut header = tag_header(&self.tag_table);
            header.append(&mut body);
            header
        } else {
            body
        };
        proof {
            assert(body@ == framed(
                self.config,
                self.sym_table.width(),
                self.sym_table.symbols(),
                self.tag_table.tags(),
                xmln@,
            ));
        }
        encode_xmlb(body.as_slice(), &self.backend)
    }

    /// Decodes inflated bytes: the tag header and the symbol header, which become
    /// this compressor's tables, then the packed body.
    pub fn unpack(&mut self, xmls_raw: &[u8]) -> (r: Result<String, XFlateError>)
        ensures
            unpacked_stream(xmls_raw@) matches Some(v) ==> (r matches Ok(s) && s@ == v),
            unpacked_stream(xmls_raw@) is None ==> r is Err,
            !framing_ok(xmls_raw@) ==> r matches Err(XFlateError::XmlSError(_)),
            framing_ok(xmls_raw@) && unpacked_stream(xmls_raw@) is None ==> r matches Err(
                XFlateError::XmlNError(_),
            ),
            leading_text_of(xmls_raw@, utf8_lead(xmls_raw@)),
            final(self).settings() == old(self).settings(),
    {
        let head = leading_text(xmls_raw);
        let mut chars = multipeek_chars(chars_of(head.as_str()));
        let tag_table = match parse_tag_header(&mut chars) {
            Ok(t) => t,
            Err(e) => {
                return Err(e);
            },
        };
        let sym_table = match parse_symbol_header(&mut chars) {
            Ok(t) => t,
            Err(e) => {
                return Err(e);
            },
        };
        let ghost r2 = cursor_rest(chars);
        let mut rest: Vec<char> = Vec::new();
        loop
            invariant
                r2 == rest@ + cursor_rest(chars),
            ensures
                r2 == rest@,
            decreases cursor_rest(chars).len(),
        {
            let ghost before = cursor_rest(chars);
            match next_char(&mut chars) {
                Some(c) => {
                    rest.push(c);
                    proof {
                        assert(r2 =~= rest@ + cursor_rest(chars));
                    }
                },
                None => {
                    proof {
                        assert(r2 =~= rest@);
                    }
                    break;
                },
            }
        }
        let rest_text = string_of(rest.as_slice());
        let mut xmls = vstd::slice::slice_to_vec(rest_text.as_str().as_bytes());
        let skip = head.as_str().len();
        let ghost front = xmls@;
        let mut i: usize = skip;
        proof {
            assert(xmls_raw@.skip(skip as int).take(0) =~= Seq::<u8>::empty());
        }
        while i < xmls_raw.len()
            invariant
                skip <= i <= xmls_raw@.len(),
                xmls@ == front + xmls_raw@.skip(skip as int).take(i - skip),
            decreases xmls_raw@.len() - i,
        {
            xmls.push(xmls_raw[i]);
            proof {
                assert(xmls_raw@.skip(skip as int).take(i - skip + 1) =~= xmls_raw@.skip(
                    skip as int,
                ).take(i - skip).push(xmls_raw@[i as int]));
            }
            i = i + 1;
        }
        proof {
            assert(xmls_raw@.skip(skip as int).take(i - skip) == xmls_raw@.skip(skip as int));
            assert(xmls@ == body_after_headers(xmls_raw@, r2));
        }
        let xmln = match decode_xmls(xmls.as_slice()) {
            Ok(x) => x,
            Err(e) => {
                return Err(e);
            },
        };
        self.tag_table = tag_table;
        self.sym_table = sym_table;
        decode_xmln(xmln.as_str(), &mut self.sym_table, &mut self.tag_table)
    }

    /// Decompresses bytes made by `compress`: DEFLATE, then `unpack`. The result
    /// depends on the bytes alone: the tables come from the headers.
    pub fn decompress(&mut self, binary: &[u8]) -> (r: Result<String, XFlateError>)
        ensures
            !inflates(binary@) ==> r matches Err(XFlateError::XmlBError(_)),
            inflates(binary@) ==> {
                &&& (unpacked_stream(inflated(binary@)) matches Some(v) ==> (r matches Ok(s) && s@
                    == v))
                &&& unpacked_stream(inflated(binary@)) is None ==> r is Err
                &&& !framing_ok(inflated(binary@)) ==> (r matches Err(XFlateError::XmlSError(_)))
                &&& framing_ok(inflated(binary@)) && unpacked_stream(inflated(binary@)) is None
                    ==> (r matches Err(XFlateError::XmlNError(_)))
                &&& leading_text_of(inflated(binary@), utf8_lead(inflated(binary@)))
            },
            r matches Ok(s) ==> unpacked_stream(inflated(binary@)) == Some(s@),
            final(self).settings() == old(self).settings(),
    {
        let xmls_raw = match decode_xmlb(binary, &self.backend) {
            Ok(v) => v,
            Err(e) => {
                return Err(e);
            },
        };
        self.unpack(xmls_raw.as_slice())
    }
}

/// The settings of a compressor.
#[derive(Clone, Copy, Debug, PartialEq, Eq, Structural)]
pub struct XFlateConfig {
    /// Digits per symbol code: one gives nine symbols, two give ninety-nine.
    pub symbol_size: u8,
    /// How hard the back end works.
    pub xmlb_opt: XmlBCompress,
    /// Whether to write the symbol header; decompression needs it.
    pub add_symbol_header: bool,
    /// Whether to write the tag header; decompression needs it.
    pub add_tag_header: bool,
}

impl Default for XFlateConfig {
    fn default() -> (r: Self)
        ensures
            r == (XFlateConfig {
                symbol_size: 2,
                xmlb_opt: XmlBCompress::Best,
                add_symbol_header: true,
                add_tag_header: true,
            }),
    {
        XFlateConfig {
            symbol_size: 2,
            xmlb_opt: XmlBCompress::Best,
            add_symbol_header: true,
            add_tag_header: true,
        }
    }
}

/// The symbols once the characters of each attribute value are added in turn.
pub open spec fn attribute_symbols(syms: Seq<char>, attrs: Seq<XmlAttribute>) -> Seq<char>
    decreases attrs.len(),
{
    if attrs.len() == 0 {
        syms
    } else {
        symbols_after(attribute_symbols(syms, attrs.drop_last()), attrs.last().value@)
    }
}

/// The distinct characters of the text and attribute values of the events, in
/// order of first occurrence; names do not count.
pub open spec fn content_symbols(items: Seq<XmlItem>) -> Seq<char>
    decreases items.len(),
{
    if items.len() == 0 {
        Seq::empty()
    } else {
        let before = content_symbols(items.drop_last());
        match items.last() {
            XmlItem::Text(s) => symbols_after(before, s@),
            XmlItem::Start { attributes, .. } => attribute_symbols(before, attributes@),
            _ => before,
        }
    }
}

/// Whether any event is one that the encoding does not support.
pub open spec fn has_unsupported(items: Seq<XmlItem>) -> bool {
    exists|i: int| 0 <= i < items.len() && #[trigger] items[i] is Unsupported
}

/// Adds the characters of `s` that are new to `set`.
fn add_symbols(set: &mut Vec<char>, s: &str)
    ensures
        final(set)@ == symbols_after(old(set)@, s@),
{
    let chars = chars_of(s);
    let mut i: usize = 0;
    proof {
        assert(s@.take(0) =~= Seq::<char>::empty());
    }
    while i < chars.len()
        invariant
            i <= chars@.len(),
            chars@ == s@,
            set@ == symbols_after(old(set)@, s@.take(i as int)),
        decreases chars@.len() - i,
    {
        proof {
            assert(s@.take(i as int + 1).drop_last() == s@.take(i as int));
            assert(s@.take(i as int + 1).last() == chars@[i as int]);
        }
        if position_of(set, chars[i]).is_none() {
            set.push(chars[i]);
        }
        i = i + 1;
    }
    proof {
        assert(s@.take(i as int) == s@);
    }
}

/// The message of the pre-scan's error on an unsupported construct.
pub const UNSUPPORTED: &'static str = "comments, CDATA and processing instructions are not supported";

/// The message of the pre-scan's error on a count that does not fit.
pub const TOO_MANY_SYMBOLS: &'static str = "too many distinct symbols to count";

/// Counts the distinct characters of a document's text and attribute values.
pub fn scan(xml: &[u8]) -> (r: Result<u32, XFlateError>)
    ensures
        has_unsupported(xml_items(xml@)) ==> (r matches Err(XFlateError::PrePassError(m)) && m@
            == UNSUPPORTED@),
        !has_unsupported(xml_items(xml@)) && content_symbols(xml_items(xml@)).len() <= u32::MAX
            ==> r == Ok::<u32, XFlateError>(content_symbols(xml_items(xml@)).len() as u32),
        !has_unsupported(xml_items(xml@)) && content_symbols(xml_items(xml@)).len() > u32::MAX
            ==> (r matches Err(XFlateError::PrePassError(m)) && m@ == TOO_MANY_SYMBOLS@),
{
    broadcast use vstd::string::group_string_axioms;

    let items = parse_xml(xml);
    let mut symbols: Vec<char> = Vec::new();
    let mut i: usize = 0;
    proof {
        assert(items@.take(0) =~= Seq::<XmlItem>::empty());
    }
    while i < items.len()
        invariant
            i <= items@.len(),
            items@ == xml_items(xml@),
            symbols@ == content_symbols(items@.take(i as int)),
            forall|j: int| 0 <= j < i ==> !(#[trigger] items@[j] is Unsupported),
        decreases items@.len() - i,
    {
        proof {
            assert(items@.take(i as int + 1).drop_last() == items@.take(i as int));
            assert(items@.take(i as int + 1).last() == items@[i as int]);
        }
        match &items[i] {
            XmlItem::Text(s) => add_symbols(&mut symbols, s.as_str()),
            XmlItem::Start { attributes, .. } => {
                let ghost start_syms = symbols@;
                let mut j: usize = 0;
                proof {
                    assert(attributes@.take(0) =~= Seq::<XmlAttribute>::empty());
                }
                while j < attributes.len()
                    invariant
                        j <= attributes@.len(),
                        symbols@ == attribute_symbols(start_syms, attributes@.take(j as int)),
                    decreases attributes@.len() - j,
                {
                    proof {
                        assert(attributes@.take(j as int + 1).drop_last() == attributes@.take(
                            j as int,
                        ));
                        assert(attributes@.take(j as int + 1).last() == attributes@[j as int]);
                    }
                    add_symbols(&mut symbols, attributes[j].value.as_str());
                    j = j + 1;
                }
                proof {
                    assert(attributes@.take(j as int) == attributes@);
                }
            },
            XmlItem::Unsupported => {
                return Err(XFlateError::PrePassError(UNSUPPORTED.to_string()));
            },
            _ => {},
        }
        i = i + 1;
    }
    proof {
        assert(items@.take(i as int) == items@);
    }
    if symbols.len() > 4294967295 {
        return Err(XFlateError::PrePassError(TOO_MANY_SYMBOLS.to_string()));
    }
    Ok(symbols.len() as u32)
}

/// The least `w` with ten to the `w` at least `n`; zero for zero.
pub open spec fn is_ceil_log10(n: nat, w: nat) -> bool {
    &&& n == 0 ==> w == 0
    &&& n >= 1 ==> pow10(w) >= n && (w == 0 || pow10((w - 1) as nat) < n)
}

/// The code width that a count of symbols recommends: the ceiling of its
/// decimal logarithm.
fn ceil_log10(n: u32) -> (r: u8)
    ensures
        is_ceil_log10(n as nat, r as nat),
{
    if n == 0 {
        0
    } else {
        proof {
            lemma_digit_count((n - 1) as nat);
            crate::digits::lemma_usize_digit_count((n - 1) as nat);
        }
        count_digits((n - 1) as usize) as u8
    }
}

impl XFlateConfig {
    /// Default settings with the code width that a scan of the document recommends.
    pub fn from_xml(xml: &[u8]) -> (r: Result<Self, XFlateError>)
        ensures
            has_unsupported(xml_items(xml@)) ==> r matches Err(XFlateError::PrePassError(_)),
            !has_unsupported(xml_items(xml@)) && content_symbols(xml_items(xml@)).len() <= u32::MAX
                ==> (r matches Ok(c) && is_ceil_log10(
                content_symbols(xml_items(xml@)).len(),
                c.symbol_size as nat,
            ) && c.xmlb_opt == XmlBCompress::Best && c.add_symbol_header && c.add_tag_header),
            !has_unsupported(xml_items(xml@)) && content_symbols(xml_items(xml@)).len() > u32::MAX
                ==> r matches Err(XFlateError::PrePassError(_)),
    {
        let unique_symbols = match scan(xml) {
            Ok(n) => n,
            Err(e) => {
                return Err(e);
            },
        };
        let symbol_size = ceil_log10(unique_symbols);
        Ok(
            XFlateConfig {
                symbol_size,
                xmlb_opt: XmlBCompress::Best,
                add_symbol_header: true,
                add_tag_header: true,
            },
        )
    }
}

} // verus!
