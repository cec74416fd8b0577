//! The back end: DEFLATE through flate2, behind a pair of traits.

use vstd::prelude::*;

use flate2::write::{DeflateDecoder, DeflateEncoder};
use std::io::Write;

use crate::xflate::XFlateError;

verus! {

/// How hard the back end should work: not at all, fast, or for the smallest output.
#[derive(Clone, Copy, Debug, PartialEq, Eq, Structural)]
pub enum XmlBCompress {
    /// Stored blocks, no compression.
    Stored,
    Fast,
    Best,
}

/// The DEFLATE level of an option: 0, 1 or 9.
pub open spec fn level_of(opt: XmlBCompress) -> u32 {
    match opt {
        XmlBCompress::Stored => 0,
        XmlBCompress::Fast => 1,
        XmlBCompress::Best => 9,
    }
}

/// The raw DEFLATE stream of `data` at `level`.
pub uninterp spec fn deflated(level: u32, data: Seq<u8>) -> Seq<u8>;

/// The bytes that a raw DEFLATE stream inflates to.
pub uninterp spec fn inflated(data: Seq<u8>) -> Seq<u8>;

/// Whether the bytes are a whole raw DEFLATE stream that inflates without error.
pub uninterp spec fn inflates(data: Seq<u8>) -> bool;

/// Relies on `flate2::write::DeflateEncoder` at `Compression::new(level)`: a raw
/// DEFLATE stream, without header or checksum, that inflates back to the data;
/// writing into a `Vec` cannot fail, so neither can the encoder.
#[verifier::external_body]
fn deflate(level: u32, data: &[u8]) -> (r: Result<Vec<u8>, String>)
    requires
        level <= 9,
    ensures
        r is Ok,
        r matches Ok(v) ==> v@ == deflated(level, data@) && inflated(v@) == data@ && inflates(v@),
{
    let mut encoder = DeflateEncoder::new(Vec::new(), flate2::Compression::new(level));
    encoder.write_all(data).map_err(|e| e.to_string())?;
    encoder.finish().map_err(|e| e.to_string())
}

/// Relies on `flate2::write::DeflateDecoder`: the bytes that a raw DEFLATE stream
/// inflates to; an error exactly where the bytes are not such a stream.
#[verifier::external_body]
fn inflate(data: &[u8]) -> (r: Result<Vec<u8>, String>)
    ensures
        r is Ok <==> inflates(data@),
        r matches Ok(v) ==> v@ == inflated(data@),
{
    let mut decoder = DeflateDecoder::new(Vec::new());
    decoder.write_all(data).map_err(|e| e.to_string())?;
    decoder.finish().map_err(|e| e.to_string())
}

/// A back end that turns packed XMLS bytes into the final compressed bytes.
pub trait XmlBCompressor {
    /// What the back end makes of `input`.
    spec fn compressed(&self, input: Seq<u8>) -> Seq<u8>;

    /// Whether the back end's decompression restores `input` from `output`.
    spec fn restores(&self, input: Seq<u8>, output: Seq<u8>) -> bool;

    /// Whether compression succeeds on every input.
    spec fn total(&self) -> bool;

    fn compress(&self, input: &[u8]) -> (r: Result<Vec<u8>, XFlateError>)
        ensures
            self.total() ==> r is Ok,
            r matches Ok(v) ==> v@ == self.compressed(input@) && self.restores(input@, v@),
            r matches Err(e) ==> e is XmlBError,
    ;
}

/// A back end that restores packed XMLS bytes from compressed bytes.
pub trait XmlBDecompressor {
    /// What the back end restores from `input`.
    spec fn decompressed(&self, input: Seq<u8>) -> Seq<u8>;

    /// Whether decompression succeeds on `input`.
    spec fn accepts(&self, input: Seq<u8>) -> bool;

    fn decompress(&self, input: &[u8]) -> (r: Result<Vec<u8>, XFlateError>)
        ensures
            r is Ok <==> self.accepts(input@),
            r matches Ok(v) ==> v@ == self.decompressed(input@),
            r matches Err(e) ==> e is XmlBError,
    ;
}

/// The DEFLATE back end.
pub struct XmlBDeflateBackend {
    pub opt: XmlBCompress,
}

impl XmlBDeflateBackend {
    pub fn new(opt: XmlBCompress) -> (r: Self)
        ensures
            r.opt == opt,
    {
        XmlBDeflateBackend { opt }
    }
}

impl XmlBCompressor for XmlBDeflateBackend {
    open spec fn compressed(&self, input: Seq<u8>) -> Seq<u8> {
        deflated(level_of(self.opt), input)
    }

    open spec fn restores(&self, input: Seq<u8>, output: Seq<u8>) -> bool {
        inflated(output) == input && inflates(output)
    }

    open spec fn total(&self) -> bool {
        true
    }

    fn compress(&self, buf: &[u8]) -> (r: Result<Vec<u8>, XFlateError>) {
        let level: u32 = match self.opt {
            XmlBCompress::Stored => 0,
            XmlBCompress::Fast => 1,
            XmlBCompress::Best => 9,
        };
        match deflate(level, buf) {
            Ok(v) => Ok(v),
            Err(message) => Err(XFlateError::XmlBError(message)),
        }
    }
}

impl XmlBDecompressor for XmlBDeflateBackend {
    open spec fn decompressed(&self, input: Seq<u8>) -> Seq<u8> {
        inflated(input)
    }

    open spec fn accepts(&self, input: Seq<u8>) -> bool {
        inflates(input)
    }

    fn decompress(&self, buf: &[u8]) -> (r: Result<Vec<u8>, XFlateError>) {
        match inflate(buf) {
            Ok(v) => Ok(v),
            Err(message) => Err(XFlateError::XmlBError(message)),
        }
    }
}

/// Compresses packed XMLS bytes with the given back end.
pub fn encode_xmlb<D: XmlBCompressor>(data: &[u8], compressor: &D) -> (r: Result<
    Vec<u8>,
    XFlateError,
>)
    ensures
        compressor.total() ==> r is Ok,
        r matches Ok(v) ==> v@ == compressor.compressed(data@) && compressor.restores(data@, v@),
        r matches Err(e) ==> e is XmlBError,
{
    compressor.compress(data)
}

/// Restores packed XMLS bytes with the given back end.
pub fn decode_xmlb<D: XmlBDecompressor>(data: &[u8], decompressor: &D) -> (r: Result<
    Vec<u8>,
    XFlateError,
>)
    ensures
        r is Ok <==> decompressor.accepts(data@),
        r matches Ok(v) ==> v@ == decompressor.decompressed(data@),
        r matches Err(e) ==> e is XmlBError,
{
    decompressor.decompress(data)
}

} // verus!
