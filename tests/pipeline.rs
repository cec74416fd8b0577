use xflate::{
    decode_xmlb, encode_xmlb, scan, XFlate, XFlateConfig, XFlateError, XmlBCompress,
    XmlBCompressor, XmlBDecompressor, XmlBDeflateBackend,
};

fn compress(xml: &str, config: XFlateConfig) -> Vec<u8> {
    XFlate::new(config).compress(xml.as_bytes()).expect("compresses")
}

fn decompress(bytes: &[u8]) -> String {
    XFlate::new(XFlateConfig::default()).decompress(bytes).expect("decompresses")
}

#[test]
fn config_default_values() {
    let c = XFlateConfig::default();
    assert_eq!(c.symbol_size, 2);
    assert_eq!(c.xmlb_opt, XmlBCompress::Best);
    assert!(c.add_symbol_header && c.add_tag_header);
}

#[test]
fn deflate_backend_round_trip() {
    let data = b"E 1 a C 2 0  \x24\x14".to_vec();
    for opt in [XmlBCompress::Stored, XmlBCompress::Fast, XmlBCompress::Best] {
        let backend = XmlBDeflateBackend::new(opt);
        let packed = encode_xmlb(&data, &backend).unwrap();
        assert_eq!(decode_xmlb(&packed, &backend).unwrap(), data);
        assert_eq!(backend.compress(&data).unwrap(), packed);
        assert_eq!(backend.decompress(&packed).unwrap(), data);
    }
    let stored = encode_xmlb(&data, &XmlBDeflateBackend::new(XmlBCompress::Stored)).unwrap();
    assert_ne!(stored, data);
}

#[test]
fn deflate_backend_rejects_garbage() {
    let backend = XmlBDeflateBackend::new(XmlBCompress::Best);
    let r = decode_xmlb(&[0xFF, 0xFF, 0xFF, 0xFF], &backend);
    assert!(matches!(r, Err(XFlateError::XmlBError(_))));
}

#[test]
fn pipeline_round_trip_scenarios() {
    let cases = [
        ("<a></a>", "<a></a>"),
        ("<a k=\"x\">y</a>", "<a k=\"x\">y</a>"),
        ("<p> </p>", "<p> </p>"),
        ("<r><c/><c/></r>", "<r><c></c><c></c></r>"),
        ("<a k=\"\"/>", "<a k=\"\"></a>"),
    ];
    for (xml, canonical) in cases {
        let bytes = compress(xml, XFlateConfig::default());
        assert_eq!(decompress(&bytes), canonical);
    }
}

#[test]
fn pipeline_round_trip_unicode_with_width_one() {
    let config = XFlateConfig { symbol_size: 1, ..XFlateConfig::default() };
    let bytes = compress("<p>é</p>", config);
    assert_eq!(decompress(&bytes), "<p>é</p>");
}

#[test]
fn pipeline_round_trip_of_a_document() {
    let xml = "<section xml:lang=\"en\"><title>Basic XML Document</title><para id=\"183504\">Sed risus tortor, auctor non dictum ut, porttitor vel turpis.</para><para id=\"239085\">Sed consectetur, nulla quis consequat placerat.</para></section>";
    for opt in [XmlBCompress::Stored, XmlBCompress::Fast, XmlBCompress::Best] {
        let config = XFlateConfig { xmlb_opt: opt, ..XFlateConfig::default() };
        assert_eq!(decompress(&compress(xml, config)), xml);
    }
}

#[test]
fn unpack_reads_headers_then_body() {
    let mut body = b"E 1 a C 2 0  ".to_vec();
    body.extend([0x24, 0x14]);
    let mut x = XFlate::new(XFlateConfig::default());
    assert_eq!(x.unpack(&body).unwrap(), "<a></a>");
    assert!(matches!(x.unpack(b"C 2 0  "), Err(XFlateError::XmlSError(_))));
    let mut bad = b"E 1 a C 2 0  ".to_vec();
    bad.extend([0x14]);
    assert!(matches!(x.unpack(&bad), Err(XFlateError::XmlNError(_))));
}

#[test]
fn decompress_rejects_bytes_that_do_not_inflate() {
    let mut x = XFlate::new(XFlateConfig::default());
    assert!(matches!(x.decompress(&[0xFF, 0x00, 0x13]), Err(XFlateError::XmlBError(_))));
}

#[test]
fn compress_reports_an_overflowing_symbol_table() {
    let config = XFlateConfig { symbol_size: 1, ..XFlateConfig::default() };
    let r = XFlate::new(config).compress("<a>abcdefghij</a>".as_bytes());
    assert!(matches!(r, Err(XFlateError::XmlNError(_))));
}

#[test]
fn scan_counts_distinct_content_characters() {
    let xml = "<doc lang=\"xy\"><t>yz zz</t></doc>";
    let first = scan(xml.as_bytes()).unwrap();
    assert_eq!(first, 4);
    assert_eq!(scan(xml.as_bytes()).unwrap(), first);
    assert_eq!(scan("<a></a>".as_bytes()).unwrap(), 0);
}

#[test]
fn scan_rejects_cdata() {
    let r = scan("<a><![CDATA[x]]></a>".as_bytes());
    assert!(matches!(r, Err(XFlateError::PrePassError(_))));
}

#[test]
fn config_from_xml_takes_ceiling_of_decimal_log() {
    let three = XFlateConfig::from_xml("<a k=\"xy\">yz</a>".as_bytes()).unwrap();
    assert_eq!(three.symbol_size, 1);
    let ten = XFlateConfig::from_xml("<a>abcdefghij</a>".as_bytes()).unwrap();
    assert_eq!(ten.symbol_size, 1);
    let eleven = XFlateConfig::from_xml("<a>abcdefghijk</a>".as_bytes()).unwrap();
    assert_eq!(eleven.symbol_size, 2);
    let none = XFlateConfig::from_xml("<a></a>".as_bytes()).unwrap();
    assert_eq!(none.symbol_size, 0);
    assert_eq!(none.xmlb_opt, XmlBCompress::Best);
}


#[test]
fn two_decompressors_agree() {
    let bytes = compress("<a k=\"x\">y</a>", XFlateConfig::default());
    let mut first = XFlate::new(XFlateConfig::default());
    let config = XFlateConfig { symbol_size: 5, xmlb_opt: XmlBCompress::Fast, ..XFlateConfig::default() };
    let mut second = XFlate::new(config);
    second.compress("<z>qq</z>".as_bytes()).unwrap();
    assert_eq!(first.decompress(&bytes).unwrap(), second.decompress(&bytes).unwrap());
}

#[test]
fn compressed_bytes_inflate_to_headers_and_body() {
    let bytes = compress("<a></a>", XFlateConfig::default());
    let backend = XmlBDeflateBackend::new(XmlBCompress::Best);
    let mut expected = b"E 1 a C 2 0  ".to_vec();
    expected.extend([0x24, 0x14]);
    assert_eq!(decode_xmlb(&bytes, &backend).unwrap(), expected);
}
