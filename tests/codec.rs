use xflate::cursor::multipeek_chars;
use xflate::header::{parse_symbol_header, parse_tag_header, symbol_header, tag_header};
use xflate::{
    consume_until_space, consume_until_whitespace, decode_xmln, decode_xmls, encode_xmln, encode_xmls, DynamicSymbolTable,
    DynamicTagTable, SymbolTable, TagTable, XFlateError, XmlNDynamicSymbolTable,
    XmlNDynamicTagTable, XmlNSymbolTable, XmlNTagTable,
};

const ALPHABET: [char; 13] = [' ', 'T', 'A', '0', '1', '2', '3', '4', '5', '6', '7', '8', '9'];

fn encode(xml: &str, width: u8) -> (String, XmlNDynamicSymbolTable, XmlNDynamicTagTable) {
    let mut syms = XmlNDynamicSymbolTable::new(width);
    let mut tags = XmlNDynamicTagTable::new();
    let xmln = encode_xmln(xml.as_bytes(), &mut syms, &mut tags).expect("encodes");
    (xmln, syms, tags)
}

fn round_trip(xml: &str, width: u8) -> String {
    let (xmln, mut syms, mut tags) = encode(xml, width);
    decode_xmln(&xmln, &mut syms, &mut tags).expect("decodes")
}

#[test]
fn xmls_packs_pairs_and_pads_odd_glyph() {
    assert_eq!(encode_xmls("T0 0").unwrap(), vec![0x24, 0x14]);
    assert_eq!(encode_xmls("T0 01").unwrap(), vec![0x24, 0x14, 0x50]);
    assert_eq!(encode_xmls("").unwrap(), Vec::<u8>::new());
    assert_eq!(encode_xmls("A9").unwrap(), vec![0x3D]);
}

#[test]
fn xmls_rejects_a_glyph_outside_the_alphabet() {
    assert!(matches!(encode_xmls("T0 x"), Err(XFlateError::XmlSError(_))));
}

#[test]
fn xmls_round_trip_over_the_alphabet() {
    let samples = ["", "T", "T0 A1 01 02 0", "0123456789 TA", "  9", "T10 A2 123456 0"];
    for s in samples {
        let packed = encode_xmls(s).unwrap();
        assert_eq!(decode_xmls(&packed).unwrap(), s);
    }
    let every: String = ALPHABET.iter().collect();
    assert_eq!(decode_xmls(&encode_xmls(&every).unwrap()).unwrap(), every);
}

#[test]
fn xmls_nibbles_stay_in_range() {
    let packed = encode_xmls("T0 A1 01 02 0").unwrap();
    for (k, b) in packed.iter().enumerate() {
        let hi = b >> 4;
        let lo = b & 0x0F;
        assert!((1..=13).contains(&hi));
        assert!(lo <= 13);
        if lo == 0 {
            assert_eq!(k, packed.len() - 1);
        }
    }
}

#[test]
fn xmls_decode_skips_zero_halves() {
    assert_eq!(decode_xmls(&[0x02, 0x40]).unwrap(), "T0");
    assert_eq!(decode_xmls(&[0x00, 0x21]).unwrap(), "T ");
}

#[test]
fn xmls_decode_rejects_a_bad_half_byte() {
    assert!(matches!(decode_xmls(&[0x2E]), Err(XFlateError::XmlSError(_))));
    assert!(matches!(decode_xmls(&[0xF1]), Err(XFlateError::XmlSError(_))));
}

#[test]
fn symbol_codes_are_fixed_width_from_one() {
    let mut t = XmlNDynamicSymbolTable::new(2);
    assert_eq!(t.encode('x').as_deref(), Some("01"));
    assert_eq!(t.encode('y').as_deref(), Some("02"));
    assert_eq!(t.encode('x').as_deref(), Some("01"));
    assert_eq!(t.code_size(), 2);
    assert_eq!(t.symbol_count(), 2);
    assert_eq!(t.iter_symbols(), vec!['x', 'y']);
    assert_eq!(t.decode("02"), Some('y'));
    assert_eq!(t.decode("00"), None);
    assert_eq!(t.decode("03"), None);
    for c in "abcdefghijklmnopq".chars() {
        let code = t.encode(c).unwrap();
        assert_eq!(code.len(), 2);
        assert_ne!(code, "00");
        assert_eq!(t.decode(&code), Some(c));
    }
}

#[test]
fn symbol_table_overflows_at_capacity() {
    let mut t = XmlNDynamicSymbolTable::new(1);
    for c in "abcdefghi".chars() {
        assert!(t.encode(c).is_some());
    }
    assert_eq!(t.encode('i').as_deref(), Some("9"));
    assert_eq!(t.encode('j'), None);
    assert_eq!(t.symbol_count(), 9);
}

#[test]
fn symbol_table_from_symbols_sizes_and_dedups() {
    let t = XmlNDynamicSymbolTable::from_symbols(&['a', 'b', 'a']);
    assert_eq!(t.code_size(), 1);
    assert_eq!(t.iter_symbols(), vec!['a', 'b']);
    let many: Vec<char> = "abcdefghij".chars().collect();
    let t = XmlNDynamicSymbolTable::from_symbols(&many);
    assert_eq!(t.code_size(), 2);
    assert_eq!(t.decode("10"), Some('j'));
}

#[test]
fn tag_codes_decode_to_their_names() {
    let mut t = XmlNDynamicTagTable::new();
    let names = ["section", "title", "xml:lang", "para", "title"];
    for n in names {
        let code = t.encode(n).unwrap();
        assert_eq!(t.decode(code), Some(n));
    }
    assert_eq!(t.encode("section"), Some(0));
    assert_eq!(t.encode("para"), Some(3));
    assert_eq!(t.tag_count(), 4);
    assert_eq!(t.decode(4), None);
    assert_eq!(t.iter_tags(), vec!["section", "title", "xml:lang", "para"]);
}

#[test]
fn compact_tables_count_from_zero() {
    let mut s = DynamicSymbolTable::new();
    assert_eq!(s.encode('a'), Some(0));
    assert_eq!(s.encode('b'), Some(1));
    assert_eq!(s.encode('a'), Some(0));
    assert_eq!(s.decode(1), Some('b'));
    assert_eq!(s.decode(2), None);
    let mut t = DynamicTagTable::new();
    assert_eq!(t.encode("r"), Some(0));
    assert_eq!(t.encode("c"), Some(1));
    assert_eq!(t.encode("r"), Some(0));
    assert_eq!(t.decode(1), Some("c"));
    assert_eq!(t.decode(7), None);
}

#[test]
fn scenario_empty_element() {
    let (xmln, syms, tags) = encode("<a></a>", 2);
    assert_eq!(xmln, "T0 0");
    assert_eq!(tags.iter_tags(), vec!["a"]);
    assert_eq!(syms.symbol_count(), 0);
    assert_eq!(tag_header(&tags), b"E 1 a ".to_vec());
    assert_eq!(symbol_header(&syms), b"C 2 0  ".to_vec());
    assert_eq!(round_trip("<a></a>", 2), "<a></a>");
}

#[test]
fn scenario_attribute_and_text() {
    let (xmln, syms, tags) = encode("<a k=\"x\">y</a>", 2);
    assert_eq!(xmln, "T0 A1 01 02 0");
    assert_eq!(tags.iter_tags(), vec!["a", "k"]);
    assert_eq!(syms.iter_symbols(), vec!['x', 'y']);
    assert_eq!(round_trip("<a k=\"x\">y</a>", 2), "<a k=\"x\">y</a>");
}

#[test]
fn scenario_single_space_text() {
    let (xmln, syms, _) = encode("<p> </p>", 2);
    assert_eq!(xmln, "T0 01 0");
    assert_eq!(syms.iter_symbols(), vec![' ']);
    assert_eq!(round_trip("<p> </p>", 2), "<p> </p>");
}

#[test]
fn scenario_nested_empty_elements() {
    let (xmln, _, tags) = encode("<r><c/><c/></r>", 2);
    assert_eq!(xmln, "T0 T1 0 T1 0 0");
    assert_eq!(tags.iter_tags(), vec!["r", "c"]);
    assert_eq!(round_trip("<r><c/><c/></r>", 2), "<r><c></c><c></c></r>");
}

#[test]
fn scenario_empty_attribute_value() {
    let (xmln, _, _) = encode("<a k=\"\"/>", 2);
    assert_eq!(xmln, "T0 A1 0");
    assert_eq!(round_trip("<a k=\"\"/>", 2), "<a k=\"\"></a>");
}

#[test]
fn scenario_unicode_text() {
    let (xmln, syms, _) = encode("<p>é</p>", 1);
    assert_eq!(xmln, "T0 1 0");
    assert_eq!(syms.iter_symbols(), vec!['é']);
    assert_eq!(round_trip("<p>é</p>", 1), "<p>é</p>");
}

#[test]
fn xmln_round_trip_of_a_larger_document() {
    let xml = "<section xml:lang=\"en\"><title>Basic XML</title><para id=\"183504\">Sed risus tortor, auctor non dictum.</para><para id=\"239085\">Nulla quis consequat placerat.</para></section>";
    assert_eq!(round_trip(xml, 2), xml);
}

#[test]
fn xmln_output_stays_in_the_alphabet() {
    let xml = "<section xml:lang=\"en\"><title>Basic XML</title><para id=\"1\">Sed risus.</para></section>";
    let (xmln, _, _) = encode(xml, 2);
    assert!(xmln.chars().all(|c| ALPHABET.contains(&c)));
    assert!(!xmln.starts_with(' '));
    assert!(!xmln.contains("  "));
}

#[test]
fn xmln_text_codes_have_the_table_width() {
    let (xmln, _, _) = encode("<a>hello world</a>", 2);
    let text = xmln.split(' ').nth(1).unwrap();
    assert_eq!(text.len(), 2 * "hello world".chars().count());
    for code in text.as_bytes().chunks(2) {
        assert_ne!(code, b"00");
    }
}

#[test]
fn xmln_open_and_close_tokens_balance() {
    let (xmln, _, _) = encode("<r a=\"1\"><c>x</c><c/><d><e/></d></r>", 2);
    let opens = xmln.split(' ').filter(|t| t.starts_with('T')).count();
    let closes = xmln.split(' ').filter(|t| *t == "0").count();
    assert_eq!(opens, 5);
    assert_eq!(opens, closes);
}

#[test]
fn xmln_encoder_reports_symbol_overflow() {
    let mut syms = XmlNDynamicSymbolTable::new(1);
    let mut tags = XmlNDynamicTagTable::new();
    let r = encode_xmln("<a>abcdefghij</a>".as_bytes(), &mut syms, &mut tags);
    assert!(matches!(r, Err(XFlateError::XmlNError(_))));
}

#[test]
fn xmln_encoder_rejects_cdata_and_malformed_input() {
    let mut syms = XmlNDynamicSymbolTable::new(2);
    let mut tags = XmlNDynamicTagTable::new();
    let r = encode_xmln("<a><![CDATA[x]]></a>".as_bytes(), &mut syms, &mut tags);
    assert!(matches!(r, Err(XFlateError::XmlNError(_))));
    let r = encode_xmln("<a><b></a>".as_bytes(), &mut syms, &mut tags);
    assert!(matches!(r, Err(XFlateError::XmlNError(_))));
}

#[test]
fn xmln_decoder_rejects_malformed_streams() {
    let (_, mut syms, mut tags) = encode("<a k=\"x\">y</a>", 2);
    for bad in ["0", "T7 0", "T0 03 0", "T0 1 0", "X", "T0 00 0", "T0 A 0"] {
        let r = decode_xmln(bad, &mut syms, &mut tags);
        assert!(matches!(r, Err(XFlateError::XmlNError(_))), "{bad}");
    }
    assert_eq!(decode_xmln("T0  02   0", &mut syms, &mut tags).unwrap(), "<a>y</a>");
    assert_eq!(decode_xmln("", &mut syms, &mut tags).unwrap(), "");
}

#[test]
fn cursor_consumes_up_to_a_space() {
    let mut cursor = multipeek_chars("ab cd".chars().collect());
    assert_eq!(consume_until_space(&mut cursor), "ab");
    assert_eq!(consume_until_space(&mut cursor), "");
}

#[test]
fn headers_parse_back_into_tables() {
    let text: Vec<char> = "E 2 a k C 2 2 xy rest".chars().collect();
    let mut cursor = multipeek_chars(text);
    let tags = parse_tag_header(&mut cursor).unwrap();
    assert_eq!(tags.iter_tags(), vec!["a", "k"]);
    let syms = parse_symbol_header(&mut cursor).unwrap();
    assert_eq!(syms.code_size(), 2);
    assert_eq!(syms.iter_symbols(), vec!['x', 'y']);
    assert_eq!(consume_until_space(&mut cursor), "rest");
}

#[test]
fn headers_reject_malformed_text() {
    for bad in ["X 1 a ", "E x a ", "E 2 a ", "E 2 a a "] {
        let mut cursor = multipeek_chars(bad.chars().collect());
        assert!(matches!(parse_tag_header(&mut cursor), Err(XFlateError::XmlSError(_))), "{bad}");
    }
    for bad in ["C 1 2 x", "C 1 2 xx ", "C 1 10 abcdefghij ", "C 2 1 xy"] {
        let mut cursor = multipeek_chars(bad.chars().collect());
        assert!(matches!(parse_symbol_header(&mut cursor), Err(XFlateError::XmlSError(_))), "{bad}");
    }
}

#[test]
fn cursor_consumes_up_to_whitespace() {
    let mut cursor = multipeek_chars("ab\tcd ef".chars().collect());
    assert_eq!(consume_until_whitespace(&mut cursor), "ab");
    let mut cursor = multipeek_chars("abc".chars().collect());
    assert_eq!(consume_until_whitespace(&mut cursor), "abc");
    assert_eq!(consume_until_whitespace(&mut cursor), "");
}

#[test]
fn tables_list_their_codes() {
    let (_, syms, tags) = encode("<a k=\"x\">\ny</a>", 2);
    assert_eq!(
        syms.to_string(),
        "XmlNDynamicSymbolTable\n  Symbol size: 2\n  Symbols mappings: \n    x -> 01\n    \\n -> 02\n    y -> 03"
    );
    assert_eq!(tags.to_string(), "XmlNTagTable\n  Tag mappings:\n    a -> 0\n    k -> 1");
}

#[test]
fn empty_attribute_value_followed_by_text_reads_as_the_value() {
    let (xmln, _, _) = encode("<a k=\"\">y</a>", 2);
    assert_eq!(xmln, "T0 A1 01 0");
    assert_eq!(round_trip("<a k=\"\">y</a>", 2), "<a k=\"y\"></a>");
    assert_eq!(round_trip("<a k=\"\" j=\"x\">y</a>", 2), "<a k=\"\" j=\"x\">y</a>");
}

#[test]
fn xmln_encoder_rejects_comments() {
    let mut syms = XmlNDynamicSymbolTable::new(2);
    let mut tags = XmlNDynamicTagTable::new();
    let r = encode_xmln("<a><!-- note --></a>".as_bytes(), &mut syms, &mut tags);
    assert!(matches!(r, Err(XFlateError::XmlNError(_))));
}

#[test]
fn whitespace_matches_the_standard_library() {
    for u in (0u32..0x3100).chain([0xFEFF, 0x10FFFF]) {
        if let Some(c) = char::from_u32(u) {
            let text: Vec<char> = vec!['a', c, 'b'];
            let mut cursor = multipeek_chars(text);
            let head = consume_until_whitespace(&mut cursor);
            let expected = if c.is_whitespace() { "a".to_string() } else { format!("a{c}b") };
            assert_eq!(head, expected, "U+{u:04X}");
        }
    }
}
