use transadif::encoding::{detect_encoding, fix_mixed_encoding, AdifEncoding, EncodingError, EncodingProcessor};
use transadif::entities::decode_entities;

#[test]
fn test_encoding_detection() {
    let processor = EncodingProcessor::new(None, AdifEncoding::Utf8, false);

    let utf8_data = "Hello, 世界!".as_bytes();
    let result = processor.process_field_data(utf8_data).unwrap();
    assert_eq!(result, "Hello, 世界!");

    let ascii_data = b"Hello, World!";
    let result = processor.process_field_data(ascii_data).unwrap();
    assert_eq!(result, "Hello, World!");
}

#[test]
fn test_entity_references() {
    let processor = EncodingProcessor::new(None, AdifEncoding::Utf8, false);
    let text = "&amp; &lt; &gt; &0x41; &0xFF;";
    let result = processor.process_field_data(text.as_bytes()).unwrap();
    assert!(result.contains("&"));
    assert!(result.contains("<"));
    assert!(result.contains(">"));
    assert!(result.contains("A"));
}

#[test]
fn test_length_counting() {
    let processor = EncodingProcessor::new(None, AdifEncoding::Utf8, false);
    let text = "Hello, 世界!";
    assert_eq!(processor.count_length(text, &AdifEncoding::Utf8), 10);
}

#[test]
fn byte_length_in_other_encodings() {
    let processor = EncodingProcessor::new(None, AdifEncoding::Utf8, false);
    assert_eq!(processor.count_length("ñandú", &AdifEncoding::Windows1252), 5);
    assert_eq!(processor.count_length("世界", &AdifEncoding::ShiftJis), 4);
}

#[test]
fn test_named_entities() {
    assert_eq!(decode_entities("&amp;"), "&");
    assert_eq!(decode_entities("&lt;"), "<");
    assert_eq!(decode_entities("&gt;"), ">");
    assert_eq!(decode_entities("&quot;"), "\"");
}

#[test]
fn test_numeric_entities() {
    assert_eq!(decode_entities("&#65;"), "A");
    assert_eq!(decode_entities("&#241;"), "ñ");
}

#[test]
fn test_hex_entities() {
    assert_eq!(decode_entities("&#x41;"), "A");
    assert_eq!(decode_entities("&#xF1;"), "ñ");
}

#[test]
fn test_custom_hex_entities() {
    assert_eq!(decode_entities("&0x41;"), "A");
    assert_eq!(decode_entities("&0xF1;"), "ñ");
}

#[test]
fn test_mixed_entities() {
    let input = "Test &amp; &#65; &#x42; &0x43; normal text";
    let expected = "Test & A B C normal text";
    assert_eq!(decode_entities(input), expected);
}

#[test]
fn malformed_references_stay() {
    assert_eq!(decode_entities("AT&T &0x; &0x110000;"), "AT&T &0x; &0x110000;");
}

#[test]
fn names_are_case_insensitive() {
    assert_eq!(AdifEncoding::from_str("UTF-8").unwrap(), AdifEncoding::Utf8);
    assert_eq!(AdifEncoding::from_str("Latin-1").unwrap(), AdifEncoding::Iso88591);
    assert_eq!(AdifEncoding::from_str("SJIS").unwrap(), AdifEncoding::ShiftJis);
    match AdifEncoding::from_str("ebcdic") {
        Err(EncodingError::UnsupportedEncoding(s)) => assert_eq!(s, "ebcdic"),
        _ => panic!("expected an error"),
    }
}

#[test]
fn display_names() {
    assert_eq!(AdifEncoding::Utf8.to_string(), "UTF-8");
    assert_eq!(AdifEncoding::ShiftJis.to_string(), "Shift_JIS");
    assert_eq!(AdifEncoding::Ascii.to_string(), "US-ASCII");
}

#[test]
fn detection_order() {
    let latin1 = b"Mu\xF1oz";
    assert_eq!(detect_encoding(latin1, Some("koi8-r"), Some("utf-8")).unwrap(), AdifEncoding::Koi8R);
    assert!(detect_encoding(latin1, Some("nonsense"), None).is_err());
    assert_eq!(detect_encoding(latin1, None, Some("ISO-8859-15")).unwrap(), AdifEncoding::Iso885915);
    assert_eq!(detect_encoding("Muñoz".as_bytes(), None, None).unwrap(), AdifEncoding::Utf8);
    let guessed = detect_encoding(latin1, None, Some("unknown")).unwrap();
    assert!(guessed != AdifEncoding::Utf8);
}

#[test]
fn explicit_input_encoding_decodes_field_bytes() {
    let processor = EncodingProcessor::new(Some(AdifEncoding::Windows1252), AdifEncoding::Utf8, true);
    assert_eq!(processor.process_field_data(b"Mu\xF1oz").unwrap(), "Muñoz");
}

#[test]
fn strict_mode_rejects_malformed_input() {
    let processor = EncodingProcessor::new(Some(AdifEncoding::Utf8), AdifEncoding::Utf8, true);
    assert!(processor.process_field_data(b"Mu\xF1oz").is_err());
}

#[test]
fn encode_output_in_strict_mode() {
    let strict = EncodingProcessor::new(None, AdifEncoding::Windows1252, true);
    assert_eq!(strict.encode_output("Muñoz", None).unwrap(), b"Mu\xF1oz".to_vec());
    assert!(strict.encode_output("日本", None).is_err());
    let lenient = EncodingProcessor::new(None, AdifEncoding::Windows1252, false);
    assert!(lenient.encode_output("日本", None).is_ok());
}

#[test]
fn mixed_bytes_keep_their_utf8_runs() {
    let bytes = b"Mu\xF1oz \xC3\xB1";
    assert_eq!(fix_mixed_encoding(bytes, AdifEncoding::Utf8).unwrap(), "Mu\u{FFFD}oz ñ");
    assert_eq!(fix_mixed_encoding(bytes, AdifEncoding::Windows1252).unwrap(), "Muñoz ñ");
}

#[test]
fn names_lower_case_like_std() {
    assert_eq!(AdifEncoding::from_str("\u{212A}OI8-R").unwrap(), AdifEncoding::Koi8R);
}

#[test]
fn encode_output_uses_the_replacement() {
    let p = EncodingProcessor::new(None, AdifEncoding::Windows1252, false);
    assert_eq!(p.encode_output("aőb", Some('?')).unwrap(), b"a?b".to_vec());
    assert_eq!(p.encode_output("aőb", None).unwrap(), b"a&#337;b".to_vec());
}
