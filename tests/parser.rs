use transadif::adif::{AdifError, AdifFile, AdifParser, FieldCountMode};

#[test]
fn test_parse_simple_field() {
    let data = b"<call:5>K1MIX";
    let mut parser = AdifParser::new(data);
    let field = parser.parse_field().unwrap();

    assert_eq!(field.name, "call");
    assert_eq!(field.length, 5);
    assert_eq!(field.data, "K1MIX");
    assert!(field.field_type.is_none());
}

#[test]
fn test_parse_field_with_type() {
    let data = b"<freq:5:N>7.200";
    let mut parser = AdifParser::new(data);
    let field = parser.parse_field().unwrap();

    assert_eq!(field.name, "freq");
    assert_eq!(field.length, 5);
    assert_eq!(field.data, "7.200");
    assert_eq!(field.field_type, Some("N".to_string()));
}

#[test]
fn test_parse_simple_record() {
    let data = b"<call:5>K1MIX<band:3>40m<eor>";
    let mut parser = AdifParser::new(data);
    let record = parser.parse_record().unwrap();

    assert_eq!(record.fields.len(), 2);
    assert_eq!(record.fields[0].name, "call");
    assert_eq!(record.fields[0].data, "K1MIX");
    assert_eq!(record.fields[1].name, "band");
    assert_eq!(record.fields[1].data, "40m");
}

fn rejoin(doc: &AdifFile) -> Vec<u8> {
    let mut out = doc.preamble.clone();
    for f in &doc.header_fields {
        out.extend_from_slice(&f.tag);
        out.extend_from_slice(&f.original_bytes);
        out.extend_from_slice(&f.excess_data);
    }
    out.extend_from_slice(&doc.header_end);
    out.extend_from_slice(&doc.header_excess_data);
    for r in &doc.records {
        for f in &r.fields {
            out.extend_from_slice(&f.tag);
            out.extend_from_slice(&f.original_bytes);
            out.extend_from_slice(&f.excess_data);
        }
        out.extend_from_slice(&r.end_tag);
        out.extend_from_slice(&r.excess_data);
    }
    out
}

#[test]
fn headerless_file_parses_to_one_record() {
    let data = b"<call:5>K1MIX<band:3>40m<eor>";
    let doc = AdifFile::parse(data).unwrap();
    assert!(doc.header_fields.is_empty());
    assert!(doc.header_end.is_empty());
    assert!(doc.preamble.is_empty());
    assert_eq!(doc.records.len(), 1);
    let r = &doc.records[0];
    assert_eq!(r.fields.len(), 2);
    assert_eq!(r.fields[0].name, "call");
    assert_eq!(r.fields[0].data, "K1MIX");
    assert_eq!(r.fields[0].length, 5);
    assert_eq!(r.fields[1].name, "band");
    assert_eq!(r.fields[1].data, "40m");
    assert_eq!(r.fields[1].length, 3);
    assert_eq!(r.end_tag, b"<eor>".to_vec());
    assert!(doc.encoding.is_none());
}

#[test]
fn header_fields_and_encoding_are_read() {
    let data = b"Log export\r\n<ADIF_VER:5>3.1.0 <Encoding:5>UTF-8\r\n<EOH>\r\n<call:4>W1AW<EOR>\r\n";
    let doc = AdifFile::parse(data).unwrap();
    assert_eq!(doc.preamble, b"Log export\r\n".to_vec());
    assert_eq!(doc.header_fields.len(), 2);
    assert_eq!(doc.header_fields[0].excess_data, b" ".to_vec());
    assert_eq!(doc.header_end, b"<EOH>".to_vec());
    assert_eq!(doc.header_excess_data, b"\r\n".to_vec());
    assert_eq!(doc.encoding, Some("UTF-8".to_string()));
    assert_eq!(doc.records.len(), 1);
    assert_eq!(doc.records[0].end_tag, b"<EOR>".to_vec());
    assert_eq!(doc.records[0].excess_data, b"\r\n".to_vec());
    assert_eq!(rejoin(&doc), data.to_vec());
}

#[test]
fn every_byte_is_kept() {
    let data: &[u8] = b"junk <x> <a:1>b <bad tag> <c:2:S>dd\n<eor> tail <eor>";
    let doc = AdifFile::parse(data).unwrap();
    assert_eq!(rejoin(&doc), data.to_vec());
    assert_eq!(doc.preamble, b"junk <x> ".to_vec());
    assert_eq!(doc.records.len(), 1);
    assert_eq!(doc.records[0].fields[0].excess_data, b" <bad tag> ".to_vec());
    assert_eq!(doc.records[0].excess_data, b" tail <eor>".to_vec());
}

#[test]
fn preamble_without_header_sentinel_keeps_header_empty() {
    let data = b"notes\n<call:3>K1A<eor>";
    let doc = AdifFile::parse(data).unwrap();
    assert_eq!(doc.preamble, b"notes\n".to_vec());
    assert!(doc.header_fields.is_empty());
    assert_eq!(doc.records.len(), 1);
}

#[test]
fn byte_cut_on_a_clean_boundary_is_kept() {
    // A single three-byte character declared as three; the next tag follows
    // right after the byte cut, so the byte reading stands.
    let mut data = b"<name:3>".to_vec();
    data.extend_from_slice("\u{4E16}".as_bytes());
    data.extend_from_slice(b"<next:1>x");
    let doc = AdifFile::parse(&data).unwrap();
    let f = &doc.records[0].fields[0];
    assert_eq!(f.count_mode, FieldCountMode::Bytes);
    assert_eq!(f.original_bytes, "\u{4E16}".as_bytes().to_vec());
    assert_eq!(f.data, "\u{4E16}");
    assert_eq!(doc.records[0].fields[1].data, "x");
}

#[test]
fn character_count_is_used_when_it_leaves_cleaner_text() {
    // "ñño" counted as three characters (five bytes).
    let mut data = b"<name:3>".to_vec();
    data.extend_from_slice("\u{F1}\u{F1}o".as_bytes());
    data.extend_from_slice(b"<next:1>x<eor>");
    let doc = AdifFile::parse(&data).unwrap();
    let f = &doc.records[0].fields[0];
    assert_eq!(f.count_mode, FieldCountMode::Characters);
    assert_eq!(f.data, "\u{F1}\u{F1}o");
    assert_eq!(f.data.chars().count(), f.length);
    assert!(f.excess_data.is_empty());
}

#[test]
fn truncated_field_is_an_error() {
    match AdifFile::parse(b"<call:9>K1MIX") {
        Err(AdifError::InvalidField(name)) => assert_eq!(name, "call at offset 0"),
        _ => panic!("expected an error"),
    }
}

#[test]
fn oversized_length_is_an_error() {
    assert!(AdifFile::parse(b"<call:99999999999999999999999>x").is_err());
}

#[test]
fn empty_input_gives_empty_document() {
    let doc = AdifFile::parse(b"").unwrap();
    assert!(doc.preamble.is_empty());
    assert!(doc.records.is_empty());
}

#[test]
fn type_tags_may_start_with_a_digit() {
    let doc = AdifFile::parse(b"<a:1:9>x<eor>").unwrap();
    let f = &doc.records[0].fields[0];
    assert_eq!(f.field_type, Some("9".to_string()));
    assert_eq!(f.data, "x");
}

#[test]
fn either_sentinel_ends_trailing_text() {
    // In a record, the byte cut ends cleanly before a stray <eoh>.
    let mut data = b"<eoh><a:3>".to_vec();
    data.extend_from_slice("\u{20AC}".as_bytes());
    data.extend_from_slice(b"<eoh>x<eor>");
    let doc = AdifFile::parse(&data).unwrap();
    let f = &doc.records[0].fields[0];
    assert_eq!(f.count_mode, FieldCountMode::Bytes);
    assert_eq!(f.data, "\u{20AC}");
    assert!(f.excess_data.is_empty());
    assert_eq!(doc.records[0].excess_data, b"<eoh>x<eor>".to_vec());
    assert_eq!(rejoin(&doc), data);
}

#[test]
fn ill_formed_runs_become_one_replacement_each() {
    let doc = AdifFile::parse(b"<a:3>\xE2\x82A<eor>").unwrap();
    assert_eq!(doc.records[0].fields[0].data, "\u{FFFD}A");
}

#[test]
fn character_count_follows_lossy_decoding() {
    let doc = AdifFile::parse(b"<a:4>\xC3\xB1\xE2\x82xyz<eor>").unwrap();
    let f = &doc.records[0].fields[0];
    assert_eq!(f.count_mode, FieldCountMode::Characters);
    assert_eq!(f.data, "\u{F1}\u{FFFD}xy");
    assert_eq!(f.data.chars().count(), f.length);
    assert_eq!(f.data, String::from_utf8_lossy(&f.original_bytes));
}

#[test]
fn error_names_the_offset() {
    match AdifFile::parse(b"ab <call:9>K1") {
        Err(AdifError::InvalidField(msg)) => assert_eq!(msg, "call at offset 3"),
        _ => panic!("expected an error"),
    }
}
