use transadif::adif::AdifFile;
use transadif::encoding::AdifEncoding;
use transadif::output::{OutputError, OutputFormatter};
use transadif::test_runner::{format_byte_as_char, TestRunner};
use std::path::PathBuf;

#[test]
fn test_entity_reference_formatting() {
    let entity = OutputFormatter::format_as_entity_reference('€');
    assert_eq!(entity, "&0x20AC;");
}

#[test]
fn test_ascii_transliteration() {
    let formatter = OutputFormatter::new(None, AdifEncoding::Ascii, false, Some('?'), false, true);
    let text = "José Müller";
    let result = formatter.transliterate_to_ascii(text);
    assert!(result.chars().all(|c| c.is_ascii()));
    assert_eq!(result, "Jose Muller");
}

#[test]
fn test_command_extraction() {
    let _runner = TestRunner::new(PathBuf::from("transadif"));
}

fn format(data: &[u8], input: Option<AdifEncoding>, output: AdifEncoding, strict: bool) -> Result<Vec<u8>, OutputError> {
    let doc = AdifFile::parse(data).unwrap();
    OutputFormatter::new(input, output, strict, Some('?'), false, false).format_adif(&doc)
}

#[test]
fn same_encoding_strict_reproduces_input() {
    let data = "Log\n<adif_ver:5>3.1.0\n<encoding:5>UTF-8\n<eoh>\n<call:4>W1AW <name:5>Muñoz<EOR>\n".as_bytes();
    let out = format(data, Some(AdifEncoding::Utf8), AdifEncoding::Utf8, true).unwrap();
    assert_eq!(out, data.to_vec());
}

#[test]
fn headerless_file_gets_no_header() {
    let data = b"<call:5>K1MIX<band:3>40m<eor>";
    let out = format(data, Some(AdifEncoding::Utf8), AdifEncoding::Utf8, false).unwrap();
    assert_eq!(out, data.to_vec());
}

#[test]
fn encoding_field_is_inserted_or_updated() {
    let data = b"h <adif_ver:5>3.1.0 <eoh><call:4>W1AW<eor>";
    let out = format(data, Some(AdifEncoding::Utf8), AdifEncoding::Windows1252, false).unwrap();
    assert_eq!(out, b"h <adif_ver:5>3.1.0 <encoding:12>Windows-1252\r\n<eoh><call:4>W1AW<eor>".to_vec());
    let data = b"<encoding:5>UTF-8<eoh><call:4>W1AW<eor>";
    let out = format(data, Some(AdifEncoding::Utf8), AdifEncoding::Iso88591, false).unwrap();
    assert_eq!(out, b"<encoding:10>ISO-8859-1<eoh><call:4>W1AW<eor>".to_vec());
}

#[test]
fn lengths_follow_the_target_unit() {
    let data = "<name:2>ñ<eor>".as_bytes();
    let utf8 = format(data, Some(AdifEncoding::Utf8), AdifEncoding::Utf8, false).unwrap();
    assert_eq!(utf8, "<name:1>ñ<eor>".as_bytes().to_vec());
    let latin = format(data, Some(AdifEncoding::Utf8), AdifEncoding::Windows1252, false).unwrap();
    assert_eq!(latin, b"<name:1>\xF1<eor>".to_vec());
    let data = "<name:3>日<eor>".as_bytes();
    let latin = format(data, Some(AdifEncoding::Utf8), AdifEncoding::Windows1252, false).unwrap();
    assert_eq!(latin, b"<name:1>?<eor>".to_vec());
}

#[test]
fn unrepresentable_characters_are_replaced_or_deleted() {
    let doc = AdifFile::parse("<name:5>a日b<eor>".as_bytes()).unwrap();
    let replaced = OutputFormatter::new(Some(AdifEncoding::Utf8), AdifEncoding::Iso88592, false, Some('_'), false, false)
        .format_adif(&doc)
        .unwrap();
    assert_eq!(replaced, b"<name:3>a_b<eor>".to_vec());
    let deleted = OutputFormatter::new(Some(AdifEncoding::Utf8), AdifEncoding::Iso88592, false, None, true, false)
        .format_adif(&doc)
        .unwrap();
    assert_eq!(deleted, b"<name:2>ab<eor>".to_vec());
    let escaped = OutputFormatter::new(Some(AdifEncoding::Utf8), AdifEncoding::Iso88592, false, None, false, false)
        .format_adif(&doc)
        .unwrap();
    assert_eq!(escaped, b"<name:10>a&0x65E5;b<eor>".to_vec());
}

#[test]
fn strict_mode_names_the_field() {
    let data = "<call:4>W1AW<qth:3>日<eor>".as_bytes();
    match format(data, Some(AdifEncoding::Utf8), AdifEncoding::Windows1252, true) {
        Err(OutputError::StrictModeViolation { field, character }) => {
            assert_eq!(field, "qth");
            assert_eq!(character, '日');
        }
        other => panic!("unexpected {:?}", other.map(|_| ())),
    }
}

#[test]
fn mojibake_is_repaired_on_output() {
    let data = "<name:4>Ã±<eor>".as_bytes();
    let out = format(data, Some(AdifEncoding::Utf8), AdifEncoding::Utf8, false).unwrap();
    assert_eq!(out, "<name:1>ñ<eor>".as_bytes().to_vec());
}

#[test]
fn reencoded_output_parses_back_to_the_same_text() {
    let data = "<call:4>W1AW<name:5>Muñoz<eor>".as_bytes();
    let out = format(data, Some(AdifEncoding::Utf8), AdifEncoding::Iso885915, true).unwrap();
    let doc = AdifFile::parse(&out).unwrap();
    let back = OutputFormatter::new(Some(AdifEncoding::Iso885915), AdifEncoding::Utf8, true, None, false, false);
    let processed = back.processor.process_field_data(&doc.records[0].fields[1].original_bytes).unwrap();
    assert_eq!(processed, "Muñoz");
}

#[test]
fn compare_bytes_lists_differences() {
    let runner = TestRunner::new(PathBuf::from("x"));
    let d = runner.compare_bytes(b"abcd", b"abXde");
    assert_eq!(d.len(), 2);
    assert_eq!((d[0].position, d[0].expected, d[0].actual), (2, b'c', b'X'));
    assert_eq!((d[1].position, d[1].expected, d[1].actual), (4, 0, b'e'));
    assert!(d[0].context.starts_with("Expected: \"abcd\""));
    assert!(runner.compare_bytes(b"same", b"same").is_empty());
    let tail = runner.compare_bytes(&[0x00], &[]);
    assert_eq!(tail.len(), 1);
    assert_eq!((tail[0].position, tail[0].expected, tail[0].actual), (0, 0, 0));
}

#[test]
fn bytes_are_shown_for_diffs() {
    assert_eq!(format_byte_as_char(b'\n'), "\\n");
    assert_eq!(format_byte_as_char(b'\\'), "\\\\");
    assert_eq!(format_byte_as_char(b'A'), "A");
    assert_eq!(format_byte_as_char(0xC3), "\\xc3");
    assert_eq!(format_byte_as_char(0x07), "\\x07");
}

#[test]
fn utf8_output_parses_back_by_characters() {
    let data = b"<name:4>\xF1ab!<eor>";
    let out = format(data, Some(AdifEncoding::Windows1252), AdifEncoding::Utf8, true).unwrap();
    assert_eq!(out, "<name:4>ñab!<eor>".as_bytes().to_vec());
    let doc = AdifFile::parse(&out).unwrap();
    let field = &doc.records[0].fields[0];
    assert_eq!(field.original_bytes, "ñab!".as_bytes().to_vec());
    let back = OutputFormatter::new(Some(AdifEncoding::Utf8), AdifEncoding::Utf8, true, None, false, false);
    assert_eq!(back.processor.process_field_data(&field.original_bytes).unwrap(), "ñab!");
}

#[test]
fn strict_mode_reports_the_character() {
    let doc = AdifFile::parse(b"<name:2>\xC5\x91<eor>").unwrap();
    let f = OutputFormatter::new(Some(AdifEncoding::Utf8), AdifEncoding::Windows1252, true, Some('?'), false, false);
    match f.format_adif(&doc) {
        Err(OutputError::StrictModeViolation { field, character }) => {
            assert_eq!(field, "name");
            assert_eq!(character, 'ő');
        }
        _ => panic!("expected a strict-mode violation"),
    }
}
