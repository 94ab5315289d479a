use transadif::encoding::{AdifEncoding, EncodingProcessor};
use transadif::mojibake::{detect_utf8_in_bytes, fix_mojibake};

#[test]
fn test_simple_mojibake() {
    let mojibake = "Ã±";
    let fixed = fix_mojibake(mojibake);
    assert_eq!(fixed, "ñ");
}

#[test]
fn test_no_mojibake() {
    let text = "Regular ASCII text";
    let fixed = fix_mojibake(text);
    assert_eq!(fixed, text);
}

#[test]
fn test_nested_mojibake() {
    let text = "JuÃƒÂ¡n";
    let fixed = fix_mojibake(text);
    assert_ne!(fixed, text);
}

#[test]
fn test_detect_utf8_in_bytes() {
    let utf8_bytes = "ñ".as_bytes();
    assert!(detect_utf8_in_bytes(utf8_bytes));

    let ascii_bytes = b"hello";
    assert!(!detect_utf8_in_bytes(ascii_bytes));
}

#[test]
fn test_mojibake_correction() {
    let processor = EncodingProcessor::new(None, AdifEncoding::Utf8, false);
    let mojibake = "ä¸–ç•Œ";
    let _corrected = processor.correct_mojibake(mojibake);
}

#[test]
fn nested_mojibake_resolves_to_the_vowel() {
    assert_eq!(fix_mojibake("JuÃƒÂ¡n"), "Juán");
}

#[test]
fn double_encoding_is_undone_in_two_passes() {
    // "ñ" encoded as UTF-8 and read as Latin-1 twice.
    assert_eq!(fix_mojibake("Ã\u{83}Â±"), "ñ");
}

#[test]
fn only_corrupted_words_change() {
    assert_eq!(fix_mojibake("Jos\u{C3}\u{A9} M\u{FC}ller"), "José M\u{FC}ller");
}

#[test]
fn legitimate_text_is_left_alone() {
    assert_eq!(fix_mojibake("Müller 한국어 日本"), "Müller 한국어 日本");
    assert_eq!(fix_mojibake(""), "");
}

#[test]
fn correcting_twice_changes_nothing() {
    for s in ["Ã±", "JuÃƒÂ¡n", "plain", "Ã\u{83}Â±o", "caf\u{C3}\u{A9} bar"] {
        let once = fix_mojibake(s);
        assert_eq!(fix_mojibake(&once), once);
    }
}

#[test]
fn lone_high_bytes_are_not_utf8() {
    assert!(!detect_utf8_in_bytes(&[0x41, 0xF1, 0x42]));
    assert!(!detect_utf8_in_bytes(&[0xC3, 0xC3]));
    assert!(detect_utf8_in_bytes(&[0x41, 0xE4, 0xB8, 0x96]));
}

fn misread_as_latin1(s: &str) -> String {
    s.bytes().map(|b| b as char).collect()
}

#[test]
fn each_pass_undoes_one_round_of_misreading() {
    let mut s = "ñ".to_string();
    for _ in 0..5 {
        s = misread_as_latin1(&s);
    }
    assert_eq!(fix_mojibake(&s), "ñ");
}

#[test]
fn the_pass_cap_can_stop_short_of_the_fixed_point() {
    let mut s = "ñ".to_string();
    for _ in 0..6 {
        s = misread_as_latin1(&s);
    }
    let once = fix_mojibake(&s);
    assert_ne!(once, "ñ");
    assert_eq!(fix_mojibake(&once), "ñ");
}
