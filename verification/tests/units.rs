use csv_simd::error::{Error, ErrorType, StructureError};
use csv_simd::helper::ByteReport;
use csv_simd::reader::{contains_nonascii, is_ascii};
use csv_simd::record_source::RecordSource;
use csv_simd::stage1::{classify, crush_set_bits, CodeUnitPos, NewLine, StructureIndex};
use csv_simd::structure;
use csv_simd::tape::{DataBytes, Header, TapeCore};

#[test]
fn classifier_classes() {
    assert_eq!(classify(b','), 2);
    assert_eq!(classify(b'\n'), 1);
    assert_eq!(classify(b'\r'), 1);
    assert_eq!(classify(b'"'), 16);
    assert_eq!(classify(b' '), 4);
    assert_eq!(classify(b'\\'), 8);
    assert_eq!(classify(b'a'), 0);
    assert_eq!(classify(0), 0);
}

#[test]
fn lane_classification() {
    let chunk = b"ab,\ncd\"e PQRSTU\\";
    let classes = structure::run(chunk, 0);
    assert_eq!(
        classes,
        vec![0, 0, 2, 1, 0, 0, 16, 0, 4, 0, 0, 0, 0, 0, 0, 8]
    );
}

#[test]
fn bit_expansion() {
    let mut acc: Vec<CodeUnitPos> = Vec::new();
    crush_set_bits(&mut acc, 0b1010, 100);
    assert_eq!(acc.len(), 2);
    assert_eq!(acc[0].0, 101);
    assert_eq!(acc[1].0, 103);
    // a zero mask appends nothing
    crush_set_bits(&mut acc, 0, 200);
    assert_eq!(acc.len(), 2);
    // the highest bit lands at offset 63
    crush_set_bits(&mut acc, 1u64 << 63, 0);
    assert_eq!(acc[2].0, 63);
}

#[test]
fn ascii_checks() {
    assert!(is_ascii(b"plain text"));
    assert!(!is_ascii("caf\u{e9}".as_bytes()));
    assert!(!contains_nonascii(0x1122334455667708u64 as usize));
    assert!(contains_nonascii(0x1122334455667788u64 as usize));
    assert!(contains_nonascii(0x0102030405060708u64 as usize | 0x80));
}

#[test]
fn byte_report() {
    let report = ByteReport::new(b"abc");
    assert_eq!(report.len, 3);
    assert_eq!(report.bytes, b"abc");
    assert_eq!(ByteReport::_u8_as_str(b"abc"), "abc");
}

#[test]
fn error_parts() {
    let e = Error::new(7, 'q', ErrorType::EarlyEnd);
    assert_eq!(e.index, 7);
    assert_eq!(e.character, 'q');
    assert!(e.error == ErrorType::EarlyEnd);
    assert_eq!(e.message(), "EarlyEnd at character 7 ('q')");
    let e = Error::new(1234, 'x', ErrorType::Overflow);
    assert_eq!(e.message(), "Overflow at character 1234 ('x')");
}

#[test]
fn error_type_comparison() {
    assert!(ErrorType::EOF == ErrorType::EOF);
    assert!(ErrorType::IO == ErrorType::IO);
    assert!(!(ErrorType::EOF == ErrorType::Parser));
    // kinds outside the comparison table compare unequal even to themselves
    assert!(!(ErrorType::InputTooLarge == ErrorType::InputTooLarge));
    assert!(!(ErrorType::NoStructure == ErrorType::NoStructure));
}

#[test]
fn new_line_helpers() {
    assert!(NewLine::CRLF.is_crlf());
    assert!(!NewLine::Any(b';').is_crlf());
    assert!(NewLine::CRLF.equals(b'\r'));
    assert!(NewLine::CRLF.equals(b'\n'));
    assert!(!NewLine::CRLF.equals(b','));
    assert!(NewLine::Any(b';').equals(b';'));
    assert!(!NewLine::Any(b';').equals(b'\n'));
    assert!(matches!(NewLine::default(), NewLine::CRLF));
}

#[test]
fn uninitialized_core_rejects_lookups() {
    let bytes = b"a,b\n1,2\n".to_vec();
    let header = Header::new(&bytes).unwrap();
    let index = csv_simd::reader::read(&bytes);
    let core = TapeCore::create(DataBytes(bytes), index, header);
    assert!(matches!(
        core.seek_record(0),
        Err(StructureError::InvalidState)
    ));
    assert!(matches!(
        core.seek_field(0, 0),
        Err(StructureError::InvalidState)
    ));
    assert!(matches!(
        core.record_jump_size(),
        Err(StructureError::InvalidState)
    ));
    assert_eq!(core.record_cnt(), None);
}

#[test]
fn structure_index_access() {
    let index = csv_simd::reader::read(b"x\ny\n");
    let StructureIndex(entries) = index;
    assert_eq!(entries.len(), 3);
    assert_eq!(entries[0].0, 0);
    assert_eq!(entries[1].0, 1);
    assert_eq!(entries[2].0, 3);
}

#[test]
fn tape_getters() {
    let tape = csv_simd::create(b"a,b\n1,2\n".to_vec()).unwrap();
    assert_eq!(tape.bytes().len(), 8);
    assert_eq!(tape.index().len(), 5);
    assert_eq!(tape.header(), &vec!["a".to_string(), "b".to_string()]);
    assert_eq!(tape.header.field_cnt(), 2);
    let wrapped = tape.as_records();
    assert_eq!(wrapped.0.record_cnt, 1);
}

#[test]
fn utf8_text_views() {
    assert_eq!(ByteReport::_u8_as_str("caf\u{e9}".as_bytes()), "caf\u{e9}");
}
