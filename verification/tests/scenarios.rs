use csv_simd::create;
use csv_simd::error::StructureError;
use csv_simd::reader::read;
use csv_simd::record_source::RecordSource;
use csv_simd::stage1::NewLine;
use csv_simd::tape::Header;

fn positions(bytes: &[u8]) -> Vec<usize> {
    read(bytes).0.iter().map(|c| c.0).collect()
}

#[test]
fn minimal_lf() {
    let tape = create(b"a,b,c\nx,y,z\n1,2,3\n".to_vec()).unwrap();
    assert_eq!(tape.header.field_cnt, 3);
    assert!(matches!(tape.header.new_line, NewLine::LF));
    assert_eq!(tape.record_jump_size.0, 3);
    assert_eq!(tape.record_cnt, 2);
    let index: Vec<usize> = tape.index().0.iter().map(|c| c.0).collect();
    assert_eq!(index, vec![0, 1, 3, 5, 7, 9, 11, 13, 15, 17]);
    assert_eq!(tape.seek_record(0).unwrap().unwrap(), b"x,y,z");
    assert_eq!(tape.seek_field(0, 1).unwrap().unwrap(), b"y");
    assert_eq!(tape.seek_field(1, 2).unwrap().unwrap(), b"3");
    assert_eq!(tape.seek_record(2).unwrap(), None);
    assert_eq!(tape.seek_field(0, 3).unwrap(), None);
}

#[test]
fn crlf() {
    let tape = create(b"a,b\r\n1,2\r\n3,4\r\n".to_vec()).unwrap();
    assert!(matches!(tape.header.new_line, NewLine::CRLF));
    assert_eq!(tape.record_jump_size.0, 3);
    assert_eq!(tape.record_cnt, 2);
    // both the carriage return and the line feed of every terminator are
    // listed
    let index: Vec<usize> = tape.index().0.iter().map(|c| c.0).collect();
    assert_eq!(index, vec![0, 1, 3, 4, 6, 8, 9, 11, 13, 14]);
    assert_eq!(tape.seek_field(1, 0).unwrap().unwrap(), b"3");
    assert_eq!(tape.seek_record(0).unwrap().unwrap(), b"1,2");
}

#[test]
fn quoted_separator() {
    let tape = create(b"a,b\n\"x,y\",z\n".to_vec()).unwrap();
    assert_eq!(tape.record_cnt, 1);
    assert_eq!(tape.seek_field(0, 0).unwrap().unwrap(), b"\"x,y\"");
    assert_eq!(tape.seek_field(0, 1).unwrap().unwrap(), b"z");
    // the comma inside the quoted field is not in the index
    let index = positions(b"a,b\n\"x,y\",z\n");
    assert!(!index.contains(&6));
    assert_eq!(index, vec![0, 1, 3, 9, 11]);
}

#[test]
fn quote_crossing_block_boundary() {
    // 60 bytes of plain rows, a quote at offset 60, a comma at offset 65
    // inside the quoted span crossing the 64-byte block boundary, the
    // closing quote at offset 70 and an unquoted comma at offset 71
    let mut input: Vec<u8> = Vec::new();
    for _ in 0..15 {
        input.extend_from_slice(b"a,b\n");
    }
    assert_eq!(input.len(), 60);
    input.extend_from_slice(b"\"aaaa,aaaa\",end\n");
    assert_eq!(input[60], b'"');
    assert_eq!(input[65], b',');
    assert_eq!(input[70], b'"');
    assert_eq!(input[71], b',');
    let index = positions(&input);
    assert!(!index.contains(&65));
    assert!(index.contains(&71));
    assert!(index.contains(&75));
}

#[test]
fn bom_prefix() {
    let mut input: Vec<u8> = vec![0xef, 0xbb, 0xbf];
    input.extend_from_slice(b"x,y\n1,2\n");
    let header = Header::new(&input).unwrap();
    // the header starts past the three mark bytes, and the data one past
    // the header terminator
    assert_eq!(header.record_offset, 7);
    assert_eq!(header.header, vec!["x".to_string(), "y".to_string()]);
    assert_eq!(header.field_cnt, 2);
}

#[test]
fn variable_row_width() {
    let r = create(b"a,b\n1,2\n3\n".to_vec());
    assert!(matches!(r, Err(StructureError::InvalidCsvFormat)));
}

#[test]
fn empty_region_rejected() {
    assert!(matches!(
        Header::new(b""),
        Err(StructureError::InvalidCsvFormat)
    ));
    assert!(matches!(
        create(Vec::new()),
        Err(StructureError::InvalidCsvFormat)
    ));
}

#[test]
fn no_terminator_rejected() {
    assert!(matches!(
        Header::new(b"a,b,c"),
        Err(StructureError::InvalidCsvFormat)
    ));
}

#[test]
fn missing_last_terminator_rejected() {
    let r = create(b"a,b\n1,2\n3,4".to_vec());
    assert!(matches!(r, Err(StructureError::InvalidCsvFormat)));
}

#[test]
fn length_multiple_of_sixteen() {
    // exactly 16 bytes: the tail loader sees zero whole lanes and zero
    // spare bytes, and adds no spurious entries
    let input = b"a,b\nx,y\nq,w\ne,r\n";
    assert_eq!(input.len(), 16);
    let index = positions(input);
    assert_eq!(index, vec![0, 1, 3, 5, 7, 9, 11, 13, 15]);
    let tape = create(input.to_vec()).unwrap();
    assert_eq!(tape.record_cnt, 3);
    assert_eq!(tape.seek_record(2).unwrap().unwrap(), b"e,r");
}

#[test]
fn header_names_trimmed() {
    let tape = create(b" a , b \n1,2\n".to_vec()).unwrap();
    assert_eq!(tape.header.header, vec!["a".to_string(), "b".to_string()]);
}

#[test]
fn round_trip_concatenation() {
    // concatenating every record slice with the terminator reproduces the
    // data region byte for byte
    let input = b"h1,h2\nab,cd\n\"x,\",z\n";
    let tape = create(input.to_vec()).unwrap();
    let mut rebuilt: Vec<u8> = Vec::new();
    for r in 0..tape.record_cnt {
        rebuilt.extend_from_slice(tape.seek_record(r).unwrap().unwrap());
        rebuilt.push(b'\n');
    }
    assert_eq!(&rebuilt[..], &input[tape.header.record_offset as usize..]);
}

#[test]
fn round_trip_concatenation_crlf() {
    let input = b"h1,h2\r\nab,cd\r\nef,gh\r\n";
    let tape = create(input.to_vec()).unwrap();
    let mut rebuilt: Vec<u8> = Vec::new();
    for r in 0..tape.record_cnt {
        rebuilt.extend_from_slice(tape.seek_record(r).unwrap().unwrap());
        rebuilt.extend_from_slice(b"\r\n");
    }
    assert_eq!(&rebuilt[..], &input[tape.header.record_offset as usize..]);
}
