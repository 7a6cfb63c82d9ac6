use csv_simd::create;
use csv_simd::error::StructureError;
use csv_simd::tape::{boundaries, Boundary};

#[test]
fn boundaries_even_split_with_remainder() {
    let result = boundaries(8, 3).unwrap();
    assert_eq!(result[0], Boundary { start: 0, len: 3 });
    assert_eq!(result[1], Boundary { start: 3, len: 3 });
    assert_eq!(result[2], Boundary { start: 6, len: 2 });
    assert_eq!(8, result.iter().map(|b| b.len as i32).sum());
}

#[test]
fn boundaries_many_jobs() {
    let result = boundaries(1000, 12).unwrap();
    assert_eq!(result[0], Boundary { start: 0, len: 84 });
    assert_eq!(result[1], Boundary { start: 84, len: 84 });
    assert_eq!(result[11], Boundary { start: 917, len: 83 });
    assert_eq!(1000, result.iter().map(|b| b.len as i32).sum());
}

#[test]
fn boundaries_fewer_units_than_jobs() {
    let result = boundaries(8, 12).unwrap();
    assert_eq!(result.len(), 1);
    assert_eq!(result[0], Boundary { start: 0, len: 8 });
}

#[test]
fn boundaries_empty_task() {
    assert!(boundaries(0, 3).is_none());
    assert!(boundaries(3, 0).is_none());
}

#[test]
fn chunks_skip_header() {
    // four rows (header + three records), stride 2, split two ways
    let tape = create(b"a,b\n1,2\n3,4\n5,6\n".to_vec()).unwrap();
    let chunks = tape.chunks(2).unwrap();
    assert_eq!(chunks.len(), 2);
    // rows = 4: the first chunk gets rows 0..2 but starts one stride in,
    // skipping the header row
    assert_eq!(chunks[0].id, 0);
    assert_eq!(chunks[0].start.0, 2);
    assert_eq!(chunks[0].end.0, 4);
    assert_eq!(chunks[0].record_cnt, 1);
    assert_eq!(chunks[1].id, 1);
    assert_eq!(chunks[1].start.0, 4);
    assert_eq!(chunks[1].end.0, 8);
    assert_eq!(chunks[1].record_cnt, 2);
    // the union of the chunks covers every non-header record
    let total: u32 = chunks.iter().map(|c| c.record_cnt).sum();
    assert_eq!(total, tape.record_cnt);
}

#[test]
fn chunks_single() {
    let tape = create(b"a,b\n1,2\n".to_vec()).unwrap();
    let chunks = tape.chunks(9).unwrap();
    assert_eq!(chunks.len(), 1);
    assert_eq!(chunks[0].start.0, 2);
    assert_eq!(chunks[0].end.0, 4);
    assert_eq!(chunks[0].record_cnt, 1);
}

#[test]
fn chunks_zero_jobs() {
    let tape = create(b"a,b\n1,2\n".to_vec()).unwrap();
    assert!(matches!(tape.chunks(0), Err(StructureError::InvalidState)));
}
