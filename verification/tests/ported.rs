use csv_simd::error::{Error, ErrorType};

#[test]
fn stage1_it_works() {
    assert_eq!(2 + 2, 4);
}

#[test]
fn lib_it_works() {
    assert_eq!(2 + 2, 4);
}

#[test]
fn it_works_reader() {
    assert_eq!(2 + 2, 4);
}

#[test]
fn structure_it_works() {
    assert_eq!(2 + 2, 4);
}

#[test]
fn binary_manipulations() {
    let test: u8 = 0b01011100;
    let test_minus_1: u8 = test - 1;
    assert_eq!(test_minus_1, 0b01011011);
    let result = test & test_minus_1;
    assert_eq!(
        result, 0b01011000,
        "The result with the lowest set bit removed"
    );
    let test: u8 = 0b01011100;
    assert_eq!(
        test.saturating_sub(1) & test,
        0b01011000,
        "The result with the lowest set bit removed"
    );
}

#[test]
fn structure() {
    let mask: u8 = 0xf;
    let win: u8 = 123;
    let low = (mask & win) as usize;
    assert_eq!(low, 0xb as usize, "Isolated test");
    assert_eq!(low, 11 as usize, "Isolated test");
}

#[test]
fn fmt() {
    let e = Error::generic(ErrorType::InternalError);
    assert_eq!(e.message(), "InternalError at character 0 ('\u{1f4a9}')")
}
