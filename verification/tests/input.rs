use cryptanalysis::error::AnalysisError;
use cryptanalysis::input::{convert_vec, filter_input_vec};
use cryptanalysis::types::NumBytes;
use std::fmt::Debug;

#[test]
fn test_convert_vec() -> Result<(), AnalysisError> {
    let orig_vec: Vec<u8> = vec![
        0x01, 0x02, 0x04, 0x08, 0x10, 0x20, 0x40, 0x80, 0x11, 0x22, 0x44, 0x88, 0x18, 0x24, 0x42,
        0x00, 0x12, 0x34, 0x56, 0x78, 0x90, 0x55, 0x33, 0x99, 0x12, 0x34, 0x56, 0x78, 0x90, 0x55,
        0x33, 0x99,
    ];
    let vec8 = convert_vec::<u8>(&orig_vec)?;
    assert_eq!(orig_vec, vec8);
    let vec16 = convert_vec::<u16>(&orig_vec)?;
    assert_eq!(
        vec16,
        [
            0x0102, 0x0408, 0x1020, 0x4080, 0x1122, 0x4488, 0x1824, 0x4200, 0x1234, 0x5678, 0x9055,
            0x3399, 0x1234, 0x5678, 0x9055, 0x3399
        ]
    );

    let vec32 = convert_vec::<u32>(&orig_vec)?;
    assert_eq!(
        vec32,
        [
            0x01020408, 0x10204080, 0x11224488, 0x18244200, 0x12345678, 0x90553399, 0x12345678,
            0x90553399
        ]
    );
    let vec64 = convert_vec::<u64>(&orig_vec)?;
    assert_eq!(
        vec64,
        [0x0102040810204080, 0x1122448818244200, 0x1234567890553399, 0x1234567890553399]
    );
    let vec128 = convert_vec::<u128>(&orig_vec)?;
    assert_eq!(
        vec128,
        [0x01020408102040801122448818244200, 0x12345678905533991234567890553399]
    );
    return Ok(());
}

fn check_convert_vec_error(err: AnalysisError, b: u8) {
    assert_eq!(err, AnalysisError::LengthNotMultiple { bytes: b });
    let expected = format!("Vector length needs to be a multiple of T's size ({} bytes)", b);
    assert_eq!(err.message(), expected);
}

fn create_test_vec(size: usize) -> Vec<u8> {
    let mut vec = Vec::new();
    for _i in 0..size {
        vec.push(2);
    }
    return vec;
}

fn test_convert_vec_auto<T: NumBytes + Debug>() {
    for i in 1..T::BYTES {
        let vec = create_test_vec(usize::from(T::BYTES + i));
        check_convert_vec_error(convert_vec::<T>(&vec).unwrap_err(), T::BYTES);
    }
}

#[test]
fn test_convert_vec_errors() -> Result<(), ()> {
    test_convert_vec_auto::<u16>();
    test_convert_vec_auto::<u32>();
    test_convert_vec_auto::<u64>();
    test_convert_vec_auto::<u128>();
    return Ok(());
}

#[test]
fn filter_input_vec_error() {
    let vec: Vec<u8> = vec![];
    let err = filter_input_vec(&vec, 0, 5).unwrap_err();
    assert_eq!(err, AnalysisError::KeepEveryZero);
    assert_eq!(err.message(), "Cannot keep every 0.th element, parameter needs to be > 0");
}

#[test]
fn filter_input_vec_copy() {
    let vec: Vec<u8> = vec![4, 9, 12, 85, 2, 53, 56, 23, 86];
    assert_eq!(filter_input_vec(&vec, 1, 0).unwrap(), vec);
}

#[test]
fn filter_input_vec_every() {
    let vec: Vec<u16> = vec![4, 9, 12, 85, 2, 53, 56, 23, 86];
    assert_eq!(filter_input_vec(&vec, 3, 0).unwrap(), vec![4, 85, 56]);
}

#[test]
fn filter_input_vec_skip_first() {
    let vec: Vec<u32> = vec![4, 9, 12, 85, 2, 53, 56, 23, 86];
    assert_eq!(filter_input_vec(&vec, 1, 4).unwrap(), vec![2, 53, 56, 23, 86]);
}

#[test]
fn filter_input_vec_skip_first_and_every() {
    let vec: Vec<u64> = vec![4, 9, 12, 85, 2, 53, 56, 23, 86];
    assert_eq!(filter_input_vec(&vec, 3, 2).unwrap(), vec![12, 53, 86]);
}

#[test]
fn filter_input_vec_at_the_edges() {
    let vec: Vec<u8> = vec![4, 9, 12, 85, 2, 53, 56, 23, 86];
    assert_eq!(filter_input_vec(&vec, 1, 9).unwrap(), Vec::<u8>::new());
    assert_eq!(filter_input_vec(&vec, 1, 10).unwrap(), Vec::<u8>::new());
    assert_eq!(filter_input_vec(&vec, 4, 8).unwrap(), vec![86]);
    assert_eq!(filter_input_vec(&vec, 8, 0).unwrap(), vec![4, 86]);
    assert_eq!(filter_input_vec(&vec, 9, 0).unwrap(), vec![4]);
    assert_eq!(filter_input_vec(&vec, usize::MAX, 1).unwrap(), vec![9]);
    assert_eq!(filter_input_vec(&vec, 2, usize::MAX).unwrap(), Vec::<u8>::new());
    assert_eq!(
        filter_input_vec(&vec, 0, 0),
        Err(AnalysisError::KeepEveryZero)
    );
}

#[test]
fn convert_vec_of_no_bytes() {
    assert_eq!(convert_vec::<u64>(&Vec::new()), Ok(Vec::new()));
    assert_eq!(
        convert_vec::<u32>(&vec![1, 2, 3]),
        Err(AnalysisError::LengthNotMultiple { bytes: 4 })
    );
    assert_eq!(convert_vec::<u16>(&vec![0xff, 0xfe]), Ok(vec![0xfffe]));
    assert_eq!(
        convert_vec::<u128>(&vec![0xff; 16]),
        Ok(vec![u128::MAX])
    );
}
