use cryptanalysis::analytics::min_max::{min_max, print_min_max_result};
use cryptanalysis::error::AnalysisError;
use cryptanalysis::types::NumBytes;

fn check_min_max_error(some_err: Option<AnalysisError>) -> Result<(), ()> {
    if let Some(err) = some_err {
        assert_eq!(err, AnalysisError::EmptyInput);
        assert_eq!(err.message(), "Cannot calculate min/max on empty input");
        return Ok(());
    }
    return Err(());
}

fn text_min_max_empty_generic<T: NumBytes>() -> Result<(), ()> {
    let vec: Vec<T> = Vec::new();
    check_min_max_error(min_max(&vec).err())?;
    return Ok(());
}

#[test]
fn min_max_empty() -> Result<(), ()> {
    text_min_max_empty_generic::<u8>()?;
    text_min_max_empty_generic::<u16>()?;
    text_min_max_empty_generic::<u32>()?;
    text_min_max_empty_generic::<u64>()?;
    text_min_max_empty_generic::<u128>()?;
    return Ok(());
}

#[test]
fn min_max_u8() -> Result<(), AnalysisError> {
    let vec_u8: Vec<u8> = vec![223, 3, 17, 25, 255, 42, 102];
    assert_eq!(min_max(&vec_u8)?, (3, 255));
    return Ok(());
}

#[test]
fn min_max_u32() -> Result<(), AnalysisError> {
    let vec_u32: Vec<u32> = vec![223, 3, 17, 25, 255, 42, 102];
    assert_eq!(min_max(&vec_u32)?, (3, 255));
    return Ok(());
}

#[test]
fn min_max_u128() -> Result<(), AnalysisError> {
    let vec_u128: Vec<u128> = vec![223, 3, 17, 25, 255, 42, 102];
    assert_eq!(min_max(&vec_u128)?, (3, 255));
    return Ok(());
}

#[test]
fn print_min_max_result_test() {
    let mut out = String::new();
    print_min_max_result(&(7u32, 19u32), &mut out);
    let expected = format!("Minimum: 7, Maximum: 19\n").into_bytes();
    assert_eq!(out.into_bytes(), expected);
}

#[test]
fn min_max_of_one_symbol() {
    let vec: Vec<u16> = vec![513];
    assert_eq!(min_max(&vec), Ok((513, 513)));
}

#[test]
fn print_min_max_result_appends_the_largest_numbers() {
    let mut out = String::from("> ");
    print_min_max_result(&(0u128, u128::MAX), &mut out);
    assert_eq!(out, "> Minimum: 0, Maximum: 340282366920938463463374607431768211455\n");
}
