use cryptanalysis::error::AnalysisError;
use cryptanalysis::text::{
    digit_str, push_decimal, push_positions, push_symbols, read_usize, str_eq,
};

#[test]
fn numbers_are_read_as_the_standard_library_reads_them() {
    let max = usize::MAX.to_string();
    let beyond = format!("{}0", max);
    let above = (usize::MAX as u128 + 1).to_string();
    let texts = vec![
        "0", "7", "187", "007", "+5", "+0", "+", "", "-1", "-0", " 1", "1 ", "1_000", "0x10",
        "12a", "a12", "++1", "+-1", "١٢", "1١", "٣", "é", "18446744073709551615",
        "18446744073709551616", "99999999999999999999999999999999999999999",
        max.as_str(), beyond.as_str(), above.as_str(),
    ];
    for text in texts {
        assert_eq!(read_usize(text), text.parse::<usize>().ok(), "{:?}", text);
    }
    assert_eq!(read_usize("187"), Some(187));
    assert_eq!(read_usize("+5"), Some(5));
    assert_eq!(read_usize(""), None);
    assert_eq!(read_usize(max.as_str()), Some(usize::MAX));
    assert_eq!(read_usize(above.as_str()), None);
}

#[test]
fn numbers_are_written_in_decimal() {
    for n in [0u128, 1, 9, 10, 11, 99, 100, 12345678901234567890, u128::MAX] {
        let mut out = String::from("n=");
        push_decimal(&mut out, n);
        assert_eq!(out, format!("n={}", n));
    }
    for d in 0..10u8 {
        assert_eq!(digit_str(d), d.to_string());
    }
}

#[test]
fn lists_are_written_with_commas() {
    let mut out = String::from("[");
    push_positions(&mut out, &vec![]);
    assert_eq!(out, "[");
    push_positions(&mut out, &vec![3]);
    assert_eq!(out, "[3");
    push_positions(&mut out, &vec![0, 10, usize::MAX]);
    assert_eq!(out, format!("[30, 10, {}", usize::MAX));
    let mut out = String::new();
    push_symbols(&mut out, &vec![1u16, 65535, 0]);
    assert_eq!(out, "1, 65535, 0");
    push_symbols(&mut out, &Vec::<u8>::new());
    assert_eq!(out, "1, 65535, 0");
}

#[test]
fn texts_are_compared_by_their_characters() {
    assert!(str_eq("", ""));
    assert!(str_eq("--bytes", "--bytes"));
    assert!(!str_eq("--bytes", "--byteS"));
    assert!(!str_eq("--bytes", "--byte"));
    assert!(!str_eq("", "a"));
    assert!(str_eq("größe", "größe"));
    assert!(!str_eq("größe", "grösse"));
}

#[test]
fn each_error_has_its_message() {
    assert_eq!(
        AnalysisError::EmptyInput.message(),
        "Cannot calculate min/max on empty input"
    );
    assert_eq!(
        AnalysisError::LengthNotMultiple { bytes: 16 }.message(),
        "Vector length needs to be a multiple of T's size (16 bytes)"
    );
    assert_eq!(
        AnalysisError::LengthNotMultiple { bytes: 2 }.message(),
        "Vector length needs to be a multiple of T's size (2 bytes)"
    );
    assert_eq!(
        AnalysisError::KeepEveryZero.message(),
        "Cannot keep every 0.th element, parameter needs to be > 0"
    );
}
