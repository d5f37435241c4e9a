use cryptanalysis::arguments::{
    arg_at, help, parse_args, parse_kasiski_examination_params, parse_optionals, Action,
    AnalyzeMethod, Sizes, DEFAULT_KASISKI_LEN,
};

fn args(input: Vec<&str>) -> Vec<String> {
    input.iter().map(|text| text.to_string()).collect()
}

fn message(input: Vec<&str>) -> String {
    parse_args(&args(input)).unwrap_err()
}

#[test]
fn each_wrong_command_line_has_its_message() {
    assert_eq!(message(vec!["x", "--bytes"]), "Bytes parameter is invalid");
    assert_eq!(message(vec!["x", "--bytes", "3", "min_max", "f"]), "Bytes parameter is invalid");
    assert_eq!(message(vec!["x", "--keep-every", "k", "min_max", "f"]), "--keep-every is invalid");
    assert_eq!(message(vec!["x", "--keep-every"]), "--keep-every is invalid");
    assert_eq!(message(vec!["x", "--skip-first", "-3", "min_max", "f"]), "--skip-first is invalid");
    assert_eq!(message(vec!["x", "--skip-first"]), "--skip-first is invalid");
    assert_eq!(
        message(vec!["x", "kasiski_examination", "--min-length", "long", "f"]),
        "min-length is invalid"
    );
    assert_eq!(message(vec!["x", "kasiski_examination", "--min-length"]), "min-length is invalid");
    assert_eq!(message(vec!["x", "min_max"]), "No file specified");
    assert_eq!(message(vec!["x"]), "Method needs to be provided once");
    assert_eq!(message(vec!["x", "f"]), "Method needs to be provided once");
    assert_eq!(
        message(vec!["x", "min_max", "frequency_analysis", "f"]),
        "Method needs to be provided once"
    );
    assert_eq!(
        message(vec!["x", "min_max", "--bytes", "2", "f"]),
        "Unkown parameter --bytes, file must be provided last"
    );
    assert_eq!(
        message(vec!["x", "f", "min_max"]),
        "Unkown parameter f, file must be provided last"
    );
}

#[test]
fn a_later_option_replaces_an_earlier_one() {
    assert_eq!(
        parse_optionals(&args(vec![
            "x",
            "--bytes",
            "2",
            "--skip-first",
            "+7",
            "--bytes",
            "16",
            "--keep-every",
            "0",
            "--skip-first",
            "1",
            "f"
        ])),
        Ok((Sizes::U128, 1, 0, 11))
    );
    assert_eq!(parse_optionals(&args(vec![])), Ok((Sizes::U8, 0, 1, 1)));
    assert_eq!(parse_optionals(&args(vec!["x"])), Ok((Sizes::U8, 0, 1, 1)));
    assert_eq!(parse_optionals(&args(vec!["--bytes", "--bytes", "4"])), Ok((Sizes::U32, 0, 1, 3)));
}

#[test]
fn the_method_may_stand_with_help_and_twice_with_it() {
    assert_eq!(
        parse_args(&args(vec!["x", "--skip-first", "2", "min_max", "min_max", "--help", "f"])),
        Ok(Action {
            skip_first: 2,
            keep_every: 1,
            method: AnalyzeMethod::MinMax,
            size: Sizes::U8,
            filename: "".to_string(),
            help: true
        })
    );
    assert_eq!(
        parse_args(&args(vec!["x", "kasiski_examination", "--min-length", "0", "-h"])),
        Ok(Action {
            skip_first: 0,
            keep_every: 1,
            method: AnalyzeMethod::KasiskiExamination(0),
            size: Sizes::U8,
            filename: "".to_string(),
            help: true
        })
    );
}

#[test]
fn the_kasiski_examination_has_a_default_length() {
    assert_eq!(DEFAULT_KASISKI_LEN, 5);
    assert_eq!(
        parse_kasiski_examination_params(&args(vec!["--min-length", "+12", "f"]), 0),
        Ok((AnalyzeMethod::KasiskiExamination(12), 2))
    );
    assert_eq!(
        parse_kasiski_examination_params(&args(vec![]), usize::MAX),
        Ok((AnalyzeMethod::KasiskiExamination(5), 0))
    );
    assert_eq!(
        parse_args(&args(vec!["x", "kasiski_examination", "--min-length"])).is_err(),
        true
    );
    assert_eq!(
        parse_args(&args(vec!["x", "kasiski_examination", "f"])),
        Ok(Action {
            skip_first: 0,
            keep_every: 1,
            method: AnalyzeMethod::KasiskiExamination(5),
            size: Sizes::U8,
            filename: "f".to_string(),
            help: false
        })
    );
}

#[test]
fn arguments_are_found_by_position() {
    let list = args(vec!["a", "b"]);
    assert_eq!(arg_at(&list, 0), Some(&"a".to_string()));
    assert_eq!(arg_at(&list, 1), Some(&"b".to_string()));
    assert_eq!(arg_at(&list, 2), None);
    assert_eq!(arg_at(&list, usize::MAX), None);
}

#[test]
fn the_help_message_names_the_program() {
    let text = help(&"kasiski".to_string());
    assert!(text.starts_with(
        "Analyze ciphertext with classical cryptanalysis\n\nUsage: kasiski [--bytes BYTES] METHOD [METHOD PARAMETERS] FILE\n\t-h|--help: Print this help message\n"
    ));
    assert!(text.contains("\t--bytes:   How many bytes to group together.\n\t           1, 2, 4, 8, 16 (Default: 1\n\nMethods:\n"));
    assert!(text.contains("\tmin_max                 Show range of bytes\n"));
    assert!(text.contains("\tfrequency_analysis      Count occurence of bytes\n"));
    assert!(text.contains("\tkasiski_examination     Show duplicate words\n"));
    assert!(text.ends_with("\t\t--min-length    Minimum word length, Default: 5"));
}
