use waterfall::cli::{
    flag_value, number_or, parse_or, size_or, text_setting, unknown_flags, value_or,
};

fn args(items: &[&str]) -> Vec<String> {
    items.iter().map(|s| s.to_string()).collect()
}

#[test]
fn accepts_the_space_separated_form() {
    assert_eq!(
        flag_value(&args(&["bin", "--source", "ingest"]), "--source"),
        Some("ingest".to_string())
    );
}

/// Manifests pass `--flag=value`; it must not be ignored.
#[test]
fn accepts_the_equals_form() {
    assert_eq!(
        flag_value(&args(&["bin", "--source=ingest"]), "--source"),
        Some("ingest".to_string())
    );
    assert_eq!(
        flag_value(&args(&["bin", "--static=/app/static"]), "--static"),
        Some("/app/static".to_string())
    );
}

#[test]
fn equals_form_handles_values_containing_equals() {
    assert_eq!(
        flag_value(
            &args(&["bin", "--bridge-url=http://host:4780/?a=b"]),
            "--bridge-url"
        ),
        Some("http://host:4780/?a=b".to_string())
    );
}

#[test]
fn missing_flag_is_none_and_parse_or_uses_the_default() {
    assert_eq!(flag_value(&args(&["bin", "--static", "."]), "--source"), None);
    assert_eq!(parse_or(&args(&["bin"]), "--publish-hz", 30.0_f64), 30.0);
    assert_eq!(
        parse_or(&args(&["bin", "--publish-hz=12.5"]), "--publish-hz", 30.0_f64),
        12.5
    );
    assert_eq!(
        parse_or(&args(&["bin", "--publish-hz", "7"]), "--publish-hz", 30.0_f64),
        7.0
    );
}

#[test]
fn first_occurrence_wins() {
    assert_eq!(
        flag_value(
            &args(&["bin", "--source=ingest", "--source", "synthetic"]),
            "--source"
        ),
        Some("ingest".to_string())
    );
}

#[test]
fn unknown_flags_are_reported_but_known_ones_are_not() {
    let known = ["--source", "--static", "--center-freq"];
    let argv = args(&[
        "bin",
        "--source=ingest",
        "--static",
        "/app/static",
        "--center-freq=915000000",
        "--typo-flag",
        "--other=1",
        "positional",
    ]);
    assert_eq!(
        unknown_flags(&argv, &known),
        vec!["--other".to_string(), "--typo-flag".to_string()]
    );
    assert!(unknown_flags(&args(&["bin", "--source", "ingest"]), &known).is_empty());
}

#[test]
fn unknown_flags_are_sorted_and_named_once() {
    let argv = args(&["--b", "--a=1", "--b=2", "--ab", "--", "--=x", "-b", "b"]);
    assert_eq!(unknown_flags(&argv, &[]), args(&["--", "--a", "--ab", "--b"]));
    assert_eq!(unknown_flags(&argv, &["--b", "--"]), args(&["--a", "--ab"]));
    assert_eq!(
        unknown_flags(&args(&["--\u{e9}", "--z", "--\u{1F600}=1"]), &[]),
        args(&["--z", "--\u{e9}", "--\u{1F600}"])
    );
}

#[test]
fn both_forms_agree_whatever_the_value() {
    for value in ["", "a", "=", "a=b", "--other", "\u{e9}\u{1F600}"] {
        let attached = format!("--name={value}");
        assert_eq!(
            flag_value(&args(&["bin", "x", &attached, "--name", "z"]), "--name"),
            Some(value.to_string())
        );
        assert_eq!(
            flag_value(&args(&["bin", "x", "--name", value, "--name=z"]), "--name"),
            Some(value.to_string())
        );
    }
}

#[test]
fn a_flag_at_the_end_has_no_value() {
    assert_eq!(flag_value(&args(&["bin", "--name"]), "--name"), None);
    assert_eq!(flag_value(&args(&["--name", "--name=a"]), "--name"), Some("--name=a".to_string()));
    assert_eq!(flag_value(&args(&["--names=a", "--nam"]), "--name"), None);
    assert_eq!(flag_value(&[], "--name"), None);
}

#[test]
fn unparseable_values_fall_back_to_the_default() {
    assert_eq!(parse_or(&args(&["--n=12"]), "--n", 60_u64), 12);
    assert_eq!(parse_or(&args(&["--n=-12"]), "--n", 60_u64), 60);
    assert_eq!(parse_or(&args(&["--n="]), "--n", 60_u64), 60);
    assert_eq!(parse_or(&args(&["--n"]), "--n", 60_u64), 60);
    assert_eq!(value_or(Some(3), 4), 3);
    assert_eq!(value_or(None, 4), 4);
}

#[test]
fn the_environment_goes_before_a_flag_and_a_flag_before_the_default() {
    let argv = args(&["bin", "--listen=flag"]);
    assert_eq!(text_setting(Some("env".to_string()), &argv, "--listen", "default"), "env");
    assert_eq!(text_setting(None, &argv, "--listen", "default"), "flag");
    assert_eq!(text_setting(None, &argv, "--other", "default"), "default");
}

#[test]
fn whole_numbers_are_read_as_the_standard_library_reads_them() {
    for text in [
        "0", "7", "007", "+12", "18446744073709551615", "18446744073709551616",
        "00000000000000000000000000000001", "99999999999999999999999x", "", "+", "-", "-0", "-5",
        "++1", "+-1", " 1", "1 ", "1_000", "0x10", "1.5", "1e3", "\u{0663}", "12a", "a12",
    ] {
        let argv = args(&["bin", &format!("--n={text}")]);
        assert_eq!(number_or(&argv, "--n", 60), text.parse().unwrap_or(60_u64), "{text}");
        assert_eq!(size_or(&argv, "--n", 61), text.parse().unwrap_or(61_usize), "{text}");
        assert_eq!(number_or(&argv, "--n", 60), parse_or(&argv, "--n", 60_u64), "{text}");
    }
    assert_eq!(number_or(&args(&["--n", "12"]), "--n", 60), 12);
    assert_eq!(number_or(&args(&["--n"]), "--n", 60), 60);
    assert_eq!(size_or(&args(&["--n", "12"]), "--n", 60), 12);
    assert_eq!(size_or(&[], "--n", 60), 60);
}
