//! The `check` command: arguments, records and exit codes.

use ropey::Rope;
use zerosyntax::analyzer::Span;
use zerosyntax::checks::{Diagnostic, Severity};
use zerosyntax::report::{
    exit_code, parse_check_args, severity_text, write_record, write_summary, ArgError, FailOn,
};

fn args(words: &[&str]) -> Vec<String> {
    words.iter().map(|word| word.to_string()).collect()
}

#[test]
fn arguments_are_read_in_any_order() {
    let parsed = parse_check_args(&args(&[
        "--json",
        "--base-root",
        "C:/Games/Zero Hour",
        "--stdin-filename",
        "map.ini",
        "Data/INI",
        "--fail-on",
        "warning",
        "-",
    ]))
    .unwrap();
    assert!(parsed.json && parsed.stdin);
    assert_eq!(parsed.fail_on, FailOn::Warning);
    assert_eq!(parsed.base_roots, vec!["C:/Games/Zero Hour"]);
    assert_eq!(parsed.stdin_name, "map.ini");
    assert_eq!(parsed.targets, vec!["Data/INI"]);

    let plain = parse_check_args(&args(&["Data/INI"])).unwrap();
    assert!(!plain.json && !plain.stdin);
    assert_eq!(plain.fail_on, FailOn::Error);
    assert_eq!(plain.stdin_name, "<stdin>");
}

#[test]
fn usage_failures_are_told_apart() {
    assert!(matches!(
        parse_check_args(&args(&[])),
        Err(ArgError::NoTarget)
    ));
    assert!(matches!(
        parse_check_args(&args(&["-", "-"])),
        Err(ArgError::SecondStdin)
    ));
    match parse_check_args(&args(&["--verbose", "a.ini"])) {
        Err(ArgError::Unknown(flag)) => assert_eq!(flag, "--verbose"),
        other => panic!("{other:?}"),
    }
    match parse_check_args(&args(&["a.ini", "--base-root"])) {
        Err(ArgError::MissingValue(flag)) => assert_eq!(flag, "--base-root"),
        other => panic!("{other:?}"),
    }
    match parse_check_args(&args(&["a.ini", "--fail-on", "note"])) {
        Err(ArgError::BadLevel(level)) => assert_eq!(level, "note"),
        other => panic!("{other:?}"),
    }
}

#[test]
fn records_are_counted_from_one() {
    let text = "Weapon X\n  ClipSize = \u{e9}\nEnd\n";
    let start = text.find('\u{e9}').unwrap() as u32;
    let diagnostic = Diagnostic {
        span: Span::new(start, start + 2),
        severity: Severity::Error,
        code: "bad-number",
        message: "expected an integer, found `\u{e9}`".to_string(),
    };
    assert_eq!(
        write_record("<stdin>", &Rope::from_str(text), &diagnostic),
        "<stdin>:2:14: error[bad-number]: expected an integer, found `\u{e9}`"
    );
}

#[test]
fn summaries_count_each_severity() {
    let severities = vec![Severity::Error, Severity::Hint, Severity::Hint];
    assert_eq!(
        write_summary(&severities),
        "1 error(s), 0 warning(s), 2 hint(s)"
    );
    assert_eq!(severity_text(Severity::Warning), "warning");
}

#[test]
fn stricter_thresholds_fail_sooner() {
    let table = [
        (vec![], [0, 0, 0]),
        (vec![Severity::Hint], [0, 0, 1]),
        (vec![Severity::Warning], [0, 1, 1]),
        (vec![Severity::Hint, Severity::Error], [1, 1, 1]),
    ];
    for (severities, codes) in table {
        let found = [FailOn::Error, FailOn::Warning, FailOn::Hint]
            .map(|fail_on| exit_code(&severities, fail_on));
        assert_eq!(found, codes, "{severities:?}");
    }
}
