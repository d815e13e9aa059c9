use gasbot::command::parse_command;
use gasbot::command::Command;

fn parse(s: &str) -> Option<Command> {
    parse_command(&s.as_bytes().to_vec())
}

#[test]
fn checkgas_exact_match() {
    assert_eq!(parse("/checkgas"), Some(Command::CheckGas));
}

#[test]
fn checkgas_is_exact_only() {
    assert_eq!(parse("/checkgas "), None);
    assert_eq!(parse("/checkgas now"), None);
    assert_eq!(parse("/CHECKGAS"), None);
    assert_eq!(parse("checkgas"), None);
}

#[test]
fn setgasalert_valid_integer() {
    assert_eq!(parse("/setgasalert 50"), Some(Command::SetGasAlert(50)));
    assert_eq!(parse("/setgasalert 0"), Some(Command::SetGasAlert(0)));
    assert_eq!(parse("/setgasalert 007"), Some(Command::SetGasAlert(7)));
    assert_eq!(parse("/setgasalert +42"), Some(Command::SetGasAlert(42)));
    assert_eq!(
        parse("/setgasalert 18446744073709551615"),
        Some(Command::SetGasAlert(u64::MAX))
    );
}

#[test]
fn setgasalert_extra_whitespace_and_tokens() {
    assert_eq!(parse("/setgasalert   9"), Some(Command::SetGasAlert(9)));
    assert_eq!(parse("/setgasalert 7 extra"), Some(Command::SetGasAlert(7)));
    assert_eq!(parse("/setgasalert \t 3\n"), Some(Command::SetGasAlert(3)));
}

#[test]
fn setgasalert_missing_argument_ignored() {
    assert_eq!(parse("/setgasalert"), None);
    assert_eq!(parse("/setgasalert "), None);
    assert_eq!(parse("/setgasalert    "), None);
}

#[test]
fn setgasalert_non_numeric_ignored() {
    assert_eq!(parse("/setgasalert abc"), None);
    assert_eq!(parse("/setgasalert 12x"), None);
    assert_eq!(parse("/setgasalert -5"), None);
    assert_eq!(parse("/setgasalert +"), None);
    assert_eq!(parse("/setgasalert ++1"), None);
    assert_eq!(parse("/setgasalert 1.5"), None);
}

#[test]
fn setgasalert_too_large_ignored() {
    assert_eq!(parse("/setgasalert 18446744073709551616"), None);
    assert_eq!(parse("/setgasalert 99999999999999999999999"), None);
}

#[test]
fn other_text_ignored() {
    assert_eq!(parse(""), None);
    assert_eq!(parse("hello"), None);
    assert_eq!(parse("/help"), None);
    assert_eq!(parse("/setgasalertx 5"), None);
    assert_eq!(parse("/setgasalert\t5"), None);
}
