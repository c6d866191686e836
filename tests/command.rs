use find_duplicates::command::{parse_command, parse_confirmation};
use find_duplicates::resolver::Command;

#[test]
fn refresh_commands() {
    assert_eq!(parse_command("r"), Some(Command::Refresh));
    assert_eq!(parse_command("R\n"), Some(Command::Refresh));
    assert_eq!(parse_command("  refresh \r\n"), Some(Command::Refresh));
    assert_eq!(parse_command("ReFrEsH"), Some(Command::Refresh));
}

#[test]
fn quit_commands() {
    assert_eq!(parse_command("q\n"), Some(Command::Quit));
    assert_eq!(parse_command("\tQ"), Some(Command::Quit));
    assert_eq!(parse_command("QUIT\n"), Some(Command::Quit));
}

#[test]
fn invalid_input_is_no_command() {
    assert_eq!(parse_command(""), None);
    assert_eq!(parse_command("\n"), None);
    assert_eq!(parse_command("x"), None);
    assert_eq!(parse_command("r q"), None);
    assert_eq!(parse_command("rr"), None);
    assert_eq!(parse_command("refreshing"), None);
    assert_eq!(parse_command("qu"), None);
}

#[test]
fn confirmation_answers() {
    assert_eq!(parse_confirmation("y\n"), Some(true));
    assert_eq!(parse_confirmation(" Y "), Some(true));
    assert_eq!(parse_confirmation("n"), Some(false));
    assert_eq!(parse_confirmation("N\r\n"), Some(false));
    assert_eq!(parse_confirmation("yes"), None);
    assert_eq!(parse_confirmation(""), None);
}
