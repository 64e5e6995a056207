use mime_assoc::exec_cmd::build_file_command;
use mime_assoc::exec_cmd::parse_exec;
use mime_assoc::exec_cmd::remove_field_codes;

#[test]
fn test_remove_field_codes() {
    assert_eq!(remove_field_codes("firefox %u"), "firefox ");
    assert_eq!(remove_field_codes("gedit %F"), "gedit ");
    assert_eq!(remove_field_codes("app --flag %f --other"), "app --flag  --other");
    assert_eq!(remove_field_codes("echo %%"), "echo %");
    assert_eq!(remove_field_codes("no codes here"), "no codes here");
}

#[test]
fn test_parse_exec_with_quotes() {
    let parsed = parse_exec(r#""/usr/bin/my app" --flag "value with spaces""#).unwrap();
    assert_eq!(parsed.program, "/usr/bin/my app");
    assert_eq!(parsed.args, vec!["--flag", "value with spaces"]);
}

#[test]
fn test_parse_exec_simple() {
    let parsed = parse_exec("firefox --new-window").unwrap();
    assert_eq!(parsed.program, "firefox");
    assert_eq!(parsed.args, vec!["--new-window"]);
}

#[test]
fn parse_exec_strips_field_codes_before_splitting() {
    let parsed = parse_exec("browser %U --new-tab").unwrap();
    assert_eq!(parsed.program, "browser");
    assert_eq!(parsed.args, vec!["--new-tab"]);
}

#[test]
fn parse_exec_reports_bad_quoting_and_empty_commands() {
    assert!(parse_exec("broken \"quote").is_err());
    assert!(parse_exec("").is_err());
    assert!(parse_exec("%f").is_err());
}

#[test]
fn build_file_command_substitutes_placeholders() {
    let parsed = build_file_command("viewer --file %f", "/tmp/pic.png").unwrap();
    assert_eq!(parsed.program, "viewer");
    assert_eq!(parsed.args, vec!["--file", "/tmp/pic.png"]);

    let parsed = build_file_command("browser %U --new-tab", "https://example.test").unwrap();
    assert_eq!(parsed.program, "browser");
    assert_eq!(parsed.args, vec!["https://example.test", "--new-tab"]);
}

#[test]
fn build_file_command_appends_the_file_when_never_mentioned() {
    let parsed = build_file_command("editor --verbose", "/tmp/notes.txt").unwrap();
    assert_eq!(parsed.program, "editor");
    assert_eq!(parsed.args, vec!["--verbose", "/tmp/notes.txt"]);
}
