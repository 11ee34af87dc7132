use worktree_registry::shell_env::parse_login_shell_path_output;

#[test]
fn test_parse_login_shell_path_output_extracts_path() {
    let output = "noise\n__ZED_SWARM_PATH__/opt/homebrew/bin:/usr/bin\n";
    let parsed = parse_login_shell_path_output(output);
    assert_eq!(parsed, Some("/opt/homebrew/bin:/usr/bin".to_string()));
}

#[test]
fn test_parse_login_shell_path_output_ignores_empty() {
    let output = "__ZED_SWARM_PATH__\n";
    let parsed = parse_login_shell_path_output(output);
    assert_eq!(parsed, None);
}

#[test]
fn parse_trims_around_marker_and_value() {
    let output = "  __ZED_SWARM_PATH__   /usr/bin:/bin  \n";
    let parsed = parse_login_shell_path_output(output);
    assert_eq!(parsed, Some("/usr/bin:/bin".to_string()));
}

#[test]
fn parse_skips_lines_without_the_marker_at_the_start() {
    let output = "x__ZED_SWARM_PATH__/usr/bin\n__ZED_SWARM_PATH__/bin\n";
    let parsed = parse_login_shell_path_output(output);
    assert_eq!(parsed, Some("/bin".to_string()));
}

#[test]
fn parse_takes_the_first_marked_line() {
    let output = "__ZED_SWARM_PATH__/first\n__ZED_SWARM_PATH__/second\n";
    let parsed = parse_login_shell_path_output(output);
    assert_eq!(parsed, Some("/first".to_string()));
}

#[test]
fn parse_of_empty_output_is_none() {
    assert_eq!(parse_login_shell_path_output(""), None);
    assert_eq!(parse_login_shell_path_output("\n\n"), None);
    assert_eq!(parse_login_shell_path_output("no marker here"), None);
}

#[test]
fn parse_without_trailing_newline() {
    let output = "__ZED_SWARM_PATH__/opt/bin";
    let parsed = parse_login_shell_path_output(output);
    assert_eq!(parsed, Some("/opt/bin".to_string()));
}

#[test]
fn parse_marker_with_only_whitespace_after_is_none() {
    let output = "__ZED_SWARM_PATH__   \t  \n";
    assert_eq!(parse_login_shell_path_output(output), None);
}

#[test]
fn parse_handles_carriage_returns_like_the_shell_emits() {
    let output = "noise\r\n__ZED_SWARM_PATH__/usr/local/bin\r\n";
    let parsed = parse_login_shell_path_output(output);
    assert_eq!(parsed, Some("/usr/local/bin".to_string()));
}
