//! Reaching the server.

use jmapsyncd::config::TokenSource;
use jmapsyncd::jmap::{
    apply_using_restriction, endpoint_url, extract_host, resolve_token, token_from_command,
    token_from_file, Capability, CommandOutput, TokenError, TokenStep,
};

fn inline(token: &str) -> TokenSource {
    TokenSource::Inline { jmap_token: token.to_string() }
}

fn ready(step: TokenStep) -> String {
    match step {
        TokenStep::Ready(t) => t,
        other => panic!("unexpected {other:?}"),
    }
}

fn output(success: bool, stdout: &str, stderr: &str) -> CommandOutput {
    CommandOutput {
        success,
        status: if success { "exit status: 0" } else { "exit status: 1" }.to_string(),
        stdout: Ok(stdout.to_string()),
        stderr: stderr.to_string(),
    }
}

#[test]
fn inline_returns_verbatim() {
    assert_eq!(ready(resolve_token(&inline("abc123"))), "abc123");
}

#[test]
fn inline_preserves_internal_whitespace() {
    assert_eq!(ready(resolve_token(&inline("a b\tc"))), "a b\tc");
}

#[test]
fn file_reads_and_trims_trailing_newline() {
    let source = TokenSource::File { jmap_token_file: "/run/token".to_string() };
    match resolve_token(&source) {
        TokenStep::ReadFile(p) => {
            assert_eq!(token_from_file(&p, Ok("file-token\n".to_string())).unwrap(), "file-token");
        }
        other => panic!("unexpected {other:?}"),
    }
}

#[test]
fn file_trims_crlf() {
    assert_eq!(
        token_from_file("token", Ok("windows-token\r\n".to_string())).unwrap(),
        "windows-token"
    );
    assert_eq!(token_from_file("token", Ok(" a b \n\r\r\n".to_string())).unwrap(), " a b ");
}

#[test]
fn file_missing_errors() {
    let err = token_from_file("/nonexistent/token", Err("No such file".to_string())).unwrap_err();
    assert!(err.message().contains("reading token file"));
    assert_eq!(err.message(), "reading token file /nonexistent/token: No such file");
}

#[test]
fn cmd_stdout_trimmed() {
    let source = TokenSource::Cmd { jmap_token_cmd: "printf 'cmd-token\\n'".to_string() };
    match resolve_token(&source) {
        TokenStep::RunCommand(c) => {
            assert_eq!(token_from_command(&c, Ok(output(true, "cmd-token\n", ""))).unwrap(), "cmd-token");
        }
        other => panic!("unexpected {other:?}"),
    }
}

#[test]
fn cmd_nonzero_exit_errors() {
    let err = token_from_command("false", Ok(output(false, "", ""))).unwrap_err();
    assert!(err.message().contains("jmap_token_cmd exited"));
    assert_eq!(err.message(), "jmap_token_cmd exited with status exit status: 1: ");
}

#[test]
fn cmd_stderr_included_in_error() {
    let err = token_from_command("x", Ok(output(false, "", " boom\n"))).unwrap_err();
    assert!(err.message().contains("boom"));
    assert!(err.message().ends_with(": boom"));
}

#[test]
fn cmd_that_cannot_be_used_errors() {
    let err = token_from_command("x y", Err("no shell".to_string())).unwrap_err();
    assert_eq!(err.message(), "spawning jmap_token_cmd: x y: no shell");
    let mut odd = output(true, "", "");
    odd.stdout = Err("invalid utf-8".to_string());
    let err = token_from_command("x", Ok(odd)).unwrap_err();
    assert!(matches!(err, TokenError::NotText { .. }));
    assert_eq!(err.message(), "jmap_token_cmd stdout was not UTF-8: invalid utf-8");
}

#[test]
fn extract_host_strips_scheme_port_and_path() {
    assert_eq!(extract_host("api.fastmail.com").unwrap(), "api.fastmail.com");
    assert_eq!(extract_host("https://api.fastmail.com").unwrap(), "api.fastmail.com");
    assert_eq!(
        extract_host("https://api.fastmail.com/jmap/session").unwrap(),
        "api.fastmail.com"
    );
    assert_eq!(extract_host("http://127.0.0.1:8080/path").unwrap(), "127.0.0.1");
}

#[test]
fn extract_host_empty_errors() {
    assert!(extract_host("").is_err());
    assert!(extract_host("https://").is_err());
    assert_eq!(extract_host("https://:1").unwrap_err(), "could not extract host from \"https://:1\"");
}

#[test]
fn endpoint_gets_a_scheme() {
    assert_eq!(endpoint_url("api.fastmail.com"), "https://api.fastmail.com");
    assert_eq!(endpoint_url("http://127.0.0.1:1"), "http://127.0.0.1:1");
    assert_eq!(endpoint_url("https://x"), "https://x");
    assert_eq!(endpoint_url("httpx"), "https://httpx");
}

#[test]
fn restrict_using_installs_core_mail_submission() {
    let mut using = vec![
        Capability::Core,
        Capability::Mail,
        Capability::Submission,
        Capability::VacationResponse,
        Capability::Contacts,
        Capability::Calendars,
        Capability::WebSocket,
        Capability::Sieve,
        Capability::Blob,
        Capability::Quota,
        Capability::Principals,
    ];
    apply_using_restriction(&mut using);
    assert_eq!(
        using,
        vec![Capability::Core, Capability::Mail, Capability::Submission],
        "must expose exactly Core+Mail+Submission and nothing else"
    );
}

#[test]
fn restrict_using_drops_websocket_and_sieve() {
    let mut using = vec![Capability::WebSocket, Capability::Sieve];
    apply_using_restriction(&mut using);
    assert!(!using.contains(&Capability::WebSocket));
    assert!(!using.contains(&Capability::Sieve));
}

#[test]
fn restrict_using_is_idempotent() {
    let mut using = vec![Capability::Core, Capability::Mail, Capability::Submission];
    apply_using_restriction(&mut using);
    assert_eq!(using, vec![Capability::Core, Capability::Mail, Capability::Submission]);
}

#[test]
fn restrict_using_from_empty_still_installs_capabilities() {
    let mut using = vec![];
    apply_using_restriction(&mut using);
    assert_eq!(using, vec![Capability::Core, Capability::Mail, Capability::Submission]);
}
