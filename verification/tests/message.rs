//! Diagnostic fields: putting them on and taking them off.

use jmapsyncd::message::{
    bytes_to_send, inject_family2_headers, inject_family2_headers_at, split_header_body,
    strip_family2_headers, tmp_neighbour,
};

fn body_bytes() -> &'static [u8] {
    b"To: dest@example\r\nFrom: me@example\r\nSubject: hi\r\n\r\nbody line\r\n"
}

#[test]
fn inject_family2_prepends_three_headers() {
    let out = inject_family2_headers(body_bytes(), "notFound", "01H123");
    let s = std::str::from_utf8(&out).unwrap();
    assert!(s.starts_with("X-JMAP-Failure: notFound\r\n"));
    assert!(s.contains("X-JMAP-Failed-At: "));
    assert!(s.contains("X-JMAP-Ulid: 01H123\r\n"));
    assert!(s.ends_with("body line\r\n"));
}

#[test]
fn strip_family2_removes_all_three() {
    let annotated = inject_family2_headers(body_bytes(), "identityId notFound", "01HULID");
    let stripped = strip_family2_headers(&annotated);
    // Round-trip: what is taken off is what was put on
    assert_eq!(stripped, body_bytes().to_vec());
}

#[test]
fn strip_family2_preserves_case_variants() {
    let msg = b"x-jmap-failure: broke\r\nX-JMAP-Failed-At: today\r\nX-JMAP-ULID: xxx\r\nSubject: hi\r\n\r\nbody";
    let stripped = strip_family2_headers(msg);
    let s = std::str::from_utf8(&stripped).unwrap();
    assert!(!s.contains("X-JMAP-Failure"));
    assert!(!s.contains("x-jmap-failure"));
    assert!(!s.contains("X-JMAP-Failed-At"));
    assert!(!s.contains("X-JMAP-ULID"));
    assert!(s.starts_with("Subject: hi\r\n"));
}

#[test]
fn strip_family2_leaves_body_alone() {
    let msg = b"Subject: hi\r\n\r\nX-JMAP-Failure: this-is-in-the-body\r\n";
    let stripped = strip_family2_headers(msg);
    assert_eq!(stripped, msg.to_vec());
}

#[test]
fn strip_family2_handles_folded_continuation() {
    let msg = b"X-JMAP-Failure: reason\r\n continued-fold\r\nSubject: hi\r\n\r\nbody";
    let stripped = strip_family2_headers(msg);
    let s = std::str::from_utf8(&stripped).unwrap();
    assert!(!s.contains("X-JMAP-Failure"));
    assert!(!s.contains("continued-fold"));
    assert!(s.starts_with("Subject: hi\r\n"));
}

#[test]
fn inject_family2_sanitizes_multiline_reason() {
    // A reason with embedded newlines must not break the header block.
    let out = inject_family2_headers(body_bytes(), "line1\r\nline2\tblah", "01H");
    let s = std::str::from_utf8(&out).unwrap();
    let header_line = s.lines().next().unwrap();
    assert!(header_line.starts_with("X-JMAP-Failure: line1 line2 blah"));
}

#[test]
fn inject_is_exact() {
    let out = inject_family2_headers_at(b"Subject: x\n\nb", "  no\u{7} way  ", "NOW", "U");
    assert_eq!(
        out,
        b"X-JMAP-Failure: no way\r\nX-JMAP-Failed-At: NOW\r\nX-JMAP-Ulid: U\r\nSubject: x\n\nb"
    );
}

#[test]
fn strip_undoes_inject_on_odd_messages() {
    for msg in [
        &b""[..],
        &b"\n"[..],
        &b"\r\nbody without a header"[..],
        &b"no blank line at all"[..],
        &b"A: 1\n\nX-JMAP-Ulid: in the body\r\n\r\nmore"[..],
    ] {
        let there = inject_family2_headers(msg, "why\u{e9}", "01H");
        assert_ne!(there, msg);
        assert_eq!(strip_family2_headers(&there), msg, "{msg:?}");
    }
}

#[test]
fn header_ends_with_the_first_blank_line() {
    assert_eq!(split_header_body(b"A: 1\r\n\r\nb"), (&b"A: 1\r\n\r\n"[..], &b"b"[..]));
    assert_eq!(split_header_body(b"A: 1\n\nb\r\n\r\nc"), (&b"A: 1\n\n"[..], &b"b\r\n\r\nc"[..]));
    assert_eq!(split_header_body(b"A: 1\r\n\r\nb\n\nc"), (&b"A: 1\r\n\r\n"[..], &b"b\n\nc"[..]));
    assert_eq!(split_header_body(b"A: 1"), (&b"A: 1"[..], &b""[..]));
}

#[test]
fn tmp_neighbour_stands_beside_the_file() {
    assert_eq!(tmp_neighbour(Some("m1")), "m1.tmp");
    assert_eq!(tmp_neighbour(None), "message.tmp");
}

#[test]
fn diagnostic_fields_do_not_go_out() {
    let queued = b"From: a@b\r\nSubject: hi\r\n\r\nX-JMAP-Ulid: in the body\r\n";
    let failed = inject_family2_headers(queued, "no such user", "01HULID");
    assert_ne!(failed, queued.to_vec());
    assert_eq!(bytes_to_send(&failed), queued.to_vec());
    assert_eq!(bytes_to_send(queued), queued.to_vec());
}
