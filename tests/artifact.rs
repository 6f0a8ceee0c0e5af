use nis::reconcile::{AppliedState, ServiceGroup};
use nis::service::ServiceConfiguration;
use nis::state_store::{append_state, frame, previous_state, read_artifact, read_state, unframe, ReadError, PREAMBLE};

fn sample() -> AppliedState {
    AppliedState {
        groups: vec![
            ServiceGroup {
                name: "svcA".to_string(),
                services: vec![
                    ServiceConfiguration {
                        id: "a1".to_string(),
                        state: "running".to_string(),
                        name: "svcA".to_string(),
                        port: Some(8000),
                        path: Some("8000".to_string()),
                        host: "10.0.0.1".to_string(),
                    },
                    ServiceConfiguration {
                        id: "a2".to_string(),
                        state: "exited".to_string(),
                        name: "svcA".to_string(),
                        port: None,
                        path: None,
                        host: "h\"\u{e9}\n".to_string(),
                    },
                ],
            },
            ServiceGroup {
                name: "svcB".to_string(),
                services: vec![ServiceConfiguration {
                    id: "b1".to_string(),
                    state: "running".to_string(),
                    name: "svcB".to_string(),
                    port: Some(-1),
                    path: Some("-1".to_string()),
                    host: "10.0.0.2".to_string(),
                }],
            },
        ],
    }
}

#[test]
fn state_round_trips_through_the_file() {
    let s = sample();
    let text = append_state("server { listen 80; }\n", &s).unwrap();
    assert_eq!(read_state(&text), Ok(s));
}

#[test]
fn empty_state_round_trips_through_the_file() {
    let text = append_state("", &AppliedState::empty()).unwrap();
    assert_eq!(read_state(&text), Ok(AppliedState::empty()));
}

#[test]
fn empty_state_file_is_exact() {
    let text = append_state("body", &AppliedState::empty()).unwrap();
    assert_eq!(text, "# Managed by nis\n#W10=\n# Managed by nis\n\nbody");
    assert_eq!(PREAMBLE, "# Managed by nis");
}

#[test]
fn framing_reads_back_its_payload() {
    let text = frame("abc", "x\ny");
    assert_eq!(text, "# Managed by nis\n#abc\n# Managed by nis\n\nx\ny");
    assert_eq!(unframe(&text), Some("abc"));
    assert_eq!(unframe("# Managed by nis\r\n#abc\r\n# Managed by nis"), Some("abc"));
    assert_eq!(unframe("# Managed by nis\n#\n# Managed by nis\n"), Some(""));
}

#[test]
fn malformed_preamble_is_reported() {
    assert_eq!(read_state(""), Err(ReadError::MalformedPreamble));
    assert_eq!(read_state("server {}\n"), Err(ReadError::MalformedPreamble));
    assert_eq!(read_state("# Managed by nis\n#W10=\n"), Err(ReadError::MalformedPreamble));
    assert_eq!(read_state("# Managed by nis\nW10=\n# Managed by nis\n"), Err(ReadError::MalformedPreamble));
    assert_eq!(read_state("# Managed by nis\n\n# Managed by nis\n"), Err(ReadError::MalformedPreamble));
    assert_eq!(read_state("# Managed by nis \n#W10=\n# Managed by nis\n"), Err(ReadError::MalformedPreamble));
}

#[test]
fn corrupt_payload_is_reported() {
    // not base64
    assert_eq!(read_state("# Managed by nis\n#W10\n# Managed by nis\n"), Err(ReadError::CorruptPayload));
    // base64 of `{}`: JSON, but not a list of groups
    assert_eq!(read_state("# Managed by nis\n#e30=\n# Managed by nis\n"), Err(ReadError::CorruptPayload));
    // base64 of `[["a",[]]]`: a group without replicas
    assert_eq!(read_state("# Managed by nis\n#W1siYSIsW11dXQ==\n# Managed by nis\n"), Err(ReadError::CorruptPayload));
}

#[test]
fn duplicated_group_names_are_corrupt() {
    let mut s = sample();
    s.groups[1].name = "svcA".to_string();
    for svc in s.groups[1].services.iter_mut() {
        svc.name = "svcA".to_string();
    }
    let text = append_state("", &s).unwrap();
    assert_eq!(read_state(&text), Err(ReadError::CorruptPayload));
}

#[test]
fn absent_file_means_no_prior_state() {
    assert_eq!(read_artifact(None), Err(ReadError::NoPriorState));
    assert_eq!(previous_state(None), Ok(AppliedState::empty()));
    assert_eq!(previous_state(Some("junk")), Err(ReadError::MalformedPreamble));
}

#[test]
fn state_line_is_base64_text() {
    let text = append_state("b", &sample()).unwrap();
    let lines: Vec<&str> = text.lines().collect();
    assert_eq!(lines[0], PREAMBLE);
    assert_eq!(lines[2], PREAMBLE);
    assert!(lines[1].starts_with('#'));
    assert!(lines[1][1..].chars().all(|c| c.is_ascii_alphanumeric() || c == '+' || c == '/' || c == '='));
    assert!(text.ends_with("\n\nb"));
}
