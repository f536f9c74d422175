use agent_sessions::error::SessionError;

#[test]
fn messages_name_the_failure() {
    assert_eq!(SessionError::EmptyInput.message(), "input bundle is empty");
    assert_eq!(
        SessionError::Detection { agent: "codex".to_string() }.message(),
        "agent `codex` could not detect a supported session schema"
    );
    assert_eq!(
        SessionError::UnsupportedInput { agent: "pi".to_string(), details: "binary".to_string() }
            .message(),
        "agent `pi` does not support this input: binary"
    );
    assert_eq!(
        SessionError::InvalidStructure { agent: "cursor".to_string(), details: "no events".to_string() }
            .message(),
        "invalid session structure for `cursor`: no events"
    );
    assert_eq!(SessionError::Message("custom".to_string()).message(), "custom");
}

#[test]
fn outside_errors_are_prefixed() {
    let json = serde_json::from_str::<serde_json::Value>("{").unwrap_err();
    let text = json.to_string();
    let message = SessionError::from(json).message();
    assert_eq!(message, format!("json parse failed: {}", text));

    let bytes = vec![0xffu8];
    let utf8 = std::str::from_utf8(&bytes).unwrap_err();
    let message = SessionError::from(utf8).message();
    assert!(message.starts_with("utf-8 decode failed: "));

    let io = std::io::Error::new(std::io::ErrorKind::Other, "disk");
    assert_eq!(SessionError::from(io).message(), "i/o failed: disk");

    let yaml = serde_yaml::from_str::<serde_yaml::Value>("a: [").unwrap_err();
    assert!(SessionError::from(yaml).message().starts_with("yaml parse failed: "));
}
