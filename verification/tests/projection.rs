use agent_sessions::projection::{count_lines, tool_input_from_shape, ParsedToolInput, ToolInputShape};

fn s(text: &str) -> Option<String> {
    Some(text.to_string())
}

#[test]
fn counts_lines_like_str_lines() {
    assert_eq!(count_lines(""), 0);
    assert_eq!(count_lines("a"), 1);
    assert_eq!(count_lines("a\n"), 1);
    assert_eq!(count_lines("a\nb"), 2);
    assert_eq!(count_lines("a\n\nb\n"), 3);
    assert_eq!(count_lines("\n"), 1);
    assert_eq!(count_lines("a\r\nb\r\n"), 2);
    for text in ["x", "x\ny", "x\r\n\ny", "\n\n"] {
        assert_eq!(count_lines(text), text.lines().count() as u64);
    }
}

#[test]
fn final_line_feed_adds_no_line() {
    assert_eq!(count_lines("one\ntwo"), count_lines("one\ntwo\n"));
}

#[test]
fn no_input_says_nothing() {
    assert_eq!(tool_input_from_shape("Edit", None), ParsedToolInput::default());
}

#[test]
fn edit_counts_new_and_old_lines() {
    let shape = ToolInputShape {
        file_path: s("/a.rs"),
        path: s("/ignored"),
        old_string: s("a\nb"),
        new_string: s("a\nb\nc\n"),
        ..ToolInputShape::default()
    };
    let parsed = tool_input_from_shape("MultiEdit", Some(shape));
    assert_eq!(parsed.file_path.as_deref(), Some("/a.rs"));
    assert_eq!(parsed.command, None);
    assert_eq!((parsed.lines_added, parsed.lines_removed), (3, 2));
}

#[test]
fn write_counts_content_lines() {
    let shape = ToolInputShape {
        path: s("notes.md"),
        content: s("x\ny"),
        old_string: s("ignored"),
        ..ToolInputShape::default()
    };
    let parsed = tool_input_from_shape("WRITE_FILE", Some(shape));
    assert_eq!(parsed.file_path.as_deref(), Some("notes.md"));
    assert_eq!((parsed.lines_added, parsed.lines_removed), (2, 0));
}

#[test]
fn other_tools_count_no_lines() {
    let shape = ToolInputShape {
        cmd: s("ls -la"),
        content: s("x\ny"),
        ..ToolInputShape::default()
    };
    let parsed = tool_input_from_shape("Bash", Some(shape));
    assert_eq!(parsed.command.as_deref(), Some("ls -la"));
    assert_eq!((parsed.lines_added, parsed.lines_removed), (0, 0));
}

#[test]
fn command_wins_over_cmd() {
    let shape = ToolInputShape {
        command: s("git status"),
        cmd: s("ls"),
        ..ToolInputShape::default()
    };
    let parsed = tool_input_from_shape("shell", Some(shape));
    assert_eq!(parsed.command.as_deref(), Some("git status"));
}

#[test]
fn edit_without_texts_counts_zero() {
    let parsed = tool_input_from_shape("str_replace_edit", Some(ToolInputShape::default()));
    assert_eq!((parsed.lines_added, parsed.lines_removed), (0, 0));
}

#[test]
fn edit_takes_precedence_over_write() {
    let shape = ToolInputShape {
        new_string: s("a"),
        content: s("a\nb\nc"),
        ..ToolInputShape::default()
    };
    let parsed = tool_input_from_shape("write_and_edit", Some(shape));
    assert_eq!((parsed.lines_added, parsed.lines_removed), (1, 0));
}
