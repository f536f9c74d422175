use agent_sessions::bash::{extract_bash_commands, strip_quoted_strings};

#[test]
fn extracts_chained_commands() {
    assert_eq!(
        extract_bash_commands("git status && cargo test"),
        vec!["git", "cargo"]
    );
}

#[test]
fn ignores_quoted_separators() {
    assert_eq!(
        extract_bash_commands(r#"echo "hello && world" | tee out.log"#),
        vec!["echo", "tee"]
    );
}

#[test]
fn filters_out_cd() {
    assert_eq!(extract_bash_commands("cd /tmp && git status"), vec!["git"]);
}

#[test]
fn blank_command_gives_nothing() {
    assert!(extract_bash_commands("").is_empty());
    assert!(extract_bash_commands(" \t\n ").is_empty());
}

#[test]
fn takes_file_name_of_program_path() {
    assert_eq!(
        extract_bash_commands("/usr/bin/git log; ./scripts/run.sh"),
        vec!["git", "run.sh"]
    );
}

#[test]
fn semicolons_and_pipes_split_segments() {
    assert_eq!(
        extract_bash_commands("ls;  pwd |wc -l"),
        vec!["ls", "pwd", "wc"]
    );
}

#[test]
fn single_ampersand_does_not_split() {
    assert_eq!(extract_bash_commands("sleep 1 & echo hi"), vec!["sleep"]);
}

#[test]
fn empty_segments_are_skipped() {
    assert_eq!(extract_bash_commands(";; git ;"), vec!["git"]);
}

#[test]
fn unterminated_quote_blanks_the_rest() {
    assert_eq!(extract_bash_commands("echo 'a; b | c"), vec!["echo"]);
}

#[test]
fn single_quotes_hide_double_quotes() {
    assert_eq!(
        extract_bash_commands(r#"printf '"' && make"#),
        vec!["printf", "make"]
    );
}

#[test]
fn paths_without_file_name_are_dropped() {
    assert_eq!(
        extract_bash_commands(".. ; / ; ./ ; ../bin/.. ; tool/."),
        vec!["tool"]
    );
}

#[test]
fn non_ascii_text_keeps_positions() {
    assert_eq!(
        extract_bash_commands("echo \"héllo ü\" && grep ü file | sort"),
        vec!["echo", "grep", "sort"]
    );
}

#[test]
fn unicode_whitespace_is_trimmed() {
    assert_eq!(extract_bash_commands("\u{3000}git\u{a0}status"), vec!["git"]);
}

#[test]
fn joining_lines_joins_programs() {
    for (a, b) in [
        ("git status && cargo test", "echo \"x; y\" | tee log"),
        ("cd /tmp", "ls"),
        ("   ", "make"),
        ("echo 'quoted; text'", ""),
    ] {
        let joined = format!("{a}; {b}");
        let mut expected = extract_bash_commands(a);
        expected.extend(extract_bash_commands(b));
        assert_eq!(extract_bash_commands(&joined), expected);
    }
}

#[test]
fn program_names_hold_no_white_space() {
    for name in extract_bash_commands("a\u{a0}b c; d\te") {
        assert!(!name.chars().any(char::is_whitespace));
    }
}

#[test]
fn stripping_blanks_each_quoted_byte() {
    let command = "é \"ü\"";
    let stripped = strip_quoted_strings(command);
    assert_eq!(stripped, format!("é{}", " ".repeat(5)));
    assert_eq!(stripped.len(), command.len());
}

#[test]
fn stripping_keeps_unquoted_bytes() {
    assert_eq!(
        strip_quoted_strings("echo 'a;b' | grep \"x\""),
        "echo       | grep    "
    );
    assert_eq!(strip_quoted_strings("no quotes here"), "no quotes here");
}

#[test]
fn stripping_runs_an_open_quote_to_the_end() {
    assert_eq!(strip_quoted_strings("ls \"a b"), "ls     ");
    assert_eq!(strip_quoted_strings("a'\"'b"), "a   b");
}

#[test]
fn stripping_twice_is_stripping_once() {
    for command in ["é \"ü\"", "echo 'x' \"y", "plain", "'\"'\"'"] {
        let once = strip_quoted_strings(command);
        assert_eq!(strip_quoted_strings(&once), once);
    }
}
