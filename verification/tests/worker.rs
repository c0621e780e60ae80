use llama_bot::worker::text::{is_white_space_char, lines, trim_text};
use llama_bot::worker::{
    is_purge_end, launch_command, purge_marker, question_line, PurgeError, ReplyScanner,
};

fn strings(v: &[&str]) -> Vec<String> {
    v.iter().map(|s| s.to_string()).collect()
}

#[test]
fn launch_command_splits_program_and_adds_worker_flags() {
    let cmd = launch_command(&strings(&["./main", "--model", "m.bin"]));
    assert_eq!(cmd.program, "./main");
    assert_eq!(cmd.args, strings(&["--model", "m.bin", "--simple-io", "--threads", "4"]));
}

#[test]
fn launch_command_with_program_only() {
    let cmd = launch_command(&strings(&["llama"]));
    assert_eq!(cmd.program, "llama");
    assert_eq!(cmd.args, strings(&["--simple-io", "--threads", "4"]));
}

#[test]
fn question_line_adds_a_newline() {
    assert_eq!(question_line("hello"), "hello\n");
    assert_eq!(question_line(""), "\n");
}

#[test]
fn lines_behave_like_str_lines() {
    for s in ["", "\n", "a", "a\n", "a\r\nb", "a\r", "a\n\r", "a\n\nb\n", "x\r\r\ny", "é\nü\r\n"] {
        let expected: Vec<String> = s.lines().map(|l| l.to_string()).collect();
        assert_eq!(lines(s), expected, "input {:?}", s);
    }
}

#[test]
fn trim_behaves_like_str_trim() {
    for s in ["", "   ", " a ", "\t\nUser:\r\n", "\u{3000}x\u{a0}", "\u{85}y z\u{2029}", "no"] {
        assert_eq!(trim_text(s), s.trim(), "input {:?}", s);
    }
}

#[test]
fn purge_marker_is_the_line_before_the_last_prompt_line() {
    let argv = strings(&["./main", "--prompt", "Transcript\nUser: Hello\nBot:"]);
    assert_eq!(purge_marker(&argv), Ok("User: Hello".to_string()));
}

#[test]
fn purge_marker_errors() {
    assert_eq!(purge_marker(&Vec::new()), Err(PurgeError::NoPrompt));
    assert_eq!(purge_marker(&strings(&["./main", "one line"])), Err(PurgeError::PromptTooShort));
    assert_eq!(purge_marker(&strings(&["./main", "one line\n"])), Err(PurgeError::PromptTooShort));
}

#[test]
fn purge_end_compares_trimmed_lines() {
    let marker = "User: Hello".to_string();
    assert!(is_purge_end("  User: Hello \r", &marker));
    assert!(!is_purge_end("User: Hello!", &marker));
}

fn feed_all(scanner: &mut ReplyScanner, bytes: &[u8]) -> Option<usize> {
    for (i, b) in bytes.iter().enumerate() {
        if scanner.feed(*b) {
            return Some(i + 1);
        }
    }
    None
}

#[test]
fn reply_scanner_stops_after_user_marker() {
    let mut s = ReplyScanner::new();
    let input = b"Bot: Hello there.\nUser: ignored";
    let used = feed_all(&mut s, input);
    assert_eq!(used, Some(23));
    assert!(s.is_finished());
    assert_eq!(s.answer(), "Hello there.\nUser:");
}

#[test]
fn reply_scanner_keeps_partial_answer() {
    let mut s = ReplyScanner::new();
    assert!(!s.in_answer());
    assert_eq!(feed_all(&mut s, b"Bot: Hi"), None);
    assert!(s.in_answer());
    assert!(!s.is_finished());
    assert_eq!(s.answer(), "Hi");
}

#[test]
fn reply_scanner_ignores_marker_in_the_skipped_name() {
    let mut s = ReplyScanner::new();
    assert_eq!(feed_all(&mut s, b"User:"), None);
    assert_eq!(s.answer(), "");
    assert_eq!(feed_all(&mut s, b"xUser:"), Some(6));
    assert_eq!(s.answer(), "xUser:");
}

#[test]
fn reply_scanner_maps_bytes_to_latin1() {
    let mut s = ReplyScanner::new();
    feed_all(&mut s, &[b'B', b'o', b't', b':', b' ', 0xe9, 0x41]);
    assert_eq!(s.answer(), "\u{e9}A");
}

#[test]
fn white_space_matches_char_is_whitespace() {
    for n in 0u32..0x3100 {
        if let Some(c) = char::from_u32(n) {
            assert_eq!(is_white_space_char(c), c.is_whitespace(), "char {:#x}", n);
        }
    }
    assert!(!is_white_space_char('\u{feff}'));
}
