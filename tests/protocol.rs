use smallchat::protocol::{chat_line, default_nick, parse_command, trim_range, Command};
use smallchat::{interrupted, would_block};
use std::io::{Error, ErrorKind};

fn parse(s: &str) -> Command {
    parse_command(s.as_bytes())
}

#[test]
fn parses_rename() {
    match parse("/nick alice\n") {
        Command::Rename(n) => assert_eq!(n, b"alice".to_vec()),
        _ => panic!("expected a rename"),
    }
    match parse("/nick   two words  \r\n") {
        Command::Rename(n) => assert_eq!(n, b"two words".to_vec()),
        _ => panic!("expected a rename"),
    }
}

#[test]
fn parses_ignored_commands() {
    assert!(matches!(parse("/nick  \n"), Command::Ignored));
    assert!(matches!(parse("/nick\n"), Command::Ignored));
    assert!(matches!(parse("/quit now\n"), Command::Ignored));
    assert!(matches!(parse("/\n"), Command::Ignored));
}

#[test]
fn parses_chat() {
    match parse("hello\n") {
        Command::Chat(t) => assert_eq!(t, b"hello".to_vec()),
        _ => panic!("expected chat"),
    }
    match parse("a\r\n") {
        Command::Chat(t) => assert_eq!(t, b"a".to_vec()),
        _ => panic!("expected chat"),
    }
    match parse("\n") {
        Command::Chat(t) => assert!(t.is_empty()),
        _ => panic!("expected chat"),
    }
    match parse("no newline") {
        Command::Chat(t) => assert_eq!(t, b"no newline".to_vec()),
        _ => panic!("expected chat"),
    }
}

#[test]
fn formats_lines_and_nicks() {
    assert_eq!(chat_line(b"bob", b"hi"), b"bob> hi\n".to_vec());
    assert_eq!(default_nick(0), b"user:0".to_vec());
    assert_eq!(default_nick(42), b"user:42".to_vec());
    assert_eq!(default_nick(1000), b"user:1000".to_vec());
}

#[test]
fn trims_ascii_whitespace() {
    assert_eq!(trim_range(b" \t x y \r\n", 0, 9), b"x y".to_vec());
    assert_eq!(trim_range(b"   ", 0, 3), Vec::<u8>::new());
    assert_eq!(trim_range(b"abc", 1, 2), b"b".to_vec());
}

#[test]
fn classifies_io_errors() {
    let wb = Error::from(ErrorKind::WouldBlock);
    let intr = Error::new(ErrorKind::Interrupted, "signal");
    let other = Error::from(ErrorKind::ConnectionReset);
    assert!(would_block(&wb));
    assert!(!would_block(&intr));
    assert!(interrupted(&intr));
    assert!(!interrupted(&wb));
    assert!(!would_block(&other));
    assert!(!interrupted(&other));
}
