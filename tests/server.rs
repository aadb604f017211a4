use mio::Token;
use smallchat::model::{AdmitError, Drain};
use smallchat::protocol::WELCOME_TEXT;
use smallchat::registry::{next, ChatServer, ReadOutcome, WriteOutcome, MAX_CLIENTS};

fn data(s: &str) -> ReadOutcome {
    ReadOutcome::Data(s.as_bytes().to_vec())
}

fn queued(server: &ChatServer, id: Token) -> Vec<u8> {
    server.pending(id).expect("connection is held").to_vec()
}

fn with_welcome(rest: &str) -> Vec<u8> {
    let mut v = WELCOME_TEXT.as_bytes().to_vec();
    v.extend_from_slice(rest.as_bytes());
    v
}

#[test]
fn admit_assigns_increasing_ids_and_defaults() {
    let mut server = ChatServer::with_defaults();
    assert_eq!(server.capacity(), MAX_CLIENTS);
    let a = server.admit_client().unwrap();
    let b = server.admit_client().unwrap();
    assert_eq!(a, Token(1));
    assert_eq!(b, Token(2));
    assert_eq!(server.len(), 2);
    assert_eq!(server.nick(a).unwrap(), b"user:1");
    assert_eq!(server.nick(b).unwrap(), b"user:2");
    assert_eq!(queued(&server, a), WELCOME_TEXT.as_bytes().to_vec());
}

#[test]
fn capacity_refuses_the_next_accept() {
    let mut server = ChatServer::new(3, 1024);
    for n in 1..=3 {
        assert!(server.admit_client().is_ok());
        assert_eq!(server.len(), n);
    }
    assert_eq!(server.admit_client(), Err(AdmitError::CapacityExceeded));
    assert_eq!(server.len(), 3);
    assert!(!server.contains(Token(4)));
    // After one leaves, a new one is admitted under a fresh identifier.
    assert!(server.remove(Token(2)));
    assert_eq!(server.len(), 2);
    assert_eq!(server.admit_client(), Ok(Token(4)));
    assert_eq!(server.len(), 3);
}

#[test]
fn zero_capacity_admits_nothing() {
    let mut server = ChatServer::new(0, 1024);
    assert_eq!(server.admit_client(), Err(AdmitError::CapacityExceeded));
    assert_eq!(server.len(), 0);
}

#[test]
fn remove_is_idempotent() {
    let mut server = ChatServer::with_defaults();
    let a = server.admit_client().unwrap();
    assert!(server.remove(a));
    assert!(!server.remove(a));
    assert_eq!(server.len(), 0);
}

#[test]
fn rename_then_chat_reaches_only_the_others() {
    let mut server = ChatServer::with_defaults();
    let a = server.admit_client().unwrap();
    let b = server.admit_client().unwrap();
    let c = server.admit_client().unwrap();
    let fx = server.on_read(a, data("/nick alice\n"));
    assert!(fx.removed.is_empty() && fx.woken.is_empty());
    assert_eq!(server.nick(a).unwrap(), b"alice");
    server.on_read(a, data("hello\n"));
    assert_eq!(queued(&server, b), with_welcome("alice> hello\n"));
    assert_eq!(queued(&server, c), with_welcome("alice> hello\n"));
    assert_eq!(queued(&server, a), with_welcome(""));
}

#[test]
fn repeated_rename_touches_nothing_else() {
    let mut server = ChatServer::with_defaults();
    let a = server.admit_client().unwrap();
    let b = server.admit_client().unwrap();
    server.on_read(b, data("pending\n"));
    let before_a = queued(&server, a);
    let before_b = queued(&server, b);
    server.on_read(b, data("/nick bob\n"));
    server.on_read(b, data("/nick bob\n"));
    assert_eq!(server.nick(b).unwrap(), b"bob");
    assert_eq!(server.nick(a).unwrap(), b"user:1");
    assert_eq!(queued(&server, a), before_a);
    assert_eq!(queued(&server, b), before_b);
}

#[test]
fn zero_byte_read_removes_once() {
    let mut server = ChatServer::with_defaults();
    let a = server.admit_client().unwrap();
    let b = server.admit_client().unwrap();
    let fx = server.on_read(a, ReadOutcome::Data(Vec::new()));
    assert_eq!(fx.removed, vec![a]);
    assert_eq!(server.len(), 1);
    let again = server.on_read(a, ReadOutcome::Data(Vec::new()));
    assert!(again.removed.is_empty());
    let stale = server.on_read(a, data("hi\n"));
    assert!(stale.removed.is_empty() && stale.woken.is_empty());
    assert_eq!(server.on_write(a, WriteOutcome::Wrote(3)), Drain::Absent);
    assert_eq!(server.len(), 1);
    assert!(server.contains(b));
    assert_eq!(queued(&server, b), with_welcome(""));
}

#[test]
fn read_failure_removes_the_connection() {
    let mut server = ChatServer::with_defaults();
    let a = server.admit_client().unwrap();
    let fx = server.on_read(a, ReadOutcome::Failed);
    assert_eq!(fx.removed, vec![a]);
    assert!(!server.contains(a));
}

#[test]
fn would_block_read_changes_nothing() {
    let mut server = ChatServer::with_defaults();
    let a = server.admit_client().unwrap();
    let fx = server.on_read(a, ReadOutcome::WouldBlock);
    assert!(fx.removed.is_empty() && fx.woken.is_empty());
    assert!(server.contains(a));
}

#[test]
fn two_clients_default_nick_chat() {
    let mut server = ChatServer::with_defaults();
    let a = server.admit_client().unwrap();
    let b = server.admit_client().unwrap();
    server.on_read(a, data("hi\n"));
    let expected = format!("user:{}> hi\n", a.0);
    assert_eq!(queued(&server, b), with_welcome(&expected));
    assert_eq!(queued(&server, a), with_welcome(""));
}

#[test]
fn blank_nick_argument_keeps_the_nickname() {
    let mut server = ChatServer::with_defaults();
    let a = server.admit_client().unwrap();
    let b = server.admit_client().unwrap();
    let fx = server.on_read(a, data("/nick  \n"));
    assert!(fx.removed.is_empty() && fx.woken.is_empty());
    assert_eq!(server.nick(a).unwrap(), b"user:1");
    assert_eq!(queued(&server, b), with_welcome(""));
}

#[test]
fn slow_recipient_is_dropped() {
    let bound = WELCOME_TEXT.len() + 20;
    let mut server = ChatServer::new(10, bound);
    let a = server.admit_client().unwrap();
    let slow = server.admit_client().unwrap();
    let fast = server.admit_client().unwrap();
    // The fast recipient drains its queue; the slow one never does.
    assert_eq!(server.on_write(fast, WriteOutcome::Wrote(WELCOME_TEXT.len())), Drain::Idle);
    let fx = server.on_read(a, data("0123\n"));
    assert!(fx.removed.is_empty());
    assert_eq!(fx.woken, vec![fast]);
    assert_eq!(queued(&server, slow), with_welcome("user:1> 0123\n"));
    let fx = server.on_read(a, data("4567\n"));
    assert_eq!(fx.removed, vec![slow]);
    assert!(!server.contains(slow));
    assert_eq!(queued(&server, fast), b"user:1> 0123\nuser:1> 4567\n".to_vec());
    let fx = server.on_read(a, data("89\n"));
    assert!(fx.removed.is_empty());
    assert!(!server.contains(slow));
    assert_eq!(queued(&server, fast), b"user:1> 0123\nuser:1> 4567\nuser:1> 89\n".to_vec());
}

#[test]
fn partial_writes_drain_in_order() {
    let mut server = ChatServer::with_defaults();
    let a = server.admit_client().unwrap();
    assert_eq!(server.on_write(a, WriteOutcome::WouldBlock), Drain::Pending);
    assert_eq!(server.on_write(a, WriteOutcome::Wrote(8)), Drain::Pending);
    assert_eq!(queued(&server, a), WELCOME_TEXT.as_bytes()[8..].to_vec());
    assert_eq!(server.on_write(a, WriteOutcome::Wrote(1000)), Drain::Idle);
    assert!(queued(&server, a).is_empty());
    assert_eq!(server.on_write(a, WriteOutcome::WouldBlock), Drain::Idle);
    assert_eq!(server.on_write(a, WriteOutcome::Failed), Drain::Closed);
    assert!(!server.contains(a));
}

#[test]
fn broadcast_wakes_only_idle_queues() {
    let mut server = ChatServer::with_defaults();
    let a = server.admit_client().unwrap();
    let b = server.admit_client().unwrap();
    let c = server.admit_client().unwrap();
    server.on_write(b, WriteOutcome::Wrote(1000));
    let fx = server.broadcast(b"note\n", a);
    assert_eq!(fx.woken, vec![b]);
    assert!(fx.removed.is_empty());
    assert_eq!(queued(&server, c), with_welcome("note\n"));
    assert_eq!(queued(&server, a), with_welcome(""));
}

#[test]
fn crlf_and_unknown_commands() {
    let mut server = ChatServer::with_defaults();
    let a = server.admit_client().unwrap();
    let b = server.admit_client().unwrap();
    server.on_read(a, data("/nick carol\r\n"));
    assert_eq!(server.nick(a).unwrap(), b"carol");
    server.on_read(a, data("/who\n"));
    server.on_read(a, data("/nick\n"));
    server.on_read(a, data("/nickname dave\n"));
    assert_eq!(server.nick(a).unwrap(), b"carol");
    assert_eq!(queued(&server, b), with_welcome(""));
    server.on_read(a, data("hey there\r\n"));
    assert_eq!(queued(&server, b), with_welcome("carol> hey there\n"));
}

#[test]
fn next_hands_out_and_advances() {
    let mut t = Token(7);
    assert_eq!(next(&mut t), Token(7));
    assert_eq!(t, Token(8));
}
