use gilma::protocol::{parse_request, Command, Request};
use gilma::server::{ProtocolError, ServerAction, ServerSession};

fn error_name(e: &ProtocolError) -> String {
    match e {
        ProtocolError::PushDirDuringTransfer => "push during transfer".to_string(),
        ProtocolError::MissingPushDirName => "missing push name".to_string(),
        ProtocolError::FileOutsideTransfer => "file outside transfer".to_string(),
        ProtocolError::MalformedFile => "malformed file".to_string(),
        ProtocolError::InvalidLength(t) => format!("invalid length {}", t),
        ProtocolError::EndPushOutsideTransfer => "end push outside transfer".to_string(),
        ProtocolError::ListDuringTransfer => "list during transfer".to_string(),
        ProtocolError::CheckDuringTransfer => "check during transfer".to_string(),
        ProtocolError::MissingCheckName => "missing check name".to_string(),
        ProtocolError::SyncDirDuringTransfer => "sync during transfer".to_string(),
        ProtocolError::MissingSyncDirName => "missing sync name".to_string(),
        ProtocolError::EndSyncOutsideTransfer => "end sync outside transfer".to_string(),
        ProtocolError::PullDuringTransfer => "pull during transfer".to_string(),
        ProtocolError::MissingPullName => "missing pull name".to_string(),
        ProtocolError::Unrecognized(t) => format!("unrecognized {}", t),
    }
}

fn describe(a: &ServerAction) -> String {
    match a {
        ServerAction::Continue => "continue".to_string(),
        ServerAction::Close(e) => format!("close: {}", error_name(e)),
        ServerAction::OpenDirectory(d) => format!("open {}", d),
        ServerAction::ReceiveFile { path, len } => format!("receive {} {}", path, len),
        ServerAction::Finish => "finish".to_string(),
        ServerAction::ListFolders => "list".to_string(),
        ServerAction::CheckFolder(f) => format!("check {}", f),
        ServerAction::PullFolder(f) => format!("pull {}", f),
    }
}

fn step(s: &mut ServerSession, line: &str) -> String {
    describe(&s.step(line))
}

fn in_transfer(dir: &str) -> ServerSession {
    let mut s = ServerSession::new();
    assert_eq!(step(&mut s, &format!("PUSH_DIR {}\n", dir)), format!("open {}", dir));
    s
}

#[test]
fn push_session() {
    let mut s = ServerSession::new();
    assert!(!s.in_transfer());
    assert_eq!(step(&mut s, "PUSH_DIR proj\n"), "open proj");
    assert!(s.in_transfer());
    assert_eq!(step(&mut s, "FILE src/a.rs 12\n"), "receive src/a.rs 12");
    assert_eq!(step(&mut s, "\n"), "continue");
    assert_eq!(step(&mut s, "FILE b 0\n"), "receive b 0");
    assert_eq!(step(&mut s, "END_PUSH\n"), "finish");
}

#[test]
fn sync_session() {
    let mut s = ServerSession::new();
    assert_eq!(step(&mut s, "SYNC_DIR proj\n"), "open proj");
    assert_eq!(step(&mut s, "FILE x 3\n"), "receive x 3");
    assert_eq!(step(&mut s, "END_SYNC\n"), "finish");
}

#[test]
fn encoded_session_is_understood() {
    let mut s = ServerSession::new();
    assert_eq!(describe(&s.step(&Command::SyncDir("d".to_string()).encode())), "open d");
    assert_eq!(describe(&s.step(&Command::File { path: "f".to_string(), len: 5 }.encode())), "receive f 5");
    assert_eq!(describe(&s.step(&Command::EndSync.encode())), "finish");
}

#[test]
fn queries_outside_a_transfer() {
    let mut s = ServerSession::new();
    assert_eq!(step(&mut s, "LIST\n"), "list");
    assert_eq!(step(&mut s, "CHECK proj\n"), "check proj");
    assert_eq!(step(&mut s, "PULL proj\n"), "pull proj");
    assert!(!s.in_transfer());
}

#[test]
fn respond_to_a_parsed_request() {
    let mut s = ServerSession::new();
    assert_eq!(describe(&s.respond(parse_request("CHECK  photos "))), "check photos");
}

#[test]
fn errors_outside_a_transfer() {
    let mut s = ServerSession::new();
    assert_eq!(step(&mut s, "FILE a 1\n"), "close: file outside transfer");
    assert_eq!(step(&mut s, "END_PUSH\n"), "close: end push outside transfer");
    assert_eq!(step(&mut s, "END_SYNC\n"), "close: end sync outside transfer");
    assert_eq!(step(&mut s, "PUSH_DIR\n"), "close: unrecognized PUSH_DIR");
    assert_eq!(step(&mut s, "HELLO\n"), "close: unrecognized HELLO");
}

#[test]
fn errors_during_a_transfer() {
    assert_eq!(step(&mut in_transfer("d"), "PUSH_DIR e\n"), "close: push during transfer");
    assert_eq!(step(&mut in_transfer("d"), "SYNC_DIR e\n"), "close: sync during transfer");
    assert_eq!(step(&mut in_transfer("d"), "LIST\n"), "close: list during transfer");
    assert_eq!(step(&mut in_transfer("d"), "CHECK e\n"), "close: check during transfer");
    assert_eq!(step(&mut in_transfer("d"), "PULL e\n"), "close: pull during transfer");
    assert_eq!(step(&mut in_transfer("d"), "FILE onlypath\n"), "close: malformed file");
    assert_eq!(step(&mut in_transfer("d"), "FILE p many\n"), "close: invalid length many");
}

#[test]
fn missing_names() {
    let mut s = ServerSession::new();
    assert_eq!(describe(&s.respond(Request::PushDir(String::new()))), "close: missing push name");
    assert_eq!(describe(&s.respond(Request::SyncDir(String::new()))), "close: missing sync name");
    assert_eq!(describe(&s.respond(Request::Check(String::new()))), "close: missing check name");
    assert_eq!(describe(&s.respond(Request::Pull(String::new()))), "close: missing pull name");
    assert!(!s.in_transfer());
}

#[test]
fn refused_requests_leave_the_session_unchanged() {
    let mut s = in_transfer("d");
    assert_eq!(step(&mut s, "LIST\n"), "close: list during transfer");
    assert!(s.in_transfer());
    assert_eq!(step(&mut s, "FILE x 1\n"), "receive x 1");
    let mut t = ServerSession::new();
    assert_eq!(step(&mut t, "END_PUSH\n"), "close: end push outside transfer");
    assert!(!t.in_transfer());
    assert_eq!(step(&mut t, "CHECK a\n"), "check a");
    assert!(!t.in_transfer());
}
