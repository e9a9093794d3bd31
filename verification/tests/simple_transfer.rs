use gilma::simple_transfer::{TransferAction, TransferCommand, TransferSession};

fn describe(a: &TransferAction) -> String {
    match a {
        TransferAction::Ignore => "ignore".to_string(),
        TransferAction::StartSession(d) => format!("start {}", d),
        TransferAction::ReceiveFile { dir, path, size } => format!("receive {} {} {}", dir, path, size),
        TransferAction::EndSession => "end".to_string(),
    }
}

fn step(s: &mut TransferSession, line: &str) -> String {
    describe(&s.step(line))
}

#[test]
fn transfer_commands_encode_as_lines() {
    assert_eq!(TransferCommand::StartSession("proj".to_string()).encode(), "START_SESSION proj\n");
    assert_eq!(TransferCommand::NewFile { path: "a/b.txt".to_string(), size: 8192 }.encode(), "NEW_FILE a/b.txt 8192\n");
    assert_eq!(TransferCommand::EndSession.encode(), "END_SESSION\n");
}

#[test]
fn a_session_of_files() {
    let mut s = TransferSession::new();
    assert_eq!(step(&mut s, "START_SESSION proj\n"), "start proj");
    assert_eq!(step(&mut s, "NEW_FILE a.txt 10\n"), "receive proj a.txt 10");
    assert_eq!(step(&mut s, "  NEW_FILE \t dir/b.txt   0  \n"), "receive proj dir/b.txt 0");
    assert_eq!(step(&mut s, "END_SESSION\n"), "end");
    assert_eq!(step(&mut s, "NEW_FILE a.txt 10\n"), "ignore");
}

#[test]
fn encoded_commands_are_understood() {
    let mut s = TransferSession::new();
    assert_eq!(describe(&s.step(&TransferCommand::StartSession("d".to_string()).encode())), "start d");
    assert_eq!(describe(&s.step(&TransferCommand::NewFile { path: "p".to_string(), size: 3 }.encode())), "receive d p 3");
    assert_eq!(describe(&s.step(&TransferCommand::EndSession.encode())), "end");
}

#[test]
fn lines_that_are_ignored() {
    let mut s = TransferSession::new();
    assert_eq!(step(&mut s, "\n"), "ignore");
    assert_eq!(step(&mut s, "NEW_FILE a.txt 10\n"), "ignore");
    assert_eq!(step(&mut s, "START_SESSION\n"), "ignore");
    assert_eq!(step(&mut s, "HELLO world\n"), "ignore");
    assert_eq!(step(&mut s, "START_SESSION d\n"), "start d");
    assert_eq!(step(&mut s, "NEW_FILE a.txt\n"), "ignore");
    assert_eq!(step(&mut s, "NEW_FILE a.txt ten\n"), "ignore");
    assert_eq!(step(&mut s, "NEW_FILE a.txt 18446744073709551616\n"), "ignore");
    assert_eq!(step(&mut s, "NEW_FILE a.txt 18446744073709551615\n"), "receive d a.txt 18446744073709551615");
}

#[test]
fn a_new_session_replaces_the_old_one() {
    let mut s = TransferSession::new();
    assert_eq!(step(&mut s, "START_SESSION one extra words\n"), "start one");
    assert_eq!(step(&mut s, "START_SESSION two\n"), "start two");
    assert_eq!(step(&mut s, "NEW_FILE f 1 trailing\n"), "receive two f 1");
    assert_eq!(step(&mut s, "END_SESSION now\n"), "end");
    assert_eq!(step(&mut s, "END_SESSION\n"), "end");
}
