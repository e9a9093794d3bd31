use gilma::protocol::{
    is_excluded_dir, is_skipped_on_pull, parse_check_line, parse_list_line, parse_pull_line, parse_request, CheckLine,
    Command, FileLine, ListLine, PullLine, Reply, Request, ServerManifest,
};

fn describe_file(f: &FileLine) -> String {
    match f {
        FileLine::Entry { path, len } => format!("entry {} {}", path, len),
        FileLine::Malformed => "malformed".to_string(),
        FileLine::BadLength(t) => format!("bad length {}", t),
    }
}

fn describe(r: &Request) -> String {
    match r {
        Request::PushDir(d) => format!("push {}", d),
        Request::File(f) => format!("file {}", describe_file(f)),
        Request::EndPush => "end push".to_string(),
        Request::List => "list".to_string(),
        Request::Check(d) => format!("check {}", d),
        Request::SyncDir(d) => format!("sync {}", d),
        Request::EndSync => "end sync".to_string(),
        Request::Pull(d) => format!("pull {}", d),
        Request::Unrecognized(t) => format!("unrecognized {}", t),
        Request::Blank => "blank".to_string(),
    }
}

fn parsed(line: &str) -> String {
    describe(&parse_request(line))
}

#[test]
fn commands_encode_as_lines() {
    assert_eq!(Command::PushDir("proj".to_string()).encode(), "PUSH_DIR proj\n");
    assert_eq!(Command::File { path: "src/a.rs".to_string(), len: 1234 }.encode(), "FILE src/a.rs 1234\n");
    assert_eq!(Command::File { path: "empty".to_string(), len: 0 }.encode(), "FILE empty 0\n");
    assert_eq!(Command::EndPush.encode(), "END_PUSH\n");
    assert_eq!(Command::List.encode(), "LIST\n");
    assert_eq!(Command::Check("proj".to_string()).encode(), "CHECK proj\n");
    assert_eq!(Command::SyncDir("proj".to_string()).encode(), "SYNC_DIR proj\n");
    assert_eq!(Command::EndSync.encode(), "END_SYNC\n");
    assert_eq!(Command::Pull("proj".to_string()).encode(), "PULL proj\n");
}

#[test]
fn requests_are_parsed() {
    assert_eq!(parsed("PUSH_DIR proj\n"), "push proj");
    assert_eq!(parsed("  PUSH_DIR   proj  \r\n"), "push proj");
    assert_eq!(parsed("FILE src/a.rs 1234\n"), "file entry src/a.rs 1234");
    assert_eq!(parsed("END_PUSH\n"), "end push");
    assert_eq!(parsed("LIST"), "list");
    assert_eq!(parsed("CHECK proj"), "check proj");
    assert_eq!(parsed("SYNC_DIR proj"), "sync proj");
    assert_eq!(parsed("END_SYNC"), "end sync");
    assert_eq!(parsed("PULL proj"), "pull proj");
    assert_eq!(parsed("HELLO there"), "unrecognized HELLO there");
    assert_eq!(parsed("   \n"), "blank");
    assert_eq!(parsed(""), "blank");
}

#[test]
fn file_headers_that_do_not_parse() {
    assert_eq!(parsed("FILE abc"), "file malformed");
    assert_eq!(parsed("FILE a x"), "file bad length x");
    assert_eq!(parsed("FILE my file.txt 12"), "file bad length file.txt 12");
    assert_eq!(parsed("FILE a -1"), "file bad length -1");
    assert_eq!(parsed("FILE a 99999999999999999999"), "file bad length 99999999999999999999");
    assert_eq!(parsed("FILE a +12"), "file entry a 12");
    assert_eq!(parsed("FILE  5"), "file entry  5");
}

#[test]
fn commands_without_argument_are_unrecognized() {
    assert_eq!(parsed("PUSH_DIR"), "unrecognized PUSH_DIR");
    assert_eq!(parsed("PUSH_DIR   \n"), "unrecognized PUSH_DIR");
    assert_eq!(parsed("list"), "unrecognized list");
    assert_eq!(parsed("END_PUSH now"), "unrecognized END_PUSH now");
}

#[test]
fn encoded_commands_parse_back() {
    let cases = vec![
        (Command::PushDir("proj".to_string()), "push proj"),
        (Command::File { path: "dir/file.txt".to_string(), len: 77 }, "file entry dir/file.txt 77"),
        (Command::EndPush, "end push"),
        (Command::List, "list"),
        (Command::Check("proj".to_string()), "check proj"),
        (Command::SyncDir("proj".to_string()), "sync proj"),
        (Command::EndSync, "end sync"),
        (Command::Pull("proj".to_string()), "pull proj"),
    ];
    for (c, expected) in cases {
        assert_eq!(parsed(&c.encode()), expected);
    }
}

#[test]
fn replies_encode_as_lines() {
    assert_eq!(Reply::Folder("proj".to_string()).encode(), "proj\n");
    assert_eq!(Reply::EndList.encode(), "END_LIST\n");
    assert_eq!(Reply::CheckEntry { path: "a/b.txt".to_string(), modified: 1700000000 }.encode(), "a/b.txt 1700000000\n");
    assert_eq!(Reply::EndCheck.encode(), "END_CHECK\n");
    assert_eq!(Reply::EndPull.encode(), "END_PULL\n");
}

#[test]
fn list_lines() {
    assert!(matches!(parse_list_line("END_LIST\n"), ListLine::End));
    assert!(matches!(parse_list_line("  \n"), ListLine::Blank));
    match parse_list_line(" proj \n") {
        ListLine::Folder(n) => assert_eq!(n, "proj"),
        _ => panic!("expected a folder"),
    }
    match parse_list_line(&Reply::Folder("photos".to_string()).encode()) {
        ListLine::Folder(n) => assert_eq!(n, "photos"),
        _ => panic!("expected a folder"),
    }
}

#[test]
fn check_lines() {
    assert!(matches!(parse_check_line("END_CHECK\n"), CheckLine::End));
    assert!(matches!(parse_check_line("\n"), CheckLine::Ignored));
    assert!(matches!(parse_check_line("nospace\n"), CheckLine::Ignored));
    match parse_check_line("a.txt 123\n") {
        CheckLine::Entry { path, modified } => {
            assert_eq!(path, "a.txt");
            assert_eq!(modified, 123);
        },
        _ => panic!("expected an entry"),
    }
    match parse_check_line("a.txt soon\n") {
        CheckLine::Entry { path, modified } => {
            assert_eq!(path, "a.txt");
            assert_eq!(modified, 0);
        },
        _ => panic!("expected an entry"),
    }
    match parse_check_line(&Reply::CheckEntry { path: "x/y".to_string(), modified: 42 }.encode()) {
        CheckLine::Entry { path, modified } => {
            assert_eq!(path, "x/y");
            assert_eq!(modified, 42);
        },
        _ => panic!("expected an entry"),
    }
}

#[test]
fn pull_lines() {
    assert!(matches!(parse_pull_line("END_PULL\n"), PullLine::End));
    assert!(matches!(parse_pull_line("whatever\n"), PullLine::Other));
    match parse_pull_line(&Command::File { path: "a/b".to_string(), len: 9 }.encode()) {
        PullLine::File(FileLine::Entry { path, len }) => {
            assert_eq!(path, "a/b");
            assert_eq!(len, 9);
        },
        _ => panic!("expected a file"),
    }
    assert!(matches!(parse_pull_line("FILE onlypath"), PullLine::File(FileLine::Malformed)));
    assert!(matches!(parse_pull_line("FILE p q"), PullLine::File(FileLine::BadLength(_))));
}

#[test]
fn excluded_directories() {
    for name in ["target", ".git", ".venv", "node_modules", "dist", "build", "__pycache__", ".pytest_cache", ".mypy_cache", "coverage"] {
        assert!(is_excluded_dir(name));
        assert!(is_skipped_on_pull(name));
    }
    assert!(!is_excluded_dir("targets"));
    assert!(!is_excluded_dir("src"));
    assert!(!is_excluded_dir(""));
    assert!(is_skipped_on_pull("target/debug/app"));
    assert!(is_skipped_on_pull(".git/config"));
    assert!(is_skipped_on_pull("node_modules/x/index.js"));
    assert!(!is_skipped_on_pull("targets/x"));
    assert!(!is_skipped_on_pull(".github/workflows/ci.yml"));
    assert!(!is_skipped_on_pull("build.rs"));
    assert!(!is_skipped_on_pull("distance.rs"));
    assert!(!is_skipped_on_pull("src/main.rs"));
    assert!(!is_skipped_on_pull(""));
    assert!(!is_skipped_on_pull("my/target/x"));
}

#[test]
fn manifest_lookup_and_sync_decision() {
    let mut m = ServerManifest::new();
    assert_eq!(m.get("a.txt"), None);
    assert!(m.needs_sync("a.txt", 0));
    m.record("a.txt".to_string(), 100);
    m.record("b.txt".to_string(), 200);
    assert_eq!(m.get("a.txt"), Some(100));
    assert_eq!(m.get("b.txt"), Some(200));
    assert_eq!(m.get("c.txt"), None);
    assert!(!m.needs_sync("a.txt", 100));
    assert!(!m.needs_sync("a.txt", 99));
    assert!(m.needs_sync("a.txt", 101));
    assert!(m.needs_sync("c.txt", 1));
}

#[test]
fn manifest_keeps_the_last_record() {
    let mut m = ServerManifest::new();
    m.record("a.txt".to_string(), 100);
    m.record("a.txt".to_string(), 50);
    assert_eq!(m.get("a.txt"), Some(50));
    assert!(m.needs_sync("a.txt", 60));
}

#[test]
fn changed_files_for_sync() {
    let mut m = ServerManifest::new();
    m.record("a.txt".to_string(), 100);
    m.record("b.txt".to_string(), 200);
    let files = vec![
        ("a.txt".to_string(), 100u64),
        ("new.txt".to_string(), 5u64),
        ("b.txt".to_string(), 201u64),
        ("a.txt".to_string(), 50u64),
    ];
    assert_eq!(m.changed_files(&files), vec![1usize, 2]);
    assert_eq!(ServerManifest::new().changed_files(&files), vec![0usize, 1, 2, 3]);
    assert_eq!(m.changed_files(&[]), Vec::<usize>::new());
}
