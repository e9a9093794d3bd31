//! The line protocol between client and server: the commands a client sends,
//! how the server reads a request line, and how the client reads the
//! server's answers.

use vstd::prelude::*;
use crate::text::{
    chars_of, decimal, parse_u64, parse_u64_spec, parse_usize_spec, push_decimal, push_str, range_equals,
    range_starts_with, split_once, string_from_chars, starts_with, trim, trim_range, find_char, find_char_in,
    lemma_find_char, lemma_find_char_at, lemma_trim_line, lemma_trim_unchanged, is_whitespace,
    lemma_parse_decimal, lemma_decimal_all_digits, is_digit,
};
use vstd::slice::slice_subrange;

verus! {

// ---------------------------------------------------------------------------
// Commands from the client

/// A command line that a client sends.
pub enum Command {
    /// Start sending a whole directory: `PUSH_DIR <dir>`.
    PushDir(String),
    /// A file follows, `len` bytes long: `FILE <path> <len>`.
    File { path: String, len: usize },
    /// The pushed directory is complete: `END_PUSH`.
    EndPush,
    /// Ask for the stored folders: `LIST`.
    List,
    /// Ask for the files of a stored folder with their times: `CHECK <dir>`.
    Check(String),
    /// Start sending the changed files of a directory: `SYNC_DIR <dir>`.
    SyncDir(String),
    /// The synchronised directory is complete: `END_SYNC`.
    EndSync,
    /// Ask for the files of a stored folder: `PULL <folder>`.
    Pull(String),
}

/// A command as plain values.
pub enum CommandView {
    PushDir(Seq<char>),
    File { path: Seq<char>, len: usize },
    EndPush,
    List,
    Check(Seq<char>),
    SyncDir(Seq<char>),
    EndSync,
    Pull(Seq<char>),
}

impl View for Command {
    type V = CommandView;

    open spec fn view(&self) -> CommandView {
        match self {
            Command::PushDir(d) => CommandView::PushDir(d@),
            Command::File { path, len } => CommandView::File { path: path@, len: *len },
            Command::EndPush => CommandView::EndPush,
            Command::List => CommandView::List,
            Command::Check(d) => CommandView::Check(d@),
            Command::SyncDir(d) => CommandView::SyncDir(d@),
            Command::EndSync => CommandView::EndSync,
            Command::Pull(f) => CommandView::Pull(f@),
        }
    }
}

/// The header line of a file: `FILE <path> <len>` and a newline.
pub open spec fn spec_file_header(path: Seq<char>, len: usize) -> Seq<char> {
    "FILE "@ + path + " "@ + decimal(len as nat) + "\n"@
}

/// The line a command is sent as, newline included.
pub open spec fn spec_encode(c: CommandView) -> Seq<char> {
    match c {
        CommandView::PushDir(d) => "PUSH_DIR "@ + d + "\n"@,
        CommandView::File { path, len } => spec_file_header(path, len),
        CommandView::EndPush => "END_PUSH\n"@,
        CommandView::List => "LIST\n"@,
        CommandView::Check(d) => "CHECK "@ + d + "\n"@,
        CommandView::SyncDir(d) => "SYNC_DIR "@ + d + "\n"@,
        CommandView::EndSync => "END_SYNC\n"@,
        CommandView::Pull(f) => "PULL "@ + f + "\n"@,
    }
}

impl Command {
    /// The line this command is sent as, newline included.
    pub fn encode(&self) -> (line: String)
        ensures
            line@ == spec_encode(self@),
    {
        let mut out: Vec<char> = Vec::new();
        match self {
            Command::PushDir(d) => {
                push_str(&mut out, "PUSH_DIR ");
                push_str(&mut out, d.as_str());
                push_str(&mut out, "\n");
            },
            Command::File { path, len } => {
                push_str(&mut out, "FILE ");
                push_str(&mut out, path.as_str());
                push_str(&mut out, " ");
                push_decimal(&mut out, *len as u64);
                push_str(&mut out, "\n");
            },
            Command::EndPush => {
                push_str(&mut out, "END_PUSH\n");
            },
            Command::List => {
                push_str(&mut out, "LIST\n");
            },
            Command::Check(d) => {
                push_str(&mut out, "CHECK ");
                push_str(&mut out, d.as_str());
                push_str(&mut out, "\n");
            },
            Command::SyncDir(d) => {
                push_str(&mut out, "SYNC_DIR ");
                push_str(&mut out, d.as_str());
                push_str(&mut out, "\n");
            },
            Command::EndSync => {
                push_str(&mut out, "END_SYNC\n");
            },
            Command::Pull(f) => {
                push_str(&mut out, "PULL ");
                push_str(&mut out, f.as_str());
                push_str(&mut out, "\n");
            },
        }
        assert(out@ =~= spec_encode(self@));
        string_from_chars(out.as_slice())
    }
}


// ---------------------------------------------------------------------------
// Reading lines

fn substring(cs: &Vec<char>, a: usize, b: usize) -> (s: String)
    requires
        a <= b <= cs@.len(),
    ensures
        s@ == cs@.subrange(a as int, b as int),
{
    string_from_chars(slice_subrange(cs.as_slice(), a, b))
}

/// What follows `FILE ` on a header line.
pub enum FileLine {
    /// A path and a length.
    Entry { path: String, len: usize },
    /// No space between path and length.
    Malformed,
    /// The length is not a number that fits a `usize`; it holds the text.
    BadLength(String),
}

/// A file header as plain values.
pub enum FileLineView {
    Entry { path: Seq<char>, len: usize },
    Malformed,
    BadLength(Seq<char>),
}

impl View for FileLine {
    type V = FileLineView;

    open spec fn view(&self) -> FileLineView {
        match self {
            FileLine::Entry { path, len } => FileLineView::Entry { path: path@, len: *len },
            FileLine::Malformed => FileLineView::Malformed,
            FileLine::BadLength(t) => FileLineView::BadLength(t@),
        }
    }
}

/// The rest of a `FILE` line: the path up to the first space, and the length
/// after it (`splitn(2, ' ')`).
pub open spec fn spec_file_line(rest: Seq<char>) -> FileLineView {
    match split_once(rest, ' ') {
        None => FileLineView::Malformed,
        Some((path, len_text)) => match parse_usize_spec(len_text) {
            Some(len) => FileLineView::Entry { path, len },
            None => FileLineView::BadLength(len_text),
        },
    }
}

fn parse_file_line(cs: &Vec<char>, start: usize, end: usize) -> (r: FileLine)
    requires
        start <= end <= cs@.len(),
    ensures
        r@ == spec_file_line(cs@.subrange(start as int, end as int)),
{
    let ghost rest = cs@.subrange(start as int, end as int);
    proof { lemma_find_char(rest, ' '); }
    match find_char_in(cs.as_slice(), start, end, ' ') {
        None => FileLine::Malformed,
        Some(i) => {
            assert(rest.take(i - start) =~= cs@.subrange(start as int, i as int));
            assert(rest.skip(i - start + 1) =~= cs@.subrange(i + 1, end as int));
            let path = substring(cs, start, i);
            match crate::text::parse_usize(cs.as_slice(), i + 1, end) {
                Some(len) => FileLine::Entry { path, len },
                None => FileLine::BadLength(substring(cs, i + 1, end)),
            }
        },
    }
}

/// A request line as the server reads it.
pub enum Request {
    PushDir(String),
    File(FileLine),
    EndPush,
    List,
    Check(String),
    SyncDir(String),
    EndSync,
    Pull(String),
    /// A non-empty line that is none of the above; it holds the trimmed line.
    Unrecognized(String),
    /// A line of whitespace only.
    Blank,
}

/// A request as plain values.
pub enum RequestView {
    PushDir(Seq<char>),
    File(FileLineView),
    EndPush,
    List,
    Check(Seq<char>),
    SyncDir(Seq<char>),
    EndSync,
    Pull(Seq<char>),
    Unrecognized(Seq<char>),
    Blank,
}

impl View for Request {
    type V = RequestView;

    open spec fn view(&self) -> RequestView {
        match self {
            Request::PushDir(d) => RequestView::PushDir(d@),
            Request::File(f) => RequestView::File(f@),
            Request::EndPush => RequestView::EndPush,
            Request::List => RequestView::List,
            Request::Check(d) => RequestView::Check(d@),
            Request::SyncDir(d) => RequestView::SyncDir(d@),
            Request::EndSync => RequestView::EndSync,
            Request::Pull(f) => RequestView::Pull(f@),
            Request::Unrecognized(t) => RequestView::Unrecognized(t@),
            Request::Blank => RequestView::Blank,
        }
    }
}

/// How the server reads a line: it trims the line, then tries the commands
/// in this order; the argument of a named command is trimmed too.
pub open spec fn spec_parse_request(line: Seq<char>) -> RequestView {
    let t = trim(line);
    if starts_with(t, "PUSH_DIR "@) {
        RequestView::PushDir(trim(t.skip("PUSH_DIR "@.len() as int)))
    } else if starts_with(t, "FILE "@) {
        RequestView::File(spec_file_line(t.skip("FILE "@.len() as int)))
    } else if t == "END_PUSH"@ {
        RequestView::EndPush
    } else if t == "LIST"@ {
        RequestView::List
    } else if starts_with(t, "CHECK "@) {
        RequestView::Check(trim(t.skip("CHECK "@.len() as int)))
    } else if starts_with(t, "SYNC_DIR "@) {
        RequestView::SyncDir(trim(t.skip("SYNC_DIR "@.len() as int)))
    } else if t == "END_SYNC"@ {
        RequestView::EndSync
    } else if starts_with(t, "PULL "@) {
        RequestView::Pull(trim(t.skip("PULL "@.len() as int)))
    } else if t.len() > 0 {
        RequestView::Unrecognized(t)
    } else {
        RequestView::Blank
    }
}

/// The trimmed argument after `prefix` in `cs[a..b]`, which starts with it.
fn trimmed_argument(cs: &Vec<char>, a: usize, b: usize, prefix: &str) -> (arg: String)
    requires
        a <= b <= cs@.len(),
        starts_with(cs@.subrange(a as int, b as int), prefix@),
    ensures
        arg@ == trim(cs@.subrange(a as int, b as int).skip(prefix@.len() as int)),
{
    let k = chars_of(prefix).len();
    assert(cs@.subrange(a as int, b as int).skip(k as int) =~= cs@.subrange(a + k, b as int));
    let (x, y) = trim_range(cs.as_slice(), a + k, b);
    substring(cs, x, y)
}

/// Reads a request line the way the server does.
pub fn parse_request(line: &str) -> (r: Request)
    ensures
        r@ == spec_parse_request(line@),
{
    let cs = chars_of(line);
    let (a, b) = trim_range(cs.as_slice(), 0, cs.len());
    assert(cs@.subrange(0, cs@.len() as int) =~= line@);
    let ghost t = cs@.subrange(a as int, b as int);
    if range_starts_with(cs.as_slice(), a, b, "PUSH_DIR ") {
        Request::PushDir(trimmed_argument(&cs, a, b, "PUSH_DIR "))
    } else if range_starts_with(cs.as_slice(), a, b, "FILE ") {
        let k = chars_of("FILE ").len();
        assert(t.skip(k as int) =~= cs@.subrange(a + k, b as int));
        Request::File(parse_file_line(&cs, a + k, b))
    } else if range_equals(cs.as_slice(), a, b, "END_PUSH") {
        Request::EndPush
    } else if range_equals(cs.as_slice(), a, b, "LIST") {
        Request::List
    } else if range_starts_with(cs.as_slice(), a, b, "CHECK ") {
        Request::Check(trimmed_argument(&cs, a, b, "CHECK "))
    } else if range_starts_with(cs.as_slice(), a, b, "SYNC_DIR ") {
        Request::SyncDir(trimmed_argument(&cs, a, b, "SYNC_DIR "))
    } else if range_equals(cs.as_slice(), a, b, "END_SYNC") {
        Request::EndSync
    } else if range_starts_with(cs.as_slice(), a, b, "PULL ") {
        Request::Pull(trimmed_argument(&cs, a, b, "PULL "))
    } else if a < b {
        Request::Unrecognized(substring(&cs, a, b))
    } else {
        Request::Blank
    }
}



// ---------------------------------------------------------------------------
// The server's answers and how the client reads them

/// A line of the server's answers.
pub enum Reply {
    /// A stored folder, in the answer to `LIST`: `<name>`.
    Folder(String),
    /// The end of the answer to `LIST`: `END_LIST`.
    EndList,
    /// A stored file and its modification time, in the answer to `CHECK`:
    /// `<path> <seconds>`.
    CheckEntry { path: String, modified: u64 },
    /// The end of the answer to `CHECK`: `END_CHECK`.
    EndCheck,
    /// The end of the answer to `PULL`: `END_PULL` (the files themselves are
    /// sent as `FILE` commands).
    EndPull,
}

/// A reply as plain values.
pub enum ReplyView {
    Folder(Seq<char>),
    EndList,
    CheckEntry { path: Seq<char>, modified: u64 },
    EndCheck,
    EndPull,
}

impl View for Reply {
    type V = ReplyView;

    open spec fn view(&self) -> ReplyView {
        match self {
            Reply::Folder(n) => ReplyView::Folder(n@),
            Reply::EndList => ReplyView::EndList,
            Reply::CheckEntry { path, modified } => ReplyView::CheckEntry { path: path@, modified: *modified },
            Reply::EndCheck => ReplyView::EndCheck,
            Reply::EndPull => ReplyView::EndPull,
        }
    }
}

/// The line a reply is sent as, newline included.
pub open spec fn spec_encode_reply(r: ReplyView) -> Seq<char> {
    match r {
        ReplyView::Folder(n) => n + "\n"@,
        ReplyView::EndList => "END_LIST\n"@,
        ReplyView::CheckEntry { path, modified } => path + " "@ + decimal(modified as nat) + "\n"@,
        ReplyView::EndCheck => "END_CHECK\n"@,
        ReplyView::EndPull => "END_PULL\n"@,
    }
}

impl Reply {
    /// The line this reply is sent as, newline included.
    pub fn encode(&self) -> (line: String)
        ensures
            line@ == spec_encode_reply(self@),
    {
        let mut out: Vec<char> = Vec::new();
        match self {
            Reply::Folder(n) => {
                push_str(&mut out, n.as_str());
                push_str(&mut out, "\n");
            },
            Reply::EndList => {
                push_str(&mut out, "END_LIST\n");
            },
            Reply::CheckEntry { path, modified } => {
                push_str(&mut out, path.as_str());
                push_str(&mut out, " ");
                push_decimal(&mut out, *modified);
                push_str(&mut out, "\n");
            },
            Reply::EndCheck => {
                push_str(&mut out, "END_CHECK\n");
            },
            Reply::EndPull => {
                push_str(&mut out, "END_PULL\n");
            },
        }
        assert(out@ =~= spec_encode_reply(self@));
        string_from_chars(out.as_slice())
    }
}

/// A line of the answer to `LIST`, as the client reads it.
pub enum ListLine {
    End,
    Folder(String),
    Blank,
}

/// A line of a folder listing as plain values.
pub enum ListLineView {
    End,
    Folder(Seq<char>),
    Blank,
}

impl View for ListLine {
    type V = ListLineView;

    open spec fn view(&self) -> ListLineView {
        match self {
            ListLine::End => ListLineView::End,
            ListLine::Folder(n) => ListLineView::Folder(n@),
            ListLine::Blank => ListLineView::Blank,
        }
    }
}

/// The client trims the line; `END_LIST` ends the answer, any other
/// non-empty line names a folder.
pub open spec fn spec_list_line(line: Seq<char>) -> ListLineView {
    let t = trim(line);
    if t == "END_LIST"@ {
        ListLineView::End
    } else if t.len() > 0 {
        ListLineView::Folder(t)
    } else {
        ListLineView::Blank
    }
}

/// Reads a line of the server's folder listing.
pub fn parse_list_line(line: &str) -> (r: ListLine)
    ensures
        r@ == spec_list_line(line@),
{
    let cs = chars_of(line);
    let (a, b) = trim_range(cs.as_slice(), 0, cs.len());
    assert(cs@.subrange(0, cs@.len() as int) =~= line@);
    if range_equals(cs.as_slice(), a, b, "END_LIST") {
        ListLine::End
    } else if a < b {
        ListLine::Folder(substring(&cs, a, b))
    } else {
        ListLine::Blank
    }
}

/// A line of the answer to `CHECK`, as the client reads it.
pub enum CheckLine {
    End,
    Entry { path: String, modified: u64 },
    Ignored,
}

/// A line of a `CHECK` answer as plain values.
pub enum CheckLineView {
    End,
    Entry { path: Seq<char>, modified: u64 },
    Ignored,
}

impl View for CheckLine {
    type V = CheckLineView;

    open spec fn view(&self) -> CheckLineView {
        match self {
            CheckLine::End => CheckLineView::End,
            CheckLine::Entry { path, modified } => CheckLineView::Entry { path: path@, modified: *modified },
            CheckLine::Ignored => CheckLineView::Ignored,
        }
    }
}

/// The client trims the line; `END_CHECK` ends the answer; otherwise the
/// text before the first space is a path and the text after it a time, read
/// as 0 where it is not a number that fits a `u64`. Lines without a space are
/// ignored.
pub open spec fn spec_check_line(line: Seq<char>) -> CheckLineView {
    let t = trim(line);
    if t == "END_CHECK"@ {
        CheckLineView::End
    } else if t.len() == 0 {
        CheckLineView::Ignored
    } else {
        match split_once(t, ' ') {
            Some((path, time)) => CheckLineView::Entry {
                path,
                modified: match parse_u64_spec(time) {
                    Some(v) => v,
                    None => 0,
                },
            },
            None => CheckLineView::Ignored,
        }
    }
}

/// Reads a line of the server's answer to `CHECK`.
pub fn parse_check_line(line: &str) -> (r: CheckLine)
    ensures
        r@ == spec_check_line(line@),
{
    let cs = chars_of(line);
    let (a, b) = trim_range(cs.as_slice(), 0, cs.len());
    assert(cs@.subrange(0, cs@.len() as int) =~= line@);
    let ghost t = cs@.subrange(a as int, b as int);
    if range_equals(cs.as_slice(), a, b, "END_CHECK") {
        return CheckLine::End;
    }
    if a == b {
        return CheckLine::Ignored;
    }
    proof { lemma_find_char(t, ' '); }
    match find_char_in(cs.as_slice(), a, b, ' ') {
        None => CheckLine::Ignored,
        Some(i) => {
            assert(t.take(i - a) =~= cs@.subrange(a as int, i as int));
            assert(t.skip(i - a + 1) =~= cs@.subrange(i + 1, b as int));
            let path = substring(&cs, a, i);
            let modified = match parse_u64(cs.as_slice(), i + 1, b) {
                Some(v) => v,
                None => 0,
            };
            CheckLine::Entry { path, modified }
        },
    }
}

/// A line of the answer to `PULL`, as the client reads it.
pub enum PullLine {
    File(FileLine),
    End,
    Other,
}

/// A line of a `PULL` answer as plain values.
pub enum PullLineView {
    File(FileLineView),
    End,
    Other,
}

impl View for PullLine {
    type V = PullLineView;

    open spec fn view(&self) -> PullLineView {
        match self {
            PullLine::File(f) => PullLineView::File(f@),
            PullLine::End => PullLineView::End,
            PullLine::Other => PullLineView::Other,
        }
    }
}

/// The client trims the line; a `FILE ` line announces a file, `END_PULL`
/// ends the answer, other lines are passed over.
pub open spec fn spec_pull_line(line: Seq<char>) -> PullLineView {
    let t = trim(line);
    if starts_with(t, "FILE "@) {
        PullLineView::File(spec_file_line(t.skip("FILE "@.len() as int)))
    } else if t == "END_PULL"@ {
        PullLineView::End
    } else {
        PullLineView::Other
    }
}

/// Reads a line of the server's answer to `PULL`.
pub fn parse_pull_line(line: &str) -> (r: PullLine)
    ensures
        r@ == spec_pull_line(line@),
{
    let cs = chars_of(line);
    let (a, b) = trim_range(cs.as_slice(), 0, cs.len());
    assert(cs@.subrange(0, cs@.len() as int) =~= line@);
    let ghost t = cs@.subrange(a as int, b as int);
    if range_starts_with(cs.as_slice(), a, b, "FILE ") {
        let k = chars_of("FILE ").len();
        assert(t.skip(k as int) =~= cs@.subrange(a + k, b as int));
        PullLine::File(parse_file_line(&cs, a + k, b))
    } else if range_equals(cs.as_slice(), a, b, "END_PULL") {
        PullLine::End
    } else {
        PullLine::Other
    }
}

// ---------------------------------------------------------------------------
// Directories that are never synchronised

/// The names of the directories that push, sync and pull leave out.
pub open spec fn is_excluded_name(name: Seq<char>) -> bool {
    ||| name == "target"@
    ||| name == ".git"@
    ||| name == ".venv"@
    ||| name == "node_modules"@
    ||| name == "dist"@
    ||| name == "build"@
    ||| name == "__pycache__"@
    ||| name == ".pytest_cache"@
    ||| name == ".mypy_cache"@
    ||| name == "coverage"@
}

/// The first component of a relative path: the text before its first `/`,
/// or the whole path where it has none.
pub open spec fn first_component(path: Seq<char>) -> Seq<char> {
    match find_char(path, '/') {
        Some(i) => path.take(i as int),
        None => path,
    }
}

fn excluded_range(cs: &Vec<char>, end: usize) -> (b: bool)
    requires
        end <= cs@.len(),
    ensures
        b == is_excluded_name(cs@.subrange(0, end as int)),
{
    let s = cs.as_slice();
    range_equals(s, 0, end, "target") || range_equals(s, 0, end, ".git")
        || range_equals(s, 0, end, ".venv") || range_equals(s, 0, end, "node_modules")
        || range_equals(s, 0, end, "dist") || range_equals(s, 0, end, "build")
        || range_equals(s, 0, end, "__pycache__") || range_equals(s, 0, end, ".pytest_cache")
        || range_equals(s, 0, end, ".mypy_cache") || range_equals(s, 0, end, "coverage")
}

/// Whether a directory name is one that is never synchronised.
pub fn is_excluded_dir(first_component: &str) -> (b: bool)
    ensures
        b == is_excluded_name(first_component@),
{
    let cs = chars_of(first_component);
    let n = cs.len();
    assert(cs@.subrange(0, n as int) =~= first_component@);
    excluded_range(&cs, n)
}

/// Whether a pulled file is skipped: its path (relative to the pulled
/// folder, `/`-separated) lies in a directory that is never synchronised,
/// that is, its first component is one of them.
pub fn is_skipped_on_pull(relative_path: &str) -> (b: bool)
    ensures
        b == is_excluded_name(first_component(relative_path@)),
{
    let cs = chars_of(relative_path);
    let n = cs.len();
    assert(cs@.subrange(0, n as int) =~= relative_path@);
    proof { lemma_find_char(relative_path@, '/'); }
    let end = match find_char_in(cs.as_slice(), 0, n, '/') {
        Some(i) => i,
        None => n,
    };
    assert(cs@.subrange(0, end as int) =~= first_component(relative_path@));
    excluded_range(&cs, end)
}

// ---------------------------------------------------------------------------
// What the server holds, as the client learns it from `CHECK`

/// The modification time recorded last for `path`.
pub open spec fn manifest_lookup(entries: Seq<(Seq<char>, u64)>, path: Seq<char>) -> Option<u64>
    decreases entries.len(),
{
    if entries.len() == 0 {
        None
    } else if entries.last().0 == path {
        Some(entries.last().1)
    } else {
        manifest_lookup(entries.drop_last(), path)
    }
}

/// The files the server holds with their modification times, as recorded
/// from the answer to `CHECK`; a later record for a path replaces an
/// earlier one.
pub struct ServerManifest {
    entries: Vec<(String, u64)>,
}

impl View for ServerManifest {
    type V = Seq<(Seq<char>, u64)>;

    closed spec fn view(&self) -> Seq<(Seq<char>, u64)> {
        self.entries@.map_values(|e: (String, u64)| (e.0@, e.1))
    }
}

/// A local file is sent when the server has none at its path, or an older one.
pub open spec fn spec_needs_sync(server_time: Option<u64>, local_modified: u64) -> bool {
    match server_time {
        Some(t) => local_modified > t,
        None => true,
    }
}

impl ServerManifest {
    /// A manifest with no files.
    pub fn new() -> (m: Self)
        ensures
            m@ == Seq::<(Seq<char>, u64)>::empty(),
    {
        let m = ServerManifest { entries: Vec::new() };
        assert(m@ =~= Seq::<(Seq<char>, u64)>::empty());
        m
    }

    /// Records the time the server gave for `path`.
    pub fn record(&mut self, path: String, modified: u64)
        ensures
            final(self)@ == old(self)@.push((path@, modified)),
    {
        let ghost p = path@;
        self.entries.push((path, modified));
        assert(self@ =~= old(self)@.push((p, modified)));
    }

    /// The time recorded last for `path`.
    pub fn get(&self, path: &str) -> (t: Option<u64>)
        ensures
            t == manifest_lookup(self@, path@),
    {
        let ghost v = self@;
        let wanted = String::from_str(path);
        let mut i = self.entries.len();
        assert(v.len() == self.entries@.len());
        assert(v.take(i as int) =~= v);
        while i > 0
            invariant
                i <= self.entries@.len(),
                v == self@,
                wanted@ == path@,
                manifest_lookup(v, path@) == manifest_lookup(v.take(i as int), path@),
            decreases i,
        {
            let e = &self.entries[i - 1];
            assert(v.take(i as int).drop_last() =~= v.take(i - 1));
            assert(v.take(i as int).last() == (e.0@, e.1));
            if e.0 == wanted {
                return Some(e.1);
            }
            i -= 1;
        }
        assert(v.take(0) =~= Seq::<(Seq<char>, u64)>::empty());
        None
    }

    /// Whether a local file modified at `local_modified` must be sent.
    pub fn needs_sync(&self, path: &str, local_modified: u64) -> (b: bool)
        ensures
            b == spec_needs_sync(manifest_lookup(self@, path@), local_modified),
    {
        match self.get(path) {
            Some(t) => local_modified > t,
            None => true,
        }
    }
}

/// The local files as plain values: path and modification time.
pub open spec fn file_times(files: Seq<(String, u64)>) -> Seq<(Seq<char>, u64)> {
    files.map_values(|f: (String, u64)| (f.0@, f.1))
}

/// The positions of the files that sync sends, in order: those the server
/// lacks or holds with an older modification time.
pub open spec fn changed_positions(entries: Seq<(Seq<char>, u64)>, files: Seq<(Seq<char>, u64)>) -> Seq<usize>
    decreases files.len(),
{
    if files.len() == 0 {
        Seq::empty()
    } else {
        let pre = changed_positions(entries, files.drop_last());
        if spec_needs_sync(manifest_lookup(entries, files.last().0), files.last().1) {
            pre.push((files.len() - 1) as usize)
        } else {
            pre
        }
    }
}

impl ServerManifest {
    /// Of the local files (each a path and its modification time), the
    /// positions of those that need syncing, in order.
    pub fn changed_files(&self, files: &[(String, u64)]) -> (r: Vec<usize>)
        ensures
            r@ == changed_positions(self@, file_times(files@)),
    {
        let ghost fv = file_times(files@);
        let mut r: Vec<usize> = Vec::new();
        let mut i: usize = 0;
        while i < files.len()
            invariant
                i <= files@.len(),
                fv == file_times(files@),
                r@ == changed_positions(self@, fv.take(i as int)),
            decreases files@.len() - i,
        {
            assert(fv.take(i + 1).drop_last() =~= fv.take(i as int));
            assert(fv.take(i + 1).last() == (files@[i as int].0@, files@[i as int].1));
            if self.needs_sync(files[i].0.as_str(), files[i].1) {
                r.push(i);
            }
            i += 1;
        }
        assert(fv.take(files@.len() as int) =~= fv);
        r
    }
}

/// Law: a lookup after a record gives the recorded time for that path and
/// leaves the other paths as they were.
pub proof fn lemma_lookup_after_record(entries: Seq<(Seq<char>, u64)>, path: Seq<char>, modified: u64, other: Seq<char>)
    ensures
        manifest_lookup(entries.push((path, modified)), path) == Some(modified),
        other != path ==> manifest_lookup(entries.push((path, modified)), other) == manifest_lookup(entries, other),
{
    assert(entries.push((path, modified)).drop_last() =~= entries);
}

// ---------------------------------------------------------------------------
// Law: the server reads back what the client sends

/// An argument that survives the trimming of a request line: non-empty,
/// without whitespace at either end.
pub open spec fn clean_argument(a: Seq<char>) -> bool {
    a.len() > 0 && !is_whitespace(a[0]) && !is_whitespace(a.last())
}

/// A command whose line the server reads back as sent: directory and folder
/// names are clean arguments, and file paths hold no space.
pub open spec fn command_well_formed(c: CommandView) -> bool {
    match c {
        CommandView::PushDir(d) => clean_argument(d),
        CommandView::File { path, len } => forall|j: int| 0 <= j < path.len() ==> path[j] != ' ',
        CommandView::Check(d) => clean_argument(d),
        CommandView::SyncDir(d) => clean_argument(d),
        CommandView::Pull(f) => clean_argument(f),
        _ => true,
    }
}

/// The request a command stands for.
pub open spec fn request_of(c: CommandView) -> RequestView {
    match c {
        CommandView::PushDir(d) => RequestView::PushDir(d),
        CommandView::File { path, len } => RequestView::File(FileLineView::Entry { path, len }),
        CommandView::EndPush => RequestView::EndPush,
        CommandView::List => RequestView::List,
        CommandView::Check(d) => RequestView::Check(d),
        CommandView::SyncDir(d) => RequestView::SyncDir(d),
        CommandView::EndSync => RequestView::EndSync,
        CommandView::Pull(f) => RequestView::Pull(f),
    }
}

proof fn lemma_differs(t: Seq<char>, lit: Seq<char>, i: int)
    requires
        0 <= i < t.len(),
        0 <= i < lit.len(),
        t[i] != lit[i],
    ensures
        !starts_with(t, lit),
        t != lit,
{
    if starts_with(t, lit) {
        assert(t.take(lit.len() as int)[i] == t[i]);
    }
}

proof fn lemma_prefixed_argument(prefix: Seq<char>, d: Seq<char>)
    requires
        prefix.len() > 0,
        !is_whitespace(prefix[0]),
        clean_argument(d),
    ensures
        trim(prefix + d + "\n"@) == prefix + d,
        starts_with(prefix + d, prefix),
        trim((prefix + d).skip(prefix.len() as int)) == d,
{
    let body = prefix + d;
    assert(body[0] == prefix[0]);
    assert(body.last() == d.last());
    lemma_trim_line(body);
    assert(body.take(prefix.len() as int) =~= prefix);
    assert(body.skip(prefix.len() as int) =~= d);
    lemma_trim_unchanged(d);
}

/// Law: the server reads a well-formed command line as the request that the
/// client sent.
pub proof fn lemma_parse_encoded(c: CommandView)
    requires
        command_well_formed(c),
    ensures
        spec_parse_request(spec_encode(c)) == request_of(c),
{
    reveal_strlit("PUSH_DIR ");
    reveal_strlit("FILE ");
    reveal_strlit("END_PUSH");
    reveal_strlit("LIST");
    reveal_strlit("CHECK ");
    reveal_strlit("SYNC_DIR ");
    reveal_strlit("END_SYNC");
    reveal_strlit("PULL ");
    reveal_strlit("END_PUSH\n");
    reveal_strlit("LIST\n");
    reveal_strlit("END_SYNC\n");
    reveal_strlit("\n");
    reveal_strlit(" ");
    match c {
        CommandView::PushDir(d) => {
            lemma_prefixed_argument("PUSH_DIR "@, d);
        },
        CommandView::File { path, len } => {
            let dec = decimal(len as nat);
            lemma_decimal_all_digits(len as nat);
            lemma_parse_decimal(len as nat);
            let body = "FILE "@ + path + " "@ + dec;
            assert(spec_encode(c) =~= body + "\n"@);
            assert(body[0] == 'F');
            assert(body.last() == dec.last());
            assert(is_digit(dec[dec.len() - 1]));
            lemma_trim_line(body);
            lemma_differs(body, "PUSH_DIR "@, 0);
            assert(body.take(5) =~= "FILE "@);
            let rest = body.skip(5);
            assert(rest =~= path + " "@ + dec);
            assert(rest[path.len() as int] == ' ');
            lemma_find_char_at(rest, ' ', path.len() as int);
            assert(rest.take(path.len() as int) =~= path);
            assert(rest.skip(path.len() + 1 as int) =~= dec);
        },
        CommandView::EndPush => {
            let t = "END_PUSH"@;
            assert("END_PUSH\n"@ =~= t + "\n"@);
            lemma_trim_line(t);
            lemma_differs(t, "PUSH_DIR "@, 0);
            lemma_differs(t, "FILE "@, 0);
        },
        CommandView::List => {
            let t = "LIST"@;
            assert("LIST\n"@ =~= t + "\n"@);
            lemma_trim_line(t);
            lemma_differs(t, "PUSH_DIR "@, 0);
            lemma_differs(t, "FILE "@, 0);
            lemma_differs(t, "END_PUSH"@, 0);
        },
        CommandView::Check(d) => {
            lemma_prefixed_argument("CHECK "@, d);
            let t = "CHECK "@ + d;
            assert(t[0] == 'C');
            lemma_differs(t, "PUSH_DIR "@, 0);
            lemma_differs(t, "FILE "@, 0);
            lemma_differs(t, "END_PUSH"@, 0);
            lemma_differs(t, "LIST"@, 0);
        },
        CommandView::SyncDir(d) => {
            lemma_prefixed_argument("SYNC_DIR "@, d);
            let t = "SYNC_DIR "@ + d;
            assert(t[0] == 'S');
            lemma_differs(t, "PUSH_DIR "@, 0);
            lemma_differs(t, "FILE "@, 0);
            lemma_differs(t, "END_PUSH"@, 0);
            lemma_differs(t, "LIST"@, 0);
            lemma_differs(t, "CHECK "@, 0);
        },
        CommandView::EndSync => {
            let t = "END_SYNC"@;
            assert("END_SYNC\n"@ =~= t + "\n"@);
            lemma_trim_line(t);
            lemma_differs(t, "PUSH_DIR "@, 0);
            lemma_differs(t, "FILE "@, 0);
            lemma_differs(t, "END_PUSH"@, 4);
            lemma_differs(t, "LIST"@, 0);
            lemma_differs(t, "CHECK "@, 0);
            lemma_differs(t, "SYNC_DIR "@, 0);
        },
        CommandView::Pull(f) => {
            lemma_prefixed_argument("PULL "@, f);
            let t = "PULL "@ + f;
            assert(t[0] == 'P' && t[1] == 'U' && t[2] == 'L');
            lemma_differs(t, "PUSH_DIR "@, 2);
            lemma_differs(t, "FILE "@, 0);
            lemma_differs(t, "END_PUSH"@, 0);
            lemma_differs(t, "LIST"@, 0);
            lemma_differs(t, "CHECK "@, 0);
            lemma_differs(t, "SYNC_DIR "@, 0);
            lemma_differs(t, "END_SYNC"@, 0);
        },
    }
}


/// Law: the client reads the folder names the server lists as they were
/// sent, wherever a name is a clean argument other than `END_LIST`, and the
/// end marker as the end.
pub proof fn lemma_list_reply(name: Seq<char>)
    requires
        clean_argument(name),
        name != "END_LIST"@,
    ensures
        spec_list_line(spec_encode_reply(ReplyView::Folder(name))) == ListLineView::Folder(name),
        spec_list_line(spec_encode_reply(ReplyView::EndList)) == ListLineView::End,
{
    reveal_strlit("END_LIST");
    reveal_strlit("END_LIST\n");
    reveal_strlit("\n");
    lemma_trim_line(name);
    assert("END_LIST\n"@ =~= "END_LIST"@ + "\n"@);
    lemma_trim_line("END_LIST"@);
}

/// Law: the client reads a file entry of the server's answer to `CHECK` as it
/// was sent, wherever the path is non-empty, starts with no whitespace and
/// holds no space; and the end marker as the end.
pub proof fn lemma_check_reply(path: Seq<char>, modified: u64)
    requires
        path.len() > 0,
        !is_whitespace(path[0]),
        forall|j: int| 0 <= j < path.len() ==> path[j] != ' ',
    ensures
        spec_check_line(spec_encode_reply(ReplyView::CheckEntry { path, modified }))
            == (CheckLineView::Entry { path, modified }),
        spec_check_line(spec_encode_reply(ReplyView::EndCheck)) == CheckLineView::End,
{
    reveal_strlit("END_CHECK");
    reveal_strlit("END_CHECK\n");
    reveal_strlit("\n");
    reveal_strlit(" ");
    let dec = decimal(modified as nat);
    lemma_decimal_all_digits(modified as nat);
    lemma_parse_decimal(modified as nat);
    let body = path + " "@ + dec;
    assert(spec_encode_reply(ReplyView::CheckEntry { path, modified }) =~= body + "\n"@);
    assert(body[0] == path[0]);
    assert(body.last() == dec.last());
    assert(is_digit(dec[dec.len() - 1]));
    lemma_trim_line(body);
    assert(body[path.len() as int] == ' ');
    if body == "END_CHECK"@ {
        assert("END_CHECK"@[path.len() as int] == ' ');
    }
    lemma_find_char_at(body, ' ', path.len() as int);
    assert(body.take(path.len() as int) =~= path);
    assert(body.skip(path.len() + 1 as int) =~= dec);
    assert("END_CHECK\n"@ =~= "END_CHECK"@ + "\n"@);
    lemma_trim_line("END_CHECK"@);
}

/// Law: the client reads a file header that the server sends in its answer to
/// `PULL` as it was sent, wherever the path holds no space; and the end
/// marker as the end.
pub proof fn lemma_pull_reply(path: Seq<char>, len: usize)
    requires
        forall|j: int| 0 <= j < path.len() ==> path[j] != ' ',
    ensures
        spec_pull_line(spec_file_header(path, len)) == PullLineView::File(FileLineView::Entry { path, len }),
        spec_pull_line(spec_encode_reply(ReplyView::EndPull)) == PullLineView::End,
{
    lemma_parse_encoded(CommandView::File { path, len });
    reveal_strlit("FILE ");
    reveal_strlit("END_PULL");
    reveal_strlit("END_PULL\n");
    reveal_strlit("\n");
    assert("END_PULL\n"@ =~= "END_PULL"@ + "\n"@);
    lemma_trim_line("END_PULL"@);
    lemma_differs("END_PULL"@, "FILE "@, 0);
}

} // verus!
