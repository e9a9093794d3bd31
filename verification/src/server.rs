//! The server's handling of one connection: a state machine that reads
//! request lines and says what to do with each. The server itself performs
//! the actions (creating directories, reading and writing files, listing).

use vstd::prelude::*;
use crate::protocol::{
    command_well_formed, lemma_parse_encoded, parse_request, request_of, spec_encode, spec_parse_request,
    CommandView, FileLine, FileLineView, Request, RequestView,
};

verus! {

/// Why the server closes a connection.
pub enum ProtocolError {
    PushDirDuringTransfer,
    MissingPushDirName,
    FileOutsideTransfer,
    /// A `FILE` line without a space between path and length.
    MalformedFile,
    /// A `FILE` line whose length is not a number; holds the length text.
    InvalidLength(String),
    EndPushOutsideTransfer,
    ListDuringTransfer,
    CheckDuringTransfer,
    MissingCheckName,
    SyncDirDuringTransfer,
    MissingSyncDirName,
    EndSyncOutsideTransfer,
    PullDuringTransfer,
    MissingPullName,
    /// A line that is no command, or comes out of sequence; holds the line.
    Unrecognized(String),
}

/// A protocol error as plain values.
pub enum ProtocolErrorView {
    PushDirDuringTransfer,
    MissingPushDirName,
    FileOutsideTransfer,
    MalformedFile,
    InvalidLength(Seq<char>),
    EndPushOutsideTransfer,
    ListDuringTransfer,
    CheckDuringTransfer,
    MissingCheckName,
    SyncDirDuringTransfer,
    MissingSyncDirName,
    EndSyncOutsideTransfer,
    PullDuringTransfer,
    MissingPullName,
    Unrecognized(Seq<char>),
}

impl View for ProtocolError {
    type V = ProtocolErrorView;

    open spec fn view(&self) -> ProtocolErrorView {
        match self {
            ProtocolError::PushDirDuringTransfer => ProtocolErrorView::PushDirDuringTransfer,
            ProtocolError::MissingPushDirName => ProtocolErrorView::MissingPushDirName,
            ProtocolError::FileOutsideTransfer => ProtocolErrorView::FileOutsideTransfer,
            ProtocolError::MalformedFile => ProtocolErrorView::MalformedFile,
            ProtocolError::InvalidLength(t) => ProtocolErrorView::InvalidLength(t@),
            ProtocolError::EndPushOutsideTransfer => ProtocolErrorView::EndPushOutsideTransfer,
            ProtocolError::ListDuringTransfer => ProtocolErrorView::ListDuringTransfer,
            ProtocolError::CheckDuringTransfer => ProtocolErrorView::CheckDuringTransfer,
            ProtocolError::MissingCheckName => ProtocolErrorView::MissingCheckName,
            ProtocolError::SyncDirDuringTransfer => ProtocolErrorView::SyncDirDuringTransfer,
            ProtocolError::MissingSyncDirName => ProtocolErrorView::MissingSyncDirName,
            ProtocolError::EndSyncOutsideTransfer => ProtocolErrorView::EndSyncOutsideTransfer,
            ProtocolError::PullDuringTransfer => ProtocolErrorView::PullDuringTransfer,
            ProtocolError::MissingPullName => ProtocolErrorView::MissingPullName,
            ProtocolError::Unrecognized(t) => ProtocolErrorView::Unrecognized(t@),
        }
    }
}

/// What the server does after reading a line.
pub enum ServerAction {
    /// Nothing; read the next line.
    Continue,
    /// Close the connection.
    Close(ProtocolError),
    /// Create the storage directory for `dir` (closing the connection where
    /// that fails); files follow.
    OpenDirectory(String),
    /// Read `len` bytes and store them at `path` within the open directory.
    ReceiveFile { path: String, len: usize },
    /// The transfer is complete; close the connection.
    Finish,
    /// Send the stored folders, then close.
    ListFolders,
    /// Send the files of a stored folder with their times, then close.
    CheckFolder(String),
    /// Send the files of a stored folder, then close.
    PullFolder(String),
}

/// A server action as plain values.
pub enum ServerActionView {
    Continue,
    Close(ProtocolErrorView),
    OpenDirectory(Seq<char>),
    ReceiveFile { path: Seq<char>, len: usize },
    Finish,
    ListFolders,
    CheckFolder(Seq<char>),
    PullFolder(Seq<char>),
}

impl View for ServerAction {
    type V = ServerActionView;

    open spec fn view(&self) -> ServerActionView {
        match self {
            ServerAction::Continue => ServerActionView::Continue,
            ServerAction::Close(e) => ServerActionView::Close(e@),
            ServerAction::OpenDirectory(d) => ServerActionView::OpenDirectory(d@),
            ServerAction::ReceiveFile { path, len } => ServerActionView::ReceiveFile { path: path@, len: *len },
            ServerAction::Finish => ServerActionView::Finish,
            ServerAction::ListFolders => ServerActionView::ListFolders,
            ServerAction::CheckFolder(f) => ServerActionView::CheckFolder(f@),
            ServerAction::PullFolder(f) => ServerActionView::PullFolder(f@),
        }
    }
}

/// The state of a connection: the directory being received, if any.
pub struct ServerSession {
    transfer_dir: Option<String>,
}

impl View for ServerSession {
    type V = Option<Seq<char>>;

    closed spec fn view(&self) -> Option<Seq<char>> {
        match self.transfer_dir {
            Some(d) => Some(d@),
            None => None,
        }
    }
}

/// The answer to a request in a state: the next state and the action. A
/// transfer (`PUSH_DIR` or `SYNC_DIR`) admits only `FILE` lines and its end;
/// outside a transfer, `FILE` and the end markers are refused.
pub open spec fn spec_respond(state: Option<Seq<char>>, req: RequestView) -> (Option<Seq<char>>, ServerActionView) {
    let busy = state is Some;
    match req {
        RequestView::PushDir(d) => if busy {
            (state, ServerActionView::Close(ProtocolErrorView::PushDirDuringTransfer))
        } else if d.len() == 0 {
            (state, ServerActionView::Close(ProtocolErrorView::MissingPushDirName))
        } else {
            (Some(d), ServerActionView::OpenDirectory(d))
        },
        RequestView::File(f) => if !busy {
            (state, ServerActionView::Close(ProtocolErrorView::FileOutsideTransfer))
        } else {
            match f {
                FileLineView::Entry { path, len } => (state, ServerActionView::ReceiveFile { path, len }),
                FileLineView::Malformed => (state, ServerActionView::Close(ProtocolErrorView::MalformedFile)),
                FileLineView::BadLength(t) => (state, ServerActionView::Close(ProtocolErrorView::InvalidLength(t))),
            }
        },
        RequestView::EndPush => if busy {
            (state, ServerActionView::Finish)
        } else {
            (state, ServerActionView::Close(ProtocolErrorView::EndPushOutsideTransfer))
        },
        RequestView::List => if busy {
            (state, ServerActionView::Close(ProtocolErrorView::ListDuringTransfer))
        } else {
            (state, ServerActionView::ListFolders)
        },
        RequestView::Check(d) => if busy {
            (state, ServerActionView::Close(ProtocolErrorView::CheckDuringTransfer))
        } else if d.len() == 0 {
            (state, ServerActionView::Close(ProtocolErrorView::MissingCheckName))
        } else {
            (state, ServerActionView::CheckFolder(d))
        },
        RequestView::SyncDir(d) => if busy {
            (state, ServerActionView::Close(ProtocolErrorView::SyncDirDuringTransfer))
        } else if d.len() == 0 {
            (state, ServerActionView::Close(ProtocolErrorView::MissingSyncDirName))
        } else {
            (Some(d), ServerActionView::OpenDirectory(d))
        },
        RequestView::EndSync => if busy {
            (state, ServerActionView::Finish)
        } else {
            (state, ServerActionView::Close(ProtocolErrorView::EndSyncOutsideTransfer))
        },
        RequestView::Pull(f) => if busy {
            (state, ServerActionView::Close(ProtocolErrorView::PullDuringTransfer))
        } else if f.len() == 0 {
            (state, ServerActionView::Close(ProtocolErrorView::MissingPullName))
        } else {
            (state, ServerActionView::PullFolder(f))
        },
        RequestView::Unrecognized(t) => (state, ServerActionView::Close(ProtocolErrorView::Unrecognized(t))),
        RequestView::Blank => (state, ServerActionView::Continue),
    }
}

/// Reading one line in a state.
pub open spec fn spec_step(state: Option<Seq<char>>, line: Seq<char>) -> (Option<Seq<char>>, ServerActionView) {
    spec_respond(state, spec_parse_request(line))
}

impl ServerSession {
    /// A new connection: no transfer under way.
    pub fn new() -> (s: Self)
        ensures
            s@ is None,
    {
        ServerSession { transfer_dir: None }
    }

    /// Whether a directory is being received.
    pub fn in_transfer(&self) -> (b: bool)
        ensures
            b == self@ is Some,
    {
        self.transfer_dir.is_some()
    }

    /// Reads a request line and says what to do.
    pub fn step(&mut self, line: &str) -> (action: ServerAction)
        ensures
            (final(self)@, action@) == spec_step(old(self)@, line@),
    {
        let req = parse_request(line);
        self.respond(req)
    }

    /// Answers a request.
    pub fn respond(&mut self, req: Request) -> (action: ServerAction)
        ensures
            (final(self)@, action@) == spec_respond(old(self)@, req@),
    {
        let busy = self.transfer_dir.is_some();
        match req {
            Request::PushDir(d) => {
                if busy {
                    ServerAction::Close(ProtocolError::PushDirDuringTransfer)
                } else if d.as_str().is_empty() {
                    ServerAction::Close(ProtocolError::MissingPushDirName)
                } else {
                    self.transfer_dir = Some(d.clone());
                    ServerAction::OpenDirectory(d)
                }
            },
            Request::File(f) => {
                if !busy {
                    ServerAction::Close(ProtocolError::FileOutsideTransfer)
                } else {
                    match f {
                        FileLine::Entry { path, len } => ServerAction::ReceiveFile { path, len },
                        FileLine::Malformed => ServerAction::Close(ProtocolError::MalformedFile),
                        FileLine::BadLength(t) => ServerAction::Close(ProtocolError::InvalidLength(t)),
                    }
                }
            },
            Request::EndPush => {
                if busy {
                    ServerAction::Finish
                } else {
                    ServerAction::Close(ProtocolError::EndPushOutsideTransfer)
                }
            },
            Request::List => {
                if busy {
                    ServerAction::Close(ProtocolError::ListDuringTransfer)
                } else {
                    ServerAction::ListFolders
                }
            },
            Request::Check(d) => {
                if busy {
                    ServerAction::Close(ProtocolError::CheckDuringTransfer)
                } else if d.as_str().is_empty() {
                    ServerAction::Close(ProtocolError::MissingCheckName)
                } else {
                    ServerAction::CheckFolder(d)
                }
            },
            Request::SyncDir(d) => {
                if busy {
                    ServerAction::Close(ProtocolError::SyncDirDuringTransfer)
                } else if d.as_str().is_empty() {
                    ServerAction::Close(ProtocolError::MissingSyncDirName)
                } else {
                    self.transfer_dir = Some(d.clone());
                    ServerAction::OpenDirectory(d)
                }
            },
            Request::EndSync => {
                if busy {
                    ServerAction::Finish
                } else {
                    ServerAction::Close(ProtocolError::EndSyncOutsideTransfer)
                }
            },
            Request::Pull(f) => {
                if busy {
                    ServerAction::Close(ProtocolError::PullDuringTransfer)
                } else if f.as_str().is_empty() {
                    ServerAction::Close(ProtocolError::MissingPullName)
                } else {
                    ServerAction::PullFolder(f)
                }
            },
            Request::Unrecognized(t) => ServerAction::Close(ProtocolError::Unrecognized(t)),
            Request::Blank => ServerAction::Continue,
        }
    }
}


/// Reading the lines one after the other: the final state and the actions.
pub open spec fn spec_run(state: Option<Seq<char>>, lines: Seq<Seq<char>>) -> (Option<Seq<char>>, Seq<ServerActionView>)
    decreases lines.len(),
{
    if lines.len() == 0 {
        (state, Seq::empty())
    } else {
        let (s1, actions) = spec_run(state, lines.drop_last());
        let (s2, a) = spec_step(s1, lines.last());
        (s2, actions.push(a))
    }
}

/// A file of a transfer: its path (without spaces) and its length.
pub open spec fn file_path_ok(f: (Seq<char>, usize)) -> bool {
    forall|j: int| 0 <= j < f.0.len() ==> f.0[j] != ' '
}

/// The header lines that announce `files`.
pub open spec fn file_lines(files: Seq<(Seq<char>, usize)>) -> Seq<Seq<char>> {
    files.map_values(|f: (Seq<char>, usize)| spec_encode(CommandView::File { path: f.0, len: f.1 }))
}

/// The actions that receive `files`.
pub open spec fn receive_actions(files: Seq<(Seq<char>, usize)>) -> Seq<ServerActionView> {
    files.map_values(|f: (Seq<char>, usize)| ServerActionView::ReceiveFile { path: f.0, len: f.1 })
}

proof fn lemma_run_files(d: Seq<char>, files: Seq<(Seq<char>, usize)>)
    requires
        forall|k: int| 0 <= k < files.len() ==> file_path_ok(#[trigger] files[k]),
    ensures
        spec_run(Some(d), file_lines(files)) == (Some(d), receive_actions(files)),
    decreases files.len(),
{
    if files.len() == 0 {
        assert(file_lines(files) =~= Seq::<Seq<char>>::empty());
        assert(receive_actions(files) =~= Seq::<ServerActionView>::empty());
    } else {
        let pre = files.drop_last();
        lemma_run_files(d, pre);
        assert(file_lines(files).drop_last() =~= file_lines(pre));
        let f = files.last();
        assert(file_path_ok(files[files.len() - 1]));
        lemma_parse_encoded(CommandView::File { path: f.0, len: f.1 });
        assert(receive_actions(files) =~= receive_actions(pre).push(ServerActionView::ReceiveFile { path: f.0, len: f.1 }));
    }
}

/// Law: a connection that receives a client's push — `PUSH_DIR` with a clean
/// directory name, a `FILE` line for each file (paths without spaces), and
/// `END_PUSH` — opens the directory, receives each file in turn and
/// finishes. With `SYNC_DIR` and `END_SYNC` in place of `PUSH_DIR` and
/// `END_PUSH` it goes the same way.
pub proof fn lemma_transfer_session(d: Seq<char>, files: Seq<(Seq<char>, usize)>, sync: bool)
    requires
        command_well_formed(CommandView::PushDir(d)),
        forall|k: int| 0 <= k < files.len() ==> file_path_ok(#[trigger] files[k]),
    ensures
        ({
            let open = if sync { CommandView::SyncDir(d) } else { CommandView::PushDir(d) };
            let end = if sync { CommandView::EndSync } else { CommandView::EndPush };
            spec_run(None, seq![spec_encode(open)] + file_lines(files) + seq![spec_encode(end)]).1
                == seq![ServerActionView::OpenDirectory(d)] + receive_actions(files) + seq![ServerActionView::Finish]
        }),
{
    let open = if sync { CommandView::SyncDir(d) } else { CommandView::PushDir(d) };
    let end = if sync { CommandView::EndSync } else { CommandView::EndPush };
    lemma_parse_encoded(open);
    lemma_parse_encoded(end);
    lemma_run_files(d, files);
    let lines = seq![spec_encode(open)] + file_lines(files) + seq![spec_encode(end)];
    let n = files.len();
    lemma_run_prefix(d, files, open, end, n as int);
    assert(lines.drop_last() =~= lines.take(n + 1 as int));
    assert(files.take(n as int) =~= files);
    assert(lines.last() == spec_encode(end));
    let (s1, acts) = spec_run(None, lines.drop_last());
    assert(s1 == Some(d));
    assert(spec_step(s1, lines.last()) == (Some(d), ServerActionView::Finish));
    assert(acts.push(ServerActionView::Finish)
        =~= seq![ServerActionView::OpenDirectory(d)] + receive_actions(files) + seq![ServerActionView::Finish]);
}

/// Law: only an accepted `PUSH_DIR` or `SYNC_DIR` changes the session: it
/// opens a transfer where none was open. Every other request, a refused one
/// included, leaves the session as it was.
pub proof fn lemma_only_open_changes_state(state: Option<Seq<char>>, req: RequestView)
    ensures
        ({
            let (next, action) = spec_respond(state, req);
            next != state ==> state is None && action is OpenDirectory && next == Some(action->OpenDirectory_0)
                && (req is PushDir || req is SyncDir)
        }),
        spec_respond(state, req).1 is Close ==> spec_respond(state, req).0 == state,
{
}

proof fn lemma_run_prefix(d: Seq<char>, files: Seq<(Seq<char>, usize)>, open: CommandView, end: CommandView, k: int)
    requires
        0 <= k <= files.len(),
        spec_parse_request(spec_encode(open)) == request_of(open),
        open == CommandView::PushDir(d) || open == CommandView::SyncDir(d),
        d.len() > 0,
        forall|k: int| 0 <= k < files.len() ==> file_path_ok(#[trigger] files[k]),
    ensures
        spec_run(None, (seq![spec_encode(open)] + file_lines(files) + seq![spec_encode(end)]).take(k + 1))
            == (Some(d), seq![ServerActionView::OpenDirectory(d)] + receive_actions(files.take(k))),
    decreases k,
{
    let lines = seq![spec_encode(open)] + file_lines(files) + seq![spec_encode(end)];
    if k == 0 {
        assert(lines.take(1).drop_last() =~= Seq::<Seq<char>>::empty());
        assert(lines.take(1).last() == spec_encode(open));
        assert(spec_run(None, Seq::<Seq<char>>::empty()) == (None::<Seq<char>>, Seq::<ServerActionView>::empty()));
        assert(spec_step(None, spec_encode(open)) == (Some(d), ServerActionView::OpenDirectory(d)));
        assert(receive_actions(files.take(0)) =~= Seq::<ServerActionView>::empty());
        assert(Seq::<ServerActionView>::empty().push(ServerActionView::OpenDirectory(d))
            =~= seq![ServerActionView::OpenDirectory(d)] + receive_actions(files.take(0)));
    } else {
        lemma_run_prefix(d, files, open, end, k - 1);
        assert(lines.take(k + 1).drop_last() =~= lines.take(k));
        let f = files[k - 1];
        assert(lines.take(k + 1).last() == spec_encode(CommandView::File { path: f.0, len: f.1 }));
        assert(file_path_ok(files[k - 1]));
        lemma_parse_encoded(CommandView::File { path: f.0, len: f.1 });
        assert(spec_step(Some(d), lines.take(k + 1).last()) == (Some(d), ServerActionView::ReceiveFile { path: f.0, len: f.1 }));
        assert(receive_actions(files.take(k)) =~= receive_actions(files.take(k - 1)).push(ServerActionView::ReceiveFile { path: f.0, len: f.1 }));
        assert((seq![ServerActionView::OpenDirectory(d)] + receive_actions(files.take(k - 1))).push(ServerActionView::ReceiveFile { path: f.0, len: f.1 })
            =~= seq![ServerActionView::OpenDirectory(d)] + receive_actions(files.take(k)));
    }
}

} // verus!
