//! The simple transfer protocol: a client opens a session for a directory
//! (`START_SESSION <dir>`), sends each file as `NEW_FILE <path> <size>`
//! followed by its bytes, and closes the session (`END_SESSION`). Commands
//! are whitespace-separated words; lines the server does not understand are
//! ignored.

use vstd::prelude::*;
use vstd::slice::slice_subrange;
use crate::text::{
    chars_of, decimal, is_digit, is_whitespace, join_with, lemma_decimal_all_digits, lemma_parse_decimal,
    lemma_trim_line, lemma_words_joined, parse_u64, parse_u64_spec, push_decimal, push_str, range_equals,
    string_from_chars, trim, trim_range, word_ranges, words,
};

verus! {

/// A command of the simple transfer protocol.
pub enum TransferCommand {
    StartSession(String),
    NewFile { path: String, size: u64 },
    EndSession,
}

/// A transfer command as plain values.
pub enum TransferCommandView {
    StartSession(Seq<char>),
    NewFile { path: Seq<char>, size: u64 },
    EndSession,
}

impl View for TransferCommand {
    type V = TransferCommandView;

    open spec fn view(&self) -> TransferCommandView {
        match self {
            TransferCommand::StartSession(d) => TransferCommandView::StartSession(d@),
            TransferCommand::NewFile { path, size } => TransferCommandView::NewFile { path: path@, size: *size },
            TransferCommand::EndSession => TransferCommandView::EndSession,
        }
    }
}

/// The line a command is sent as, newline included.
pub open spec fn spec_encode_transfer(c: TransferCommandView) -> Seq<char> {
    match c {
        TransferCommandView::StartSession(d) => "START_SESSION "@ + d + "\n"@,
        TransferCommandView::NewFile { path, size } => "NEW_FILE "@ + path + " "@ + decimal(size as nat) + "\n"@,
        TransferCommandView::EndSession => "END_SESSION\n"@,
    }
}

impl TransferCommand {
    /// The line the command is sent as.
    pub fn encode(&self) -> (line: String)
        ensures
            line@ == spec_encode_transfer(self@),
    {
        let mut out: Vec<char> = Vec::new();
        match self {
            TransferCommand::StartSession(d) => {
                push_str(&mut out, "START_SESSION ");
                push_str(&mut out, d.as_str());
                push_str(&mut out, "\n");
            },
            TransferCommand::NewFile { path, size } => {
                push_str(&mut out, "NEW_FILE ");
                push_str(&mut out, path.as_str());
                push_str(&mut out, " ");
                push_decimal(&mut out, *size);
                push_str(&mut out, "\n");
            },
            TransferCommand::EndSession => {
                push_str(&mut out, "END_SESSION\n");
            },
        }
        assert(out@ =~= spec_encode_transfer(self@));
        string_from_chars(out.as_slice())
    }
}

/// What the server does with a line.
pub enum TransferAction {
    /// Nothing.
    Ignore,
    /// Create the session directory `dir` and make it current.
    StartSession(String),
    /// Read `size` bytes and store them at `path` within `dir`.
    ReceiveFile { dir: String, path: String, size: u64 },
    /// No session is current any more.
    EndSession,
}

/// A transfer action as plain values.
pub enum TransferActionView {
    Ignore,
    StartSession(Seq<char>),
    ReceiveFile { dir: Seq<char>, path: Seq<char>, size: u64 },
    EndSession,
}

impl View for TransferAction {
    type V = TransferActionView;

    open spec fn view(&self) -> TransferActionView {
        match self {
            TransferAction::Ignore => TransferActionView::Ignore,
            TransferAction::StartSession(d) => TransferActionView::StartSession(d@),
            TransferAction::ReceiveFile { dir, path, size } => TransferActionView::ReceiveFile {
                dir: dir@,
                path: path@,
                size: *size,
            },
            TransferAction::EndSession => TransferActionView::EndSession,
        }
    }
}

/// The answer to a line in a state (the current session directory, if any):
/// the line is trimmed and cut into words; `START_SESSION` needs a second
/// word, `NEW_FILE` a current session and a third word that is a number.
pub open spec fn spec_transfer_step(state: Option<Seq<char>>, line: Seq<char>) -> (Option<Seq<char>>, TransferActionView) {
    let ws = words(trim(line));
    if ws.len() == 0 {
        (state, TransferActionView::Ignore)
    } else if ws[0] == "START_SESSION"@ {
        if ws.len() > 1 {
            (Some(ws[1]), TransferActionView::StartSession(ws[1]))
        } else {
            (state, TransferActionView::Ignore)
        }
    } else if ws[0] == "NEW_FILE"@ {
        match state {
            Some(dir) => if ws.len() > 2 {
                match parse_u64_spec(ws[2]) {
                    Some(size) => (state, TransferActionView::ReceiveFile { dir, path: ws[1], size }),
                    None => (state, TransferActionView::Ignore),
                }
            } else {
                (state, TransferActionView::Ignore)
            },
            None => (state, TransferActionView::Ignore),
        }
    } else if ws[0] == "END_SESSION"@ {
        (None, TransferActionView::EndSession)
    } else {
        (state, TransferActionView::Ignore)
    }
}

/// The state of a connection of the simple transfer protocol.
pub struct TransferSession {
    session_dir: Option<String>,
}

impl View for TransferSession {
    type V = Option<Seq<char>>;

    closed spec fn view(&self) -> Option<Seq<char>> {
        match self.session_dir {
            Some(d) => Some(d@),
            None => None,
        }
    }
}

impl TransferSession {
    /// A connection with no session open.
    pub fn new() -> (s: Self)
        ensures
            s@ is None,
    {
        TransferSession { session_dir: None }
    }

    /// Reads a line and says what to do.
    pub fn step(&mut self, line: &str) -> (action: TransferAction)
        ensures
            (final(self)@, action@) == spec_transfer_step(old(self)@, line@),
    {
        let cs = chars_of(line);
        let (a, b) = trim_range(cs.as_slice(), 0, cs.len());
        assert(cs@.subrange(0, cs@.len() as int) =~= line@);
        let t = slice_subrange(cs.as_slice(), a, b);
        let ws = word_ranges(t);
        let ghost w = words(trim(line@));
        if ws.len() == 0 {
            return TransferAction::Ignore;
        }
        let (s0, e0) = ws[0];
        if range_equals(t, s0, e0, "START_SESSION") {
            if ws.len() > 1 {
                let (s1, e1) = ws[1];
                let dir = string_from_chars(slice_subrange(t, s1, e1));
                self.session_dir = Some(dir.clone());
                return TransferAction::StartSession(dir);
            }
            return TransferAction::Ignore;
        }
        if range_equals(t, s0, e0, "NEW_FILE") {
            match &self.session_dir {
                Some(dir) => {
                    if ws.len() > 2 {
                        let (s1, e1) = ws[1];
                        let (s2, e2) = ws[2];
                        match parse_u64(t, s2, e2) {
                            Some(size) => {
                                let path = string_from_chars(slice_subrange(t, s1, e1));
                                return TransferAction::ReceiveFile { dir: dir.clone(), path, size };
                            },
                            None => {
                                return TransferAction::Ignore;
                            },
                        }
                    }
                    return TransferAction::Ignore;
                },
                None => {
                    return TransferAction::Ignore;
                },
            }
        }
        if range_equals(t, s0, e0, "END_SESSION") {
            self.session_dir = None;
            return TransferAction::EndSession;
        }
        TransferAction::Ignore
    }
}


/// A word of the protocol: non-empty, without whitespace.
pub open spec fn is_word(w: Seq<char>) -> bool {
    w.len() > 0 && forall|j: int| 0 <= j < w.len() ==> !is_whitespace(w[j])
}

proof fn lemma_line_words(items: Seq<Seq<char>>)
    requires
        items.len() > 0,
        forall|k: int| 0 <= k < items.len() ==> is_word(#[trigger] items[k]),
    ensures
        words(trim(join_with(items, ' ') + "\n"@)) == items,
{
    let j = join_with(items, ' ');
    lemma_join_ends(items);
    lemma_trim_line(j);
    assert forall|k: int, i: int| 0 <= k < items.len() && 0 <= i < items[k].len() implies !is_whitespace(items[k][i]) by {
        assert(is_word(items[k]));
    }
    lemma_words_joined(items);
}

proof fn lemma_join_ends(items: Seq<Seq<char>>)
    requires
        items.len() > 0,
        forall|k: int| 0 <= k < items.len() ==> is_word(#[trigger] items[k]),
    ensures
        join_with(items, ' ').len() > 0,
        !is_whitespace(join_with(items, ' ')[0]),
        !is_whitespace(join_with(items, ' ').last()),
    decreases items.len(),
{
    assert(is_word(items[0]));
    assert(is_word(items[items.len() - 1]));
    if items.len() > 1 {
        lemma_join_ends(items.drop_last());
        let j = join_with(items.drop_last(), ' ');
        assert((j + seq![' '] + items.last())[0] == j[0]);
        assert((j + seq![' '] + items.last()).last() == items.last().last());
    }
}

/// Law: the server reads the commands of a client as they were sent,
/// wherever directory names and paths are words (non-empty, no whitespace):
/// a session starts for the directory in any state; within a session a file
/// header announces the file; the end closes the session.
pub proof fn lemma_transfer_commands(state: Option<Seq<char>>, dir: Seq<char>, path: Seq<char>, size: u64)
    requires
        is_word(dir),
        is_word(path),
    ensures
        spec_transfer_step(state, spec_encode_transfer(TransferCommandView::StartSession(dir)))
            == (Some(dir), TransferActionView::StartSession(dir)),
        spec_transfer_step(Some(dir), spec_encode_transfer(TransferCommandView::NewFile { path, size }))
            == (Some(dir), TransferActionView::ReceiveFile { dir, path, size }),
        spec_transfer_step(state, spec_encode_transfer(TransferCommandView::EndSession))
            == (None::<Seq<char>>, TransferActionView::EndSession),
{
    reveal_strlit("START_SESSION ");
    reveal_strlit("START_SESSION");
    reveal_strlit("NEW_FILE ");
    reveal_strlit("NEW_FILE");
    reveal_strlit("END_SESSION\n");
    reveal_strlit("END_SESSION");
    reveal_strlit(" ");
    reveal_strlit("\n");
    let start_kw = "START_SESSION"@;
    let new_kw = "NEW_FILE"@;
    let end_kw = "END_SESSION"@;
    assert(is_word(start_kw));
    assert(is_word(new_kw));
    assert(is_word(end_kw));

    let s_items = seq![start_kw, dir];
    assert(s_items.drop_last() =~= seq![start_kw]);
    assert(join_with(seq![start_kw], ' ') == start_kw);
    assert(join_with(s_items, ' ') =~= start_kw + seq![' '] + dir);
    assert(spec_encode_transfer(TransferCommandView::StartSession(dir)) =~= join_with(s_items, ' ') + "\n"@);
    lemma_line_words(s_items);

    let dec = decimal(size as nat);
    lemma_decimal_all_digits(size as nat);
    lemma_parse_decimal(size as nat);
    assert forall|j: int| 0 <= j < dec.len() implies !is_whitespace(dec[j]) by {
        assert(is_digit(dec[j]));
    }
    let f_items = seq![new_kw, path, dec];
    assert(f_items.drop_last() =~= seq![new_kw, path]);
    assert(seq![new_kw, path].drop_last() =~= seq![new_kw]);
    assert(join_with(seq![new_kw], ' ') == new_kw);
    assert(join_with(seq![new_kw, path], ' ') =~= new_kw + seq![' '] + path);
    assert(join_with(f_items.drop_last(), ' ') =~= new_kw + seq![' '] + path);
    assert(join_with(f_items, ' ') =~= new_kw + seq![' '] + path + seq![' '] + dec);
    assert(spec_encode_transfer(TransferCommandView::NewFile { path, size }) =~= join_with(f_items, ' ') + "\n"@);
    lemma_line_words(f_items);
    assert(new_kw != start_kw) by {
        assert(new_kw[0] != start_kw[0]);
    }

    let e_items = seq![end_kw];
    assert(join_with(e_items, ' ') =~= end_kw);
    assert(spec_encode_transfer(TransferCommandView::EndSession) =~= join_with(e_items, ' ') + "\n"@);
    lemma_line_words(e_items);
    assert(end_kw != start_kw) by {
        assert(end_kw[0] != start_kw[0]);
    }
    assert(end_kw != new_kw) by {
        assert(end_kw[0] != new_kw[0]);
    }
}

} // verus!
