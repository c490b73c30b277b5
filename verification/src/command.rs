//! The commands that the log records, and their form in bytes.
//!
//! A record is one tag byte followed by the strings of the command: the key
//! and the value for a `Put`, the key alone for a `Remove`.

use vstd::prelude::*;
use crate::encoding::{
    encodable, lemma_parse_text_complete, lemma_parse_text_sound, lemma_text_bytes_len, parse_text,
    put_text, take_text, text_bytes,
};

verus! {

/// One mutation of the store, as the log records it.
#[derive(Debug)]
pub enum Command {
    /// Associates `value` with `key`.
    Put { key: String, value: String },
    /// Removes `key` and its value.
    Remove { key: String },
}

/// What a `Command` stands for in specifications.
pub enum CommandView {
    Put { key: Seq<char>, value: Seq<char> },
    Remove { key: Seq<char> },
}

impl View for Command {
    type V = CommandView;

    open spec fn view(&self) -> CommandView {
        match self {
            Command::Put { key, value } => CommandView::Put { key: key@, value: value@ },
            Command::Remove { key } => CommandView::Remove { key: key@ },
        }
    }
}

/// The tag byte of a `Put` record.
pub const TAG_PUT: u8 = 1;

/// The tag byte of a `Remove` record.
pub const TAG_REMOVE: u8 = 2;

impl CommandView {
    /// The key that the command is about.
    pub open spec fn key(self) -> Seq<char> {
        match self {
            CommandView::Put { key, .. } => key,
            CommandView::Remove { key } => key,
        }
    }

    /// Whether every string of the command is short enough to be written.
    pub open spec fn well_sized(self) -> bool {
        match self {
            CommandView::Put { key, value } => encodable(key) && encodable(value),
            CommandView::Remove { key } => encodable(key),
        }
    }

    /// The bytes of the record that holds the command.
    pub open spec fn bytes(self) -> Seq<u8> {
        match self {
            CommandView::Put { key, value } => seq![TAG_PUT] + text_bytes(key) + text_bytes(value),
            CommandView::Remove { key } => seq![TAG_REMOVE] + text_bytes(key),
        }
    }
}

/// Reads the record that starts at position `at` of `bytes`: the command and
/// the position just behind the record, or `None` where no well-formed record
/// starts there.
pub open spec fn parse_command(bytes: Seq<u8>, at: int) -> Option<(CommandView, int)> {
    if 0 <= at < bytes.len() {
        if bytes[at] == TAG_PUT {
            match parse_text(bytes, at + 1) {
                Some((key, mid)) => match parse_text(bytes, mid) {
                    Some((value, end)) => Some((CommandView::Put { key, value }, end)),
                    None => None,
                },
                None => None,
            }
        } else if bytes[at] == TAG_REMOVE {
            match parse_text(bytes, at + 1) {
                Some((key, end)) => Some((CommandView::Remove { key }, end)),
                None => None,
            }
        } else {
            None
        }
    } else {
        None
    }
}

/// A record is at least a tag and one length long.
pub proof fn lemma_command_bytes_len(c: CommandView)
    ensures
        c.bytes().len() >= 9,
{
    match c {
        CommandView::Put { key, value } => {
            lemma_text_bytes_len(key);
            lemma_text_bytes_len(value);
        },
        CommandView::Remove { key } => {
            lemma_text_bytes_len(key);
        },
    }
}

/// Whatever `parse_command` reads is the record of the command it yields.
pub proof fn lemma_parse_command_sound(bytes: Seq<u8>, at: int)
    requires
        parse_command(bytes, at) is Some,
    ensures
        ({
            let (c, end) = parse_command(bytes, at).unwrap();
            &&& 0 <= at
            &&& at + 9 <= end <= bytes.len()
            &&& c.well_sized()
            &&& end - at == c.bytes().len()
            &&& bytes.subrange(at, end) == c.bytes()
        }),
{
    let (c, end) = parse_command(bytes, at).unwrap();
    lemma_parse_text_sound(bytes, at + 1);
    let (key, mid) = parse_text(bytes, at + 1).unwrap();
    if bytes[at] == TAG_PUT {
        lemma_parse_text_sound(bytes, mid);
        assert(bytes.subrange(at, end) =~= seq![TAG_PUT] + bytes.subrange(at + 1, mid)
            + bytes.subrange(mid, end));
    } else {
        assert(bytes.subrange(at, end) =~= seq![TAG_REMOVE] + bytes.subrange(at + 1, end));
    }
}

/// The record of a command, wherever it lies in `bytes`, is read back as that
/// command.
pub proof fn lemma_parse_command_complete(bytes: Seq<u8>, at: int, c: CommandView)
    requires
        c.well_sized(),
        0 <= at,
        at + c.bytes().len() <= bytes.len(),
        bytes.subrange(at, at + c.bytes().len()) == c.bytes(),
    ensures
        parse_command(bytes, at) == Some((c, at + c.bytes().len())),
{
    let form = c.bytes();
    lemma_command_bytes_len(c);
    assert(bytes[at] == bytes.subrange(at, at + form.len())[0]);
    match c {
        CommandView::Put { key, value } => {
            let kn = text_bytes(key).len() as int;
            let vn = text_bytes(value).len() as int;
            assert(form.len() == 1 + kn + vn);
            assert(bytes.subrange(at + 1, at + 1 + kn) =~= form.subrange(1, 1 + kn));
            assert(form.subrange(1, 1 + kn) =~= text_bytes(key));
            lemma_parse_text_complete(bytes, at + 1, key);
            let mid = at + 1 + kn;
            assert(bytes.subrange(mid, mid + vn) =~= form.subrange(1 + kn, 1 + kn + vn));
            assert(form.subrange(1 + kn, 1 + kn + vn) =~= text_bytes(value));
            lemma_parse_text_complete(bytes, mid, value);
        },
        CommandView::Remove { key } => {
            let kn = text_bytes(key).len() as int;
            assert(form.len() == 1 + kn);
            assert(bytes.subrange(at + 1, at + 1 + kn) =~= form.subrange(1, 1 + kn));
            assert(form.subrange(1, 1 + kn) =~= text_bytes(key));
            lemma_parse_text_complete(bytes, at + 1, key);
        },
    }
}

impl Command {
    /// The record that holds this command.
    pub fn encode(&self) -> (out: Vec<u8>)
        ensures
            out@ == self@.bytes(),
            self@.well_sized(),
    {
        let mut out: Vec<u8> = Vec::new();
        match self {
            Command::Put { key, value } => {
                out.push(TAG_PUT);
                put_text(&mut out, key.as_str());
                put_text(&mut out, value.as_str());
            },
            Command::Remove { key } => {
                out.push(TAG_REMOVE);
                put_text(&mut out, key.as_str());
            },
        }
        proof {
            assert(out@ =~= self@.bytes());
        }
        out
    }

    /// Reads the record that starts at position `at` of `bytes`.
    pub fn decode(bytes: &[u8], at: usize) -> (r: Option<(Command, usize)>)
        ensures
            match r {
                Some((c, end)) => parse_command(bytes@, at as int) == Some((c@, end as int)),
                None => parse_command(bytes@, at as int) is None,
            },
    {
        if at >= bytes.len() {
            return None;
        }
        let tag: u8 = bytes[at];
        if tag == TAG_PUT {
            match take_text(bytes, at + 1) {
                Some((key, mid)) => match take_text(bytes, mid) {
                    Some((value, end)) => Some((Command::Put { key, value }, end)),
                    None => None,
                },
                None => None,
            }
        } else if tag == TAG_REMOVE {
            match take_text(bytes, at + 1) {
                Some((key, end)) => Some((Command::Remove { key }, end)),
                None => None,
            }
        } else {
            None
        }
    }
}

} // verus!
