//! What the stores hold and hand out.

use vstd::prelude::*;
use crate::json::{
    law_object_is_little_longer, parse_record, record, stored_object, write_stored, Shape, Values,
    ValuesView,
};
use crate::text::{decimal, push_count, push_decimal};

verus! {

/// Largest single JSON line that is read or written, in bytes.
pub const MAX_JSON_LINE_SIZE: usize = 4 * 1024 * 1024;

/// A command that ran: when it started, where, its exit status (-1 where
/// unknown), its text, and how many milliseconds it took (0 where unknown).
#[derive(Debug, Clone, PartialEq, Eq)]
pub struct Entry {
    pub t: i64,
    pub d: String,
    pub x: i64,
    pub c: String,
    pub m: i64,
}

/// An entry with its texts as sequences.
#[verifier::ext_equal]
pub struct EntryView {
    pub t: i64,
    pub d: Seq<char>,
    pub x: i64,
    pub c: Seq<char>,
    pub m: i64,
}

impl View for Entry {
    type V = EntryView;

    open spec fn view(&self) -> EntryView {
        EntryView { t: self.t, d: self.d@, x: self.x, c: self.c@, m: self.m }
    }
}

impl Entry {
    /// The same entry once more.
    pub fn copy(&self) -> (r: Entry)
        ensures
            r@ == self@,
    {
        Entry { t: self.t, d: self.d.clone(), x: self.x, c: self.c.clone(), m: self.m }
    }
}

/// The views of a list of entries.
pub open spec fn entry_views(s: Seq<Entry>) -> Seq<EntryView> {
    s.map_values(|e: Entry| e@)
}

/// An entry plus the ID the picker sees, and how many consecutive repeats it
/// stands for (1 outside the dedupe view).
#[derive(Debug, Clone)]
pub struct Row {
    pub entry: Entry,
    pub id: String,
    pub count: usize,
}

/// A row with its texts as sequences.
#[verifier::ext_equal]
pub struct RowView {
    pub entry: EntryView,
    pub id: Seq<char>,
    pub count: int,
}

impl View for Row {
    type V = RowView;

    open spec fn view(&self) -> RowView {
        RowView { entry: self.entry@, id: self.id@, count: self.count as int }
    }
}

/// The views of a list of rows.
pub open spec fn row_views(s: Seq<Row>) -> Seq<RowView> {
    s.map_values(|r: Row| r@)
}

/// What the picker asks for. `None` means unrestricted; `uniq` collapses
/// consecutive repeats to their newest entry.
#[derive(Debug, Clone)]
pub struct Query {
    pub dir: Option<String>,
    pub limit: Option<usize>,
    pub uniq: bool,
}

impl Default for Query {
    fn default() -> (r: Query)
        ensures
            r.dir is None,
            r.limit is None,
            !r.uniq,
    {
        Query { dir: None, limit: None, uniq: false }
    }
}

/// Why a store refuses to read, write or find.
#[derive(Debug, Clone, Copy, PartialEq, Eq, Structural)]
pub enum StoreError {
    /// No entry has the ID.
    EntryNotFound,
    /// An entry to write has no command.
    EmptyCommand,
    /// The line of the entry with sequence number `i` would be `len` bytes long.
    EncodedTooLong { i: i64, len: u64 },
    /// The last line has no newline, and its `size` bytes leave no room for one.
    TrailingTooLong { size: u64 },
    /// The line at `offset` is `len` bytes long.
    LineTooLong { offset: u64, len: u64 },
    /// The line at `offset` holds no entry.
    Malformed { offset: u64 },
    /// The entry at `offset` has no command.
    MissingCommand { offset: u64 },
    /// The counter is lost, and the last line holds no entry to recover it from.
    SeqMalformed,
    /// The counter is lost, and the last line has a negative sequence number.
    SeqNegative,
    /// A file to import ends inside a multiline entry.
    Unterminated,
    /// A line to import holds no entry.
    InvalidEntry,
}

/// The start of a message about the line at `offset`.
pub open spec fn read_at(path: Seq<char>, offset: u64) -> Seq<char> {
    "read "@ + path + " at offset "@ + decimal(offset as int) + ": "@
}

/// The end of a message about a size over the limit.
pub open spec fn size_and_limit(size: u64) -> Seq<char> {
    decimal(size as int) + " bytes; limit is "@ + decimal(MAX_JSON_LINE_SIZE as int)
}

impl StoreError {
    /// The message for the user of the store at `path`; `detail` says what is
    /// wrong with a line that holds no entry.
    pub open spec fn text(self, path: Seq<char>, detail: Seq<char>) -> Seq<char> {
        match self {
            StoreError::EntryNotFound => "entry not found"@,
            StoreError::EmptyCommand => "empty command"@,
            StoreError::EncodedTooLong { i, len } => "encoded JSON line for entry "@ + decimal(
                i as int,
            ) + " is "@ + size_and_limit(len),
            StoreError::TrailingTooLong { size } =>
                "cannot append newline to trailing line of at least "@ + size_and_limit(size),
            StoreError::LineTooLong { offset, len } => read_at(path, offset)
                + "encoded JSON line is "@ + size_and_limit(len),
            StoreError::Malformed { offset } => read_at(path, offset) + detail,
            StoreError::MissingCommand { offset } => read_at(path, offset) + "empty command"@,
            StoreError::SeqMalformed => "recovering sequence counter from "@ + path + ": "@
                + detail,
            StoreError::SeqNegative => "recovered a negative sequence number from "@ + path,
            StoreError::Unterminated => "unexpected end of file in multiline entry"@,
            StoreError::InvalidEntry => "invalid entry: "@ + detail,
        }
    }

    /// The message for the user of the store at `path`; `detail` says what is
    /// wrong with a line that holds no entry.
    pub fn message(&self, path: &str, detail: &str) -> (r: String)
        ensures
            r@ == self.text(path@, detail@),
    {
        let mut out: String = String::new();
        match *self {
            StoreError::EntryNotFound => {
                out.append("entry not found");
            },
            StoreError::EmptyCommand => {
                out.append("empty command");
            },
            StoreError::EncodedTooLong { i, len } => {
                out.append("encoded JSON line for entry ");
                push_decimal(&mut out, i);
                out.append(" is ");
                push_size_and_limit(&mut out, len);
            },
            StoreError::TrailingTooLong { size } => {
                out.append("cannot append newline to trailing line of at least ");
                push_size_and_limit(&mut out, size);
            },
            StoreError::LineTooLong { offset, len } => {
                push_read_at(&mut out, path, offset);
                out.append("encoded JSON line is ");
                push_size_and_limit(&mut out, len);
            },
            StoreError::Malformed { offset } => {
                push_read_at(&mut out, path, offset);
                out.append(detail);
            },
            StoreError::MissingCommand { offset } => {
                push_read_at(&mut out, path, offset);
                out.append("empty command");
            },
            StoreError::SeqMalformed => {
                out.append("recovering sequence counter from ");
                out.append(path);
                out.append(": ");
                out.append(detail);
            },
            StoreError::SeqNegative => {
                out.append("recovered a negative sequence number from ");
                out.append(path);
            },
            StoreError::Unterminated => {
                out.append("unexpected end of file in multiline entry");
            },
            StoreError::InvalidEntry => {
                out.append("invalid entry: ");
                out.append(detail);
            },
        }
        assert(out@ =~= self.text(path@, detail@));
        out
    }
}

fn push_read_at(out: &mut String, path: &str, offset: u64)
    ensures
        final(out)@ == old(out)@ + read_at(path@, offset),
{
    let ghost before = out@;
    out.append("read ");
    out.append(path);
    out.append(" at offset ");
    push_count(out, offset);
    out.append(": ");
    assert(out@ =~= before + read_at(path@, offset));
}

fn push_size_and_limit(out: &mut String, size: u64)
    ensures
        final(out)@ == old(out)@ + size_and_limit(size),
{
    let ghost before = out@;
    push_count(out, size);
    out.append(" bytes; limit is ");
    push_count(out, MAX_JSON_LINE_SIZE as u64);
    assert(out@ =~= before + size_and_limit(size));
}

/// The entry that a record holds: every field but the duration has to be
/// there.
pub open spec fn entry_of(v: ValuesView) -> Option<EntryView> {
    match (v.t, v.d, v.x, v.c) {
        (Some(t), Some(d), Some(x), Some(c)) => Some(
            EntryView {
                t,
                d,
                x,
                c,
                m: match v.m {
                    Some(m) => m,
                    None => 0,
                },
            },
        ),
        _ => None,
    }
}

/// The sequence number and the entry that a stored line holds.
pub open spec fn stored_entry(line: Seq<u8>) -> Option<(i64, EntryView)> {
    match record(line, Shape::Stored) {
        Some(v) => match entry_of(v) {
            Some(e) => Some(
                (
                    match v.i {
                        Some(i) => i,
                        None => 0,
                    },
                    e,
                ),
            ),
            None => None,
        },
        None => None,
    }
}

/// The entry that a line to import holds.
pub open spec fn plain_entry(line: Seq<u8>) -> Option<EntryView> {
    match record(line, Shape::Plain) {
        Some(v) => entry_of(v),
        None => None,
    }
}

/// The entry that a record holds; None where a field is missing.
pub fn into_entry(v: Values) -> (r: Option<Entry>)
    ensures
        match r {
            Some(e) => entry_of(v@) == Some(e@),
            None => entry_of(v@) is None,
        },
{
    let m: i64 = match v.m {
        Some(m) => m,
        None => 0,
    };
    match (v.t, v.d, v.x, v.c) {
        (Some(t), Some(d), Some(x), Some(c)) => Some(Entry { t, d, x, c, m }),
        _ => None,
    }
}

/// Reads a stored line; None where it holds no entry. A newline behind it
/// changes nothing.
pub fn decode_line(line: &[u8]) -> (r: Option<(i64, Entry)>)
    ensures
        match r {
            Some((i, e)) => stored_entry(line@) == Some((i, e@)),
            None => stored_entry(line@) is None,
        },
        stored_entry(line@.push(10)) == stored_entry(line@),
{
    match parse_record(line, Shape::Stored) {
        Some(v) => {
            let i: i64 = match v.i {
                Some(i) => i,
                None => 0,
            };
            match into_entry(v) {
                Some(e) => Some((i, e)),
                None => None,
            }
        },
        None => None,
    }
}

/// Reads a line to import; None where it holds no entry.
pub fn decode_entry(line: &[u8]) -> (r: Option<Entry>)
    ensures
        match r {
            Some(e) => plain_entry(line@) == Some(e@),
            None => plain_entry(line@) is None,
        },
{
    match parse_record(line, Shape::Plain) {
        Some(v) => into_entry(v),
        None => None,
    }
}

/// The line that stores an entry under the sequence number `i`.
pub open spec fn encoded_line(i: i64, e: EntryView) -> Seq<u8> {
    stored_object(i, e.t, e.d, e.x, e.c, e.m).push(10)
}

/// Why the entry cannot be stored under the sequence number `i`, if it cannot.
pub open spec fn encode_error(i: i64, e: EntryView) -> Option<StoreError> {
    if e.c.len() == 0 {
        Some(StoreError::EmptyCommand)
    } else if encoded_line(i, e).len() > MAX_JSON_LINE_SIZE {
        Some(StoreError::EncodedTooLong { i, len: encoded_line(i, e).len() as u64 })
    } else {
        None
    }
}

/// An entry with a command is stored unless its texts are long: each of their
/// characters takes six bytes at most.
pub proof fn law_short_entries_are_stored(i: i64, e: EntryView)
    requires
        e.c.len() > 0,
        6 * e.d.len() + 6 * e.c.len() + 121 <= MAX_JSON_LINE_SIZE,
    ensures
        encode_error(i, e) is None,
{
    law_object_is_little_longer(i, e.t, e.d, e.x, e.c, e.m);
}

/// Whether `line` is one line of text: a newline at its end and nowhere else.
pub open spec fn is_one_line(line: Seq<u8>) -> bool {
    &&& line.len() > 0
    &&& line.last() == 10
    &&& forall|j: int| 0 <= j < line.len() - 1 ==> #[trigger] line[j] != 10
}

/// Whether `line` holds an entry nowhere but at its start.
pub open spec fn is_whole(line: Seq<u8>) -> bool {
    forall|p: int| 0 < p < line.len() ==> #[trigger] stored_entry(line.skip(p)) is None
}

/// Writes the line that stores an entry. It is one line, it reads back as the
/// same sequence number and entry, with its newline or without, and from no
/// place inside does it read as an entry.
pub fn encode_line(i: i64, entry: &Entry) -> (r: Result<Vec<u8>, StoreError>)
    ensures
        match r {
            Ok(line) => {
                &&& encode_error(i, entry@) is None
                &&& line@ == encoded_line(i, entry@)
                &&& is_one_line(line@)
                &&& stored_entry(line@) == Some((i, entry@))
                &&& stored_entry(line@.drop_last()) == Some((i, entry@))
                &&& is_whole(line@)
            },
            Err(e) => encode_error(i, entry@) == Some(e),
        },
{
    if entry.c.as_str().is_empty() {
        return Err(StoreError::EmptyCommand);
    }
    let mut line: Vec<u8> = write_stored(
        i,
        entry.t,
        entry.d.as_str(),
        entry.x,
        entry.c.as_str(),
        entry.m,
    );
    let ghost object = line@;
    line.push(10);
    assert(line@.drop_last() =~= object);
    if line.len() > MAX_JSON_LINE_SIZE {
        return Err(StoreError::EncodedTooLong { i, len: line.len() as u64 });
    }
    Ok(line)
}

/// A line holds an entry where its record has a time, a directory, a status
/// and a command, and the entry has just those; its duration is the record's,
/// 0 where that is missing. A stored line without a number has the number 0.
pub proof fn law_entries_are_their_records(line: Seq<u8>)
    ensures
        match record(line, Shape::Plain) {
            Some(v) => {
                &&& plain_entry(line) is Some <==> v.t is Some && v.d is Some && v.x is Some && v.c
                    is Some
                &&& plain_entry(line) matches Some(e) ==> v.t == Some(e.t) && v.d == Some(e.d)
                    && v.x == Some(e.x) && v.c == Some(e.c) && (v.m == Some(e.m) || v.m is None
                    && e.m == 0)
            },
            None => plain_entry(line) is None,
        },
        match record(line, Shape::Stored) {
            Some(v) => {
                &&& stored_entry(line) is Some <==> v.t is Some && v.d is Some && v.x is Some
                    && v.c is Some
                &&& stored_entry(line) matches Some((i, e)) ==> v.t == Some(e.t) && v.d == Some(e.d)
                    && v.x == Some(e.x) && v.c == Some(e.c) && (v.m == Some(e.m) || v.m is None
                    && e.m == 0) && (v.i == Some(i) || v.i is None && i == 0)
            },
            None => stored_entry(line) is None,
        },
{
}

/// An entry is refused just where it has no command or its line, with the
/// newline, is longer than the limit.
pub proof fn law_refused_entries(i: i64, e: EntryView)
    ensures
        encode_error(i, e) == Some(StoreError::EmptyCommand) <==> e.c.len() == 0,
        encode_error(i, e) is None <==> e.c.len() > 0 && stored_object(
            i,
            e.t,
            e.d,
            e.x,
            e.c,
            e.m,
        ).len() + 1 <= MAX_JSON_LINE_SIZE,
{
}

/// Messages about a line name the file and the place, and say what is wrong;
/// messages about a size name it.
pub proof fn law_messages_name_the_place(
    path: Seq<char>,
    detail: Seq<char>,
    offset: u64,
    size: u64,
    i: i64,
)
    ensures
        ({
            let place = "read "@ + path + " at offset "@ + decimal(offset as int) + ": "@;
            let sizes = decimal(size as int) + " bytes; limit is "@ + decimal(4_194_304);
            &&& (StoreError::Malformed { offset }).text(path, detail) == place + detail
            &&& (StoreError::MissingCommand { offset }).text(path, detail) == place
                + "empty command"@
            &&& (StoreError::LineTooLong { offset, len: size }).text(path, detail) == place
                + "encoded JSON line is "@ + sizes
            &&& (StoreError::EncodedTooLong { i, len: size }).text(path, detail)
                == "encoded JSON line for entry "@ + decimal(i as int) + " is "@ + sizes
            &&& (StoreError::TrailingTooLong { size }).text(path, detail)
                == "cannot append newline to trailing line of at least "@ + sizes
            &&& StoreError::SeqMalformed.text(path, detail)
                == "recovering sequence counter from "@ + path + ": "@ + detail
            &&& StoreError::SeqNegative.text(path, detail)
                == "recovered a negative sequence number from "@ + path
            &&& StoreError::InvalidEntry.text(path, detail) == "invalid entry: "@ + detail
        }),
{
}

} // verus!
