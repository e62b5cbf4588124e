//! Reads a zsh EXTENDED_HISTORY file for `zhis import`, or newline-delimited
//! JSON entries for `zhis import-jsonl`.

use vstd::prelude::*;
use vstd::slice::slice_subrange;
use vstd::utf8::{
    decode_utf8, encode_utf8, encode_utf8_decode_utf8, encode_utf8_valid_utf8,
    is_ascii_chars_encode_utf8,
};
use crate::cli::texts;
use crate::entry::{decode_entry, entry_views, plain_entry, Entry, EntryView, StoreError};
use crate::rows::rows_from;
use crate::scan::{
    ended, find_line_end, lemma_line_end, lemma_line_end_same, lemma_line_end_shift,
    lemma_line_end_without, line_end,
};
use crate::store::{
    appended, fits, law_appended_entries_follow, law_counters_are_not_negative, reads_back, Store,
};
use crate::text::{
    blank, bytes_view, chars_of, decimal, decoded, digit_value, is_blank, is_space,
    law_split_undoes_joining, law_trailing_characters_are_dropped, lemma_decimal_parses,
    lemma_digits_number, lemma_encoded_pieces, lemma_encoded_without_newline, lemma_position, lossy,
    parse_i64, parsed_i64, split_at_first, split_once, string_of, strip_trailing, without_trailing,
};

verus! {

/// Whether `s` is made of decimal digits, one at least.
pub open spec fn is_count(s: Seq<char>) -> bool {
    s.len() > 0 && forall|j: int| 0 <= j < s.len() ==> '0' <= #[trigger] s[j] <= '9'
}

/// The timestamp and the command text of a header line: `: <t>:<n>;<cmd>`.
pub open spec fn header(line: Seq<char>) -> Option<(int, Seq<char>)> {
    if line.len() < 2 || line[0] != ':' || line[1] != ' ' {
        None
    } else {
        match split_at_first(line.skip(2), ':') {
            Some((t, rest)) => match split_at_first(rest, ';') {
                Some((n, cmd)) => if is_count(t) && is_count(n) {
                    match parsed_i64(t, 10) {
                        Some(time) => Some((time, cmd)),
                        None => None,
                    }
                } else {
                    None
                },
                None => None,
            },
            None => None,
        }
    }
}

fn counts(s: &[char]) -> (r: bool)
    ensures
        r == is_count(s@),
{
    let mut k: usize = 0;
    while k < s.len()
        invariant
            k <= s@.len(),
            forall|j: int| 0 <= j < k ==> '0' <= #[trigger] s@[j] <= '9',
        decreases s@.len() - k,
    {
        if s[k] < '0' || s[k] > '9' {
            assert(!('0' <= s@[k as int] <= '9'));
            return false;
        }
        k = k + 1;
    }
    s.len() > 0
}

/// Parses a zsh EXTENDED_HISTORY header line: `: <t>:<n>;<cmd>`. Returns the
/// timestamp and the command text.
pub fn parse_zsh_hist_line(line: &str) -> (r: Option<(i64, String)>)
    ensures
        match r {
            Some((t, cmd)) => header(line@) == Some((t as int, cmd@)),
            None => header(line@) is None,
        },
{
    let chars: Vec<char> = chars_of(line);
    if chars.len() < 2 || chars[0] != ':' || chars[1] != ' ' {
        return None;
    }
    let tail: &[char] = slice_subrange(chars.as_slice(), 2, chars.len());
    assert(tail@ =~= line@.skip(2));
    match split_once(tail, ':') {
        Some((t, rest)) => match split_once(rest, ';') {
            Some((n, cmd)) => {
                if !counts(t) || !counts(n) {
                    return None;
                }
                match parse_i64(t, 10) {
                    Some(time) => Some((time, string_of(cmd))),
                    None => None,
                }
            },
            None => None,
        },
        None => None,
    }
}

/// Whether zsh marked the line as continued on the next.
pub open spec fn continues(line: Seq<char>) -> bool {
    line.len() > 0 && line.last() == '\\'
}

/// The line without the mark. zsh keeps any backslash before it.
pub open spec fn unmarked(line: Seq<char>) -> Seq<char> {
    if continues(line) {
        line.drop_last()
    } else {
        line
    }
}

/// Drops the one trailing backslash zsh writes as its continuation marker, and
/// says whether there was one. zsh keeps any backslash before it, so stripping
/// every one loses a character.
pub fn strip_continuation(line: &str) -> (r: (String, bool))
    ensures
        r.0@ == unmarked(line@),
        r.1 == continues(line@),
{
    let mut chars: Vec<char> = chars_of(line);
    let n: usize = chars.len();
    if n > 0 && chars[n - 1] == '\\' {
        let _ = chars.pop();
        assert(chars@ =~= line@.drop_last());
        (string_of(chars.as_slice()), true)
    } else {
        (string_of(chars.as_slice()), false)
    }
}

/// An imported entry: directory and exit status are unknown, and so is how
/// long it took.
pub open spec fn imported(t: i64, c: Seq<char>) -> EntryView {
    EntryView { t, d: Seq::empty(), x: (-1) as i64, c, m: 0 }
}

/// The entry that is open and those that are done after one more line.
pub open spec fn with_line(
    state: (Option<EntryView>, Seq<EntryView>),
    line: Seq<char>,
) -> (Option<EntryView>, Seq<EntryView>) {
    let (open, done) = state;
    match open {
        Some(e) => {
            let entry = EntryView { c: e.c.push('\n') + unmarked(line), ..e };
            if continues(line) {
                (Some(entry), done)
            } else {
                (None, done.push(entry))
            }
        },
        None => match header(line) {
            Some((t, cmd)) => if cmd.len() == 0 {
                (None, done)
            } else if continues(cmd) {
                (Some(imported(t as i64, unmarked(cmd))), done)
            } else {
                (None, done.push(imported(t as i64, cmd)))
            },
            None => (None, done),
        },
    }
}

/// The entry that is open and those that are done after all the lines.
pub open spec fn with_lines(lines: Seq<Seq<char>>) -> (Option<EntryView>, Seq<EntryView>)
    decreases lines.len(),
{
    if lines.len() == 0 {
        (None, Seq::empty())
    } else {
        with_line(with_lines(lines.drop_last()), lines.last())
    }
}

/// The entries of a zsh history with these lines. It must not end inside one.
pub open spec fn history_entries(lines: Seq<Seq<char>>) -> Result<Seq<EntryView>, StoreError> {
    match with_lines(lines) {
        (Some(_), _) => Err(StoreError::Unterminated),
        (None, done) => Ok(done),
    }
}

/// The view of an entry that may be missing.
pub open spec fn entry_view(e: Option<Entry>) -> Option<EntryView> {
    match e {
        Some(v) => Some(v@),
        None => None,
    }
}

/// Reads the lines of a zsh history.
pub fn parse_history(lines: &[String]) -> (r: Result<Vec<Entry>, StoreError>)
    ensures
        match r {
            Ok(entries) => history_entries(texts(lines@)) == Ok::<Seq<EntryView>, StoreError>(
                entry_views(entries@),
            ),
            Err(e) => history_entries(texts(lines@)) == Err::<Seq<EntryView>, StoreError>(e),
        },
{
    let ghost all = texts(lines@);
    let mut entries: Vec<Entry> = Vec::new();
    let mut cur: Option<Entry> = None;
    let mut k: usize = 0;
    assert(all.take(0) =~= Seq::<Seq<char>>::empty());
    assert(entry_views(entries@) =~= Seq::<EntryView>::empty());
    while k < lines.len()
        invariant
            k <= lines@.len(),
            all == texts(lines@),
            with_lines(all.take(k as int)) == (entry_view(cur), entry_views(entries@)),
        decreases lines@.len() - k,
    {
        let line: &String = &lines[k];
        let ghost done = entry_views(entries@);
        proof {
            assert(all.take(k + 1).drop_last() =~= all.take(k as int));
            assert(all.take(k + 1).last() == line@);
        }
        let open: Option<Entry> = cur;
        cur = None;
        match open {
            Some(entry) => {
                // Continuation of a multiline entry.
                let mut entry: Entry = entry;
                let (text, more): (String, bool) = strip_continuation(line.as_str());
                entry.c.push('\n');
                entry.c.append(text.as_str());
                if more {
                    cur = Some(entry);
                } else {
                    let ghost v = entry@;
                    entries.push(entry);
                    assert(entry_views(entries@) =~= done.push(v));
                }
            },
            None => {
                if let Some((t, cmd)) = parse_zsh_hist_line(line.as_str()) {
                    if !cmd.as_str().is_empty() {
                        let (c, more): (String, bool) = strip_continuation(cmd.as_str());
                        let entry: Entry = Entry { t, d: String::new(), x: -1, c, m: 0 };
                        assert(entry@ =~= imported(t, c@));
                        if more {
                            cur = Some(entry);
                        } else {
                            let ghost v = entry@;
                            entries.push(entry);
                            assert(entry_views(entries@) =~= done.push(v));
                        }
                    }
                }
            },
        }
        k = k + 1;
    }
    assert(all.take(all.len() as int) =~= all);
    if cur.is_some() {
        return Err(StoreError::Unterminated);
    }
    Ok(entries)
}

/// The lines of a history file from `p` on: each decoded, with what is not
/// UTF-8 replaced, and without the newline and carriage returns at its end.
pub open spec fn history_lines(d: Seq<u8>, p: int) -> Seq<Seq<char>>
    decreases d.len() - p,
{
    if !(0 <= p < d.len()) {
        Seq::empty()
    } else {
        let next = line_end(d, p);
        proof {
            lemma_line_end(d, p);
        }
        seq![without_trailing(decoded(d.subrange(p, next)), '\r', '\n')] + history_lines(
            d,
            next,
        )
    }
}

/// The lines of a history file.
pub fn split_history(d: &[u8]) -> (r: Vec<String>)
    ensures
        texts(r@) == history_lines(d@, 0),
{
    let mut lines: Vec<String> = Vec::new();
    let mut p: usize = 0;
    assert(texts(lines@) + history_lines(d@, 0) =~= history_lines(d@, 0));
    while p < d.len()
        invariant
            p <= d@.len(),
            history_lines(d@, 0) == texts(lines@) + history_lines(d@, p as int),
        decreases d@.len() - p,
    {
        let next: usize = find_line_end(d, p);
        let raw: String = lossy(slice_subrange(d, p, next));
        let chars: Vec<char> = chars_of(raw.as_str());
        let line: &[char] = strip_trailing(chars.as_slice(), '\r', '\n');
        let ghost sofar = texts(lines@);
        let ghost v = line@;
        lines.push(string_of(line));
        proof {
            assert(texts(lines@) =~= sofar.push(v));
            assert(sofar + (seq![v] + history_lines(d@, next as int)) =~= sofar.push(v)
                + history_lines(d@, next as int));
        }
        p = next;
    }
    assert(texts(lines@) + Seq::<Seq<char>>::empty() =~= texts(lines@));
    lines
}

/// What an import makes of a store: the entries are appended in one batch, or
/// nothing is changed where they cannot be read.
pub open spec fn imported_into(
    before: &Store,
    after: &Store,
    entries: Result<Seq<EntryView>, StoreError>,
    r: Result<usize, StoreError>,
) -> bool {
    &&& before.sound() ==> after.sound()
    &&& before.tidy() ==> after.tidy()
    &&& match entries {
        Err(e) => r == Err::<usize, StoreError>(e) && after.same(before),
        Ok(all) => match r {
            Ok(n) => {
                &&& n == all.len()
                &&& appended(before, after, all, Ok(()))
                &&& reads_back(before, after, all)
            },
            Err(e) => appended(before, after, all, Err(e)),
        },
    }
}

/// Whether there are sequence numbers left for the entries of an import.
pub open spec fn room_for(store: &Store, entries: Result<Seq<EntryView>, StoreError>) -> bool {
    entries matches Ok(all) ==> fits(store.bytes(), bytes_view(store.seq), all.len() as int)
}

/// Reads a zsh EXTENDED_HISTORY file. Directory and exit status are unknown
/// for imported entries.
pub fn import_history(source: &[u8], store: &mut Store) -> (r: Result<usize, StoreError>)
    requires
        room_for(old(store), history_entries(history_lines(source@, 0))),
    ensures
        imported_into(
            old(store),
            final(store),
            history_entries(history_lines(source@, 0)),
            r,
        ),
{
    let lines: Vec<String> = split_history(source);
    match parse_history(lines.as_slice()) {
        Err(e) => Err(e),
        Ok(entries) => match store.append(entries.as_slice()) {
            Ok(_) => Ok(entries.len()),
            Err(e) => Err(e),
        },
    }
}

/// Reads a zsh EXTENDED_HISTORY file if there are sequence numbers left for
/// its entries; None, and nothing changes, where there are not.
pub fn try_import_history(source: &[u8], store: &mut Store) -> (r: Option<
    Result<usize, StoreError>,
>)
    ensures
        r is None <==> !room_for(old(store), history_entries(history_lines(source@, 0))),
        match r {
            None => final(store).same(old(store)),
            Some(done) => imported_into(
                old(store),
                final(store),
                history_entries(history_lines(source@, 0)),
                done,
            ),
        },
{
    let lines: Vec<String> = split_history(source);
    match parse_history(lines.as_slice()) {
        Err(e) => Some(Err(e)),
        Ok(entries) => {
            if !store.has_room(entries.len()) {
                return None;
            }
            Some(import_history(source, store))
        },
    }
}

/// The entries of newline-delimited JSON with these lines, blank ones
/// skipped.
pub open spec fn jsonl_entries(lines: Seq<Seq<char>>) -> Result<Seq<EntryView>, StoreError>
    decreases lines.len(),
{
    if lines.len() == 0 {
        Ok(Seq::empty())
    } else {
        match jsonl_entries(lines.drop_last()) {
            Err(e) => Err(e),
            Ok(entries) => if is_blank(lines.last()) {
                Ok(entries)
            } else {
                match plain_entry(encode_utf8(lines.last())) {
                    Some(entry) => Ok(entries.push(entry)),
                    None => Err(StoreError::InvalidEntry),
                }
            },
        }
    }
}

/// Reads the lines of newline-delimited JSON.
pub fn parse_jsonl(lines: &[String]) -> (r: Result<Vec<Entry>, StoreError>)
    ensures
        match r {
            Ok(entries) => jsonl_entries(texts(lines@)) == Ok::<Seq<EntryView>, StoreError>(
                entry_views(entries@),
            ),
            Err(e) => jsonl_entries(texts(lines@)) == Err::<Seq<EntryView>, StoreError>(e),
        },
{
    let ghost all = texts(lines@);
    let mut entries: Vec<Entry> = Vec::new();
    let mut k: usize = 0;
    assert(all.take(0) =~= Seq::<Seq<char>>::empty());
    assert(entry_views(entries@) =~= Seq::<EntryView>::empty());
    while k < lines.len()
        invariant
            k <= lines@.len(),
            all == texts(lines@),
            jsonl_entries(all.take(k as int)) == Ok::<Seq<EntryView>, StoreError>(
                entry_views(entries@),
            ),
        decreases lines@.len() - k,
    {
        let ghost done = entry_views(entries@);
        proof {
            assert(all.take(k + 1).drop_last() =~= all.take(k as int));
            assert(all.take(k + 1).last() == lines@[k as int]@);
        }
        let chars: Vec<char> = chars_of(lines[k].as_str());
        if !blank(chars.as_slice()) {
            match decode_entry(lines[k].as_str().as_bytes()) {
                Some(entry) => {
                    let ghost v = entry@;
                    entries.push(entry);
                    assert(entry_views(entries@) =~= done.push(v));
                },
                None => {
                    proof {
                        lemma_jsonl_refused(all, k + 1);
                    }
                    return Err(StoreError::InvalidEntry);
                },
            }
        }
        k = k + 1;
    }
    assert(all.take(all.len() as int) =~= all);
    Ok(entries)
}

/// A line that is refused has the whole input refused.
proof fn lemma_jsonl_refused(lines: Seq<Seq<char>>, k: int)
    requires
        0 <= k <= lines.len(),
        jsonl_entries(lines.take(k)) is Err,
    ensures
        jsonl_entries(lines) == jsonl_entries(lines.take(k)),
    decreases lines.len(),
{
    if k == lines.len() {
        assert(lines.take(k) =~= lines);
    } else {
        assert(lines.drop_last().take(k) =~= lines.take(k));
        lemma_jsonl_refused(lines.drop_last(), k);
    }
}

/// Reads newline-delimited JSON entries, the shape the store itself writes
/// without the number, and appends them in one batch.
pub fn import_jsonl(lines: &[String], store: &mut Store) -> (r: Result<usize, StoreError>)
    requires
        room_for(old(store), jsonl_entries(texts(lines@))),
    ensures
        imported_into(old(store), final(store), jsonl_entries(texts(lines@)), r),
{
    match parse_jsonl(lines) {
        Err(e) => Err(e),
        Ok(entries) => match store.append(entries.as_slice()) {
            Ok(_) => Ok(entries.len()),
            Err(e) => Err(e),
        },
    }
}

/// Reads newline-delimited JSON entries if there are sequence numbers left
/// for them; None, and nothing changes, where there are not.
pub fn try_import_jsonl(lines: &[String], store: &mut Store) -> (r: Option<
    Result<usize, StoreError>,
>)
    ensures
        r is None <==> !room_for(old(store), jsonl_entries(texts(lines@))),
        match r {
            None => final(store).same(old(store)),
            Some(done) => imported_into(
                old(store),
                final(store),
                jsonl_entries(texts(lines@)),
                done,
            ),
        },
{
    match parse_jsonl(lines) {
        Err(e) => Some(Err(e)),
        Ok(entries) => {
            if !store.has_room(entries.len()) {
                return None;
            }
            Some(import_jsonl(lines, store))
        },
    }
}

/// Imported entries have no directory, exit status or duration, and each has
/// a command.
pub proof fn law_imported_entries_are_plain(lines: Seq<Seq<char>>)
    ensures
        history_entries(lines) matches Ok(entries) ==> forall|k: int|
            0 <= k < entries.len() ==> {
                let e = #[trigger] entries[k];
                e.d.len() == 0 && e.x == -1 && e.m == 0 && e.c.len() > 0
            },
{
    lemma_read_entries_are_plain(lines);
}

proof fn lemma_read_entries_are_plain(lines: Seq<Seq<char>>)
    ensures
        with_lines(lines).0 matches Some(e) ==> e == imported(e.t, e.c),
        forall|k: int|
            0 <= k < with_lines(lines).1.len() ==> {
                let e = #[trigger] with_lines(lines).1[k];
                e == imported(e.t, e.c) && e.c.len() > 0
            },
    decreases lines.len(),
{
    if lines.len() > 0 {
        lemma_read_entries_are_plain(lines.drop_last());
    }
}

/// A header line as zsh writes it.
pub open spec fn header_line(t: Seq<char>, n: Seq<char>, cmd: Seq<char>) -> Seq<char> {
    seq![':', ' '] + (t.push(':') + (n.push(';') + cmd))
}

/// A header line gives its time and all of its command, whatever the command
/// holds.
pub proof fn law_header_gives_its_parts(t: Seq<char>, n: Seq<char>, cmd: Seq<char>, time: int)
    requires
        t.len() > 0,
        n.len() > 0,
        forall|j: int| 0 <= j < t.len() ==> '0' <= #[trigger] t[j] <= '9',
        forall|j: int| 0 <= j < n.len() ==> '0' <= #[trigger] n[j] <= '9',
        parsed_i64(t, 10) == Some(time),
    ensures
        header(header_line(t, n, cmd)) == Some((time, cmd)),
{
    let line = header_line(t, n, cmd);
    assert(line.skip(2) =~= t.push(':') + (n.push(';') + cmd));
    law_split_undoes_joining(t, ':', n.push(';') + cmd);
    law_split_undoes_joining(n, ';', cmd);
}

/// Nothing else is a header line: it has two counts, each of one digit at least
/// and nothing but digits.
pub proof fn law_headers_have_their_shape(line: Seq<char>) -> (p: (Seq<char>, Seq<char>))
    requires
        header(line) is Some,
    ensures
        ({
            let (time, cmd) = header(line)->0;
            let (t, n) = p;
            &&& t.len() > 0 && n.len() > 0
            &&& forall|j: int| 0 <= j < t.len() ==> '0' <= #[trigger] t[j] <= '9'
            &&& forall|j: int| 0 <= j < n.len() ==> '0' <= #[trigger] n[j] <= '9'
            &&& parsed_i64(t, 10) == Some(time)
            &&& line == header_line(t, n, cmd)
        }),
{
    let (t, rest) = split_at_first(line.skip(2), ':')->0;
    let (n, cmd) = split_at_first(rest, ';')->0;
    lemma_position(line.skip(2), ':');
    lemma_position(rest, ';');
    assert(n.push(';') + cmd =~= rest);
    assert(t.push(':') + rest =~= line.skip(2));
    assert(line =~= header_line(t, n, cmd));
    (t, n)
}

/// A time in decimal is a count of a header line, and reads as that time.
pub proof fn law_times_are_counts(t: i64)
    requires
        t >= 0,
    ensures
        is_count(decimal(t as int)),
        parsed_i64(decimal(t as int), 10) == Some(t as int),
{
    lemma_decimal_parses(t as int, i64::MIN as int, i64::MAX as int);
    lemma_digits_number(t as nat, 10);
    let d = decimal(t as int);
    assert forall|j: int| 0 <= j < d.len() implies '0' <= #[trigger] d[j] <= '9' by {
        assert(digit_value(d[j]) is Some);
    }
}

/// The lines before and after make no difference to an entry. A history that
/// ends outside an entry, with lines added to it, gives its entries and then
/// those of the lines, repeats and all.
pub proof fn law_histories_add_up(a: Seq<Seq<char>>, b: Seq<Seq<char>>)
    requires
        history_entries(a) is Ok,
    ensures
        history_entries(a + b) == match history_entries(b) {
            Ok(more) => Ok::<_, StoreError>(history_entries(a)->Ok_0 + more),
            Err(e) => Err(e),
        },
{
    lemma_lines_add_up(a, b);
}

proof fn lemma_lines_add_up(a: Seq<Seq<char>>, b: Seq<Seq<char>>)
    requires
        with_lines(a).0 is None,
    ensures
        with_lines(a + b).0 == with_lines(b).0,
        with_lines(a + b).1 == with_lines(a).1 + with_lines(b).1,
    decreases b.len(),
{
    if b.len() == 0 {
        assert(a + b =~= a);
        assert(with_lines(a).1 + with_lines(b).1 =~= with_lines(a).1);
    } else {
        let w = a + b;
        assert(w.drop_last() =~= a + b.drop_last());
        lemma_lines_add_up(a, b.drop_last());
        let front = with_lines(b.drop_last()).1;
        assert(with_lines(w).1 =~= with_lines(a).1 + with_lines(b).1);
    }
}

/// Whether a line is the header of a command of one line.
pub open spec fn is_single(line: Seq<char>, t: i64, n: Seq<char>, cmd: Seq<char>) -> bool {
    &&& t >= 0
    &&& is_count(n)
    &&& cmd.len() > 0
    &&& cmd.last() != '\\'
    &&& line == header_line(decimal(t as int), n, cmd)
}

/// A history of header lines with one command each gives exactly their times
/// and commands, in that order, however often a command is repeated.
pub proof fn law_each_header_is_an_entry(
    lines: Seq<Seq<char>>,
    ts: Seq<i64>,
    ns: Seq<Seq<char>>,
    cs: Seq<Seq<char>>,
)
    requires
        lines.len() == ts.len() == ns.len() == cs.len(),
        forall|k: int| 0 <= k < lines.len() ==> is_single(#[trigger] lines[k], ts[k], ns[k], cs[k]),
    ensures
        history_entries(lines) matches Ok(entries) && entries.len() == lines.len() && forall|k: int|
            #![trigger entries[k]]
            0 <= k < lines.len() ==> {
                &&& entries[k].t == ts[k]
                &&& entries[k].c == cs[k]
                &&& entries[k].d.len() == 0
                &&& entries[k].x == -1
                &&& entries[k].m == 0
            },
    decreases lines.len(),
{
    if lines.len() > 0 {
        let last = lines.len() - 1;
        let front = lines.drop_last();
        let (fts, fns, fcs) = (ts.drop_last(), ns.drop_last(), cs.drop_last());
        assert forall|k: int| 0 <= k < front.len() implies is_single(
            #[trigger] front[k],
            fts[k],
            fns[k],
            fcs[k],
        ) by {
            assert(is_single(lines[k], ts[k], ns[k], cs[k]));
        }
        law_each_header_is_an_entry(front, fts, fns, fcs);
        assert(is_single(lines[last], ts[last], ns[last], cs[last]));
        law_times_are_counts(ts[last]);
        law_header_gives_its_parts(
            decimal(ts[last] as int),
            ns[last],
            cs[last],
            ts[last] as int,
        );
        let entries = history_entries(lines)->Ok_0;
        let before = history_entries(front)->Ok_0;
        assert(entries == before.push(imported(ts[last], cs[last])));
        assert forall|k: int| #![trigger entries[k]] 0 <= k < lines.len() implies {
            &&& entries[k].t == ts[k]
            &&& entries[k].c == cs[k]
            &&& entries[k].d.len() == 0
            &&& entries[k].x == -1
            &&& entries[k].m == 0
        } by {
            if k < last {
                assert(entries[k] == before[k]);
                assert(fts[k] == ts[k] && fcs[k] == cs[k]);
            }
        }
    }
}

/// A line that is no header, or one without a command, gives no entry where
/// none is open.
pub proof fn law_other_lines_give_nothing(line: Seq<char>)
    requires
        header(line) matches Some((_, cmd)) ==> cmd.len() == 0,
    ensures
        history_entries(seq![line]) == Ok::<Seq<EntryView>, StoreError>(Seq::empty()),
{
    reveal_with_fuel(with_lines, 2);
    assert(seq![line].drop_last() =~= Seq::<Seq<char>>::empty());
    assert(seq![line].last() == line);
}

/// Texts with a newline between each two.
pub open spec fn with_newlines(parts: Seq<Seq<char>>) -> Seq<char>
    decreases parts.len(),
{
    if parts.len() == 0 {
        Seq::empty()
    } else if parts.len() == 1 {
        parts[0]
    } else {
        with_newlines(parts.drop_last()).push('\n') + parts.last()
    }
}

/// Whether `lines` hold a command of several lines: a header with the first,
/// then the others, a backslash behind each but the last.
pub open spec fn is_multiline(
    lines: Seq<Seq<char>>,
    t: i64,
    n: Seq<char>,
    parts: Seq<Seq<char>>,
) -> bool {
    &&& t >= 0
    &&& is_count(n)
    &&& lines.len() == parts.len()
    &&& parts.len() >= 2
    &&& lines[0] == header_line(decimal(t as int), n, parts[0].push('\\'))
    &&& forall|k: int|
        0 < k < parts.len() - 1 ==> #[trigger] lines[k] == parts[k].push('\\')
    &&& lines.last() == parts.last()
}

proof fn lemma_multiline_open(
    lines: Seq<Seq<char>>,
    t: i64,
    n: Seq<char>,
    parts: Seq<Seq<char>>,
    k: int,
)
    requires
        is_multiline(lines, t, n, parts),
        1 <= k < lines.len(),
    ensures
        with_lines(lines.take(k)) == (
            Some(imported(t, with_newlines(parts.take(k)))),
            Seq::<EntryView>::empty(),
        ),
    decreases k,
{
    reveal_with_fuel(with_lines, 2);
    let sofar = lines.take(k);
    assert(sofar.last() == lines[k - 1]);
    if k == 1 {
        assert(sofar.drop_last() =~= Seq::<Seq<char>>::empty());
        law_times_are_counts(t);
        law_header_gives_its_parts(decimal(t as int), n, parts[0].push('\\'), t as int);
        assert(parts[0].push('\\').drop_last() =~= parts[0]);
    } else {
        lemma_multiline_open(lines, t, n, parts, k - 1);
        assert(sofar.drop_last() =~= lines.take(k - 1));
        assert(parts.take(k).drop_last() =~= parts.take(k - 1));
        assert(lines[k - 1] == parts[k - 1].push('\\'));
        assert(parts[k - 1].push('\\').drop_last() =~= parts[k - 1]);
    }
}

/// A command of several lines is one entry that holds them all, with the
/// newlines between them. A history that ends before its last line is refused.
pub proof fn law_multiline_commands_are_one_entry(
    lines: Seq<Seq<char>>,
    t: i64,
    n: Seq<char>,
    parts: Seq<Seq<char>>,
)
    requires
        is_multiline(lines, t, n, parts),
        parts.last().len() > 0 ==> parts.last().last() != '\\',
    ensures
        history_entries(lines) matches Ok(entries) && entries.len() == 1 && entries[0].t == t
            && entries[0].c == with_newlines(parts) && entries[0].d.len() == 0 && entries[0].x == -1
            && entries[0].m == 0,
        forall|k: int|
            1 <= k < lines.len() ==> history_entries(#[trigger] lines.take(k)) == Err::<
                Seq<EntryView>,
                StoreError,
            >(StoreError::Unterminated),
{
    let last = lines.len() - 1;
    lemma_multiline_open(lines, t, n, parts, last);
    assert(lines.drop_last() =~= lines.take(last));
    assert(parts.drop_last() =~= parts.take(last));
    assert forall|k: int| 1 <= k < lines.len() implies history_entries(#[trigger] lines.take(k))
        == Err::<Seq<EntryView>, StoreError>(StoreError::Unterminated) by {
        lemma_multiline_open(lines, t, n, parts, k);
    }
}

proof fn lemma_history_lines_shift(whole: Seq<u8>, base: int, p: int)
    requires
        0 <= base <= whole.len(),
        0 <= p <= whole.len() - base,
    ensures
        history_lines(whole, base + p) == history_lines(whole.skip(base), p),
    decreases whole.len() - base - p,
{
    let d = whole.skip(base);
    if p < d.len() {
        lemma_line_end_shift(whole, base, p);
        lemma_line_end(d, p);
        assert(d.subrange(p, line_end(d, p)) =~= whole.subrange(
            base + p,
            line_end(whole, base + p),
        ));
        lemma_history_lines_shift(whole, base, line_end(d, p));
    }
}

/// A line of text comes out of a history file as it is, without what ends it:
/// a newline, and any carriage returns before it.
pub proof fn law_lines_of_text_come_out(text: Seq<char>, crs: Seq<char>, rest: Seq<u8>)
    requires
        forall|j: int| 0 <= j < text.len() ==> #[trigger] text[j] != '\n',
        text.len() > 0 ==> text.last() != '\r',
        forall|j: int| 0 <= j < crs.len() ==> #[trigger] crs[j] == '\r',
    ensures
        history_lines(encode_utf8(text + crs).push(10) + rest, 0) == seq![text]
            + history_lines(rest, 0),
        text.len() + crs.len() > 0 ==> history_lines(encode_utf8(text + crs), 0)
            == seq![text],
{
    let chars = text + crs;
    assert forall|j: int| 0 <= j < chars.len() implies #[trigger] chars[j] != '\n' by {
        if j >= text.len() {
            assert(chars[j] == crs[j - text.len()]);
        } else {
            assert(chars[j] == text[j]);
        }
    }
    let bytes = encode_utf8(chars);
    lemma_encoded_without_newline(chars);
    let ended = bytes.push(10);
    let all = ended + rest;
    assert forall|j: int| 0 <= j < ended.len() - 1 implies #[trigger] ended[j] != 10 by {
        assert(ended[j] == bytes[j]);
    }
    lemma_line_end_without(ended, 0);
    lemma_line_end_same(ended, rest, 0);
    assert(all.subrange(0, ended.len() as int) =~= ended);
    lemma_history_lines_shift(all, ended.len() as int, 0);
    assert(all.skip(ended.len() as int) =~= rest);
    let line = chars.push('\n');
    lemma_encoded_pieces(chars, seq!['\n']);
    assert(chars + seq!['\n'] =~= line);
    assert(encode_utf8(seq!['\n']) =~= seq![10u8]) by {
        is_ascii_chars_encode_utf8(seq!['\n']);
    }
    assert(encode_utf8(line) =~= ended);
    encode_utf8_valid_utf8(line);
    encode_utf8_decode_utf8(line);
    law_trailing_characters_are_dropped(text, crs.push('\n'), '\r', '\n');
    assert(text + crs.push('\n') =~= line);
    if chars.len() > 0 {
        encode_utf8_valid_utf8(chars);
        encode_utf8_decode_utf8(chars);
        law_trailing_characters_are_dropped(text, crs, '\r', '\n');
        if bytes.len() == 0 {
            assert(decode_utf8(bytes) =~= Seq::<char>::empty());
        }
        lemma_line_end_without(bytes, 0);
        assert(bytes.subrange(0, bytes.len() as int) =~= bytes);
        assert(history_lines(bytes, bytes.len() as int) =~= Seq::<Seq<char>>::empty());
        assert(history_lines(bytes, 0) =~= seq![text]);
    }
}

/// Lines of JSON give their entries one by one: those of the first lines, then
/// those of the lines after them.
pub proof fn law_json_lines_add_up(a: Seq<Seq<char>>, b: Seq<Seq<char>>)
    requires
        jsonl_entries(a) is Ok,
    ensures
        jsonl_entries(a + b) == match jsonl_entries(b) {
            Ok(more) => Ok::<_, StoreError>(jsonl_entries(a)->Ok_0 + more),
            Err(e) => Err(e),
        },
    decreases b.len(),
{
    if b.len() == 0 {
        assert(a + b =~= a);
        assert(jsonl_entries(a)->Ok_0 + Seq::<EntryView>::empty() =~= jsonl_entries(a)->Ok_0);
    } else {
        let w = a + b;
        assert(w.drop_last() =~= a + b.drop_last());
        law_json_lines_add_up(a, b.drop_last());
        if let Ok(all) = jsonl_entries(w) {
            assert(all =~= jsonl_entries(a)->Ok_0 + jsonl_entries(b)->Ok_0);
        }
    }
}

/// A line of JSON gives the entry it holds; one of white space gives none; any
/// other has the whole input refused, whatever follows.
pub proof fn law_a_json_line_is_an_entry(line: Seq<char>, more: Seq<Seq<char>>)
    ensures
        (forall|j: int| 0 <= j < line.len() ==> is_space(#[trigger] line[j])) ==> jsonl_entries(
            seq![line],
        ) == Ok::<Seq<EntryView>, StoreError>(Seq::empty()),
        (exists|j: int| 0 <= j < line.len() && !is_space(#[trigger] line[j])) ==> match plain_entry(
            encode_utf8(line),
        ) {
            Some(e) => jsonl_entries(seq![line]) == Ok::<Seq<EntryView>, StoreError>(seq![e]),
            None => jsonl_entries(seq![line] + more) == Err::<Seq<EntryView>, StoreError>(
                StoreError::InvalidEntry,
            ),
        },
{
    reveal_with_fuel(jsonl_entries, 2);
    let one = seq![line];
    assert(one.drop_last() =~= Seq::<Seq<char>>::empty());
    assert(one.last() == line);
    if let Some(e) = plain_entry(encode_utf8(line)) {
        assert(Seq::<EntryView>::empty().push(e) =~= seq![e]);
    }
    assert((one + more).take(1) =~= one);
    if jsonl_entries(one) is Err {
        lemma_jsonl_refused(one + more, 1);
    }
}

/// What an import does to a history that can be read. Where it succeeds, it
/// tells how many entries there were, and they follow the rows that were
/// there, as they were read and in that order. Where it fails, the history is
/// as it was.
pub proof fn law_imports_add_their_entries(
    a: &Store,
    b: &Store,
    entries: Result<Seq<EntryView>, StoreError>,
    r: Result<usize, StoreError>,
)
    requires
        imported_into(a, b, entries, r),
        room_for(a, entries),
        a.sound(),
    ensures
        r is Err ==> b.bytes() == a.bytes(),
        entries is Err ==> r is Err,
        r matches Ok(n) ==> n == entries->Ok_0.len() && (n > 0 ==> {
            let had = rows_from(ended(a.bytes()), 0, 0, None)->Ok_0;
            let has = rows_from(b.bytes(), 0, 0, None)->Ok_0;
            &&& rows_from(b.bytes(), 0, 0, None) is Ok
            &&& has.len() == had.len() + n
            &&& forall|j: int| 0 <= j < had.len() ==> #[trigger] has[j] == had[j]
            &&& forall|k: int|
                #![trigger entries->Ok_0[k]]
                0 <= k < n ==> has[had.len() + k].entry == entries->Ok_0[k]
        }),
{
    if let Ok(all) = entries {
        let done = match r {
            Ok(_) => Ok::<(), StoreError>(()),
            Err(e) => Err(e),
        };
        if all.len() > 0 {
            law_counters_are_not_negative(a.bytes(), bytes_view(a.seq));
            law_appended_entries_follow(a, b, all, done);
        }
    }
}

} // verus!
