//! The history store: appending entries under fresh sequence numbers, finding
//! them by ID, deleting them, and the counter that keeps the numbers apart.

use vstd::prelude::*;
use vstd::slice::slice_subrange;
use vstd::utf8::{
    decode_utf8, encode_utf8, encode_utf8_decode_utf8, encode_utf8_valid_utf8, valid_utf8,
};
use crate::entry::{
    decode_line, encode_error, encode_line, encoded_line, entry_views, is_one_line, is_whole,
    law_short_entries_are_stored, row_views, stored_entry, Entry, EntryView, Query, Row, RowView,
    StoreError, MAX_JSON_LINE_SIZE,
};
use crate::ids::{id_parts, id_text, law_id_names_its_parts, parse_id};
use crate::query::{answer, into_rows, law_whole_file_answers, query_part, shown};
use crate::rows::{
    law_later_rows_are_the_last, law_row_stands_at_its_offset, law_rows_add_up,
    law_rows_of_the_rest, read_rows, row_at, rows_from, views, StoredRow, StoredRowView,
};
use crate::scan::{
    after_last_newline, end_of_content, ended, find_line_end, last_line,
    law_lines_count_from_the_end, lemma_counted_after, lemma_last_line_end, lemma_last_line_is,
    lemma_line_end, lemma_line_end_same, lemma_line_end_shift, lemma_line_ends_at_newline,
    lemma_line_start, lemma_line_start_shift, lemma_newline_back, line_end, line_start_back,
    nth_line_start_from_end, read_last_line, trailing_line_size, trailing_size,
};
use crate::text::{
    bytes_view, chars_of, decimal, is_space, law_trimming_drops_white_space, lemma_decimal_ends,
    lemma_decimal_not_trimmed, lemma_decimal_parses, parse_i64, parsed_i64, push_decimal, strict,
    text_view, trim, trimmed,
};

verus! {

/// The mode with group and other stripped, or None when it is already
/// owner-only.
pub open spec fn stripped(mode: u32) -> Option<u32> {
    if mode & 0o077 != 0 {
        Some(mode & !0o077u32)
    } else {
        None
    }
}

/// The mode with group and other stripped, or None when it is already
/// owner-only. Both stores hold pasted secrets, so both mask the same bits.
pub fn owner_only(mode: u32) -> (r: Option<u32>)
    ensures
        r == stripped(mode),
{
    if mode & 0o077 != 0 {
        Some(mode & !0o077u32)
    } else {
        None
    }
}

/// Stripping a mode leaves nothing to group and other and everything else as it
/// was, and a mode is left alone just where there is nothing to strip.
pub proof fn law_owner_keeps_the_owner_bits(mode: u32)
    ensures
        stripped(mode) is None <==> mode & 0o077 == 0,
        stripped(mode) matches Some(m) ==> m & 0o077 == 0 && m & 0o700 == mode & 0o700 && m
            | 0o077u32 == mode | 0o077u32,
        (mode & !0o077u32) & 0o077 == 0,
        (mode & !0o077u32) & 0o700 == mode & 0o700,
        mode & 0o077 == 0 ==> mode & !0o077u32 == mode,
{
    assert((mode & !0o077u32) | 0o077u32 == mode | 0o077u32) by (bit_vector);
    assert((mode & !0o077u32) & 0o077 == 0) by (bit_vector);
    assert((mode & !0o077u32) & 0o700 == mode & 0o700) by (bit_vector);
    assert(mode & 0o077 == 0 ==> mode & !0o077u32 == mode) by (bit_vector);
}

fn beside(path: &str, suffix: &str) -> (r: String)
    ensures
        r@ == path@ + suffix@,
{
    let mut out: String = path.to_owned();
    out.append(suffix);
    out
}

/// The sidecar file that holds the counter.
pub fn seq_path(path: &str) -> (r: String)
    ensures
        r@ == path@ + ".seq"@,
{
    beside(path, ".seq")
}

/// The file that is locked while the history is read or written.
pub fn lock_path(path: &str) -> (r: String)
    ensures
        r@ == path@ + ".lock"@,
{
    beside(path, ".lock")
}

/// The file that a rewritten history is written to before it takes the
/// history's place.
pub fn temp_path(path: &str) -> (r: String)
    ensures
        r@ == path@ + ".tmp"@,
{
    beside(path, ".tmp")
}

/// The counter that the sidecar file holds, if it can be trusted: a number
/// that is not negative, in UTF-8, with nothing but white space around it.
pub open spec fn kept_counter(seq: Option<Seq<u8>>) -> Option<int> {
    match seq {
        Some(bytes) => if valid_utf8(bytes) {
            match parsed_i64(trimmed(decode_utf8(bytes)), 10) {
                Some(n) => if n >= 0 {
                    Some(n)
                } else {
                    None
                },
                None => None,
            }
        } else {
            None
        },
        None => None,
    }
}

/// What the sidecar file holds of a counter.
pub open spec fn counter_bytes(n: int) -> Seq<u8> {
    encode_utf8(decimal(n))
}

/// The counter recovered from what the last line of the history holds.
pub open spec fn recovered(last: Option<(i64, EntryView)>) -> Result<int, StoreError> {
    match last {
        None => Err(StoreError::SeqMalformed),
        Some((i, _)) => if i < 0 {
            Err(StoreError::SeqNegative)
        } else {
            Ok(i as int)
        },
    }
}

/// The last sequence number assigned: what the sidecar file holds, or else
/// the number of the last line of the history.
pub open spec fn counter(d: Seq<u8>, seq: Option<Seq<u8>>) -> Result<int, StoreError> {
    match kept_counter(seq) {
        Some(n) => Ok(n),
        None => match last_line(d) {
            None => Ok(0),
            Some(line) => recovered(stored_entry(line)),
        },
    }
}

/// The counter recovered from what the last line of the history holds.
pub fn recover(last: Option<(i64, Entry)>) -> (r: Result<i64, StoreError>)
    ensures
        match last {
            Some((i, e)) => match recovered(Some((i, e@))) {
                Ok(n) => r matches Ok(got) && got == n,
                Err(e) => r matches Err(got) && got == e,
            },
            None => r == Err::<i64, StoreError>(StoreError::SeqMalformed),
        },
{
    match last {
        None => Err(StoreError::SeqMalformed),
        Some((i, _)) => if i < 0 {
            Err(StoreError::SeqNegative)
        } else {
            Ok(i)
        },
    }
}

/// The counter that the sidecar file holds, if it can be trusted.
pub fn trusted_counter(seq: &Option<Vec<u8>>) -> (r: Option<i64>)
    ensures
        match r {
            Some(n) => kept_counter(bytes_view(*seq)) == Some(n as int),
            None => kept_counter(bytes_view(*seq)) is None,
        },
{
    let bytes: &Vec<u8> = match seq {
        Some(bytes) => bytes,
        None => {
            return None;
        },
    };
    match strict(bytes.as_slice()) {
        Some(s) => {
            let chars: Vec<char> = chars_of(s.as_str());
            match parse_i64(trim(chars.as_slice()), 10) {
                Some(n) => if n >= 0 {
                    Some(n)
                } else {
                    None
                },
                None => None,
            }
        },
        None => None,
    }
}

/// Last sequence number assigned. A missing, corrupt or negative sidecar, one
/// that is not UTF-8 among them, recovers from the last line instead of
/// reissuing IDs in use: in a readable history that line holds the last row.
pub fn read_seq(d: &[u8], seq: &Option<Vec<u8>>) -> (r: Result<i64, StoreError>)
    ensures
        match r {
            Ok(n) => counter(d@, bytes_view(*seq)) == Ok::<int, StoreError>(n as int) && n >= 0,
            Err(e) => counter(d@, bytes_view(*seq)) == Err::<int, StoreError>(e),
        },
        kept_counter(bytes_view(*seq)) is None ==> (rows_from(d@, 0, 0, None) matches Ok(rows)
            ==> r == if rows.len() == 0 {
            Ok::<i64, StoreError>(0)
        } else if rows.last().i < 0 {
            Err::<i64, StoreError>(StoreError::SeqNegative)
        } else {
            Ok::<i64, StoreError>(rows.last().i)
        }),
{
    match trusted_counter(seq) {
        Some(n) => Ok(n),
        None => match read_last_line(d) {
            None => Ok(0),
            Some(line) => {
                let read: Option<(i64, Entry)> = decode_line(line.as_slice());
                proof {
                    lemma_last_row(d@);
                }
                recover(read)
            },
        },
    }
}

/// The last row of a readable history is that of its last line.
proof fn lemma_last_row(d: Seq<u8>)
    requires
        d.len() > 0,
        stored_entry(last_line(d)->0.push(10)) == stored_entry(last_line(d)->0),
    ensures
        rows_from(d, 0, 0, None) matches Ok(rows) ==> rows.len() > 0 && stored_entry(
            last_line(d)->0,
        ) == Some((rows.last().i, rows.last().entry)),
{
    if let Ok(rows) = rows_from(d, 0, 0, None) {
        let from = line_start_back(d, 1).0;
        lemma_line_start(d, 1);
        law_later_rows_are_the_last(d, 0, 0, from, None);
        lemma_last_line_end(d);
        let line = d.subrange(from, d.len() as int);
        let last = rows_from(d, 0, from, None)->Ok_0;
        let row = row_at(line, from)->Ok_0;
        assert(rows_from(d, 0, d.len() as int, None) == Ok::<_, StoreError>(
            Seq::<StoredRowView>::empty(),
        ));
        assert(last =~= seq![row]);
        assert(rows.last() == last[0]);
        if d.last() == 10 {
            assert(line =~= last_line(d)->0.push(10));
        } else {
            assert(line =~= last_line(d)->0);
        }
    }
}

/// The lines that store entries, each under its sequence number, or why one of
/// them cannot be stored.
pub open spec fn encoded_rows(items: Seq<(i64, EntryView)>) -> Result<Seq<u8>, StoreError>
    decreases items.len(),
{
    if items.len() == 0 {
        Ok(Seq::empty())
    } else {
        match encode_error(items[0].0, items[0].1) {
            Some(e) => Err(e),
            None => match encoded_rows(items.drop_first()) {
                Ok(rest) => Ok(encoded_line(items[0].0, items[0].1) + rest),
                Err(e) => Err(e),
            },
        }
    }
}

/// The rows that the lines hold, the first of them at `base`.
pub open spec fn laid_out(items: Seq<(i64, EntryView)>, base: int) -> Seq<StoredRowView>
    decreases items.len(),
{
    if items.len() == 0 {
        Seq::empty()
    } else {
        let (i, entry) = items[0];
        seq![StoredRowView { entry, offset: base, i, count: 1 }] + laid_out(
            items.drop_first(),
            base + encoded_line(i, entry).len(),
        )
    }
}

/// Entries under the sequence numbers that follow `start`.
pub open spec fn numbered(start: int, entries: Seq<EntryView>) -> Seq<(i64, EntryView)> {
    Seq::new(entries.len(), |k: int| ((start + 1 + k) as i64, entries[k]))
}

/// Stored rows without their places.
pub open spec fn items_of(rows: Seq<StoredRowView>) -> Seq<(i64, EntryView)> {
    rows.map_values(|r: StoredRowView| (r.i, r.entry))
}

/// Whether the line of an entry is one line that holds the entry, with its
/// newline or without, and no other entry inside.
pub open spec fn stores_well(item: (i64, EntryView)) -> bool {
    let line = encoded_line(item.0, item.1);
    &&& encode_error(item.0, item.1) is None
    &&& is_one_line(line)
    &&& stored_entry(line) == Some(item)
    &&& stored_entry(line.drop_last()) == Some(item)
    &&& is_whole(line)
}

/// `out` with more lines behind it.
pub open spec fn followed(out: Seq<u8>, more: Result<Seq<u8>, StoreError>) -> Result<
    Seq<u8>,
    StoreError,
> {
    match more {
        Ok(lines) => Ok(out + lines),
        Err(e) => Err(e),
    }
}

/// Appends the line of an entry.
fn put_line(out: &mut Vec<u8>, i: i64, entry: &Entry) -> (r: Result<(), StoreError>)
    ensures
        match r {
            Ok(_) => stores_well((i, entry@)) && final(out)@ == old(out)@ + encoded_line(i, entry@),
            Err(e) => encode_error(i, entry@) == Some(e) && final(out)@ == old(out)@,
        },
{
    match encode_line(i, entry) {
        Ok(line) => {
            let mut line: Vec<u8> = line;
            out.append(&mut line);
            Ok(())
        },
        Err(e) => Err(e),
    }
}

proof fn lemma_encode_step(items: Seq<(i64, EntryView)>, k: int, out: Seq<u8>)
    requires
        0 <= k < items.len(),
    ensures
        encode_error(items[k].0, items[k].1) matches Some(e) ==> followed(
            out,
            encoded_rows(items.skip(k)),
        ) == Err::<Seq<u8>, StoreError>(e),
        encode_error(items[k].0, items[k].1) is None ==> followed(
            out,
            encoded_rows(items.skip(k)),
        ) == followed(
            out + encoded_line(items[k].0, items[k].1),
            encoded_rows(items.skip(k + 1)),
        ),
{
    let rest = items.skip(k);
    let line = encoded_line(items[k].0, items[k].1);
    assert(rest[0] == items[k]);
    assert(rest.drop_first() =~= items.skip(k + 1));
    if let Ok(lines) = encoded_rows(items.skip(k + 1)) {
        assert(out + (line + lines) =~= (out + line) + lines);
    }
}

/// The lines of entries under the sequence numbers that follow `start`.
fn encode_numbered(start: i64, entries: &[Entry]) -> (r: Result<Vec<u8>, StoreError>)
    requires
        start >= 0,
        start + entries@.len() <= i64::MAX,
    ensures
        ({
            let items = numbered(start as int, entry_views(entries@));
            match r {
                Ok(lines) => {
                    &&& encoded_rows(items) == Ok::<Seq<u8>, StoreError>(lines@)
                    &&& forall|k: int| 0 <= k < items.len() ==> stores_well(#[trigger] items[k])
                },
                Err(e) => encoded_rows(items) == Err::<Seq<u8>, StoreError>(e),
            }
        }),
{
    let ghost items = numbered(start as int, entry_views(entries@));
    let mut out: Vec<u8> = Vec::new();
    let mut k: usize = 0;
    proof {
        assert(items.skip(0) =~= items);
        if let Ok(lines) = encoded_rows(items) {
            assert(out@ + lines =~= lines);
        }
    }
    while k < entries.len()
        invariant
            k <= entries@.len(),
            start >= 0,
            start + entries@.len() <= i64::MAX,
            items == numbered(start as int, entry_views(entries@)),
            encoded_rows(items) == followed(out@, encoded_rows(items.skip(k as int))),
            forall|j: int| 0 <= j < k ==> stores_well(#[trigger] items[j]),
        decreases entries@.len() - k,
    {
        let i: i64 = start + 1 + k as i64;
        proof {
            lemma_encode_step(items, k as int, out@);
            assert(items[k as int] == (i, entries@[k as int]@));
        }
        match put_line(&mut out, i, &entries[k]) {
            Ok(_) => {},
            Err(e) => {
                return Err(e);
            },
        }
        k = k + 1;
    }
    assert(items.skip(k as int) =~= Seq::<(i64, EntryView)>::empty());
    assert(out@ + Seq::<u8>::empty() =~= out@);
    Ok(out)
}

/// The lines of rows that keep the sequence numbers they have.
fn encode_stored(rows: &Vec<StoredRow>) -> (r: Result<Vec<u8>, StoreError>)
    ensures
        ({
            let items = items_of(views(rows@));
            match r {
                Ok(lines) => {
                    &&& encoded_rows(items) == Ok::<Seq<u8>, StoreError>(lines@)
                    &&& forall|k: int| 0 <= k < items.len() ==> stores_well(#[trigger] items[k])
                },
                Err(e) => encoded_rows(items) == Err::<Seq<u8>, StoreError>(e),
            }
        }),
{
    let ghost items = items_of(views(rows@));
    let mut out: Vec<u8> = Vec::new();
    let mut k: usize = 0;
    proof {
        assert(items.skip(0) =~= items);
        if let Ok(lines) = encoded_rows(items) {
            assert(out@ + lines =~= lines);
        }
    }
    while k < rows.len()
        invariant
            k <= rows@.len(),
            items == items_of(views(rows@)),
            encoded_rows(items) == followed(out@, encoded_rows(items.skip(k as int))),
            forall|j: int| 0 <= j < k ==> stores_well(#[trigger] items[j]),
        decreases rows@.len() - k,
    {
        proof {
            lemma_encode_step(items, k as int, out@);
            assert(items[k as int] == (rows@[k as int].i, rows@[k as int].entry@));
        }
        match put_line(&mut out, rows[k].i, &rows[k].entry) {
            Ok(_) => {},
            Err(e) => {
                return Err(e);
            },
        }
        k = k + 1;
    }
    assert(items.skip(k as int) =~= Seq::<(i64, EntryView)>::empty());
    assert(out@ + Seq::<u8>::empty() =~= out@);
    Ok(out)
}

/// Lines that hold their entries read back as just those entries, with their
/// sequence numbers.
pub proof fn law_lines_read_back(items: Seq<(i64, EntryView)>, base: int)
    requires
        encoded_rows(items) is Ok,
        forall|k: int| 0 <= k < items.len() ==> stores_well(#[trigger] items[k]),
    ensures
        rows_from(encoded_rows(items)->Ok_0, base, 0, None) == Ok::<_, StoreError>(
            laid_out(items, base),
        ),
    decreases items.len(),
{
    if items.len() > 0 {
        let (i, entry) = items[0];
        let line = encoded_line(i, entry);
        let tail = items.drop_first();
        let rest = encoded_rows(tail)->Ok_0;
        let d = line + rest;
        assert(stores_well(items[0]));
        assert forall|k: int| 0 <= k < tail.len() implies stores_well(#[trigger] tail[k]) by {
            assert(stores_well(items[k + 1]));
        }
        law_lines_read_back(tail, base + line.len());
        lemma_line_end_of_one(line, rest, 0);
        assert(d.subrange(0, line.len() as int) =~= line);
        assert(d.skip(line.len() as int) =~= rest);
        law_rows_of_the_rest(d, base, line.len() as int, 0, None);
        let row = StoredRowView { entry, offset: base, i, count: 1 };
        assert(row_at(line, base) == Ok::<_, StoreError>(row));
    }
}

/// The last of the lines ends with a newline.
proof fn lemma_lines_are_ended(items: Seq<(i64, EntryView)>)
    requires
        encoded_rows(items) is Ok,
    ensures
        items.len() == 0 ==> encoded_rows(items)->Ok_0.len() == 0,
        items.len() > 0 ==> encoded_rows(items)->Ok_0.len() > 0 && encoded_rows(
            items,
        )->Ok_0.last() == 10,
    decreases items.len(),
{
    if items.len() > 0 {
        lemma_lines_are_ended(items.drop_first());
        assert(encoded_line(items[0].0, items[0].1).last() == 10);
    }
}

proof fn lemma_line_end_of_one(line: Seq<u8>, rest: Seq<u8>, p: int)
    requires
        is_one_line(line),
        0 <= p < line.len(),
    ensures
        line_end(line + rest, p) == line.len(),
    decreases line.len() - p,
{
    let d = line + rest;
    assert(d[p] == line[p]);
    if p < line.len() - 1 {
        assert(line[p] != 10);
        lemma_line_end_of_one(line, rest, p + 1);
    }
}

/// Whether no entry starts inside a line of `d`.
pub open spec fn whole_lines(d: Seq<u8>) -> bool {
    forall|p: int|
        0 < p < d.len() && d[p - 1] != 10 ==> #[trigger] stored_entry(line_at(d, p)) is None
}

/// Lines that are added behind whole lines leave them whole.
proof fn lemma_whole_lines_add(d: Seq<u8>, more: Seq<u8>)
    requires
        whole_lines(d),
        whole_lines(more),
        d.len() > 0 ==> d.last() == 10,
    ensures
        whole_lines(d + more),
{
    let w = d + more;
    assert forall|p: int| 0 < p < w.len() && w[p - 1] != 10 implies #[trigger] stored_entry(
        line_at(w, p),
    ) is None by {
        if p < d.len() {
            assert(w[p - 1] == d[p - 1]);
            lemma_line_end_same(d, more, p);
            lemma_line_end(d, p);
            assert(line_at(w, p) =~= line_at(d, p));
        } else {
            let q = p - d.len();
            assert(w.skip(d.len() as int) =~= more);
            if q > 0 {
                assert(w[p - 1] == more[q - 1]);
                lemma_line_end_shift(w, d.len() as int, q);
                lemma_line_end(more, q);
                assert(line_at(w, p) =~= line_at(more, q));
            } else {
                assert(w[p - 1] == d.last());
            }
        }
    }
}

/// Written lines are whole: an entry starts where a line does and nowhere
/// else.
pub proof fn law_written_lines_are_whole(items: Seq<(i64, EntryView)>)
    requires
        encoded_rows(items) is Ok,
        forall|k: int| 0 <= k < items.len() ==> stores_well(#[trigger] items[k]),
    ensures
        whole_lines(encoded_rows(items)->Ok_0),
    decreases items.len(),
{
    if items.len() > 0 {
        let line = encoded_line(items[0].0, items[0].1);
        let tail = items.drop_first();
        assert(stores_well(items[0]));
        assert forall|k: int| 0 <= k < tail.len() implies stores_well(#[trigger] tail[k]) by {
            assert(stores_well(items[k + 1]));
        }
        law_written_lines_are_whole(tail);
        assert forall|p: int| 0 < p < line.len() && line[p - 1] != 10 implies #[trigger] stored_entry(
            line_at(line, p),
        ) is None by {
            lemma_line_end_of_one(line, Seq::empty(), p);
            assert(line + Seq::<u8>::empty() =~= line);
            assert(line_at(line, p) =~= line.skip(p));
        }
        lemma_whole_lines_add(line, encoded_rows(tail)->Ok_0);
    }
}

proof fn lemma_encoded_last(items: Seq<(i64, EntryView)>)
    requires
        encoded_rows(items) is Ok,
        items.len() > 0,
    ensures
        encoded_rows(items.drop_last()) is Ok,
        encoded_rows(items)->Ok_0 == encoded_rows(items.drop_last())->Ok_0 + encoded_line(
            items.last().0,
            items.last().1,
        ),
    decreases items.len(),
{
    let line = encoded_line(items[0].0, items[0].1);
    let tail = items.drop_first();
    if tail.len() > 0 {
        lemma_encoded_last(tail);
        assert(tail.drop_last() =~= items.drop_last().drop_first());
        assert(items.drop_last()[0] == items[0]);
        let last = encoded_line(items.last().0, items.last().1);
        let mid = encoded_rows(tail.drop_last())->Ok_0;
        assert(line + (mid + last) =~= (line + mid) + last);
    } else {
        assert(encoded_rows(tail)->Ok_0 =~= Seq::<u8>::empty());
        assert(items.drop_last() =~= Seq::<(i64, EntryView)>::empty());
        assert(line + Seq::<u8>::empty() =~= Seq::<u8>::empty() + line);
    }
}

/// Without a counter of its own, a history of written lines has that of the
/// last of them.
proof fn lemma_written_counter(items: Seq<(i64, EntryView)>, seq: Option<Seq<u8>>)
    requires
        encoded_rows(items) is Ok,
        forall|k: int| 0 <= k < items.len() ==> stores_well(#[trigger] items[k]),
        kept_counter(seq) is None,
    ensures
        counter(encoded_rows(items)->Ok_0, seq) == if items.len() == 0 {
            Ok::<int, StoreError>(0)
        } else {
            recovered(Some(items.last()))
        },
{
    if items.len() > 0 {
        assert(stores_well(items[items.len() - 1]));
        lemma_encoded_last(items);
        lemma_lines_are_ended(items.drop_last());
        let line = encoded_line(items.last().0, items.last().1);
        lemma_last_line_is(encoded_rows(items.drop_last())->Ok_0, line);
    }
}

/// A history that can be read with its last line ended leaves room to end it.
proof fn lemma_room_to_end(d: Seq<u8>)
    requires
        rows_from(ended(d), 0, 0, None) is Ok,
    ensures
        after_last_newline(d) < MAX_JSON_LINE_SIZE,
{
    if d.len() > 0 && d.last() != 10 {
        let e = ended(d);
        let from = line_start_back(e, 1).0;
        lemma_line_start(e, 1);
        lemma_last_line_end(e);
        law_later_rows_are_the_last(e, 0, 0, from, None);
        assert(row_at(e.subrange(from, e.len() as int), from) is Ok);
        if from > 0 {
            assert(d[from - 1] == e[from - 1]);
        }
        lemma_counted_after(d, from - 1);
    }
}

/// What is written behind `d` to append lines to it: a newline first where
/// the last line lacks one. That line has to leave room for it.
pub open spec fn glued(d: Seq<u8>, lines: Seq<u8>) -> Result<Seq<u8>, StoreError> {
    if d.len() > 0 && d.last() != 10 {
        if trailing_size(d) >= MAX_JSON_LINE_SIZE {
            Err(StoreError::TrailingTooLong { size: trailing_size(d) as u64 })
        } else {
            Ok(seq![10u8] + lines)
        }
    } else {
        Ok(lines)
    }
}

/// What appending entries comes to: the counter to keep, and what to write
/// behind `d` once that is kept. An entry that cannot be stored changes not
/// even the counter.
pub open spec fn planned(
    d: Seq<u8>,
    seq: Option<Seq<u8>>,
    entries: Seq<EntryView>,
) -> Result<(int, Result<Seq<u8>, StoreError>), StoreError> {
    match counter(d, seq) {
        Err(e) => Err(e),
        Ok(start) => match encoded_rows(numbered(start, entries)) {
            Err(e) => Err(e),
            Ok(lines) => Ok((start + entries.len(), glued(d, lines))),
        },
    }
}

/// Whether there are sequence numbers left for `n` more entries.
pub open spec fn fits(d: Seq<u8>, seq: Option<Seq<u8>>, n: int) -> bool {
    counter(d, seq) matches Ok(start) ==> start + n <= i64::MAX
}

/// What appending comes to: the counter to keep first, so that a number is
/// never given out twice, then the bytes to write behind the history.
pub struct Addition {
    pub counter: Vec<u8>,
    pub lines: Result<Vec<u8>, StoreError>,
}

/// Plans an append. `d` is the history, or as much of its end as
/// `enough_to_append` asks for. The lines to write hold the entries under the
/// numbers that follow the counter.
pub fn plan_append(d: &[u8], seq: &Option<Vec<u8>>, entries: &[Entry]) -> (r: Result<
    Addition,
    StoreError,
>)
    requires
        fits(d@, bytes_view(*seq), entries@.len() as int),
    ensures
        match planned(d@, bytes_view(*seq), entry_views(entries@)) {
            Err(e) => r matches Err(e1) && e1 == e,
            Ok((n, Err(e))) => r matches Ok(a) && a.counter@ == counter_bytes(n) && (a.lines matches Err(
                e1,
            ) && e1 == e),
            Ok((n, Ok(lines))) => r matches Ok(a) && a.counter@ == counter_bytes(n) && (
            a.lines matches Ok(l) && l@ == lines),
        },
        r is Ok ==> {
            let items = numbered(counter(d@, bytes_view(*seq))->Ok_0, entry_views(entries@));
            forall|k: int| 0 <= k < items.len() ==> stores_well(#[trigger] items[k])
        },
{
    let start: i64 = match read_seq(d, seq) {
        Ok(n) => n,
        Err(e) => {
            return Err(e);
        },
    };
    let mut lines: Vec<u8> = match encode_numbered(start, entries) {
        Ok(l) => l,
        Err(e) => {
            return Err(e);
        },
    };
    let mut text: String = String::new();
    push_decimal(&mut text, start + entries.len() as i64);
    assert(text@ =~= decimal(start + entries@.len()));
    let mut counter: Vec<u8> = Vec::new();
    counter.extend_from_slice(text.as_str().as_bytes());
    assert(counter@ =~= counter_bytes(start + entries@.len()));
    if d.len() > 0 && d[d.len() - 1] != 10 {
        let size: usize = trailing_line_size(d);
        if size >= MAX_JSON_LINE_SIZE {
            let e: StoreError = StoreError::TrailingTooLong { size: size as u64 };
            return Ok(Addition { counter, lines: Err(e) });
        }
        let ghost all = lines@;
        let mut out: Vec<u8> = Vec::new();
        out.push(10);
        out.append(&mut lines);
        assert(out@ =~= seq![10u8] + all);
        return Ok(Addition { counter, lines: Ok(out) });
    }
    Ok(Addition { counter, lines: Ok(lines) })
}

/// Plans an append; None where no sequence numbers are left for it.
pub fn try_plan_append(d: &[u8], seq: &Option<Vec<u8>>, entries: &[Entry]) -> (r: Option<
    Result<Addition, StoreError>,
>)
    ensures
        r is None <==> !fits(d@, bytes_view(*seq), entries@.len() as int),
        r matches Some(plan) ==> match planned(d@, bytes_view(*seq), entry_views(entries@)) {
            Err(e) => plan matches Err(e1) && e1 == e,
            Ok((n, Err(e))) => plan matches Ok(a) && a.counter@ == counter_bytes(n) && (
            a.lines matches Err(e1) && e1 == e),
            Ok((n, Ok(lines))) => plan matches Ok(a) && a.counter@ == counter_bytes(n) && (
            a.lines matches Ok(l) && l@ == lines),
        },
{
    match read_seq(d, seq) {
        Ok(start) => {
            let left: u64 = (i64::MAX - start) as u64;
            if entries.len() as u64 > left {
                return None;
            }
        },
        Err(_) => {},
    }
    Some(plan_append(d, seq, entries))
}

/// Whether `d`, the history from the offset `base` on, is enough of it to
/// append: it is all of it, or it holds the last line and the newline before.
pub open spec fn enough(d: Seq<u8>, base: int) -> bool {
    base == 0 || !line_start_back(d, 1).1
}

/// Whether `d`, the history from the offset `base` on, is enough of it to
/// append.
pub fn enough_to_append(d: &[u8], base: u64) -> (r: bool)
    ensures
        r == enough(d@, base as int),
{
    base == 0 || !nth_line_start_from_end(d, 1).1
}

/// An append planned from enough of the history's end is the one planned from
/// all of it.
pub proof fn law_end_is_enough_to_append(
    whole: Seq<u8>,
    base: int,
    seq: Option<Seq<u8>>,
    entries: Seq<EntryView>,
)
    requires
        0 <= base <= whole.len(),
        enough(whole.skip(base), base),
    ensures
        planned(whole.skip(base), seq, entries) == planned(whole, seq, entries),
        fits(whole.skip(base), seq, entries.len() as int) == fits(whole, seq, entries.len() as int),
{
    let d = whole.skip(base);
    if base == 0 {
        assert(d =~= whole);
    } else {
        lemma_line_start_shift(whole, base, 1);
        lemma_newline_back(d, end_of_content(d), 1);
        let p = line_start_back(d, 1).0 - 1;
        assert(d.last() == whole.last());
        assert(whole[base + p] == 10);
        assert(end_of_content(whole) == base + end_of_content(d));
        assert(last_line(whole)->0 =~= last_line(d)->0);
    }
}

/// The entry of a line that is found at the offset of an ID with sequence
/// number `i`; None where the line is not the one the ID was made for.
pub open spec fn line_entry(line: Seq<u8>, i: int) -> Option<EntryView> {
    if line.len() == 0 || line.len() > MAX_JSON_LINE_SIZE {
        None
    } else {
        match stored_entry(line) {
            Some((j, entry)) => if entry.c.len() > 0 && j == i {
                Some(entry)
            } else {
                None
            },
            None => None,
        }
    }
}

/// The line at `offset`; nothing past the end.
pub open spec fn line_at(d: Seq<u8>, offset: int) -> Seq<u8> {
    if 0 <= offset < d.len() {
        d.subrange(offset, line_end(d, offset))
    } else {
        Seq::empty()
    }
}

/// The place of the first row from `k` on with this offset and number.
pub open spec fn place_of(rows: Seq<StoredRowView>, k: int, offset: int, i: int) -> Option<int>
    decreases rows.len() - k,
{
    if !(0 <= k < rows.len()) {
        None
    } else if rows[k].offset == offset && rows[k].i == i {
        Some(k)
    } else {
        place_of(rows, k + 1, offset, i)
    }
}

/// The place of the last of the first `n` rows with this number.
pub open spec fn last_with(rows: Seq<StoredRowView>, n: int, i: int) -> Option<int>
    decreases n,
{
    if n <= 0 {
        None
    } else if rows[n - 1].i == i {
        Some(n - 1)
    } else {
        last_with(rows, n - 1, i)
    }
}

/// What an ID finds: the entry of the line at its offset, if its number is
/// right, and otherwise that of the newest row with its number.
pub open spec fn looked_up(d: Seq<u8>, id: Seq<char>) -> Result<EntryView, StoreError> {
    match id_parts(id) {
        None => Err(StoreError::EntryNotFound),
        Some((offset, i)) => match line_entry(line_at(d, offset), i) {
            Some(entry) => Ok(entry),
            None => match rows_from(d, 0, 0, None) {
                Err(e) => Err(e),
                Ok(rows) => match last_with(rows, rows.len() as int, i) {
                    Some(k) => Ok(rows[k].entry),
                    None => Err(StoreError::EntryNotFound),
                },
            },
        },
    }
}

/// The entry of the line read at the offset of an ID, verifying its sequence
/// number; None where the line is absent or doesn't match. A line over the
/// limit may be cut short, as long as it is still over the limit.
pub fn get_at(line: &[u8], want_i: i64) -> (r: Option<Entry>)
    ensures
        match r {
            Some(e) => line_entry(line@, want_i as int) == Some(e@),
            None => line_entry(line@, want_i as int) is None,
        },
{
    if line.len() == 0 || line.len() > MAX_JSON_LINE_SIZE {
        return None;
    }
    match decode_line(line) {
        Some((i, entry)) => {
            if entry.c.as_str().is_empty() || i != want_i {
                return None;
            }
            Some(entry)
        },
        None => None,
    }
}

/// Index of the newest row with sequence number `i`. Only reached when the
/// offset in an ID has gone stale; `i` never changes, so it's the only thing
/// left to search on.
pub fn find_by_seq(rows: &Vec<StoredRow>, i: i64) -> (r: Option<usize>)
    ensures
        match r {
            Some(k) => last_with(views(rows@), rows@.len() as int, i as int) == Some(k as int) && k
                < rows@.len(),
            None => last_with(views(rows@), rows@.len() as int, i as int) is None,
        },
{
    let mut n: usize = rows.len();
    while n > 0
        invariant
            n <= rows@.len(),
            last_with(views(rows@), rows@.len() as int, i as int) == last_with(
                views(rows@),
                n as int,
                i as int,
            ),
        decreases n,
    {
        assert(views(rows@)[n - 1].i == rows@[n - 1].i);
        if rows[n - 1].i == i {
            return Some(n - 1);
        }
        n = n - 1;
    }
    None
}

/// Index of the row at `offset` with sequence number `i`.
pub fn find_at(rows: &Vec<StoredRow>, offset: i64, i: i64) -> (r: Option<usize>)
    ensures
        match r {
            Some(k) => place_of(views(rows@), 0, offset as int, i as int) == Some(k as int) && k
                < rows@.len(),
            None => place_of(views(rows@), 0, offset as int, i as int) is None,
        },
{
    let mut k: usize = 0;
    while k < rows.len()
        invariant
            k <= rows@.len(),
            place_of(views(rows@), 0, offset as int, i as int) == place_of(
                views(rows@),
                k as int,
                offset as int,
                i as int,
            ),
        decreases rows@.len() - k,
    {
        assert(views(rows@)[k as int].i == rows@[k as int].i);
        if offset >= 0 && rows[k].offset == offset as u64 && rows[k].i == i {
            return Some(k);
        }
        k = k + 1;
    }
    None
}

/// The row that a delete is about: the one at the offset of the ID, or the
/// newest with its number.
pub open spec fn deleted_place(rows: Seq<StoredRowView>, offset: int, i: int) -> Option<int> {
    match place_of(rows, 0, offset, i) {
        Some(k) => Some(k),
        None => last_with(rows, rows.len() as int, i),
    }
}

/// The rows that a delete leaves: all but the one at `k`, or all that have
/// another command.
pub open spec fn left_over(rows: Seq<StoredRowView>, k: int, all: bool) -> Seq<StoredRowView> {
    if all {
        rows.filter(|r: StoredRowView| r.entry.c != rows[k].entry.c)
    } else {
        rows.remove(k)
    }
}

/// What deleting the entry of an ID makes of a history: None where nothing
/// is to be deleted.
pub open spec fn deleted(d: Seq<u8>, id: Seq<char>, all: bool) -> Result<
    Option<Seq<u8>>,
    StoreError,
> {
    match id_parts(id) {
        None => Ok(None),
        Some((offset, i)) => match rows_from(d, 0, 0, None) {
            Err(e) => Err(e),
            Ok(rows) => match deleted_place(rows, offset, i) {
                None => Ok(None),
                Some(k) => match encoded_rows(items_of(left_over(rows, k, all))) {
                    Err(e) => Err(e),
                    Ok(bytes) => Ok(Some(bytes)),
                },
            },
        },
    }
}

/// The rows without the one at `k`.
pub fn remove_row(rows: Vec<StoredRow>, k: usize) -> (r: Vec<StoredRow>)
    requires
        k < rows@.len(),
    ensures
        views(r@) == views(rows@).remove(k as int),
{
    let ghost all = rows@;
    let mut rows: Vec<StoredRow> = rows;
    let _ = rows.remove(k);
    assert(views(rows@) =~= views(all).remove(k as int));
    rows
}

/// The rows that have another command than `c`.
pub fn remove_command(rows: Vec<StoredRow>, c: &String) -> (r: Vec<StoredRow>)
    ensures
        views(r@) == views(rows@).filter(|r: StoredRowView| r.entry.c != c@),
{
    let ghost f = |r: StoredRowView| r.entry.c != c@;
    let ghost all = views(rows@);
    let mut kept: Vec<StoredRow> = Vec::new();
    proof {
        reveal(Seq::filter);
        assert(all.take(0) =~= Seq::<StoredRowView>::empty());
        assert(views(kept@) =~= all.take(0).filter(f));
    }
    for row in it: rows.into_iter()
        invariant
            views(it.seq()) == all,
            f == (|r: StoredRowView| r.entry.c != c@),
            views(kept@) == all.take(it.index() as int).filter(f),
    {
        let ghost n = it.index() as int;
        let ghost v = row@;
        let ghost sofar = views(kept@);
        proof {
            assert(all[n] == v);
            reveal(Seq::filter);
            assert(all.take(n + 1).drop_last() =~= all.take(n));
            assert(all.take(n + 1).last() == v);
        }
        if row.entry.c != *c {
            kept.push(row);
            assert(views(kept@) =~= sofar.push(v));
        }
    }
    assert(all.take(all.len() as int) =~= all);
    kept
}

/// Plans a delete: the history that is left, or None where nothing is to be
/// deleted. The rows that stay read back as they were, each with the sequence
/// number it had, and their lines are whole.
pub fn plan_delete(d: &[u8], id: &str, all: bool) -> (r: Result<Option<Vec<u8>>, StoreError>)
    ensures
        match deleted(d@, id@, all) {
            Err(e) => r == Err::<Option<Vec<u8>>, StoreError>(e),
            Ok(None) => r == Ok::<Option<Vec<u8>>, StoreError>(None),
            Ok(Some(bytes)) => {
                let (offset, i) = id_parts(id@)->0;
                let rows = rows_from(d@, 0, 0, None)->Ok_0;
                let k = deleted_place(rows, offset, i)->0;
                let left = laid_out(items_of(left_over(rows, k, all)), 0);
                &&& r matches Ok(Some(b)) && b@ == bytes
                &&& rows_from(bytes, 0, 0, None) == Ok::<_, StoreError>(left)
                &&& ended(bytes) == bytes
                &&& whole_lines(bytes)
                &&& forall|top: int| #[trigger] in_sequence(rows, top) ==> in_sequence(left, top)
                &&& forall|seq: Option<Seq<u8>>| #[trigger]
                    kept_counter(seq) is None ==> counter(bytes, seq) == if left.len() == 0 {
                        Ok::<int, StoreError>(0)
                    } else {
                        recovered(Some((left.last().i, left.last().entry)))
                    }
            },
        },
        after_last_newline(d@) < MAX_JSON_LINE_SIZE && r is Ok && r->Ok_0 is Some ==> rows_from(
            ended(d@),
            0,
            0,
            None,
        ) == rows_from(d@, 0, 0, None),
{
    let size: usize = d.len();
    assert(d@.len() == size);
    let (offset, i) = match parse_id(id) {
        Some(parts) => parts,
        None => {
            return Ok(None);
        },
    };
    let rows: Vec<StoredRow> = match read_rows(d, 0, 0, &None) {
        Ok(rows) => rows,
        Err(e) => {
            return Err(e);
        },
    };
    // Both name the same row while numbers are unique; the first only
    // avoids a reverse scan while the offset is still current.
    let found: Option<usize> = match find_at(&rows, offset, i) {
        Some(k) => Some(k),
        None => find_by_seq(&rows, i),
    };
    let target: usize = match found {
        Some(k) => k,
        None => {
            return Ok(None);
        },
    };
    let ghost before = views(rows@);
    let kept: Vec<StoredRow> = if all {
        let c: String = rows[target].entry.c.clone();
        assert(before[target as int].entry.c == c@);
        remove_command(rows, &c)
    } else {
        remove_row(rows, target)
    };
    assert(views(kept@) == left_over(before, target as int, all));
    match encode_stored(&kept) {
        Ok(bytes) => {
            proof {
                let items = items_of(views(kept@));
                law_lines_read_back(items, 0);
                lemma_lines_are_ended(items);
                law_written_lines_are_whole(items);
                law_laid_out_rows(items, 0);
                assert forall|seq: Option<Seq<u8>>| #[trigger]
                    kept_counter(seq) is None implies counter(bytes@, seq) == if items.len() == 0 {
                    Ok::<int, StoreError>(0)
                } else {
                    let last = laid_out(items, 0).last();
                    recovered(Some((last.i, last.entry)))
                } by {
                    lemma_written_counter(items, seq);
                    if items.len() > 0 {
                        assert(laid_out(items, 0)[items.len() - 1].i == items.last().0);
                    }
                }
                assert forall|top: int| #[trigger] in_sequence(before, top) implies in_sequence(
                    laid_out(items, 0),
                    top,
                ) by {
                    law_deleting_keeps_the_sequence(before, target as int, all, top);
                }
            }
            Ok(Some(bytes))
        },
        Err(e) => Err(e),
    }
}

/// A history store: where it is kept, its history, and what its sidecar file
/// says of the counter; None where the file does not exist. An absent history
/// reads as empty everywhere.
pub struct Store {
    pub path: String,
    pub data: Option<Vec<u8>>,
    pub seq: Option<Vec<u8>>,
}

/// What an append makes of a store. On failure the history stays as it was,
/// and so does the counter unless the entries were ready to be written.
pub open spec fn appended(
    before: &Store,
    after: &Store,
    entries: Seq<EntryView>,
    r: Result<(), StoreError>,
) -> bool {
    &&& after.path@ == before.path@
    &&& if entries.len() == 0 {
        r is Ok && after.same(before)
    } else {
        &&& after.data is Some
        &&& match planned(before.bytes(), bytes_view(before.seq), entries) {
            Err(e) => {
                &&& r == Err::<(), StoreError>(e)
                &&& after.bytes() == before.bytes()
                &&& bytes_view(after.seq) == bytes_view(before.seq)
            },
            Ok((n, Err(e))) => {
                &&& r == Err::<(), StoreError>(e)
                &&& after.bytes() == before.bytes()
                &&& bytes_view(after.seq) == Some(counter_bytes(n))
            },
            Ok((n, Ok(lines))) => {
                &&& r is Ok
                &&& after.bytes() == before.bytes() + lines
                &&& bytes_view(after.seq) == Some(counter_bytes(n))
            },
        }
    }
}

/// Whether appended entries read back as they were given, under the numbers
/// that follow the counter, behind all that was there before.
pub open spec fn reads_back(before: &Store, after: &Store, entries: Seq<EntryView>) -> bool {
    let ground = ended(before.bytes());
    let start = counter(before.bytes(), bytes_view(before.seq))->Ok_0;
    let new = laid_out(numbered(start, entries), ground.len() as int);
    entries.len() > 0 ==> {
        &&& rows_from(after.bytes(), 0, ground.len() as int, None) == Ok::<_, StoreError>(new)
        &&& rows_from(ground, 0, 0, None) matches Ok(rows) ==> rows_from(after.bytes(), 0, 0, None)
            == Ok::<_, StoreError>(rows + new)
    }
}

/// What a delete makes of a store. Nothing changes where it fails or nothing
/// is to be deleted; else the rows that are left read back as they were.
pub open spec fn erased(
    before: &Store,
    after: &Store,
    id: Seq<char>,
    all: bool,
    r: Result<(), StoreError>,
) -> bool {
    &&& after.path@ == before.path@
    &&& bytes_view(after.seq) == bytes_view(before.seq)
    &&& match deleted(before.bytes(), id, all) {
        Err(e) => r == Err::<(), StoreError>(e) && after.same(before),
        Ok(None) => r is Ok && after.same(before),
        Ok(Some(bytes)) => {
            let (offset, i) = id_parts(id)->0;
            let rows = rows_from(before.bytes(), 0, 0, None)->Ok_0;
            let k = deleted_place(rows, offset, i)->0;
            &&& r is Ok
            &&& after.data is Some
            &&& after.bytes() == bytes
            &&& rows_from(bytes, 0, 0, None) == Ok::<_, StoreError>(
                laid_out(items_of(left_over(rows, k, all)), 0),
            )
        },
    }
}

impl Store {
    /// The bytes of the history.
    pub open spec fn bytes(&self) -> Seq<u8> {
        match self.data {
            Some(d) => d@,
            None => Seq::empty(),
        }
    }

    /// Whether two states of a store hold the same.
    pub open spec fn same(&self, other: &Store) -> bool {
        &&& self.path@ == other.path@
        &&& self.data is Some == other.data is Some
        &&& self.bytes() == other.bytes()
        &&& bytes_view(self.seq) == bytes_view(other.seq)
    }

    /// Whether every number in the history is unique and none is above the
    /// counter, so that none will be given out again.
    pub open spec fn sound(&self) -> bool {
        &&& rows_from(ended(self.bytes()), 0, 0, None) is Ok
        &&& counter(self.bytes(), bytes_view(self.seq)) is Ok
        &&& in_sequence(
            rows_from(ended(self.bytes()), 0, 0, None)->Ok_0,
            counter(self.bytes(), bytes_view(self.seq))->Ok_0,
        )
    }

    /// Whether the history can be read and its numbers are distinct.
    pub open spec fn apart(&self) -> bool {
        rows_from(self.bytes(), 0, 0, None) matches Ok(rows) && are_distinct(rows)
    }

    /// Whether no entry starts inside a line of the history, ended or not,
    /// and ending the last line changes no row.
    pub open spec fn tidy(&self) -> bool {
        &&& whole_lines(self.bytes())
        &&& whole_lines(ended(self.bytes()))
        &&& rows_from(ended(self.bytes()), 0, 0, None) == rows_from(self.bytes(), 0, 0, None)
    }

    /// A store at `path` with no history yet.
    pub fn new(path: String) -> (r: Store)
        ensures
            r.path@ == path@,
            r.data is None,
            r.seq is None,
            r.sound(),
            r.tidy(),
    {
        Store { path, data: None, seq: None }
    }

    fn contents(&self) -> (r: &[u8])
        ensures
            r@ == self.bytes(),
    {
        match &self.data {
            Some(d) => d.as_slice(),
            None => {
                let none: &[u8] = &[];
                assert(none@ =~= Seq::<u8>::empty());
                none
            },
        }
    }

    /// Appends entries, each assigned a fresh sequence number; on failure the
    /// history stays as it was, and so does the counter unless the entries
    /// were ready to be written. The entries read back as they were given,
    /// behind all that was there before.
    pub fn append(&mut self, entries: &[Entry]) -> (r: Result<(), StoreError>)
        requires
            fits(old(self).bytes(), bytes_view(old(self).seq), entries@.len() as int),
        ensures
            appended(old(self), final(self), entry_views(entries@), r),
            r is Ok ==> reads_back(old(self), final(self), entry_views(entries@)),
            old(self).sound() ==> final(self).sound(),
            old(self).tidy() ==> final(self).tidy(),
    {
        if entries.len() == 0 {
            return Ok(());
        }
        let plan: Result<Addition, StoreError> = plan_append(self.contents(), &self.seq, entries);
        let ghost before = self.bytes();
        let mut data: Vec<u8> = match self.data.take() {
            Some(d) => d,
            None => Vec::new(),
        };
        assert(data@ =~= before);
        match plan {
            Err(e) => {
                self.data = Some(data);
                Err(e)
            },
            Ok(addition) => {
                let ghost start = counter(before, bytes_view(self.seq))->Ok_0;
                let ghost items = numbered(start, entry_views(entries@));
                self.seq = Some(addition.counter);
                proof {
                    law_kept_counter_is_read(start + entries@.len());
                }
                match addition.lines {
                    Err(e) => {
                        self.data = Some(data);
                        Err(e)
                    },
                    Ok(lines) => {
                        let mut lines: Vec<u8> = lines;
                        data.append(&mut lines);
                        self.data = Some(data);
                        proof {
                            let all = encoded_rows(items)->Ok_0;
                            let w = ended(before);
                            assert(self.bytes() =~= w + all);
                            law_lines_read_back(items, w.len() as int);
                            assert(self.bytes().skip(w.len() as int) =~= all);
                            law_rows_of_the_rest(self.bytes(), 0, w.len() as int, 0, None);
                            if rows_from(w, 0, 0, None) is Ok {
                                law_rows_add_up(w, all, 0, 0, None);
                            }
                            if old(self).sound() {
                                let rows = rows_from(w, 0, 0, None)->Ok_0;
                                law_appended_numbers_are_fresh(
                                    rows,
                                    start,
                                    entry_views(entries@),
                                    w.len() as int,
                                );
                            }
                            lemma_lines_are_ended(items);
                            assert(ended(self.bytes()) == self.bytes());
                            if old(self).tidy() {
                                law_written_lines_are_whole(items);
                                lemma_whole_lines_add(w, all);
                            }
                        }
                        Ok(())
                    },
                }
            },
        }
    }

    /// Whether there are sequence numbers left for `n` more entries.
    pub fn has_room(&self, n: usize) -> (r: bool)
        ensures
            r == fits(self.bytes(), bytes_view(self.seq), n as int),
    {
        match read_seq(self.contents(), &self.seq) {
            Ok(start) => n as u64 <= (i64::MAX - start) as u64,
            Err(_) => true,
        }
    }

    /// Appends entries if there are sequence numbers left for them; None, and
    /// nothing changes, where there are not.
    pub fn try_append(&mut self, entries: &[Entry]) -> (r: Option<Result<(), StoreError>>)
        ensures
            r is None <==> !fits(
                old(self).bytes(),
                bytes_view(old(self).seq),
                entries@.len() as int,
            ),
            match r {
                None => final(self).same(old(self)),
                Some(done) => {
                    &&& appended(old(self), final(self), entry_views(entries@), done)
                    &&& done is Ok ==> reads_back(old(self), final(self), entry_views(entries@))
                    &&& old(self).sound() ==> final(self).sound()
                    &&& old(self).tidy() ==> final(self).tidy()
                },
            },
    {
        if !self.has_room(entries.len()) {
            return None;
        }
        Some(self.append(entries))
    }

    /// Every row in file order. Ending the last line changes nothing of it, if
    /// that line leaves room for a newline.
    pub fn list(&self) -> (r: Result<Vec<Row>, StoreError>)
        ensures
            match rows_from(self.bytes(), 0, 0, None) {
                Ok(rows) => r matches Ok(got) && row_views(got@) == shown(rows),
                Err(e) => r matches Err(e1) && e1 == e,
            },
            after_last_newline(self.bytes()) < MAX_JSON_LINE_SIZE ==> rows_from(
                ended(self.bytes()),
                0,
                0,
                None,
            ) == rows_from(self.bytes(), 0, 0, None),
    {
        match self.read_all() {
            Ok(rows) => Ok(into_rows(rows)),
            Err(e) => Err(e),
        }
    }

    fn read_all(&self) -> (r: Result<Vec<StoredRow>, StoreError>)
        ensures
            match r {
                Ok(rows) => rows_from(self.bytes(), 0, 0, None) == Ok::<_, StoreError>(
                    views(rows@),
                ),
                Err(e) => rows_from(self.bytes(), 0, 0, None) == Err::<
                    Seq<StoredRowView>,
                    StoreError,
                >(e),
            },
            after_last_newline(self.bytes()) < MAX_JSON_LINE_SIZE ==> rows_from(
                ended(self.bytes()),
                0,
                0,
                None,
            ) == rows_from(self.bytes(), 0, 0, None),
    {
        let d: &[u8] = self.contents();
        let size: usize = d.len();
        assert(d@.len() == size);
        read_rows(d, 0, 0, &None)
    }

    /// Rows for the picker, newest first. A limit selects by file position and
    /// only then sorts by time; they differ only inside imported history. What
    /// stands before the selected rows completes at most the count of the last
    /// one.
    pub fn query(&self, q: &Query) -> (r: Result<Vec<Row>, StoreError>)
        ensures
            match r {
                Ok(rows) => answer(self.bytes(), 0, text_view(q.dir), q.limit, q.uniq) == Some(
                    Ok::<_, StoreError>(row_views(rows@)),
                ),
                Err(e) => answer(self.bytes(), 0, text_view(q.dir), q.limit, q.uniq) == Some(
                    Err::<Seq<RowView>, StoreError>(e),
                ),
            },
    {
        let d: &[u8] = self.contents();
        let size: usize = d.len();
        assert(d@.len() == size);
        proof {
            law_whole_file_answers(d@, text_view(q.dir), q.limit, q.uniq);
        }
        match query_part(d, 0, q) {
            Some(found) => found,
            None => Ok(Vec::new()),
        }
    }

    /// The entry that an ID names.
    pub fn get(&self, id: &str) -> (r: Result<Entry, StoreError>)
        ensures
            match r {
                Ok(entry) => looked_up(self.bytes(), id@) == Ok::<EntryView, StoreError>(entry@),
                Err(e) => looked_up(self.bytes(), id@) == Err::<EntryView, StoreError>(e),
            },
    {
        let (offset, i) = match parse_id(id) {
            Some(parts) => parts,
            None => {
                return Err(StoreError::EntryNotFound);
            },
        };
        let d: &[u8] = self.contents();
        if (offset as u64) < d.len() as u64 {
            let from: usize = offset as usize;
            let line: &[u8] = slice_subrange(d, from, find_line_end(d, from));
            if let Some(entry) = get_at(line, i) {
                return Ok(entry);
            }
        }
        match self.read_all() {
            Err(e) => Err(e),
            Ok(rows) => match find_by_seq(&rows, i) {
                Some(k) => Ok(rows[k].entry.copy()),
                None => Err(StoreError::EntryNotFound),
            },
        }
    }

    /// Deletes an entry by ID, or every entry with the same command when
    /// `all` is set. Unknown IDs are a no-op. The rows that stay read back as
    /// they were, each with the sequence number it had.
    pub fn delete(&mut self, id: &str, all: bool) -> (r: Result<(), StoreError>)
        ensures
            erased(old(self), final(self), id@, all, r),
            old(self).sound() ==> final(self).sound(),
            old(self).tidy() ==> final(self).tidy(),
    {
        let plan: Result<Option<Vec<u8>>, StoreError> = plan_delete(self.contents(), id, all);
        match plan {
            Ok(Some(bytes)) => {
                self.data = Some(bytes);
                proof {
                    if old(self).sound() {
                        lemma_room_to_end(old(self).bytes());
                        let (offset, i) = id_parts(id@)->0;
                        let rows = rows_from(old(self).bytes(), 0, 0, None)->Ok_0;
                        let k = deleted_place(rows, offset, i)->0;
                        let left = laid_out(items_of(left_over(rows, k, all)), 0);
                        let top = counter(old(self).bytes(), bytes_view(old(self).seq))->Ok_0;
                        assert(in_sequence(rows, top));
                        assert(in_sequence(left, top));
                        if kept_counter(bytes_view(self.seq)) is None && left.len() > 0 {
                            assert(in_sequence(left, left[left.len() - 1].i as int));
                        }
                    }
                }
                Ok(())
            },
            Ok(None) => Ok(()),
            Err(e) => Err(e),
        }
    }
}

/// Whether the numbers of rows grow from row to row, up to `top` at most: then
/// they are unique.
pub open spec fn in_sequence(rows: Seq<StoredRowView>, top: int) -> bool {
    &&& forall|k: int| 0 <= k < rows.len() ==> 0 <= (#[trigger] rows[k]).i <= top
    &&& forall|a: int, b: int|
        #![trigger rows[a], rows[b]]
        0 <= a < b < rows.len() ==> rows[a].i < rows[b].i
}

/// Whether no two rows have the same number, and none a negative one.
pub open spec fn are_distinct(rows: Seq<StoredRowView>) -> bool {
    &&& forall|k: int| 0 <= k < rows.len() ==> (#[trigger] rows[k]).i >= 0
    &&& forall|a: int, b: int|
        #![trigger rows[a], rows[b]]
        0 <= a < b < rows.len() ==> rows[a].i != rows[b].i
}

/// Lines hold the numbers and entries that were laid out, in that order.
pub proof fn law_laid_out_rows(items: Seq<(i64, EntryView)>, base: int)
    ensures
        laid_out(items, base).len() == items.len(),
        forall|k: int|
            #![trigger laid_out(items, base)[k]]
            0 <= k < items.len() ==> {
                let row = laid_out(items, base)[k];
                (row.i, row.entry) == items[k] && row.count == 1 && row.offset >= base
            },
    decreases items.len(),
{
    if items.len() > 0 {
        let next = base + encoded_line(items[0].0, items[0].1).len();
        law_laid_out_rows(items.drop_first(), next);
        assert forall|k: int| #![trigger laid_out(items, base)[k]] 0 <= k < items.len() implies {
            let row = laid_out(items, base)[k];
            (row.i, row.entry) == items[k] && row.count == 1 && row.offset >= base
        } by {
            if k > 0 {
                assert(laid_out(items, base)[k] == laid_out(items.drop_first(), next)[k - 1]);
                assert(items.drop_first()[k - 1] == items[k]);
            }
        }
    }
}

/// Appended entries get numbers that no row has: a history in sequence up to
/// the counter is in sequence up to the new counter.
pub proof fn law_appended_numbers_are_fresh(
    rows: Seq<StoredRowView>,
    start: int,
    entries: Seq<EntryView>,
    base: int,
)
    requires
        start >= 0,
        start + entries.len() <= i64::MAX,
        in_sequence(rows, start),
    ensures
        in_sequence(rows + laid_out(numbered(start, entries), base), start + entries.len()),
{
    let items = numbered(start, entries);
    let new = laid_out(items, base);
    let all = rows + new;
    law_laid_out_rows(items, base);
    assert forall|k: int| 0 <= k < all.len() implies 0 <= (#[trigger] all[k]).i <= start
        + entries.len() by {
        if k >= rows.len() {
            let j = k - rows.len();
            assert(new[j].i == items[j].0);
        }
    }
    assert forall|a: int, b: int| #![trigger all[a], all[b]] 0 <= a < b < all.len() implies all[a].i
        < all[b].i by {
        if b >= rows.len() {
            let j = b - rows.len();
            assert(new[j].i == items[j].0);
            if a >= rows.len() {
                let h = a - rows.len();
                assert(new[h].i == items[h].0);
            }
        }
    }
}

/// The counter that was kept is the counter that is read.
pub proof fn law_kept_counter_is_read(n: int)
    requires
        0 <= n <= i64::MAX,
    ensures
        kept_counter(Some(counter_bytes(n))) == Some(n),
        forall|d: Seq<u8>| #[trigger] counter(d, Some(counter_bytes(n))) == Ok::<int, StoreError>(n),
{
    lemma_decimal_parses(n, i64::MIN as int, i64::MAX as int);
    lemma_decimal_not_trimmed(n);
    encode_utf8_valid_utf8(decimal(n));
    encode_utf8_decode_utf8(decimal(n));
}

/// The rows that a delete leaves are rows of the history in the same order;
/// so their numbers stay in sequence.
pub proof fn law_deleting_keeps_the_sequence(
    rows: Seq<StoredRowView>,
    k: int,
    all: bool,
    top: int,
)
    requires
        in_sequence(rows, top),
        0 <= k < rows.len(),
    ensures
        in_sequence(laid_out(items_of(left_over(rows, k, all)), 0), top),
{
    let left = left_over(rows, k, all);
    if all {
        lemma_filter_in_sequence(rows, |r: StoredRowView| r.entry.c != rows[k].entry.c, top);
    } else {
        assert forall|a: int, b: int|
            #![trigger left[a], left[b]]
            0 <= a < b < left.len() implies left[a].i < left[b].i by {
            let x = if a < k {
                a
            } else {
                a + 1
            };
            let y = if b < k {
                b
            } else {
                b + 1
            };
            assert(left[a] == rows[x] && left[b] == rows[y]);
        }
        assert forall|a: int| 0 <= a < left.len() implies 0 <= (#[trigger] left[a]).i <= top by {
            let x = if a < k {
                a
            } else {
                a + 1
            };
            assert(left[a] == rows[x]);
        }
    }
    law_laid_out_rows(items_of(left), 0);
    let out = laid_out(items_of(left), 0);
    assert forall|a: int| 0 <= a < out.len() implies 0 <= (#[trigger] out[a]).i <= top by {
        assert(out[a].i == left[a].i);
    }
    assert forall|a: int, b: int| #![trigger out[a], out[b]] 0 <= a < b < out.len() implies out[a].i
        < out[b].i by {
        assert(out[a].i == left[a].i && out[b].i == left[b].i);
    }
}

proof fn lemma_filter_in_sequence(
    rows: Seq<StoredRowView>,
    f: spec_fn(StoredRowView) -> bool,
    top: int,
)
    requires
        in_sequence(rows, top),
    ensures
        in_sequence(rows.filter(f), top),
        forall|k: int|
            0 <= k < rows.filter(f).len() ==> rows.contains(#[trigger] rows.filter(f)[k]),
    decreases rows.len(),
{
    reveal(Seq::filter);
    if rows.len() > 0 {
        let less = rows.drop_last();
        lemma_filter_in_sequence(less, f, top);
        let g = less.filter(f);
        let out = rows.filter(f);
        assert forall|k: int| 0 <= k < g.len() implies rows.contains(#[trigger] g[k]) && g[k].i
            < rows.last().i by {
            assert(less.contains(g[k]));
            let j = less.index_of(g[k]);
            assert(rows[j] == g[k]);
        }
        assert(rows[rows.len() - 1] == rows.last());
    }
}

/// Deleting an entry leaves every other row and not the row itself; deleting
/// all of its command leaves just the rows with another command.
pub proof fn law_deleting_takes_what_it_should(
    rows: Seq<StoredRowView>,
    k: int,
    all: bool,
    row: StoredRowView,
)
    requires
        are_distinct(rows),
        0 <= k < rows.len(),
        rows.contains(row),
    ensures
        left_over(rows, k, all).contains(row) <==> if all {
            row.entry.c != rows[k].entry.c
        } else {
            row != rows[k]
        },
{
    let left = left_over(rows, k, all);
    let j = rows.index_of(row);
    if all {
        let f = |r: StoredRowView| r.entry.c != rows[k].entry.c;
        if f(row) {
            rows.lemma_filter_contains(f, j);
        }
        if left.contains(row) {
            rows.lemma_filter_pred(f, left.index_of(row));
        }
    } else {
        if j < k {
            assert(left[j] == row);
        } else if j > k {
            assert(left[j - 1] == row);
        }
        if left.contains(row) {
            let x = left.index_of(row);
            let y = if x < k {
                x
            } else {
                x + 1
            };
            assert(rows[y] == row);
        }
    }
}

proof fn lemma_last_with(rows: Seq<StoredRowView>, n: int, i: int)
    requires
        0 <= n <= rows.len(),
    ensures
        last_with(rows, n, i) matches Some(k) ==> 0 <= k < n && rows[k].i == i,
        last_with(rows, n, i) is None ==> forall|k: int|
            0 <= k < n ==> (#[trigger] rows[k]).i != i,
    decreases n,
{
    if n > 0 && rows[n - 1].i != i {
        lemma_last_with(rows, n - 1, i);
    }
}

proof fn lemma_place_of(rows: Seq<StoredRowView>, k: int, offset: int, i: int)
    requires
        0 <= k <= rows.len(),
    ensures
        place_of(rows, k, offset, i) matches Some(p) ==> k <= p < rows.len() && rows[p].offset
            == offset && rows[p].i == i,
    decreases rows.len() - k,
{
    if k < rows.len() && !(rows[k].offset == offset && rows[k].i == i) {
        lemma_place_of(rows, k + 1, offset, i);
    }
}

/// The ID of a row of a readable history finds the row's entry.
pub proof fn law_ids_find_their_rows(d: Seq<u8>, k: int)
    requires
        d.len() <= i64::MAX,
        rows_from(d, 0, 0, None) matches Ok(rows) && 0 <= k < rows.len() && rows[k].i >= 0,
    ensures
        ({
            let row = rows_from(d, 0, 0, None)->Ok_0[k];
            looked_up(d, id_text(row.offset, row.i as int)) == Ok::<EntryView, StoreError>(
                row.entry,
            )
        }),
{
    let row = rows_from(d, 0, 0, None)->Ok_0[k];
    law_row_stands_at_its_offset(d, 0, 0, None, k);
    law_id_names_its_parts(row.offset as u64, row.i);
}

/// IDs outlive appends: whatever is added behind a history, once its last line
/// is ended, readable or not, the ID of a row finds the row's entry as before.
pub proof fn law_ids_outlive_appends(d: Seq<u8>, more: Seq<u8>, k: int)
    requires
        ended(d).len() + more.len() <= i64::MAX,
        rows_from(ended(d), 0, 0, None) matches Ok(rows) && 0 <= k < rows.len() && rows[k].i >= 0,
    ensures
        ({
            let row = rows_from(ended(d), 0, 0, None)->Ok_0[k];
            looked_up(ended(d) + more, id_text(row.offset, row.i as int)) == Ok::<
                EntryView,
                StoreError,
            >(row.entry)
        }),
{
    let e = ended(d);
    let row = rows_from(e, 0, 0, None)->Ok_0[k];
    law_row_stands_at_its_offset(e, 0, 0, None, k);
    law_id_names_its_parts(row.offset as u64, row.i);
    lemma_line_end_same(e, more, row.offset);
    assert(line_at(e + more, row.offset) =~= line_at(e, row.offset));
}

/// A stale ID still finds its entry. Whatever offset it has, the row with its
/// number is the row found, in a readable history whose lines are whole and
/// whose numbers are distinct.
pub proof fn law_stale_ids_find_their_rows(d: Seq<u8>, k: int, offset: u64)
    requires
        offset <= i64::MAX,
        rows_from(d, 0, 0, None) matches Ok(rows) && are_distinct(rows) && 0 <= k < rows.len(),
        whole_lines(d),
    ensures
        ({
            let row = rows_from(d, 0, 0, None)->Ok_0[k];
            looked_up(d, id_text(offset as int, row.i as int)) == Ok::<EntryView, StoreError>(
                row.entry,
            )
        }),
{
    let rows = rows_from(d, 0, 0, None)->Ok_0;
    let row = rows[k];
    let at = offset as int;
    law_id_names_its_parts(offset, row.i);
    lemma_last_with(rows, rows.len() as int, row.i as int);
    if line_entry(line_at(d, at), row.i as int) is Some {
        assert(stored_entry(line_at(d, at)) is Some);
        law_later_rows_are_the_last(d, 0, 0, at, None);
        let last = rows_from(d, 0, at, None)->Ok_0;
        lemma_line_end(d, at);
        let first = row_at(line_at(d, at), at)->Ok_0;
        assert(last[0] == first);
        assert(first.i == row.i);
        let j = rows.len() - last.len();
        assert(rows[j] == first);
        assert(j == k);
    } else {
        let j = last_with(rows, rows.len() as int, row.i as int)->0;
        assert(rows[j].i == row.i);
        assert(j == k);
    }
}

/// The numbers of a sound and tidy store are distinct.
pub proof fn law_sound_numbers_are_distinct(s: &Store)
    requires
        s.sound(),
        s.tidy(),
    ensures
        s.apart(),
{
}

/// Whether `b` is what an append or a delete made of `a`.
pub open spec fn follows(a: &Store, b: &Store) -> bool {
    ||| exists|entries: Seq<EntryView>, r: Result<(), StoreError>| #[trigger]
        appended(a, b, entries, r) && (r is Ok ==> reads_back(a, b, entries)) && fits(
            a.bytes(),
            bytes_view(a.seq),
            entries.len() as int,
        )
    ||| exists|id: Seq<char>, all: bool, r: Result<(), StoreError>| #[trigger]
        erased(a, b, id, all, r)
}

proof fn lemma_filter_distinct(rows: Seq<StoredRowView>, f: spec_fn(StoredRowView) -> bool)
    requires
        are_distinct(rows),
    ensures
        are_distinct(rows.filter(f)),
    decreases rows.len(),
{
    reveal(Seq::filter);
    if rows.len() > 0 {
        let less = rows.drop_last();
        let g = less.filter(f);
        lemma_filter_distinct(less, f);
        assert forall|k: int| 0 <= k < g.len() implies (#[trigger] g[k]).i != rows.last().i by {
            assert(g.contains(g[k]));
            less.lemma_filter_contains_rev(f, g[k]);
            let j = less.index_of(g[k]);
            assert(rows[j] == g[k]);
            assert(rows[rows.len() - 1] == rows.last());
        }
        assert(rows[rows.len() - 1].i >= 0);
    }
}

/// Numbers stay distinct: always over a delete, and over an append unless the
/// counter has fallen behind them.
pub proof fn law_numbers_stay_apart(a: &Store, b: &Store)
    requires
        a.apart(),
        a.tidy(),
        follows(a, b),
        counter(a.bytes(), bytes_view(a.seq)) matches Ok(n) ==> forall|k: int|
            0 <= k < rows_from(a.bytes(), 0, 0, None)->Ok_0.len() ==> (#[trigger] rows_from(
                a.bytes(),
                0,
                0,
                None,
            )->Ok_0[k]).i <= n,
    ensures
        b.apart(),
{
    let old_rows = rows_from(a.bytes(), 0, 0, None)->Ok_0;
    if a.bytes() == b.bytes() {
    } else if exists|entries: Seq<EntryView>, r: Result<(), StoreError>| #[trigger]
        appended(a, b, entries, r) && (r is Ok ==> reads_back(a, b, entries)) && fits(
            a.bytes(),
            bytes_view(a.seq),
            entries.len() as int,
        ) {
        let (entries, r) = choose|entries: Seq<EntryView>, r: Result<(), StoreError>| #[trigger]
            appended(a, b, entries, r) && (r is Ok ==> reads_back(a, b, entries)) && fits(
                a.bytes(),
                bytes_view(a.seq),
                entries.len() as int,
            );
        let start = counter(a.bytes(), bytes_view(a.seq))->Ok_0;
        let items = numbered(start, entries);
        let base = ended(a.bytes()).len() as int;
        let new = laid_out(items, base);
        let all = old_rows + new;
        law_laid_out_rows(items, base);
        assert(rows_from(b.bytes(), 0, 0, None)->Ok_0 == all);
        assert forall|k: int| 0 <= k < new.len() implies (#[trigger] new[k]).i == start + 1 + k by {
            assert(new[k].i == items[k].0);
        }
        assert forall|x: int, y: int|
            #![trigger all[x], all[y]]
            0 <= x < y < all.len() implies all[x].i != all[y].i by {
            if y >= old_rows.len() {
                assert(all[y] == new[y - old_rows.len()]);
                if x >= old_rows.len() {
                    assert(all[x] == new[x - old_rows.len()]);
                } else {
                    assert(all[x] == old_rows[x]);
                }
            }
        }
    } else {
        let (id, all, r) = choose|id: Seq<char>, all: bool, r: Result<(), StoreError>| #[trigger]
            erased(a, b, id, all, r);
        let (offset, i) = id_parts(id)->0;
        let k = deleted_place(old_rows, offset, i)->0;
        lemma_deleted_place(old_rows, offset, i);
        let left = left_over(old_rows, k, all);
        if all {
            lemma_filter_distinct(
                old_rows,
                |r: StoredRowView| r.entry.c != old_rows[k].entry.c,
            );
        } else {
            assert forall|x: int, y: int|
                #![trigger left[x], left[y]]
                0 <= x < y < left.len() implies left[x].i != left[y].i by {
                let p = if x < k {
                    x
                } else {
                    x + 1
                };
                let q = if y < k {
                    y
                } else {
                    y + 1
                };
                assert(left[x] == old_rows[p] && left[y] == old_rows[q]);
            }
        }
        law_laid_out_rows(items_of(left), 0);
        let out = laid_out(items_of(left), 0);
        assert forall|x: int| 0 <= x < out.len() implies (#[trigger] out[x]).i >= 0 by {
            assert(out[x].i == left[x].i);
        }
        assert forall|x: int, y: int|
            #![trigger out[x], out[y]]
            0 <= x < y < out.len() implies out[x].i != out[y].i by {
            assert(out[x].i == left[x].i && out[y].i == left[y].i);
        }
    }
}

/// Whether a row of the history has the number `i`.
pub open spec fn has_number(d: Seq<u8>, i: i64) -> bool {
    exists|k: int|
        0 <= k < rows_from(d, 0, 0, None)->Ok_0.len() && (#[trigger] rows_from(
            d,
            0,
            0,
            None,
        )->Ok_0[k]).i == i
}

/// A number keeps its entry over an append or a delete.
proof fn lemma_number_keeps_its_entry(a: &Store, b: &Store, j: int, h: int)
    requires
        a.apart(),
        b.apart(),
        a.tidy(),
        follows(a, b),
        0 <= j < rows_from(a.bytes(), 0, 0, None)->Ok_0.len(),
        0 <= h < rows_from(b.bytes(), 0, 0, None)->Ok_0.len(),
        rows_from(a.bytes(), 0, 0, None)->Ok_0[j].i == rows_from(b.bytes(), 0, 0, None)->Ok_0[h].i,
    ensures
        rows_from(a.bytes(), 0, 0, None)->Ok_0[j].entry == rows_from(
            b.bytes(),
            0,
            0,
            None,
        )->Ok_0[h].entry,
{
    let old_rows = rows_from(a.bytes(), 0, 0, None)->Ok_0;
    let new_rows = rows_from(b.bytes(), 0, 0, None)->Ok_0;
    if a.bytes() == b.bytes() {
        assert(old_rows[h].i == old_rows[j].i);
        assert(h == j);
    } else if exists|entries: Seq<EntryView>, r: Result<(), StoreError>| #[trigger]
        appended(a, b, entries, r) && (r is Ok ==> reads_back(a, b, entries)) {
        let (entries, r) = choose|entries: Seq<EntryView>, r: Result<(), StoreError>| #[trigger]
            appended(a, b, entries, r) && (r is Ok ==> reads_back(a, b, entries));
        assert(new_rows[j] == old_rows[j]);
        assert(new_rows[h].i == new_rows[j].i);
        assert(h == j);
    } else {
        let (id, all, r) = choose|id: Seq<char>, all: bool, r: Result<(), StoreError>| #[trigger]
            erased(a, b, id, all, r);
        let (offset, i) = id_parts(id)->0;
        let k = deleted_place(old_rows, offset, i)->0;
        lemma_deleted_place(old_rows, offset, i);
        let left = left_over(old_rows, k, all);
        law_laid_out_rows(items_of(left), 0);
        assert((new_rows[h].i, new_rows[h].entry) == (left[h].i, left[h].entry));
        let x = if all {
            let f = |r: StoredRowView| r.entry.c != old_rows[k].entry.c;
            assert(left.contains(left[h]));
            old_rows.lemma_filter_contains_rev(f, left[h]);
            old_rows.index_of(left[h])
        } else if h < k {
            h
        } else {
            h + 1
        };
        assert(old_rows[x] == left[h]);
        assert(old_rows[x].i == old_rows[j].i);
        assert(x == j);
    }
}

proof fn lemma_deleted_place(rows: Seq<StoredRowView>, offset: int, i: int)
    ensures
        deleted_place(rows, offset, i) matches Some(k) ==> 0 <= k < rows.len() && rows[k].i == i,
{
    lemma_place_of(rows, 0, offset, i);
    lemma_last_with(rows, rows.len() as int, i);
}

proof fn lemma_row_is_still_there(states: Seq<Store>, k: int, n: int) -> (h: int)
    requires
        0 <= n < states.len(),
        forall|m: int|
            0 <= m < states.len() ==> (#[trigger] states[m]).apart() && states[m].tidy(),
        forall|m: int|
            #![trigger states[m]]
            0 <= m < states.len() - 1 ==> follows(&states[m], &states[m + 1]),
        rows_from(states[0].bytes(), 0, 0, None) matches Ok(rows) && 0 <= k < rows.len(),
        forall|m: int|
            0 <= m < states.len() ==> has_number(
                (#[trigger] states[m]).bytes(),
                rows_from(states[0].bytes(), 0, 0, None)->Ok_0[k].i,
            ),
    ensures
        ({
            let row = rows_from(states[0].bytes(), 0, 0, None)->Ok_0[k];
            let rows = rows_from(states[n].bytes(), 0, 0, None)->Ok_0;
            0 <= h < rows.len() && rows[h].i == row.i && rows[h].entry == row.entry
        }),
    decreases n,
{
    let row = rows_from(states[0].bytes(), 0, 0, None)->Ok_0[k];
    if n == 0 {
        k
    } else {
        let j = lemma_row_is_still_there(states, k, n - 1);
        let d = states[n].bytes();
        assert(has_number(states[n].bytes(), row.i));
        let h = choose|h: int|
            0 <= h < rows_from(d, 0, 0, None)->Ok_0.len() && (#[trigger] rows_from(
                d,
                0,
                0,
                None,
            )->Ok_0[h]).i == row.i;
        assert(follows(&states[n - 1], &states[n - 1 + 1]));
        assert(states[n - 1].apart() && states[n].apart());
        lemma_number_keeps_its_entry(&states[n - 1], &states[n], j, h);
        h
    }
}

/// IDs outlive every change: through any appends and deletes, as long as none
/// of them takes the row, the ID that a row had at first finds the row's entry,
/// wherever its line has moved and whatever other rows have the same text. The
/// numbers in the history have to be distinct, in whatever order. (A new store
/// is sound and tidy, both operations keep it so, and the numbers of a sound
/// and tidy store are distinct.)
pub proof fn law_ids_outlive_changes(states: Seq<Store>, k: int)
    requires
        states.len() > 0,
        states[0].bytes().len() <= i64::MAX,
        forall|m: int|
            0 <= m < states.len() ==> (#[trigger] states[m]).apart() && states[m].tidy(),
        forall|m: int|
            #![trigger states[m]]
            0 <= m < states.len() - 1 ==> follows(&states[m], &states[m + 1]),
        rows_from(states[0].bytes(), 0, 0, None) matches Ok(rows) && 0 <= k < rows.len(),
        forall|m: int|
            0 <= m < states.len() ==> has_number(
                (#[trigger] states[m]).bytes(),
                rows_from(states[0].bytes(), 0, 0, None)->Ok_0[k].i,
            ),
    ensures
        ({
            let row = rows_from(states[0].bytes(), 0, 0, None)->Ok_0[k];
            looked_up(states.last().bytes(), id_text(row.offset, row.i as int)) == Ok::<
                EntryView,
                StoreError,
            >(row.entry)
        }),
{
    let row = rows_from(states[0].bytes(), 0, 0, None)->Ok_0[k];
    law_row_stands_at_its_offset(states[0].bytes(), 0, 0, None, k);
    let h = lemma_row_is_still_there(states, k, states.len() - 1);
    let last = states[states.len() - 1];
    assert(last.apart() && last.tidy());
    assert(states[0].apart());
    law_stale_ids_find_their_rows(last.bytes(), h, row.offset as u64);
}

/// Deleting an ID whose number no row has changes nothing, and such an ID is
/// not found in a history whose lines are whole.
pub proof fn law_unknown_ids_are_harmless(d: Seq<u8>, id: Seq<char>, all: bool)
    requires
        rows_from(d, 0, 0, None) is Ok,
        id_parts(id) matches Some((_, i)) ==> forall|k: int|
            0 <= k < rows_from(d, 0, 0, None)->Ok_0.len() ==> (#[trigger] rows_from(
                d,
                0,
                0,
                None,
            )->Ok_0[k]).i != i,
    ensures
        deleted(d, id, all) == Ok::<Option<Seq<u8>>, StoreError>(None),
        whole_lines(d) ==> looked_up(d, id) == Err::<EntryView, StoreError>(
            StoreError::EntryNotFound,
        ),
{
    if let Some((offset, i)) = id_parts(id) {
        let rows = rows_from(d, 0, 0, None)->Ok_0;
        lemma_last_with(rows, rows.len() as int, i);
        lemma_place_of(rows, 0, offset, i);
        if whole_lines(d) && line_entry(line_at(d, offset), i) is Some {
            assert(stored_entry(line_at(d, offset)) is Some);
            law_later_rows_are_the_last(d, 0, 0, offset, None);
            let last = rows_from(d, 0, offset, None)->Ok_0;
            lemma_line_end(d, offset);
            assert(last[0] == row_at(line_at(d, offset), offset)->Ok_0);
            assert(rows[rows.len() - last.len()] == last[0]);
        }
    }
}

/// Lines can be written where every item can be stored, and only there.
proof fn lemma_encoded_rows(items: Seq<(i64, EntryView)>)
    ensures
        encoded_rows(items) is Ok <==> forall|k: int|
            0 <= k < items.len() ==> encode_error((#[trigger] items[k]).0, items[k].1) is None,
    decreases items.len(),
{
    if items.len() > 0 {
        let rest = items.drop_first();
        lemma_encoded_rows(rest);
        if encoded_rows(items) is Ok {
            assert forall|k: int| 0 <= k < items.len() implies encode_error(
                (#[trigger] items[k]).0,
                items[k].1,
            ) is None by {
                if k > 0 {
                    assert(rest[k - 1] == items[k]);
                }
            }
        } else if encode_error(items[0].0, items[0].1) is None {
            let k = choose|k: int|
                0 <= k < rest.len() && encode_error((#[trigger] rest[k]).0, rest[k].1) is Some;
            assert(items[k + 1] == rest[k]);
        }
    }
}

/// Deleting an ID whose number a row has is never taken for nothing to do, and
/// it succeeds wherever the rows of the history can be written again.
pub proof fn law_known_ids_are_deleted(d: Seq<u8>, id: Seq<char>, all: bool, k: int)
    requires
        rows_from(d, 0, 0, None) matches Ok(rows) && 0 <= k < rows.len(),
        id_parts(id) matches Some((_, i)) && rows_from(d, 0, 0, None)->Ok_0[k].i == i,
    ensures
        deleted(d, id, all) != Ok::<Option<Seq<u8>>, StoreError>(None),
        (forall|j: int|
            0 <= j < rows_from(d, 0, 0, None)->Ok_0.len() ==> encode_error(
                (#[trigger] rows_from(d, 0, 0, None)->Ok_0[j]).i,
                rows_from(d, 0, 0, None)->Ok_0[j].entry,
            ) is None) ==> deleted(d, id, all) is Ok,
{
    let (offset, i) = id_parts(id)->0;
    let rows = rows_from(d, 0, 0, None)->Ok_0;
    lemma_last_with(rows, rows.len() as int, i);
    lemma_deleted_place(rows, offset, i);
    let p = deleted_place(rows, offset, i)->0;
    let left = left_over(rows, p, all);
    let items = items_of(left);
    lemma_encoded_rows(items);
    if forall|j: int|
        0 <= j < rows.len() ==> encode_error((#[trigger] rows[j]).i, rows[j].entry) is None {
        assert forall|h: int| 0 <= h < items.len() implies encode_error(
            (#[trigger] items[h]).0,
            items[h].1,
        ) is None by {
            let j = lemma_left_row_was_there(rows, p, all, h);
            assert(encode_error(rows[j].i, rows[j].entry) is None);
        }
    }
}

/// A row that is left over is one of the rows that were there.
proof fn lemma_left_row_was_there(rows: Seq<StoredRowView>, k: int, all: bool, h: int) -> (j: int)
    requires
        0 <= k < rows.len(),
        0 <= h < left_over(rows, k, all).len(),
    ensures
        0 <= j < rows.len(),
        rows[j] == left_over(rows, k, all)[h],
        all ==> rows[j].entry.c != rows[k].entry.c,
        !all ==> j != k,
{
    let left = left_over(rows, k, all);
    if all {
        let f = |r: StoredRowView| r.entry.c != rows[k].entry.c;
        assert(left.contains(left[h]));
        rows.lemma_filter_contains_rev(f, left[h]);
        rows.lemma_filter_pred(f, h);
        rows.index_of(left[h])
    } else if h < k {
        h
    } else {
        h + 1
    }
}

/// A row that is not to go is left over.
proof fn lemma_other_row_is_left(rows: Seq<StoredRowView>, k: int, all: bool, j: int) -> (h: int)
    requires
        0 <= k < rows.len(),
        0 <= j < rows.len(),
        all ==> rows[j].entry.c != rows[k].entry.c,
        !all ==> j != k,
    ensures
        0 <= h < left_over(rows, k, all).len(),
        rows[j] == left_over(rows, k, all)[h],
{
    let left = left_over(rows, k, all);
    if all {
        let f = |r: StoredRowView| r.entry.c != rows[k].entry.c;
        rows.lemma_filter_contains(f, j);
        left.index_of(rows[j])
    } else if j < k {
        j
    } else {
        j - 1
    }
}

/// Of rows picked out of others, one that comes earlier came earlier before.
proof fn lemma_filter_keeps_order(
    rows: Seq<StoredRowView>,
    f: spec_fn(StoredRowView) -> bool,
    x: int,
    y: int,
) -> (p: (int, int))
    requires
        0 <= x < y < rows.filter(f).len(),
    ensures
        0 <= p.0 < p.1 < rows.len(),
        rows[p.0] == rows.filter(f)[x],
        rows[p.1] == rows.filter(f)[y],
    decreases rows.len(),
{
    reveal(Seq::filter);
    let front = rows.drop_last();
    let sub = front.filter(f);
    if f(rows.last()) && y == sub.len() {
        assert(sub.contains(sub[x]));
        front.lemma_filter_contains_rev(f, sub[x]);
        (front.index_of(sub[x]), rows.len() - 1)
    } else {
        lemma_filter_keeps_order(front, f, x, y)
    }
}

/// The rows that a delete leaves, as they are laid out.
proof fn lemma_left_rows(had: Seq<StoredRowView>, k: int, all: bool)
    requires
        are_distinct(had),
        0 <= k < had.len(),
    ensures
        ({
            let left = left_over(had, k, all);
            let has = laid_out(items_of(left), 0);
            &&& has.len() == left.len()
            &&& forall|h: int|
                0 <= h < has.len() ==> (#[trigger] has[h]).i == left[h].i && has[h].entry
                    == left[h].entry && (all ==> has[h].entry.c != had[k].entry.c)
            &&& forall|x: int, y: int, p: int, q: int|
                #![trigger has[x], has[y], had[p], had[q]]
                0 <= x < y < has.len() && 0 <= p < had.len() && 0 <= q < had.len() && has[x].i
                    == had[p].i && has[y].i == had[q].i ==> p < q
        }),
{
    let left = left_over(had, k, all);
    let has = laid_out(items_of(left), 0);
    law_laid_out_rows(items_of(left), 0);
    assert forall|h: int| 0 <= h < has.len() implies (#[trigger] has[h]).i == left[h].i
        && has[h].entry == left[h].entry && (all ==> has[h].entry.c != had[k].entry.c) by {
        assert((has[h].i, has[h].entry) == items_of(left)[h]);
        let j = lemma_left_row_was_there(had, k, all, h);
    }
    assert forall|x: int, y: int, p: int, q: int|
        #![trigger has[x], has[y], had[p], had[q]]
        0 <= x < y < has.len() && 0 <= p < had.len() && 0 <= q < had.len() && has[x].i == had[p].i
            && has[y].i == had[q].i implies p < q by {
        let (s, t) = if all {
            lemma_filter_keeps_order(had, |r: StoredRowView| r.entry.c != had[k].entry.c, x, y)
        } else {
            (
                if x < k {
                    x
                } else {
                    x + 1
                },
                if y < k {
                    y
                } else {
                    y + 1
                },
            )
        };
        assert(had[s] == left[x] && had[t] == left[y]);
        assert(had[s].i == had[p].i && had[t].i == had[q].i);
        assert(s == p && t == q);
    }
}

/// Whether a row of the history has the number and the entry of `row`.
pub open spec fn holds_row(d: Seq<u8>, row: StoredRowView) -> bool {
    exists|h: int|
        0 <= h < rows_from(d, 0, 0, None)->Ok_0.len() && (#[trigger] rows_from(
            d,
            0,
            0,
            None,
        )->Ok_0[h]).i == row.i && rows_from(d, 0, 0, None)->Ok_0[h].entry == row.entry
}

/// What deleting the ID of a row does, in a readable history with distinct
/// numbers. It fails only where a row that is to stay cannot be written again.
/// Otherwise the row is gone, and with `all` every row with its command; each
/// other row is still there under its number with its entry, nothing else is,
/// the order is as it was, and the sidecar is untouched.
pub proof fn law_deleting_takes_just_its_rows(
    a: &Store,
    b: &Store,
    id: Seq<char>,
    all: bool,
    r: Result<(), StoreError>,
    k: int,
)
    requires
        erased(a, b, id, all, r),
        a.apart(),
        0 <= k < rows_from(a.bytes(), 0, 0, None)->Ok_0.len(),
        id_parts(id) matches Some((_, i)) && rows_from(a.bytes(), 0, 0, None)->Ok_0[k].i == i,
    ensures
        b.path@ == a.path@,
        bytes_view(b.seq) == bytes_view(a.seq),
        r is Err ==> b.bytes() == a.bytes(),
        r is Err ==> exists|j: int|
            0 <= j < rows_from(a.bytes(), 0, 0, None)->Ok_0.len() && encode_error(
                (#[trigger] rows_from(a.bytes(), 0, 0, None)->Ok_0[j]).i,
                rows_from(a.bytes(), 0, 0, None)->Ok_0[j].entry,
            ) is Some && j != k && (all ==> rows_from(a.bytes(), 0, 0, None)->Ok_0[j].entry.c
                != rows_from(a.bytes(), 0, 0, None)->Ok_0[k].entry.c),
        r is Ok ==> ({
            let had = rows_from(a.bytes(), 0, 0, None)->Ok_0;
            let has = rows_from(b.bytes(), 0, 0, None)->Ok_0;
            &&& rows_from(b.bytes(), 0, 0, None) is Ok
            &&& !has_number(b.bytes(), had[k].i)
            &&& all ==> forall|h: int|
                0 <= h < has.len() ==> (#[trigger] has[h]).entry.c != had[k].entry.c
            &&& forall|j: int|
                0 <= j < had.len() && j != k && (all ==> had[j].entry.c != had[k].entry.c)
                    ==> holds_row(b.bytes(), #[trigger] had[j])
            &&& forall|h: int| 0 <= h < has.len() ==> holds_row(a.bytes(), #[trigger] has[h])
            &&& !all ==> has.len() == had.len() - 1
            &&& forall|x: int, y: int, p: int, q: int|
                #![trigger has[x], has[y], had[p], had[q]]
                0 <= x < y < has.len() && 0 <= p < had.len() && 0 <= q < had.len() && has[x].i
                    == had[p].i && has[y].i == had[q].i ==> p < q
        }),
{
    let (offset, i) = id_parts(id)->0;
    let had = rows_from(a.bytes(), 0, 0, None)->Ok_0;
    lemma_last_with(had, had.len() as int, i);
    lemma_deleted_place(had, offset, i);
    let p = deleted_place(had, offset, i)->0;
    assert(had[p].i == had[k].i);
    assert(p == k);
    let left = left_over(had, k, all);
    let items = items_of(left);
    lemma_encoded_rows(items);
    if r is Err {
        let h = choose|h: int|
            0 <= h < items.len() && encode_error((#[trigger] items[h]).0, items[h].1) is Some;
        let j = lemma_left_row_was_there(had, k, all, h);
        assert(encode_error(had[j].i, had[j].entry) is Some);
    } else {
        let has = rows_from(b.bytes(), 0, 0, None)->Ok_0;
        lemma_left_rows(had, k, all);
        assert forall|h: int| 0 <= h < has.len() implies holds_row(a.bytes(), #[trigger] has[h])
            && has[h].i != had[k].i by {
            let j = lemma_left_row_was_there(had, k, all, h);
            assert(had[j].i == has[h].i && had[j].entry == has[h].entry);
        }
        assert forall|j: int|
            0 <= j < had.len() && j != k && (all ==> had[j].entry.c
                != had[k].entry.c) implies holds_row(b.bytes(), #[trigger] had[j]) by {
            let h = lemma_other_row_is_left(had, k, all, j);
            assert(had[j].i == has[h].i && had[j].entry == has[h].entry);
        }
    }
}

/// What appending does to a history that can be read. Where it succeeds, the
/// rows that were there are still the first, the entries follow as they were
/// given, under the numbers that follow the counter, and the counter is the
/// last of these. Where it fails, the history is as it was.
pub proof fn law_appended_entries_follow(
    a: &Store,
    b: &Store,
    entries: Seq<EntryView>,
    r: Result<(), StoreError>,
)
    requires
        appended(a, b, entries, r),
        r is Ok ==> reads_back(a, b, entries),
        fits(a.bytes(), bytes_view(a.seq), entries.len() as int),
        counter(a.bytes(), bytes_view(a.seq)) matches Ok(start) ==> start >= 0,
        entries.len() > 0,
        rows_from(ended(a.bytes()), 0, 0, None) is Ok,
    ensures
        b.path@ == a.path@,
        r is Err ==> b.bytes() == a.bytes(),
        r is Ok ==> ({
            let start = counter(a.bytes(), bytes_view(a.seq))->Ok_0;
            let had = rows_from(ended(a.bytes()), 0, 0, None)->Ok_0;
            let has = rows_from(b.bytes(), 0, 0, None)->Ok_0;
            &&& counter(a.bytes(), bytes_view(a.seq)) is Ok
            &&& rows_from(b.bytes(), 0, 0, None) is Ok
            &&& has.len() == had.len() + entries.len()
            &&& forall|j: int| 0 <= j < had.len() ==> #[trigger] has[j] == had[j]
            &&& forall|k: int|
                #![trigger entries[k]]
                0 <= k < entries.len() ==> has[had.len() + k].entry == entries[k] && has[had.len()
                    + k].i == start + 1 + k
            &&& counter(b.bytes(), bytes_view(b.seq)) == Ok::<int, StoreError>(
                start + entries.len(),
            )
        }),
{
    if r is Ok {
        let start = counter(a.bytes(), bytes_view(a.seq))->Ok_0;
        let had = rows_from(ended(a.bytes()), 0, 0, None)->Ok_0;
        let has = rows_from(b.bytes(), 0, 0, None)->Ok_0;
        let items = numbered(start, entries);
        let base = ended(a.bytes()).len() as int;
        law_laid_out_rows(items, base);
        law_kept_counter_is_read(start + entries.len());
        assert forall|k: int| #![trigger entries[k]] 0 <= k < entries.len() implies has[had.len()
            + k].entry == entries[k] && has[had.len() + k].i == start + 1 + k by {
            assert(has[had.len() + k] == laid_out(items, base)[k]);
            assert(items[k] == ((start + 1 + k) as i64, entries[k]));
        }
    }
}

/// Appending succeeds where there is a counter to go on from, the last line
/// leaves room to end it (it starts behind `p`, close enough to the end), and
/// each entry has a command and is not too long.
pub proof fn law_short_entries_are_appended(
    a: &Store,
    b: &Store,
    entries: Seq<EntryView>,
    r: Result<(), StoreError>,
    p: int,
)
    requires
        appended(a, b, entries, r),
        counter(a.bytes(), bytes_view(a.seq)) is Ok,
        -1 <= p < a.bytes().len(),
        p >= 0 ==> a.bytes()[p] == 10,
        a.bytes().len() - p <= MAX_JSON_LINE_SIZE,
        forall|k: int|
            0 <= k < entries.len() ==> (#[trigger] entries[k]).c.len() > 0 && 6
                * entries[k].d.len() + 6 * entries[k].c.len() + 121 <= MAX_JSON_LINE_SIZE,
    ensures
        r is Ok,
{
    let start = counter(a.bytes(), bytes_view(a.seq))->Ok_0;
    let items = numbered(start, entries);
    assert forall|k: int| 0 <= k < items.len() implies encode_error(
        (#[trigger] items[k]).0,
        items[k].1,
    ) is None by {
        assert(items[k].1 == entries[k]);
        law_short_entries_are_stored(items[k].0, items[k].1);
    }
    lemma_encoded_rows(items);
    let d = a.bytes();
    if d.len() > 0 && d.last() != 10 {
        let from = line_start_back(d, 1).0;
        lemma_line_start(d, 1);
        lemma_last_line_end(d);
        if from <= p {
            lemma_line_ends_at_newline(d, from, p);
        }
    }
}

/// What an ID finds has the ID's number: it is the entry of the line at the
/// ID's offset or of a row of the history, stored under that number.
pub proof fn law_found_entries_have_the_number(d: Seq<u8>, id: Seq<char>)
    requires
        looked_up(d, id) is Ok,
    ensures
        ({
            let e = looked_up(d, id)->Ok_0;
            let (offset, i) = id_parts(id)->0;
            &&& id_parts(id) is Some
            &&& e.c.len() > 0
            &&& stored_entry(line_at(d, offset)) == Some((i as i64, e)) || exists|k: int|
                0 <= k < rows_from(d, 0, 0, None)->Ok_0.len() && (#[trigger] rows_from(
                    d,
                    0,
                    0,
                    None,
                )->Ok_0[k]).i == i && rows_from(d, 0, 0, None)->Ok_0[k].entry == e
        }),
{
    let (offset, i) = id_parts(id)->0;
    if line_entry(line_at(d, offset), i) is None {
        let rows = rows_from(d, 0, 0, None)->Ok_0;
        lemma_last_with(rows, rows.len() as int, i);
        let k = last_with(rows, rows.len() as int, i)->0;
        law_row_stands_at_its_offset(d, 0, 0, None, k);
        assert(rows[k].entry == looked_up(d, id)->Ok_0);
    }
}

/// A counter is never negative.
pub proof fn law_counters_are_not_negative(d: Seq<u8>, seq: Option<Seq<u8>>)
    ensures
        counter(d, seq) matches Ok(n) ==> 0 <= n <= i64::MAX,
{
}

/// A counter with white space around it is read all the same; one that is
/// negative, no number, or not there is not trusted.
pub proof fn law_only_counters_are_trusted(a: Seq<char>, n: i64, b: Seq<char>, bytes: Seq<u8>)
    requires
        forall|j: int| 0 <= j < a.len() ==> is_space(#[trigger] a[j]),
        forall|j: int| 0 <= j < b.len() ==> is_space(#[trigger] b[j]),
    ensures
        kept_counter(Some(encode_utf8(a + decimal(n as int) + b))) == if n >= 0 {
            Some(n as int)
        } else {
            None
        },
        !valid_utf8(bytes) ==> kept_counter(Some(bytes)) is None,
        valid_utf8(bytes) && parsed_i64(trimmed(decode_utf8(bytes)), 10) is None ==> kept_counter(
            Some(bytes),
        ) is None,
        kept_counter(None) is None,
{
    let text = a + decimal(n as int) + b;
    lemma_decimal_parses(n as int, i64::MIN as int, i64::MAX as int);
    lemma_decimal_ends(n as int);
    law_trimming_drops_white_space(a, decimal(n as int), b);
    encode_utf8_valid_utf8(text);
    encode_utf8_decode_utf8(text);
}

/// Without a counter that can be trusted, a history that can be read goes on
/// from the number of its last row, and an empty one from 0; a negative number
/// is refused. A line of its own at the end is that row.
pub proof fn law_lost_counters_are_recovered(d: Seq<u8>, line: Seq<u8>, seq: Option<Seq<u8>>)
    requires
        kept_counter(seq) is None,
        d.len() > 0 ==> d.last() == 10,
        line.len() > 0,
        line.last() != 10,
        forall|j: int| 0 <= j < line.len() - 1 ==> #[trigger] line[j] != 10,
    ensures
        counter(Seq::empty(), seq) == Ok::<int, StoreError>(0),
        match stored_entry(line) {
            Some((i, _)) => {
                &&& i >= 0 ==> counter(d + line, seq) == Ok::<int, StoreError>(i as int)
                &&& i < 0 ==> counter(d + line, seq) == Err::<int, StoreError>(
                    StoreError::SeqNegative,
                )
            },
            None => counter(d + line, seq) == Err::<int, StoreError>(StoreError::SeqMalformed),
        },
        counter(d + line.push(10), seq) == counter(d + line, seq),
{
    law_lines_count_from_the_end(d, line, 1);
    let ended = line.push(10);
    assert forall|j: int| 0 <= j < ended.len() - 1 implies #[trigger] ended[j] != 10 by {
        assert(ended[j] == line[j]);
        if j == line.len() - 1 {
            assert(line[j] == line.last());
        }
    }
    law_lines_count_from_the_end(d, ended, 1);
    assert(ended.drop_last() =~= line);
}

/// A last line that is not ended and leaves no room for it stops an append,
/// with the history as it was.
pub proof fn law_no_line_is_ended_too_late(
    a: &Store,
    b: &Store,
    entries: Seq<EntryView>,
    r: Result<(), StoreError>,
    front: Seq<u8>,
    line: Seq<u8>,
)
    requires
        appended(a, b, entries, r),
        entries.len() > 0,
        front.len() > 0 ==> front.last() == 10,
        line.len() >= MAX_JSON_LINE_SIZE,
        line.last() != 10,
        forall|j: int| 0 <= j < line.len() - 1 ==> #[trigger] line[j] != 10,
        a.bytes() == front + line,
    ensures
        r is Err,
        b.bytes() == a.bytes(),
{
    law_lines_count_from_the_end(front, line, 1);
    assert(a.bytes().last() == line.last());
}

} // verus!
