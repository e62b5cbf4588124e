//! Commands that have started but not finished: one file per shell, named by
//! that shell's pid. An entry is stored only once its command returns, so
//! without this a long-running foreground command is invisible to every other
//! shell until it exits.
//!
//! No locking: a shell writes only the file its own pid names.

use vstd::prelude::*;
use vstd::slice::slice_subrange;
use crate::entry::{row_views, Entry, EntryView, Row, RowView};
use crate::ids::id_parts;
use crate::json::{
    parse_record, record, running_object, write_running, Shape,
};
use crate::order::{before, lemma_newest_order, newest_of, newest_order, sort_by_time};
use crate::rows::{is_wanted, wanted};
use crate::text::{
    bytes_view, chars_of, decimal, digit_value, lemma_decimal_parses, lemma_position, parse_i32,
    parsed_i32, position, push_decimal, same_chars, text_view, unsigned_part,
};

verus! {

/// Marks an ID as naming an in-flight command. Store IDs are two numbers in
/// base 36, so none of them is in this space and the two cannot collide.
pub const ID_SIGIL: char = '@';

/// The ID of the command that the shell `pid` is running.
pub open spec fn running_id(pid: int) -> Seq<char> {
    seq![ID_SIGIL] + decimal(pid)
}

/// The pid that an in-flight ID names.
pub open spec fn id_pid(id: Seq<char>) -> Option<int> {
    if id.len() > 0 && id[0] == ID_SIGIL {
        parsed_i32(id.skip(1))
    } else {
        None
    }
}

/// The ID of the command that the shell `pid` is running.
pub fn make_id(pid: i32) -> (r: String)
    ensures
        r@ == running_id(pid as int),
{
    let mut id: String = String::new();
    id.push(ID_SIGIL);
    push_decimal(&mut id, pid as i64);
    assert(id@ =~= running_id(pid as int));
    id
}

/// The pid an in-flight ID names, or None for anything else, every store ID
/// among them, which is what keeps lookups and deletes routing correctly.
pub fn parse_id(id: &str) -> (r: Option<i32>)
    ensures
        match r {
            Some(pid) => id_pid(id@) == Some(pid as int),
            None => id_pid(id@) is None,
        },
{
    let chars: Vec<char> = chars_of(id);
    if chars.len() > 0 && chars[0] == ID_SIGIL {
        let rest: &[char] = slice_subrange(chars.as_slice(), 1, chars.len());
        assert(rest@ =~= id@.skip(1));
        parse_i32(rest)
    } else {
        None
    }
}

/// An in-flight ID names the pid that it was made from.
pub proof fn law_running_id_names_its_pid(pid: i32)
    ensures
        id_pid(running_id(pid as int)) == Some(pid as int),
{
    assert(running_id(pid as int).skip(1) =~= decimal(pid as int));
    lemma_decimal_parses(pid as int, i32::MIN as int, i32::MAX as int);
}

/// No text is the ID of an in-flight command and of a stored entry at once.
pub proof fn law_id_spaces_are_apart(id: Seq<char>)
    ensures
        id_pid(id) is Some ==> id_parts(id) is None,
        id_parts(id) is Some ==> id_pid(id) is None,
{
    if id.len() > 0 && id[0] == ID_SIGIL {
        lemma_position(id, '-');
        let p = position(id, '-');
        if p < id.len() {
            let a = id.take(p);
            assert(a[0] == ID_SIGIL);
            assert(unsigned_part(a, true) == a);
            assert(digit_value(a[0]) is None);
        }
    }
}

/// A name inside a directory.
pub open spec fn joined(dir: Seq<char>, name: Seq<char>) -> Seq<char> {
    if dir.len() > 0 && dir.last() != '/' {
        dir + "/"@ + name
    } else {
        dir + name
    }
}

/// Whether `name` is a single component of a path.
pub open spec fn is_component(name: Seq<char>) -> bool {
    &&& name.len() > 0
    &&& !name.contains('/')
    &&& name != "."@
    &&& name != ".."@
}

/// Whether `dir` is a directory as it stands before a component: the current
/// one, the root, or one that ends in neither a slash nor a dot.
pub open spec fn is_directory(dir: Seq<char>) -> bool {
    dir.len() > 0 && dir != "/"@ ==> dir.last() != '/' && dir.last() != '.'
}

/// Whether `parent` is the directory, where `path` is a component in one.
pub open spec fn comes_apart(path: Seq<char>, parent: Option<Seq<char>>) -> bool {
    forall|dir: Seq<char>, name: Seq<char>|
        path == #[trigger] joined(dir, name) && is_directory(dir) && is_component(name) ==> parent
            == Some(dir)
}

/// What `std::path::Path::parent` gives for a path, as text.
pub uninterp spec fn path_parent(path: Seq<char>) -> Option<Seq<char>>;

/// `std::path::Path::parent` on a path given as text: the path without its
/// final component, if there is one. Of a component in a directory it is the
/// directory; what it makes of other ways to write a path is left to it.
#[verifier::external_body]
fn parent(path: &str) -> (r: Option<String>)
    ensures
        match r {
            Some(p) => path_parent(path@) == Some(p@),
            None => path_parent(path@) is None,
        },
        comes_apart(path@, text_view(r)),
{
    match std::path::Path::new(path).parent() {
        Some(p) => Some(p.to_string_lossy().into_owned()),
        None => None,
    }
}

/// A name inside a directory.
pub fn join(dir: &str, name: &str) -> (r: String)
    ensures
        r@ == joined(dir@, name@),
{
    let chars: Vec<char> = chars_of(dir);
    let mut out: String = dir.to_owned();
    if chars.len() > 0 && chars[chars.len() - 1] != '/' {
        out.append("/");
    }
    out.append(name);
    assert(out@ =~= joined(dir@, name@));
    out
}

/// The directory of the records, given the parent of the history's path.
pub open spec fn records_dir(parent: Option<Seq<char>>) -> Seq<char> {
    match parent {
        Some(p) => joined(p, "inflight"@),
        None => "inflight"@,
    }
}

/// The directory of the records, given the parent of the history's path; an
/// empty parent is none.
pub fn dir_below(parent: &Option<String>) -> (r: String)
    ensures
        r@ == records_dir(text_view(*parent)),
{
    match parent {
        Some(p) => {
            join(p.as_str(), "inflight")
        },
        None => "inflight".to_owned(),
    }
}

/// The directory of the records beside the history at `data_path`.
pub fn dir_for(data_path: &str) -> (r: String)
    ensures
        r@ == records_dir(path_parent(data_path@)),
        comes_apart(data_path@, path_parent(data_path@)),
{
    dir_below(&parent(data_path))
}

/// The name of the record of the shell `pid`.
pub open spec fn record_name(pid: int) -> Seq<char> {
    decimal(pid) + ".json"@
}

/// The record of the shell `pid`.
pub fn file_for(data_path: &str, pid: i32) -> (r: String)
    ensures
        r@ == joined(records_dir(path_parent(data_path@)), record_name(pid as int)),
        comes_apart(data_path@, path_parent(data_path@)),
{
    let dir: String = dir_for(data_path);
    let mut name: String = String::new();
    push_decimal(&mut name, pid as i64);
    name.append(".json");
    assert(name@ =~= record_name(pid as int));
    join(dir.as_str(), name.as_str())
}

/// Where the record of the shell `pid` is written before it is moved into
/// place.
pub fn temp_for(data_path: &str, pid: i32) -> (r: String)
    ensures
        r@ == joined(
            records_dir(path_parent(data_path@)),
            "."@ + decimal(pid as int) + ".tmp"@,
        ),
        comes_apart(data_path@, path_parent(data_path@)),
{
    let dir: String = dir_for(data_path);
    let mut name: String = ".".to_owned();
    push_decimal(&mut name, pid as i64);
    name.append(".tmp");
    assert(name@ =~= "."@ + decimal(pid as int) + ".tmp"@);
    join(dir.as_str(), name.as_str())
}

/// One shell's current foreground command. No exit status or duration: it has
/// not finished. No pid either: the file name carries it.
pub struct Record {
    pub t: i64,
    pub d: String,
    pub c: String,
}

/// A record with its texts as sequences.
#[verifier::ext_equal]
pub struct RecordView {
    pub t: i64,
    pub d: Seq<char>,
    pub c: Seq<char>,
}

impl View for Record {
    type V = RecordView;

    open spec fn view(&self) -> RecordView {
        RecordView { t: self.t, d: self.d@, c: self.c@ }
    }
}

/// The record that a file holds, if it holds one with a command.
pub open spec fn recorded(bytes: Seq<u8>) -> Option<RecordView> {
    match record(bytes, Shape::Running) {
        Some(v) => match (v.t, v.d, v.c) {
            (Some(t), Some(d), Some(c)) => if c.len() > 0 {
                Some(RecordView { t, d, c })
            } else {
                None
            },
            _ => None,
        },
        None => None,
    }
}

/// Reads a record. A torn or truncated file holds none: the shell that owns
/// it will rewrite it on its next command.
pub fn read_record(bytes: &[u8]) -> (r: Option<Record>)
    ensures
        match r {
            Some(rec) => recorded(bytes@) == Some(rec@),
            None => recorded(bytes@) is None,
        },
{
    match parse_record(bytes, Shape::Running) {
        Some(v) => match (v.t, v.d, v.c) {
            (Some(t), Some(d), Some(c)) => {
                if c.as_str().is_empty() {
                    return None;
                }
                Some(Record { t, d, c })
            },
            _ => None,
        },
        None => None,
    }
}

/// What records that a command has started: the directory that has to be
/// there, the bytes, the file that they are written to, and the file that
/// this is then renamed to, so that a reader never sees half a command.
pub struct Start {
    pub dir: String,
    pub temp: String,
    pub file: String,
    pub bytes: Vec<u8>,
}

/// Records the command `pid`'s shell just started. The record reads back as
/// that command, if it is one.
pub fn begin(data_path: &str, pid: i32, dir: &str, cmd: &str, t: i64) -> (r: Start)
    ensures
        r.dir@ == records_dir(path_parent(data_path@)),
        comes_apart(data_path@, path_parent(data_path@)),
        r.temp@ == joined(r.dir@, "."@ + decimal(pid as int) + ".tmp"@),
        r.file@ == joined(r.dir@, record_name(pid as int)),
        r.bytes@ == running_object(t, dir@, cmd@),
        recorded(r.bytes@) == if cmd@.len() > 0 {
            Some((RecordView { t, d: dir@, c: cmd@ }))
        } else {
            None
        },
{
    Start {
        dir: dir_for(data_path),
        temp: temp_for(data_path, pid),
        file: file_for(data_path, pid),
        bytes: write_running(t, dir, cmd),
    }
}

/// The record to drop when the command of the shell `pid` finishes.
pub fn end(data_path: &str, pid: i32) -> (r: String)
    ensures
        r@ == joined(records_dir(path_parent(data_path@)), record_name(pid as int)),
        comes_apart(data_path@, path_parent(data_path@)),
{
    file_for(data_path, pid)
}

/// Whether a process with this pid exists, given whether it can be signalled
/// and whether that is only not permitted: then it exists but is not ours.
/// Not just a range check: 0 and the negative pids name whole groups, so a
/// junk file name must never be signalled.
pub fn alive(pid: i32, signalled: bool, not_permitted: bool) -> (r: bool)
    ensures
        r == (pid > 0 && (signalled || not_permitted)),
{
    pid > 0 && (signalled || not_permitted)
}

/// The pid that a record's file name carries.
pub open spec fn file_pid(name: Seq<char>) -> Option<int> {
    if name.len() >= 5 && name.skip(name.len() - 5) == ".json"@ {
        parsed_i32(name.take(name.len() - 5))
    } else {
        None
    }
}

/// The pid that a record's file name carries.
pub fn pid_of_file(name: &str) -> (r: Option<i32>)
    ensures
        match r {
            Some(pid) => file_pid(name@) == Some(pid as int),
            None => file_pid(name@) is None,
        },
{
    let chars: Vec<char> = chars_of(name);
    let n: usize = chars.len();
    if n < 5 {
        return None;
    }
    let suffix: &[char] = slice_subrange(chars.as_slice(), n - 5, n);
    let ending: Vec<char> = chars_of(".json");
    assert(suffix@ =~= name@.skip(n - 5));
    if !same_chars(suffix, ending.as_slice()) {
        return None;
    }
    let stem: &[char] = slice_subrange(chars.as_slice(), 0, n - 5);
    assert(stem@ =~= name@.take(n - 5));
    parse_i32(stem)
}

/// What becomes of a file among the records.
#[derive(Debug, Clone, Copy, PartialEq, Eq, Structural)]
pub enum Fate {
    /// It is no record.
    Ignored,
    /// Its shell is gone: it is removed.
    Swept,
    /// It is the record of this shell.
    Read(i32),
}

/// What becomes of a file among the records, given whether its pid can be
/// reached.
pub open spec fn fated(name: Seq<char>, reached: bool) -> Fate {
    match file_pid(name) {
        None => Fate::Ignored,
        Some(pid) => if pid > 0 && reached {
            Fate::Read(pid as i32)
        } else {
            Fate::Swept
        },
    }
}

/// What becomes of a file among the records, given what signalling its pid
/// gave: a record whose shell is gone (killed mid-command, so that `end` never
/// ran) is swept.
pub fn fate(name: &str, signalled: bool, not_permitted: bool) -> (r: Fate)
    ensures
        r == fated(name@, signalled || not_permitted),
{
    match pid_of_file(name) {
        None => Fate::Ignored,
        Some(pid) => if alive(pid, signalled, not_permitted) {
            Fate::Read(pid)
        } else {
            Fate::Swept
        },
    }
}

/// The record of a shell as the picker gets it. The command has not finished,
/// so its exit status and duration are unknown.
pub open spec fn running_row(pid: int, rec: RecordView) -> RowView {
    RowView {
        entry: EntryView { t: rec.t, d: rec.d, x: (-1) as i64, c: rec.c, m: 0 },
        id: running_id(pid),
        count: 1,
    }
}

/// The rows of the records that are wanted, in the order they were found.
pub open spec fn found_rows(found: Seq<(i32, Seq<u8>)>, dir: Option<Seq<char>>) -> Seq<RowView>
    decreases found.len(),
{
    if found.len() == 0 {
        Seq::empty()
    } else {
        let sofar = found_rows(found.drop_last(), dir);
        let (pid, bytes) = found.last();
        match recorded(bytes) {
            Some(rec) => if wanted(dir, rec.d) {
                sofar.push(running_row(pid as int, rec))
            } else {
                sofar
            },
            None => sofar,
        }
    }
}

/// When each row started.
pub open spec fn row_times(rows: Seq<RowView>) -> Seq<i64> {
    rows.map_values(|r: RowView| r.entry.t)
}

/// Records as they were found.
pub open spec fn found_views(found: Seq<(i32, Vec<u8>)>) -> Seq<(i32, Seq<u8>)> {
    found.map_values(|f: (i32, Vec<u8>)| (f.0, f.1@))
}

/// Every in-flight command, newest first, filtered by `dir` when given.
/// `found` holds the records of the live shells.
pub fn rows(found: &[(i32, Vec<u8>)], dir: &Option<String>) -> (r: Vec<Row>)
    ensures
        ({
            let all = found_rows(found_views(found@), text_view(*dir));
            row_views(r@) == newest_of(all, row_times(all))
        }),
{
    let ghost all = found_views(found@);
    let ghost w = text_view(*dir);
    let mut out: Vec<Row> = Vec::new();
    let mut times: Vec<i64> = Vec::new();
    let mut k: usize = 0;
    assert(all.take(0) =~= Seq::<(i32, Seq<u8>)>::empty());
    assert(row_views(out@) =~= Seq::<RowView>::empty());
    assert(times@ =~= row_times(row_views(out@)));
    while k < found.len()
        invariant
            k <= found@.len(),
            all == found_views(found@),
            w == text_view(*dir),
            row_views(out@) == found_rows(all.take(k as int), w),
            times@ == row_times(row_views(out@)),
        decreases found@.len() - k,
    {
        let ghost sofar = row_views(out@);
        let ghost sofar_times = times@;
        proof {
            assert(all.take(k + 1).drop_last() =~= all.take(k as int));
            assert(all.take(k + 1).last() == (found@[k as int].0, found@[k as int].1@));
        }
        if let Some(rec) = read_record(found[k].1.as_slice()) {
            if is_wanted(dir, &rec.d) {
                let ghost v = running_row(found@[k as int].0 as int, rec@);
                let id: String = make_id(found[k].0);
                times.push(rec.t);
                let entry: Entry = Entry { t: rec.t, d: rec.d, x: -1, c: rec.c, m: 0 };
                out.push(Row { entry, id, count: 1 });
                assert(row_views(out@) =~= sofar.push(v));
                assert(times@ =~= row_times(row_views(out@)));
            }
        }
        k = k + 1;
    }
    assert(all.take(all.len() as int) =~= all);
    let ghost unsorted = row_views(out@);
    let sorted: Vec<Row> = sort_by_time(out, &times);
    proof {
        lemma_newest_order(times@);
        let o = newest_order(times@);
        assert forall|j: int| 0 <= j < sorted@.len() implies row_views(sorted@)[j] == newest_of(
            unsorted,
            times@,
        )[j] by {
            assert(0 <= o[j] < times@.len());
        }
        assert(row_views(sorted@) =~= newest_of(unsorted, times@));
    }
    sorted
}

/// The command behind an in-flight ID, given whether its shell is alive and
/// what its record holds.
pub open spec fn command_of(id: Seq<char>, alive: bool, bytes: Option<Seq<u8>>) -> Option<
    Seq<char>,
> {
    match (id_pid(id), bytes) {
        (Some(_), Some(b)) => match recorded(b) {
            Some(rec) => if alive {
                Some(rec.c)
            } else {
                None
            },
            None => None,
        },
        _ => None,
    }
}

/// The full command behind an in-flight ID, for the picker's preview and for
/// accepting the row, given whether its shell is alive and what its record
/// holds. None when the ID is not in-flight or the shell is gone.
pub fn get(id: &str, alive: bool, bytes: &Option<Vec<u8>>) -> (r: Option<String>)
    ensures
        match r {
            Some(c) => command_of(id@, alive, bytes_view(*bytes)) == Some(c@),
            None => command_of(id@, alive, bytes_view(*bytes)) is None,
        },
{
    if parse_id(id).is_none() || !alive {
        return None;
    }
    match bytes {
        Some(b) => match read_record(b.as_slice()) {
            Some(rec) => Some(rec.c),
            None => None,
        },
        None => None,
    }
}

/// The records of the live shells among the files of the directory, each
/// given by its name and its bytes. `reached` says which pids can be reached.
pub open spec fn live_records(
    files: Seq<(Seq<char>, Seq<u8>)>,
    reached: spec_fn(int) -> bool,
) -> Seq<(i32, Seq<u8>)>
    decreases files.len(),
{
    if files.len() == 0 {
        Seq::empty()
    } else {
        let sofar = live_records(files.drop_last(), reached);
        let (name, bytes) = files.last();
        match file_pid(name) {
            Some(pid) => match fated(name, reached(pid)) {
                Fate::Read(p) => sofar.push((p, bytes)),
                _ => sofar,
            },
            None => sofar,
        }
    }
}

/// What is shown of the files of the directory.
pub open spec fn rows_shown(
    files: Seq<(Seq<char>, Seq<u8>)>,
    reached: spec_fn(int) -> bool,
    dir: Option<Seq<char>>,
) -> Seq<RowView> {
    let all = found_rows(live_records(files, reached), dir);
    newest_of(all, row_times(all))
}

/// What the file of a name holds.
pub open spec fn file_bytes(files: Seq<(Seq<char>, Seq<u8>)>, name: Seq<char>) -> Option<Seq<u8>>
    decreases files.len(),
{
    if files.len() == 0 {
        None
    } else if files.last().0 == name {
        Some(files.last().1)
    } else {
        file_bytes(files.drop_last(), name)
    }
}

/// The command of the shell `pid`, as its ID finds it among the files of the
/// directory.
pub open spec fn command_shown(
    files: Seq<(Seq<char>, Seq<u8>)>,
    reached: spec_fn(int) -> bool,
    pid: int,
) -> Option<Seq<char>> {
    command_of(
        running_id(pid),
        pid > 0 && reached(pid),
        file_bytes(files, record_name(pid)),
    )
}

/// The files of the directory without the one of a name.
pub open spec fn without_file(files: Seq<(Seq<char>, Seq<u8>)>, name: Seq<char>) -> Seq<
    (Seq<char>, Seq<u8>),
> {
    files.filter(|f: (Seq<char>, Seq<u8>)| f.0 != name)
}

/// Whether no file carries the pid but the one that is named for it.
pub open spec fn names_pid_once(files: Seq<(Seq<char>, Seq<u8>)>, pid: int) -> bool {
    forall|k: int|
        0 <= k < files.len() && file_pid((#[trigger] files[k]).0) == Some(pid) ==> files[k].0
            == record_name(pid)
}

/// The name of a record carries its pid.
pub proof fn law_record_name_carries_its_pid(pid: i32)
    ensures
        file_pid(record_name(pid as int)) == Some(pid as int),
{
    reveal_strlit(".json");
    let name = record_name(pid as int);
    assert(".json"@.len() == 5);
    assert(name.skip(name.len() - 5) =~= ".json"@);
    assert(name.take(name.len() - 5) =~= decimal(pid as int));
    lemma_decimal_parses(pid as int, i32::MIN as int, i32::MAX as int);
}

proof fn lemma_records_without(
    files: Seq<(Seq<char>, Seq<u8>)>,
    reached: spec_fn(int) -> bool,
    pid: i32,
)
    requires
        names_pid_once(files, pid as int),
    ensures
        live_records(without_file(files, record_name(pid as int)), reached) == live_records(
            files,
            reached,
        ).filter(|f: (i32, Seq<u8>)| f.0 != pid),
    decreases files.len(),
{
    let name = record_name(pid as int);
    let g = |f: (i32, Seq<u8>)| f.0 != pid;
    reveal(Seq::filter);
    if files.len() > 0 {
        let less = files.drop_last();
        assert forall|k: int|
            0 <= k < less.len() && file_pid((#[trigger] less[k]).0) == Some(pid as int) implies less[k].0
            == name by {
            assert(less[k] == files[k]);
        }
        lemma_records_without(less, reached, pid);
        law_record_name_carries_its_pid(pid);
        let last = files[files.len() - 1];
        let left = without_file(files, name);
        let sofar = live_records(less, reached);
        let all = live_records(files, reached);
        if all.len() > sofar.len() {
            assert(all.drop_last() =~= sofar);
        }
        if last.0 != name {
            assert(left.drop_last() =~= without_file(less, name));
            assert(left.last() == last);
        }
    }
}

proof fn lemma_rows_without(found: Seq<(i32, Seq<u8>)>, dir: Option<Seq<char>>, pid: i32)
    ensures
        found_rows(found.filter(|f: (i32, Seq<u8>)| f.0 != pid), dir) == found_rows(
            found,
            dir,
        ).filter(|r: RowView| r.id != running_id(pid as int)),
    decreases found.len(),
{
    let g = |f: (i32, Seq<u8>)| f.0 != pid;
    let h = |r: RowView| r.id != running_id(pid as int);
    reveal(Seq::filter);
    if found.len() > 0 {
        let less = found.drop_last();
        lemma_rows_without(less, dir, pid);
        let last = found.last();
        let left = found.filter(g);
        law_running_id_names_its_pid(pid);
        law_running_id_names_its_pid(last.0);
        if g(last) {
            assert(left.drop_last() =~= less.filter(g));
            assert(left.last() == last);
        }
        let sofar = found_rows(less, dir);
        let all = found_rows(found, dir);
        if all.len() > sofar.len() {
            assert(all.drop_last() =~= sofar);
        }
    }
}

proof fn lemma_bytes_without(files: Seq<(Seq<char>, Seq<u8>)>, name: Seq<char>, other: Seq<char>)
    ensures
        file_bytes(without_file(files, name), other) == if other == name {
            None
        } else {
            file_bytes(files, other)
        },
    decreases files.len(),
{
    reveal(Seq::filter);
    if files.len() > 0 {
        let less = files.drop_last();
        lemma_bytes_without(less, name, other);
        let left = without_file(files, name);
        if files.last().0 != name {
            assert(left.drop_last() =~= without_file(less, name));
            assert(left.last() == files.last());
        }
    }
}

/// Sorting keeps just the rows there are.
proof fn lemma_sorted_rows(rows: Seq<RowView>, row: RowView)
    ensures
        newest_of(rows, row_times(rows)).contains(row) <==> rows.contains(row),
{
    let o = newest_order(row_times(rows));
    let sorted = newest_of(rows, row_times(rows));
    lemma_newest_order(row_times(rows));
    if sorted.contains(row) {
        let k = sorted.index_of(row);
        assert(rows[o[k]] == row);
    }
    if rows.contains(row) {
        let j = rows.index_of(row);
        assert(o.contains(j));
        let k = o.index_of(j);
        assert(sorted[k] == row);
    }
}

/// Ending the command of a shell, which removes the file that `end` names,
/// takes its row away and leaves what its ID finds empty; every other row and
/// every other shell's command stand as before. Where there is no such file
/// nothing changes, as when it is ended again.
pub proof fn law_ended_command_is_gone(
    files: Seq<(Seq<char>, Seq<u8>)>,
    reached: spec_fn(int) -> bool,
    dir: Option<Seq<char>>,
    pid: i32,
)
    requires
        names_pid_once(files, pid as int),
    ensures
        ({
            let name = record_name(pid as int);
            let left = without_file(files, name);
            let before = found_rows(live_records(files, reached), dir);
            let after = found_rows(live_records(left, reached), dir);
            &&& after == before.filter(|r: RowView| r.id != running_id(pid as int))
            &&& forall|row: RowView| #[trigger]
                rows_shown(left, reached, dir).contains(row) <==> rows_shown(
                    files,
                    reached,
                    dir,
                ).contains(row) && row.id != running_id(pid as int)
            &&& command_shown(left, reached, pid as int) is None
            &&& forall|other: i32|
                other != pid ==> #[trigger] command_shown(left, reached, other as int)
                    == command_shown(files, reached, other as int)
            &&& without_file(left, name) == left
            &&& file_bytes(files, name) is None ==> left == files
        }),
{
    let name = record_name(pid as int);
    let left = without_file(files, name);
    let before = found_rows(live_records(files, reached), dir);
    let after = found_rows(live_records(left, reached), dir);
    let h = |r: RowView| r.id != running_id(pid as int);
    lemma_records_without(files, reached, pid);
    lemma_rows_without(live_records(files, reached), dir, pid);
    assert(after == before.filter(h));
    assert forall|row: RowView| #[trigger]
        rows_shown(left, reached, dir).contains(row) <==> rows_shown(files, reached, dir).contains(
            row,
        ) && row.id != running_id(pid as int) by {
        lemma_sorted_rows(after, row);
        lemma_sorted_rows(before, row);
        if after.contains(row) {
            before.lemma_filter_contains_rev(h, row);
            before.lemma_filter_pred(h, after.index_of(row));
        }
        if before.contains(row) && h(row) {
            before.lemma_filter_contains(h, before.index_of(row));
        }
    }
    lemma_bytes_without(files, name, name);
    assert forall|other: i32| other != pid implies #[trigger] command_shown(
        left,
        reached,
        other as int,
    ) == command_shown(files, reached, other as int) by {
        law_record_name_carries_its_pid(pid);
        law_record_name_carries_its_pid(other);
        lemma_bytes_without(files, name, record_name(other as int));
    }
    lemma_without_file(left, name);
    lemma_without_file(files, name);
}

proof fn lemma_without_file(files: Seq<(Seq<char>, Seq<u8>)>, name: Seq<char>)
    ensures
        file_bytes(files, name) is None ==> without_file(files, name) == files,
    decreases files.len(),
{
    reveal(Seq::filter);
    if files.len() > 0 {
        lemma_without_file(files.drop_last(), name);
        assert(files.drop_last().push(files.last()) =~= files);
    }
}

/// Beginning a command, which puts its record in place of any that the shell
/// had, shows it: its ID finds the command, and of the rows of the shell just
/// the new one is there, if it is wanted. All else stands as before.
pub proof fn law_begun_command_is_shown(
    files: Seq<(Seq<char>, Seq<u8>)>,
    reached: spec_fn(int) -> bool,
    dir: Option<Seq<char>>,
    pid: i32,
    bytes: Seq<u8>,
)
    requires
        names_pid_once(files, pid as int),
        recorded(bytes) is Some,
        pid > 0,
        reached(pid as int),
    ensures
        ({
            let name = record_name(pid as int);
            let now = without_file(files, name).push((name, bytes));
            let rec = recorded(bytes)->0;
            let row = running_row(pid as int, rec);
            &&& command_shown(now, reached, pid as int) == Some(rec.c)
            &&& forall|r: RowView| #[trigger]
                rows_shown(now, reached, dir).contains(r) <==> (if r.id == running_id(pid as int) {
                    r == row && wanted(dir, rec.d)
                } else {
                    rows_shown(files, reached, dir).contains(r)
                })
        }),
{
    let name = record_name(pid as int);
    let left = without_file(files, name);
    let now = left.push((name, bytes));
    let rec = recorded(bytes)->0;
    let row = running_row(pid as int, rec);
    law_ended_command_is_gone(files, reached, dir, pid);
    law_record_name_carries_its_pid(pid);
    law_running_id_names_its_pid(pid);
    assert(now.drop_last() =~= left);
    let kept = live_records(left, reached);
    let live = live_records(now, reached);
    assert(live == kept.push((pid, bytes)));
    assert(live.drop_last() =~= kept);
    let before = found_rows(kept, dir);
    let after = found_rows(live, dir);
    assert forall|r: RowView| #[trigger]
        rows_shown(now, reached, dir).contains(r) <==> (if r.id == running_id(pid as int) {
            r == row && wanted(dir, rec.d)
        } else {
            rows_shown(files, reached, dir).contains(r)
        }) by {
        lemma_sorted_rows(after, r);
        lemma_sorted_rows(before, r);
        assert(rows_shown(left, reached, dir).contains(r) <==> rows_shown(
            files,
            reached,
            dir,
        ).contains(r) && r.id != running_id(pid as int));
        if wanted(dir, rec.d) {
            assert(after == before.push(row));
            assert(after[before.len() as int] == row);
            if before.contains(r) {
                assert(after[before.index_of(r)] == r);
            }
            if after.contains(r) && r != row {
                assert(before[after.index_of(r)] == r);
            }
        }
    }
}

/// Sweeping the records of shells that are gone changes nothing of what is
/// shown.
pub proof fn law_sweeping_changes_no_row(
    files: Seq<(Seq<char>, Seq<u8>)>,
    reached: spec_fn(int) -> bool,
)
    ensures
        live_records(
            files.filter(
                |f: (Seq<char>, Seq<u8>)|
                    file_pid(f.0) matches Some(pid) ==> fated(f.0, reached(pid)) != Fate::Swept,
            ),
            reached,
        ) == live_records(files, reached),
    decreases files.len(),
{
    let f = |f: (Seq<char>, Seq<u8>)|
        file_pid(f.0) matches Some(pid) ==> fated(f.0, reached(pid)) != Fate::Swept;
    reveal(Seq::filter);
    if files.len() > 0 {
        let less = files.drop_last();
        law_sweeping_changes_no_row(less, reached);
        let left = files.filter(f);
        if f(files.last()) {
            assert(left.drop_last() =~= less.filter(f));
            assert(left.last() == files.last());
        }
    }
}

/// Records give their rows one by one, those found first and then those found
/// later, before they are put in order.
pub proof fn law_running_rows_add_up(
    a: Seq<(i32, Seq<u8>)>,
    b: Seq<(i32, Seq<u8>)>,
    dir: Option<Seq<char>>,
)
    ensures
        found_rows(a + b, dir) == found_rows(a, dir) + found_rows(b, dir),
    decreases b.len(),
{
    if b.len() == 0 {
        assert(a + b =~= a);
        assert(found_rows(a, dir) + found_rows(b, dir) =~= found_rows(a, dir));
    } else {
        assert((a + b).drop_last() =~= a + b.drop_last());
        law_running_rows_add_up(a, b.drop_last(), dir);
        assert(found_rows(a + b, dir) =~= found_rows(a, dir) + found_rows(b, dir));
    }
}

/// A record gives one row, with the shell's ID, what the record holds, and
/// neither an exit status nor a duration; a file that holds no record gives
/// none, and where a directory is asked for only a record of it does.
pub proof fn law_a_record_is_a_row(pid: i32, bytes: Seq<u8>, dir: Option<Seq<char>>)
    ensures
        ({
            let given = found_rows(seq![(pid, bytes)], dir);
            match recorded(bytes) {
                Some(rec) => if dir is None || dir == Some(rec.d) {
                    &&& given.len() == 1
                    &&& given[0].id == running_id(pid as int)
                    &&& given[0].count == 1
                    &&& given[0].entry.t == rec.t
                    &&& given[0].entry.d == rec.d
                    &&& given[0].entry.c == rec.c
                    &&& given[0].entry.x == -1
                    &&& given[0].entry.m == 0
                } else {
                    given.len() == 0
                },
                None => given.len() == 0,
            }
        }),
{
    reveal_with_fuel(found_rows, 2);
    let one = seq![(pid, bytes)];
    assert(one.drop_last() =~= Seq::<(i32, Seq<u8>)>::empty());
    assert(one.last() == (pid, bytes));
}

/// Running commands are shown newest first, and sorting them loses none.
pub proof fn law_running_rows_are_newest_first(
    files: Seq<(Seq<char>, Seq<u8>)>,
    reached: spec_fn(int) -> bool,
    dir: Option<Seq<char>>,
    row: RowView,
)
    ensures
        ({
            let all = found_rows(live_records(files, reached), dir);
            let rows = rows_shown(files, reached, dir);
            &&& rows.len() == all.len()
            &&& rows.contains(row) <==> all.contains(row)
            &&& forall|a: int, b: int|
                #![trigger rows[a], rows[b]]
                0 <= a < b < rows.len() ==> rows[a].entry.t >= rows[b].entry.t
        }),
{
    let all = found_rows(live_records(files, reached), dir);
    let times = row_times(all);
    let rows = rows_shown(files, reached, dir);
    lemma_sorted_rows(all, row);
    lemma_newest_order(times);
    let o = newest_order(times);
    assert forall|a: int, b: int| #![trigger rows[a], rows[b]] 0 <= a < b < rows.len() implies
        rows[a].entry.t >= rows[b].entry.t by {
        assert(before(times, o[a], o[b]));
        assert(times[o[a]] == all[o[a]].entry.t);
        assert(times[o[b]] == all[o[b]].entry.t);
    }
}

/// The files of the directory are looked at one by one.
pub proof fn law_live_records_add_up(
    a: Seq<(Seq<char>, Seq<u8>)>,
    b: Seq<(Seq<char>, Seq<u8>)>,
    reached: spec_fn(int) -> bool,
)
    ensures
        live_records(a + b, reached) == live_records(a, reached) + live_records(b, reached),
    decreases b.len(),
{
    if b.len() == 0 {
        assert(a + b =~= a);
        assert(live_records(a, reached) + live_records(b, reached) =~= live_records(a, reached));
    } else {
        assert((a + b).drop_last() =~= a + b.drop_last());
        law_live_records_add_up(a, b.drop_last(), reached);
        assert(live_records(a + b, reached) =~= live_records(a, reached) + live_records(
            b,
            reached,
        ));
    }
}

/// The record of a shell is read as long as the shell can be reached, whatever
/// its pid, and swept once it cannot; pids that are not positive cannot be.
/// A file of any other name is let be.
pub proof fn law_records_live_as_long_as_their_shell(
    pid: i32,
    bytes: Seq<u8>,
    reached: spec_fn(int) -> bool,
    other: Seq<char>,
    answers: bool,
)
    requires
        other.len() < 5 || other.skip(other.len() - 5) != seq!['.', 'j', 's', 'o', 'n'],
    ensures
        ({
            let name = decimal(pid as int) + seq!['.', 'j', 's', 'o', 'n'];
            &&& fated(name, answers) == if pid > 0 && answers {
                Fate::Read(pid)
            } else {
                Fate::Swept
            }
            &&& live_records(seq![(name, bytes)], reached) == if pid > 0 && reached(pid as int) {
                seq![(pid, bytes)]
            } else {
                Seq::empty()
            }
            &&& fated(other, answers) == Fate::Ignored
            &&& live_records(seq![(other, bytes)], reached).len() == 0
        }),
{
    reveal_with_fuel(live_records, 2);
    reveal_strlit(".json");
    assert(".json"@ =~= seq!['.', 'j', 's', 'o', 'n']);
    let name = record_name(pid as int);
    law_record_name_carries_its_pid(pid);
    let one = seq![(name, bytes)];
    assert(one.drop_last() =~= Seq::<(Seq<char>, Seq<u8>)>::empty());
    assert(one.last() == (name, bytes));
    assert(Seq::<(i32, Seq<u8>)>::empty().push((pid, bytes)) =~= seq![(pid, bytes)]);
    let two = seq![(other, bytes)];
    assert(two.drop_last() =~= Seq::<(Seq<char>, Seq<u8>)>::empty());
    assert(two.last() == (other, bytes));
}

/// The ID of a running command finds the command that its record holds, while
/// the shell is alive; without a record, without the shell, or by an ID of
/// another kind nothing is found.
pub proof fn law_running_ids_find_their_command(
    pid: i32,
    id: Seq<char>,
    alive: bool,
    bytes: Seq<u8>,
)
    requires
        id_pid(id) is None,
    ensures
        command_of(running_id(pid as int), alive, Some(bytes)) == match recorded(bytes) {
            Some(rec) => if alive {
                Some(rec.c)
            } else {
                None
            },
            None => None,
        },
        command_of(running_id(pid as int), alive, None) is None,
        command_of(id, alive, Some(bytes)) is None,
{
    law_running_id_names_its_pid(pid);
}

/// The records stand in a directory of their own beside the history.
pub proof fn law_records_stand_beside_the_history(
    dir: Seq<char>,
    name: Seq<char>,
    parent: Option<Seq<char>>,
)
    requires
        dir.len() > 0,
        dir.last() != '/',
        dir.last() != '.',
        is_component(name),
        comes_apart(dir + seq!['/'] + name, parent),
    ensures
        records_dir(parent) == dir + "/inflight"@,
{
    reveal_strlit("/");
    reveal_strlit("/inflight");
    reveal_strlit("inflight");
    assert("/"@ =~= seq!['/']);
    assert(is_directory(dir));
    assert(joined(dir, name) == dir + seq!['/'] + name);
    assert(dir + "/"@ + "inflight"@ =~= dir + "/inflight"@);
}

/// A file holds the record of a running command where it has a time, a
/// directory and a command that is not empty, and the record has just those.
pub proof fn law_records_are_what_was_written(bytes: Seq<u8>)
    ensures
        match record(bytes, Shape::Running) {
            Some(v) => {
                &&& recorded(bytes) is Some <==> v.t is Some && v.d is Some && v.c is Some
                    && v.c->0.len() > 0
                &&& recorded(bytes) matches Some(rec) ==> v.t == Some(rec.t) && v.d == Some(rec.d)
                    && v.c == Some(rec.c)
            },
            None => recorded(bytes) is None,
        },
{
}

} // verus!
