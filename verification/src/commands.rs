//! The commands: what their arguments ask for, and what they print.

use vstd::prelude::*;
use vstd::slice::slice_subrange;
use crate::cli::{
    die_err, die_usage, flags_or_die, flags_or_message, int_flag, names, not_a_number, text_flag,
    text_or_empty, texts, Exit, Flags,
};
use crate::entry::{Entry, EntryView, Query, Row, StoreError};
use crate::ids::{id_text, law_id_names_its_parts};
use crate::inflight::{
    id_pid, join, joined, law_id_spaces_are_apart, law_running_id_names_its_pid, parse_id,
    running_id,
};
use crate::render::{
    format_row, format_running_row, layout_vars, row_line, running_line, zsh_layout_vars,
};
use crate::text::{
    blank, chars_of, decimal, decoded, digit_value, is_blank, is_space,
    law_trailing_characters_are_dropped, law_trimming_drops_white_space, lemma_decimal_not_trimmed,
    lemma_decimal_parses, lemma_digits_number, lossy, parse_usize, parsed_i64, parsed_usize,
    push_count, same_chars, string_of, strip_trailing, text_view, trim, trimmed, without_trailing,
};

verus! {

/// Where the history is kept, by the two environment variables that say so:
/// None where neither does.
pub open spec fn history_path(file: Option<Seq<char>>, home: Option<Seq<char>>) -> Option<
    Seq<char>,
> {
    match file {
        Some(p) if p.len() > 0 => Some(p),
        _ => match home {
            Some(h) if h.len() > 0 => Some(joined(h, ".local/share/zhis/history.jsonl"@)),
            _ => None,
        },
    }
}

/// Where the history is kept: `$ZHIS_FILE`, or a place below `$HOME`.
pub fn data_path(zhis_file: &Option<String>, home: &Option<String>) -> (r: Result<String, Exit>)
    ensures
        match history_path(text_view(*zhis_file), text_view(*home)) {
            Some(path) => r matches Ok(p) && p@ == path,
            None => r matches Err(e) && e.code == 2 && e.message@
                == "zhis: $HOME is not set; set $ZHIS_FILE instead"@,
        },
{
    if let Some(p) = zhis_file {
        if !p.as_str().is_empty() {
            return Ok(p.clone());
        }
    }
    if let Some(h) = home {
        if !h.as_str().is_empty() {
            return Ok(join(h.as_str(), ".local/share/zhis/history.jsonl"));
        }
    }
    Err(die_usage("zhis: $HOME is not set; set $ZHIS_FILE instead"))
}

/// The command in a text that was piped in: without the newlines at its end,
/// and none where it is blank.
pub open spec fn command_in(text: Seq<char>) -> Option<Seq<char>> {
    let cmd = without_trailing(text, '\n', '\n');
    if is_blank(cmd) {
        None
    } else {
        Some(cmd)
    }
}

/// The command in a text that was piped in; None for a blank one.
pub fn command_text(text: &str) -> (r: Option<String>)
    ensures
        match r {
            Some(cmd) => command_in(text@) == Some(cmd@),
            None => command_in(text@) is None,
        },
{
    let chars: Vec<char> = chars_of(text);
    let cmd: &[char] = strip_trailing(chars.as_slice(), '\n', '\n');
    if blank(cmd) {
        None
    } else {
        Some(string_of(cmd))
    }
}

/// The command in bytes that were piped in; None for a blank or
/// whitespace-only read.
pub fn read_piped_cmd(raw: &[u8]) -> (r: Option<String>)
    ensures
        match r {
            Some(cmd) => command_in(decoded(raw@)) == Some(cmd@),
            None => command_in(decoded(raw@)) is None,
        },
{
    let text: String = lossy(raw);
    command_text(text.as_str())
}

/// A timestamp, or the time it is where none was given.
pub fn ts_or_now(ts: i64, now: i64) -> (r: i64)
    ensures
        r == if ts != 0 {
            ts
        } else {
            now
        },
{
    if ts != 0 {
        ts
    } else {
        now
    }
}

/// The integer that a flag is set to, `default` where it is not set; None
/// where it is set to no integer.
pub open spec fn int_or(flags: Flags, name: Seq<char>, default: int) -> Option<int> {
    if flags.set().contains_key(name) {
        parsed_i64(flags.set()[name], 10)
    } else {
        Some(default)
    }
}

/// Whether `e` is the usage error of a flag that is set to no integer.
pub open spec fn refuses_flag(e: Exit, flags: Flags, name: Seq<char>) -> bool {
    &&& flags.set().contains_key(name)
    &&& parsed_i64(flags.set()[name], 10) is None
    &&& e.code == 2
    &&& e.message@ == not_a_number(flags.set()[name], name)
}

/// What `-pid` says.
#[derive(Debug, Clone, Copy, PartialEq, Eq, Structural)]
pub enum Pid {
    Absent,
    /// No number, or one that no process has.
    Unusable,
    Of(i32),
}

/// What `-pid` says: a process id is a positive number that fits in 32 bits.
pub open spec fn pid_said(flags: Flags) -> Pid {
    if !flags.set().contains_key("pid"@) {
        Pid::Absent
    } else {
        match parsed_i64(flags.set()["pid"@], 10) {
            Some(n) if 0 < n <= i32::MAX => Pid::Of(n as i32),
            _ => Pid::Unusable,
        }
    }
}

/// The shell's own pid (`$$`), which is not this process's: the caller must
/// pass it. An unusable value only warns and reads as absent: the history is
/// the system of record, and an entry must not be lost over the in-flight
/// bookkeeping flag.
pub fn pid_flag(flags: &Flags) -> (r: Pid)
    ensures
        r == pid_said(*flags),
{
    if !flags.has("pid") {
        return Pid::Absent;
    }
    match int_flag(flags, "pid", 0) {
        Ok(n) => if 0 < n && n <= i32::MAX as i64 {
            Pid::Of(n as i32)
        } else {
            Pid::Unusable
        },
        Err(_) => Pid::Unusable,
    }
}

/// What `add` was asked to record. Its `-pid` is looked at once the command
/// has been read.
pub struct Add {
    pub dir: String,
    pub exit: i64,
    pub ts: i64,
    pub ms: i64,
    pub flags: Flags,
}

/// Whether `add` is what the flags of `add` ask to record.
pub open spec fn asks_to_add(flags: Flags, add: Add) -> bool {
    &&& add.flags == flags
    &&& add.dir@ == text_or_empty(flags, "dir"@)
    &&& int_or(flags, "exit"@, -1) == Some(add.exit as int)
    &&& int_or(flags, "ts"@, 0) == Some(add.ts as int)
    &&& int_or(flags, "ms"@, 0) == Some(add.ms as int)
}

/// Whether `e` is what the flags of `add` are refused with.
pub open spec fn add_is_refused(flags: Flags, e: Exit) -> bool {
    ||| refuses_flag(e, flags, "exit"@)
    ||| int_or(flags, "exit"@, -1) is Some && refuses_flag(e, flags, "ts"@)
    ||| int_or(flags, "exit"@, -1) is Some && int_or(flags, "ts"@, 0) is Some && refuses_flag(
        e,
        flags,
        "ms"@,
    )
}

/// Reads the flags of `add`; an exit status that is not given is unknown.
pub fn read_add(flags: Flags) -> (r: Result<Add, Exit>)
    ensures
        match r {
            Ok(add) => asks_to_add(flags, add),
            Err(e) => add_is_refused(flags, e),
        },
{
    let dir: String = text_flag(&flags, "dir");
    let exit: i64 = match int_flag(&flags, "exit", -1) {
        Ok(n) => n,
        Err(e) => {
            return Err(e);
        },
    };
    let ts: i64 = match int_flag(&flags, "ts", 0) {
        Ok(n) => n,
        Err(e) => {
            return Err(e);
        },
    };
    let ms: i64 = match int_flag(&flags, "ms", 0) {
        Ok(n) => n,
        Err(e) => {
            return Err(e);
        },
    };
    Ok(Add { dir, exit, ts, ms, flags })
}

/// The entry that `add` appends.
pub open spec fn added_entry(add: Add, cmd: Seq<char>, now: i64) -> EntryView {
    EntryView {
        t: if add.ts != 0 {
            add.ts
        } else {
            now
        },
        d: add.dir@,
        x: add.exit,
        c: cmd,
        m: if add.ms < 0 {
            0
        } else {
            add.ms
        },
    }
}

/// The entry that `add` appends for a command that was piped in.
pub fn entry_to_add(add: &Add, cmd: String, now: i64) -> (r: Entry)
    ensures
        r@ == added_entry(*add, cmd@, now),
{
    let m: i64 = if add.ms < 0 { 0 } else { add.ms };
    Entry { t: ts_or_now(add.ts, now), d: add.dir.clone(), x: add.exit, c: cmd, m }
}

/// What `begin` was asked to record.
pub struct Begin {
    pub dir: String,
    pub ts: i64,
    pub pid: i32,
}

/// What is said of a `-pid` that cannot be used.
pub open spec fn pid_warning() -> Seq<char> {
    "zhis: ignoring -pid: not a usable process id"@
}

/// What is said of a `-pid` that cannot be used.
pub fn unusable_pid() -> (r: String)
    ensures
        r@ == pid_warning(),
{
    "zhis: ignoring -pid: not a usable process id".to_owned()
}

/// How `begin` is used.
pub open spec fn begin_usage() -> Seq<char> {
    "usage: zhis begin -pid N [-dir D] [-ts N]"@
}

/// Whether `begin` is what the flags of `begin` ask to record.
pub open spec fn asks_to_begin(flags: Flags, begin: Begin) -> bool {
    &&& begin.dir@ == text_or_empty(flags, "dir"@)
    &&& int_or(flags, "ts"@, 0) == Some(begin.ts as int)
    &&& pid_said(flags) == Pid::Of(begin.pid)
}

/// Whether `e` is what the flags of `begin` are refused with.
pub open spec fn begin_is_refused(flags: Flags, e: Exit) -> bool {
    ||| refuses_flag(e, flags, "ts"@)
    ||| {
        &&& int_or(flags, "ts"@, 0) is Some
        &&& e.code == 2
        &&& match pid_said(flags) {
            Pid::Absent => e.message@ == begin_usage(),
            Pid::Unusable => e.message@ == pid_warning() + "\n"@ + begin_usage(),
            Pid::Of(_) => false,
        }
    }
}

/// Reads the flags of `begin`, which does not work without a usable pid.
pub fn read_begin(flags: &Flags) -> (r: Result<Begin, Exit>)
    ensures
        match r {
            Ok(begin) => asks_to_begin(*flags, begin),
            Err(e) => begin_is_refused(*flags, e),
        },
{
    let dir: String = text_flag(flags, "dir");
    let ts: i64 = match int_flag(flags, "ts", 0) {
        Ok(n) => n,
        Err(e) => {
            return Err(e);
        },
    };
    match pid_flag(flags) {
        Pid::Of(pid) => Ok(Begin { dir, ts, pid }),
        Pid::Absent => Err(die_usage("usage: zhis begin -pid N [-dir D] [-ts N]")),
        Pid::Unusable => {
            let mut message: String = unusable_pid();
            message.append("\n");
            message.append("usage: zhis begin -pid N [-dir D] [-ts N]");
            Err(Exit { code: 2, message })
        },
    }
}

/// Whether `r` is what the flags of `list` ask for, or what they are refused
/// with.
pub open spec fn asks_for_list(flags: Flags, r: Result<Query, Exit>) -> bool {
    match int_or(flags, "limit"@, 0) {
        Some(n) => r matches Ok(q) && {
            &&& text_view(q.dir) == if text_or_empty(flags, "dir"@).len() == 0 {
                None
            } else {
                Some(text_or_empty(flags, "dir"@))
            }
            &&& q.limit == if n > 0 {
                Some(n as usize)
            } else {
                None
            }
            &&& q.uniq == flags.set().contains_key("uniq"@)
        },
        None => r matches Err(e) && refuses_flag(e, flags, "limit"@),
    }
}

/// Reads the flags of `list`. An empty directory means every directory, and a
/// limit that is not positive means none, so that `-limit 0` can turn it off.
pub fn read_list(flags: &Flags) -> (r: Result<Query, Exit>)
    ensures
        asks_for_list(*flags, r),
{
    let dir: String = text_flag(flags, "dir");
    match int_flag(flags, "limit", 0) {
        Err(e) => Err(e),
        Ok(limit) => Ok(
            Query {
                dir: if dir.as_str().is_empty() {
                    None
                } else {
                    Some(dir)
                },
                limit: if limit > 0 {
                    Some(limit as usize)
                } else {
                    None
                },
                uniq: flags.has("uniq"),
            },
        ),
    }
}

/// Whether the age of every row is a number.
pub open spec fn ages_fit(rows: Seq<Row>, now: i64) -> bool {
    forall|k: int|
        0 <= k < rows.len() ==> i64::MIN <= now - (#[trigger] rows[k]).entry.t <= i64::MAX
}

/// Whether the age of every row is a number.
pub fn ages_are_numbers(rows: &[Row], now: i64) -> (r: bool)
    ensures
        r == ages_fit(rows@, now),
{
    let mut k: usize = 0;
    while k < rows.len()
        invariant
            k <= rows@.len(),
            forall|j: int|
                0 <= j < k ==> i64::MIN <= now - (#[trigger] rows@[j]).entry.t <= i64::MAX,
        decreases rows@.len() - k,
    {
        if now.checked_sub(rows[k].entry.t).is_none() {
            assert(!(i64::MIN <= now - rows@[k as int].entry.t <= i64::MAX));
            return false;
        }
        k = k + 1;
    }
    true
}

/// What `list` prints: the running commands, then the finished ones, one line
/// each.
pub open spec fn listed_lines(running: Seq<Row>, rows: Seq<Row>, now: int) -> Seq<Seq<char>> {
    running.map_values(|r: Row| running_line(r@, now)) + rows.map_values(
        |r: Row| row_line(r@, now),
    )
}

/// What `list` prints. The running commands are deliberately outside any
/// limit: what is running now is what the user most wants to see, and there
/// are only ever as many as there are live shells.
pub fn list_lines(running: &[Row], rows: &[Row], now: i64) -> (r: Vec<String>)
    requires
        ages_fit(running@, now),
        ages_fit(rows@, now),
    ensures
        texts(r@) == listed_lines(running@, rows@, now as int),
{
    let ghost all = listed_lines(running@, rows@, now as int);
    let mut out: Vec<String> = Vec::new();
    let mut k: usize = 0;
    assert(texts(out@) =~= all.take(0));
    while k < running.len()
        invariant
            k <= running@.len(),
            ages_fit(running@, now),
            all == listed_lines(running@, rows@, now as int),
            texts(out@) == all.take(k as int),
        decreases running@.len() - k,
    {
        let ghost sofar = texts(out@);
        out.push(format_running_row(&running[k], now));
        k = k + 1;
        assert(texts(out@) =~= sofar.push(all[k - 1]));
        assert(all.take(k as int) =~= all.take(k - 1).push(all[k - 1]));
    }
    let first: usize = running.len();
    let mut j: usize = 0;
    while j < rows.len()
        invariant
            j <= rows@.len(),
            first == running@.len(),
            ages_fit(rows@, now),
            all == listed_lines(running@, rows@, now as int),
            texts(out@) == all.take(first + j),
        decreases rows@.len() - j,
    {
        let ghost sofar = texts(out@);
        out.push(format_row(&rows[j], now));
        assert(all[first + j] == row_line(rows@[j as int]@, now as int));
        j = j + 1;
        assert(texts(out@) =~= sofar.push(all[first + j - 1]));
        assert(all.take(first + j) =~= all.take(first + j - 1).push(all[first + j - 1]));
    }
    assert(all.take(first + j) =~= all);
    out
}

/// Where an ID is looked up.
#[derive(Debug, Clone, Copy, PartialEq, Eq, Structural)]
pub enum Route {
    /// Among the running commands, under this pid.
    Running(i32),
    /// In the history.
    Stored,
}

/// Where an ID is looked up.
pub open spec fn routed(id: Seq<char>) -> Route {
    match id_pid(id) {
        Some(pid) => Route::Running(pid as i32),
        None => Route::Stored,
    }
}

/// Where an ID is looked up.
pub fn route(id: &str) -> (r: Route)
    ensures
        r == routed(id@),
{
    match parse_id(id) {
        Some(pid) => Route::Running(pid),
        None => Route::Stored,
    }
}

/// The command that a lookup in the history found. None for an ID that the
/// history no longer holds, which is how the picker learns that a row went
/// away under it; any other error ends the command.
pub fn command_found(found: Result<Entry, StoreError>, path: &str, detail: &str) -> (r: Result<
    Option<String>,
    Exit,
>)
    ensures
        match found {
            Ok(entry) => r matches Ok(Some(c)) && c@ == entry.c@,
            Err(StoreError::EntryNotFound) => r == Ok::<Option<String>, Exit>(None),
            Err(e) => r matches Err(exit) && exit.code == 1 && exit.message@ == "zhis: "@ + e.text(
                path@,
                detail@,
            ),
        },
{
    match found {
        Ok(entry) => Ok(Some(entry.c)),
        Err(e) => if e == StoreError::EntryNotFound {
            Ok(None)
        } else {
            Err(die_err(&e, path, detail))
        },
    }
}

/// What `fit` was asked about.
pub struct Fit {
    pub id: String,
    pub cols: usize,
    pub count: usize,
}

/// The number that a text is, 0 where it is none.
pub open spec fn number_or_zero(text: Option<Seq<char>>) -> int {
    match text {
        Some(s) => match parsed_usize(s) {
            Some(n) => n,
            None => 0,
        },
        None => 0,
    }
}

/// The count in the " ×N" field of a folded row.
pub open spec fn count_text(s: Seq<char>) -> Seq<char> {
    let t = trimmed(s);
    if t.len() > 0 && t[0] == '×' {
        t.skip(1)
    } else {
        t
    }
}

/// The text that a flag is set to.
pub open spec fn flag_value(flags: Flags, name: Seq<char>) -> Option<Seq<char>> {
    if flags.set().contains_key(name) {
        Some(flags.set()[name])
    } else {
        None
    }
}

/// Whether `fit` is what the flags of `fit` ask about.
pub open spec fn asks_about(flags: Flags, fit: Fit) -> bool {
    &&& fit.id@ == text_or_empty(flags, "id"@)
    &&& fit.cols == number_or_zero(flag_value(flags, "cols"@))
    &&& fit.count == number_or_zero(
        match flag_value(flags, "count"@) {
            Some(s) => Some(count_text(s)),
            None => None,
        },
    )
}

/// Reads the flags of `fit`. An empty width is a fallback, not a usage error,
/// and so is a count that is none. The count is the folded row's " ×N" field.
pub fn read_fit(flags: &Flags) -> (r: Fit)
    ensures
        asks_about(*flags, r),
{
    let id: String = text_flag(flags, "id");
    let cols: usize = match flags.get("cols") {
        Some(v) => {
            let chars: Vec<char> = chars_of(v.as_str());
            match parse_usize(chars.as_slice()) {
                Some(n) => n,
                None => 0,
            }
        },
        None => 0,
    };
    let count: usize = match flags.get("count") {
        Some(v) => {
            let chars: Vec<char> = chars_of(v.as_str());
            let text: &[char] = trim(chars.as_slice());
            let number: &[char] = if text.len() > 0 && text[0] == '×' {
                slice_subrange(text, 1, text.len())
            } else {
                text
            };
            assert(number@ =~= count_text(v@));
            match parse_usize(number) {
                Some(n) => n,
                None => 0,
            }
        },
        None => 0,
    };
    Fit { id, cols, count }
}

/// Whether `r` is what the flags of `delete` ask for: an ID and whether all of
/// its command goes, or nothing for a running command.
pub open spec fn asks_to_delete(flags: Flags, r: Option<(String, bool)>) -> bool {
    match r {
        Some((id, all)) => {
            &&& id@ == text_or_empty(flags, "id"@)
            &&& id_pid(id@) is None
            &&& all == flags.set().contains_key("all"@)
        },
        None => id_pid(text_or_empty(flags, "id"@)) is Some,
    }
}

/// Reads the flags of `delete`: the ID, and whether every entry with the same
/// command goes. None for a running command, which is not the picker's to
/// delete: the record clears itself when the command ends, and removing it
/// would not stop the process.
pub fn read_delete(flags: &Flags) -> (r: Option<(String, bool)>)
    ensures
        asks_to_delete(*flags, r),
{
    let id: String = text_flag(flags, "id");
    if parse_id(id.as_str()).is_some() {
        return None;
    }
    Some((id, flags.has("all")))
}

/// The file that `import` reads; it takes just one.
pub fn read_import(flags: &Flags) -> (r: Result<String, Exit>)
    ensures
        if flags.positionals@.len() == 1 {
            r matches Ok(p) && p@ == flags.positionals@[0]@
        } else {
            r matches Err(e) && e.code == 2 && e.message@
                == "usage: zhis import <zsh_history_file>"@
        },
{
    if flags.positionals.len() != 1 {
        return Err(die_usage("usage: zhis import <zsh_history_file>"));
    }
    Ok(flags.positionals[0].clone())
}

/// The file that `import-jsonl` reads, or None for standard input.
pub fn read_import_jsonl(flags: &Flags) -> (r: Option<String>)
    ensures
        if flags.positionals@.len() > 0 {
            r matches Some(p) && p@ == flags.positionals@[0]@
        } else {
            r is None
        },
{
    if flags.positionals.len() > 0 {
        Some(flags.positionals[0].clone())
    } else {
        None
    }
}

/// What an import prints when it is done.
pub fn imported_line(n: usize) -> (r: String)
    ensures
        r@ == "imported "@ + decimal(n as int) + " entries"@,
{
    let mut out: String = "imported ".to_owned();
    push_count(&mut out, n as u64);
    out.append(" entries");
    out
}

/// What `init` prints: the row layout, the integration script, and the key
/// bindings for the arrows unless they are not wanted.
pub fn init_script(flags: &Flags, script: &str, arrow_binds: &str) -> (r: String)
    ensures
        r@ == layout_vars() + script@ + if flags.set().contains_key("no-arrow-binds"@) {
            Seq::empty()
        } else {
            arrow_binds@
        },
{
    let mut out: String = zsh_layout_vars();
    out.append(script);
    if !flags.has("no-arrow-binds") {
        out.append(arrow_binds);
    }
    assert(out@ =~= layout_vars() + script@ + if flags.set().contains_key("no-arrow-binds"@) {
        Seq::empty()
    } else {
        arrow_binds@
    });
    out
}

/// The commands.
#[derive(Debug, Clone, Copy, PartialEq, Eq, Structural)]
pub enum Command {
    Init,
    Add,
    Begin,
    List,
    Get,
    Fit,
    Delete,
    Import,
    ImportJsonl,
}

/// The command of this name.
pub open spec fn command_of(name: Seq<char>) -> Option<Command> {
    if name == "init"@ {
        Some(Command::Init)
    } else if name == "add"@ {
        Some(Command::Add)
    } else if name == "begin"@ {
        Some(Command::Begin)
    } else if name == "list"@ {
        Some(Command::List)
    } else if name == "get"@ {
        Some(Command::Get)
    } else if name == "fit"@ {
        Some(Command::Fit)
    } else if name == "delete"@ {
        Some(Command::Delete)
    } else if name == "import"@ {
        Some(Command::Import)
    } else if name == "import-jsonl"@ {
        Some(Command::ImportJsonl)
    } else {
        None
    }
}

fn is(name: &[char], text: &str) -> (r: bool)
    ensures
        r == (name@ == text@),
{
    let chars: Vec<char> = chars_of(text);
    same_chars(name, chars.as_slice())
}

/// The command that the arguments name first.
pub fn command_named(args: &[String]) -> (r: Result<Command, Exit>)
    ensures
        if args@.len() == 0 {
            r matches Err(e) && e.code == 2 && e.message@
                == "usage: zhis <init|add|begin|list|get|fit|delete|import|import-jsonl> [flags]"@
        } else {
            match command_of(args@[0]@) {
                Some(c) => r matches Ok(got) && got == c,
                None => r matches Err(e) && e.code == 2 && e.message@ == "zhis: unknown command "@
                    + args@[0]@,
            }
        },
{
    if args.len() == 0 {
        return Err(
            die_usage(
                "usage: zhis <init|add|begin|list|get|fit|delete|import|import-jsonl> [flags]",
            ),
        );
    }
    let name: Vec<char> = chars_of(args[0].as_str());
    let name: &[char] = name.as_slice();
    if is(name, "init") {
        Ok(Command::Init)
    } else if is(name, "add") {
        Ok(Command::Add)
    } else if is(name, "begin") {
        Ok(Command::Begin)
    } else if is(name, "list") {
        Ok(Command::List)
    } else if is(name, "get") {
        Ok(Command::Get)
    } else if is(name, "fit") {
        Ok(Command::Fit)
    } else if is(name, "delete") {
        Ok(Command::Delete)
    } else if is(name, "import") {
        Ok(Command::Import)
    } else if is(name, "import-jsonl") {
        Ok(Command::ImportJsonl)
    } else {
        let mut message: String = "zhis: unknown command ".to_owned();
        message.append(args[0].as_str());
        Err(Exit { code: 2, message })
    }
}

/// The flags that a command knows and that take a value.
pub open spec fn value_flags(c: Command) -> Seq<Seq<char>> {
    match c {
        Command::Add => seq!["dir"@, "exit"@, "ts"@, "ms"@, "pid"@],
        Command::Begin => seq!["dir"@, "ts"@, "pid"@],
        Command::List => seq!["dir"@, "limit"@],
        Command::Get => seq!["id"@],
        Command::Fit => seq!["id"@, "cols"@, "count"@],
        Command::Delete => seq!["id"@],
        _ => seq![],
    }
}

/// The flags that a command knows and that take none.
pub open spec fn bool_flags(c: Command) -> Seq<Seq<char>> {
    match c {
        Command::Init => seq!["no-arrow-binds"@],
        Command::List => seq!["uniq"@],
        Command::Delete => seq!["all"@],
        _ => seq![],
    }
}

/// Whether `r` is what a command makes of its arguments: its flags, or its end
/// with a usage error.
pub open spec fn flags_or_end(c: Command, args: Seq<String>, r: Result<Flags, Exit>) -> bool {
    match r {
        Ok(flags) => flags_or_message(
            texts(args),
            value_flags(c),
            bool_flags(c),
            Ok::<Flags, String>(flags),
        ),
        Err(e) => e.code == 2 && exists|m: String| #[trigger]
            flags_or_message(
                texts(args),
                value_flags(c),
                bool_flags(c),
                Err::<Flags, String>(m),
            ) && m@ == e.message@,
    }
}

/// The flags of a command.
pub fn command_flags(c: Command, args: &[String]) -> (r: Result<Flags, Exit>)
    ensures
        flags_or_end(c, args@, r),
{
    let none: &[&str] = &[];
    match c {
        Command::Init => {
            let bools: &[&str] = &["no-arrow-binds"];
            assert(names(bools@) =~= bool_flags(c));
            assert(names(none@) =~= value_flags(c));
            flags_or_die(args, none, bools)
        },
        Command::Add => {
            let known: &[&str] = &["dir", "exit", "ts", "ms", "pid"];
            assert(names(known@) =~= value_flags(c));
            assert(names(none@) =~= bool_flags(c));
            flags_or_die(args, known, none)
        },
        Command::Begin => {
            let known: &[&str] = &["dir", "ts", "pid"];
            assert(names(known@) =~= value_flags(c));
            assert(names(none@) =~= bool_flags(c));
            flags_or_die(args, known, none)
        },
        Command::List => {
            let known: &[&str] = &["dir", "limit"];
            assert(names(known@) =~= value_flags(c));
            let bools: &[&str] = &["uniq"];
            assert(names(bools@) =~= bool_flags(c));
            flags_or_die(args, known, bools)
        },
        Command::Get => {
            let known: &[&str] = &["id"];
            assert(names(known@) =~= value_flags(c));
            assert(names(none@) =~= bool_flags(c));
            flags_or_die(args, known, none)
        },
        Command::Fit => {
            let known: &[&str] = &["id", "cols", "count"];
            assert(names(known@) =~= value_flags(c));
            assert(names(none@) =~= bool_flags(c));
            flags_or_die(args, known, none)
        },
        Command::Delete => {
            let known: &[&str] = &["id"];
            assert(names(known@) =~= value_flags(c));
            let bools: &[&str] = &["all"];
            assert(names(bools@) =~= bool_flags(c));
            flags_or_die(args, known, bools)
        },
        Command::Import => {
            assert(names(none@) =~= value_flags(c));
            assert(names(none@) =~= bool_flags(c));
            flags_or_die(args, none, none)
        },
        Command::ImportJsonl => {
            assert(names(none@) =~= value_flags(c));
            assert(names(none@) =~= bool_flags(c));
            flags_or_die(args, none, none)
        },
    }
}

/// A flag that is set to a number has that number, whichever it is, and one
/// that is not set has its default. It is refused just where what it is set to
/// is no number.
pub proof fn law_number_flags_give_their_number(
    flags: Flags,
    name: Seq<char>,
    default: int,
    n: i64,
    e: Exit,
)
    ensures
        !flags.set().contains_key(name) ==> int_or(flags, name, default) == Some(default),
        flags.set().contains_key(name) && flags.set()[name] == decimal(n as int) ==> int_or(
            flags,
            name,
            default,
        ) == Some(n as int),
        refuses_flag(e, flags, name) ==> flags.set().contains_key(name) && parsed_i64(
            flags.set()[name],
            10,
        ) is None && e.code == 2,
{
    lemma_decimal_parses(n as int, i64::MIN as int, i64::MAX as int);
}

/// What `add` records is what it was given. The exit status is the number of
/// `-exit`, whichever it is, and -1 where there is none; the directory is the
/// text of `-dir`; the duration is the number of `-ms`, 0 where that is
/// negative or missing; the time is that of `-ts`, and now where that is 0 or
/// missing. The command is the one that was read.
pub proof fn law_added_entry_is_what_was_given(
    flags: Flags,
    add: Add,
    cmd: Seq<char>,
    now: i64,
    n: i64,
)
    requires
        asks_to_add(flags, add),
    ensures
        ({
            let e = added_entry(add, cmd, now);
            let set = flags.set();
            &&& e.c == cmd
            &&& !set.contains_key("exit"@) ==> e.x == -1
            &&& set.contains_key("exit"@) ==> parsed_i64(set["exit"@], 10) == Some(e.x as int)
            &&& set.contains_key("exit"@) && set["exit"@] == decimal(n as int) ==> e.x == n
            &&& !set.contains_key("dir"@) ==> e.d.len() == 0
            &&& set.contains_key("dir"@) ==> e.d == set["dir"@]
            &&& !set.contains_key("ms"@) ==> e.m == 0
            &&& set.contains_key("ms"@) && set["ms"@] == decimal(n as int) ==> e.m == if n < 0 {
                0
            } else {
                n as int
            }
            &&& !set.contains_key("ts"@) ==> e.t == now
            &&& set.contains_key("ts"@) && set["ts"@] == decimal(n as int) ==> e.t == if n == 0 {
                now
            } else {
                n
            }
        }),
{
    lemma_decimal_parses(n as int, i64::MIN as int, i64::MAX as int);
}

/// The flags of `add` are refused only where one of its numbers is none.
pub proof fn law_add_takes_every_number(flags: Flags, e: Exit)
    requires
        add_is_refused(flags, e),
    ensures
        e.code == 2,
        exists|name: Seq<char>|
            (name == "exit"@ || name == "ts"@ || name == "ms"@) && #[trigger]
            flags.set().contains_key(name) && parsed_i64(flags.set()[name], 10) is None,
{
}

/// A process id is the number of `-pid` where that is positive and fits in 32
/// bits; any other number is unusable.
pub proof fn law_pids_are_positive_numbers(flags: Flags, n: i64)
    ensures
        !flags.set().contains_key("pid"@) <==> pid_said(flags) == Pid::Absent,
        flags.set().contains_key("pid"@) && flags.set()["pid"@] == decimal(n as int) ==> pid_said(
            flags,
        ) == if 1 <= n <= 2147483647 {
            Pid::Of(n as i32)
        } else {
            Pid::Unusable
        },
        pid_said(flags) matches Pid::Of(pid) ==> pid > 0 && parsed_i64(flags.set()["pid"@], 10)
            == Some(pid as int),
{
    lemma_decimal_parses(n as int, i64::MIN as int, i64::MAX as int);
}

/// What `begin` records is what it was given: the process id, the directory,
/// and the time, 0 where that is missing. It is refused only without a usable
/// process id or where its time is no number.
pub proof fn law_begun_is_what_was_given(flags: Flags, begin: Begin, e: Exit, n: i64)
    ensures
        asks_to_begin(flags, begin) ==> {
            let set = flags.set();
            &&& set.contains_key("pid"@)
            &&& begin.pid > 0
            &&& parsed_i64(set["pid"@], 10) == Some(begin.pid as int)
            &&& set.contains_key("dir"@) ==> begin.dir@ == set["dir"@]
            &&& !set.contains_key("dir"@) ==> begin.dir@.len() == 0
            &&& set.contains_key("ts"@) && set["ts"@] == decimal(n as int) ==> begin.ts == n
            &&& !set.contains_key("ts"@) ==> begin.ts == 0
        },
        begin_is_refused(flags, e) ==> {
            let set = flags.set();
            &&& e.code == 2
            &&& !set.contains_key("pid"@) || parsed_i64(set["pid"@], 10) is None || !(0
                < parsed_i64(set["pid"@], 10)->0 <= 2147483647) || (set.contains_key("ts"@)
                && parsed_i64(set["ts"@], 10) is None)
        },
{
    lemma_decimal_parses(n as int, i64::MIN as int, i64::MAX as int);
}

/// What `list` asks for is what it was given. A directory that is not empty is
/// the one wanted; a limit that is positive is the limit, whichever it is;
/// repeats are folded where `-uniq` is set. It is refused only where its limit
/// is no number.
pub proof fn law_listing_is_what_was_asked(flags: Flags, r: Result<Query, Exit>, n: i64)
    requires
        asks_for_list(flags, r),
        n <= usize::MAX,
    ensures
        ({
            let set = flags.set();
            &&& r is Err ==> set.contains_key("limit"@) && parsed_i64(set["limit"@], 10) is None
            &&& r matches Ok(q) ==> {
                &&& set.contains_key("dir"@) && set["dir"@].len() > 0 ==> text_view(q.dir) == Some(
                    set["dir"@],
                )
                &&& !set.contains_key("dir"@) || set["dir"@].len() == 0 ==> q.dir is None
                &&& !set.contains_key("limit"@) ==> q.limit is None
                &&& set.contains_key("limit"@) && set["limit"@] == decimal(n as int) ==> {
                    &&& n > 0 ==> q.limit == Some(n as usize)
                    &&& n <= 0 ==> q.limit is None
                }
                &&& q.uniq == set.contains_key("uniq"@)
            }
        }),
{
    lemma_decimal_parses(n as int, i64::MIN as int, i64::MAX as int);
}

/// What `fit` asks about is what it was given: the ID, the number of columns,
/// and the count, with or without what a folded row writes before it.
pub proof fn law_fit_is_what_was_asked(flags: Flags, fit: Fit, n: usize)
    requires
        asks_about(flags, fit),
    ensures
        ({
            let set = flags.set();
            &&& set.contains_key("id"@) ==> fit.id@ == set["id"@]
            &&& set.contains_key("cols"@) && set["cols"@] == decimal(n as int) ==> fit.cols == n
            &&& !set.contains_key("cols"@) ==> fit.cols == 0
            &&& !set.contains_key("count"@) ==> fit.count == 0
            &&& set.contains_key("count"@) && (set["count"@] == decimal(n as int) || set["count"@]
                == seq![' ', '×'] + decimal(n as int)) ==> fit.count == n
        }),
{
    let d = decimal(n as int);
    lemma_decimal_parses(n as int, 0, usize::MAX as int);
    lemma_decimal_not_trimmed(n as int);
    lemma_digits_number(n as nat, 10);
    assert(digit_value(d[0]) is Some);
    assert(d[0] != '×');
    let marked = seq!['×'] + d;
    assert(digit_value(d[d.len() - 1]) is Some);
    assert(marked.last() == d[d.len() - 1]);
    assert(marked[0] == '×');
    law_trimming_drops_white_space(seq![' '], marked, Seq::empty());
    assert(seq![' '] + marked + Seq::<char>::empty() =~= seq![' ', '×'] + d);
    assert(marked.skip(1) =~= d);
}

/// What `delete` asks for is what it was given: the ID, and everything with
/// its command where `-all` is set. Only a running command is left alone.
pub proof fn law_delete_is_what_was_asked(flags: Flags, r: Option<(String, bool)>)
    requires
        asks_to_delete(flags, r),
    ensures
        r matches Some((id, all)) ==> {
            &&& flags.set().contains_key("id"@) ==> id@ == flags.set()["id"@]
            &&& all == flags.set().contains_key("all"@)
        },
        r is None ==> flags.set().contains_key("id"@) && id_pid(flags.set()["id"@]) is Some,
        flags.set().contains_key("id"@) && id_pid(flags.set()["id"@]) is Some ==> r is None,
{
    if !flags.set().contains_key("id"@) {
        assert(text_or_empty(flags, "id"@).len() == 0);
    }
}

/// The ID of a running command is looked up among the running ones, under its
/// pid, and the ID of a row of the history in the history.
pub proof fn law_ids_are_looked_up_where_they_were_made(pid: i32, offset: u64, i: i64)
    requires
        offset <= i64::MAX,
        i >= 0,
    ensures
        routed(running_id(pid as int)) == Route::Running(pid),
        routed(id_text(offset as int, i as int)) == Route::Stored,
{
    law_running_id_names_its_pid(pid);
    law_id_names_its_parts(offset, i);
    law_id_spaces_are_apart(id_text(offset as int, i as int));
}

/// The command that was piped in is the text without the newlines at its end;
/// nothing else is taken from it. Of white space alone there is none.
pub proof fn law_piped_command_is_the_text(cmd: Seq<char>, ends: Seq<char>)
    requires
        forall|j: int| 0 <= j < ends.len() ==> #[trigger] ends[j] == '\n',
    ensures
        (cmd.len() > 0 && cmd.last() != '\n' && exists|j: int|
            0 <= j < cmd.len() && !is_space(#[trigger] cmd[j])) ==> command_in(cmd + ends) == Some(
            cmd,
        ),
        (forall|j: int| 0 <= j < cmd.len() ==> is_space(#[trigger] cmd[j])) ==> command_in(
            cmd + ends,
        ) is None,
{
    if cmd.len() > 0 && cmd.last() != '\n' {
        law_trailing_characters_are_dropped(cmd, ends, '\n', '\n');
    }
    if forall|j: int| 0 <= j < cmd.len() ==> is_space(#[trigger] cmd[j]) {
        assert forall|j: int| 0 <= j < (cmd + ends).len() implies is_space(
            #[trigger] (cmd + ends)[j],
        ) by {
            if j < cmd.len() {
                assert((cmd + ends)[j] == cmd[j]);
            } else {
                assert((cmd + ends)[j] == ends[j - cmd.len()]);
            }
        }
        lemma_blank_stays_blank(cmd + ends);
    }
}

proof fn lemma_blank_stays_blank(s: Seq<char>)
    requires
        is_blank(s),
    ensures
        is_blank(without_trailing(s, '\n', '\n')),
    decreases s.len(),
{
    if s.len() > 0 && s.last() == '\n' {
        assert(is_blank(s.drop_last())) by {
            assert forall|j: int| 0 <= j < s.len() - 1 implies is_space(
                #[trigger] s.drop_last()[j],
            ) by {
                assert(s.drop_last()[j] == s[j]);
            }
        }
        lemma_blank_stays_blank(s.drop_last());
    }
}

/// The history is kept where `$ZHIS_FILE` says, whatever `$HOME` is, and
/// below `$HOME` where it says nothing.
pub proof fn law_history_is_where_it_was_put(file: Option<Seq<char>>, home: Option<Seq<char>>)
    ensures
        file matches Some(p) && p.len() > 0 ==> history_path(file, home) == Some(file->0),
        (file is None || file->0.len() == 0) && home is Some && home->0.len() > 0 && home->0.last()
            != '/' ==> history_path(file, home) == Some(
            home->0 + "/.local/share/zhis/history.jsonl"@,
        ),
        (file is None || file->0.len() == 0) && (home is None || home->0.len() == 0)
            ==> history_path(file, home) is None,
{
    reveal_strlit("/");
    reveal_strlit(".local/share/zhis/history.jsonl");
    reveal_strlit("/.local/share/zhis/history.jsonl");
    if let Some(h) = home {
        assert(h + "/"@ + ".local/share/zhis/history.jsonl"@ =~= h
            + "/.local/share/zhis/history.jsonl"@);
    }
}

/// `list` prints one line for each command: first the running ones, then those
/// of the history, each in the order it was given in.
pub proof fn law_each_command_is_a_line(running: Seq<Row>, rows: Seq<Row>, now: int)
    ensures
        ({
            let lines = listed_lines(running, rows, now);
            &&& lines.len() == running.len() + rows.len()
            &&& forall|k: int|
                0 <= k < running.len() ==> #[trigger] lines[k] == running_line(running[k]@, now)
            &&& forall|k: int|
                #![trigger rows[k]]
                0 <= k < rows.len() ==> lines[running.len() + k] == row_line(rows[k]@, now)
        }),
{
}

/// No two names are one command.
pub proof fn law_commands_have_one_name(a: Seq<char>, b: Seq<char>)
    requires
        command_of(a) is Some,
        command_of(a) == command_of(b),
    ensures
        a == b,
{
}

} // verus!
