//! The commands from their arguments to what they print and how they exit,
//! on a history in memory.

use zhis::cli::{die_err, flags_or_die, int_flag, parse_flags, Exit, Flags};
use zhis::commands::{
    ages_are_numbers, command_flags, command_found, command_named, command_text, data_path,
    entry_to_add, imported_line, init_script, list_lines, pid_flag, read_add, read_begin,
    read_delete, read_fit, read_import, read_import_jsonl, read_list, read_piped_cmd, route,
    ts_or_now, unusable_pid, Command, Pid, Route,
};
use zhis::entry::StoreError;
use zhis::import::{import_history, import_jsonl};
use zhis::render::preview_lines;
use zhis::store::Store;

fn words(args: &[&str]) -> Vec<String> {
    args.iter().map(|s| s.to_string()).collect()
}

fn test_store() -> Store {
    Store::new("history.jsonl".to_string())
}

/// What a command printed, or its exit code and what it said.
fn run(store: &mut Store, args: &[&str], stdin: &str, now: i64) -> Result<String, (i32, String)> {
    let args = words(args);
    act(store, &args, stdin, now).map_err(|e| (e.code, e.message))
}

fn act(store: &mut Store, args: &[String], stdin: &str, now: i64) -> Result<String, Exit> {
    let command = command_named(args)?;
    let flags = command_flags(command, &args[1..])?;
    let gone = || Exit {
        code: 1,
        message: String::new(),
    };
    match command {
        Command::Init => Ok(init_script(&flags, "bindkey '^R'\n", "bindkey '^[[A'\n")),
        Command::Add => {
            let add = read_add(flags)?;
            let cmd = match read_piped_cmd(stdin.as_bytes()) {
                Some(cmd) => cmd,
                None => return Ok(String::new()),
            };
            let entry = entry_to_add(&add, cmd, now);
            assert_ne!(pid_flag(&add.flags), Pid::Of(0));
            match store.append(&[entry]) {
                Ok(()) => Ok(String::new()),
                Err(e) => Err(die_err(&e, &store.path, "no entry")),
            }
        }
        Command::Begin => {
            read_begin(&flags)?;
            Ok(String::new())
        }
        Command::List => {
            let query = read_list(&flags)?;
            let rows = match store.query(&query) {
                Ok(rows) => rows,
                Err(e) => return Err(die_err(&e, &store.path, "no entry")),
            };
            assert!(ages_are_numbers(&rows, now));
            Ok(list_lines(&[], &rows, now)
                .iter()
                .map(|l| format!("{}\n", l))
                .collect())
        }
        Command::Get => {
            let id = flags.get("id").cloned().unwrap_or_default();
            match command_found(store.get(&id), &store.path, "no entry")? {
                Some(c) => Ok(format!("{}\n", c)),
                None => Err(gone()),
            }
        }
        Command::Fit => {
            let fit = read_fit(&flags);
            match command_found(store.get(&fit.id), &store.path, "no entry")? {
                Some(c) => match preview_lines(&c, fit.cols, fit.count) {
                    Some(n) => Ok(format!("{}\n", n)),
                    None => Err(gone()),
                },
                None => Err(gone()),
            }
        }
        Command::Delete => match read_delete(&flags) {
            None => Ok(String::new()),
            Some((id, all)) => match store.delete(&id, all) {
                Ok(()) => Ok(String::new()),
                Err(e) => Err(die_err(&e, &store.path, "no entry")),
            },
        },
        Command::Import => {
            read_import(&flags)?;
            match import_history(stdin.as_bytes(), store) {
                Ok(n) => Ok(imported_line(n)),
                Err(e) => Err(die_err(&e, &store.path, "no entry")),
            }
        }
        Command::ImportJsonl => {
            assert_eq!(read_import_jsonl(&flags), None);
            let lines: Vec<String> = stdin.lines().map(|l| l.to_string()).collect();
            match import_jsonl(&lines, store) {
                Ok(n) => Ok(imported_line(n)),
                Err(e) => Err(die_err(&e, &store.path, "no entry")),
            }
        }
    }
}

fn add(store: &mut Store, cmd: &str, args: &[&str]) {
    let mut all = vec!["add"];
    all.extend_from_slice(args);
    assert_eq!(run(store, &all, cmd, 2_000_000_000), Ok(String::new()));
}

fn list(store: &mut Store, args: &[&str]) -> String {
    let mut all = vec!["list"];
    all.extend_from_slice(args);
    run(store, &all, "", 2_000_000_000).unwrap()
}

fn var(script: &str, name: &str) -> String {
    let prefix = format!("typeset -g {}=", name);
    script
        .lines()
        .find_map(|l| l.trim().strip_prefix(&prefix))
        .unwrap()
        .to_string()
}

/// `_zhis_delim=$'\x1f'` -> the byte itself.
fn parse_delim(script: &str) -> char {
    let raw = var(script, "_zhis_delim");
    let hex = raw
        .trim_start_matches("$'")
        .trim_end_matches('\'')
        .strip_prefix("\\x")
        .unwrap();
    char::from(u8::from_str_radix(hex, 16).unwrap())
}

fn first_field(store: &mut Store, row: &str) -> String {
    let script = run(store, &["init"], "", 0).unwrap();
    let delim = parse_delim(&script);
    let idx: usize = var(&script, "_zhis_id_field").parse().unwrap();
    row.split(delim).nth(idx - 1).unwrap().to_string()
}

#[test]
fn flag_parsing() {
    let args = words(&["-dir", "/tmp", "-exit=3", "--ms", "250", "-all"]);
    let flags = parse_flags(&args, &["dir", "exit", "ms"], &["all"]).unwrap();
    assert_eq!(flags.get("dir").unwrap(), "/tmp");
    assert_eq!(flags.get("exit").unwrap(), "3");
    assert_eq!(flags.get("ms").unwrap(), "250");
    assert!(flags.has("all"));
    assert!(flags.positionals.is_empty());

    assert!(parse_flags(&["-bogus".to_string()], &["dir"], &[]).is_err());
    assert!(parse_flags(&["-dir".to_string()], &["dir"], &[]).is_err());
}

#[test]
fn flag_messages_name_the_flag() {
    let refused = |args: &[&str]| parse_flags(&words(args), &["dir"], &["all"]).err().unwrap();
    assert_eq!(refused(&["-all=maybe"]), "invalid boolean value \"maybe\" for -all");
    assert_eq!(refused(&["-dir"]), "flag needs an argument: -dir");
    assert_eq!(
        refused(&["-bogus", "x"]),
        "flag provided but not defined: -bogus"
    );
    assert_eq!(refused(&["-bogus"]), "flag needs an argument: -bogus");
}

#[test]
fn flags_are_read_in_order() {
    let read = |args: &[&str]| -> Flags {
        parse_flags(&words(args), &["dir", "n"], &["all"]).unwrap()
    };
    let flags = read(&["a", "-", "--", "-dir", "x", "-dir=y=z", "b"]);
    assert_eq!(flags.get("dir").unwrap(), "y=z");
    assert_eq!(flags.positionals, vec!["a", "-", "--", "b"]);
    assert!(!flags.has("all"));
    assert!(flags.get("n").is_none());
    // A switch does not take the next argument, and can be unset again.
    let flags = read(&["-all", "x", "--all=false", "-dir", "-all"]);
    assert!(!flags.has("all"));
    assert_eq!(flags.get("dir").unwrap(), "-all");
    assert_eq!(flags.positionals, vec!["x"]);
    assert!(read(&["-all=true"]).has("all"));
    assert_eq!(int_flag(&read(&["-n", "-7"]), "n", 3).ok(), Some(-7));
    assert_eq!(int_flag(&read(&[]), "n", 3).ok(), Some(3));
    let e = int_flag(&read(&["-n", "7x"]), "n", 3).err().unwrap();
    assert_eq!(e.code, 2);
    assert_eq!(e.message, "invalid value \"7x\" for flag -n: parse error");
    let e = flags_or_die(&words(&["-x"]), &[], &[]).err().unwrap();
    assert_eq!((e.code, e.message.as_str()), (2, "flag needs an argument: -x"));
}

#[test]
fn no_args_and_unknown_command_are_usage_errors() {
    let mut store = test_store();
    let (code, message) = run(&mut store, &[], "", 0).unwrap_err();
    assert_eq!(code, 2);
    assert!(message.contains("usage:"));

    let (code, message) = run(&mut store, &["frobnicate"], "", 0).unwrap_err();
    assert_eq!(code, 2);
    assert!(message.contains("unknown command"));
    assert_eq!(message, "zhis: unknown command frobnicate");
}

#[test]
fn undefined_flag_is_usage_error_not_store_error() {
    let mut store = test_store();
    let (code, _) = run(&mut store, &["list", "-bogus", "x"], "", 0).unwrap_err();
    assert_eq!(code, 2);
    assert_eq!(store.data, None);
}

#[test]
fn add_reads_stdin_then_list_and_get_round_trip() {
    let mut store = test_store();
    add(
        &mut store,
        "echo one\n",
        &["-dir", "/tmp/a", "-exit", "0", "-ms", "1250"],
    );
    add(
        &mut store,
        "printf a\nprintf b",
        &["-dir", "/tmp/b", "-exit", "1"],
    );

    let rows = list(&mut store, &[]);
    let lines: Vec<&str> = rows.lines().collect();
    assert_eq!(lines.len(), 2);
    // Newest first, and a multiline command collapses to its first line.
    assert!(lines[0].contains("printf a"), "{:?}", lines[0]);
    assert!(
        !lines[0].contains("printf b"),
        "multiline leaked a second row"
    );
    assert!(
        lines[0].contains('⏎'),
        "no multiline marker: {:?}",
        lines[0]
    );
    assert!(
        lines[1].contains("echo one") && lines[1].contains("1.2s"),
        "{:?}",
        lines[1]
    );

    // -dir filters, and the newline `add` strips must not survive into storage.
    let scoped = list(&mut store, &["-dir", "/tmp/a"]);
    assert_eq!(scoped.lines().count(), 1);
    assert!(scoped.contains("echo one"));

    let id = first_field(&mut store, lines[0]);
    let got = run(&mut store, &["get", "-id", &id], "", 0).unwrap();
    assert_eq!(
        got, "printf a\nprintf b\n",
        "get did not return the full command"
    );
}

#[test]
fn add_ignores_blank_command_without_creating_a_store() {
    let mut store = test_store();
    add(&mut store, "   \n", &["-dir", "/tmp", "-exit", "0"]);
    assert_eq!(store.data, None, "a blank command created a history file");
    assert_eq!(list(&mut store, &[]), "");
}

#[test]
fn get_with_unknown_id_exits_one() {
    let mut store = test_store();
    add(&mut store, "present", &["-dir", "/tmp", "-exit", "0"]);
    // Well-formed but unassigned, and malformed: both are "not found", never a
    // panic and never exit 0 with empty output.
    for id in ["zzz-zzz", "not-an-id-at-all"] {
        let (code, message) = run(&mut store, &["get", "-id", id], "", 0).unwrap_err();
        assert_eq!(code, 1, "get -id {} exited {}", id, code);
        assert!(message.is_empty());
    }
}

#[test]
fn delete_all_removes_every_row_with_that_command() {
    let mut store = test_store();
    for (i, cmd) in ["dup", "keep", "dup"].iter().enumerate() {
        add(
            &mut store,
            cmd,
            &["-dir", "/tmp", "-exit", "0", "-ts", &(100 + i as i64).to_string()],
        );
    }
    let rows = list(&mut store, &[]);
    let dup_line = rows.lines().find(|l| l.contains("dup")).unwrap();
    let id = first_field(&mut store, dup_line);

    assert!(run(&mut store, &["delete", "-id", &id, "-all"], "", 0).is_ok());
    let rows = list(&mut store, &[]);
    assert_eq!(rows.lines().count(), 1);
    assert!(rows.contains("keep"));

    // Deleting an already-gone id is a no-op, not an error.
    assert!(run(&mut store, &["delete", "-id", &id], "", 0).is_ok());
}

#[test]
fn list_limit_returns_the_newest_rows_and_zero_means_unlimited() {
    let mut store = test_store();
    for n in 0..20 {
        add(
            &mut store,
            &format!("cmd{:02}", n),
            &["-dir", "/tmp", "-exit", "0", "-ts", &(1_700_000_000 + n).to_string()],
        );
    }

    let full = list(&mut store, &[]);
    assert_eq!(full.lines().count(), 20);

    let limited = list(&mut store, &["-limit", "3"]);
    assert_eq!(limited.lines().count(), 3);
    // Byte-identical to the head of the unlimited output, ids included.
    assert_eq!(
        limited.lines().collect::<Vec<_>>(),
        full.lines().take(3).collect::<Vec<_>>()
    );
    assert!(limited.contains("cmd19") && !limited.contains("cmd16"));

    // Non-positive means unrestricted, so callers can pass it unconditionally.
    for zero in ["0", "-1"] {
        let out = list(&mut store, &["-limit", zero]);
        assert_eq!(
            out.lines().count(),
            20,
            "-limit {} restricted the output",
            zero
        );
    }
    // A limit past the end is not an error.
    assert_eq!(list(&mut store, &["-limit", "999"]).lines().count(), 20);

    let (code, _) = run(&mut store, &["list", "-limit", "abc"], "", 0).unwrap_err();
    assert_eq!(code, 2, "a non-numeric limit must be a usage error");
}

#[test]
fn list_uniq_collapses_consecutive_repeats_to_newest() {
    let mut store = test_store();
    // Three "dup" in a row, then "keep", then two more "dup": each run
    // collapses to one row, and the later run keeps the newer timestamp.
    for (cmd, n) in [
        ("dup", 1),
        ("dup", 2),
        ("dup", 3),
        ("keep", 4),
        ("dup", 5),
        ("dup", 6),
    ] {
        add(
            &mut store,
            cmd,
            &["-dir", "/tmp", "-exit", "0", "-ts", &(1_700_000_000 + n).to_string()],
        );
    }

    let full = list(&mut store, &[]);
    assert_eq!(full.lines().count(), 6);

    let uniq = list(&mut store, &["-uniq"]);
    let lines: Vec<&str> = uniq.lines().collect();
    assert_eq!(lines.len(), 3, "got: {:?}", lines);
    // Newest first: the trailing run of "dup", then "keep", then the first
    // run's newest "dup".
    assert!(lines[0].contains("dup"));
    assert!(lines[1].contains("keep"));
    assert!(lines[2].contains("dup"));
}

#[test]
fn list_uniq_with_limit_returns_limit_distinct_commands() {
    let mut store = test_store();
    // cmd0..cmd3 then a run of "dup": limit 3 + uniq must widen past the run
    // to return dup plus the two newest distinct commands.
    for (cmd, n) in [
        ("cmd0", 0),
        ("cmd1", 1),
        ("cmd2", 2),
        ("cmd3", 3),
        ("dup", 4),
        ("dup", 5),
        ("dup", 6),
    ] {
        add(
            &mut store,
            cmd,
            &["-dir", "/tmp", "-exit", "0", "-ts", &(1_700_000_000 + n).to_string()],
        );
    }

    let out = list(&mut store, &["-limit", "3", "-uniq"]);
    let lines: Vec<&str> = out.lines().collect();
    assert_eq!(lines.len(), 3, "got: {:?}", lines);
    assert!(lines[0].contains("dup"));
    assert!(lines[1].contains("cmd3"));
    assert!(lines[2].contains("cmd2"));
}

#[test]
fn init_layout_vars_match_what_list_actually_emits() {
    let mut store = test_store();
    add(&mut store, "cargo build", &["-dir", "/tmp", "-exit", "0"]);

    let script = run(&mut store, &["init"], "", 0).unwrap();
    let delim = parse_delim(&script);
    let id_field: usize = var(&script, "_zhis_id_field").parse().unwrap();
    assert_eq!(var(&script, "_zhis_with_nth"), "'2..'");

    let row = list(&mut store, &[]);
    let row = row.lines().next().unwrap();
    let fields: Vec<&str> = row.split(delim).collect();
    assert!(
        fields.len() >= 2,
        "row has no {:?} separator: {:?}",
        delim,
        row
    );

    // The id init tells the shell to cut must be the id `get` accepts.
    let id = fields[id_field - 1];
    let got = run(&mut store, &["get", "-id", id], "", 0);
    assert_eq!(
        got,
        Ok("cargo build\n".to_string()),
        "id from field {} was rejected by get",
        id_field
    );
    assert!(
        !id.contains(' ') && id.contains('-'),
        "unexpected id shape: {:?}",
        id
    );
}

#[test]
fn init_arrow_binds_are_opt_out() {
    let mut store = test_store();
    let with = run(&mut store, &["init"], "", 0).unwrap();
    assert!(
        with.contains("'^[[A'"),
        "default init lost the up-arrow bind"
    );
    assert!(with.contains("'^R'"));

    let without = run(&mut store, &["init", "-no-arrow-binds"], "", 0).unwrap();
    assert!(
        !without.contains("'^[[A'"),
        "-no-arrow-binds still bound up-arrow"
    );
    assert!(
        without.contains("'^R'"),
        "-no-arrow-binds dropped ctrl-r too"
    );
}

#[test]
fn fit_bounds_the_folded_row_by_its_real_count() {
    let mut store = test_store();
    // 99 columns fits a plain row (115 - 14) but not one folded as " ×2"
    // (115 - 14 - 3), so the count the picker passes must decide the bound.
    let long = "x".repeat(99);
    for _ in 0..2 {
        add(&mut store, &long, &["-dir", "/tmp", "-exit", "0"]);
    }
    let uniq = list(&mut store, &["-uniq"]);
    let id = first_field(&mut store, uniq.lines().next().unwrap());
    let mut fit = |count: &str| {
        run(
            &mut store,
            &["fit", "-id", &id, "-cols", "115", "-count", count],
            "",
            0,
        )
    };

    // Without the count the row is judged to show the whole command.
    assert!(fit("").is_err());
    // The folded suffix " ×2" narrows the row to 98: a preview is needed.
    assert_eq!(fit("×2").unwrap().trim(), "1");
    assert_eq!(fit(" ×2").unwrap().trim(), "1");
    assert_eq!(fit("2").unwrap().trim(), "1");
}

#[test]
fn fit_sizes_the_preview_from_the_row_the_picker_will_draw() {
    let mut store = test_store();
    let long = "x".repeat(113);
    add(&mut store, &long, &["-dir", "/tmp", "-exit", "0"]);
    let row = list(&mut store, &[]);
    let id = first_field(&mut store, row.lines().next().unwrap());
    let mut fit = |cols: &str| run(&mut store, &["fit", "-id", &id, "-cols", cols], "", 0);

    // 115 columns leaves the preview 111, so 113 needs a second line.
    assert_eq!(fit("115").unwrap().trim(), "2");
    // Wide enough that the row itself shows the whole command: no preview,
    // which the picker reads off the exit status.
    assert!(fit("200").is_err());
    // An empty width is a fallback (80 columns), not a usage error.
    assert_eq!(fit("").unwrap().trim(), "2");
    // A row deleted under the picker must hide the preview, not error out.
    let gone = run(&mut store, &["fit", "-id", "0-999", "-cols", "115"], "", 0);
    assert_eq!(
        gone.unwrap_err().0,
        1,
        "a gone row must exit 1 (the no-preview signal), not succeed"
    );
}

#[test]
fn import_jsonl_reads_stdin_and_reports_count() {
    let mut store = test_store();
    let ndjson = "{\"t\":10,\"d\":\"/tmp\",\"x\":0,\"c\":\"one\",\"m\":5}\n\n{\"t\":20,\"d\":\"/tmp\",\"x\":1,\"c\":\"two\"}\n";
    assert_eq!(
        run(&mut store, &["import-jsonl"], ndjson, 0),
        Ok("imported 2 entries".to_string())
    );
    assert_eq!(list(&mut store, &[]).lines().count(), 2);
    assert_eq!(
        run(&mut store, &["import", "f"], ": 1:0;x\n", 0),
        Ok("imported 1 entries".to_string())
    );
    assert_eq!(
        run(&mut store, &["import"], "", 0),
        Err((2, "usage: zhis import <zsh_history_file>".to_string()))
    );
}

#[test]
fn the_history_is_where_the_environment_says() {
    let path = |file: Option<&str>, home: Option<&str>| {
        data_path(&file.map(|s| s.to_string()), &home.map(|s| s.to_string()))
            .map_err(|e| (e.code, e.message))
    };
    assert_eq!(path(Some("/f"), Some("/h")), Ok("/f".to_string()));
    assert_eq!(
        path(Some(""), Some("/h")),
        Ok("/h/.local/share/zhis/history.jsonl".to_string())
    );
    assert_eq!(
        path(None, Some("/h/")),
        Ok("/h/.local/share/zhis/history.jsonl".to_string())
    );
    let unset = Err((2, "zhis: $HOME is not set; set $ZHIS_FILE instead".to_string()));
    assert_eq!(path(None, None), unset);
    assert_eq!(path(Some(""), Some("")), unset);
}

#[test]
fn commands_lose_their_last_newlines_only() {
    assert_eq!(command_text("a\nb\n\n").as_deref(), Some("a\nb"));
    assert_eq!(command_text("  a \n").as_deref(), Some("  a "));
    assert_eq!(command_text(" \t\n\u{3000}\n"), None);
    assert_eq!(command_text(""), None);
    assert_eq!(read_piped_cmd(b"caf\xc3\xa9\xff\n").as_deref(), Some("café\u{fffd}"));
}

#[test]
fn entries_take_what_add_was_given() {
    let flags = |args: &[&str]| command_flags(Command::Add, &words(args)).ok().unwrap();
    let add = read_add(flags(&["-dir", "/d", "-exit=3", "-ts", "77", "-ms", "-4"])).ok().unwrap();
    let e = entry_to_add(&add, "c".to_string(), 1000);
    assert_eq!((e.t, e.d.as_str(), e.x, e.c.as_str(), e.m), (77, "/d", 3, "c", 0));
    let add = read_add(flags(&["-ms", "12"])).ok().unwrap();
    let e = entry_to_add(&add, "c".to_string(), 1000);
    assert_eq!((e.t, e.d.as_str(), e.x, e.m), (1000, "", -1, 12));
    assert_eq!(ts_or_now(0, 5), 5);
    assert_eq!(ts_or_now(-1, 5), -1);
    let e = read_add(flags(&["-exit", "x", "-ts", "y"])).err().unwrap();
    assert_eq!((e.code, e.message.as_str()), (2, "invalid value \"x\" for flag -exit: parse error"));
}

#[test]
fn a_pid_is_positive_and_fits() {
    let pid =
        |args: &[&str]| pid_flag(&command_flags(Command::Add, &words(args)).ok().unwrap());
    assert_eq!(pid(&[]), Pid::Absent);
    assert_eq!(pid(&["-pid", "31337"]), Pid::Of(31337));
    assert_eq!(pid(&["-pid", "2147483647"]), Pid::Of(2147483647));
    assert_eq!(pid(&["-pid", "0"]), Pid::Unusable);
    assert_eq!(pid(&["-pid", "-3"]), Pid::Unusable);
    assert_eq!(pid(&["-pid", "2147483648"]), Pid::Unusable);
    assert_eq!(pid(&["-pid", "abc"]), Pid::Unusable);
    assert_eq!(pid(&["-pid="]), Pid::Unusable);

    let begin = |args: &[&str]| {
        read_begin(&command_flags(Command::Begin, &words(args)).ok().unwrap())
            .map(|b| (b.dir, b.ts, b.pid))
            .map_err(|e| (e.code, e.message))
    };
    assert_eq!(
        begin(&["-pid", "5", "-dir", "/d", "-ts", "9"]),
        Ok(("/d".to_string(), 9, 5))
    );
    let usage = "usage: zhis begin -pid N [-dir D] [-ts N]";
    assert_eq!(begin(&[]), Err((2, usage.to_string())));
    assert_eq!(
        begin(&["-pid", "0"]),
        Err((2, format!("{}\n{}", unusable_pid(), usage)))
    );
    assert_eq!(
        begin(&["-pid", "abc"]),
        Err((2, format!("{}\n{}", unusable_pid(), usage)))
    );
    assert_eq!(unusable_pid(), "zhis: ignoring -pid: not a usable process id");
}

#[test]
fn no_entry_is_lost_over_a_pid() {
    for pid in ["abc", "", "0", "-1", "99999999999999999999"] {
        let mut store = Store::new("/h".to_string());
        assert_eq!(run(&mut store, &["add", "-pid", pid], "ls\n", 7), Ok(String::new()));
        let rows = store.list().ok().unwrap();
        assert_eq!(rows.len(), 1);
        assert_eq!(rows[0].entry.c, "ls");
    }
}

#[test]
fn ids_are_routed_by_their_kind() {
    assert_eq!(route("@12"), Route::Running(12));
    assert_eq!(route("0-1"), Route::Stored);
    assert_eq!(route(""), Route::Stored);
    let flags = |args: &[&str]| command_flags(Command::Delete, &words(args)).ok().unwrap();
    assert_eq!(read_delete(&flags(&["-id", "@12", "-all"])), None);
    assert_eq!(
        read_delete(&flags(&["-id", "0-1", "-all"])),
        Some(("0-1".to_string(), true))
    );
    assert_eq!(read_delete(&flags(&[])), Some((String::new(), false)));
}

#[test]
fn lookups_end_as_they_should() {
    let (code, message) = match command_found(Err(StoreError::Malformed { offset: 3 }), "/h", "no entry") {
        Err(e) => (e.code, e.message),
        Ok(_) => panic!("an unreadable history was no error"),
    };
    assert_eq!(code, 1);
    assert_eq!(message, "zhis: read /h at offset 3: no entry");
    assert!(matches!(
        command_found(Err(StoreError::EntryNotFound), "/h", ""),
        Ok(None)
    ));
}

#[test]
fn running_commands_are_listed_first() {
    let running = zhis::inflight::rows(
        &[(7, zhis::inflight::begin("h", 7, "/d", "sleep", 90).bytes)],
        &None,
    );
    let mut store = test_store();
    add(&mut store, "done", &["-ts", "95"]);
    let rows = store.query(&zhis::entry::Query::default()).unwrap();
    let lines = list_lines(&running, &rows, 100);
    assert_eq!(lines.len(), 2);
    assert!(lines[0].contains("sleep") && lines[0].contains("..."));
    assert!(lines[1].contains("done"));
    let mut ancient = rows.clone();
    ancient[0].entry.t = i64::MIN;
    assert!(!ages_are_numbers(&ancient, 100));
}
