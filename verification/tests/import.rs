//! Importing zsh histories and newline-delimited JSON.

use zhis::entry::{Entry, StoreError};
use zhis::import::{
    import_history, import_jsonl, parse_history, parse_jsonl, parse_zsh_hist_line, split_history,
    strip_continuation, try_import_history, try_import_jsonl,
};
use zhis::store::Store;

fn test_store() -> Store {
    Store::new("history.jsonl".to_string())
}

fn lines(text: &str) -> Vec<String> {
    text.lines().map(|l| l.to_string()).collect()
}

fn imported(t: i64, c: &str) -> Entry {
    Entry {
        t,
        d: String::new(),
        x: -1,
        c: c.to_string(),
        m: 0,
    }
}

#[test]
fn parse_zsh_hist_lines() {
    assert_eq!(
        parse_zsh_hist_line(": 123456:0;echo hi"),
        Some((123456, "echo hi".to_string()))
    );
    assert_eq!(
        parse_zsh_hist_line(": 123456:0;"),
        Some((123456, "".to_string()))
    );
    assert_eq!(parse_zsh_hist_line("echo hi"), None);
    assert_eq!(parse_zsh_hist_line(": abc:0;echo hi"), None);
    assert_eq!(parse_zsh_hist_line(": 123456;echo hi"), None);
    assert_eq!(parse_zsh_hist_line(": 123456:0echo hi"), None);
}

#[test]
fn import_keeps_literal_backslash_before_continuation() {
    // zsh parses `echo a\\` + newline + `next` as `echo a\` + newline +
    // `next`: only the marker goes, the literal backslash stays.
    let mut store = test_store();
    let source = b": 1700000000:0;echo a\\\\\nnext\n";
    assert_eq!(import_history(source, &mut store).unwrap(), 1);
    let rows = store.list().unwrap();
    assert_eq!(rows[0].entry.c, "echo a\\\nnext");
}

#[test]
fn import_jsonl_round_trip() {
    let mut store = test_store();
    // Blank lines are skipped.
    let ndjson = "{\"t\":10,\"d\":\"/tmp\",\"x\":0,\"c\":\"echo one\",\"m\":5}\n\n{\"t\":20,\"d\":\"/tmp\",\"x\":1,\"c\":\"multi\\nline\"}\n";
    let n = import_jsonl(&lines(ndjson), &mut store).unwrap();
    assert_eq!(n, 2);

    let rows = store.list().unwrap();
    assert_eq!(rows.len(), 2);
    assert_eq!(
        rows[0].entry,
        Entry {
            t: 10,
            d: "/tmp".into(),
            x: 0,
            c: "echo one".into(),
            m: 5
        }
    );
    assert_eq!(
        rows[1].entry,
        Entry {
            t: 20,
            d: "/tmp".into(),
            x: 1,
            c: "multi\nline".into(),
            m: 0
        }
    );
}

#[test]
fn headers_hold_only_digits() {
    assert_eq!(parse_zsh_hist_line(": +1:0;x"), None);
    assert_eq!(parse_zsh_hist_line(": 1:-2;x"), None);
    assert_eq!(parse_zsh_hist_line(": :0;x"), None);
    assert_eq!(parse_zsh_hist_line(": 1:;x"), None);
    assert_eq!(parse_zsh_hist_line(": 99999999999999999999:0;x"), None);
    assert_eq!(
        parse_zsh_hist_line(": 1:99999999999999999999;a;b:c"),
        Some((1, "a;b:c".to_string()))
    );
    assert_eq!(parse_zsh_hist_line(":"), None);
}

#[test]
fn one_mark_is_stripped() {
    assert_eq!(strip_continuation("a\\\\"), ("a\\".to_string(), true));
    assert_eq!(strip_continuation("a"), ("a".to_string(), false));
    assert_eq!(strip_continuation(""), ("".to_string(), false));
}

#[test]
fn histories_are_read_line_by_line() {
    let source = b"junk\n: 5:0;ls\r\n: 6:1;\n: 7:0;for x\\\n  echo\\\ndone\r\r\n: 8:0;caf\xc3\xa9 \xff";
    let texts = split_history(source);
    assert_eq!(
        texts,
        vec!["junk", ": 5:0;ls", ": 6:1;", ": 7:0;for x\\", "  echo\\", "done", ": 8:0;café \u{fffd}"]
    );
    assert_eq!(
        parse_history(&texts).unwrap(),
        vec![
            imported(5, "ls"),
            imported(7, "for x\n  echo\ndone"),
            imported(8, "café \u{fffd}")
        ]
    );
}

#[test]
fn a_history_must_not_end_inside_an_entry() {
    let mut store = test_store();
    assert_eq!(
        import_history(b": 1:0;ok\n: 5:0;ls\\\n", &mut store),
        Err(StoreError::Unterminated)
    );
    assert_eq!(store.data, None, "a failed import stored something");
}

#[test]
fn a_bad_line_has_all_of_an_import_refused() {
    let mut store = test_store();
    let text = "{\"t\":1,\"d\":\"\",\"x\":0,\"c\":\"ok\"}\nnot json\n{\"t\":1,\"d\":\"\",\"x\":0,\"c\":\"ok\"}\n";
    assert_eq!(parse_jsonl(&lines(text)), Err(StoreError::InvalidEntry));
    assert_eq!(
        import_jsonl(&lines(text), &mut store),
        Err(StoreError::InvalidEntry)
    );
    assert_eq!(store.data, None);
    // An entry without a command is read, and refused by the store.
    assert_eq!(
        import_jsonl(&lines("{\"t\":1,\"d\":\"\",\"x\":0,\"c\":\"\"}"), &mut store),
        Err(StoreError::EmptyCommand)
    );
}

#[test]
fn imports_need_numbers_to_give_out() {
    let mut store = test_store();
    store.seq = Some(i64::MAX.to_string().into_bytes());
    let json = lines("{\"t\":1,\"d\":\"\",\"x\":0,\"c\":\"ok\"}");
    assert_eq!(try_import_jsonl(&json, &mut store), None);
    assert_eq!(try_import_history(b": 1:0;ok\n", &mut store), None);
    assert_eq!(try_import_jsonl(&[], &mut store), Some(Ok(0)));
    store.seq = None;
    assert_eq!(try_import_jsonl(&json, &mut store), Some(Ok(1)));
    assert_eq!(try_import_history(b": 1:0;ok\n", &mut store), Some(Ok(1)));
    assert_eq!(store.list().unwrap().len(), 2);
}
