//! The history store: appending, listing, querying, finding and deleting.

use zhis::entry::{decode_line, Entry, Query, Row, StoreError, MAX_JSON_LINE_SIZE};
use zhis::ids::{make_id, parse_id};
use zhis::json::write_stored;
use zhis::query::query_part;
use zhis::rows::make_row;
use zhis::scan::{content_end, nth_line_start_from_end, read_last_line, trailing_line_size};
use zhis::store::{
    enough_to_append, find_at, find_by_seq, get_at, lock_path, owner_only, plan_append,
    plan_delete, read_seq, recover, remove_command, remove_row, seq_path, temp_path,
    trusted_counter, try_plan_append, Store,
};

fn test_store() -> Store {
    Store::new("/tmp/history.jsonl".to_string())
}

fn entry(t: i64, d: &str, x: i64, c: &str, m: i64) -> Entry {
    Entry {
        t,
        d: d.to_string(),
        x,
        c: c.to_string(),
        m,
    }
}

fn ask(dir: Option<&str>, limit: Option<usize>, uniq: bool) -> Query {
    Query {
        dir: dir.map(|d| d.to_string()),
        limit,
        uniq,
    }
}

/// An entry as a line without a sequence number.
fn plain(e: &Entry) -> Vec<u8> {
    let mut line = format!("{{\"t\":{},\"d\":\"{}\",\"x\":{},\"c\":\"{}\"", e.t, e.d, e.x, e.c);
    if e.m != 0 {
        line.push_str(&format!(",\"m\":{}", e.m));
    }
    line.push('}');
    line.into_bytes()
}

#[test]
fn store_ids_and_inflight_ids_cannot_be_confused() {
    assert!(parse_id("2f-19").is_some());
    assert_eq!(parse_id(&zhis::inflight::make_id(1234)), None);
    assert_eq!(parse_id("@1234"), None);
}

#[test]
fn append_list_round_trip() {
    let mut store = test_store();
    let entries = vec![
        entry(10, "/tmp/one", 0, "printf hello", 1250),
        entry(20, "/tmp/two", 1, "printf 'one\\ntwo'\nprintf done", 0),
    ];
    store.append(&entries).unwrap();

    let rows = store.list().unwrap();
    assert_eq!(rows.len(), entries.len());
    for (row, entry) in rows.iter().zip(&entries) {
        assert_eq!(&row.entry, entry);
        assert!(!row.id.is_empty() && !row.id.chars().any(|c| c == ' ' || c == '\t' || c == '\n'));
    }
}

#[test]
fn append_adds_missing_newline() {
    let mut store = test_store();
    let first = entry(10, "/tmp", 0, "first", 0);
    store.data = Some(plain(&first));

    let second = entry(20, "/tmp", 0, "second", 0);
    store.append(&[second]).unwrap();

    let data = store.data.clone().unwrap();
    assert!(
        data.windows(2).any(|w| w[0] == b'}' && w[1] == b'\n'),
        "entries are not separated by a newline: {:?}",
        String::from_utf8_lossy(&data)
    );
    let rows = store.list().unwrap();
    assert_eq!(rows.len(), 2);
    assert_eq!(rows[0].entry, first);
    assert_eq!(rows[1].entry.c, "second");
}

#[test]
fn rejects_newline_that_would_oversize_trailing_line() {
    let mut store = test_store();
    let base = plain(&entry(10, "/tmp", 0, "", 0));
    let e = entry(10, "/tmp", 0, &"x".repeat(MAX_JSON_LINE_SIZE - base.len()), 0);
    let encoded = plain(&e);
    assert_eq!(encoded.len(), MAX_JSON_LINE_SIZE);
    store.data = Some(encoded.clone());

    let next = entry(20, "", 0, "next", 0);
    assert!(store.append(&[next]).is_err());
    assert_eq!(store.data.clone().unwrap(), encoded);
}

#[test]
fn rejects_oversized_entry_without_changing_file() {
    let mut store = test_store();
    store.append(&[entry(10, "/tmp", 0, "seed", 0)]).unwrap();
    let before = store.data.clone();
    let seq = store.seq.clone();

    let oversized = entry(20, "/tmp", 0, &"x".repeat(MAX_JSON_LINE_SIZE), 0);
    assert!(store.append(&[oversized]).is_err());
    assert_eq!(store.data, before);
    assert_eq!(store.seq, seq);
}

#[test]
fn get_direct_does_not_scan_later_rows() {
    let mut store = test_store();
    let e = entry(10, "/tmp", 0, "target", 0);
    store.append(std::slice::from_ref(&e)).unwrap();
    let rows = store.list().unwrap();

    // Corrupt everything after the first row; direct seek must still work.
    store
        .data
        .as_mut()
        .unwrap()
        .extend_from_slice(b"not json\n");
    let got = store.get(&rows[0].id).unwrap();
    assert_eq!(got, e);
}

#[test]
fn get_direct_and_fallback() {
    let mut store = test_store();
    let entries = vec![
        entry(10, "/tmp", 0, "earlier", 0),
        entry(20, "/tmp", 7, "target\ncontinued", 0),
        entry(30, "/tmp", 0, "later", 0),
    ];
    store.append(&entries).unwrap();
    let rows = store.list().unwrap();

    let got = store.get(&rows[1].id).unwrap();
    assert_eq!(got, entries[1]);

    // Deleting an earlier row shifts offsets, so the direct seek misses and
    // the fallback (newest sequence match) must find the entry.
    store.delete(&rows[0].id, false).unwrap();
    let got = store.get(&rows[1].id).unwrap();
    assert_eq!(got, entries[1]);
}

#[test]
fn exit_status_distinguishes_ids_and_fallback_get() {
    let mut store = test_store();
    let entries = vec![
        entry(5, "/tmp", 0, "shift offsets", 0),
        entry(10, "/tmp", 0, "same", 0),
        entry(10, "/tmp", 7, "same", 0),
    ];
    store.append(&entries).unwrap();
    let rows = store.list().unwrap();
    assert_ne!(rows[1].id, rows[2].id, "different exit statuses share an id");

    let ids = [rows[1].id.clone(), rows[2].id.clone()];
    store.delete(&rows[0].id, false).unwrap();
    for (i, id) in ids.iter().enumerate() {
        let got = store.get(id).unwrap();
        assert_eq!(got.x, entries[i + 1].x);
    }
}

#[test]
fn duration_distinguishes_ids_and_fallback_get() {
    let mut store = test_store();
    let entries = vec![
        entry(5, "/tmp", 0, "shift offsets", 0),
        entry(10, "/tmp", 0, "same", 100),
        entry(10, "/tmp", 0, "same", 200),
    ];
    store.append(&entries).unwrap();
    let rows = store.list().unwrap();
    assert_ne!(rows[1].id, rows[2].id, "different durations share an id");

    let ids = [rows[1].id.clone(), rows[2].id.clone()];
    store.delete(&rows[0].id, false).unwrap();
    for (i, id) in ids.iter().enumerate() {
        let got = store.get(id).unwrap();
        assert_eq!(got.m, entries[i + 1].m);
    }
}

#[test]
fn duplicate_ids_and_delete() {
    let mut store = test_store();
    let duplicate = entry(10, "/tmp", 0, "same", 0);
    let marker = entry(15, "/tmp", 0, "marker", 0);
    let other = entry(20, "/tmp", 0, "other", 0);
    store
        .append(&[
            duplicate.clone(),
            marker.clone(),
            duplicate.clone(),
            other.clone(),
        ])
        .unwrap();
    let rows = store.list().unwrap();
    assert_ne!(rows[0].id, rows[2].id, "duplicate entries share an id");

    store.delete(&rows[0].id, false).unwrap();
    let rows = store.list().unwrap();
    assert_eq!(rows.len(), 3);
    assert_eq!(rows[0].entry, marker);
    assert_eq!(rows[1].entry, duplicate);
    assert_eq!(rows[2].entry, other);

    let same_command = vec![
        entry(30, "/one", 1, "same", 0),
        entry(40, "/two", 2, "same", 0),
    ];
    store.append(&same_command).unwrap();
    let rows = store.list().unwrap();
    store.delete(&rows[1].id, true).unwrap();
    let rows = store.list().unwrap();
    assert_eq!(rows.len(), 2);
    assert_eq!(rows[0].entry, marker);
    assert_eq!(rows[1].entry, other);
}

#[test]
fn delete_falls_back_to_seq_match_even_with_identical_content() {
    let mut store = test_store();
    let earlier = entry(5, "", 0, "earlier", 0);
    let duplicate = entry(10, "/tmp", 0, "same", 0);
    let marker = entry(15, "", 0, "marker", 0);
    store
        .append(&[
            earlier,
            duplicate.clone(),
            marker.clone(),
            duplicate.clone(),
        ])
        .unwrap();
    let rows = store.list().unwrap();
    let stale_id = rows[1].id.clone();
    store.delete(&rows[0].id, false).unwrap();

    // stale_id's offset shifted; the sequence-number fallback must still
    // land on this exact row, not the other byte-identical `duplicate`.
    store.delete(&stale_id, false).unwrap();
    let rows = store.list().unwrap();
    assert_eq!(rows.len(), 2);
    assert_eq!(rows[0].entry, marker);
    assert_eq!(rows[1].entry, duplicate);
}

#[test]
fn delete_nonexistent_id() {
    let mut store = test_store();
    store.append(&[entry(10, "/tmp", 0, "keep", 0)]).unwrap();
    let before = store.data.clone();

    store.delete("0-0", false).unwrap();
    assert_eq!(store.data, before);
    store.delete("no id", true).unwrap();
    assert_eq!(store.data, before);
    assert_eq!(plan_delete(&before.unwrap(), "0-0", false), Ok(None));
}

#[test]
fn ids_are_offset_and_sequence_number() {
    let mut store = test_store();
    store.append(&[entry(1, "", 0, "echo hi", 0)]).unwrap();
    let rows = store.list().unwrap();
    // First entry ever appended: offset 0 (first line), sequence 1 (the
    // counter starts at 0 and this is the first assignment).
    assert_eq!(rows[0].id, "0-1");
}

#[test]
fn sequence_persists_across_separate_store_instances() {
    // Every invocation starts from the files alone; the sidecar is what keeps
    // ids from colliding.
    let mut first = test_store();
    first.append(&[entry(1, "", 0, "first", 0)]).unwrap();
    let mut second = Store {
        path: first.path.clone(),
        data: first.data.clone(),
        seq: first.seq.clone(),
    };
    second.append(&[entry(2, "", 0, "second", 0)]).unwrap();

    let rows = second.list().unwrap();
    assert_eq!(rows[0].id, "0-1");
    assert_ne!(
        rows[0].id, rows[1].id,
        "separate processes reused a sequence number"
    );
}

#[test]
fn seq_recovers_from_last_line_when_sidecar_lost() {
    let mut store = test_store();
    store
        .append(&[
            entry(1, "", 0, "one", 0),
            entry(2, "", 0, "two", 0),
            entry(3, "", 0, "three", 0),
        ])
        .unwrap();
    assert_eq!(store.seq.as_deref(), Some(&b"3"[..]));
    store.seq = None;

    // No sidecar, but the history already holds ids 1..=3: the next one must
    // continue from there, not silently restart at 1.
    store.append(&[entry(4, "", 0, "four", 0)]).unwrap();
    let rows = store.list().unwrap();
    assert_eq!(rows.len(), 4);
    assert!(
        rows[3].id.ends_with("-4"),
        "recovered sequence collided with an existing id: {}",
        rows[3].id
    );
    assert_eq!(
        store.seq.as_deref(),
        Some(&b"4"[..]),
        "sidecar not rebuilt after recovery"
    );
}

#[test]
fn seq_recovers_from_last_line_when_sidecar_corrupt() {
    let mut store = test_store();
    store
        .append(&[entry(1, "", 0, "one", 0), entry(2, "", 0, "two", 0)])
        .unwrap();
    // Present but unparsable, unlike the missing-sidecar case above.
    store.seq = Some(b"not a number".to_vec());

    store.append(&[entry(3, "", 0, "three", 0)]).unwrap();
    let rows = store.list().unwrap();
    assert_eq!(rows.len(), 3);
    assert!(
        rows[2].id.ends_with("-3"),
        "recovered sequence collided with an existing id: {}",
        rows[2].id
    );
}

#[test]
fn seq_recovers_from_last_line_when_sidecar_is_not_text() {
    let line = b"{\"i\":7,\"t\":1,\"d\":\"\",\"x\":0,\"c\":\"ls\"}\n";
    // No UTF-8 at all, a number behind a stray byte, a cut and an overlong character.
    for bad in [&[0xff][..], b"12\xff", b"\xe3\x80", b"\xc0\xb1"] {
        assert_eq!(read_seq(line, &Some(bad.to_vec())), Ok(7));
        let mut store = test_store();
        store.data = Some(line.to_vec());
        store.seq = Some(bad.to_vec());
        store.append(&[entry(2, "", 0, "two", 0)]).unwrap();
        assert!(store.list().unwrap()[1].id.ends_with("-8"));
        assert_eq!(store.seq.as_deref(), Some(&b"8"[..]));
    }
}

#[test]
fn negative_seq_triggers_recovery_instead_of_being_trusted() {
    let mut store = test_store();
    store.append(&[entry(1, "", 0, "one", 0)]).unwrap();
    // A negative counter is as untrustworthy as a corrupt one.
    store.seq = Some(b"-5".to_vec());

    store.append(&[entry(2, "", 0, "two", 0)]).unwrap();
    let rows = store.list().unwrap();
    assert_eq!(rows.len(), 2);
    assert_ne!(
        rows[0].id, rows[1].id,
        "negative sidecar was trusted and reused an id"
    );
}

#[test]
fn negative_recovered_seq_is_rejected() {
    let mut store = test_store();
    // No sidecar; the only (and thus last) line has i = -1.
    store.data = Some(b"{\"i\":-1,\"t\":1,\"d\":\"\",\"x\":0,\"c\":\"bad\"}\n".to_vec());
    let err = store.append(&[entry(2, "", 0, "two", 0)]);
    assert!(
        err.is_err(),
        "a negative recovered sequence number must not be trusted"
    );
    assert_eq!(err, Err(StoreError::SeqNegative));
}

#[test]
fn nth_line_start_from_end_cases() {
    let at = |content: &[u8], n: usize| -> (usize, bool) { nth_line_start_from_end(content, n) };

    assert_eq!(at(b"", 1), (0, true));
    assert_eq!(at(b"abc", 0), (0, true));
    assert_eq!(at(b"ab\ncd\n", 1), (3, false));
    assert_eq!(
        at(b"ab\ncd\n", 2),
        (0, true),
        "n == line count is the whole file"
    );
    assert_eq!(at(b"ab\ncd\n", 9), (0, true));
    // No trailing newline: the last line still counts as a line.
    assert_eq!(at(b"ab\ncd", 1), (3, false));
    assert_eq!(at(b"a\nb\nc\nd\n", 3), (2, false));

    let mut content = String::new();
    for i in 0..20_000 {
        content.push_str(&format!("line{}\n", i));
    }
    let (off, hit) = at(content.as_bytes(), 1);
    assert!(!hit);
    assert_eq!(&content[off..], "line19999\n");
    let (off, hit) = at(content.as_bytes(), 15_000);
    assert!(!hit);
    assert_eq!(content[off..].lines().next().unwrap(), "line5000");
    assert_eq!(content[off..].lines().count(), 15_000);
}

#[test]
fn limit_matches_the_unlimited_query_and_yields_usable_ids() {
    let mut store = test_store();
    let dirs = ["/a", "/b", "/a", "/c"];
    let entries: Vec<Entry> = (0..500)
        .map(|n| {
            entry(
                1_700_000_000 + n,
                dirs[n as usize % dirs.len()],
                0,
                &format!("command number {} {}", n, "x".repeat(200)),
                0,
            )
        })
        .collect();
    store.append(&entries).unwrap();

    let all = store.query(&Query::default()).unwrap();
    assert_eq!(all.len(), 500);
    assert_eq!(
        all[0].entry.t,
        1_700_000_000 + 499,
        "query is not newest-first"
    );

    // A limit must return exactly the prefix the unlimited query returns:
    // same rows, same ids, including the offset baked into each id.
    for want in [1usize, 2, 7, 128, 499, 500, 501, 5000] {
        let got = store.query(&ask(None, Some(want), false)).unwrap();
        assert_eq!(
            got.len(),
            want.min(500),
            "limit {} returned {} rows",
            want,
            got.len()
        );
        for (g, a) in got.iter().zip(all.iter()) {
            assert_eq!(g.id, a.id, "limit {} produced a different id", want);
            assert_eq!(g.entry, a.entry, "limit {} produced a different entry", want);
        }
    }

    // The ids from the backward path must still seek correctly.
    let tail = store.query(&ask(None, Some(3), false)).unwrap();
    for row in &tail {
        assert_eq!(
            store.get(&row.id).unwrap(),
            row.entry,
            "id {} does not resolve",
            row.id
        );
    }
}

#[test]
fn limit_with_sparse_dir_filter_widens_the_window() {
    let mut store = test_store();
    // One match every 50 rows, so `want` lines back cannot possibly hold
    // enough of them and the window has to grow.
    let entries: Vec<Entry> = (0..1000)
        .map(|n| {
            entry(
                1_700_000_000 + n,
                if n % 50 == 0 { "/rare" } else { "/common" },
                0,
                &format!("cmd {}", n),
                0,
            )
        })
        .collect();
    store.append(&entries).unwrap();

    let all = store.query(&ask(Some("/rare"), None, false)).unwrap();
    assert_eq!(all.len(), 20);
    for want in [1usize, 5, 20, 21] {
        let got = store.query(&ask(Some("/rare"), Some(want), false)).unwrap();
        assert_eq!(
            got.len(),
            want.min(20),
            "sparse limit {} gave {}",
            want,
            got.len()
        );
        for (g, a) in got.iter().zip(all.iter()) {
            assert_eq!(g.id, a.id);
            assert_eq!(g.entry.d, "/rare");
        }
    }
}

#[test]
fn limit_on_missing_or_empty_store() {
    let mut store = test_store();
    let q = ask(None, Some(10), false);
    assert!(
        store.query(&q).unwrap().is_empty(),
        "missing file should read as empty"
    );

    store.data = Some(Vec::new());
    assert!(
        store.query(&q).unwrap().is_empty(),
        "empty file should read as empty"
    );

    store.append(&[entry(1, "", 0, "only", 0)]).unwrap();
    assert_eq!(store.query(&q).unwrap().len(), 1);
    assert!(
        store.query(&ask(None, Some(0), false)).unwrap().is_empty(),
        "limit 0 must mean zero rows here"
    );
}

#[test]
fn limit_reads_a_file_whose_last_line_lacks_a_newline() {
    let mut store = test_store();
    store
        .append(&[entry(1, "/x", 0, "first", 0), entry(2, "/x", 0, "second", 0)])
        .unwrap();
    // Strip the trailing newline the way a crash mid-append could.
    assert_eq!(store.data.as_mut().unwrap().pop(), Some(b'\n'));

    let got = store.query(&ask(None, Some(1), false)).unwrap();
    assert_eq!(got.len(), 1);
    assert_eq!(got[0].entry.c, "second");
}

#[test]
fn uniq_collapses_consecutive_repeats_to_newest() {
    let mut store = test_store();
    store
        .append(&[
            entry(1, "/a", 0, "one", 0),
            entry(2, "/a", 0, "same", 10),
            entry(3, "/a", 1, "same", 20),
            entry(4, "/a", 0, "same", 30),
            entry(5, "/a", 0, "two", 0),
        ])
        .unwrap();

    let rows = store.query(&ask(None, None, true)).unwrap();
    // Newest first; the run of "same" folds to its newest entry.
    assert_eq!(rows.len(), 3);
    assert_eq!(rows[0].entry.c, "two");
    assert_eq!(rows[1].entry.c, "same");
    assert_eq!(rows[1].entry.t, 4, "folded run keeps its newest entry");
    assert_eq!(rows[1].count, 3, "folded run did not count its repeats");
    assert_eq!(rows[0].count, 1);
    assert_eq!(rows[2].entry.c, "one");
    assert_eq!(rows[2].count, 1);
}

#[test]
fn uniq_keeps_duplicates_separated_by_other_commands() {
    let mut store = test_store();
    store
        .append(&[
            entry(1, "/a", 0, "same", 0),
            entry(2, "/a", 0, "other", 0),
            entry(3, "/a", 0, "same", 0),
        ])
        .unwrap();

    let rows = store.query(&ask(None, None, true)).unwrap();
    assert_eq!(rows.len(), 3);
    assert_eq!(rows[0].entry.c, "same");
    assert_eq!(rows[1].entry.c, "other");
    assert_eq!(rows[2].entry.c, "same");
}

#[test]
fn uniq_with_limit_reads_back_until_it_has_limit_rows() {
    let mut store = test_store();
    // The newest five are one run of repeats; dedupe collapses them to one,
    // so the limited read must widen past them.
    let entries: Vec<Entry> = (0..10)
        .map(|n| {
            let c = if n >= 5 {
                "repeat".to_string()
            } else {
                format!("cmd{}", n)
            };
            entry(1_700_000_000 + n, "/a", 0, &c, 0)
        })
        .collect();
    store.append(&entries).unwrap();

    let rows = store.query(&ask(None, Some(5), true)).unwrap();
    assert_eq!(rows.len(), 5);
    assert_eq!(rows[0].entry.c, "repeat");
    assert_eq!(rows[0].entry.t, 1_700_000_000 + 9);
    assert_eq!(rows[1].entry.c, "cmd4");
    assert_eq!(rows[4].entry.c, "cmd1");
}

#[test]
fn uniq_with_limit_returns_what_exists_when_shorter() {
    let mut store = test_store();
    store
        .append(&[
            entry(1, "/a", 0, "one", 0),
            entry(2, "/a", 0, "one", 0),
            entry(3, "/a", 0, "two", 0),
        ])
        .unwrap();

    let rows = store.query(&ask(None, Some(10), true)).unwrap();
    // Only two distinct commands exist; the limit cannot conjure more.
    assert_eq!(rows.len(), 2);
    assert_eq!(rows[0].entry.c, "two");
    assert_eq!(rows[1].entry.c, "one");
}

#[test]
fn uniq_applies_within_the_dir_filter() {
    let mut store = test_store();
    store
        .append(&[
            entry(1, "/a", 0, "same", 0),
            entry(2, "/b", 0, "same", 0),
            entry(3, "/a", 0, "same", 0),
        ])
        .unwrap();

    let rows = store.query(&ask(Some("/a"), None, true)).unwrap();
    // Only /a rows remain; consecutive after the filter, so they collapse to
    // the newest. A dedupe before the filter would have kept t1.
    assert_eq!(rows.len(), 1);
    assert_eq!(rows[0].entry.t, 3);
}

#[test]
fn read_last_line_cases() {
    let read = |content: &[u8]| -> Option<Vec<u8>> { read_last_line(content) };

    assert_eq!(read(b""), None);
    assert_eq!(read(b"abc"), Some(b"abc".to_vec()));
    assert_eq!(read(b"abc\n"), Some(b"abc".to_vec()));
    assert_eq!(read(b"ab\ncd\n"), Some(b"cd".to_vec()));
    assert_eq!(read(b"ab\ncd"), Some(b"cd".to_vec()));
    assert_eq!(read(b"\n"), Some(b"".to_vec()));

    let long_line = "x".repeat(100_000);
    let content = format!("first\n{}\n", long_line);
    assert_eq!(read(content.as_bytes()), Some(long_line.into_bytes()));

    // Same, but the trailing line isn't newline-terminated.
    let long_line = "y".repeat(100_000);
    let content = format!("first\n{}", long_line);
    assert_eq!(read(content.as_bytes()), Some(long_line.into_bytes()));
}

#[test]
fn scanning_measures_the_end_of_a_file() {
    assert_eq!(content_end(b""), 0);
    assert_eq!(content_end(b"a\n"), 1);
    assert_eq!(content_end(b"a\nb"), 3);
    assert_eq!(trailing_line_size(b""), 0);
    assert_eq!(trailing_line_size(b"ab\ncde"), 3);
    assert_eq!(trailing_line_size(b"ab\n"), 2);
    assert_eq!(trailing_line_size(b"ab\ncd\n"), 2);
    assert_eq!(trailing_line_size(b"ab\n\n"), 0);
    assert_eq!(trailing_line_size(b"abcd"), 4);
    let long = vec![b'x'; MAX_JSON_LINE_SIZE + 7];
    assert_eq!(trailing_line_size(&long), MAX_JSON_LINE_SIZE);
}

#[test]
fn stored_lines_have_their_shape() {
    let mut store = test_store();
    store
        .append(&[entry(1720000000, "/home/you/src", 0, "cargo build", 8123)])
        .unwrap();
    assert_eq!(
        String::from_utf8(store.data.clone().unwrap()).unwrap(),
        "{\"i\":1,\"t\":1720000000,\"d\":\"/home/you/src\",\"x\":0,\"c\":\"cargo build\",\"m\":8123}\n"
    );
    // An unknown duration is left out.
    assert_eq!(
        write_stored(41, 7, "", -1, "a\"b\n", 0),
        b"{\"i\":41,\"t\":7,\"d\":\"\",\"x\":-1,\"c\":\"a\\\"b\\n\"}".to_vec()
    );
}

#[test]
fn lines_are_read_whatever_way_they_were_written() {
    let mut store = test_store();
    // Any order, white space, unknown fields, escapes, and a field list.
    store.data = Some(
        b" { \"c\" : \"a\\u0062c\" , \"x\":3, \"more\":[1,{\"t\":9}], \"d\":\"\\u00e9\",\"t\": 5 , \"m\":null0 }\n".to_vec(),
    );
    assert_eq!(
        store.list().map(|_| ()),
        Err(StoreError::Malformed { offset: 0 })
    );
    store.data = Some(
        b" { \"c\" : \"a\\u0062c\" , \"x\":3, \"more\":[1,{\"t\":9}], \"d\":\"\\u00e9\",\"t\": 5 }\n[8,1,\"/d\",0,\"listed\"]\n".to_vec(),
    );
    let rows = store.list().unwrap();
    assert_eq!(rows[0].entry, entry(5, "é", 3, "abc", 0));
    assert_eq!(rows[1].entry, entry(1, "/d", 0, "listed", 0));
    assert!(rows[0].id.ends_with("-0"));
    assert!(rows[1].id.ends_with("-8"));
}

#[test]
fn every_refusal_says_where_and_why() {
    let path = "/p/h.jsonl";
    let good = "{\"i\":1,\"t\":1,\"d\":\"\",\"x\":0,\"c\":\"ok\"}\n";
    let refused = |text: String| {
        let mut store = test_store();
        store.data = Some(text.into_bytes());
        store.list().err().unwrap()
    };

    let e = refused(format!("{}oops\n", good));
    assert_eq!(e, StoreError::Malformed { offset: good.len() as u64 });
    assert_eq!(
        e.message(path, "expected value"),
        format!("read {} at offset {}: expected value", path, good.len())
    );
    // A field twice, a field missing, and a number that is none.
    assert_eq!(
        refused("{\"t\":1,\"t\":1,\"d\":\"\",\"x\":0,\"c\":\"a\"}".to_string()),
        StoreError::Malformed { offset: 0 }
    );
    assert_eq!(
        refused("{\"t\":1,\"d\":\"\",\"c\":\"a\"}".to_string()),
        StoreError::Malformed { offset: 0 }
    );
    assert_eq!(
        refused("{\"t\":1.5,\"d\":\"\",\"x\":0,\"c\":\"a\"}".to_string()),
        StoreError::Malformed { offset: 0 }
    );

    let e = refused("{\"i\":1,\"t\":1,\"d\":\"\",\"x\":0,\"c\":\"\"}\n".to_string());
    assert_eq!(e, StoreError::MissingCommand { offset: 0 });
    assert_eq!(e.message(path, "expected value"), format!("read {} at offset 0: empty command", path));

    let e = refused("x".repeat(MAX_JSON_LINE_SIZE + 1));
    assert_eq!(
        e,
        StoreError::LineTooLong {
            offset: 0,
            len: MAX_JSON_LINE_SIZE as u64 + 1
        }
    );
    assert_eq!(
        e.message(path, "expected value"),
        format!(
            "read {} at offset 0: encoded JSON line is 4194305 bytes; limit is 4194304",
            path
        )
    );

    let mut store = test_store();
    let e = store.append(&[entry(1, "", 0, "", 0)]).err().unwrap();
    assert_eq!(e, StoreError::EmptyCommand);
    assert_eq!(e.message(path, "expected value"), "empty command");
    assert_eq!(store.seq, None, "a refused append moved the counter");

    let long = entry(1, "", 0, &"x".repeat(MAX_JSON_LINE_SIZE), 0);
    let e = store.append(&[long]).err().unwrap();
    assert!(matches!(e, StoreError::EncodedTooLong { i: 1, .. }));
    assert_eq!(
        e.message(path, "expected value"),
        "encoded JSON line for entry 1 is 4194338 bytes; limit is 4194304"
    );

    store.data = Some(vec![b' '; MAX_JSON_LINE_SIZE]);
    store.seq = Some(b"7".to_vec());
    let e = store.append(&[entry(1, "", 0, "a", 0)]).err().unwrap();
    assert_eq!(
        e,
        StoreError::TrailingTooLong {
            size: MAX_JSON_LINE_SIZE as u64
        }
    );
    assert_eq!(
        e.message(path, "expected value"),
        "cannot append newline to trailing line of at least 4194304 bytes; limit is 4194304"
    );
    assert_eq!(store.seq.as_deref(), Some(&b"8"[..]), "a number could be given out twice");

    store.data = Some(b"junk".to_vec());
    store.seq = None;
    let e = store.append(&[entry(1, "", 0, "a", 0)]).err().unwrap();
    assert_eq!(e, StoreError::SeqMalformed);
    assert_eq!(
        e.message(path, "expected value"),
        "recovering sequence counter from /p/h.jsonl: expected value"
    );
    assert_eq!(
        StoreError::SeqNegative.message(path, "expected value"),
        "recovered a negative sequence number from /p/h.jsonl"
    );
    assert_eq!(StoreError::EntryNotFound.message(path, "expected value"), "entry not found");
    assert_eq!(
        StoreError::Unterminated.message(path, "expected value"),
        "unexpected end of file in multiline entry"
    );
    assert_eq!(
        StoreError::InvalidEntry.message(path, "expected value"),
        "invalid entry: expected value"
    );
}

#[test]
fn get_reports_what_it_cannot_find_or_read() {
    let mut store = test_store();
    assert_eq!(store.get("0-1"), Err(StoreError::EntryNotFound));
    store.append(&[entry(1, "", 0, "a", 0)]).unwrap();
    assert_eq!(store.get("no id"), Err(StoreError::EntryNotFound));
    assert_eq!(store.get("0-9"), Err(StoreError::EntryNotFound));
    assert_eq!(store.get("zz-1").unwrap().c, "a");
    store.data.as_mut().unwrap().extend_from_slice(b"junk\n");
    assert!(matches!(
        store.get("zz-1"),
        Err(StoreError::Malformed { .. })
    ));
    assert!(matches!(
        store.delete("0-1", false),
        Err(StoreError::Malformed { .. })
    ));
}

#[test]
fn a_line_is_only_taken_for_its_own_number() {
    let line = b"{\"i\":5,\"t\":1,\"d\":\"\",\"x\":0,\"c\":\"five\"}\n";
    assert_eq!(get_at(line, 5).unwrap().c, "five");
    assert_eq!(get_at(line, 6), None);
    assert_eq!(get_at(b"", 5), None);
    assert_eq!(get_at(&line[3..], 5), None);
    assert_eq!(get_at(&vec![b' '; MAX_JSON_LINE_SIZE + 1], 5), None);
}

#[test]
fn ids_round_trip_in_base_36() {
    assert_eq!(make_id(0, 1), "0-1");
    assert_eq!(make_id(35, 36), "z-10");
    assert_eq!(parse_id("z-10"), Some((35, 36)));
    assert_eq!(parse_id(&make_id(123_456_789, i64::MAX)), Some((123_456_789, i64::MAX)));
    for bad in ["", "-", "a-", "-a", "a", "a--1", "@1-2", "1y2p0ij32e8e8-1"] {
        assert_eq!(parse_id(bad), None, "{:?}", bad);
    }
    assert_ne!(make_id(1, 23), make_id(12, 3));
}

#[test]
fn rows_of_the_same_second_stand_in_reverse() {
    let mut store = test_store();
    store
        .append(&[
            entry(5, "", 0, "a", 0),
            entry(9, "", 0, "b", 0),
            entry(5, "", 0, "c", 0),
            entry(1, "", 0, "d", 0),
        ])
        .unwrap();
    let rows = store.query(&ask(None, None, false)).unwrap();
    let order: Vec<&str> = rows.iter().map(|r| r.entry.c.as_str()).collect();
    assert_eq!(order, vec!["b", "c", "a", "d"]);
    // A limit selects by position in the file and only then sorts by time.
    let rows = store.query(&ask(None, Some(2), false)).unwrap();
    let order: Vec<&str> = rows.iter().map(|r| r.entry.c.as_str()).collect();
    assert_eq!(order, vec!["c", "d"]);
}

#[test]
fn the_end_of_a_file_answers_for_all_of_it() {
    let mut store = test_store();
    let entries: Vec<Entry> = (0..40)
        .map(|n| entry(n, if n % 4 == 0 { "/a" } else { "/b" }, 0, &format!("c{}", n / 3), 0))
        .collect();
    store.append(&entries).unwrap();
    let data = store.data.clone().unwrap();
    let same = |a: &Vec<Row>, b: &Vec<Row>| {
        a.len() == b.len()
            && a.iter()
                .zip(b)
                .all(|(x, y)| x.id == y.id && x.entry == y.entry && x.count == y.count)
    };
    for q in [
        ask(None, Some(3), false),
        ask(Some("/a"), Some(4), false),
        ask(None, Some(3), true),
        ask(None, Some(100), false),
        ask(None, None, true),
    ] {
        let whole = store.query(&q).unwrap();
        let mut answered = 0;
        for base in 0..data.len() {
            if let Some(part) = query_part(&data[base..], base as u64, &q) {
                assert!(same(&part.unwrap(), &whole), "from {}", base);
                answered += 1;
            }
        }
        assert!(answered > 0);
    }
    // Nothing of a file can be said from none of it.
    assert!(query_part(&[], 10, &ask(None, Some(1), false)).is_none());
}

#[test]
fn the_end_of_a_file_is_enough_to_append() {
    let mut store = test_store();
    let entries: Vec<Entry> = (0..5).map(|n| entry(n, "", 0, "c", 0)).collect();
    store.append(&entries).unwrap();
    let mut data = store.data.clone().unwrap();
    let more = [entry(9, "", 0, "more", 0)];
    for seq in [None, Some(b"5".to_vec())] {
        for newline in [true, false] {
            if !newline {
                assert_eq!(data.pop(), Some(b'\n'));
            }
            let whole = plan_append(&data, &seq, &more).unwrap();
            let mut enough = 0;
            for base in 0..data.len() {
                if enough_to_append(&data[base..], base as u64) {
                    let part = plan_append(&data[base..], &seq, &more).unwrap();
                    assert_eq!(part.counter, whole.counter);
                    assert_eq!(part.lines, whole.lines);
                    enough += 1;
                }
            }
            assert!(enough > 1);
            assert_eq!(whole.counter, b"6");
            assert_eq!(whole.lines.clone().unwrap()[0] == b'\n', !newline);
            if !newline {
                data.push(b'\n');
            }
        }
    }
    assert_eq!(read_seq(&data, &None), Ok(5));
    assert_eq!(read_seq(&data, &Some(b" 12\n".to_vec())), Ok(12));
    assert_eq!(read_seq(&data, &Some("\u{3000}12\u{a0}".as_bytes().to_vec())), Ok(12));
    assert_eq!(read_seq(b"", &None), Ok(0));
}

#[test]
fn the_counter_never_runs_over() {
    let mut store = test_store();
    store.seq = Some(i64::MAX.to_string().into_bytes());
    let more = [entry(9, "", 0, "more", 0)];
    assert!(!store.has_room(1));
    assert!(store.has_room(0));
    assert!(store.try_append(&more).is_none());
    assert!(try_plan_append(&[], &store.seq, &more).is_none());
    assert_eq!(store.data, None);
    store.seq = Some((i64::MAX - 1).to_string().into_bytes());
    assert_eq!(store.try_append(&more), Some(Ok(())));
    assert_eq!(store.seq, Some(i64::MAX.to_string().into_bytes()));
}

#[test]
fn an_empty_append_changes_nothing() {
    let mut store = test_store();
    store.append(&[]).unwrap();
    assert_eq!(store.data, None);
    assert_eq!(store.seq, None);
}

#[test]
fn masks_group_and_other_only() {
    assert_eq!(owner_only(0o100644), Some(0o100600));
    assert_eq!(owner_only(0o744), Some(0o700));
    assert_eq!(owner_only(0o600), None);
    assert_eq!(owner_only(0o1700), None);
}

#[test]
fn files_stand_beside_the_history() {
    assert_eq!(seq_path("/x/h"), "/x/h.seq");
    assert_eq!(lock_path("/x/h"), "/x/h.lock");
    assert_eq!(temp_path("/x/h"), "/x/h.tmp");
}

#[test]
fn a_directory_selects_among_all_rows() {
    let mut store = test_store();
    let entries: Vec<Entry> = (0..9)
        .map(|n| entry(n, if n % 3 == 0 { "/a" } else { "/b" }, 0, &format!("c{}", n), 0))
        .collect();
    store.append(&entries).unwrap();
    let all = store.query(&ask(None, None, false)).unwrap();
    let some = store.query(&ask(Some("/a"), None, false)).unwrap();
    let expected: Vec<&str> = all
        .iter()
        .filter(|r| r.entry.d == "/a")
        .map(|r| r.id.as_str())
        .collect();
    let got: Vec<&str> = some.iter().map(|r| r.id.as_str()).collect();
    assert_eq!(got, expected);
    assert!(store.query(&ask(Some("/c"), None, false)).unwrap().is_empty());
}

#[test]
fn a_limited_answer_without_repeats_is_the_start_of_the_full_one() {
    let mut store = test_store();
    let entries: Vec<Entry> = (0..60)
        .map(|n| entry(n, "/a", 0, &format!("c{}", n / 7), 0))
        .collect();
    store.append(&entries).unwrap();
    let full = store.query(&ask(None, None, false)).unwrap();
    let all = store.query(&ask(None, None, true)).unwrap();
    assert_eq!(all.iter().map(|r| r.count).sum::<usize>(), full.len());
    for want in 1..12 {
        let got = store.query(&ask(None, Some(want), true)).unwrap();
        assert_eq!(got.len(), want.min(all.len()));
        for (k, row) in got.iter().enumerate() {
            assert_eq!(row.id, all[k].id);
            assert_eq!(row.entry, all[k].entry);
            assert_eq!(row.count, all[k].count);
        }
    }
}

#[test]
fn a_limit_does_not_cut_a_run_short() {
    let mut store = test_store();
    store
        .append(&[entry(1, "/a", 0, "a", 0), entry(2, "/a", 0, "a", 0), entry(3, "/a", 0, "b", 0)])
        .unwrap();
    for limit in [2, 3, usize::MAX] {
        let rows = store.query(&ask(None, Some(limit), true)).unwrap();
        let got: Vec<_> = rows.iter().map(|r| (r.entry.c.as_str(), r.entry.t, r.count)).collect();
        assert_eq!(got, [("b", 3, 1), ("a", 2, 2)]);
    }
    let rows = store.query(&ask(None, Some(1), true)).unwrap();
    assert_eq!(rows.len(), 1);
    assert_eq!(rows[0].count, 1);
}

#[test]
fn a_limit_selects_by_position_without_repeats_too() {
    let ids = |rows: &[Row]| -> Vec<(String, usize)> {
        rows.iter().map(|r| (r.entry.c.clone(), r.count)).collect()
    };
    let one = |c: &str, n: usize| (c.to_string(), n);
    let mut store = test_store();
    store.append(&[entry(5, "", 0, "a", 0), entry(1, "", 0, "b", 0)]).unwrap();
    let rows = store.query(&ask(None, Some(1), true)).unwrap();
    assert_eq!(ids(&rows), [one("b", 1)]);
    assert_eq!(rows[0].id, store.list().unwrap()[1].id);
    // A repeat that is newer than the run is not of the run.
    let mut store = test_store();
    store
        .append(&[entry(9, "", 0, "a", 0), entry(5, "", 0, "b", 0), entry(1, "", 0, "a", 0)])
        .unwrap();
    assert_eq!(
        ids(&store.query(&ask(None, Some(2), true)).unwrap()),
        [one("b", 1), one("a", 1)]
    );
    // Rows of other directories and older repeats do not end a run.
    let mut store = test_store();
    store
        .append(&[
            entry(1, "/a", 0, "x", 0),
            entry(2, "/a", 0, "a", 0),
            entry(3, "/b", 0, "b", 0),
            entry(3, "/a", 0, "a", 0),
            entry(3, "/a", 0, "a", 0),
        ])
        .unwrap();
    assert_eq!(
        ids(&store.query(&ask(Some("/a"), Some(1), true)).unwrap()),
        [one("a", 3)]
    );
    assert_eq!(ids(&store.query(&ask(None, Some(1), true)).unwrap()), [one("a", 2)]);
    // What cannot be read before the selected rows ends the run and no more.
    let mut store = test_store();
    store.append(&[entry(1, "", 0, "a", 0), entry(2, "", 0, "a", 0)]).unwrap();
    let mut data = b"junk\n".to_vec();
    data.extend_from_slice(&store.data.clone().unwrap());
    store.data = Some(data);
    assert_eq!(ids(&store.query(&ask(None, Some(1), true)).unwrap()), [one("a", 2)]);
    assert!(store.query(&ask(None, Some(2), true)).is_err());
}

#[test]
fn texts_are_written_as_json() {
    let c = "\"\\\u{8}\t\n\u{c}\r\u{0}\u{1f}\u{7f}/é中\u{1f600}";
    let line = write_stored(1, 2, "", 0, c, 0);
    assert_eq!(
        String::from_utf8(line).unwrap(),
        "{\"i\":1,\"t\":2,\"d\":\"\",\"x\":0,\"c\":\"\\\"\\\\\\b\\t\\n\\f\\r\\u0000\\u001f\u{7f}/é中\u{1f600}\"}"
    );
}

#[test]
fn no_entry_stands_inside_a_line() {
    let texts = [
        "{",
        "[",
        "x { ",
        "[1,2,",
        "[1, 2 , ",
        "[1,2,[]",
        "{}",
        "{\"i\":1,\"t\":2,\"d\":\"\",\"x\":0,\"c\":\"ls\"}",
        "[1,2,\"d\",0,\"c\"]",
        "\\{\"",
        " 7 ",
        "\n{\t中",
    ];
    for d in texts {
        for c in texts {
            for m in [0, 5] {
                let mut line = write_stored(1, 2, d, 0, c, m);
                line.push(b'\n');
                assert!(decode_line(&line).is_some());
                for p in 1..line.len() {
                    assert!(decode_line(&line[p..]).is_none(), "{:?} {:?} {}", d, c, p);
                }
            }
        }
    }
}

#[test]
fn ids_outlive_appends_and_deletes() {
    let mut store = test_store();
    let texts = ["a", "b {", "a", "[1,2,", "c"];
    for (n, c) in texts.iter().enumerate() {
        store.append(&[entry(n as i64, "/d{", 0, c, 0)]).unwrap();
    }
    let rows = store.list().unwrap();
    store.delete(&rows[1].id, false).unwrap();
    store.append(&[entry(9, "", 0, "later", 0)]).unwrap();
    store.delete(&rows[4].id, false).unwrap();
    for k in [0, 2, 3] {
        assert_eq!(store.get(&rows[k].id).unwrap(), rows[k].entry);
    }
    for k in [1, 4] {
        assert_eq!(store.get(&rows[k].id), Err(StoreError::EntryNotFound));
    }
    // Without its newline the last line is ended before another one is added.
    let last = store.list().unwrap().pop().unwrap();
    store.data.as_mut().unwrap().pop();
    store.append(&[entry(10, "", 0, "last", 0)]).unwrap();
    assert_eq!(store.get(&last.id).unwrap(), last.entry);
    assert_eq!(store.get(&rows[0].id).unwrap(), rows[0].entry);
}

#[test]
fn ids_outlive_what_is_added_behind() {
    let mut store = test_store();
    store
        .append(&[entry(1, "", 0, "a", 0), entry(2, "", 0, "b", 0)])
        .unwrap();
    let rows = store.list().unwrap();
    store.append(&[entry(3, "", 0, "c", 0)]).unwrap();
    for row in &rows {
        assert_eq!(store.get(&row.id).unwrap(), row.entry);
    }
}

#[test]
fn numbers_are_never_given_out_twice() {
    let mut store = test_store();
    store
        .append(&[entry(1, "", 0, "a", 0), entry(2, "", 0, "b", 0)])
        .unwrap();
    let last = store.list().unwrap()[1].id.clone();
    store.delete(&last, false).unwrap();
    store.append(&[entry(3, "", 0, "c", 0)]).unwrap();
    let rows = store.list().unwrap();
    assert!(rows[1].id.ends_with("-3"), "{}", rows[1].id);
    // A refused batch leaves no number behind, and no line either.
    let before = store.data.clone();
    assert!(store
        .append(&[entry(4, "", 0, "d", 0), entry(5, "", 0, "", 0)])
        .is_err());
    assert_eq!(store.data, before);
    assert_eq!(store.seq.as_deref(), Some(&b"3"[..]));
}

#[test]
fn rows_are_made_and_found_one_by_one() {
    let row = |offset: u64, i: i64, c: &str| {
        make_row(Some((i, entry(1, "", 0, c, 0))), offset).unwrap()
    };
    assert!(matches!(
        make_row(None, 7),
        Err(StoreError::Malformed { offset: 7 })
    ));
    assert!(matches!(
        make_row(Some((1, entry(1, "", 0, "", 0))), 8),
        Err(StoreError::MissingCommand { offset: 8 })
    ));
    let rows = vec![row(0, 5, "a"), row(10, 6, "b"), row(20, 5, "a")];
    assert_eq!(find_by_seq(&rows, 5), Some(2));
    assert_eq!(find_by_seq(&rows, 9), None);
    assert_eq!(find_at(&rows, 0, 5), Some(0));
    assert_eq!(find_at(&rows, 10, 5), None);
    let left = remove_command(rows, &"a".to_string());
    assert_eq!(left.len(), 1);
    assert_eq!(left[0].i, 6);
    assert!(remove_row(left, 0).is_empty());

    assert_eq!(recover(None), Err(StoreError::SeqMalformed));
    assert_eq!(
        recover(Some((-1, entry(1, "", 0, "a", 0)))),
        Err(StoreError::SeqNegative)
    );
    assert_eq!(recover(Some((4, entry(1, "", 0, "a", 0)))), Ok(4));
    assert_eq!(trusted_counter(&Some(b"+5".to_vec())), Some(5));
    assert_eq!(trusted_counter(&Some(b"5 5".to_vec())), None);
    assert_eq!(trusted_counter(&None), None);
}
