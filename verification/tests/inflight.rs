//! Commands that are still running.

use std::collections::BTreeMap;

use zhis::entry::Row;
use zhis::inflight::{
    alive, begin, dir_for, end, fate, file_for, get, join, make_id, parse_id, pid_of_file,
    read_record, rows, temp_for, Fate,
};

const DATA: &str = "/home/me/.local/share/zhis/history.jsonl";

fn begin_default(pid: i32) -> (i32, Vec<u8>) {
    (pid, begin(DATA, pid, "/work", "sleep 100", 42).bytes)
}

/// The directory of the records, by path, with every shell in it alive.
#[derive(Clone, Debug, Default, PartialEq)]
struct Records(BTreeMap<String, Vec<u8>>);

impl Records {
    fn begin(&mut self, pid: i32, dir: &str, cmd: &str, t: i64) {
        let start = begin(DATA, pid, dir, cmd, t);
        self.0.insert(start.file, start.bytes);
    }

    fn end(&mut self, pid: i32) {
        self.0.remove(&end(DATA, pid));
    }

    fn rows(&self) -> Vec<Row> {
        let mut found = Vec::new();
        for (path, bytes) in &self.0 {
            let name = path.strip_prefix(&dir_for(DATA)).unwrap().trim_start_matches('/');
            if let Fate::Read(pid) = fate(name, true, false) {
                found.push((pid, bytes.clone()));
            }
        }
        rows(&found, &None)
    }

    fn get(&self, pid: i32) -> Option<String> {
        get(&make_id(pid), true, &self.0.get(&file_for(DATA, pid)).cloned())
    }
}

#[test]
fn ids_do_not_collide_with_store_ids() {
    // Store ids are `<base36>-<base36>`; neither side may parse the other.
    assert_eq!(parse_id("@1234"), Some(1234));
    assert_eq!(parse_id("2f-19"), None);
    assert_eq!(parse_id("0-1"), None);
    assert_eq!(parse_id("@"), None);
    assert_eq!(parse_id("@abc"), None);
}

#[test]
fn begin_then_get_round_trips() {
    let me = 4242;
    let found = begin_default(me);
    assert_eq!(
        get(&make_id(me), true, &Some(found.1.clone())).as_deref(),
        Some("sleep 100")
    );

    let rows = rows(&[found], &None);
    assert_eq!(rows.len(), 1);
    assert_eq!(rows[0].entry.c, "sleep 100");
    assert_eq!(rows[0].entry.t, 42);
    assert_eq!(rows[0].entry.x, -1, "an unfinished command has no status");
    assert_eq!(rows[0].entry.m, 0, "an unfinished command has no duration");
    assert_eq!(rows[0].id, make_id(me));
}

#[test]
fn end_removes_the_record() {
    let me = 4242;
    let mut records = Records::default();
    records.begin(me, "/work", "sleep 100", 42);
    records.end(me);
    assert!(records.rows().is_empty());
    assert_eq!(records.get(me), None);
}

#[test]
fn ending_one_command_leaves_the_others() {
    let mut records = Records::default();
    records.begin(42, "/work", "sleep 100", 42);
    records.begin(424, "/work", "sleep 200", 43);
    let other = records.rows()[0].id.clone();
    records.end(42);
    let left = records.rows();
    assert_eq!(left.len(), 1);
    assert_eq!((left[0].id.as_str(), left[0].entry.c.as_str()), (other.as_str(), "sleep 200"));
    assert_eq!(records.get(424).as_deref(), Some("sleep 200"));
    assert_eq!(records.get(42), None);
    // Once more, and where there is no record, nothing happens.
    let before = records.clone();
    records.end(42);
    records.end(7);
    assert_eq!(records, before);
}

#[test]
fn begin_overwrites_the_same_shells_previous_record() {
    let me = 4242;
    let mut records = Records::default();
    records.begin(me, "/work", "first", 1);
    records.begin(me, "/other", "second", 2);
    let rows = records.rows();
    assert_eq!(rows.len(), 1, "one shell has one foreground command");
    assert_eq!(rows[0].entry.c, "second");
    assert_eq!(rows[0].entry.d, "/other");
}

#[test]
fn dead_shells_records_are_swept_not_returned() {
    let dead = i32::MAX;
    assert_eq!(fate("2147483647.json", false, false), Fate::Swept);
    assert_eq!(get(&make_id(dead), alive(dead, false, false), &Some(begin_default(dead).1)), None);
}

#[test]
fn dir_filter_selects_matching_records() {
    let found = [begin_default(4242)];
    assert_eq!(rows(&found, &Some("/work".to_string())).len(), 1);
    assert!(rows(&found, &Some("/elsewhere".to_string())).is_empty());
}

#[test]
fn newest_first() {
    let found = [
        (100, begin(DATA, 100, "/work", "older", 10).bytes),
        (200, begin(DATA, 200, "/work", "newer", 20).bytes),
    ];
    let rows = rows(&found, &None);
    assert_eq!(rows.len(), 2);
    assert_eq!(rows[0].entry.c, "newer");
    assert_eq!(rows[1].entry.c, "older");
}

#[test]
fn junk_in_the_directory_is_ignored() {
    assert_eq!(fate("notapid.json", true, true), Fate::Ignored);
    assert_eq!(fate("README", true, true), Fate::Ignored);
    let torn = (4242, b"{not json".to_vec());
    assert!(rows(&[torn.clone()], &None).is_empty());
    assert_eq!(get(&make_id(4242), true, &Some(torn.1)), None);
    // A record of nothing.
    let empty = (4242, begin(DATA, 4242, "/work", "", 1).bytes);
    assert!(rows(&[empty], &None).is_empty());
}

#[test]
fn absent_directory_reads_as_empty() {
    assert!(rows(&[], &None).is_empty());
    assert_eq!(get("@1", true, &None), None);
    assert_eq!(get("0-1", true, &Some(begin_default(1).1)), None);
}

#[test]
fn records_stand_beside_the_history() {
    assert_eq!(dir_for(DATA), "/home/me/.local/share/zhis/inflight");
    assert_eq!(dir_for("history.jsonl"), "inflight");
    assert_eq!(dir_for("/history.jsonl"), "/inflight");
    assert_eq!(dir_for("a//b/"), "a/inflight");
    assert_eq!(dir_for("/a//b/c"), "/a//b/inflight");
    assert_eq!(dir_for("a/../b"), "a/../inflight");
    assert_eq!(file_for("x/h", 7), "x/inflight/7.json");
    assert_eq!(temp_for("x/h", 7), "x/inflight/.7.tmp");
    assert_eq!(join("", "a"), "a");
    let start = begin("x/h", 7, "/d", "c\"", 5);
    assert_eq!(start.dir, "x/inflight");
    assert_eq!(start.temp, "x/inflight/.7.tmp");
    assert_eq!(start.file, "x/inflight/7.json");
    assert_eq!(start.bytes, b"{\"t\":5,\"d\":\"/d\",\"c\":\"c\\\"\"}".to_vec());
    let rec = read_record(&start.bytes).unwrap();
    assert_eq!((rec.t, rec.d.as_str(), rec.c.as_str()), (5, "/d", "c\""));
}

#[test]
fn file_names_carry_pids() {
    assert_eq!(pid_of_file("31337.json"), Some(31337));
    assert_eq!(pid_of_file("-1.json"), Some(-1));
    assert_eq!(pid_of_file(".json"), None);
    assert_eq!(pid_of_file("5.tmp"), None);
    assert_eq!(pid_of_file("99999999999.json"), None);
    // Whole groups of processes are never alive.
    assert_eq!(fate("-1.json", true, true), Fate::Swept);
    assert_eq!(fate("0.json", true, true), Fate::Swept);
    assert_eq!(fate("5.json", true, false), Fate::Read(5));
    assert_eq!(fate("5.json", false, true), Fate::Read(5));
    assert!(!alive(0, true, true));
    assert!(alive(1, false, true));
}

#[test]
fn running_ids_round_trip() {
    for pid in [0, 1, 31337, i32::MAX, -5, i32::MIN] {
        assert_eq!(parse_id(&make_id(pid)), Some(pid));
    }
    assert_eq!(make_id(31337), "@31337");
    assert_eq!(parse_id("@2147483648"), None);
    assert_eq!(parse_id(""), None);
}

#[test]
fn records_of_other_shapes_are_no_records() {
    // A field missing, one twice, and one that is not known.
    assert!(read_record(b"{\"t\":5,\"d\":\"/d\"}").is_none());
    assert!(read_record(b"{\"t\":5,\"t\":5,\"d\":\"/d\",\"c\":\"x\"}").is_none());
    assert!(read_record(b"{\"t\":5,\"d\":\"/d\",\"c\":\"x\",\"x\":\"any\"}").is_some());
}
