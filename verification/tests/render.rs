//! Rows, durations, ages and previews.

use zhis::entry::{Entry, Row};
use zhis::render::{
    display_command, display_width, fit_lines, fmt_dur, format_line, format_row,
    format_running_row, preview_lines, rel_time, zsh_layout_vars,
};

fn row(t: i64, x: i64, c: &str, m: i64, id: &str, count: usize) -> Row {
    Row {
        entry: Entry {
            t,
            d: "/d".to_string(),
            x,
            c: c.to_string(),
            m,
        },
        id: id.to_string(),
        count,
    }
}

#[test]
fn display_width_counts_columns_not_characters() {
    assert_eq!(display_width("cargo build"), 11);
    // 18 characters, 30 columns on screen.
    let cjk = "msg=\"对方违约，拖欠货款三个月\"";
    assert_eq!(cjk.chars().count(), 18);
    assert_eq!(display_width(cjk), 30);
}

#[test]
fn display_width_counts_a_tab_as_one_column() {
    assert_eq!(display_width("a\tb"), 3);
    assert_eq!(display_width("\t\tlong"), 6);
    // The picker renders ANSI escapes as color codes: they draw no columns.
    assert_eq!(display_width("\x1b[31mred\x1b[0m"), 3);
}

#[test]
fn preview_lines_wraps_on_columns_not_characters() {
    // 50 CJK characters draw 100 columns: two lines in a 96-column preview,
    // where counting characters would have called it one.
    let cjk = "中".repeat(50);
    assert_eq!(cjk.chars().count(), 50);
    assert_eq!(display_width(&cjk), 100);
    assert_eq!(preview_lines(&cjk, 100, 1), Some(2));
}

#[test]
fn preview_lines_sizes_the_window_fzf_will_draw() {
    // At 115 columns the preview holds 111 and a plain row 101.
    assert_eq!(preview_lines(&"x".repeat(113), 115, 1), Some(2));
    assert_eq!(preview_lines(&"x".repeat(111), 115, 1), Some(1));
    // Fits its column: the row shows it all already, so no preview.
    assert_eq!(preview_lines(&"x".repeat(101), 115, 1), None);
    assert_eq!(preview_lines(&"x".repeat(102), 115, 1), Some(1));
    // A folded row's " ×N" narrows the row by exactly its own width.
    assert_eq!(preview_lines(&"x".repeat(97), 115, 15), None);
    assert_eq!(preview_lines(&"x".repeat(98), 115, 15), Some(1));
    // A multiline command always previews, each line wrapped on its own.
    assert_eq!(preview_lines("a\nb", 115, 1), Some(2));
    assert_eq!(
        preview_lines(&format!("{}\nb", "x".repeat(113)), 115, 1),
        Some(3)
    );
    // Ten lines is the cap, so a long script cannot swallow the list.
    assert_eq!(preview_lines(&"a\n".repeat(40), 115, 1), Some(10));
    // An unset width arrives as 0 and falls back to 80.
    assert_eq!(preview_lines(&"x".repeat(77), 0, 1), Some(2));
    assert_eq!(preview_lines("", 115, 1), None);
    // A narrow window and an absurd count must not underflow the row bound;
    // it just means the row cannot show the command.
    assert_eq!(preview_lines("x", 24, usize::MAX), Some(1));
}

#[test]
fn fmt_dur_cases() {
    let cases: &[(i64, &str)] = &[
        (0, ""),
        (-5, ""),
        (1, "1ms"),
        (999, "999ms"),
        (1000, "1.0s"),
        (1250, "1.2s"),
        (59_999, "59.9s"),
        (60_000, "1m00s"),
        (83_000, "1m23s"),
        (3_599_000, "59m59s"),
        (3_600_000, "1h00m"),
        (9_000_000, "2h30m"),
        (86_399_000, "23h59m"),
        (86_400_000, "1d00h"),
        (90_000_000, "1d01h"),
        (2_591_999_000, "29d23h"),
        (2_592_000_000, "1m00d"),
        (8_640_000_000, "3m10d"),
        (31_103_999_000, "11m29d"),
        (31_104_000_000, "1y00m"),
        (34_560_000_000, "1y01m"),
        (62_207_999_000, "1y11m"),
        (62_208_000_000, "2y00m"),
    ];
    for &(ms, want) in cases {
        assert_eq!(fmt_dur(ms), want, "fmt_dur({})", ms);
    }
}

#[test]
fn format_row_strips_control_bytes_from_command() {
    let out = format_row(&row(0, 0, "ls\x1f-a\x1b[31m", 0, "0-1", 1), 0);
    // The row's own three delimiters are all that may appear; a command
    // carrying the delimiter would otherwise mint phantom columns.
    assert_eq!(out.matches('\x1f').count(), 3, "row: {:?}", out);
    // The command's escape must not survive to recolor the picker.
    assert!(
        !out.contains("\x1b[31m"),
        "command escape leaked: {:?}",
        out
    );
    assert!(out.contains("ls-a"), "command text was mangled: {:?}", out);
}

#[test]
fn format_row_shows_the_collapse_count() {
    let out = format_row(&row(0, 0, "dup", 0, "0-1", 15), 0);
    let cmd = out.find("dup").unwrap();
    let cnt = out.find('×').unwrap();
    assert!(cmd < cnt, "count must follow the command: {:?}", out);
    assert!(out[cnt..].contains("15"), "count digits lost: {:?}", out);

    assert!(
        !format_row(&row(0, 0, "dup", 0, "0-1", 1), 0).contains('×'),
        "single row shows a count"
    );
}

#[test]
fn format_running_row_keeps_the_row_contract() {
    let out = format_running_row(&row(100, -1, "sleep 9\x1f\x1b[31m", 0, "@4242", 1), 160);
    assert_eq!(out.matches('\x1f').count(), 3, "row: {:?}", out);
    assert!(
        !out.contains("\x1b[31m"),
        "command escape leaked: {:?}",
        out
    );
    assert!(out.contains("@4242"), "id lost: {:?}", out);
    assert!(out.contains("..."), "not marked as running: {:?}", out);
    // 60s elapsed, rendered from seconds since t rather than from `m`.
    assert!(out.contains("1m00s"), "elapsed not shown: {:?}", out);
}

#[test]
fn rel_time_cases() {
    let now = 1_000_000;
    assert_eq!(rel_time(now - 5, now), " 5s");
    assert_eq!(rel_time(now - 59, now), "59s");
    assert_eq!(rel_time(now - 60, now), " 1m");
    assert_eq!(rel_time(now - 3599, now), "59m");
    assert_eq!(rel_time(now - 3600, now), " 1h");
    assert_eq!(rel_time(now - 86_399, now), "23h");
    assert_eq!(rel_time(now - 86_400, now), " 1d");
    assert_eq!(rel_time(now - 604_799, now), " 6d");
    assert_eq!(rel_time(now - 604_800, now), " 1w");
    assert_eq!(rel_time(now - 31_449_599, now), "51w");
    assert_eq!(rel_time(now - 31_449_600, now), " 1y");
    assert_eq!(rel_time(now - 94_348_800, now), " 3y");
}

#[test]
fn a_start_in_the_future_is_a_negative_age() {
    assert_eq!(rel_time(10, 7), "-3s");
    assert_eq!(rel_time(100, 0), "-100s");
}

#[test]
fn rows_are_laid_out_to_the_letter() {
    assert_eq!(
        format_row(&row(40, 1, "make\ntest", 1250, "2f-19", 3), 100),
        "2f-19\x1f\x1b[2m  1.2s \x1b[0m\x1f\x1b[34m 1m \x1b[0m\x1f\x1b[31mmake ⏎\x1b[0m\x1f\x1b[2m ×3\x1b[0m"
    );
    assert_eq!(
        format_row(&row(40, 0, "a\tb", 0, "0-1", 1), 41),
        "0-1\x1f\x1b[2m       \x1b[0m\x1f\x1b[34m 1s \x1b[0m\x1fa\tb\x1b[0m"
    );
    assert_eq!(
        format_running_row(&row(40, -1, "ssh", 0, "@7", 1), 44),
        "@7\x1f\x1b[2m  4.0s \x1b[0m\x1f\x1b[34m... \x1b[0m\x1f\x1b[2mssh\x1b[0m"
    );
    // Not started yet, and running for longer than milliseconds can count.
    assert!(format_running_row(&row(50, -1, "ssh", 0, "@7", 1), 44).contains("\x1b[2m       \x1b[0m"));
    assert!(format_running_row(&row(0, -1, "ssh", 0, "@7", 1), i64::MAX).contains("y"));
    assert_eq!(
        format_line("i", "d", "a", "", "", "c"),
        "i\x1f\x1b[2m     d \x1b[0m\x1f\x1b[34m  a \x1b[0m\x1fc\x1b[0m"
    );
}

#[test]
fn layout_vars_are_what_the_shell_expects() {
    assert_eq!(
        zsh_layout_vars(),
        "typeset -g _zhis_delim=$'\\x1f'\ntypeset -g _zhis_id_field=1\ntypeset -g _zhis_with_nth='2..'\n"
    );
}

#[test]
fn commands_are_shown_without_control_characters() {
    assert_eq!(display_command("plain"), "plain");
    assert_eq!(display_command("one\ntwo\nthree"), "one ⏎");
    assert_eq!(display_command("a\u{7f}b\u{85}c\td\r"), "abc\td");
    assert_eq!(display_command(""), "");
    assert_eq!(display_command("\n"), " ⏎");
}

#[test]
fn escapes_draw_nothing() {
    assert_eq!(display_width("\x1b"), 0);
    assert_eq!(display_width("\x1bMx"), 1);
    assert_eq!(display_width("\x1b[1;31"), 0);
    assert_eq!(display_width("\x1b[中mx"), 1);
    assert_eq!(display_width("\u{1}\u{7f}"), 0);
    assert_eq!(display_width("e\u{301}"), 1);
    // An escape that starts no sequence, before a character of several bytes.
    assert_eq!(display_width("\x1b中"), 0);
    assert_eq!(display_width("\x1b中中x"), 3);
    assert_eq!(preview_lines("\x1b中", 100, 1), None);
    assert_eq!(preview_lines("\x1b\n中", 100, 1), Some(2));
}

#[test]
fn previews_go_by_the_widths_of_the_lines() {
    assert_eq!(fit_lines(&[], 100, 1), None);
    assert_eq!(fit_lines(&[0], 100, 1), None);
    assert_eq!(fit_lines(&[86], 100, 1), None);
    assert_eq!(fit_lines(&[87], 100, 1), Some(1));
    assert_eq!(fit_lines(&[96, 97, 0], 100, 1), Some(4));
    assert_eq!(fit_lines(&[usize::MAX, usize::MAX], 100, 1), Some(10));
    // Carriage returns end lines only before a newline.
    assert_eq!(preview_lines("a\r\nb\r\n", 100, 1), Some(2));
    assert_eq!(preview_lines("a\r", 100, 1), None);
    assert_eq!(preview_lines("\n\n", 100, 1), Some(2));
}
