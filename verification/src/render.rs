//! Everything `zhis list` prints to a row, and the row-layout contract that
//! `zhis init` hands to the shell so that the picker's flags can't drift from
//! it.

use vstd::arithmetic::div_mod::lemma_fundamental_div_mod_converse;
use vstd::prelude::*;
use vstd::slice::slice_subrange;
use vstd::utf8::{encode_scalar, encode_utf8};
use crate::entry::{Row, RowView};
use crate::ids::{id_text, law_id_characters};
use crate::inflight::{running_id, ID_SIGIL};
use crate::text::{
    chars_of, control, decimal, digit_char, digit_value, digits, find_char, is_control, is_digits,
    law_split_undoes_joining, lemma_digits_number, lemma_position, number, parsed, position,
    push_count, push_decimal, push_right_aligned, right_aligned, split_at_first, string_of,
    to_digits,
};

verus! {

// The colors: of an age, of what matters less, of a command that failed, and
// none.
pub const C_BLUE: &'static str = "\x1b[34m";

pub const C_DIM: &'static str = "\x1b[2m";

pub const C_RED: &'static str = "\x1b[31m";

pub const C_RESET: &'static str = "\x1b[0m";

/// Unit separator, not tab: a tab can appear in a command's own text and
/// would otherwise split the row into extra phantom columns.
pub const FIELD_DELIM: char = '\x1f';

/// The field of a row that is its ID, counting from 1.
pub const ID_FIELD: usize = 1;

/// The fields of a row that are shown.
pub const DISPLAY_FIELDS: &'static str = "2..";

// Seconds per rung of rel_time's ladder. A year is 52 weeks, not the
// calendar's 365 days, so the boundary lands on the rung it replaces.
pub const S_MIN: i64 = 60;

pub const S_HOUR: i64 = 3600;

pub const S_DAY: i64 = 86_400;

pub const S_WEEK: i64 = 604_800;

pub const S_YEAR: i64 = 31_449_600;

/// How long ago something was, in the largest unit that it fills, two
/// characters wide at least.
pub open spec fn age(ago: int) -> Seq<char> {
    if ago < S_MIN {
        right_aligned(decimal(ago), 2) + "s"@
    } else if ago < S_HOUR {
        right_aligned(decimal(ago / S_MIN as int), 2) + "m"@
    } else if ago < S_DAY {
        right_aligned(decimal(ago / S_HOUR as int), 2) + "h"@
    } else if ago < S_WEEK {
        right_aligned(decimal(ago / S_DAY as int), 2) + "d"@
    } else if ago < S_YEAR {
        right_aligned(decimal(ago / S_WEEK as int), 2) + "w"@
    } else {
        right_aligned(decimal(ago / S_YEAR as int), 2) + "y"@
    }
}

fn aligned(n: i64, unit: &str) -> (r: String)
    ensures
        r@ == right_aligned(decimal(n as int), 2) + unit@,
{
    let mut number: String = String::new();
    push_decimal(&mut number, n);
    assert(number@ =~= decimal(n as int));
    let mut out: String = String::new();
    push_right_aligned(&mut out, number.as_str(), 2);
    out.append(unit);
    assert(out@ =~= right_aligned(decimal(n as int), 2) + unit@);
    out
}

/// How long before `now` something started.
pub fn rel_time(t: i64, now: i64) -> (r: String)
    requires
        i64::MIN <= now - t <= i64::MAX,
    ensures
        r@ == age(now - t),
{
    let ago: i64 = now - t;
    if ago < S_MIN {
        aligned(ago, "s")
    } else if ago < S_HOUR {
        aligned(ago / S_MIN, "m")
    } else if ago < S_DAY {
        aligned(ago / S_HOUR, "h")
    } else if ago < S_WEEK {
        aligned(ago / S_DAY, "d")
    } else if ago < S_YEAR {
        aligned(ago / S_WEEK, "w")
    } else {
        aligned(ago / S_YEAR, "y")
    }
}

// Milliseconds per rung of fmt_dur's ladder. Month and year are stipulated,
// not the calendar's: only then can the year rung never print "1y12m".
pub const MS_SEC: i64 = 1_000;

pub const MS_MIN: i64 = 60_000;

pub const MS_HOUR: i64 = 3_600_000;

pub const MS_DAY: i64 = 86_400_000;

pub const MS_MONTH: i64 = 2_592_000_000;

pub const MS_YEAR: i64 = 31_104_000_000;

/// `n` with two digits at least.
pub open spec fn two_digits(n: int) -> Seq<char> {
    if 0 <= n < 10 {
        "0"@ + decimal(n)
    } else {
        decimal(n)
    }
}

/// How many of `unit` are in `ms`, and how many of `part` in the rest of it.
pub open spec fn in_units(ms: int, unit: int, big: Seq<char>, part: int, small: Seq<char>) -> Seq<
    char,
> {
    decimal(ms / unit) + big + two_digits(ms % unit / part) + small
}

/// A duration in milliseconds as its two largest units; nothing when unknown.
pub open spec fn duration(ms: int) -> Seq<char> {
    if ms <= 0 {
        Seq::empty()
    } else if ms < MS_SEC {
        decimal(ms) + "ms"@
    } else if ms < MS_MIN {
        decimal(ms / MS_SEC as int) + "."@ + decimal(ms % MS_SEC as int / 100) + "s"@
    } else if ms < MS_HOUR {
        in_units(ms, MS_MIN as int, "m"@, MS_SEC as int, "s"@)
    } else if ms < MS_DAY {
        in_units(ms, MS_HOUR as int, "h"@, MS_MIN as int, "m"@)
    } else if ms < MS_MONTH {
        in_units(ms, MS_DAY as int, "d"@, MS_HOUR as int, "h"@)
    } else if ms < MS_YEAR {
        in_units(ms, MS_MONTH as int, "m"@, MS_DAY as int, "d"@)
    } else {
        in_units(ms, MS_YEAR as int, "y"@, MS_MONTH as int, "m"@)
    }
}

fn units(ms: i64, unit: i64, big: &str, part: i64, small: &str) -> (r: String)
    requires
        ms >= 0,
        unit > 0,
        part > 0,
    ensures
        r@ == in_units(ms as int, unit as int, big@, part as int, small@),
{
    let mut out: String = String::new();
    push_decimal(&mut out, ms / unit);
    out.append(big);
    let rest: i64 = ms % unit / part;
    if rest < 10 {
        out.append("0");
    }
    proof {
        assert(ms % unit >= 0) by (nonlinear_arith)
            requires
                ms >= 0,
                unit > 0,
        ;
        assert(rest >= 0) by (nonlinear_arith)
            requires
                rest == (ms % unit) / part,
                ms % unit >= 0,
                part > 0,
        ;
    }
    push_decimal(&mut out, rest);
    out.append(small);
    assert(out@ =~= in_units(ms as int, unit as int, big@, part as int, small@));
    out
}

/// Renders a duration in milliseconds as its two largest units; "" when
/// unknown.
pub fn fmt_dur(ms: i64) -> (r: String)
    ensures
        r@ == duration(ms as int),
{
    let mut out: String = String::new();
    if ms <= 0 {
        assert(out@ =~= duration(ms as int));
        return out;
    }
    if ms < MS_SEC {
        push_decimal(&mut out, ms);
        out.append("ms");
        assert(out@ =~= duration(ms as int));
        return out;
    }
    if ms < MS_MIN {
        // Truncate like the rungs below; rounding could show "60.0s".
        push_decimal(&mut out, ms / MS_SEC);
        out.append(".");
        push_decimal(&mut out, ms % MS_SEC / 100);
        out.append("s");
        assert(out@ =~= duration(ms as int));
        return out;
    }
    if ms < MS_HOUR {
        return units(ms, MS_MIN, "m", MS_SEC, "s");
    }
    if ms < MS_DAY {
        return units(ms, MS_HOUR, "h", MS_MIN, "m");
    }
    if ms < MS_MONTH {
        return units(ms, MS_DAY, "d", MS_HOUR, "h");
    }
    if ms < MS_YEAR {
        return units(ms, MS_MONTH, "m", MS_DAY, "d");
    }
    units(ms, MS_YEAR, "y", MS_MONTH, "m")
}

/// The smaller unit of a duration never fills the larger one: no "1y12m",
/// no "60.0s".
pub proof fn law_smaller_units_stay_small(ms: int)
    requires
        ms > 0,
    ensures
        ms < MS_MIN ==> ms / (MS_SEC as int) < 60 && ms % (MS_SEC as int) / 100 < 10,
        ms < MS_HOUR ==> ms / (MS_MIN as int) < 60 && ms % (MS_MIN as int) / (MS_SEC as int) < 60,
        ms < MS_DAY ==> ms / (MS_HOUR as int) < 24 && ms % (MS_HOUR as int) / (MS_MIN as int) < 60,
        ms < MS_MONTH ==> ms / (MS_DAY as int) < 30 && ms % (MS_DAY as int) / (MS_HOUR as int) < 24,
        ms < MS_YEAR ==> ms / (MS_MONTH as int) < 12 && ms % (MS_MONTH as int) / (MS_DAY as int)
            < 30,
        ms % (MS_YEAR as int) / (MS_MONTH as int) < 12,
{
}

/// The command as the picker shows it: the first line only for multiline
/// commands, marked with "⏎", and control characters but tabs left out.
pub open spec fn shown_command(c: Seq<char>) -> Seq<char> {
    let p = position(c, '\n');
    let text = if p < c.len() {
        c.take(p) + " ⏎"@
    } else {
        c
    };
    text.filter(|ch: char| !is_control(ch) || ch == '\t')
}

fn printable(s: &[char]) -> (r: Vec<char>)
    ensures
        r@ == s@.filter(|ch: char| !is_control(ch) || ch == '\t'),
{
    let ghost f = |ch: char| !is_control(ch) || ch == '\t';
    let mut out: Vec<char> = Vec::new();
    let mut k: usize = 0;
    proof {
        reveal(Seq::filter);
        assert(s@.take(0).filter(f) =~= Seq::<char>::empty());
    }
    while k < s.len()
        invariant
            k <= s@.len(),
            f == (|ch: char| !is_control(ch) || ch == '\t'),
            out@ == s@.take(k as int).filter(f),
        decreases s@.len() - k,
    {
        proof {
            reveal(Seq::filter);
            assert(s@.take(k + 1).drop_last() =~= s@.take(k as int));
            assert(s@.take(k + 1).last() == s@[k as int]);
        }
        if !control(s[k]) || s[k] == '\t' {
            out.push(s[k]);
        }
        k = k + 1;
    }
    assert(s@.take(s@.len() as int) =~= s@);
    out
}

/// The command as the picker shows it: first line only for multiline
/// commands, marked with "⏎", and control bytes stripped. A pasted delimiter
/// or escape would split the row into phantom columns or recolor it.
pub fn display_command(c: &str) -> (r: String)
    ensures
        r@ == shown_command(c@),
{
    let chars: Vec<char> = chars_of(c);
    let p: usize = find_char(chars.as_slice(), '\n');
    proof {
        lemma_position(c@, '\n');
    }
    if p < chars.len() {
        let mut text: Vec<char> = chars;
        text.truncate(p);
        let mut mark: Vec<char> = chars_of(" ⏎");
        text.append(&mut mark);
        assert(text@ =~= c@.take(p as int) + " ⏎"@);
        let out: Vec<char> = printable(text.as_slice());
        string_of(out.as_slice())
    } else {
        let out: Vec<char> = printable(chars.as_slice());
        string_of(out.as_slice())
    }
}

/// How many columns a character draws, as the `unicode-width` crate has it;
/// None for a control character.
pub uninterp spec fn char_columns(c: char) -> Option<int>;

/// `unicode_width::UnicodeWidthChar::width`: none for a control character,
/// one column for the other ASCII characters, and never more columns than the
/// character has bytes in UTF-8.
#[verifier::external_body]
fn char_width(c: char) -> (r: Option<usize>)
    ensures
        match r {
            Some(n) => char_columns(c) == Some(n as int) && !is_control(c) && n <= encode_scalar(
                c as u32,
            ).len(),
            None => char_columns(c) is None && is_control(c),
        },
        ' ' <= c <= '~' ==> r == Some(1usize),
{
    unicode_width::UnicodeWidthChar::width(c)
}

/// The place after the final character of an escape sequence whose parameters
/// start at `i`.
pub open spec fn escape_end(s: Seq<char>, i: int) -> int
    decreases s.len() - i,
{
    if i >= s.len() {
        s.len() as int
    } else if '@' <= s[i] <= '~' {
        i + 1
    } else {
        escape_end(s, i + 1)
    }
}

/// The place after what is drawn at `i`: a character, or a whole escape
/// sequence.
pub open spec fn drawn_end(s: Seq<char>, i: int) -> int {
    if s[i] != '\x1b' {
        i + 1
    } else if i + 1 < s.len() && s[i + 1] == '[' {
        escape_end(s, i + 2)
    } else if i + 1 < s.len() {
        i + 2
    } else {
        i + 1
    }
}

/// Something is drawn at every place.
pub proof fn lemma_drawn_end(s: Seq<char>, i: int)
    requires
        0 <= i < s.len(),
    ensures
        i < drawn_end(s, i) <= s.len(),
{
    if s[i] == '\x1b' && i + 1 < s.len() && s[i + 1] == '[' {
        lemma_escape_end(s, i + 2);
    }
}

proof fn lemma_escape_end(s: Seq<char>, i: int)
    requires
        0 <= i <= s.len(),
    ensures
        i <= escape_end(s, i) <= s.len(),
    decreases s.len() - i,
{
    if i < s.len() && !('@' <= s[i] <= '~') {
        lemma_escape_end(s, i + 1);
    }
}

/// How many columns are drawn at `i`.
pub open spec fn columns_at(s: Seq<char>, i: int) -> int {
    if s[i] == '\t' {
        1
    } else if s[i] == '\x1b' {
        0
    } else {
        match char_columns(s[i]) {
            Some(n) => n,
            None => 0,
        }
    }
}

/// How many columns the text from `i` on draws: a tab draws one, and an escape
/// sequence none.
pub open spec fn columns(s: Seq<char>, i: int) -> int
    decreases s.len() - i,
{
    if !(0 <= i < s.len()) {
        0
    } else {
        proof {
            lemma_drawn_end(s, i);
        }
        columns_at(s, i) + columns(s, drawn_end(s, i))
    }
}

proof fn lemma_bytes_left(s: Seq<char>, i: int, j: int)
    requires
        0 <= i <= j <= s.len(),
    ensures
        encode_utf8(s.skip(j)).len() <= encode_utf8(s.skip(i)).len(),
        i < j ==> encode_utf8(s.skip(j)).len() + encode_scalar(s[i] as u32).len() <= encode_utf8(
            s.skip(i),
        ).len(),
        i < j ==> 1 <= encode_scalar(s[i] as u32).len() <= 4,
    decreases j - i,
{
    if i < j {
        lemma_bytes_left(s, i + 1, j);
        assert(s.skip(i).drop_first() =~= s.skip(i + 1));
        assert(s.skip(i)[0] == s[i]);
    }
}

/// Whether a text is made of printable ASCII characters.
pub open spec fn is_printable_ascii(s: Seq<char>) -> bool {
    forall|k: int| 0 <= k < s.len() ==> ' ' <= #[trigger] s[k] <= '~'
}

/// Columns that a text draws, which are never more than its bytes. A printable
/// ASCII text draws one for each character.
fn count_columns(s: &[char]) -> (r: u128)
    ensures
        r == columns(s@, 0),
        r <= encode_utf8(s@).len(),
        is_printable_ascii(s@) ==> r == s@.len(),
{
    let mut i: usize = 0;
    let mut width: u128 = 0;
    assert(s@.skip(0) =~= s@);
    while i < s.len()
        invariant
            i <= s@.len(),
            width + columns(s@, i as int) == columns(s@, 0),
            width + encode_utf8(s@.skip(i as int)).len() <= encode_utf8(s@).len(),
            width <= 4 * i,
            is_printable_ascii(s@) ==> width == i,
        decreases s@.len() - i,
    {
        let ghost at = i as int;
        proof {
            lemma_drawn_end(s@, at);
            lemma_bytes_left(s@, at, drawn_end(s@, at));
            assert(is_printable_ascii(s@) ==> ' ' <= s@[at] <= '~');
        }
        if s[i] == '\t' {
            width = width + 1;
            i = i + 1;
        } else if s[i] == '\x1b' {
            i = i + 1;
            if i < s.len() && s[i] == '[' {
                // Skip the parameters, then the final character.
                i = i + 1;
                while i < s.len() && !('@' <= s[i] && s[i] <= '~')
                    invariant
                        at < i <= s@.len(),
                        escape_end(s@, at + 2) == escape_end(s@, i as int),
                    decreases s@.len() - i,
                {
                    i = i + 1;
                }
                if i < s.len() {
                    i = i + 1;
                }
            } else if i < s.len() {
                // A sequence of two characters: no columns either.
                i = i + 1;
            }
            assert(i == drawn_end(s@, at));
        } else {
            let n: usize = match char_width(s[i]) {
                Some(n) => n,
                None => 0,
            };
            width = width + n as u128;
            i = i + 1;
        }
    }
    assert(s@.skip(i as int) =~= Seq::<char>::empty());
    width
}

/// Columns `s` draws in the picker: CJK is two, a tab is one, and escape
/// sequences draw none. An escape takes the character behind it along,
/// whatever that is.
pub fn display_width(s: &str) -> (r: usize)
    ensures
        r == columns(s@, 0),
        is_printable_ascii(s@) ==> r == s@.len(),
{
    let bytes: usize = s.as_bytes().len();
    let chars: Vec<char> = chars_of(s);
    count_columns(chars.as_slice()) as usize
}

// The preview window: the rounded border plus its padding take two columns a
// side.
pub const PREVIEW_CHROME: usize = 4;

// Columns before the command in a row: pointer, marker, duration, age,
// scrollbar, which are drawn whether or not the list actually scrolls.
pub const ROW_CHROME: usize = 14;

// Past this the preview crowds out the list it is there to explain.
pub const PREVIEW_MAX_LINES: usize = 10;

// The width arrives as 0 until the picker has sized its window.
pub const FALLBACK_COLS: usize = 80;

// A window narrower than this is not one yet.
pub const MIN_COLS: usize = 24;

/// How many columns the picker's window has.
pub open spec fn window_columns(cols: int) -> int {
    if cols < MIN_COLS {
        FALLBACK_COLS as int
    } else {
        cols
    }
}

/// How many columns a row has for its command, beside the " ×N" of a folded
/// row.
pub open spec fn row_columns(cols: int, count: int) -> int {
    let suffix = if count > 1 {
        2 + decimal(count).len()
    } else {
        0
    };
    let room = window_columns(cols) - ROW_CHROME - suffix;
    if room > 0 {
        room
    } else {
        0
    }
}

/// How many lines of `text` columns a line that is `width` wide takes: an
/// empty one still takes one.
pub open spec fn wrapped(width: int, text: int) -> int {
    if width == 0 {
        1
    } else {
        (width + text - 1) / text
    }
}

/// How many lines of `text` columns lines of these widths take.
pub open spec fn all_wrapped(widths: Seq<usize>, text: int) -> int
    decreases widths.len(),
{
    if widths.len() == 0 {
        0
    } else {
        all_wrapped(widths.drop_last(), text) + wrapped(widths.last() as int, text)
    }
}

/// How many lines the preview of a command with lines of these widths has;
/// None where the row shows all of it.
pub open spec fn fitted(widths: Seq<usize>, cols: int, count: int) -> Option<int> {
    if widths.len() == 0 || (widths.len() == 1 && widths[0] <= row_columns(cols, count)) {
        None
    } else {
        let lines = all_wrapped(widths, window_columns(cols) - PREVIEW_CHROME);
        Some(
            if lines < PREVIEW_MAX_LINES {
                lines
            } else {
                PREVIEW_MAX_LINES as int
            },
        )
    }
}

/// How many lines the preview of a command has whose lines have these widths.
pub fn fit_lines(widths: &[usize], cols: usize, count: usize) -> (r: Option<usize>)
    ensures
        match r {
            Some(n) => fitted(widths@, cols as int, count as int) == Some(n as int),
            None => fitted(widths@, cols as int, count as int) is None,
        },
{
    let cols: usize = if cols < MIN_COLS { FALLBACK_COLS } else { cols };
    let text: usize = cols - PREVIEW_CHROME;
    let suffix: usize = if count > 1 {
        let digits: Vec<char> = to_digits(count as u64, 10);
        proof {
            lemma_few_digits(count as nat);
        }
        2 + digits.len()
    } else {
        0
    };
    let room: usize = cols.saturating_sub(ROW_CHROME + suffix);
    if widths.len() == 0 || (widths.len() == 1 && widths[0] <= room) {
        return None;
    }
    let mut lines: usize = 0;
    let mut k: usize = 0;
    assert(widths@.take(0) =~= Seq::<usize>::empty());
    while k < widths.len()
        invariant
            k <= widths@.len(),
            20 <= text,
            lines <= PREVIEW_MAX_LINES,
            lines == (if all_wrapped(widths@.take(k as int), text as int) < PREVIEW_MAX_LINES {
                all_wrapped(widths@.take(k as int), text as int)
            } else {
                PREVIEW_MAX_LINES as int
            }),
        decreases widths@.len() - k,
    {
        let w: usize = widths[k];
        proof {
            lemma_wrapped(w as int, text as int);
        }
        let whole: usize = w / text;
        // An empty line still occupies one.
        let taken: usize = if w == 0 || w % text != 0 { whole + 1 } else { whole };
        proof {
            assert(widths@.take(k + 1).drop_last() =~= widths@.take(k as int));
            assert(widths@.take(k + 1).last() == w);
        }
        lines = if taken >= PREVIEW_MAX_LINES || lines + taken >= PREVIEW_MAX_LINES {
            PREVIEW_MAX_LINES
        } else {
            lines + taken
        };
        k = k + 1;
    }
    assert(widths@.take(widths@.len() as int) =~= widths@);
    Some(lines)
}

proof fn lemma_wrapped(w: int, text: int)
    requires
        w >= 0,
        text >= 1,
    ensures
        wrapped(w, text) == (if w == 0 || w % text != 0 {
            w / text + 1
        } else {
            w / text
        }),
        wrapped(w, text) >= 1,
        w / text <= w,
        w / text >= 0,
        w % text != 0 ==> w / text < w,
{
    let q = w / text;
    let m = w % text;
    assert(w == q * text + m && 0 <= m < text) by (nonlinear_arith)
        requires
            q == w / text,
            m == w % text,
            text >= 1,
    ;
    assert(q >= 0) by (nonlinear_arith)
        requires
            w == q * text + m,
            0 <= m < text,
            w >= 0,
            text >= 1,
    ;
    assert(q <= q * text) by (nonlinear_arith)
        requires
            q >= 0,
            text >= 1,
    ;
    if w > 0 {
        let c = (w + text - 1) / text;
        if m == 0 {
            assert(c == q) by (nonlinear_arith)
                requires
                    c == (w + text - 1) / text,
                    w == q * text,
                    text >= 1,
            ;
            assert(q >= 1) by (nonlinear_arith)
                requires
                    w == q * text,
                    w > 0,
                    text >= 1,
            ;
        } else {
            assert(c == q + 1) by (nonlinear_arith)
                requires
                    c == (w + text - 1) / text,
                    w == q * text + m,
                    0 < m < text,
            ;
        }
    } else {
        assert(q == 0) by (nonlinear_arith)
            requires
                0 == q * text + m,
                0 <= m,
                q >= 0,
                text >= 1,
        ;
    }
}

/// A 64-bit number has no more than 20 digits.
proof fn lemma_few_digits(n: nat)
    requires
        n <= u64::MAX,
    ensures
        digits(n, 10).len() <= 20,
{
    assert(pow10(20) == 100_000_000_000_000_000_000) by {
        reveal_with_fuel(pow10, 21);
    }
    lemma_digit_bound(n, 20);
}

proof fn lemma_digit_bound(n: nat, k: nat)
    requires
        k >= 1,
        n < pow10(k),
    ensures
        digits(n, 10).len() <= k,
    decreases k,
{
    if n >= 10 {
        if k == 1 {
            reveal_with_fuel(pow10, 2);
        } else {
            assert(pow10(k) == 10 * pow10((k - 1) as nat));
            lemma_digit_bound(n / 10, (k - 1) as nat);
        }
    }
}

spec fn pow10(k: nat) -> nat
    decreases k,
{
    if k == 0 {
        1
    } else {
        10 * pow10((k - 1) as nat)
    }
}

/// Where the line that starts at `p` has its newline, or the end of the text.
pub open spec fn newline_from(s: Seq<char>, p: int) -> int
    decreases s.len() - p,
{
    if !(0 <= p < s.len()) || s[p] == '\n' {
        p
    } else {
        newline_from(s, p + 1)
    }
}

/// A line ends inside the text.
pub proof fn lemma_newline_from(s: Seq<char>, p: int)
    requires
        0 <= p <= s.len(),
    ensures
        p <= newline_from(s, p) <= s.len(),
    decreases s.len() - p,
{
    if p < s.len() && s[p] != '\n' {
        lemma_newline_from(s, p + 1);
    }
}

/// A line without the carriage return before its newline.
pub open spec fn without_return(line: Seq<char>) -> Seq<char> {
    if line.len() > 0 && line.last() == '\r' {
        line.drop_last()
    } else {
        line
    }
}

/// The lines of a text from `p` on, without what ends them. The newline at the
/// end of the last line may be missing.
pub open spec fn text_lines(s: Seq<char>, p: int) -> Seq<Seq<char>>
    decreases s.len() - p,
{
    if !(0 <= p < s.len()) {
        Seq::empty()
    } else {
        let q = newline_from(s, p);
        proof {
            lemma_newline_from(s, p);
        }
        if q < s.len() {
            seq![without_return(s.subrange(p, q))] + text_lines(s, q + 1)
        } else {
            seq![s.subrange(p, s.len() as int)]
        }
    }
}

/// Whether lines of a text are this many columns wide.
pub open spec fn have_widths(lines: Seq<Seq<char>>, widths: Seq<usize>) -> bool {
    &&& widths.len() == lines.len()
    &&& forall|k: int| 0 <= k < lines.len() ==> widths[k] == columns(#[trigger] lines[k], 0)
}

/// The lines of a text.
fn lines_of(s: &[char]) -> (r: Vec<Vec<char>>)
    ensures
        r@.len() == text_lines(s@, 0).len(),
        forall|k: int| 0 <= k < r@.len() ==> (#[trigger] r@[k])@ == text_lines(s@, 0)[k],
{
    let mut out: Vec<Vec<char>> = Vec::new();
    let mut p: usize = 0;
    let ghost all = text_lines(s@, 0);
    assert(all.skip(0) =~= all);
    while p < s.len()
        invariant
            p <= s@.len(),
            all == text_lines(s@, 0),
            out@.len() <= all.len(),
            all.skip(out@.len() as int) == text_lines(s@, p as int),
            forall|k: int| 0 <= k < out@.len() ==> (#[trigger] out@[k])@ == all[k],
        decreases s@.len() - p,
    {
        let ghost n = out@.len() as int;
        let ghost from = p as int;
        let mut q: usize = p;
        while q < s.len() && s[q] != '\n'
            invariant
                from <= q <= s@.len(),
                newline_from(s@, from) == newline_from(s@, q as int),
            decreases s@.len() - q,
        {
            q = q + 1;
        }
        let ended: bool = q < s.len();
        let mut line: Vec<char> = Vec::new();
        line.extend_from_slice(slice_subrange(s, p, q));
        assert(line@ =~= s@.subrange(from, q as int));
        if ended && line.len() > 0 && line[line.len() - 1] == '\r' {
            let ghost whole = line@;
            let _ = line.pop();
            assert(line@ =~= whole.drop_last());
        }
        proof {
            assert(text_lines(s@, from).len() > 0);
            assert(all.skip(n)[0] == line@);
            assert(all[n] == line@);
        }
        out.push(line);
        proof {
            assert(all.skip(n + 1) =~= all.skip(n).drop_first());
            if ended {
                assert(all.skip(n).drop_first() =~= text_lines(s@, q + 1));
            } else {
                assert(all.skip(n).drop_first() =~= Seq::<Seq<char>>::empty());
            }
        }
        p = if ended { q + 1 } else { q };
    }
    assert(all.len() == out@.len());
    out
}

proof fn lemma_bytes_inside(s: Seq<char>, p: int, q: int)
    requires
        0 <= p <= q <= s.len(),
    ensures
        encode_utf8(s.subrange(p, q)).len() <= encode_utf8(s.skip(p)).len(),
    decreases q - p,
{
    if p < q {
        lemma_bytes_inside(s, p + 1, q);
        assert(s.subrange(p, q)[0] == s[p]);
        assert(s.subrange(p, q).drop_first() =~= s.subrange(p + 1, q));
        assert(s.skip(p)[0] == s[p]);
        assert(s.skip(p).drop_first() =~= s.skip(p + 1));
    }
}

/// No line has more bytes than the text.
proof fn lemma_lines_inside(s: Seq<char>, p: int, k: int)
    requires
        0 <= p <= s.len(),
        0 <= k < text_lines(s, p).len(),
    ensures
        encode_utf8(text_lines(s, p)[k]).len() <= encode_utf8(s).len(),
    decreases s.len() - p,
{
    assert(s.skip(0) =~= s);
    if p < s.len() {
        lemma_newline_from(s, p);
        let q = newline_from(s, p);
        lemma_bytes_left(s, 0, p);
        if k == 0 {
            lemma_bytes_inside(s, p, q);
            if q < s.len() && q > p {
                lemma_bytes_inside(s, p, q - 1);
                assert(s.subrange(p, q).drop_last() =~= s.subrange(p, q - 1));
            }
        } else {
            lemma_lines_inside(s, q + 1, k - 1);
        }
    }
}

/// Lines the preview needs to show `cmd` whole in a `cols`-wide window, or
/// None when the row already shows all of it and needs no preview. `count` is
/// the folded row's repeat count: its " ×N" suffix narrows the command's room
/// in the row, so the bound is exact only with it.
pub fn preview_lines(cmd: &str, cols: usize, count: usize) -> (r: Option<usize>)
    ensures
        exists|widths: Seq<usize>| #[trigger]
            have_widths(text_lines(cmd@, 0), widths) && match r {
                Some(n) => fitted(widths, cols as int, count as int) == Some(n as int),
                None => fitted(widths, cols as int, count as int) is None,
            },
{
    let bytes: usize = cmd.as_bytes().len();
    let chars: Vec<char> = chars_of(cmd);
    let lines: Vec<Vec<char>> = lines_of(chars.as_slice());
    let ghost all = text_lines(cmd@, 0);
    let mut widths: Vec<usize> = Vec::new();
    let mut k: usize = 0;
    while k < lines.len()
        invariant
            k <= lines@.len(),
            all == text_lines(cmd@, 0),
            encode_utf8(cmd@).len() == bytes,
            lines@.len() == all.len(),
            forall|j: int| 0 <= j < lines@.len() ==> (#[trigger] lines@[j])@ == all[j],
            widths@.len() == k,
            forall|j: int| 0 <= j < k ==> widths@[j] == columns(#[trigger] all[j], 0),
        decreases lines@.len() - k,
    {
        proof {
            assert(lines@[k as int]@ == all[k as int]);
            lemma_lines_inside(cmd@, 0, k as int);
        }
        let w: u128 = count_columns(lines[k].as_slice());
        widths.push(w as usize);
        k = k + 1;
    }
    assert(have_widths(all, widths@));
    fit_lines(widths.as_slice(), cols, count)
}

/// A preview has a line at least and ten at most, and there is none just where
/// the command is one line that the row has room for, or nothing at all.
pub proof fn law_previews_stay_small(widths: Seq<usize>, cols: int, count: int)
    ensures
        fitted(widths, cols, count) matches Some(n) ==> 1 <= n <= PREVIEW_MAX_LINES,
        fitted(widths, cols, count) is None <==> widths.len() == 0 || (widths.len() == 1
            && widths[0] <= row_columns(cols, count)),
{
    let text = window_columns(cols) - PREVIEW_CHROME;
    lemma_all_wrapped(widths, text);
}

proof fn lemma_all_wrapped(widths: Seq<usize>, text: int)
    requires
        text >= 1,
    ensures
        all_wrapped(widths, text) >= widths.len(),
    decreases widths.len(),
{
    if widths.len() > 0 {
        lemma_all_wrapped(widths.drop_last(), text);
        lemma_wrapped(widths.last() as int, text);
    }
}

/// The count of a folded row as a field of its own; nothing where there is
/// none.
pub open spec fn count_field(count: Seq<char>) -> Seq<char> {
    if count.len() == 0 {
        Seq::empty()
    } else {
        seq![FIELD_DELIM] + C_DIM@ + " ×"@ + count + C_RESET@
    }
}

/// The one row layout: the ID, the duration, the age and the command, each
/// with its color and a visible gap, and the count behind them.
pub open spec fn laid_out_line(
    id: Seq<char>,
    dur: Seq<char>,
    ago: Seq<char>,
    count: Seq<char>,
    col: Seq<char>,
    disp: Seq<char>,
) -> Seq<char> {
    id + seq![FIELD_DELIM] + (C_DIM@ + right_aligned(dur, 6) + " "@ + C_RESET@) + seq![
        FIELD_DELIM,
    ] + (C_BLUE@ + right_aligned(ago, 3) + " "@ + C_RESET@) + seq![FIELD_DELIM] + (col + disp
        + C_RESET@) + count_field(count)
}

/// The one row-layout literal, so the two row kinds cannot drift apart. The
/// delimiter is invisible on screen, so each field's own trailing space keeps
/// a visible gap.
pub fn format_line(id: &str, dur: &str, ago: &str, count: &str, col: &str, disp: &str) -> (r: String)
    ensures
        r@ == laid_out_line(id@, dur@, ago@, count@, col@, disp@),
{
    let mut out: String = id.to_owned();
    out.push(FIELD_DELIM);
    out.append(C_DIM);
    push_right_aligned(&mut out, dur, 6);
    out.append(" ");
    out.append(C_RESET);
    out.push(FIELD_DELIM);
    out.append(C_BLUE);
    push_right_aligned(&mut out, ago, 3);
    out.append(" ");
    out.append(C_RESET);
    out.push(FIELD_DELIM);
    out.append(col);
    out.append(disp);
    out.append(C_RESET);
    // Its own trailing field, so that the row is bounded by the real " ×N"
    // width, not a worst case.
    if !count.is_empty() {
        out.push(FIELD_DELIM);
        out.append(C_DIM);
        out.append(" ×");
        out.append(count);
        out.append(C_RESET);
    }
    assert(out@ =~= laid_out_line(id@, dur@, ago@, count@, col@, disp@));
    out
}

/// The count that a row shows: none for a row that stands for itself alone.
pub open spec fn shown_count(count: int) -> Seq<char> {
    if count > 1 {
        decimal(count)
    } else {
        Seq::empty()
    }
}

/// The color of a row: red for a command that failed.
pub open spec fn status_color(x: i64) -> Seq<char> {
    if x > 0 {
        C_RED@
    } else {
        Seq::empty()
    }
}

/// One `zhis list` line of a finished command.
pub open spec fn row_line(row: RowView, now: int) -> Seq<char> {
    laid_out_line(
        row.id,
        duration(row.entry.m as int),
        age(now - row.entry.t),
        shown_count(row.count),
        status_color(row.entry.x),
        shown_command(row.entry.c),
    )
}

/// One `zhis list` line: id, duration, relative time, then the command.
pub fn format_row(row: &Row, now: i64) -> (r: String)
    requires
        i64::MIN <= now - row.entry.t <= i64::MAX,
    ensures
        r@ == row_line(row@, now as int),
{
    let mut count: String = String::new();
    if row.count > 1 {
        push_count(&mut count, row.count as u64);
    }
    assert(count@ =~= shown_count(row.count as int));
    let dur: String = fmt_dur(row.entry.m);
    let ago: String = rel_time(row.entry.t, now);
    let disp: String = display_command(row.entry.c.as_str());
    let none: String = String::new();
    assert(none@ =~= Seq::<char>::empty());
    let col: &str = if row.entry.x > 0 { C_RED } else { none.as_str() };
    format_line(
        row.id.as_str(),
        dur.as_str(),
        ago.as_str(),
        count.as_str(),
        col,
        disp.as_str(),
    )
}

/// How many milliseconds a command has been running that started at `t`: it
/// has run for none before it started, and for no more than a number holds.
pub open spec fn elapsed(t: int, now: int) -> int {
    if now <= t {
        0
    } else if (now - t) * 1000 > i64::MAX {
        i64::MAX as int
    } else {
        (now - t) * 1000
    }
}

/// One `zhis list` line of a running command.
pub open spec fn running_line(row: RowView, now: int) -> Seq<char> {
    laid_out_line(
        row.id,
        duration(elapsed(row.entry.t as int, now)),
        "..."@,
        Seq::empty(),
        C_DIM@,
        shown_command(row.entry.c),
    )
}

/// A row for a command that is still running: the duration column counts up
/// from its start, and the command is dimmed rather than colored by an exit
/// status it does not have yet.
pub fn format_running_row(row: &Row, now: i64) -> (r: String)
    requires
        i64::MIN <= now - row.entry.t <= i64::MAX,
    ensures
        r@ == running_line(row@, now as int),
{
    // Seconds resolution is all `t` carries; fmt_dur wants milliseconds.
    let run: i64 = now - row.entry.t;
    let ms: i64 = if run <= 0 {
        0
    } else {
        match run.checked_mul(1000) {
            Some(ms) => ms,
            None => i64::MAX,
        }
    };
    let dur: String = fmt_dur(ms);
    let disp: String = display_command(row.entry.c.as_str());
    let none: String = String::new();
    assert(none@ =~= Seq::<char>::empty());
    format_line(
        row.id.as_str(),
        dur.as_str(),
        "...",
        none.as_str(),
        C_DIM,
        disp.as_str(),
    )
}

/// The row layout as shell variables.
pub open spec fn layout_vars() -> Seq<char> {
    "typeset -g _zhis_delim=$'\\x"@ + digits(FIELD_DELIM as nat, 16)
        + "'\ntypeset -g _zhis_id_field="@ + decimal(ID_FIELD as int)
        + "\ntypeset -g _zhis_with_nth='"@ + DISPLAY_FIELDS@ + "'\n"@
}

/// Emits the row layout as shell vars so that the picker's flags cannot drift
/// from the rows. Not readonly: re-sourcing must not error.
pub fn zsh_layout_vars() -> (r: String)
    ensures
        r@ == layout_vars(),
{
    let mut out: String = "typeset -g _zhis_delim=$'\\x".to_owned();
    let delim: char = FIELD_DELIM;
    let hex: Vec<char> = to_digits(delim as u64, 16);
    let hex: String = string_of(hex.as_slice());
    out.append(hex.as_str());
    out.append("'\ntypeset -g _zhis_id_field=");
    push_count(&mut out, ID_FIELD as u64);
    out.append("\ntypeset -g _zhis_with_nth='");
    out.append(DISPLAY_FIELDS);
    out.append("'\n");
    assert(out@ =~= layout_vars());
    out
}

/// How many delimiters are in a text.
pub open spec fn delimiters(s: Seq<char>) -> nat
    decreases s.len(),
{
    if s.len() == 0 {
        0
    } else {
        delimiters(s.drop_last()) + if s.last() == FIELD_DELIM {
            1nat
        } else {
            0nat
        }
    }
}

/// Whether no delimiter is in a text.
pub open spec fn undelimited(s: Seq<char>) -> bool {
    forall|k: int| 0 <= k < s.len() ==> #[trigger] s[k] != FIELD_DELIM
}

proof fn lemma_delimiters_add(a: Seq<char>, b: Seq<char>)
    ensures
        delimiters(a + b) == delimiters(a) + delimiters(b),
    decreases b.len(),
{
    if b.len() == 0 {
        assert(a + b =~= a);
    } else {
        assert((a + b).drop_last() =~= a + b.drop_last());
        lemma_delimiters_add(a, b.drop_last());
    }
}

proof fn lemma_undelimited(s: Seq<char>)
    requires
        undelimited(s),
    ensures
        delimiters(s) == 0,
    decreases s.len(),
{
    if s.len() > 0 {
        assert forall|k: int| 0 <= k < s.drop_last().len() implies #[trigger] s.drop_last()[k]
            != FIELD_DELIM by {
            assert(s[k] != FIELD_DELIM);
        }
        lemma_undelimited(s.drop_last());
        assert(s[s.len() - 1] != FIELD_DELIM);
    }
}

proof fn lemma_one_delimiter()
    ensures
        delimiters(seq![FIELD_DELIM]) == 1,
{
    reveal_with_fuel(delimiters, 2);
}

proof fn lemma_decimal_undelimited(n: int)
    ensures
        undelimited(decimal(n)),
{
    let s = decimal(n);
    let body = if n < 0 {
        digits((-n) as nat, 10)
    } else {
        digits(n as nat, 10)
    };
    lemma_digits_number(
        if n < 0 {
            (-n) as nat
        } else {
            n as nat
        },
        10,
    );
    assert forall|k: int| 0 <= k < body.len() implies #[trigger] body[k] != FIELD_DELIM by {
        assert(digit_value(body[k]) is Some);
    }
    assert forall|k: int| 0 <= k < s.len() implies #[trigger] s[k] != FIELD_DELIM by {
        if n < 0 && k > 0 {
            assert(s[k] == body[k - 1]);
        } else if n >= 0 {
            assert(s[k] == body[k]);
        }
    }
}

proof fn lemma_command_undelimited(c: Seq<char>)
    ensures
        undelimited(shown_command(c)),
{
    law_shown_commands_are_printable(c);
}

proof fn lemma_undelimited_add(a: Seq<char>, b: Seq<char>)
    requires
        undelimited(a),
        undelimited(b),
    ensures
        undelimited(a + b),
{
    assert forall|k: int| 0 <= k < (a + b).len() implies #[trigger] (a + b)[k] != FIELD_DELIM by {
        if k < a.len() {
            assert((a + b)[k] == a[k]);
        } else {
            assert((a + b)[k] == b[k - a.len()]);
        }
    }
}

proof fn lemma_aligned_undelimited(s: Seq<char>, width: int)
    requires
        undelimited(s),
    ensures
        undelimited(right_aligned(s, width)),
{
    let n = right_aligned(s, width).len() - s.len();
    assert forall|k: int| 0 <= k < right_aligned(s, width).len() implies #[trigger] right_aligned(
        s,
        width,
    )[k] != FIELD_DELIM by {
        if k >= n {
            assert(right_aligned(s, width)[k] == s[k - n]);
        }
    }
}

proof fn lemma_age_undelimited(ago: int)
    ensures
        undelimited(age(ago)),
{
    reveal_strlit("s");
    reveal_strlit("m");
    reveal_strlit("h");
    reveal_strlit("d");
    reveal_strlit("w");
    reveal_strlit("y");
    let n = if ago < S_MIN {
        ago
    } else if ago < S_HOUR {
        ago / S_MIN as int
    } else if ago < S_DAY {
        ago / S_HOUR as int
    } else if ago < S_WEEK {
        ago / S_DAY as int
    } else if ago < S_YEAR {
        ago / S_WEEK as int
    } else {
        ago / S_YEAR as int
    };
    let unit = if ago < S_MIN {
        "s"@
    } else if ago < S_HOUR {
        "m"@
    } else if ago < S_DAY {
        "h"@
    } else if ago < S_WEEK {
        "d"@
    } else if ago < S_YEAR {
        "w"@
    } else {
        "y"@
    };
    lemma_decimal_undelimited(n);
    lemma_aligned_undelimited(decimal(n), 2);
    lemma_undelimited_add(right_aligned(decimal(n), 2), unit);
}

proof fn lemma_units_undelimited(
    ms: int,
    unit: int,
    big: Seq<char>,
    part: int,
    small: Seq<char>,
)
    requires
        undelimited(big),
        undelimited(small),
    ensures
        undelimited(in_units(ms, unit, big, part, small)),
{
    reveal_strlit("0");
    let a = decimal(ms / unit);
    let n = ms % unit / part;
    lemma_decimal_undelimited(ms / unit);
    lemma_decimal_undelimited(n);
    lemma_undelimited_add("0"@, decimal(n));
    lemma_undelimited_add(a, big);
    lemma_undelimited_add(a + big, two_digits(n));
    lemma_undelimited_add(a + big + two_digits(n), small);
}

proof fn lemma_duration_undelimited(ms: int)
    ensures
        undelimited(duration(ms)),
{
    reveal_strlit("ms");
    reveal_strlit(".");
    reveal_strlit("s");
    reveal_strlit("m");
    reveal_strlit("h");
    reveal_strlit("d");
    reveal_strlit("y");
    if ms <= 0 {
    } else if ms < MS_SEC {
        lemma_decimal_undelimited(ms);
        lemma_undelimited_add(decimal(ms), "ms"@);
    } else if ms < MS_MIN {
        let a = decimal(ms / MS_SEC as int);
        let b = decimal(ms % MS_SEC as int / 100);
        lemma_decimal_undelimited(ms / MS_SEC as int);
        lemma_decimal_undelimited(ms % MS_SEC as int / 100);
        lemma_undelimited_add(a, "."@);
        lemma_undelimited_add(a + "."@, b);
        lemma_undelimited_add(a + "."@ + b, "s"@);
    } else if ms < MS_HOUR {
        lemma_units_undelimited(ms, MS_MIN as int, "m"@, MS_SEC as int, "s"@);
    } else if ms < MS_DAY {
        lemma_units_undelimited(ms, MS_HOUR as int, "h"@, MS_MIN as int, "m"@);
    } else if ms < MS_MONTH {
        lemma_units_undelimited(ms, MS_DAY as int, "d"@, MS_HOUR as int, "h"@);
    } else if ms < MS_YEAR {
        lemma_units_undelimited(ms, MS_MONTH as int, "m"@, MS_DAY as int, "d"@);
    } else {
        lemma_units_undelimited(ms, MS_YEAR as int, "y"@, MS_MONTH as int, "m"@);
    }
}

proof fn lemma_colors_undelimited()
    ensures
        undelimited(C_BLUE@),
        undelimited(C_DIM@),
        undelimited(C_RED@),
        undelimited(C_RESET@),
        undelimited(" "@),
        undelimited(" ×"@),
        undelimited("..."@),
{
    reveal_strlit("\x1b[34m");
    reveal_strlit("\x1b[2m");
    reveal_strlit("\x1b[31m");
    reveal_strlit("\x1b[0m");
    reveal_strlit(" ");
    reveal_strlit(" ×");
    reveal_strlit("...");
}

/// A row has a delimiter between each two fields and nowhere else, and its
/// first field is the ID.
proof fn lemma_line_fields(
    id: Seq<char>,
    dur: Seq<char>,
    ago: Seq<char>,
    count: Seq<char>,
    col: Seq<char>,
    disp: Seq<char>,
)
    requires
        undelimited(id),
        undelimited(dur),
        undelimited(ago),
        undelimited(count),
        undelimited(col),
        undelimited(disp),
    ensures
        ({
            let line = laid_out_line(id, dur, ago, count, col, disp);
            &&& delimiters(line) == (if count.len() == 0 {
                3nat
            } else {
                4nat
            })
            &&& line.len() > id.len()
            &&& line.take(id.len() as int) == id
            &&& line[id.len() as int] == FIELD_DELIM
        }),
{
    let line = laid_out_line(id, dur, ago, count, col, disp);
    let sep = seq![FIELD_DELIM];
    let a = C_DIM@ + right_aligned(dur, 6) + " "@ + C_RESET@;
    let b = C_BLUE@ + right_aligned(ago, 3) + " "@ + C_RESET@;
    let c = col + disp + C_RESET@;
    let d = C_DIM@ + " ×"@ + count + C_RESET@;
    lemma_colors_undelimited();
    lemma_one_delimiter();
    lemma_aligned_undelimited(dur, 6);
    lemma_aligned_undelimited(ago, 3);
    lemma_undelimited_add(C_DIM@, right_aligned(dur, 6));
    lemma_undelimited_add(C_DIM@ + right_aligned(dur, 6), " "@);
    lemma_undelimited_add(C_DIM@ + right_aligned(dur, 6) + " "@, C_RESET@);
    lemma_undelimited_add(C_BLUE@, right_aligned(ago, 3));
    lemma_undelimited_add(C_BLUE@ + right_aligned(ago, 3), " "@);
    lemma_undelimited_add(C_BLUE@ + right_aligned(ago, 3) + " "@, C_RESET@);
    lemma_undelimited_add(col, disp);
    lemma_undelimited_add(col + disp, C_RESET@);
    lemma_undelimited_add(C_DIM@, " ×"@);
    lemma_undelimited_add(C_DIM@ + " ×"@, count);
    lemma_undelimited_add(C_DIM@ + " ×"@ + count, C_RESET@);
    lemma_undelimited(id);
    lemma_undelimited(a);
    lemma_undelimited(b);
    lemma_undelimited(c);
    lemma_undelimited(d);
    lemma_delimiters_add(id, sep);
    lemma_delimiters_add(id + sep, a);
    lemma_delimiters_add(id + sep + a, sep);
    lemma_delimiters_add(id + sep + a + sep, b);
    lemma_delimiters_add(id + sep + a + sep + b, sep);
    lemma_delimiters_add(id + sep + a + sep + b + sep, c);
    let front = id + sep + a + sep + b + sep + c;
    lemma_delimiters_add(front, count_field(count));
    if count.len() > 0 {
        assert(count_field(count) =~= sep + d);
        lemma_delimiters_add(sep, d);
    }
    assert(line == front + count_field(count));
    assert(line.take(id.len() as int) =~= id);
}

/// A row of a finished command has three delimiters, or four with a count,
/// whatever the command holds, and its first field is its ID.
pub proof fn law_rows_keep_their_fields(row: RowView, now: int)
    requires
        undelimited(row.id),
    ensures
        delimiters(row_line(row, now)) == (if row.count > 1 {
            4nat
        } else {
            3nat
        }),
        row_line(row, now).len() > row.id.len(),
        row_line(row, now).take(row.id.len() as int) == row.id,
        row_line(row, now)[row.id.len() as int] == FIELD_DELIM,
{
    lemma_colors_undelimited();
    lemma_duration_undelimited(row.entry.m as int);
    lemma_age_undelimited(now - row.entry.t);
    lemma_command_undelimited(row.entry.c);
    if row.count > 1 {
        lemma_decimal_undelimited(row.count);
        lemma_digits_number(row.count as nat, 10);
    }
    lemma_line_fields(
        row.id,
        duration(row.entry.m as int),
        age(now - row.entry.t),
        shown_count(row.count),
        status_color(row.entry.x),
        shown_command(row.entry.c),
    );
}

/// A row of a running command has three delimiters, whatever the command
/// holds, and its first field is its ID.
pub proof fn law_running_rows_keep_their_fields(row: RowView, now: int)
    requires
        undelimited(row.id),
    ensures
        delimiters(running_line(row, now)) == 3,
        running_line(row, now).len() > row.id.len(),
        running_line(row, now).take(row.id.len() as int) == row.id,
        running_line(row, now)[row.id.len() as int] == FIELD_DELIM,
{
    lemma_colors_undelimited();
    lemma_duration_undelimited(elapsed(row.entry.t as int, now));
    lemma_command_undelimited(row.entry.c);
    lemma_line_fields(
        row.id,
        duration(elapsed(row.entry.t as int, now)),
        "..."@,
        Seq::empty(),
        C_DIM@,
        shown_command(row.entry.c),
    );
}

/// IDs hold no delimiter.
pub proof fn law_ids_are_one_field(offset: u64, i: i64, pid: i32)
    ensures
        undelimited(id_text(offset as int, i as int)),
        undelimited(running_id(pid as int)),
{
    law_id_characters(offset, i);
    let id = id_text(offset as int, i as int);
    assert forall|k: int| 0 <= k < id.len() implies #[trigger] id[k] != FIELD_DELIM by {
        let c = id[k];
        assert(c == '-' || '0' <= c <= '9' || 'a' <= c <= 'z');
    }
    lemma_decimal_undelimited(pid as int);
    lemma_undelimited_add(seq![ID_SIGIL], decimal(pid as int));
}

/// The command that a row shows holds no control character but tabs, so no
/// escape sequence of its own.
pub proof fn law_shown_commands_are_printable(c: Seq<char>)
    ensures
        forall|k: int|
            0 <= k < shown_command(c).len() ==> !is_control(#[trigger] shown_command(c)[k])
                || shown_command(c)[k] == '\t',
{
    let f = |ch: char| !is_control(ch) || ch == '\t';
    let p = position(c, '\n');
    let text = if p < c.len() {
        c.take(p) + " ⏎"@
    } else {
        c
    };
    assert forall|k: int| 0 <= k < shown_command(c).len() implies !is_control(
        #[trigger] shown_command(c)[k],
    ) || shown_command(c)[k] == '\t' by {
        text.lemma_filter_pred(f, k);
        assert(f(shown_command(c)[k]));
    }
}

/// The fields of a line, as the picker cuts it up.
pub open spec fn fields(line: Seq<char>) -> Seq<Seq<char>>
    decreases line.len(),
{
    match split_at_first(line, '\x1f') {
        None => seq![line],
        Some((first, rest)) => {
            proof {
                lemma_position(line, '\x1f');
            }
            seq![first] + fields(rest)
        },
    }
}

proof fn lemma_first_field(a: Seq<char>, b: Seq<char>)
    requires
        undelimited(a),
    ensures
        fields(a) == seq![a],
        fields(a + seq![FIELD_DELIM] + b) == seq![a] + fields(b),
{
    lemma_position(a, '\x1f');
    assert(a + seq![FIELD_DELIM] + b =~= a.push('\x1f') + b);
    law_split_undoes_joining(a, '\x1f', b);
}

/// The fields of a line that is laid out are its parts.
proof fn lemma_fields(
    id: Seq<char>,
    dur: Seq<char>,
    ago: Seq<char>,
    count: Seq<char>,
    col: Seq<char>,
    disp: Seq<char>,
)
    requires
        undelimited(id),
        undelimited(dur),
        undelimited(ago),
        undelimited(count),
        undelimited(col),
        undelimited(disp),
    ensures
        ({
            let cut = fields(laid_out_line(id, dur, ago, count, col, disp));
            &&& cut.len() == if count.len() == 0 {
                4int
            } else {
                5
            }
            &&& cut[0] == id
            &&& cut[1] == C_DIM@ + right_aligned(dur, 6) + " "@ + C_RESET@
            &&& cut[2] == C_BLUE@ + right_aligned(ago, 3) + " "@ + C_RESET@
            &&& cut[3] == col + disp + C_RESET@
            &&& count.len() > 0 ==> cut[4] == C_DIM@ + " ×"@ + count + C_RESET@
        }),
{
    let line = laid_out_line(id, dur, ago, count, col, disp);
    let sep = seq![FIELD_DELIM];
    let a = C_DIM@ + right_aligned(dur, 6) + " "@ + C_RESET@;
    let b = C_BLUE@ + right_aligned(ago, 3) + " "@ + C_RESET@;
    let c = col + disp + C_RESET@;
    let d = C_DIM@ + " ×"@ + count + C_RESET@;
    lemma_colors_undelimited();
    lemma_aligned_undelimited(dur, 6);
    lemma_aligned_undelimited(ago, 3);
    lemma_undelimited_add(C_DIM@, right_aligned(dur, 6));
    lemma_undelimited_add(C_DIM@ + right_aligned(dur, 6), " "@);
    lemma_undelimited_add(C_DIM@ + right_aligned(dur, 6) + " "@, C_RESET@);
    lemma_undelimited_add(C_BLUE@, right_aligned(ago, 3));
    lemma_undelimited_add(C_BLUE@ + right_aligned(ago, 3), " "@);
    lemma_undelimited_add(C_BLUE@ + right_aligned(ago, 3) + " "@, C_RESET@);
    lemma_undelimited_add(col, disp);
    lemma_undelimited_add(col + disp, C_RESET@);
    lemma_undelimited_add(C_DIM@, " ×"@);
    lemma_undelimited_add(C_DIM@ + " ×"@, count);
    lemma_undelimited_add(C_DIM@ + " ×"@ + count, C_RESET@);
    let last = if count.len() == 0 {
        c
    } else {
        c + sep + d
    };
    lemma_first_field(c, d);
    lemma_first_field(d, d);
    lemma_first_field(b, last);
    lemma_first_field(a, b + sep + last);
    lemma_first_field(id, a + sep + (b + sep + last));
    assert(line =~= id + sep + (a + sep + (b + sep + last)));
}

/// The fields of a finished command's row. They are its ID; its duration and
/// its age, each in its color with a gap behind it; the command, red where it
/// failed; and its count where it stands for more than one.
pub proof fn law_fields_of_a_row(row: RowView, now: int)
    requires
        undelimited(row.id),
    ensures
        ({
            let cut = fields(row_line(row, now));
            let reset = "\x1b[0m"@;
            &&& cut.len() == if row.count > 1 {
                5int
            } else {
                4
            }
            &&& cut[0] == row.id
            &&& cut[1] == "\x1b[2m"@ + right_aligned(duration(row.entry.m as int), 6) + " "@ + reset
            &&& cut[2] == "\x1b[34m"@ + right_aligned(age(now - row.entry.t), 3) + " "@ + reset
            &&& row.entry.x > 0 ==> cut[3] == "\x1b[31m"@ + shown_command(row.entry.c) + reset
            &&& row.entry.x <= 0 ==> cut[3] == shown_command(row.entry.c) + reset
            &&& row.count > 1 ==> cut[4] == "\x1b[2m"@ + " ×"@ + decimal(row.count) + reset
        }),
{
    lemma_colors_undelimited();
    lemma_duration_undelimited(row.entry.m as int);
    lemma_age_undelimited(now - row.entry.t);
    lemma_command_undelimited(row.entry.c);
    if row.count > 1 {
        lemma_decimal_undelimited(row.count);
        lemma_digits_number(row.count as nat, 10);
    }
    lemma_fields(
        row.id,
        duration(row.entry.m as int),
        age(now - row.entry.t),
        shown_count(row.count),
        status_color(row.entry.x),
        shown_command(row.entry.c),
    );
    assert(Seq::<char>::empty() + shown_command(row.entry.c) =~= shown_command(row.entry.c));
}

/// The command of a row is red just where it failed. Its field starts with the
/// color for every status above 0, and for no other; behind the color it is
/// what it would be without. No other field depends on the status.
pub proof fn law_failed_commands_are_red(row: RowView, ok: RowView, now: int)
    requires
        undelimited(row.id),
        ok.id == row.id,
        ok.count == row.count,
        ok.entry.t == row.entry.t,
        ok.entry.m == row.entry.m,
        ok.entry.c == row.entry.c,
        ok.entry.x == 0,
    ensures
        ({
            let red = seq!['\x1b', '[', '3', '1', 'm'];
            let cut = fields(row_line(row, now));
            let plain = fields(row_line(ok, now));
            &&& cut.len() == plain.len()
            &&& cut.len() >= 4
            &&& (cut[3].len() >= 5 && cut[3].take(5) == red) <==> row.entry.x > 0
            &&& row.entry.x > 0 ==> cut[3] == red + plain[3]
            &&& row.entry.x <= 0 ==> cut[3] == plain[3]
            &&& forall|k: int| 0 <= k < cut.len() && k != 3 ==> #[trigger] cut[k] == plain[k]
        }),
{
    law_fields_of_a_row(row, now);
    law_fields_of_a_row(ok, now);
    reveal_strlit("\x1b[31m");
    reveal_strlit("\x1b[0m");
    let red = seq!['\x1b', '[', '3', '1', 'm'];
    assert("\x1b[31m"@ =~= red);
    let disp = shown_command(row.entry.c);
    let reset = "\x1b[0m"@;
    let field = fields(row_line(row, now))[3];
    law_shown_commands_are_printable(row.entry.c);
    if row.entry.x > 0 {
        assert(red + disp + reset =~= red + (disp + reset));
        assert(field.take(5) =~= red);
    } else if field.len() >= 5 && field.take(5) == red {
        assert(field[0] == red[0]) by {
            assert(field.take(5)[0] == field[0]);
        }
        if disp.len() > 0 {
            assert(field[0] == disp[0]);
            assert(is_control('\x1b'));
        } else {
            assert(field.take(5)[2] == field[2]);
            assert(field[2] == reset[2]);
        }
    }
}

/// The fields of a running command's row. They are its ID; the time since it
/// started, which is none before that; dots for its age; and the command,
/// dimmed.
pub proof fn law_fields_of_a_running_row(row: RowView, now: int)
    requires
        undelimited(row.id),
    ensures
        ({
            let cut = fields(running_line(row, now));
            let reset = "\x1b[0m"@;
            let ran = now - row.entry.t;
            &&& cut.len() == 4
            &&& cut[0] == row.id
            &&& ran <= 0 ==> cut[1] == "\x1b[2m"@ + right_aligned(Seq::empty(), 6) + " "@ + reset
            &&& 0 < ran && ran * 1000 <= i64::MAX ==> cut[1] == "\x1b[2m"@ + right_aligned(
                duration(ran * 1000),
                6,
            ) + " "@ + reset
            &&& ran * 1000 > i64::MAX ==> cut[1] == "\x1b[2m"@ + right_aligned(
                duration(i64::MAX as int),
                6,
            ) + " "@ + reset
            &&& cut[2] == "\x1b[34m"@ + "..."@ + " "@ + reset
            &&& cut[3] == "\x1b[2m"@ + shown_command(row.entry.c) + reset
        }),
{
    lemma_colors_undelimited();
    lemma_duration_undelimited(elapsed(row.entry.t as int, now));
    lemma_command_undelimited(row.entry.c);
    lemma_fields(
        row.id,
        duration(elapsed(row.entry.t as int, now)),
        "..."@,
        Seq::empty(),
        C_DIM@,
        shown_command(row.entry.c),
    );
    reveal_strlit("...");
    assert(right_aligned("..."@, 3) =~= "..."@);
}

proof fn lemma_counts_its_unit(unit: int, n: int, rest: int)
    requires
        0 <= rest < unit,
    ensures
        (unit * n + rest) / unit == n,
        (unit * n + rest) % unit == rest,
{
    assert(unit * n + rest == n * unit + rest) by (nonlinear_arith);
    lemma_fundamental_div_mod_converse(unit * n + rest, unit, n, rest);
}

proof fn lemma_counts_its_units(unit: int, part: int, n: int, k: int, rest: int)
    requires
        0 <= part * k,
        part * k + rest < unit,
        0 <= rest < part,
    ensures
        (unit * n + part * k + rest) / unit == n,
        (unit * n + part * k + rest) % unit / part == k,
{
    lemma_counts_its_unit(unit, n, part * k + rest);
    lemma_counts_its_unit(part, k, rest);
    assert(unit * n + part * k + rest == unit * n + (part * k + rest));
}

/// An age is given in the largest unit that it fills, and by how often it
/// fills it, whatever is left over.
pub proof fn law_ages_count_their_unit(n: int, rest: int)
    ensures
        n < 60 ==> age(n) == right_aligned(decimal(n), 2) + "s"@,
        1 <= n < 60 && 0 <= rest < 60 ==> age(60 * n + rest) == right_aligned(decimal(n), 2)
            + "m"@,
        1 <= n < 24 && 0 <= rest < 3600 ==> age(3600 * n + rest) == right_aligned(decimal(n), 2)
            + "h"@,
        1 <= n < 7 && 0 <= rest < 86_400 ==> age(86_400 * n + rest) == right_aligned(decimal(n), 2)
            + "d"@,
        1 <= n < 52 && 0 <= rest < 604_800 ==> age(604_800 * n + rest) == right_aligned(
            decimal(n),
            2,
        ) + "w"@,
        1 <= n && 0 <= rest < 31_449_600 ==> age(31_449_600 * n + rest) == right_aligned(
            decimal(n),
            2,
        ) + "y"@,
{
    if 0 <= rest < 60 {
        lemma_counts_its_unit(60, n, rest);
    }
    if 0 <= rest < 3600 {
        lemma_counts_its_unit(3600, n, rest);
    }
    if 0 <= rest < 86_400 {
        lemma_counts_its_unit(86_400, n, rest);
    }
    if 0 <= rest < 604_800 {
        lemma_counts_its_unit(604_800, n, rest);
    }
    if 0 <= rest < 31_449_600 {
        lemma_counts_its_unit(31_449_600, n, rest);
    }
}

/// A short duration is given by its milliseconds, and from a second on by its
/// seconds and tenths, whatever is left over. An unknown one is not given.
pub proof fn law_short_durations_count_their_units(n: int, k: int, rest: int)
    ensures
        n <= 0 ==> duration(n).len() == 0,
        1 <= n < 1000 ==> duration(n) == decimal(n) + "ms"@,
        1 <= n < 60 && 0 <= k < 10 && 0 <= rest < 100 ==> duration(1000 * n + 100 * k + rest)
            == decimal(n) + "."@ + decimal(k) + "s"@,
{
    if 1 <= n < 60 && 0 <= k < 10 && 0 <= rest < 100 {
        lemma_counts_its_units(1000, 100, n, k, rest);
    }
}

/// From a minute on a duration is given by its two largest units, whatever is
/// left over: minutes and seconds, hours and minutes, days and hours, months
/// of 30 days and days, years of 12 months and months.
pub proof fn law_long_durations_count_their_units(n: int, k: int, rest: int)
    requires
        n >= 1,
        k >= 0,
        rest >= 0,
    ensures
        n < 60 && k < 60 && rest < 1000 ==> duration(60_000 * n + 1000 * k + rest) == decimal(n)
            + "m"@ + two_digits(k) + "s"@,
        n < 24 && k < 60 && rest < 60_000 ==> duration(3_600_000 * n + 60_000 * k + rest)
            == decimal(n) + "h"@ + two_digits(k) + "m"@,
        n < 30 && k < 24 && rest < 3_600_000 ==> duration(86_400_000 * n + 3_600_000 * k + rest)
            == decimal(n) + "d"@ + two_digits(k) + "h"@,
        n < 12 && k < 30 && rest < 86_400_000 ==> duration(
            2_592_000_000 * n + 86_400_000 * k + rest,
        ) == decimal(n) + "m"@ + two_digits(k) + "d"@,
        k < 12 && rest < 2_592_000_000 ==> duration(
            31_104_000_000 * n + 2_592_000_000 * k + rest,
        ) == decimal(n) + "y"@ + two_digits(k) + "m"@,
{
    if n < 60 && k < 60 && rest < 1000 {
        lemma_counts_its_units(60_000, 1000, n, k, rest);
    }
    if n < 24 && k < 60 && rest < 60_000 {
        lemma_counts_its_units(3_600_000, 60_000, n, k, rest);
    }
    if n < 30 && k < 24 && rest < 3_600_000 {
        lemma_counts_its_units(86_400_000, 3_600_000, n, k, rest);
    }
    if n < 12 && k < 30 && rest < 86_400_000 {
        lemma_counts_its_units(2_592_000_000, 86_400_000, n, k, rest);
    }
    if k < 12 && rest < 2_592_000_000 {
        lemma_counts_its_units(31_104_000_000, 2_592_000_000, n, k, rest);
    }
}

/// The smaller unit of a duration has two digits, and reads as it did.
pub proof fn law_smaller_units_have_two_digits(k: int)
    requires
        0 <= k < 100,
    ensures
        two_digits(k).len() == 2,
        parsed(two_digits(k), 10, 0, 99) == Some(k),
{
    let s = two_digits(k);
    reveal_strlit("0");
    reveal_with_fuel(digits, 3);
    reveal_with_fuel(number, 3);
    let (a, b) = (digit_char(k / 10), digit_char(k % 10));
    assert(s =~= seq![a, b]);
    assert(s.drop_last() =~= seq![a]);
    assert(seq![a].drop_last() =~= Seq::<char>::empty());
    assert(digit_value(a) == Some(k / 10) && digit_value(b) == Some(k % 10));
    assert(s[0] == a && s[1] == b);
    assert(is_digits(s, 10));
}

/// Whether a character is shown.
pub open spec fn is_shown(c: char) -> bool {
    !is_control(c) || c == '\t'
}

proof fn lemma_filter_whole(s: Seq<char>)
    requires
        forall|k: int| 0 <= k < s.len() ==> is_shown(#[trigger] s[k]),
    ensures
        s.filter(|ch: char| !is_control(ch) || ch == '\t') == s,
    decreases s.len(),
{
    reveal(Seq::filter);
    if s.len() > 0 {
        assert forall|k: int| 0 <= k < s.len() - 1 implies is_shown(#[trigger] s.drop_last()[k]) by {
            assert(s.drop_last()[k] == s[k]);
        }
        lemma_filter_whole(s.drop_last());
        assert(is_shown(s[s.len() - 1]));
        assert(s.drop_last().push(s.last()) =~= s);
    }
}

/// A command of one line without control characters is shown whole, tabs and
/// all. Of one of several lines the first is shown, and a mark.
pub proof fn law_commands_are_shown_whole(c: Seq<char>, more: Seq<char>)
    requires
        forall|k: int| 0 <= k < c.len() ==> !is_control(#[trigger] c[k]) || c[k] == '\t',
    ensures
        shown_command(c) == c,
        shown_command(c.push('\n') + more) == c + seq![' ', '⏎'],
{
    assert forall|k: int| 0 <= k < c.len() implies is_shown(#[trigger] c[k]) && c[k] != '\n' by {
        assert(is_control('\n'));
        assert(!is_control(c[k]) || c[k] == '\t');
    }
    lemma_position(c, '\n');
    lemma_filter_whole(c);
    law_split_undoes_joining(c, '\n', more);
    reveal_strlit(" ⏎");
    let text = c + " ⏎"@;
    assert(" ⏎"@ =~= seq![' ', '⏎']);
    assert forall|k: int| 0 <= k < text.len() implies is_shown(#[trigger] text[k]) by {
        if k < c.len() {
            assert(text[k] == c[k]);
            assert(is_shown(c[k]));
        } else {
            assert(text[k] == " ⏎"@[k - c.len()]);
        }
    }
    lemma_filter_whole(text);
    lemma_position(c.push('\n') + more, '\n');
}

proof fn lemma_filter_over(a: Seq<char>, b: Seq<char>, f: spec_fn(char) -> bool)
    ensures
        (a + b).filter(f) == a.filter(f) + b.filter(f),
    decreases b.len(),
{
    reveal(Seq::filter);
    if b.len() == 0 {
        assert(a + b =~= a);
        assert(a.filter(f) + b.filter(f) =~= a.filter(f));
    } else {
        assert((a + b).drop_last() =~= a + b.drop_last());
        lemma_filter_over(a, b.drop_last(), f);
        assert((a + b).filter(f) =~= a.filter(f) + b.filter(f));
    }
}

/// A control character, other than a tab or the newline that ends the first
/// line, makes no difference to what is shown.
pub proof fn law_control_characters_are_left_out(a: Seq<char>, ch: char, b: Seq<char>)
    requires
        is_control(ch),
        ch != '\t',
        ch != '\n',
    ensures
        shown_command(a.push(ch) + b) == shown_command(a + b),
{
    let f = |c: char| !is_control(c) || c == '\t';
    let with = a.push(ch) + b;
    let without = a + b;
    let one = seq![ch];
    lemma_position(with, '\n');
    lemma_position(without, '\n');
    let p = position(with, '\n');
    let q = position(without, '\n');
    assert(one.filter(f) =~= Seq::<char>::empty()) by {
        reveal_with_fuel(Seq::filter, 2);
        assert(one.drop_last() =~= Seq::<char>::empty());
    }
    if q < a.len() {
        assert(with[q] == without[q]);
        assert(p <= q);
        assert(with[p] == without[p]);
        assert(p == q);
        assert(with.take(p) =~= without.take(q));
    } else {
        if p < a.len() {
            assert(with[p] == without[p]);
        }
        assert(with[a.len() as int] == ch);
        assert(p > a.len());
        if p < with.len() {
            assert(without[p - 1] == with[p]);
        }
        if q < without.len() {
            assert(with[q + 1] == without[q]);
        }
        assert(p == q + 1);
        let tail = b.take(q - a.len());
        let (x, y) = if q < without.len() {
            (a + one + tail + " ⏎"@, a + tail + " ⏎"@)
        } else {
            (with, without)
        };
        let end = if q < without.len() {
            tail + " ⏎"@
        } else {
            b
        };
        if q < without.len() {
            assert(with.take(p) =~= a + one + tail);
            assert(without.take(q) =~= a + tail);
        }
        assert(x =~= a + (one + end));
        assert(y =~= a + end);
        lemma_filter_over(a, one + end, f);
        lemma_filter_over(one, end, f);
        lemma_filter_over(a, end, f);
        assert(x.filter(f) =~= y.filter(f));
    }
}

proof fn lemma_escape_end_shift(whole: Seq<char>, base: int, i: int)
    requires
        0 <= base <= whole.len(),
        0 <= i <= whole.len() - base,
    ensures
        escape_end(whole, base + i) == base + escape_end(whole.skip(base), i),
    decreases whole.len() - base - i,
{
    let s = whole.skip(base);
    if i < s.len() {
        assert(s[i] == whole[base + i]);
        if !('@' <= s[i] <= '~') {
            lemma_escape_end_shift(whole, base, i + 1);
        }
    }
}

proof fn lemma_columns_shift(whole: Seq<char>, base: int, i: int)
    requires
        0 <= base <= whole.len(),
        0 <= i <= whole.len() - base,
    ensures
        columns(whole, base + i) == columns(whole.skip(base), i),
    decreases whole.len() - base - i,
{
    let s = whole.skip(base);
    if i < s.len() {
        assert(s[i] == whole[base + i]);
        if i + 1 < s.len() {
            assert(s[i + 1] == whole[base + i + 1]);
            lemma_escape_end_shift(whole, base, i + 2);
        }
        lemma_drawn_end(s, i);
        assert(drawn_end(whole, base + i) == base + drawn_end(s, i));
        lemma_columns_shift(whole, base, drawn_end(s, i));
    }
}

/// Columns add up: a character that starts no escape sequence draws its own,
/// a tab one, a control character none, and what follows draws what it would
/// draw alone.
pub proof fn law_columns_add_up(c: char, rest: Seq<char>)
    requires
        c != '\x1b',
    ensures
        columns(seq![c] + rest, 0) == columns(rest, 0) + if c == '\t' {
            1
        } else {
            match char_columns(c) {
                Some(n) => n,
                None => 0,
            }
        },
        columns(Seq::empty(), 0) == 0,
{
    let s = seq![c] + rest;
    assert(s[0] == c);
    assert(s.skip(1) =~= rest);
    lemma_columns_shift(s, 1, 0);
}

proof fn lemma_escape_end_at(s: Seq<char>, i: int, end: int)
    requires
        0 <= i <= end < s.len(),
        forall|k: int| i <= k < end ==> !('@' <= #[trigger] s[k] <= '~'),
        '@' <= s[end] <= '~',
    ensures
        escape_end(s, i) == end + 1,
    decreases end - i,
{
    if i < end {
        assert(!('@' <= s[i] <= '~'));
        lemma_escape_end_at(s, i + 1, end);
    }
}

/// An escape sequence draws nothing: neither a color, with any parameters, nor
/// an escape with any other character behind it.
pub proof fn law_escapes_draw_nothing(params: Seq<char>, last: char, c: char, rest: Seq<char>)
    requires
        forall|k: int| 0 <= k < params.len() ==> !('@' <= #[trigger] params[k] <= '~'),
        '@' <= last <= '~',
        c != '[',
    ensures
        columns(seq!['\x1b', '['] + params.push(last) + rest, 0) == columns(rest, 0),
        columns(seq!['\x1b', c] + rest, 0) == columns(rest, 0),
        columns(seq!['\x1b'], 0) == 0,
{
    let head = seq!['\x1b', '['] + params.push(last);
    let s = head + rest;
    let end = head.len() - 1;
    assert(s[0] == '\x1b' && s[1] == '[');
    assert(s[end] == last);
    assert forall|k: int| 2 <= k < end implies !('@' <= #[trigger] s[k] <= '~') by {
        assert(s[k] == params[k - 2]);
    }
    lemma_escape_end_at(s, 2, end);
    assert(s.skip(end + 1) =~= rest);
    lemma_columns_shift(s, end + 1, 0);
    let two = seq!['\x1b', c] + rest;
    assert(two[0] == '\x1b' && two[1] == c);
    assert(two.skip(2) =~= rest);
    lemma_columns_shift(two, 2, 0);
    reveal_with_fuel(columns, 2);
    assert(seq!['\x1b'][0] == '\x1b');
}

proof fn lemma_text_lines_shift(whole: Seq<char>, base: int, p: int)
    requires
        0 <= base <= whole.len(),
        0 <= p <= whole.len() - base,
    ensures
        newline_from(whole, base + p) == base + newline_from(whole.skip(base), p),
        text_lines(whole, base + p) == text_lines(whole.skip(base), p),
    decreases whole.len() - base - p,
{
    let s = whole.skip(base);
    if p < s.len() {
        lemma_newline_shift(whole, base, p);
        lemma_newline_from(s, p);
        let q = newline_from(s, p);
        assert(s.subrange(p, q) =~= whole.subrange(base + p, base + q));
        assert(s.subrange(p, s.len() as int) =~= whole.subrange(base + p, whole.len() as int));
        if q < s.len() {
            lemma_text_lines_shift(whole, base, q + 1);
        }
    }
}

proof fn lemma_newline_shift(whole: Seq<char>, base: int, p: int)
    requires
        0 <= base <= whole.len(),
        0 <= p <= whole.len() - base,
    ensures
        newline_from(whole, base + p) == base + newline_from(whole.skip(base), p),
    decreases whole.len() - base - p,
{
    let s = whole.skip(base);
    if p < s.len() {
        assert(s[p] == whole[base + p]);
        if s[p] != '\n' {
            lemma_newline_shift(whole, base, p + 1);
        }
    }
}

proof fn lemma_newline_at(s: Seq<char>, p: int, end: int)
    requires
        0 <= p <= end <= s.len(),
        forall|k: int| p <= k < end ==> #[trigger] s[k] != '\n',
        end < s.len() ==> s[end] == '\n',
    ensures
        newline_from(s, p) == end,
    decreases end - p,
{
    if p < end {
        assert(s[p] != '\n');
        lemma_newline_at(s, p + 1, end);
    }
}

/// The lines of a text come one by one: what stands before a newline, without
/// a carriage return at its end, then the lines behind it. What stands behind
/// the last newline is a line if it is anything.
pub proof fn law_text_lines_come_one_by_one(line: Seq<char>, rest: Seq<char>)
    requires
        forall|k: int| 0 <= k < line.len() ==> #[trigger] line[k] != '\n',
    ensures
        text_lines(line.push('\n') + rest, 0) == seq![
            if line.len() > 0 && line.last() == '\r' {
                line.drop_last()
            } else {
                line
            },
        ] + text_lines(rest, 0),
        line.len() > 0 ==> text_lines(line, 0) == seq![line],
        text_lines(Seq::empty(), 0).len() == 0,
{
    let s = line.push('\n') + rest;
    let n = line.len() as int;
    assert(s[n] == '\n');
    assert forall|k: int| 0 <= k < n implies #[trigger] s[k] != '\n' by {
        assert(s[k] == line[k]);
    }
    lemma_newline_at(s, 0, n);
    assert(s.subrange(0, n) =~= line);
    assert(s.skip(n + 1) =~= rest);
    lemma_text_lines_shift(s, n + 1, 0);
    if n > 0 {
        lemma_newline_at(line, 0, n);
        assert(line.subrange(0, n) =~= line);
    }
}

/// A line takes as many lines of the preview as hold it and no more; an empty
/// one takes one.
pub proof fn law_wrapped_lines_hold_the_line(width: int, text: int)
    requires
        width >= 0,
        text >= 1,
    ensures
        wrapped(width, text) >= 1,
        wrapped(width, text) * text >= width,
        wrapped(width, text) > 1 ==> (wrapped(width, text) - 1) * text < width,
{
    lemma_wrapped(width, text);
    let q = width / text;
    let m = width % text;
    let n = wrapped(width, text);
    assert(width == q * text + m && 0 <= m < text) by (nonlinear_arith)
        requires
            q == width / text,
            m == width % text,
            text >= 1,
    ;
    assert((q + 1) * text == q * text + text) by (nonlinear_arith);
    assert((q - 1) * text == q * text - text) by (nonlinear_arith);
}

/// The lines of a preview add up over the lines of the command.
pub proof fn law_wrapped_lines_add_up(a: Seq<usize>, w: usize, text: int)
    ensures
        all_wrapped(a.push(w), text) == all_wrapped(a, text) + wrapped(w as int, text),
        all_wrapped(Seq::empty(), text) == 0,
{
    assert(a.push(w).drop_last() =~= a);
}

/// How tall a preview is. A window that is too narrow yet counts as one of 80
/// columns. There is none for a command of one line that the row has room for,
/// beside its other fields and its count; for any other it is as tall as its
/// lines are in a window four columns narrower, ten lines at most.
pub proof fn law_previews_are_as_tall_as_needed(widths: Seq<usize>, cols: int, count: int)
    requires
        cols >= 0,
    ensures
        cols < 24 ==> fitted(widths, cols, count) == fitted(widths, 80, count),
        widths.len() == 0 ==> fitted(widths, cols, count) is None,
        cols >= 24 && widths.len() == 1 ==> (fitted(widths, cols, count) is None <==> widths[0] == 0
            || widths[0] + 14 + (if count > 1 {
            2 + decimal(count).len()
        } else {
            0
        }) <= cols),
        cols >= 24 && widths.len() > 1 ==> fitted(widths, cols, count) is Some,
        cols >= 24 ==> (fitted(widths, cols, count) matches Some(n) ==> n == if all_wrapped(
            widths,
            cols - 4,
        ) < 10 {
            all_wrapped(widths, cols - 4)
        } else {
            10
        }),
{
}

/// The lines of a command are as wide as they are drawn, each of them.
pub proof fn law_lines_are_as_wide_as_drawn(lines: Seq<Seq<char>>, widths: Seq<usize>, k: int)
    requires
        have_widths(lines, widths),
        0 <= k < lines.len(),
    ensures
        widths.len() == lines.len(),
        widths[k] == columns(lines[k], 0),
{
}

} // verus!
