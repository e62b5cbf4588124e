//! The rows a picker asks for, read back from the end of the file just as far
//! as the answer needs.

use vstd::prelude::*;
use vstd::slice::slice_subrange;
use crate::entry::{row_views, Query, Row, RowView, StoreError};
use crate::ids::{id_text, make_id};
use crate::order::{lemma_newest_order, newest_order};
use crate::rows::{
    all_single, counted, fold_runs, folded, in_time_order, is_run, is_wanted,
    law_directory_selects, law_folded_rows_are_runs, law_folding_goes_front_to_back,
    law_later_rows_are_the_last, law_newest_first, law_row_stands_at_its_offset,
    law_rows_of_the_rest, law_time_order_is_reversed, lemma_newest_single, lemma_rows_single,
    newest_first, read_row, read_rows, row_at, rows_from, sort_and_fold, sort_rows, times, views,
    wanted, StoredRow, StoredRowView,
};
use crate::scan::{
    end_of_content, find_newline_back, lemma_few_newlines, lemma_line_before, lemma_line_end,
    lemma_line_end_without, lemma_line_start, lemma_line_start_shift, lemma_newline_back_over,
    lemma_newline_back_same, lemma_newline_back_shift, line_end, line_start_back,
    line_start_before, newline_back, nth_line_start_from_end,
};
use crate::text::text_view;

verus! {

/// The last `n` of the rows, or all where there are fewer.
pub open spec fn last_of(rows: Seq<StoredRowView>, n: int) -> Seq<StoredRowView> {
    if rows.len() > n {
        rows.skip(rows.len() - n)
    } else {
        rows
    }
}

/// The first `n` of the rows, or all where there are fewer.
pub open spec fn first_of(rows: Seq<StoredRowView>, n: int) -> Seq<StoredRowView> {
    if rows.len() > n {
        rows.take(n)
    } else {
        rows
    }
}

/// The rows that a limited query has when it reads from `from` on: with
/// `uniq` the folded rows, newest first, without it the last `want` in file
/// order.
pub open spec fn window_rows(
    d: Seq<u8>,
    base: int,
    from: int,
    dir: Option<Seq<char>>,
    want: int,
    uniq: bool,
) -> Result<Seq<StoredRowView>, StoreError> {
    match rows_from(d, base, from, dir) {
        Err(e) => Err(e),
        Ok(rows) => Ok(
            if uniq {
                folded(newest_first(rows))
            } else {
                last_of(rows, want)
            },
        ),
    }
}

/// Where reading starts: at the last `window` lines, or at four times as many,
/// and so on, until there are `want` rows or the file has no more. `d` is the
/// file from the offset `base` on; None where that is not enough of it.
pub open spec fn tail_start(
    d: Seq<u8>,
    base: int,
    window: int,
    dir: Option<Seq<char>>,
    want: int,
    uniq: bool,
) -> Option<Result<int, StoreError>>
    decreases (if window <= d.len() { d.len() - window + 1 } else { 0 }),
{
    let (from, hit) = line_start_back(d, window);
    if hit && base > 0 {
        None
    } else {
        match window_rows(d, base, from, dir, want, uniq) {
            Err(e) => Some(Err(e)),
            Ok(rows) => if rows.len() >= want || hit {
                Some(Ok(from))
            } else {
                proof {
                    lemma_few_newlines(d, end_of_content(d), window);
                }
                tail_start(d, base, 4 * window, dir, want, uniq)
            },
        }
    }
}

/// How many wanted rows directly before `end` go on with a run of the command
/// `c`, none of them newer than the one behind it, which started at `t`. A
/// line that holds no row ends the run. None where `d`, the file from the
/// offset `base` on, is not enough of it.
pub open spec fn repeats_before(
    d: Seq<u8>,
    base: int,
    end: int,
    dir: Option<Seq<char>>,
    c: Seq<char>,
    t: i64,
) -> Option<int>
    decreases end,
{
    if !(0 < end <= d.len()) {
        if base > 0 {
            None
        } else {
            Some(0)
        }
    } else if newline_back(d, end - 1, 1) is None && base > 0 {
        None
    } else {
        let start = line_start_before(d, end);
        proof {
            lemma_line_before(d, end);
        }
        match row_at(d.subrange(start, end), base + start) {
            Err(_) => Some(0),
            Ok(row) => if !wanted(dir, row.entry.d) {
                repeats_before(d, base, start, dir, c, t)
            } else if row.entry.c == c && row.entry.t <= t {
                match repeats_before(d, base, start, dir, c, row.entry.t) {
                    Some(n) => Some(n + 1),
                    None => None,
                }
            } else {
                Some(0)
            },
        }
    }
}

/// How many rows before `from` belong to the last run that is shown of `rows`,
/// the rows from there on: none, where another run follows it.
pub open spec fn further_repeats(
    d: Seq<u8>,
    base: int,
    from: int,
    dir: Option<Seq<char>>,
    rows: Seq<StoredRowView>,
    want: int,
) -> Option<int> {
    if folded(newest_first(rows)).len() == want {
        let oldest = newest_first(rows).last().entry;
        repeats_before(d, base, from, dir, oldest.c, oldest.t)
    } else {
        Some(0)
    }
}

/// Folded rows, the last of them standing for `n` rows more.
pub open spec fn counting_on(f: Seq<StoredRowView>, n: int) -> Seq<StoredRowView> {
    if f.len() == 0 {
        f
    } else {
        f.update(f.len() - 1, StoredRowView { count: f.last().count + n, ..f.last() })
    }
}

/// The answer to a query as stored rows. A limit selects by position in the
/// file; without repeats, what stands before the selected rows only completes
/// the count of the last one shown.
pub open spec fn found_rows(
    d: Seq<u8>,
    base: int,
    dir: Option<Seq<char>>,
    limit: Option<usize>,
    uniq: bool,
) -> Option<Result<Seq<StoredRowView>, StoreError>> {
    match limit {
        None => if base > 0 {
            None
        } else {
            Some(
                match rows_from(d, base, 0, dir) {
                    Err(e) => Err(e),
                    Ok(rows) => Ok(
                        if uniq {
                            folded(newest_first(rows))
                        } else {
                            newest_first(rows)
                        },
                    ),
                },
            )
        },
        Some(want) => if want == 0 {
            Some(Ok(Seq::empty()))
        } else {
            match tail_start(d, base, want as int, dir, want as int, uniq) {
                None => None,
                Some(Err(e)) => Some(Err(e)),
                Some(Ok(from)) => {
                    let rows = rows_from(d, base, from, dir)->Ok_0;
                    if uniq {
                        match further_repeats(d, base, from, dir, rows, want as int) {
                            None => None,
                            Some(n) => Some(
                                Ok(
                                    first_of(
                                        counting_on(folded(newest_first(rows)), n),
                                        want as int,
                                    ),
                                ),
                            ),
                        }
                    } else {
                        Some(Ok(newest_first(last_of(rows, want as int))))
                    }
                },
            }
        },
    }
}

/// A stored row as the picker gets it.
pub open spec fn shown_row(r: StoredRowView) -> RowView {
    RowView { entry: r.entry, id: id_text(r.offset, r.i as int), count: r.count }
}

/// Stored rows as the picker gets them.
pub open spec fn shown(rows: Seq<StoredRowView>) -> Seq<RowView> {
    rows.map_values(|r: StoredRowView| shown_row(r))
}

/// The answer to a query: the rows, newest first, or why the file cannot be
/// read. None where `d`, the file from the offset `base` on, is not enough of
/// it.
pub open spec fn answer(
    d: Seq<u8>,
    base: int,
    dir: Option<Seq<char>>,
    limit: Option<usize>,
    uniq: bool,
) -> Option<Result<Seq<RowView>, StoreError>> {
    match found_rows(d, base, dir, limit, uniq) {
        None => None,
        Some(Err(e)) => Some(Err(e)),
        Some(Ok(rows)) => Some(Ok(shown(rows))),
    }
}

fn keep_last(rows: Vec<StoredRow>, n: usize) -> (r: Vec<StoredRow>)
    ensures
        views(r@) == last_of(views(rows@), n as int),
{
    if rows.len() > n {
        let mut all: Vec<StoredRow> = rows;
        let cut: usize = all.len() - n;
        let last: Vec<StoredRow> = all.split_off(cut);
        assert(views(last@) =~= last_of(views(rows@), n as int));
        last
    } else {
        rows
    }
}

/// What was read of a window: its rows, where it starts, and when the oldest
/// of its rows started.
struct Window {
    rows: Vec<StoredRow>,
    from: usize,
    oldest: i64,
}

impl Window {
    /// Whether these are the rows of the window that starts at `self.from`.
    spec fn holds(
        &self,
        d: Seq<u8>,
        base: int,
        dir: Option<Seq<char>>,
        want: int,
        uniq: bool,
    ) -> bool {
        &&& self.from <= d.len()
        &&& window_rows(d, base, self.from as int, dir, want, uniq) == Ok::<_, StoreError>(
            views(self.rows@),
        )
        &&& uniq && self.rows@.len() > 0 ==> self.oldest == newest_first(
            rows_from(d, base, self.from as int, dir)->Ok_0,
        ).last().entry.t
    }
}

/// Reads `from`..EOF filtered by `dir`; with `uniq`, sorts newest-first and
/// folds consecutive repeats, counting each run.
fn read_window(
    d: &[u8],
    base: u64,
    from: usize,
    dir: &Option<String>,
    want: usize,
    uniq: bool,
) -> (r: Result<Window, StoreError>)
    requires
        base + d@.len() <= u64::MAX,
        from <= d@.len(),
    ensures
        match r {
            Ok(w) => w.holds(d@, base as int, text_view(*dir), want as int, uniq) && w.from == from,
            Err(e) => window_rows(
                d@,
                base as int,
                from as int,
                text_view(*dir),
                want as int,
                uniq,
            ) == Err::<Seq<StoredRowView>, StoreError>(e),
        },
{
    proof {
        lemma_rows_single(d@, base as int, from as int, text_view(*dir));
    }
    match read_rows(d, base, from, dir) {
        Err(e) => Err(e),
        Ok(rows) => if uniq {
            let ghost read = views(rows@);
            proof {
                lemma_newest_single(read);
            }
            let sorted: Vec<StoredRow> = sort_rows(rows);
            let mut oldest: i64 = 0;
            if sorted.len() > 0 {
                oldest = sorted[sorted.len() - 1].entry.t;
                assert(newest_first(read).last() == sorted@[sorted@.len() - 1]@);
            }
            Ok(Window { rows: fold_runs(sorted), from, oldest })
        } else {
            Ok(Window { rows: keep_last(rows, want), from, oldest: 0 })
        },
    }
}

/// Reads back far enough to yield `want` matching rows, widening the window
/// for a sparse `dir` filter or, with `uniq`, for folded shrinkage.
fn read_tail(d: &[u8], base: u64, want: usize, dir: &Option<String>, uniq: bool) -> (r: Option<
    Result<Window, StoreError>,
>)
    requires
        base + d@.len() <= u64::MAX,
        want > 0,
    ensures
        ({
            let start = tail_start(
                d@,
                base as int,
                want as int,
                text_view(*dir),
                want as int,
                uniq,
            );
            match r {
                None => start is None,
                Some(Ok(w)) => start == Some(Ok::<int, StoreError>(w.from as int)) && w.holds(
                    d@,
                    base as int,
                    text_view(*dir),
                    want as int,
                    uniq,
                ),
                Some(Err(e)) => start == Some(Err::<int, StoreError>(e)),
            }
        }),
{
    let ghost w = text_view(*dir);
    let size: usize = d.len();
    let mut window: usize = want;
    loop
        invariant
            base + d@.len() <= u64::MAX,
            d@.len() == size,
            window > 0,
            w == text_view(*dir),
            tail_start(d@, base as int, want as int, w, want as int, uniq) == tail_start(
                d@,
                base as int,
                window as int,
                w,
                want as int,
                uniq,
            ),
        decreases usize::MAX - window,
    {
        let (from, hit) = nth_line_start_from_end(d, window);
        if hit && base > 0 {
            return None;
        }
        match read_window(d, base, from, dir, want, uniq) {
            Err(e) => {
                return Some(Err(e));
            },
            Ok(read) => {
                if read.rows.len() >= want || hit {
                    return Some(Ok(read));
                }
            },
        }
        // Quadrupling keeps the re-read count logarithmic; the discarded
        // work stays a constant factor of what the answer costs.
        match window.checked_mul(4) {
            Some(wider) => {
                window = wider;
            },
            None => {
                proof {
                    lemma_few_newlines(d@, end_of_content(d@), 4 * window);
                    assert(line_start_back(d@, 4 * window) == (0int, true));
                    reveal_with_fuel(tail_start, 2);
                }
                if base > 0 {
                    return None;
                }
                return Some(read_window(d, base, 0, dir, want, uniq));
            },
        }
    }
}

/// `n` more than what was counted.
spec fn and_more(n: int, counted: Option<int>) -> Option<int> {
    match counted {
        Some(k) => Some(n + k),
        None => None,
    }
}

/// Counts the rows directly before `end` that go on with a run.
fn count_before(d: &[u8], base: u64, end: usize, dir: &Option<String>, c: &String, t: i64) -> (r:
    Option<usize>)
    requires
        base + d@.len() <= u64::MAX,
        end <= d@.len(),
    ensures
        ({
            let n = repeats_before(d@, base as int, end as int, text_view(*dir), c@, t);
            match r {
                Some(k) => n == Some(k as int) && k <= end,
                None => n is None,
            }
        }),
{
    let ghost w = text_view(*dir);
    let mut p: usize = end;
    let mut last: i64 = t;
    let mut count: usize = 0;
    while p > 0
        invariant
            base + d@.len() <= u64::MAX,
            p <= end <= d@.len(),
            count <= end - p,
            w == text_view(*dir),
            repeats_before(d@, base as int, end as int, w, c@, t) == and_more(
                count as int,
                repeats_before(d@, base as int, p as int, w, c@, last),
            ),
        decreases p,
    {
        proof {
            lemma_line_before(d@, p as int);
        }
        let start: usize = match find_newline_back(d, p - 1, 1) {
            Some(at) => at + 1,
            None => {
                if base > 0 {
                    return None;
                }
                0
            },
        };
        match read_row(slice_subrange(d, start, p), base + start as u64) {
            Err(_) => {
                return Some(count);
            },
            Ok(row) => {
                if is_wanted(dir, &row.entry.d) {
                    if row.entry.c != *c || row.entry.t > last {
                        return Some(count);
                    }
                    count = count + 1;
                    last = row.entry.t;
                }
            },
        }
        p = start;
    }
    if base > 0 {
        None
    } else {
        Some(count)
    }
}

/// There are no more rows than bytes.
proof fn lemma_few_rows(d: Seq<u8>, base: int, from: int, dir: Option<Seq<char>>)
    requires
        0 <= from <= d.len(),
    ensures
        rows_from(d, base, from, dir) matches Ok(rows) ==> rows.len() <= d.len() - from,
    decreases d.len() - from,
{
    if from < d.len() {
        lemma_line_end(d, from);
        lemma_few_rows(d, base, line_end(d, from), dir);
    }
}

/// Completes the count of the last row that is shown and drops what is not.
fn complete(d: &[u8], base: u64, dir: &Option<String>, want: usize, read: Window) -> (r: Option<
    Vec<StoredRow>,
>)
    requires
        base + d@.len() <= u64::MAX,
        want > 0,
        read.holds(d@, base as int, text_view(*dir), want as int, true),
    ensures
        ({
            let from = read.from as int;
            let rows = rows_from(d@, base as int, from, text_view(*dir))->Ok_0;
            match further_repeats(d@, base as int, from, text_view(*dir), rows, want as int) {
                None => r is None,
                Some(n) => r matches Some(got) && views(got@) == first_of(
                    counting_on(folded(newest_first(rows)), n),
                    want as int,
                ),
            }
        }),
{
    let size: usize = d.len();
    assert(d@.len() == size);
    let ghost sorted = newest_first(
        rows_from(d@, base as int, read.from as int, text_view(*dir))->Ok_0,
    );
    let ghost f = folded(sorted);
    let mut rows: Vec<StoredRow> = read.rows;
    assert(views(rows@) == f);
    if rows.len() == want {
        let last: usize = rows.len() - 1;
        proof {
            let all = rows_from(d@, base as int, read.from as int, text_view(*dir))->Ok_0;
            lemma_rows_single(d@, base as int, read.from as int, text_view(*dir));
            lemma_newest_single(all);
            lemma_few_rows(d@, base as int, read.from as int, text_view(*dir));
            law_folded_rows_are_runs(sorted);
            assert(is_run(sorted, f, last as int));
            assert(views(rows@)[last as int] == rows@[last as int]@);
        }
        match count_before(d, base, read.from, dir, &rows[last].entry.c, read.oldest) {
            None => {
                return None;
            },
            Some(n) => {
                let count: usize = rows[last].count;
                rows[last].count = count + n;
                assert(views(rows@) =~= counting_on(f, n as int));
            },
        }
    } else {
        assert(counting_on(f, 0) =~= f);
    }
    Some(keep_first(rows, want))
}

/// Stored rows as the picker gets them.
pub fn into_rows(rows: Vec<StoredRow>) -> (r: Vec<Row>)
    ensures
        row_views(r@) == shown(views(rows@)),
{
    let ghost all = views(rows@);
    let mut out: Vec<Row> = Vec::new();
    for row in it: rows.into_iter()
        invariant
            views(it.seq()) == all,
            row_views(out@) == shown(all).take(it.index() as int),
    {
        let ghost v = row@;
        let ghost n = it.index() as int;
        assert(all[n] == v);
        let id: String = make_id(row.offset, row.i);
        let ghost sofar = row_views(out@);
        out.push(Row { entry: row.entry, id, count: row.count });
        assert(row_views(out@) =~= sofar.push(shown_row(v)));
        assert(shown(all).take(n + 1) =~= shown(all).take(n).push(shown_row(v)));
    }
    assert(shown(all).take(all.len() as int) =~= shown(all));
    out
}

fn keep_first(rows: Vec<StoredRow>, n: usize) -> (r: Vec<StoredRow>)
    ensures
        views(r@) == first_of(views(rows@), n as int),
{
    let mut first: Vec<StoredRow> = rows;
    if first.len() > n {
        first.truncate(n);
    }
    assert(views(first@) =~= first_of(views(rows@), n as int));
    first
}

/// Rows for the picker, newest first, from `d`, the file from the offset
/// `base` on; None where that is not enough of it. A limit selects by file
/// position and only then sorts by time; they differ only inside imported
/// history. What stands before the selected rows completes at most the count
/// of the last one.
pub fn query_part(d: &[u8], base: u64, q: &Query) -> (r: Option<Result<Vec<Row>, StoreError>>)
    requires
        base + d@.len() <= u64::MAX,
    ensures
        ({
            let a = answer(d@, base as int, text_view(q.dir), q.limit, q.uniq);
            match r {
                None => a is None,
                Some(Ok(rows)) => a == Some(Ok::<Seq<RowView>, StoreError>(row_views(rows@))),
                Some(Err(e)) => a == Some(Err::<Seq<RowView>, StoreError>(e)),
            }
        }),
{
    match q.limit {
        None => {
            if base > 0 {
                return None;
            }
            proof {
                lemma_rows_single(d@, 0, 0, text_view(q.dir));
            }
            match read_rows(d, base, 0, &q.dir) {
                Err(e) => Some(Err(e)),
                Ok(rows) => {
                    let ordered: Vec<StoredRow> = if q.uniq {
                        sort_and_fold(rows)
                    } else {
                        sort_rows(rows)
                    };
                    Some(Ok(into_rows(ordered)))
                },
            }
        },
        Some(want) => {
            if want == 0 {
                assert(shown(Seq::empty()) =~= Seq::<RowView>::empty());
                let none: Vec<Row> = Vec::new();
                assert(row_views(none@) =~= Seq::<RowView>::empty());
                return Some(Ok(none));
            }
            match read_tail(d, base, want, &q.dir, q.uniq) {
                None => None,
                Some(Err(e)) => Some(Err(e)),
                Some(Ok(read)) => {
                    if !q.uniq {
                        return Some(Ok(into_rows(sort_rows(read.rows))));
                    }
                    match complete(d, base, &q.dir, want, read) {
                        Some(rows) => Some(Ok(into_rows(rows))),
                        None => None,
                    }
                },
            }
        },
    }
}

/// Reading the last rows of a readable file: they end with the last `want` in
/// file order.
proof fn lemma_tail_plain(d: Seq<u8>, window: int, dir: Option<Seq<char>>, want: int) -> (from: int)
    requires
        rows_from(d, 0, 0, dir) is Ok,
        window > 0,
        want > 0,
    ensures
        0 <= from <= d.len(),
        tail_start(d, 0, window, dir, want, false) == Some(Ok::<int, StoreError>(from)),
        rows_from(d, 0, from, dir) is Ok,
        last_of(rows_from(d, 0, from, dir)->Ok_0, want) == last_of(
            rows_from(d, 0, 0, dir)->Ok_0,
            want,
        ),
    decreases (if window <= d.len() { d.len() - window + 1 } else { 0 }),
{
    let all = rows_from(d, 0, 0, dir)->Ok_0;
    let (from, hit) = line_start_back(d, window);
    lemma_line_start(d, window);
    law_later_rows_are_the_last(d, 0, 0, from, dir);
    let last = rows_from(d, 0, from, dir)->Ok_0;
    if last.len() >= want {
        assert(last_of(last, want) =~= last_of(all, want));
        from
    } else if hit {
        from
    } else {
        lemma_few_newlines(d, end_of_content(d), window);
        lemma_tail_plain(d, 4 * window, dir, want)
    }
}

/// Reading the last folded rows of a readable file: those of its last rows,
/// of all of them or of enough for `want` folded ones.
proof fn lemma_tail_uniq(d: Seq<u8>, window: int, dir: Option<Seq<char>>, want: int) -> (from: int)
    requires
        rows_from(d, 0, 0, dir) is Ok,
        window > 0,
    ensures
        0 <= from <= d.len(),
        from > 0 ==> d[from - 1] == 10,
        tail_start(d, 0, window, dir, want, true) == Some(Ok::<int, StoreError>(from)),
        rows_from(d, 0, from, dir) is Ok,
        ({
            let all = rows_from(d, 0, 0, dir)->Ok_0;
            let last = rows_from(d, 0, from, dir)->Ok_0;
            &&& last.len() <= all.len()
            &&& last == all.skip(all.len() - last.len())
            &&& folded(newest_first(last)).len() >= want || from == 0
        }),
    decreases (if window <= d.len() { d.len() - window + 1 } else { 0 }),
{
    let (from, hit) = line_start_back(d, window);
    lemma_line_start(d, window);
    law_later_rows_are_the_last(d, 0, 0, from, dir);
    let last = rows_from(d, 0, from, dir)->Ok_0;
    if folded(newest_first(last)).len() >= want || hit {
        from
    } else {
        lemma_few_newlines(d, end_of_content(d), window);
        lemma_tail_uniq(d, 4 * window, dir, want)
    }
}

/// How many of the last rows go on with a run of the command `c`, none of them
/// newer than the one behind it, which started at `t`.
spec fn run_back(rows: Seq<StoredRowView>, c: Seq<char>, t: i64) -> int
    decreases rows.len(),
{
    if rows.len() == 0 {
        0
    } else {
        let last = rows.last().entry;
        if last.c == c && last.t <= t {
            1 + run_back(rows.drop_last(), c, last.t)
        } else {
            0
        }
    }
}

/// In a readable file, counting back line by line counts the rows there are.
proof fn lemma_repeats_read(d: Seq<u8>, end: int, dir: Option<Seq<char>>, c: Seq<char>, t: i64)
    requires
        rows_from(d, 0, 0, dir) is Ok,
        0 <= end <= d.len(),
        end > 0 ==> d[end - 1] == 10,
    ensures
        rows_from(d, 0, end, dir) is Ok,
        ({
            let all = rows_from(d, 0, 0, dir)->Ok_0;
            let n = all.len() - rows_from(d, 0, end, dir)->Ok_0.len();
            0 <= n && repeats_before(d, 0, end, dir, c, t) == Some(run_back(all.take(n), c, t))
        }),
    decreases end,
{
    let all = rows_from(d, 0, 0, dir)->Ok_0;
    law_later_rows_are_the_last(d, 0, 0, end, dir);
    let n = all.len() - rows_from(d, 0, end, dir)->Ok_0.len();
    if end == 0 {
        assert(all.take(n) =~= Seq::<StoredRowView>::empty());
    } else {
        let start = line_start_before(d, end);
        lemma_line_before(d, end);
        law_later_rows_are_the_last(d, 0, 0, start, dir);
        let row = row_at(d.subrange(start, end), start)->Ok_0;
        let from_start = rows_from(d, 0, start, dir)->Ok_0;
        let rest = rows_from(d, 0, end, dir)->Ok_0;
        if wanted(dir, row.entry.d) {
            assert(from_start =~= seq![row] + rest);
            assert(from_start[0] == row);
            assert(all[n - 1] == row);
            assert(all.take(n).last() == row);
            assert(all.take(n).drop_last() =~= all.take(n - 1));
            lemma_repeats_read(d, start, dir, c, row.entry.t);
        } else {
            lemma_repeats_read(d, start, dir, c, t);
        }
    }
}

/// In a whole file it can always be counted back.
proof fn lemma_repeats_of_whole(d: Seq<u8>, end: int, dir: Option<Seq<char>>, c: Seq<char>, t: i64)
    ensures
        repeats_before(d, 0, end, dir, c, t) matches Some(n) && n >= 0,
    decreases end,
{
    if 0 < end <= d.len() {
        let start = line_start_before(d, end);
        lemma_line_before(d, end);
        if let Ok(row) = row_at(d.subrange(start, end), start) {
            lemma_repeats_of_whole(d, start, dir, c, t);
            lemma_repeats_of_whole(d, start, dir, c, row.entry.t);
        }
    }
}

/// What is counted back in the rest of a file is what is counted in the file.
proof fn lemma_repeats_of_part(
    whole: Seq<u8>,
    base: int,
    end: int,
    dir: Option<Seq<char>>,
    c: Seq<char>,
    t: i64,
)
    requires
        0 < base <= whole.len(),
        0 <= end <= whole.len() - base,
        repeats_before(whole.skip(base), base, end, dir, c, t) is Some,
    ensures
        repeats_before(whole, 0, base + end, dir, c, t) == repeats_before(
            whole.skip(base),
            base,
            end,
            dir,
            c,
            t,
        ),
    decreases end,
{
    let d = whole.skip(base);
    lemma_newline_back_shift(whole, base, end - 1, 1);
    let start = line_start_before(d, end);
    lemma_line_before(d, end);
    assert(line_start_before(whole, base + end) == base + start);
    assert(whole.subrange(base + start, base + end) =~= d.subrange(start, end));
    if let Ok(row) = row_at(d.subrange(start, end), base + start) {
        if !wanted(dir, row.entry.d) {
            lemma_repeats_of_part(whole, base, start, dir, c, t);
        } else if row.entry.c == c && row.entry.t <= t {
            lemma_repeats_of_part(whole, base, start, dir, c, row.entry.t);
        }
    }
}

/// A limit selects by position in the file: the answer is the last `want`
/// rows of a readable file, newest first.
pub proof fn law_limit_takes_the_last_rows(d: Seq<u8>, dir: Option<Seq<char>>, want: usize)
    requires
        rows_from(d, 0, 0, dir) is Ok,
    ensures
        answer(d, 0, dir, Some(want), false) == Some(
            Ok::<_, StoreError>(
                shown(newest_first(last_of(rows_from(d, 0, 0, dir)->Ok_0, want as int))),
            ),
        ),
{
    let all = rows_from(d, 0, 0, dir)->Ok_0;
    if want > 0 {
        let _ = lemma_tail_plain(d, want as int, dir, want as int);
    } else {
        assert(newest_first(last_of(all, 0)) =~= Seq::<StoredRowView>::empty());
    }
}

/// A limit selects by position in the file without repeats too. The rows are
/// chosen from the last rows of a readable file, from where reading starts:
/// of all of them or of enough for `want` folded ones. Those are sorted and
/// folded, and the first `want` are the answer, each with its entry and its
/// ID. Only the count of the last one that was folded may be larger, by the
/// repeats before it.
pub proof fn law_limit_without_repeats_takes_the_last_rows(
    d: Seq<u8>,
    dir: Option<Seq<char>>,
    want: usize,
)
    requires
        rows_from(d, 0, 0, dir) is Ok,
        want > 0,
    ensures
        tail_start(d, 0, want as int, dir, want as int, true) is Some,
        tail_start(d, 0, want as int, dir, want as int, true)->0 is Ok,
        answer(d, 0, dir, Some(want), true) is Some,
        answer(d, 0, dir, Some(want), true)->0 is Ok,
        ({
            let all = rows_from(d, 0, 0, dir)->Ok_0;
            let from = tail_start(d, 0, want as int, dir, want as int, true)->0->Ok_0;
            let last = rows_from(d, 0, from, dir)->Ok_0;
            let chosen = shown(folded(newest_first(last)));
            let some = answer(d, 0, dir, Some(want), true)->0->Ok_0;
            &&& last.len() <= all.len()
            &&& last == all.skip(all.len() - last.len())
            &&& chosen.len() >= want || last == all
            &&& some.len() == (if chosen.len() > want {
                want as int
            } else {
                chosen.len() as int
            })
            &&& forall|k: int|
                #![trigger some[k]]
                0 <= k < some.len() ==> {
                    &&& some[k].entry == chosen[k].entry
                    &&& some[k].id == chosen[k].id
                    &&& some[k].count >= chosen[k].count
                    &&& k + 1 < chosen.len() ==> some[k] == chosen[k]
                }
        }),
{
    let from = lemma_tail_uniq(d, want as int, dir, want as int);
    let last = rows_from(d, 0, from, dir)->Ok_0;
    let f = folded(newest_first(last));
    let oldest = newest_first(last).last().entry;
    lemma_repeats_of_whole(d, from, dir, oldest.c, oldest.t);
    let n = further_repeats(d, 0, from, dir, last, want as int)->0;
    let some = first_of(counting_on(f, n), want as int);
    assert forall|k: int| #![trigger shown(some)[k]] 0 <= k < some.len() implies {
        &&& shown(some)[k].entry == shown(f)[k].entry
        &&& shown(some)[k].id == shown(f)[k].id
        &&& shown(some)[k].count >= shown(f)[k].count
        &&& k + 1 < f.len() ==> shown(some)[k] == shown(f)[k]
    } by {
        assert(some[k] == counting_on(f, n)[k]);
    }
}

/// Where the file is in time order, a limited answer is the start of the
/// unlimited one: the same rows with the same IDs.
pub proof fn law_limit_is_a_prefix(d: Seq<u8>, dir: Option<Seq<char>>, want: usize)
    requires
        rows_from(d, 0, 0, dir) matches Ok(rows) && in_time_order(rows),
    ensures
        answer(d, 0, dir, None, false) is Some,
        answer(d, 0, dir, None, false)->0 is Ok,
        ({
            let all = answer(d, 0, dir, None, false)->0->Ok_0;
            answer(d, 0, dir, Some(want), false) == Some(
                Ok::<_, StoreError>(
                    if all.len() > want {
                        all.take(want as int)
                    } else {
                        all
                    },
                ),
            )
        }),
{
    let rows = rows_from(d, 0, 0, dir)->Ok_0;
    law_limit_takes_the_last_rows(d, dir, want);
    let last = last_of(rows, want as int);
    law_time_order_is_reversed(rows);
    law_time_order_is_reversed(last);
    let all = shown(newest_first(rows));
    assert(shown(newest_first(last)) =~= (if all.len() > want {
        all.take(want as int)
    } else {
        all
    }));
}

/// In time order a run goes back over the rows with its command, up to the
/// first with another.
proof fn lemma_run_back(rows: Seq<StoredRowView>, c: Seq<char>, t: i64)
    requires
        in_time_order(rows),
        rows.len() > 0 ==> rows.last().entry.t <= t,
    ensures
        ({
            let n = run_back(rows, c, t);
            let m = rows.len() as int;
            &&& 0 <= n <= m
            &&& forall|j: int| 0 <= j < n ==> (#[trigger] rows.reverse()[j]).entry.c == c
            &&& n < m ==> rows.reverse()[n].entry.c != c
        }),
    decreases rows.len(),
{
    if rows.len() > 0 && rows.last().entry.c == c {
        let less = rows.drop_last();
        assert forall|a: int, b: int|
            #![trigger less[a], less[b]]
            0 <= a <= b < less.len() implies less[a].entry.t <= less[b].entry.t by {
            assert(rows[a].entry.t <= rows[b].entry.t);
        }
        if less.len() > 0 {
            assert(rows[less.len() - 1].entry.t <= rows[rows.len() - 1].entry.t);
        }
        lemma_run_back(less, c, rows.last().entry.t);
        let n = run_back(rows, c, t);
        assert forall|j: int| 0 <= j < n implies (#[trigger] rows.reverse()[j]).entry.c == c by {
            if j > 0 {
                assert(rows.reverse()[j] == less.reverse()[j - 1]);
            }
        }
        if n < rows.len() {
            assert(rows.reverse()[n] == less.reverse()[n - 1]);
        }
    }
}

/// Folding goes on with the last run over the rows that have its command.
proof fn lemma_fold_goes_on(p: Seq<StoredRowView>, s: Seq<StoredRowView>, n: int)
    requires
        folded(p).len() > 0,
        0 <= n <= s.len(),
        forall|j: int| 0 <= j < n ==> (#[trigger] s[j]).entry.c == folded(p).last().entry.c,
        n < s.len() ==> s[n].entry.c != folded(p).last().entry.c,
    ensures
        ({
            let f = folded(p);
            let g = folded(p + s);
            &&& if n == s.len() {
                g.len() == f.len()
            } else {
                g.len() > f.len()
            }
            &&& g[f.len() - 1] == (StoredRowView { count: f.last().count + n, ..f.last() })
        }),
    decreases s.len(),
{
    if s.len() == 0 {
        assert(p + s =~= p);
    } else {
        let t = s.drop_last();
        assert((p + s).drop_last() =~= p + t);
        assert((p + s).last() == s.last());
        assert(s.last() == s[s.len() - 1]);
        assert forall|j: int| 0 <= j < n && j < t.len() implies (#[trigger] t[j]).entry.c == folded(
            p,
        ).last().entry.c by {
            assert(t[j] == s[j]);
        }
        if n == s.len() {
            lemma_fold_goes_on(p, t, n - 1);
        } else {
            lemma_fold_goes_on(p, t, n);
        }
    }
}

/// Where the file is in time order, a limited answer without repeats is the
/// start of the unlimited one: the same rows with the same IDs and counts.
pub proof fn law_limit_without_repeats_is_a_prefix(
    d: Seq<u8>,
    dir: Option<Seq<char>>,
    want: usize,
)
    requires
        rows_from(d, 0, 0, dir) matches Ok(rows) && in_time_order(rows),
    ensures
        answer(d, 0, dir, None, true) is Some,
        answer(d, 0, dir, None, true)->0 is Ok,
        ({
            let all = answer(d, 0, dir, None, true)->0->Ok_0;
            answer(d, 0, dir, Some(want), true) == Some(
                Ok::<_, StoreError>(
                    if all.len() > want {
                        all.take(want as int)
                    } else {
                        all
                    },
                ),
            )
        }),
{
    let rows = rows_from(d, 0, 0, dir)->Ok_0;
    let all = folded(newest_first(rows));
    if want > 0 {
        let from = lemma_tail_uniq(d, want as int, dir, want as int);
        let last = rows_from(d, 0, from, dir)->Ok_0;
        let n = rows.len() - last.len();
        let before = rows.take(n);
        let p = newest_first(last);
        let s = before.reverse();
        law_time_order_is_reversed(rows);
        law_time_order_is_reversed(last);
        assert(newest_first(rows) =~= p + s);
        law_folding_goes_front_to_back(p, s);
        let f = folded(p);
        let oldest = p.last().entry;
        lemma_repeats_read(d, from, dir, oldest.c, oldest.t);
        if from == 0 {
            assert(s =~= Seq::<StoredRowView>::empty());
            assert(p + s =~= p);
            assert(run_back(before, oldest.c, oldest.t) == 0);
            assert(counting_on(f, 0) =~= f);
        } else if f.len() == want {
            let e = run_back(before, oldest.c, oldest.t);
            if before.len() > 0 {
                assert(p.last() == last[0]);
                assert(rows[n] == last[0]);
                assert(rows[n - 1] == before.last());
            }
            lemma_run_back(before, oldest.c, oldest.t);
            assert(f.last().entry.c == oldest.c);
            lemma_fold_goes_on(p, s, e);
            assert(counting_on(f, e) =~= all.take(want as int)) by {
                assert forall|k: int| 0 <= k < want implies counting_on(f, e)[k] == all[k] by {
                    if k + 1 < want {
                        assert(f[k] == all[k]);
                    }
                }
            }
        } else {
            assert(counting_on(f, 0) =~= f);
            assert(f.take(want as int) =~= all.take(want as int));
        }
        let some = found_rows(d, 0, dir, Some(want), true)->0->Ok_0;
        assert(some =~= first_of(all, want as int));
        assert(shown(some) =~= (if all.len() > want {
            shown(all).take(want as int)
        } else {
            shown(all)
        }));
    } else {
        assert(shown(Seq::empty()) =~= shown(all).take(0));
    }
}

proof fn lemma_tail_of_part(
    whole: Seq<u8>,
    base: int,
    window: int,
    dir: Option<Seq<char>>,
    want: int,
    uniq: bool,
)
    requires
        0 < base <= whole.len(),
        tail_start(whole.skip(base), base, window, dir, want, uniq) is Some,
    ensures
        tail_start(whole, 0, window, dir, want, uniq) == match tail_start(
            whole.skip(base),
            base,
            window,
            dir,
            want,
            uniq,
        )->0 {
            Ok(from) => Some(Ok::<int, StoreError>(base + from)),
            Err(e) => Some(Err(e)),
        },
        tail_start(whole.skip(base), base, window, dir, want, uniq)->0 matches Ok(from) ==> {
            &&& 0 <= from <= whole.len() - base
            &&& rows_from(whole, 0, base + from, dir) == rows_from(
                whole.skip(base),
                base,
                from,
                dir,
            )
        },
    decreases
            (if window <= whole.len() - base {
                whole.len() - base - window + 1
            } else {
                0
            }),
{
    let d = whole.skip(base);
    let (from, hit) = line_start_back(d, window);
    lemma_line_start_shift(whole, base, window);
    law_rows_of_the_rest(whole, 0, base, from, dir);
    if let Ok(rows) = window_rows(d, base, from, dir, want, uniq) {
        if rows.len() < want {
            lemma_few_newlines(d, end_of_content(d), window);
            lemma_tail_of_part(whole, base, 4 * window, dir, want, uniq);
        }
    }
}

/// An answer found in the rest of a file is the answer of the file.
pub proof fn law_part_answers_for_the_whole(
    whole: Seq<u8>,
    base: int,
    dir: Option<Seq<char>>,
    limit: Option<usize>,
    uniq: bool,
)
    requires
        0 <= base <= whole.len(),
        answer(whole.skip(base), base, dir, limit, uniq) is Some,
    ensures
        answer(whole, 0, dir, limit, uniq) == answer(whole.skip(base), base, dir, limit, uniq),
{
    let d = whole.skip(base);
    if base == 0 {
        assert(d =~= whole);
    } else if let Some(want) = limit {
        if want > 0 {
            lemma_tail_of_part(whole, base, want as int, dir, want as int, uniq);
            if let Ok(from) = tail_start(d, base, want as int, dir, want as int, uniq)->0 {
                let rows = rows_from(d, base, from, dir)->Ok_0;
                if uniq && folded(newest_first(rows)).len() == want {
                    let oldest = newest_first(rows).last().entry;
                    lemma_repeats_of_part(whole, base, from, dir, oldest.c, oldest.t);
                }
            }
        }
    }
}

proof fn lemma_tail_of_whole(
    d: Seq<u8>,
    window: int,
    dir: Option<Seq<char>>,
    want: int,
    uniq: bool,
)
    ensures
        tail_start(d, 0, window, dir, want, uniq) is Some,
    decreases (if window <= d.len() { d.len() - window + 1 } else { 0 }),
{
    let (from, hit) = line_start_back(d, window);
    if !hit {
        lemma_few_newlines(d, end_of_content(d), window);
        if let Ok(rows) = window_rows(d, 0, from, dir, want, uniq) {
            if rows.len() < want {
                lemma_tail_of_whole(d, 4 * window, dir, want, uniq);
            }
        }
    }
}

/// A whole file is always enough for an answer.
pub proof fn law_whole_file_answers(
    d: Seq<u8>,
    dir: Option<Seq<char>>,
    limit: Option<usize>,
    uniq: bool,
)
    ensures
        answer(d, 0, dir, limit, uniq) is Some,
{
    if let Some(want) = limit {
        lemma_tail_of_whole(d, want as int, dir, want as int, uniq);
        if let Some(Ok(from)) = tail_start(d, 0, want as int, dir, want as int, uniq) {
            let oldest = newest_first(rows_from(d, 0, from, dir)->Ok_0).last().entry;
            lemma_repeats_of_whole(d, from, dir, oldest.c, oldest.t);
        }
    }
}

/// The answer has no more rows than the limit allows, and without repeats no
/// two neighbours have the same command.
pub proof fn law_answer_keeps_its_limits(
    d: Seq<u8>,
    base: int,
    dir: Option<Seq<char>>,
    limit: Option<usize>,
    uniq: bool,
)
    ensures
        answer(d, base, dir, limit, uniq) matches Some(Ok(rows)) ==> {
            &&& limit matches Some(want) ==> rows.len() <= want
            &&& uniq ==> forall|k: int|
                0 <= k < rows.len() - 1 ==> (#[trigger] rows[k]).entry.c != rows[k + 1].entry.c
        },
{
    if let Some(Ok(rows)) = found_rows(d, base, dir, limit, uniq) {
        if uniq && limit != Some(0usize) {
            let from = match limit {
                None => 0,
                Some(want) => tail_start(d, base, want as int, dir, want as int, uniq)->0->Ok_0,
            };
            let all = rows_from(d, base, from, dir)->Ok_0;
            if let Some(want) = limit {
                lemma_tail_is_read(d, base, want as int, dir, want as int, uniq);
            }
            lemma_rows_single(d, base, from, dir);
            lemma_newest_single(all);
            law_folded_rows_are_runs(newest_first(all));
            let f = folded(newest_first(all));
            assert forall|k: int| 0 <= k < rows.len() - 1 implies (#[trigger] shown(
                rows,
            )[k]).entry.c != shown(rows)[k + 1].entry.c by {
                assert(f[k].entry.c != f[k + 1].entry.c);
            }
        }
    }
}

/// Rows can be read from where reading starts.
proof fn lemma_tail_is_read(
    d: Seq<u8>,
    base: int,
    window: int,
    dir: Option<Seq<char>>,
    want: int,
    uniq: bool,
)
    ensures
        tail_start(d, base, window, dir, want, uniq) matches Some(Ok(from)) ==> rows_from(
            d,
            base,
            from,
            dir,
        ) is Ok,
    decreases (if window <= d.len() { d.len() - window + 1 } else { 0 }),
{
    let (from, hit) = line_start_back(d, window);
    if !hit {
        lemma_few_newlines(d, end_of_content(d), window);
        lemma_tail_is_read(d, base, 4 * window, dir, want, uniq);
    }
}

/// Folding loses no row: the counts of an unlimited answer without repeats
/// add up to the rows of the full answer.
pub proof fn law_folding_loses_no_row(d: Seq<u8>, dir: Option<Seq<char>>)
    requires
        rows_from(d, 0, 0, dir) is Ok,
    ensures
        ({
            let full = found_rows(d, 0, dir, None, false)->0->Ok_0;
            let uniq = found_rows(d, 0, dir, None, true)->0->Ok_0;
            &&& uniq == folded(full)
            &&& counted(uniq, uniq.len() as int) == full.len()
        }),
{
    let rows = rows_from(d, 0, 0, dir)->Ok_0;
    lemma_rows_single(d, 0, 0, dir);
    lemma_newest_single(rows);
    law_folded_rows_are_runs(newest_first(rows));
}

/// A folded row of sorted rows is one of the rows, but for its count.
proof fn lemma_folded_member(rows: Seq<StoredRowView>, k: int) -> (j: int)
    requires
        all_single(rows),
        0 <= k < folded(newest_first(rows)).len(),
    ensures
        0 <= j < rows.len(),
        ({
            let f = folded(newest_first(rows))[k];
            f == (StoredRowView { count: f.count, ..rows[j] })
        }),
{
    let sorted = newest_first(rows);
    let f = folded(sorted);
    lemma_newest_single(rows);
    law_folded_rows_are_runs(sorted);
    assert(is_run(sorted, f, k));
    lemma_newest_order(times(rows));
    newest_order(times(rows))[counted(f, k)]
}

/// Every row of an answer is a row of the file, with its entry and its ID.
pub proof fn law_answered_rows_are_stored(
    d: Seq<u8>,
    dir: Option<Seq<char>>,
    limit: Option<usize>,
    uniq: bool,
    k: int,
)
    requires
        rows_from(d, 0, 0, None) is Ok,
        answer(d, 0, dir, limit, uniq) matches Some(Ok(rows)) && 0 <= k < rows.len(),
    ensures
        exists|row: StoredRowView| #[trigger]
            rows_from(d, 0, 0, None)->Ok_0.contains(row) && {
                let shown = answer(d, 0, dir, limit, uniq)->0->Ok_0[k];
                shown.entry == row.entry && shown.id == id_text(row.offset, row.i as int) && wanted(
                    dir,
                    row.entry.d,
                )
            },
{
    let whole = rows_from(d, 0, 0, None)->Ok_0;
    if let Some(w) = dir {
        law_directory_selects(d, 0, 0, w);
    }
    let all = rows_from(d, 0, 0, dir)->Ok_0;
    lemma_rows_single(d, 0, 0, dir);
    let found = found_rows(d, 0, dir, limit, uniq)->0->Ok_0;
    let from = match limit {
        None => all,
        Some(want) => if uniq {
            let at = lemma_tail_uniq(d, want as int, dir, want as int);
            rows_from(d, 0, at, dir)->Ok_0
        } else {
            let _ = lemma_tail_plain(d, want as int, dir, want as int);
            last_of(all, want as int)
        },
    };
    assert(from.len() <= all.len() && from =~= all.skip(all.len() - from.len()));
    assert(all_single(from));
    let j = if uniq {
        let j = lemma_folded_member(from, k);
        let f = folded(newest_first(from));
        assert(found[k] == (StoredRowView { count: found[k].count, ..f[k] }));
        j
    } else {
        lemma_newest_order(times(from));
        assert(found[k] == newest_first(from)[k]);
        newest_order(times(from))[k]
    };
    let row = from[j];
    let at = all.len() - from.len() + j;
    assert(all[at] == row);
    law_row_stands_at_its_offset(d, 0, 0, dir, at);
    assert(all.contains(row));
    if let Some(w) = dir {
        whole.lemma_filter_contains_rev(|r: StoredRowView| r.entry.d == w, row);
    }
    assert(whole.contains(row));
    assert(answer(d, 0, dir, limit, uniq)->0->Ok_0[k] == shown_row(found[k]));
}

/// A row is handed out with its entry, its ID and its count, whatever they are.
pub proof fn law_handed_out_rows_keep_everything(rows: Seq<StoredRowView>)
    ensures
        shown(rows).len() == rows.len(),
        forall|k: int|
            #![trigger shown(rows)[k]]
            0 <= k < rows.len() ==> {
                &&& shown(rows)[k].entry == rows[k].entry
                &&& shown(rows)[k].id == id_text(rows[k].offset, rows[k].i as int)
                &&& shown(rows)[k].count == rows[k].count
            },
{
}

/// How many rows the first `k` of an answer stand for.
pub open spec fn stood_for(rows: Seq<RowView>, k: int) -> int
    decreases k,
{
    if k <= 0 {
        0
    } else {
        stood_for(rows, k - 1) + rows[k - 1].count
    }
}

/// Whether the `k`-th row of an answer without repeats stands for a whole run
/// of the full answer: it is the newest of the run, all of the run have its
/// command, and what follows the run has not.
pub open spec fn is_whole_run(full: Seq<RowView>, uniq: Seq<RowView>, k: int) -> bool {
    let start = stood_for(uniq, k);
    let end = start + uniq[k].count;
    &&& 0 <= start < end <= full.len()
    &&& uniq[k].entry == full[start].entry
    &&& uniq[k].id == full[start].id
    &&& forall|j: int| start <= j < end ==> (#[trigger] full[j]).entry.c == uniq[k].entry.c
    &&& end < full.len() ==> full[end].entry.c != uniq[k].entry.c
}

proof fn lemma_stood_for(f: Seq<StoredRowView>, k: int)
    requires
        0 <= k <= f.len(),
    ensures
        stood_for(shown(f), k) == counted(f, k),
    decreases k,
{
    if k > 0 {
        lemma_stood_for(f, k - 1);
    }
}

/// The counts that a query hands out. In the full answer every row stands for
/// itself. Without repeats the counts add up to the rows of the full answer,
/// and each row stands for one whole run of its command.
pub proof fn law_counts_are_whole_runs(d: Seq<u8>, dir: Option<Seq<char>>)
    requires
        rows_from(d, 0, 0, dir) is Ok,
    ensures
        answer(d, 0, dir, None, false) is Some,
        answer(d, 0, dir, None, false)->0 is Ok,
        answer(d, 0, dir, None, true) is Some,
        answer(d, 0, dir, None, true)->0 is Ok,
        ({
            let full = answer(d, 0, dir, None, false)->0->Ok_0;
            let uniq = answer(d, 0, dir, None, true)->0->Ok_0;
            &&& full.len() == rows_from(d, 0, 0, dir)->Ok_0.len()
            &&& forall|k: int| 0 <= k < full.len() ==> (#[trigger] full[k]).count == 1
            &&& stood_for(uniq, uniq.len() as int) == full.len()
            &&& forall|k: int| 0 <= k < uniq.len() ==> #[trigger] is_whole_run(full, uniq, k)
        }),
{
    let rows = rows_from(d, 0, 0, dir)->Ok_0;
    let sorted = newest_first(rows);
    let f = folded(sorted);
    lemma_rows_single(d, 0, 0, dir);
    lemma_newest_single(rows);
    law_folded_rows_are_runs(sorted);
    let full = shown(sorted);
    let uniq = shown(f);
    assert forall|k: int| 0 <= k < full.len() implies (#[trigger] full[k]).count == 1 by {
        assert(sorted[k].count == 1);
    }
    lemma_stood_for(f, f.len() as int);
    assert forall|k: int| 0 <= k < uniq.len() implies #[trigger] is_whole_run(full, uniq, k) by {
        lemma_stood_for(f, k);
        assert(is_run(sorted, f, k));
        let start = counted(f, k);
        let end = start + f[k].count;
        assert forall|j: int| start <= j < end implies (#[trigger] full[j]).entry.c
            == uniq[k].entry.c by {
            assert(sorted[j].entry.c == f[k].entry.c);
        }
        assert(counted(f, k + 1) == end);
        if k + 1 < f.len() {
            assert(is_run(sorted, f, k + 1));
            assert(f[k].entry.c != f[k + 1].entry.c);
            assert(sorted[end].entry.c == f[k + 1].entry.c);
        }
    }
}

/// The full answer holds every row of the file once: as many rows as there
/// are, and among them each with its entry and its ID.
pub proof fn law_full_answer_holds_every_row(d: Seq<u8>, dir: Option<Seq<char>>, j: int)
    requires
        rows_from(d, 0, 0, dir) matches Ok(rows) && 0 <= j < rows.len(),
    ensures
        ({
            let rows = rows_from(d, 0, 0, dir)->Ok_0;
            let full = answer(d, 0, dir, None, false)->0->Ok_0;
            &&& full.len() == rows.len()
            &&& exists|k: int|
                0 <= k < full.len() && (#[trigger] full[k]).entry == rows[j].entry && full[k].id
                    == id_text(rows[j].offset, rows[j].i as int)
        }),
{
    let rows = rows_from(d, 0, 0, dir)->Ok_0;
    let full = answer(d, 0, dir, None, false)->0->Ok_0;
    let o = newest_order(times(rows));
    lemma_newest_order(times(rows));
    assert(o.contains(j));
    let k = o.index_of(j);
    assert(full[k] == shown_row(rows[j]));
    assert(full[k].entry == rows[j].entry);
}

/// A limit is used up: the answer has as many rows as are wanted, or as there
/// are, and each of the last that many rows of the file is among them.
pub proof fn law_limited_answer_holds_the_last_rows(
    d: Seq<u8>,
    dir: Option<Seq<char>>,
    want: usize,
    j: int,
)
    requires
        rows_from(d, 0, 0, dir) matches Ok(rows) && 0 <= j < rows.len() && j >= rows.len() - want,
    ensures
        answer(d, 0, dir, Some(want), false) is Some,
        answer(d, 0, dir, Some(want), false)->0 is Ok,
        ({
            let rows = rows_from(d, 0, 0, dir)->Ok_0;
            let some = answer(d, 0, dir, Some(want), false)->0->Ok_0;
            &&& some.len() == if rows.len() < want {
                rows.len() as int
            } else {
                want as int
            }
            &&& exists|k: int|
                0 <= k < some.len() && (#[trigger] some[k]).entry == rows[j].entry && some[k].id
                    == id_text(rows[j].offset, rows[j].i as int) && some[k].count == 1
        }),
{
    let rows = rows_from(d, 0, 0, dir)->Ok_0;
    law_limit_takes_the_last_rows(d, dir, want);
    lemma_rows_single(d, 0, 0, dir);
    let last = last_of(rows, want as int);
    let some = answer(d, 0, dir, Some(want), false)->0->Ok_0;
    let h = j - (rows.len() - last.len());
    assert(last[h] == rows[j]);
    let o = newest_order(times(last));
    lemma_newest_order(times(last));
    assert(o.contains(h));
    let k = o.index_of(h);
    assert(some[k] == shown_row(rows[j]));
    assert(some[k].entry == rows[j].entry);
}

proof fn lemma_counted_grows(rows: Seq<StoredRowView>, f: Seq<StoredRowView>, a: int, b: int)
    requires
        0 <= a < b < f.len(),
        forall|k: int| 0 <= k < f.len() ==> #[trigger] is_run(rows, f, k),
    ensures
        0 <= counted(f, a) < counted(f, b) < rows.len(),
    decreases b - a,
{
    assert(is_run(rows, f, a));
    assert(is_run(rows, f, b));
    assert(counted(f, a + 1) == counted(f, a) + f[a].count);
    if a + 1 < b {
        lemma_counted_grows(rows, f, a + 1, b);
    }
}

/// Every answer is newest first.
pub proof fn law_answers_are_newest_first(
    d: Seq<u8>,
    base: int,
    dir: Option<Seq<char>>,
    limit: Option<usize>,
    uniq: bool,
    a: int,
    b: int,
)
    requires
        answer(d, base, dir, limit, uniq) matches Some(Ok(rows)) && 0 <= a < b < rows.len(),
    ensures
        ({
            let rows = answer(d, base, dir, limit, uniq)->0->Ok_0;
            rows[a].entry.t >= rows[b].entry.t
        }),
{
    let found = found_rows(d, base, dir, limit, uniq)->0->Ok_0;
    let from = match limit {
        None => 0,
        Some(want) => tail_start(d, base, want as int, dir, want as int, uniq)->0->Ok_0,
    };
    if let Some(want) = limit {
        lemma_tail_is_read(d, base, want as int, dir, want as int, uniq);
    }
    let read = rows_from(d, base, from, dir)->Ok_0;
    let all = match limit {
        Some(want) if !uniq => last_of(read, want as int),
        _ => read,
    };
    let sorted = newest_first(all);
    law_newest_first(all);
    if uniq {
        lemma_rows_single(d, base, from, dir);
        lemma_newest_single(all);
        law_folded_rows_are_runs(sorted);
        let f = folded(sorted);
        lemma_counted_grows(sorted, f, a, b);
        assert(is_run(sorted, f, a));
        assert(is_run(sorted, f, b));
        let p = sorted[counted(f, a)];
        let q = sorted[counted(f, b)];
        assert(p.entry.t >= q.entry.t);
        assert(found[a].entry == f[a].entry && found[b].entry == f[b].entry);
    } else {
        assert(found == sorted);
        assert(sorted[a].entry.t >= sorted[b].entry.t);
    }
}

proof fn lemma_repeats_same(
    d: Seq<u8>,
    more: Seq<u8>,
    end: int,
    dir: Option<Seq<char>>,
    c: Seq<char>,
    t: i64,
)
    requires
        0 <= end <= d.len(),
    ensures
        repeats_before(d + more, 0, end, dir, c, t) == repeats_before(d, 0, end, dir, c, t),
    decreases end,
{
    if end > 0 {
        lemma_newline_back_same(d, more, end - 1, 1);
        lemma_line_before(d, end);
        let start = line_start_before(d, end);
        assert((d + more).subrange(start, end) =~= d.subrange(start, end));
        if let Ok(row) = row_at(d.subrange(start, end), start) {
            if !wanted(dir, row.entry.d) {
                lemma_repeats_same(d, more, start, dir, c, t);
            } else {
                lemma_repeats_same(d, more, start, dir, c, row.entry.t);
            }
        }
    }
}

/// The rows that complete the last count are counted back line by line. A row
/// of the command that is not newer than the one behind it counts, and so do
/// those before it; rows of other directories are passed over; any other row,
/// and a line that holds none, ends the run.
pub proof fn law_repeats_are_counted_back(
    d: Seq<u8>,
    line: Seq<u8>,
    dir: Option<Seq<char>>,
    c: Seq<char>,
    t: i64,
)
    requires
        d.len() > 0 ==> d.last() == 10,
        line.len() > 0,
        line.last() == 10,
        forall|j: int| 0 <= j < line.len() - 1 ==> #[trigger] line[j] != 10,
    ensures
        ({
            let end = d.len() as int;
            let counted = repeats_before(d + line, 0, (d + line).len() as int, dir, c, t);
            match rows_from(line, end, 0, None) {
                Err(_) => counted == Some(0int),
                Ok(rows) => {
                    let e = rows[0].entry;
                    if dir is Some && dir != Some(e.d) {
                        counted == repeats_before(d, 0, end, dir, c, t)
                    } else if e.c == c && e.t <= t {
                        &&& repeats_before(d, 0, end, dir, c, e.t) is Some
                        &&& counted == Some(1 + repeats_before(d, 0, end, dir, c, e.t)->0)
                    } else {
                        counted == Some(0int)
                    }
                },
            }
        }),
        repeats_before(Seq::empty(), 0, 0, dir, c, t) == Some(0int),
{
    let w = d + line;
    let end = w.len() as int;
    lemma_newline_back_over(d, line, end - 1, 1);
    let start = line_start_before(w, end);
    if d.len() > 0 {
        assert(newline_back(d, d.len() as int, 1) == Some(d.len() - 1));
    }
    assert(start == d.len());
    assert(w.subrange(start, end) =~= line);
    lemma_line_end_without(line, 0);
    assert(line.subrange(0, line.len() as int) =~= line);
    assert(rows_from(line, d.len() as int, line.len() as int, None) == Ok::<_, StoreError>(
        Seq::<StoredRowView>::empty(),
    ));
    if let Ok(row) = row_at(line, d.len() as int) {
        assert(rows_from(line, d.len() as int, 0, None)->Ok_0[0] == row);
        lemma_repeats_same(d, line, d.len() as int, dir, c, t);
        lemma_repeats_same(d, line, d.len() as int, dir, c, row.entry.t);
        lemma_repeats_of_whole(d, d.len() as int, dir, c, row.entry.t);
    }
}

/// Where the last lines of a file, as many as are wanted, give as many rows
/// without repeats, the answer is those rows and nothing else is chosen,
/// however new the rows before them are.
pub proof fn law_limit_without_repeats_reads_no_further(
    d: Seq<u8>,
    dir: Option<Seq<char>>,
    want: usize,
)
    requires
        rows_from(d, 0, 0, dir) is Ok,
        want > 0,
        folded(
            newest_first(rows_from(d, 0, line_start_back(d, want as int).0, dir)->Ok_0),
        ).len() >= want,
    ensures
        answer(d, 0, dir, Some(want), true) is Some,
        answer(d, 0, dir, Some(want), true)->0 is Ok,
        ({
            let last = rows_from(d, 0, line_start_back(d, want as int).0, dir)->Ok_0;
            let chosen = folded(newest_first(last));
            let some = answer(d, 0, dir, Some(want), true)->0->Ok_0;
            &&& some.len() == want
            &&& forall|k: int|
                #![trigger some[k]]
                0 <= k < want ==> some[k].entry == chosen[k].entry && some[k].id == id_text(
                    chosen[k].offset,
                    chosen[k].i as int,
                )
        }),
{
    let from = line_start_back(d, want as int).0;
    lemma_line_start(d, want as int);
    law_later_rows_are_the_last(d, 0, 0, from, dir);
    assert(tail_start(d, 0, want as int, dir, want as int, true) == Some(
        Ok::<int, StoreError>(from),
    ));
    law_limit_without_repeats_takes_the_last_rows(d, dir, want);
}

} // verus!
