//! Rows of the history file: reading them, putting them in order, and folding
//! repeats.

use vstd::prelude::*;
use vstd::slice::slice_subrange;
use crate::entry::{decode_line, stored_entry, Entry, EntryView, StoreError, MAX_JSON_LINE_SIZE};
use crate::order::{
    before, holds_range, lemma_newest_order, lemma_order_unique, newest_order, sort_by_time,
};
use crate::scan::{
    after_last_newline, ended, find_line_end, lemma_line_end, lemma_line_end_ended,
    lemma_line_end_same, lemma_line_end_shift, lemma_line_end_without,
    lemma_line_ends_at_newline, line_end,
};
use crate::text::text_view;

verus! {

/// An entry as it stands in the history file: where its line starts, its
/// sequence number, and how many repeats it stands for.
pub struct StoredRow {
    pub entry: Entry,
    pub offset: u64,
    pub i: i64,
    pub count: usize,
}

/// A stored row with its texts as sequences.
#[verifier::ext_equal]
pub struct StoredRowView {
    pub entry: EntryView,
    pub offset: int,
    pub i: i64,
    pub count: int,
}

impl View for StoredRow {
    type V = StoredRowView;

    open spec fn view(&self) -> StoredRowView {
        StoredRowView {
            entry: self.entry@,
            offset: self.offset as int,
            i: self.i,
            count: self.count as int,
        }
    }
}

/// The views of a list of stored rows.
pub open spec fn views(s: Seq<StoredRow>) -> Seq<StoredRowView> {
    s.map_values(|r: StoredRow| r@)
}

/// The row of an entry that was read at `offset`, if one was read there.
pub open spec fn row_of(read: Option<(i64, EntryView)>, offset: int) -> Result<
    StoredRowView,
    StoreError,
> {
    match read {
        None => Err(StoreError::Malformed { offset: offset as u64 }),
        Some((i, entry)) => if entry.c.len() == 0 {
            Err(StoreError::MissingCommand { offset: offset as u64 })
        } else {
            Ok(StoredRowView { entry, offset, i, count: 1 })
        },
    }
}

/// The row that the line at `offset` holds.
pub open spec fn row_at(line: Seq<u8>, offset: int) -> Result<StoredRowView, StoreError> {
    if line.len() > MAX_JSON_LINE_SIZE {
        Err(StoreError::LineTooLong { offset: offset as u64, len: line.len() as u64 })
    } else {
        row_of(stored_entry(line), offset)
    }
}

/// Whether a row of directory `d` is wanted.
pub open spec fn wanted(dir: Option<Seq<char>>, d: Seq<char>) -> bool {
    match dir {
        Some(w) => d == w,
        None => true,
    }
}

/// The wanted rows from `from` to the end of the file, in file order. `d` is
/// the file from the offset `base` on.
pub open spec fn rows_from(d: Seq<u8>, base: int, from: int, dir: Option<Seq<char>>) -> Result<
    Seq<StoredRowView>,
    StoreError,
>
    decreases d.len() - from,
{
    if !(0 <= from < d.len()) {
        Ok(Seq::empty())
    } else {
        let next = line_end(d, from);
        match row_at(d.subrange(from, next), base + from) {
            Err(e) => Err(e),
            Ok(row) => {
                proof {
                    lemma_line_end(d, from);
                }
                match rows_from(d, base, next, dir) {
                    Err(e) => Err(e),
                    Ok(rest) => Ok(
                        if wanted(dir, row.entry.d) {
                            seq![row] + rest
                        } else {
                            rest
                        },
                    ),
                }
            },
        }
    }
}

/// Whether a row of directory `d` is wanted.
pub fn is_wanted(dir: &Option<String>, d: &String) -> (r: bool)
    ensures
        r == wanted(text_view(*dir), d@),
{
    match dir {
        Some(w) => *d == *w,
        None => true,
    }
}

/// The row of an entry that was read at `offset`.
pub fn make_row(read: Option<(i64, Entry)>, offset: u64) -> (r: Result<StoredRow, StoreError>)
    ensures
        ({
            let row = row_of(
                match read {
                    Some((i, e)) => Some((i, e@)),
                    None => None,
                },
                offset as int,
            );
            match r {
                Ok(got) => row == Ok::<StoredRowView, StoreError>(got@),
                Err(e) => row == Err::<StoredRowView, StoreError>(e),
            }
        }),
{
    match read {
        None => Err(StoreError::Malformed { offset }),
        Some((i, entry)) => {
            if entry.c.as_str().is_empty() {
                return Err(StoreError::MissingCommand { offset });
            }
            Ok(StoredRow { entry, offset, i, count: 1 })
        },
    }
}

/// Reads the row that a line holds.
pub fn read_row(line: &[u8], offset: u64) -> (r: Result<StoredRow, StoreError>)
    ensures
        match r {
            Ok(row) => row_at(line@, offset as int) == Ok::<StoredRowView, StoreError>(row@),
            Err(e) => row_at(line@, offset as int) == Err::<StoredRowView, StoreError>(e),
        },
        line@.len() < MAX_JSON_LINE_SIZE ==> row_at(line@.push(10), offset as int) == row_at(
            line@,
            offset as int,
        ),
{
    if line.len() > MAX_JSON_LINE_SIZE {
        return Err(StoreError::LineTooLong { offset, len: line.len() as u64 });
    }
    make_row(decode_line(line), offset)
}

/// Where the rows from `p` on start once the last line is ended.
spec fn resumed(d: Seq<u8>, p: int) -> int {
    if p == d.len() {
        ended(d).len() as int
    } else {
        p
    }
}

/// Reads the wanted rows from `from` to the end, in file order. `from` must
/// be a line start, or every line is garbage. Ending the last line changes
/// nothing of what is read, if it leaves room for a newline.
pub fn read_rows(d: &[u8], base: u64, from: usize, dir: &Option<String>) -> (r: Result<
    Vec<StoredRow>,
    StoreError,
>)
    requires
        base + d@.len() <= u64::MAX,
        from <= d@.len(),
    ensures
        match r {
            Ok(rows) => rows_from(d@, base as int, from as int, text_view(*dir)) == Ok::<
                Seq<StoredRowView>,
                StoreError,
            >(views(rows@)),
            Err(e) => rows_from(d@, base as int, from as int, text_view(*dir)) == Err::<
                Seq<StoredRowView>,
                StoreError,
            >(e),
        },
        from == 0 && after_last_newline(d@) < MAX_JSON_LINE_SIZE ==> rows_from(
            ended(d@),
            base as int,
            0,
            text_view(*dir),
        ) == rows_from(d@, base as int, 0, text_view(*dir)),
{
    let ghost w = text_view(*dir);
    let ghost whole = rows_from(d@, base as int, from as int, w);
    let ghost e = ended(d@);
    let ghost short = after_last_newline(d@) < MAX_JSON_LINE_SIZE;
    let ghost also = rows_from(e, base as int, resumed(d@, from as int), w);
    let mut rows: Vec<StoredRow> = Vec::new();
    let mut p: usize = from;
    proof {
        if let Ok(rest) = whole {
            assert(views(rows@) + rest =~= rest);
        }
        if let Ok(rest) = also {
            assert(views(rows@) + rest =~= rest);
        }
    }
    while p < d.len()
        invariant
            base + d@.len() <= u64::MAX,
            from <= p <= d@.len(),
            w == text_view(*dir),
            match rows_from(d@, base as int, p as int, w) {
                Ok(rest) => whole == Ok::<Seq<StoredRowView>, StoreError>(views(rows@) + rest),
                Err(e) => whole == Err::<Seq<StoredRowView>, StoreError>(e),
            },
            whole == rows_from(d@, base as int, from as int, w),
            e == ended(d@),
            short == (after_last_newline(d@) < MAX_JSON_LINE_SIZE),
            also == rows_from(e, base as int, resumed(d@, from as int), w),
            short ==> match rows_from(e, base as int, resumed(d@, p as int), w) {
                Ok(rest) => also == Ok::<Seq<StoredRowView>, StoreError>(views(rows@) + rest),
                Err(e) => also == Err::<Seq<StoredRowView>, StoreError>(e),
            },
        decreases d@.len() - p,
    {
        proof {
            lemma_line_end_ended(d@, p as int);
        }
        let next: usize = find_line_end(d, p);
        let line: &[u8] = slice_subrange(d, p, next);
        let ghost so_far = views(rows@);
        proof {
            if d@[next - 1] == 10 {
                assert(e.subrange(p as int, next as int) =~= line@);
            } else {
                assert(e.subrange(p as int, next + 1) =~= line@.push(10));
            }
            assert(line_end(e, p as int) == resumed(d@, next as int));
        }
        match read_row(line, base + p as u64) {
            Ok(row) => {
                let ghost v = row@;
                if is_wanted(dir, &row.entry.d) {
                    rows.push(row);
                    proof {
                        assert(views(rows@) =~= so_far.push(v));
                        if let Ok(rest) = rows_from(d@, base as int, next as int, w) {
                            assert(so_far + (seq![v] + rest) =~= so_far.push(v) + rest);
                        }
                        if let Ok(rest) = rows_from(e, base as int, resumed(d@, next as int), w) {
                            assert(so_far + (seq![v] + rest) =~= so_far.push(v) + rest);
                        }
                    }
                }
            },
            Err(e) => {
                return Err(e);
            },
        }
        p = next;
    }
    assert(views(rows@) + Seq::<StoredRowView>::empty() =~= views(rows@));
    Ok(rows)
}

/// Whether each row stands for itself alone.
pub open spec fn all_single(rows: Seq<StoredRowView>) -> bool {
    forall|k: int| 0 <= k < rows.len() ==> (#[trigger] rows[k]).count == 1
}

/// Rows as they are read stand for themselves alone.
pub proof fn lemma_rows_single(d: Seq<u8>, base: int, from: int, dir: Option<Seq<char>>)
    ensures
        rows_from(d, base, from, dir) matches Ok(rows) ==> all_single(rows),
    decreases d.len() - from,
{
    if 0 <= from < d.len() {
        lemma_line_end(d, from);
        lemma_rows_single(d, base, line_end(d, from), dir);
    }
}

/// When each row started.
pub open spec fn times(rows: Seq<StoredRowView>) -> Seq<i64> {
    rows.map_values(|r: StoredRowView| r.entry.t)
}

/// The rows by time, newest first. Rows with the same time stand in reverse,
/// the later one first.
pub open spec fn newest_first(rows: Seq<StoredRowView>) -> Seq<StoredRowView> {
    Seq::new(rows.len(), |k: int| rows[newest_order(times(rows))[k]])
}

/// Puts rows in file order into the order they are shown in.
pub fn sort_rows(rows: Vec<StoredRow>) -> (r: Vec<StoredRow>)
    ensures
        views(r@) == newest_first(views(rows@)),
{
    let mut ts: Vec<i64> = Vec::new();
    let mut k: usize = 0;
    while k < rows.len()
        invariant
            k <= rows@.len(),
            ts@ == times(views(rows@)).take(k as int),
        decreases rows@.len() - k,
    {
        ts.push(rows[k].entry.t);
        k = k + 1;
        assert(ts@ =~= times(views(rows@)).take(k as int));
    }
    assert(ts@ =~= times(views(rows@)));
    let ghost all = rows@;
    proof {
        lemma_newest_order(ts@);
    }
    let out: Vec<StoredRow> = sort_by_time(rows, &ts);
    assert(views(out@) =~= newest_first(views(all))) by {
        let o = newest_order(ts@);
        assert forall|k: int| 0 <= k < out@.len() implies views(out@)[k] == newest_first(
            views(all),
        )[k] by {
            assert(0 <= o[k] < ts@.len());
        }
    }
    out
}

/// Sorting keeps every row as it is.
pub proof fn lemma_newest_single(rows: Seq<StoredRowView>)
    requires
        all_single(rows),
    ensures
        all_single(newest_first(rows)),
{
    lemma_newest_order(times(rows));
}

/// Each run of rows with the same command as its first row, counting the run.
pub open spec fn folded(rows: Seq<StoredRowView>) -> Seq<StoredRowView>
    decreases rows.len(),
{
    if rows.len() == 0 {
        Seq::empty()
    } else {
        let sofar = folded(rows.drop_last());
        let row = rows.last();
        if sofar.len() > 0 && sofar.last().entry.c == row.entry.c {
            let last = sofar.last();
            sofar.drop_last().push(StoredRowView { count: last.count + 1, ..last })
        } else {
            sofar.push(row)
        }
    }
}

/// Folds each run of same-command rows into its first, counting the run.
pub fn fold_runs(rows: Vec<StoredRow>) -> (r: Vec<StoredRow>)
    requires
        all_single(views(rows@)),
    ensures
        views(r@) == folded(views(rows@)),
{
    let ghost all = rows@;
    assert forall|k: int| 0 <= k < all.len() implies (#[trigger] all[k]).count == 1 by {
        assert(views(all)[k].count == 1);
    }
    let total: usize = rows.len();
    let mut out: Vec<StoredRow> = Vec::new();
    assert(views(all).take(0) =~= Seq::<StoredRowView>::empty());
    for row in it: rows.into_iter()
        invariant
            it.seq() == all,
            all.len() == total,
            forall|k: int| 0 <= k < all.len() ==> (#[trigger] all[k]).count == 1,
            views(out@) == folded(views(all).take(it.index() as int)),
            forall|k: int| 0 <= k < out@.len() ==> (#[trigger] out@[k]).count <= it.index(),
    {
        let ghost n = it.index() as int;
        let ghost prev = out@;
        assert(views(all).take(n + 1).drop_last() =~= views(all).take(n));
        let len: usize = out.len();
        if len > 0 && out[len - 1].entry.c == row.entry.c {
            let count: usize = out[len - 1].count;
            out[len - 1].count = count + 1;
            assert(views(out@) =~= folded(views(all).take(n + 1)));
        } else {
            out.push(row);
            assert(views(out@) =~= folded(views(all).take(n + 1)));
        }
    }
    assert(views(all).take(all.len() as int) =~= views(all));
    out
}

/// Sorts rows newest first and folds consecutive repeats.
pub fn sort_and_fold(rows: Vec<StoredRow>) -> (r: Vec<StoredRow>)
    requires
        all_single(views(rows@)),
    ensures
        views(r@) == folded(newest_first(views(rows@))),
{
    proof {
        lemma_newest_single(views(rows@));
    }
    fold_runs(sort_rows(rows))
}

/// The rows of the rest of a file are those of the file from there on, with
/// the same offsets.
pub proof fn law_rows_of_the_rest(
    whole: Seq<u8>,
    base: int,
    cut: int,
    from: int,
    dir: Option<Seq<char>>,
)
    requires
        0 <= cut <= whole.len(),
        0 <= from <= whole.len() - cut,
    ensures
        rows_from(whole.skip(cut), base + cut, from, dir) == rows_from(
            whole,
            base,
            cut + from,
            dir,
        ),
    decreases whole.len() - cut - from,
{
    let d = whole.skip(cut);
    if from < d.len() {
        lemma_line_end(d, from);
        lemma_line_end_shift(whole, cut, from);
        let next = line_end(d, from);
        assert(whole.subrange(cut + from, cut + next) =~= d.subrange(from, next));
        law_rows_of_the_rest(whole, base, cut, next, dir);
    }
}

/// Where a file can be read from `p` on, it can be read from any later line
/// start, and what is read there is the end of what is read from `p`.
pub proof fn law_later_rows_are_the_last(
    d: Seq<u8>,
    base: int,
    p: int,
    from: int,
    dir: Option<Seq<char>>,
)
    requires
        0 <= p <= from <= d.len(),
        from > p ==> d[from - 1] == 10,
        rows_from(d, base, p, dir) is Ok,
    ensures
        rows_from(d, base, from, dir) is Ok,
        ({
            let all = rows_from(d, base, p, dir)->Ok_0;
            let last = rows_from(d, base, from, dir)->Ok_0;
            last.len() <= all.len() && last == all.skip(all.len() - last.len())
        }),
    decreases from - p,
{
    let all = rows_from(d, base, p, dir)->Ok_0;
    if p == from {
        assert(all.skip(0) =~= all);
    } else {
        lemma_line_end(d, p);
        lemma_line_ends_at_newline(d, p, from - 1);
        let next = line_end(d, p);
        let rest = rows_from(d, base, next, dir)->Ok_0;
        law_later_rows_are_the_last(d, base, next, from, dir);
        let last = rows_from(d, base, from, dir)->Ok_0;
        assert(last =~= all.skip(all.len() - last.len()));
    }
}

/// Sorted rows are the same rows, later ones never older than earlier ones
/// in the list, and of two that started together the later in the file
/// stands first.
pub proof fn law_newest_first(rows: Seq<StoredRowView>)
    ensures
        newest_first(rows).len() == rows.len(),
        holds_range(newest_order(times(rows)), 0, rows.len() as int),
        forall|k: int|
            0 <= k < rows.len() ==> #[trigger] newest_first(rows)[k] == rows[newest_order(
                times(rows),
            )[k]],
        forall|a: int, b: int|
            #![trigger newest_first(rows)[a], newest_first(rows)[b]]
            0 <= a < b < rows.len() ==> {
                let o = newest_order(times(rows));
                ||| newest_first(rows)[a].entry.t > newest_first(rows)[b].entry.t
                ||| newest_first(rows)[a].entry.t == newest_first(rows)[b].entry.t && o[a] > o[b]
            },
{
    let ts = times(rows);
    lemma_newest_order(ts);
    let o = newest_order(ts);
    assert forall|a: int, b: int|
        #![trigger newest_first(rows)[a], newest_first(rows)[b]]
        0 <= a < b < rows.len() implies {
        ||| newest_first(rows)[a].entry.t > newest_first(rows)[b].entry.t
        ||| newest_first(rows)[a].entry.t == newest_first(rows)[b].entry.t && o[a] > o[b]
    } by {
        assert(before(ts, o[a], o[b]));
    }
}

/// How many rows the first `k` folded rows stand for.
pub open spec fn counted(f: Seq<StoredRowView>, k: int) -> int
    decreases k,
{
    if k <= 0 {
        0
    } else {
        counted(f, k - 1) + f[k - 1].count
    }
}

proof fn lemma_counted_same(f: Seq<StoredRowView>, g: Seq<StoredRowView>, k: int)
    requires
        k <= f.len(),
        k <= g.len(),
        forall|j: int| 0 <= j < k ==> (#[trigger] f[j]).count == g[j].count,
    ensures
        counted(f, k) == counted(g, k),
    decreases k,
{
    if k > 0 {
        lemma_counted_same(f, g, k - 1);
        assert(f[k - 1].count == g[k - 1].count);
    }
}

/// Whether the `k`-th folded row stands for a run of rows: it is the first of
/// the run, and all of the run have its command.
pub open spec fn is_run(rows: Seq<StoredRowView>, f: Seq<StoredRowView>, k: int) -> bool {
    let start = counted(f, k);
    &&& f[k].count >= 1
    &&& 0 <= start
    &&& start + f[k].count <= rows.len()
    &&& f[k] == (StoredRowView { count: f[k].count, ..rows[start] })
    &&& forall|j: int|
        start <= j < start + f[k].count ==> (#[trigger] rows[j]).entry.c == f[k].entry.c
}

proof fn lemma_run_stays(rows: Seq<StoredRowView>, g: Seq<StoredRowView>, f: Seq<StoredRowView>, k: int)
    requires
        rows.len() > 0,
        is_run(rows.drop_last(), g, k),
        f[k] == g[k],
        counted(f, k) == counted(g, k),
    ensures
        is_run(rows, f, k),
{
    let less = rows.drop_last();
    let start = counted(f, k);
    assert(less[start] == rows[start]);
    assert forall|j: int| start <= j < start + f[k].count implies (#[trigger] rows[j]).entry.c
        == f[k].entry.c by {
        assert(less[j] == rows[j]);
    }
}

proof fn lemma_run_grows(rows: Seq<StoredRowView>, g: Seq<StoredRowView>, f: Seq<StoredRowView>, k: int)
    requires
        rows.len() > 0,
        is_run(rows.drop_last(), g, k),
        f[k] == (StoredRowView { count: g[k].count + 1, ..g[k] }),
        counted(f, k) == counted(g, k),
        counted(g, k) + g[k].count == rows.len() - 1,
        rows.last().entry.c == g[k].entry.c,
    ensures
        is_run(rows, f, k),
{
    let less = rows.drop_last();
    let start = counted(f, k);
    assert(less[start] == rows[start]);
    assert forall|j: int| start <= j < start + f[k].count implies (#[trigger] rows[j]).entry.c
        == f[k].entry.c by {
        if j < rows.len() - 1 {
            assert(less[j] == rows[j]);
        }
    }
}

/// Folded rows stand for runs of rows, one after the other and without a
/// gap, and no run has the command of the next.
pub proof fn law_folded_rows_are_runs(rows: Seq<StoredRowView>)
    requires
        all_single(rows),
    ensures
        counted(folded(rows), folded(rows).len() as int) == rows.len(),
        forall|k: int| 0 <= k < folded(rows).len() ==> #[trigger] is_run(rows, folded(rows), k),
        forall|k: int|
            0 <= k < folded(rows).len() - 1 ==> (#[trigger] folded(rows)[k]).entry.c != folded(
                rows,
            )[k + 1].entry.c,
    decreases rows.len(),
{
    if rows.len() > 0 {
        let less = rows.drop_last();
        assert forall|k: int| 0 <= k < less.len() implies (#[trigger] less[k]).count == 1 by {
            assert(rows[k].count == 1);
        }
        law_folded_rows_are_runs(less);
        let g = folded(less);
        let f = folded(rows);
        let row = rows.last();
        let n = g.len() as int;
        assert(rows[rows.len() - 1].count == 1);
        if n > 0 && g.last().entry.c == row.entry.c {
            lemma_counted_same(f, g, n - 1);
            assert(is_run(less, g, n - 1));
            assert(counted(f, n) == counted(f, n - 1) + f[n - 1].count);
            assert(counted(g, n) == counted(g, n - 1) + g[n - 1].count);
            lemma_run_grows(rows, g, f, n - 1);
            assert forall|k: int| 0 <= k < n implies #[trigger] is_run(rows, f, k) by {
                if k < n - 1 {
                    lemma_counted_same(f, g, k);
                    lemma_run_stays(rows, g, f, k);
                }
            }
        } else {
            lemma_counted_same(f, g, n);
            assert(counted(f, n + 1) == counted(f, n) + f[n].count);
            assert forall|k: int| 0 <= k < n + 1 implies #[trigger] is_run(rows, f, k) by {
                if k < n {
                    lemma_counted_same(f, g, k);
                    lemma_run_stays(rows, g, f, k);
                }
            }
        }
        assert forall|k: int| 0 <= k < f.len() - 1 implies (#[trigger] f[k]).entry.c != f[k
            + 1].entry.c by {
            if k < n - 1 {
                assert(g[k].entry.c != g[k + 1].entry.c);
            }
        }
    }
}

/// Folding the first rows of a list gives the first folded rows of the whole
/// list; only the last of them may stand for more rows there.
pub proof fn law_folding_goes_front_to_back(p: Seq<StoredRowView>, s: Seq<StoredRowView>)
    ensures
        folded(p).len() <= folded(p + s).len(),
        forall|k: int|
            #![trigger folded(p + s)[k]]
            0 <= k < folded(p).len() ==> {
                let a = folded(p)[k];
                let b = folded(p + s)[k];
                &&& b == (StoredRowView { count: b.count, ..a })
                &&& a.count <= b.count
                &&& k + 1 < folded(p).len() ==> a == b
            },
    decreases s.len(),
{
    if s.len() == 0 {
        assert(p + s =~= p);
    } else {
        let t = s.drop_last();
        law_folding_goes_front_to_back(p, t);
        assert((p + s).drop_last() =~= p + t);
        assert((p + s).last() == s.last());
        let f = folded(p);
        let g = folded(p + t);
        let h = folded(p + s);
        assert forall|k: int| #![trigger h[k]] 0 <= k < f.len() implies {
            let a = f[k];
            let b = h[k];
            &&& b == (StoredRowView { count: b.count, ..a })
            &&& a.count <= b.count
            &&& k + 1 < f.len() ==> a == b
        } by {
            assert(g[k] == (StoredRowView { count: g[k].count, ..f[k] }));
        }
    }
}

/// Whether the rows started in the order they stand in.
pub open spec fn in_time_order(rows: Seq<StoredRowView>) -> bool {
    forall|a: int, b: int|
        #![trigger rows[a], rows[b]]
        0 <= a <= b < rows.len() ==> rows[a].entry.t <= rows[b].entry.t
}

/// Rows in time order are shown in reverse.
pub proof fn law_time_order_is_reversed(rows: Seq<StoredRowView>)
    requires
        in_time_order(rows),
    ensures
        newest_first(rows) == rows.reverse(),
{
    let ts = times(rows);
    let o = newest_order(ts);
    let n = rows.len() as int;
    let back = Seq::new(rows.len(), |k: int| n - 1 - k);
    lemma_newest_order(ts);
    assert forall|a: int, b: int|
        #![trigger back[a], back[b]]
        0 <= a < b < back.len() implies before(ts, back[a], back[b]) by {
        assert(rows[back[b]].entry.t <= rows[back[a]].entry.t);
    }
    assert forall|x: int| o.contains(x) <==> back.contains(x) by {
        if o.contains(x) {
            let j = o.index_of(x);
            assert(0 <= o[j] < n);
            assert(back[n - 1 - x] == x);
        }
        if back.contains(x) {
            let j = back.index_of(x);
            assert(0 <= back[j] < n);
            assert(0 <= x < n);
        }
    }
    lemma_order_unique(ts, o, back);
    assert(newest_first(rows) =~= rows.reverse());
}

/// What is added behind a file whose last line is ended adds its rows to
/// those of the file.
pub proof fn law_rows_add_up(d: Seq<u8>, more: Seq<u8>, base: int, p: int, dir: Option<Seq<char>>)
    requires
        0 <= p <= d.len(),
        d.len() > 0 ==> d.last() == 10,
        rows_from(d, base, p, dir) is Ok,
    ensures
        rows_from(d + more, base, p, dir) == match rows_from(more, base + d.len(), 0, dir) {
            Ok(rows) => Ok::<_, StoreError>(rows_from(d, base, p, dir)->Ok_0 + rows),
            Err(e) => Err(e),
        },
    decreases d.len() - p,
{
    let w = d + more;
    let a = rows_from(d, base, p, dir)->Ok_0;
    if p == d.len() {
        law_rows_of_the_rest(w, base, d.len() as int, 0, dir);
        assert(w.skip(d.len() as int) =~= more);
        if let Ok(rows) = rows_from(more, base + d.len(), 0, dir) {
            assert(a + rows =~= rows);
        }
    } else {
        let next = line_end(d, p);
        lemma_line_end(d, p);
        lemma_line_end_same(d, more, p);
        assert(w.subrange(p, next) =~= d.subrange(p, next));
        let row = row_at(d.subrange(p, next), base + p)->Ok_0;
        let rest = rows_from(d, base, next, dir)->Ok_0;
        law_rows_add_up(d, more, base, next, dir);
        if let Ok(rows) = rows_from(more, base + d.len(), 0, dir) {
            assert(seq![row] + (rest + rows) =~= (seq![row] + rest) + rows);
        }
    }
}

/// Each row is the row of the line at its offset.
pub proof fn law_row_stands_at_its_offset(
    d: Seq<u8>,
    base: int,
    p: int,
    dir: Option<Seq<char>>,
    k: int,
)
    requires
        0 <= p <= d.len(),
        rows_from(d, base, p, dir) matches Ok(rows) && 0 <= k < rows.len(),
    ensures
        ({
            let row = rows_from(d, base, p, dir)->Ok_0[k];
            let at = row.offset - base;
            &&& p <= at < d.len()
            &&& at < line_end(d, at) <= d.len()
            &&& row_at(d.subrange(at, line_end(d, at)), row.offset) == Ok::<_, StoreError>(row)
            &&& wanted(dir, row.entry.d)
        }),
    decreases d.len() - p,
{
    let rows = rows_from(d, base, p, dir)->Ok_0;
    lemma_line_end(d, p);
    let next = line_end(d, p);
    let row = row_at(d.subrange(p, next), base + p)->Ok_0;
    if wanted(dir, row.entry.d) {
        if k > 0 {
            law_row_stands_at_its_offset(d, base, next, dir, k - 1);
        }
    } else {
        law_row_stands_at_its_offset(d, base, next, dir, k);
    }
}

/// The rows of one directory are those of all rows that ran in it.
pub proof fn law_directory_selects(d: Seq<u8>, base: int, p: int, dir: Seq<char>)
    requires
        0 <= p <= d.len(),
        rows_from(d, base, p, None) is Ok,
    ensures
        rows_from(d, base, p, Some(dir)) == Ok::<_, StoreError>(
            rows_from(d, base, p, None)->Ok_0.filter(|r: StoredRowView| r.entry.d == dir),
        ),
    decreases d.len() - p,
{
    let f = |r: StoredRowView| r.entry.d == dir;
    reveal(Seq::filter);
    if p < d.len() {
        lemma_line_end(d, p);
        let next = line_end(d, p);
        let row = row_at(d.subrange(p, next), base + p)->Ok_0;
        let rest = rows_from(d, base, next, None)->Ok_0;
        law_directory_selects(d, base, next, dir);
        rest.lemma_filter_prepend(row, f);
    }
}

/// A line of its own, ended or not, is one row: that of the entry it stores,
/// under its number, at its offset. It is refused where it is too long, stores
/// no entry, or stores one without a command.
pub proof fn law_a_line_is_a_row(line: Seq<u8>, base: int)
    requires
        line.len() > 0,
        forall|j: int| 0 <= j < line.len() - 1 ==> #[trigger] line[j] != 10,
    ensures
        ({
            let read = rows_from(line, base, 0, None);
            let at = base as u64;
            if line.len() > MAX_JSON_LINE_SIZE {
                read == Err::<Seq<StoredRowView>, _>(
                    (StoreError::LineTooLong { offset: at, len: line.len() as u64 }),
                )
            } else {
                match stored_entry(line) {
                    None => read == Err::<Seq<StoredRowView>, _>(
                        (StoreError::Malformed { offset: at }),
                    ),
                    Some((i, entry)) => if entry.c.len() == 0 {
                        read == Err::<Seq<StoredRowView>, _>(
                            (StoreError::MissingCommand { offset: at }),
                        )
                    } else {
                        &&& read is Ok
                        &&& read->Ok_0.len() == 1
                        &&& read->Ok_0[0].i == i
                        &&& read->Ok_0[0].entry == entry
                        &&& read->Ok_0[0].offset == base
                        &&& read->Ok_0[0].count == 1
                    },
                }
            }
        }),
{
    lemma_line_end_without(line, 0);
    assert(line.subrange(0, line.len() as int) =~= line);
    assert(rows_from(line, base, line.len() as int, None) == Ok::<_, StoreError>(
        Seq::<StoredRowView>::empty(),
    ));
}

/// The first line that is refused is what reading reports, whatever follows it
/// and whichever directory is asked for.
pub proof fn law_first_bad_line_is_reported(
    d: Seq<u8>,
    more: Seq<u8>,
    base: int,
    p: int,
    dir: Option<Seq<char>>,
)
    requires
        0 <= p <= d.len(),
        d.len() > 0 ==> d.last() == 10,
        rows_from(d, base, p, None) is Err,
    ensures
        rows_from(d + more, base, p, dir) == rows_from(d, base, p, None),
    decreases d.len() - p,
{
    if p < d.len() {
        let next = line_end(d, p);
        lemma_line_end(d, p);
        lemma_line_end_same(d, more, p);
        assert((d + more).subrange(p, next) =~= d.subrange(p, next));
        if row_at(d.subrange(p, next), base + p) is Ok {
            law_first_bad_line_is_reported(d, more, base, next, dir);
        }
    }
}

} // verus!
