//! Lines in a file of bytes, counted from either end.

use vstd::prelude::*;
use vstd::slice::slice_subrange;
use crate::entry::MAX_JSON_LINE_SIZE;

verus! {

/// The place after the line that starts at `from`: after its newline, or the
/// end of the file.
pub open spec fn line_end(d: Seq<u8>, from: int) -> int
    decreases d.len() - from,
{
    if !(0 <= from < d.len()) {
        from
    } else if d[from] == 10 {
        from + 1
    } else {
        line_end(d, from + 1)
    }
}

/// The end of the file's content: its size without a single newline at the
/// end.
pub open spec fn end_of_content(d: Seq<u8>) -> int {
    if d.len() > 0 && d.last() == 10 {
        d.len() - 1
    } else {
        d.len() as int
    }
}

/// Where the `n`-th newline before `end` is, counting back from it.
pub open spec fn newline_back(d: Seq<u8>, end: int, n: int) -> Option<int>
    decreases end,
{
    if end <= 0 || n <= 0 {
        None
    } else if d[end - 1] == 10 {
        if n == 1 {
            Some(end - 1)
        } else {
            newline_back(d, end - 1, n - 1)
        }
    } else {
        newline_back(d, end - 1, n)
    }
}

/// Where the `n`-th line starts, counting back from the end (1 is the last
/// line), and whether the file has no more than `n` lines.
pub open spec fn line_start_back(d: Seq<u8>, n: int) -> (int, bool) {
    match newline_back(d, end_of_content(d), n) {
        Some(p) => (p + 1, false),
        None => (0, true),
    }
}

/// The last line without its newline; None for an empty file.
pub open spec fn last_line(d: Seq<u8>) -> Option<Seq<u8>> {
    if d.len() == 0 {
        None
    } else {
        let start = line_start_back(d, 1).0;
        Some(d.subrange(start, end_of_content(d)))
    }
}

/// How many bytes stand after the last newline.
pub open spec fn after_last_newline(d: Seq<u8>) -> int
    decreases d.len(),
{
    if d.len() == 0 || d.last() == 10 {
        0
    } else {
        1 + after_last_newline(d.drop_last())
    }
}

/// Size of the final line without its newline, as far as it matters: never
/// more than the limit, and 0 for an empty file.
pub open spec fn trailing_size(d: Seq<u8>) -> int {
    match last_line(d) {
        Some(line) => if line.len() < MAX_JSON_LINE_SIZE {
            line.len() as int
        } else {
            MAX_JSON_LINE_SIZE as int
        },
        None => 0,
    }
}

/// The file with its last line ended by a newline.
pub open spec fn ended(d: Seq<u8>) -> Seq<u8> {
    if d.len() > 0 && d.last() != 10 {
        d.push(10)
    } else {
        d
    }
}

/// A line ends inside the file, and behind its start.
pub proof fn lemma_line_end(d: Seq<u8>, from: int)
    requires
        0 <= from <= d.len(),
    ensures
        from <= line_end(d, from) <= d.len(),
        from < d.len() ==> from < line_end(d, from),
    decreases d.len() - from,
{
    if from < d.len() && d[from] != 10 {
        lemma_line_end(d, from + 1);
    }
}

/// The place after the line that starts at `from`.
pub fn find_line_end(d: &[u8], from: usize) -> (r: usize)
    requires
        from <= d@.len(),
    ensures
        r == line_end(d@, from as int),
        from <= r <= d@.len(),
        from < d@.len() ==> from < r,
{
    let mut p: usize = from;
    while p < d.len() && d[p] != 10
        invariant
            from <= p <= d@.len(),
            line_end(d@, from as int) == line_end(d@, p as int),
        decreases d@.len() - p,
    {
        p = p + 1;
    }
    if p < d.len() {
        p + 1
    } else {
        p
    }
}

/// End of the file's content: its size minus a single trailing newline.
pub fn content_end(d: &[u8]) -> (r: usize)
    ensures
        r == end_of_content(d@),
{
    if d.len() > 0 && d[d.len() - 1] == 10 {
        d.len() - 1
    } else {
        d.len()
    }
}

/// Where the `n`-th newline before `end` is, counting back from it.
pub fn find_newline_back(d: &[u8], end: usize, n: usize) -> (r: Option<usize>)
    requires
        end <= d@.len(),
    ensures
        match r {
            Some(p) => newline_back(d@, end as int, n as int) == Some(p as int) && p < end,
            None => newline_back(d@, end as int, n as int) is None,
        },
{
    let mut p: usize = end;
    let mut left: usize = n;
    while 0 < p && 0 < left
        invariant
            p <= end <= d@.len(),
            newline_back(d@, end as int, n as int) == newline_back(d@, p as int, left as int),
        decreases p,
    {
        if d[p - 1] == 10 {
            if left == 1 {
                return Some(p - 1);
            }
            left = left - 1;
        }
        p = p - 1;
    }
    None
}

/// Start of the `n`-th line counting back from the end (`n` = 1 is the last
/// line), plus whether the scan ran out of file before finding `n` lines.
pub fn nth_line_start_from_end(d: &[u8], n: usize) -> (r: (usize, bool))
    ensures
        (r.0 as int, r.1) == line_start_back(d@, n as int),
        r.0 <= d@.len(),
{
    let end: usize = content_end(d);
    match find_newline_back(d, end, n) {
        Some(p) => (p + 1, false),
        None => (0, true),
    }
}

/// Last line with its newline stripped, or None if the file is empty.
pub fn read_last_line(d: &[u8]) -> (r: Option<Vec<u8>>)
    ensures
        match r {
            Some(line) => last_line(d@) == Some(line@),
            None => last_line(d@) is None,
        },
{
    if d.len() == 0 {
        return None;
    }
    let end: usize = content_end(d);
    let (start, _) = nth_line_start_from_end(d, 1);
    proof {
        lemma_newline_back(d@, end as int, 1);
    }
    Some(slice_to_vec(d, start, end))
}

fn slice_to_vec(d: &[u8], from: usize, to: usize) -> (r: Vec<u8>)
    requires
        from <= to <= d@.len(),
    ensures
        r@ == d@.subrange(from as int, to as int),
{
    let mut out: Vec<u8> = Vec::new();
    out.extend_from_slice(slice_subrange(d, from, to));
    assert(out@ =~= d@.subrange(from as int, to as int));
    out
}

/// Size in bytes of the final line (not counting its trailing newline), or of
/// the whole file when it has no newline at all. Counting stops at the limit.
pub fn trailing_line_size(d: &[u8]) -> (r: usize)
    ensures
        r == trailing_size(d@),
{
    let end: usize = content_end(d);
    let mut total: usize = 0;
    while total < end && total < MAX_JSON_LINE_SIZE && d[end - total - 1] != 10
        invariant
            total <= end <= d@.len(),
            total <= MAX_JSON_LINE_SIZE,
            newline_back(d@, end as int, 1) == newline_back(d@, end - total, 1),
        decreases end - total,
    {
        total = total + 1;
    }
    proof {
        lemma_newline_back(d@, end - total, 1);
    }
    total
}

proof fn lemma_after_last_newline(d: Seq<u8>)
    ensures
        0 <= after_last_newline(d) <= d.len(),
    decreases d.len(),
{
    if d.len() > 0 && d.last() != 10 {
        lemma_after_last_newline(d.drop_last());
    }
}

/// Nothing before a newline stands after the last one.
pub proof fn lemma_counted_after(d: Seq<u8>, p: int)
    requires
        -1 <= p < d.len(),
        p >= 0 ==> d[p] == 10,
    ensures
        after_last_newline(d) < d.len() - p,
    decreases d.len(),
{
    if d.len() > 0 && d.last() != 10 {
        lemma_counted_after(d.drop_last(), p);
    }
}

/// A newline found by counting back is a newline before `end`.
pub proof fn lemma_newline_back(d: Seq<u8>, end: int, n: int)
    requires
        end <= d.len(),
    ensures
        newline_back(d, end, n) matches Some(p) ==> 0 <= p < end && d[p] == 10,
    decreases end,
{
    if end <= 0 || n <= 0 {
    } else if d[end - 1] == 10 {
        if n != 1 {
            lemma_newline_back(d, end - 1, n - 1);
        }
    } else {
        lemma_newline_back(d, end - 1, n);
    }
}

/// There are no more newlines than bytes.
pub proof fn lemma_few_newlines(d: Seq<u8>, end: int, n: int)
    ensures
        newline_back(d, end, n) is Some ==> 0 < n <= end,
    decreases end,
{
    if end > 0 && n > 0 {
        if d[end - 1] == 10 {
            if n != 1 {
                lemma_few_newlines(d, end - 1, n - 1);
            }
        } else {
            lemma_few_newlines(d, end - 1, n);
        }
    }
}

/// A line that starts at or before a newline ends with it or earlier.
pub proof fn lemma_line_ends_at_newline(d: Seq<u8>, from: int, at: int)
    requires
        0 <= from <= at < d.len(),
        d[at] == 10,
    ensures
        line_end(d, from) <= at + 1,
    decreases at - from,
{
    if d[from] != 10 {
        lemma_line_ends_at_newline(d, from + 1, at);
    }
}

/// Line ends are the same in the rest of a file.
pub proof fn lemma_line_end_shift(whole: Seq<u8>, base: int, from: int)
    requires
        0 <= base <= whole.len(),
        0 <= from <= whole.len() - base,
    ensures
        line_end(whole, base + from) == base + line_end(whole.skip(base), from),
    decreases whole.len() - base - from,
{
    let d = whole.skip(base);
    if from < d.len() {
        assert(d[from] == whole[base + from]);
        if d[from] != 10 {
            lemma_line_end_shift(whole, base, from + 1);
        }
    }
}

/// A newline found in the rest of a file is the one found in the file.
pub proof fn lemma_newline_back_shift(whole: Seq<u8>, base: int, end: int, n: int)
    requires
        0 <= base <= whole.len(),
        0 <= end <= whole.len() - base,
    ensures
        newline_back(whole.skip(base), end, n) matches Some(p) ==> newline_back(
            whole,
            base + end,
            n,
        ) == Some(base + p),
    decreases end,
{
    let d = whole.skip(base);
    if end > 0 && n > 0 {
        assert(d[end - 1] == whole[base + end - 1]);
        if d[end - 1] == 10 {
            if n != 1 {
                lemma_newline_back_shift(whole, base, end - 1, n - 1);
            }
        } else {
            lemma_newline_back_shift(whole, base, end - 1, n);
        }
    }
}

/// A line start found in the rest of a file is the one found in the file.
pub proof fn lemma_line_start_shift(whole: Seq<u8>, base: int, n: int)
    requires
        0 <= base <= whole.len(),
        !line_start_back(whole.skip(base), n).1,
    ensures
        line_start_back(whole, n) == (base + line_start_back(whole.skip(base), n).0, false),
        0 < line_start_back(whole.skip(base), n).0 <= whole.len() - base,
{
    let d = whole.skip(base);
    lemma_newline_back_shift(whole, base, end_of_content(d), n);
    lemma_newline_back(d, end_of_content(d), n);
    assert(d.last() == whole.last());
    assert(end_of_content(whole) == base + end_of_content(d));
}

/// A line start counted back from the end stands after a newline or at 0.
pub proof fn lemma_line_start(d: Seq<u8>, n: int)
    ensures
        0 <= line_start_back(d, n).0 <= d.len(),
        line_start_back(d, n).1 ==> line_start_back(d, n).0 == 0,
        line_start_back(d, n).0 > 0 ==> d[line_start_back(d, n).0 - 1] == 10,
{
    lemma_newline_back(d, end_of_content(d), n);
}

/// Bytes behind the last newline are counted.
proof fn lemma_no_newline_counted(d: Seq<u8>, p: int)
    requires
        0 <= p <= d.len(),
        forall|j: int| p <= j < d.len() ==> #[trigger] d[j] != 10,
    ensures
        after_last_newline(d) >= d.len() - p,
    decreases d.len() - p,
{
    if p < d.len() {
        assert(d[d.len() - 1] != 10);
        assert forall|j: int| p <= j < d.drop_last().len() implies #[trigger] d.drop_last()[j]
            != 10 by {
            assert(d[j] != 10);
        }
        lemma_no_newline_counted(d.drop_last(), p);
    } else {
        lemma_after_last_newline(d);
    }
}

proof fn lemma_no_newline_inside(d: Seq<u8>, p: int)
    requires
        0 <= p < d.len(),
    ensures
        p < line_end(d, p) <= d.len(),
        d[line_end(d, p) - 1] == 10 || line_end(d, p) == d.len(),
        forall|j: int| p <= j < line_end(d, p) - 1 ==> #[trigger] d[j] != 10,
    decreases d.len() - p,
{
    reveal_with_fuel(line_end, 2);
    if d[p] != 10 && p + 1 < d.len() {
        lemma_no_newline_inside(d, p + 1);
    }
}

/// Ending the last line moves no other line's end.
pub proof fn lemma_line_end_ended(d: Seq<u8>, p: int)
    requires
        0 <= p < d.len(),
    ensures
        p < line_end(d, p) <= d.len(),
        d[line_end(d, p) - 1] == 10 ==> line_end(ended(d), p) == line_end(d, p),
        d[line_end(d, p) - 1] != 10 ==> {
            &&& line_end(d, p) == d.len()
            &&& d.last() != 10
            &&& line_end(ended(d), p) == d.len() + 1
            &&& after_last_newline(d) >= d.len() - p
        },
    decreases d.len() - p,
{
    reveal_with_fuel(line_end, 2);
    let e = ended(d);
    assert(e[p] == d[p]);
    lemma_no_newline_inside(d, p);
    if d[p] != 10 {
        if p + 1 < d.len() {
            lemma_line_end_ended(d, p + 1);
        } else {
            assert(e[p + 1] == 10);
        }
    }
    if d[line_end(d, p) - 1] != 10 {
        lemma_no_newline_counted(d, p);
    }
}

/// What is added behind a last line that is ended moves no line's end.
pub proof fn lemma_line_end_same(d: Seq<u8>, more: Seq<u8>, p: int)
    requires
        0 <= p < d.len(),
        d.last() == 10,
    ensures
        line_end(d + more, p) == line_end(d, p),
    decreases d.len() - p,
{
    assert((d + more)[p] == d[p]);
    if d[p] != 10 {
        lemma_line_end_same(d, more, p + 1);
    }
}

/// No newline stands between the last line's start and the end of content.
proof fn lemma_no_newline_back(d: Seq<u8>, end: int)
    requires
        0 <= end <= d.len(),
    ensures
        ({
            let start = match newline_back(d, end, 1) {
                Some(p) => p + 1,
                None => 0,
            };
            &&& 0 <= start <= end
            &&& forall|j: int| start <= j < end ==> #[trigger] d[j] != 10
        }),
    decreases end,
{
    if end > 0 && d[end - 1] != 10 {
        lemma_no_newline_back(d, end - 1);
    }
}

/// A line with no newline inside ends where the file does.
pub proof fn lemma_line_end_without(d: Seq<u8>, p: int)
    requires
        0 <= p < d.len(),
        forall|j: int| p <= j < d.len() - 1 ==> #[trigger] d[j] != 10,
    ensures
        line_end(d, p) == d.len(),
    decreases d.len() - p,
{
    reveal_with_fuel(line_end, 2);
    if p < d.len() - 1 {
        assert(d[p] != 10);
        lemma_line_end_without(d, p + 1);
    }
}

/// The last line ends where the file does.
pub proof fn lemma_last_line_end(d: Seq<u8>)
    requires
        d.len() > 0,
    ensures
        line_start_back(d, 1).0 < d.len(),
        line_start_back(d, 1).0 <= end_of_content(d),
        line_end(d, line_start_back(d, 1).0) == d.len(),
{
    let end = end_of_content(d);
    let start = line_start_back(d, 1).0;
    lemma_newline_back(d, end, 1);
    lemma_no_newline_back(d, end);
    lemma_line_end_without(d, start);
}

/// The last line of a file is the line that was written last.
pub proof fn lemma_last_line_is(d: Seq<u8>, line: Seq<u8>)
    requires
        d.len() > 0 ==> d.last() == 10,
        line.len() > 0,
        line.last() == 10,
        forall|j: int| 0 <= j < line.len() - 1 ==> #[trigger] line[j] != 10,
    ensures
        last_line(d + line) == Some(line.drop_last()),
{
    let w = d + line;
    let start = line_start_back(w, 1).0;
    assert(w.last() == 10);
    lemma_last_line_end(w);
    lemma_line_start(w, 1);
    if start < d.len() {
        assert(w[d.len() - 1] == 10);
        lemma_line_ends_at_newline(w, start, d.len() - 1);
    }
    if start > d.len() {
        assert(w[start - 1] == line[start - 1 - d.len()]);
    }
    assert(w.subrange(start, w.len() - 1) =~= line.drop_last());
}

/// Where the line starts that ends before `end`.
pub open spec fn line_start_before(d: Seq<u8>, end: int) -> int {
    match newline_back(d, end - 1, 1) {
        Some(p) => p + 1,
        None => 0,
    }
}

/// The line that ends with the newline before `end` starts before it.
pub proof fn lemma_line_before(d: Seq<u8>, end: int)
    requires
        0 < end <= d.len(),
    ensures
        0 <= line_start_before(d, end) < end,
        line_start_before(d, end) > 0 ==> d[line_start_before(d, end) - 1] == 10,
        d[end - 1] == 10 ==> line_end(d, line_start_before(d, end)) == end,
{
    let start = line_start_before(d, end);
    lemma_newline_back(d, end - 1, 1);
    lemma_no_newline_back(d, end - 1);
    if d[end - 1] == 10 {
        lemma_line_ends_at_newline(d, start, end - 1);
        lemma_no_newline_inside(d, start);
    }
}

/// Counting back over a last line, newlines are found in what is before it.
pub proof fn lemma_newline_back_over(d: Seq<u8>, line: Seq<u8>, end: int, n: int)
    requires
        n >= 1,
        d.len() > 0 ==> d.last() == 10,
        forall|j: int| 0 <= j < line.len() - 1 ==> #[trigger] line[j] != 10,
        d.len() <= end < d.len() + line.len(),
    ensures
        newline_back(d + line, end, n) == newline_back(d, d.len() as int, n),
    decreases end,
{
    let w = d + line;
    if end > d.len() {
        assert(w[end - 1] == line[end - 1 - d.len()]);
        lemma_newline_back_over(d, line, end - 1, n);
    } else {
        lemma_newline_back_same(d, line, end, n);
    }
}

/// What follows makes no difference to the newlines before `end`.
pub proof fn lemma_newline_back_same(d: Seq<u8>, more: Seq<u8>, end: int, n: int)
    requires
        end <= d.len(),
    ensures
        newline_back(d + more, end, n) == newline_back(d, end, n),
    decreases end,
{
    if end > 0 && n > 0 {
        assert((d + more)[end - 1] == d[end - 1]);
        if d[end - 1] == 10 {
            if n != 1 {
                lemma_newline_back_same(d, more, end - 1, n - 1);
            }
        } else {
            lemma_newline_back_same(d, more, end - 1, n);
        }
    }
}

/// Counting lines back from the end. Behind a file whose last line is ended,
/// one more line, ended or not, is the last; the last but `n` of the file is
/// then one further back. A file has no more than `n` lines where fewer than
/// that are found.
pub proof fn law_lines_count_from_the_end(d: Seq<u8>, line: Seq<u8>, n: int)
    requires
        n >= 1,
        d.len() > 0 ==> d.last() == 10,
        line.len() > 0,
        forall|j: int| 0 <= j < line.len() - 1 ==> #[trigger] line[j] != 10,
    ensures
        line_start_back(d + line, 1) == (d.len() as int, d.len() == 0),
        d.len() > 0 ==> line_start_back(d + line, n + 1) == line_start_back(d, n),
        d.len() == 0 ==> line_start_back(d + line, n) == (0int, true),
        last_line(d + line) == Some(
            if line.last() == 10 {
                line.drop_last()
            } else {
                line
            },
        ),
        trailing_size(d + line) == {
            let size = if line.last() == 10 {
                line.len() - 1
            } else {
                line.len() as int
            };
            if size < MAX_JSON_LINE_SIZE {
                size
            } else {
                MAX_JSON_LINE_SIZE as int
            }
        },
{
    let w = d + line;
    assert(w.last() == line.last());
    let end = end_of_content(w);
    if line.last() == 10 {
        lemma_newline_back_over(d, line, end, 1);
        lemma_newline_back_over(d, line, end, n);
        lemma_newline_back_over(d, line, end, n + 1);
    } else {
        assert(w[end - 1] == line.last());
        lemma_newline_back_over(d, line, end - 1, 1);
        lemma_newline_back_over(d, line, end - 1, n);
        lemma_newline_back_over(d, line, end - 1, n + 1);
    }
    assert(w.subrange(d.len() as int, end) =~= line.take(end - d.len()));
    if line.last() == 10 {
        assert(line.take(end - d.len()) =~= line.drop_last());
    } else {
        assert(line.take(end - d.len()) =~= line);
    }
}

} // verus!
