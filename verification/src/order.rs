//! Newest first: the order in which rows are shown.

use vstd::prelude::*;

verus! {

/// Whether item `a` is shown before item `b`: it is newer, or as old and
/// later in the list.
pub open spec fn before(ts: Seq<i64>, a: int, b: int) -> bool {
    ts[a] > ts[b] || (ts[a] == ts[b] && a > b)
}

/// `order` with item `k` put before the first item that is not newer.
pub open spec fn placed(ts: Seq<i64>, order: Seq<int>, k: int) -> Seq<int>
    decreases order.len(),
{
    if order.len() == 0 || ts[order[0]] <= ts[k] {
        seq![k] + order
    } else {
        seq![order[0]] + placed(ts, order.drop_first(), k)
    }
}

/// The items by time, newest first. Items as old as each other stand in
/// reverse, the later one first.
pub open spec fn newest_order(ts: Seq<i64>) -> Seq<int>
    decreases ts.len(),
{
    if ts.len() == 0 {
        Seq::empty()
    } else {
        placed(ts, newest_order(ts.drop_last()), ts.len() - 1)
    }
}

/// Whether each item of `order` is shown before every later one.
pub open spec fn is_ordered(ts: Seq<i64>, order: Seq<int>) -> bool {
    forall|a: int, b: int|
        #![trigger order[a], order[b]]
        0 <= a < b < order.len() ==> before(ts, order[a], order[b])
}

/// Whether `order` holds just the numbers from `lo` up to `hi`.
pub open spec fn holds_range(order: Seq<int>, lo: int, hi: int) -> bool {
    &&& forall|a: int| 0 <= a < order.len() ==> lo <= #[trigger] order[a] < hi
    &&& forall|k: int| lo <= k < hi ==> #[trigger] order.contains(k)
}

proof fn lemma_placed(ts: Seq<i64>, order: Seq<int>, k: int)
    requires
        is_ordered(ts, order),
        forall|a: int| 0 <= a < order.len() ==> 0 <= #[trigger] order[a] < k,
    ensures
        is_ordered(ts, placed(ts, order, k)),
        placed(ts, order, k).len() == order.len() + 1,
        forall|x: int| #[trigger] placed(ts, order, k).contains(x) <==> x == k || order.contains(x),
    decreases order.len(),
{
    let r = placed(ts, order, k);
    if order.len() == 0 || ts[order[0]] <= ts[k] {
        assert(r =~= seq![k] + order);
        assert forall|a: int, b: int|
            #![trigger r[a], r[b]]
            0 <= a < b < r.len() implies before(ts, r[a], r[b]) by {
            if a == 0 {
                assert(r[b] == order[b - 1]);
                if b > 1 {
                    assert(before(ts, order[0], order[b - 1]));
                }
            } else {
                assert(r[a] == order[a - 1] && r[b] == order[b - 1]);
            }
        }
        assert forall|x: int| #[trigger] r.contains(x) <==> x == k || order.contains(x) by {
            if order.contains(x) {
                let j = choose|j: int| 0 <= j < order.len() && order[j] == x;
                assert(r[j + 1] == x);
            }
            if r.contains(x) && x != k {
                let j = choose|j: int| 0 <= j < r.len() && r[j] == x;
                assert(order[j - 1] == x);
            }
            assert(r[0] == k);
        }
    } else {
        let rest = order.drop_first();
        assert(is_ordered(ts, rest)) by {
            assert forall|a: int, b: int|
                #![trigger rest[a], rest[b]]
                0 <= a < b < rest.len() implies before(ts, rest[a], rest[b]) by {
                assert(rest[a] == order[a + 1] && rest[b] == order[b + 1]);
            }
        }
        lemma_placed(ts, rest, k);
        let tail = placed(ts, rest, k);
        assert(r =~= seq![order[0]] + tail);
        assert forall|a: int, b: int|
            #![trigger r[a], r[b]]
            0 <= a < b < r.len() implies before(ts, r[a], r[b]) by {
            assert(r[b] == tail[b - 1]);
            if a == 0 {
                assert(tail.contains(tail[b - 1]));
                if tail[b - 1] != k {
                    let j = choose|j: int| 0 <= j < rest.len() && rest[j] == tail[b - 1];
                    assert(rest[j] == order[j + 1]);
                }
            } else {
                assert(r[a] == tail[a - 1]);
            }
        }
        assert forall|x: int| #[trigger] r.contains(x) <==> x == k || order.contains(x) by {
            if tail.contains(x) {
                let j = choose|j: int| 0 <= j < tail.len() && tail[j] == x;
                assert(r[j + 1] == x);
            }
            if rest.contains(x) {
                let j = choose|j: int| 0 <= j < rest.len() && rest[j] == x;
                assert(order[j + 1] == x);
            }
            if order.contains(x) {
                let j = choose|j: int| 0 <= j < order.len() && order[j] == x;
                if j > 0 {
                    assert(rest[j - 1] == x);
                }
            }
            if r.contains(x) {
                let j = choose|j: int| 0 <= j < r.len() && r[j] == x;
                if j > 0 {
                    assert(tail[j - 1] == x);
                }
            }
            assert(r[0] == order[0]);
        }
    }
}

/// Times that agree up to `n` put items below `n` in the same order.
proof fn lemma_ordered_same(ts: Seq<i64>, us: Seq<i64>, order: Seq<int>, n: int)
    requires
        is_ordered(ts, order),
        forall|a: int| 0 <= a < order.len() ==> 0 <= #[trigger] order[a] < n,
        forall|a: int| 0 <= a < n ==> ts[a] == us[a],
    ensures
        is_ordered(us, order),
{
    assert forall|a: int, b: int|
        #![trigger order[a], order[b]]
        0 <= a < b < order.len() implies before(us, order[a], order[b]) by {
        assert(before(ts, order[a], order[b]));
    }
}

/// `newest_order` holds every item once, each shown before every later one.
pub proof fn lemma_newest_order(ts: Seq<i64>)
    ensures
        newest_order(ts).len() == ts.len(),
        is_ordered(ts, newest_order(ts)),
        holds_range(newest_order(ts), 0, ts.len() as int),
    decreases ts.len(),
{
    if ts.len() > 0 {
        let us = ts.drop_last();
        lemma_newest_order(us);
        let order = newest_order(us);
        lemma_ordered_same(us, ts, order, us.len() as int);
        lemma_placed(ts, order, ts.len() - 1);
        let r = newest_order(ts);
        assert forall|a: int| 0 <= a < r.len() implies 0 <= #[trigger] r[a] < ts.len() by {
            assert(r.contains(r[a]));
            if r[a] != ts.len() - 1 {
                let j = choose|j: int| 0 <= j < order.len() && order[j] == r[a];
                assert(0 <= order[j] < us.len());
            }
        }
        assert forall|k: int| 0 <= k < ts.len() implies #[trigger] r.contains(k) by {
            if k < ts.len() - 1 {
                assert(order.contains(k));
            }
        }
    }
}

/// Only one order shows the same items each before every later one.
pub proof fn lemma_order_unique(ts: Seq<i64>, a: Seq<int>, b: Seq<int>)
    requires
        is_ordered(ts, a),
        is_ordered(ts, b),
        forall|x: int| a.contains(x) <==> b.contains(x),
    ensures
        a == b,
    decreases a.len(),
{
    if a.len() == 0 {
        if b.len() > 0 {
            assert(b.contains(b[0]));
            assert(a.contains(b[0]));
        }
        assert(a =~= b);
    } else {
        assert(a.contains(a[0]));
        assert(b.contains(a[0]));
        let j = choose|j: int| 0 <= j < b.len() && b[j] == a[0];
        assert(b.contains(b[0]));
        assert(a.contains(b[0]));
        let k = choose|k: int| 0 <= k < a.len() && a[k] == b[0];
        if j > 0 && k > 0 {
            assert(before(ts, b[0], b[j]));
            assert(before(ts, a[0], a[k]));
        }
        assert(a[0] == b[0]);
        let ra = a.drop_first();
        let rb = b.drop_first();
        assert(is_ordered(ts, ra)) by {
            assert forall|p: int, q: int|
                #![trigger ra[p], ra[q]]
                0 <= p < q < ra.len() implies before(ts, ra[p], ra[q]) by {
                assert(ra[p] == a[p + 1] && ra[q] == a[q + 1]);
            }
        }
        assert(is_ordered(ts, rb)) by {
            assert forall|p: int, q: int|
                #![trigger rb[p], rb[q]]
                0 <= p < q < rb.len() implies before(ts, rb[p], rb[q]) by {
                assert(rb[p] == b[p + 1] && rb[q] == b[q + 1]);
            }
        }
        assert forall|x: int| ra.contains(x) <==> rb.contains(x) by {
            if ra.contains(x) {
                let p = choose|p: int| 0 <= p < ra.len() && ra[p] == x;
                assert(a[p + 1] == x);
                assert(before(ts, a[0], a[p + 1]));
                assert(a.contains(x));
                assert(b.contains(x));
                let q = choose|q: int| 0 <= q < b.len() && b[q] == x;
                assert(q > 0);
                assert(rb[q - 1] == x);
            }
            if rb.contains(x) {
                let p = choose|p: int| 0 <= p < rb.len() && rb[p] == x;
                assert(b[p + 1] == x);
                assert(before(ts, b[0], b[p + 1]));
                assert(b.contains(x));
                assert(a.contains(x));
                let q = choose|q: int| 0 <= q < a.len() && a[q] == x;
                assert(q > 0);
                assert(ra[q - 1] == x);
            }
        }
        lemma_order_unique(ts, ra, rb);
        assert(a =~= seq![a[0]] + ra);
        assert(b =~= seq![b[0]] + rb);
    }
}

/// Positions as integers.
pub open spec fn ints(s: Seq<usize>) -> Seq<int> {
    s.map_values(|k: usize| k as int)
}

fn shown_before(ts: &[i64], a: usize, b: usize) -> (r: bool)
    requires
        a < ts@.len(),
        b < ts@.len(),
    ensures
        r == before(ts@, a as int, b as int),
{
    ts[a] > ts[b] || (ts[a] == ts[b] && a > b)
}

/// Two ordered lists merged into one.
fn merge(ts: &[i64], a: &Vec<usize>, b: &Vec<usize>, lo: usize, mid: usize, hi: usize) -> (r: Vec<
    usize,
>)
    requires
        lo <= mid <= hi <= ts@.len(),
        is_ordered(ts@, ints(a@)),
        is_ordered(ts@, ints(b@)),
        holds_range(ints(a@), lo as int, mid as int),
        holds_range(ints(b@), mid as int, hi as int),
    ensures
        is_ordered(ts@, ints(r@)),
        holds_range(ints(r@), lo as int, hi as int),
{
    let mut out: Vec<usize> = Vec::new();
    let mut i: usize = 0;
    let mut j: usize = 0;
    while i < a.len() || j < b.len()
        invariant
            lo <= mid <= hi <= ts@.len(),
            i <= a@.len(),
            j <= b@.len(),
            is_ordered(ts@, ints(a@)),
            is_ordered(ts@, ints(b@)),
            holds_range(ints(a@), lo as int, mid as int),
            holds_range(ints(b@), mid as int, hi as int),
            is_ordered(ts@, ints(out@)),
            forall|p: int| 0 <= p < out@.len() ==> lo <= #[trigger] ints(out@)[p] < hi,
            forall|p: int, q: int|
                #![trigger ints(out@)[p], ints(a@)[q]]
                0 <= p < out@.len() && i <= q < a@.len() ==> before(
                    ts@,
                    ints(out@)[p],
                    ints(a@)[q],
                ),
            forall|p: int, q: int|
                #![trigger ints(out@)[p], ints(b@)[q]]
                0 <= p < out@.len() && j <= q < b@.len() ==> before(
                    ts@,
                    ints(out@)[p],
                    ints(b@)[q],
                ),
            forall|q: int| 0 <= q < i ==> ints(out@).contains(#[trigger] ints(a@)[q]),
            forall|q: int| 0 <= q < j ==> ints(out@).contains(#[trigger] ints(b@)[q]),
        decreases a@.len() - i + b@.len() - j,
    {
        let ghost old_out = out@;
        let ghost ia = ints(a@);
        let ghost ib = ints(b@);
        let from_a: bool;
        if i < a.len() && j < b.len() {
            assert(lo <= ia[i as int] < mid);
            assert(mid <= ib[j as int] < hi);
            from_a = shown_before(ts, a[i], b[j]);
        } else {
            from_a = i < a.len();
        }
        let next: usize = if from_a { a[i] } else { b[j] };
        proof {
            if from_a {
                assert(ia[i as int] == next);
                assert forall|q: int| i < q < a@.len() implies before(ts@, next as int, ia[q]) by {
                    assert(before(ts@, ia[i as int], ia[q]));
                }
                assert forall|q: int| j <= q < b@.len() implies before(ts@, next as int, ib[q]) by {
                    if q > j {
                        assert(before(ts@, ib[j as int], ib[q]));
                    } else {
                        assert(ib[q] == b@[q]);
                    }
                }
            } else {
                assert(ib[j as int] == next);
                assert forall|q: int| j < q < b@.len() implies before(ts@, next as int, ib[q]) by {
                    assert(before(ts@, ib[j as int], ib[q]));
                }
                assert forall|q: int| i <= q < a@.len() implies before(ts@, next as int, ia[q]) by {
                    assert(lo <= ia[q] < mid);
                    if q > i {
                        assert(before(ts@, ia[i as int], ia[q]));
                        assert(lo <= ia[i as int] < mid);
                    }
                }
            }
        }
        out.push(next);
        proof {
            let io = ints(old_out);
            let no = ints(out@);
            assert(no =~= io.push(next as int));
            assert forall|p: int| 0 <= p < no.len() implies lo <= #[trigger] no[p] < hi by {
                if p < io.len() {
                    assert(no[p] == io[p]);
                }
            }
            assert forall|p: int, q: int|
                #![trigger no[p], no[q]]
                0 <= p < q < no.len() implies before(ts@, no[p], no[q]) by {
                assert(no[p] == io[p]);
                if q < io.len() {
                    assert(no[q] == io[q]);
                } else if from_a {
                    assert(before(ts@, io[p], ia[i as int]));
                } else {
                    assert(before(ts@, io[p], ib[j as int]));
                }
            }
            assert forall|x: int| io.contains(x) implies #[trigger] no.contains(x) by {
                let p = choose|p: int| 0 <= p < io.len() && io[p] == x;
                assert(no[p] == x);
            }
            assert(no[io.len() as int] == next);
            assert(no.contains(next as int));
            assert forall|p: int, q: int|
                #![trigger no[p], ia[q]]
                0 <= p < no.len() && (if from_a {
                    i + 1
                } else {
                    i as int
                }) <= q < a@.len() implies before(ts@, no[p], ia[q]) by {
                if p < io.len() {
                    assert(no[p] == io[p]);
                }
            }
            assert forall|p: int, q: int|
                #![trigger no[p], ib[q]]
                0 <= p < no.len() && (if from_a {
                    j as int
                } else {
                    j + 1
                }) <= q < b@.len() implies before(ts@, no[p], ib[q]) by {
                if p < io.len() {
                    assert(no[p] == io[p]);
                }
            }
        }
        if from_a {
            i = i + 1;
        } else {
            j = j + 1;
        }
    }
    proof {
        let no = ints(out@);
        assert forall|k: int| lo <= k < hi implies #[trigger] no.contains(k) by {
            if k < mid {
                assert(ints(a@).contains(k));
                let q = choose|q: int| 0 <= q < ints(a@).len() && ints(a@)[q] == k;
                assert(no.contains(ints(a@)[q]));
            } else {
                assert(ints(b@).contains(k));
                let q = choose|q: int| 0 <= q < ints(b@).len() && ints(b@)[q] == k;
                assert(no.contains(ints(b@)[q]));
            }
        }
    }
    out
}

/// The items from `lo` to `hi` in order, each half sorted by itself first.
fn sort_range(ts: &[i64], lo: usize, hi: usize) -> (r: Vec<usize>)
    requires
        lo <= hi <= ts@.len(),
    ensures
        is_ordered(ts@, ints(r@)),
        holds_range(ints(r@), lo as int, hi as int),
    decreases hi - lo,
{
    if hi - lo <= 1 {
        let mut out: Vec<usize> = Vec::new();
        if lo < hi {
            out.push(lo);
            assert(ints(out@)[0] == lo);
        }
        out
    } else {
        let mid: usize = lo + (hi - lo) / 2;
        let a: Vec<usize> = sort_range(ts, lo, mid);
        let b: Vec<usize> = sort_range(ts, mid, hi);
        merge(ts, &a, &b, lo, mid, hi)
    }
}

/// The items by time, newest first, as their positions.
pub fn sort_newest(ts: &[i64]) -> (r: Vec<usize>)
    ensures
        ints(r@) == newest_order(ts@),
{
    let order: Vec<usize> = sort_range(ts, 0, ts.len());
    proof {
        lemma_newest_order(ts@);
        let a = ints(order@);
        let b = newest_order(ts@);
        assert forall|x: int| a.contains(x) <==> b.contains(x) by {
            if a.contains(x) {
                let p = choose|p: int| 0 <= p < a.len() && a[p] == x;
                assert(0 <= a[p] < ts@.len());
                assert(b.contains(x));
            }
            if b.contains(x) {
                let p = choose|p: int| 0 <= p < b.len() && b[p] == x;
                assert(0 <= b[p] < ts@.len());
                assert(a.contains(x));
            }
        }
        lemma_order_unique(ts@, a, b);
    }
    order
}

/// The items taken one by one in the given order.
pub fn arrange<T>(items: Vec<T>, order: &Vec<usize>) -> (r: Vec<T>)
    requires
        forall|a: int| 0 <= a < order@.len() ==> #[trigger] order@[a] < items@.len(),
        forall|a: int, b: int| 0 <= a < b < order@.len() ==> order@[a] != order@[b],
    ensures
        r@ == Seq::new(order@.len(), |k: int| items@[order@[k] as int]),
{
    let ghost all = items@;
    let n: usize = items.len();
    let mut rest: Vec<T> = items;
    let mut slots: Vec<Option<T>> = Vec::new();
    while rest.len() > 0
        invariant
            n == all.len(),
            rest@.len() + slots@.len() == n,
            rest@ == all.take(rest@.len() as int),
            forall|k: int| 0 <= k < slots@.len() ==> #[trigger] slots@[k] == Some(all[n - 1 - k]),
        decreases rest@.len(),
    {
        match rest.pop() {
            Some(x) => {
                slots.push(Some(x));
            },
            None => {},
        }
        assert(rest@ =~= all.take(rest@.len() as int));
    }
    let mut out: Vec<T> = Vec::new();
    let mut a: usize = 0;
    while a < order.len()
        invariant
            a <= order@.len(),
            n == all.len(),
            slots@.len() == n,
            forall|k: int| 0 <= k < order@.len() ==> #[trigger] order@[k] < n,
            forall|p: int, q: int| 0 <= p < q < order@.len() ==> order@[p] != order@[q],
            out@.len() == a,
            forall|k: int| 0 <= k < a ==> #[trigger] out@[k] == all[order@[k] as int],
            forall|k: int|
                a <= k < order@.len() ==> slots@[n - 1 - #[trigger] order@[k]] == Some(
                    all[order@[k] as int],
                ),
        decreases order@.len() - a,
    {
        let at: usize = order[a];
        let mut slot: Option<T> = None;
        assert(slots@[n - 1 - order@[a as int]] == Some(all[order@[a as int] as int]));
        std::mem::swap(&mut slot, &mut slots[n - 1 - at]);
        match slot {
            Some(x) => {
                out.push(x);
            },
            None => {
                assert(false);
            },
        }
        a = a + 1;
    }
    assert(out@ =~= Seq::new(order@.len(), |k: int| all[order@[k] as int]));
    out
}

/// The items newest first, by the times that go with them.
pub open spec fn newest_of<T>(items: Seq<T>, ts: Seq<i64>) -> Seq<T> {
    Seq::new(items.len(), |k: int| items[newest_order(ts)[k]])
}

/// Puts items in the order they are shown in, by the times that go with them.
pub fn sort_by_time<T>(items: Vec<T>, ts: &Vec<i64>) -> (r: Vec<T>)
    requires
        ts@.len() == items@.len(),
    ensures
        r@ == newest_of(items@, ts@),
{
    let order: Vec<usize> = sort_newest(ts.as_slice());
    let ghost o = ints(order@);
    proof {
        lemma_newest_order(ts@);
        assert(o.len() == order@.len());
        assert forall|a: int| 0 <= a < order@.len() implies #[trigger] order@[a] < items@.len() by {
            assert(o[a] == order@[a]);
            assert(0 <= o[a] < ts@.len());
        }
        assert forall|a: int, b: int| 0 <= a < b < order@.len() implies order@[a] != order@[b] by {
            assert(o[a] == order@[a] && o[b] == order@[b]);
            assert(before(ts@, o[a], o[b]));
        }
    }
    let ghost all = items@;
    let out: Vec<T> = arrange(items, &order);
    proof {
        assert forall|k: int| 0 <= k < out@.len() implies out@[k] == newest_of(all, ts@)[k] by {
            assert(o[k] == order@[k]);
        }
        assert(out@ =~= newest_of(all, ts@));
    }
    out
}

} // verus!
