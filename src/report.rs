//! The report: the rows of a table ordered by descending count, ties kept in
//! the order in which their lines were first seen. The order is found by a
//! merge sort over row positions.
use crate::table::{rows_of, DataCount, FrequencyTable};
use crate::tally::{
    count_in, is_arrangement, is_report_of, keys_unique, lemma_count_in_concat,
    lemma_count_in_insert, ranks_before, sorted_by_count, sum_counts, weight_of,
};
use vstd::prelude::*;

verus! {

/// The rows of `s` at positions `v`, in that order.
pub open spec fn picked(s: Seq<(Seq<char>, nat)>, v: Seq<usize>) -> Seq<(Seq<char>, nat)> {
    v.map_values(|i: usize| s[i as int])
}

/// Positions `v` are listed in report order.
pub open spec fn ranked(s: Seq<(Seq<char>, nat)>, v: Seq<usize>) -> bool {
    forall|a: int, b: int| 0 <= a < b < v.len() ==> ranks_before(s, #[trigger] v[a] as int, #[trigger] v[b] as int)
}

/// Every position in `v` lies in `lo..hi`.
pub open spec fn within(v: Seq<usize>, lo: int, hi: int) -> bool {
    forall|k: int| 0 <= k < v.len() ==> lo <= #[trigger] v[k] < hi
}

/// Appending a position adds the weight of its row to every count.
proof fn lemma_picked_push(s: Seq<(Seq<char>, nat)>, v: Seq<usize>, x: usize)
    requires
        x < s.len(),
    ensures
        forall|l: Seq<char>| #[trigger] count_in(picked(s, v.push(x)), l) == count_in(picked(s, v), l) + weight_of(s[x as int], l),
        sum_counts(picked(s, v.push(x))) == sum_counts(picked(s, v)) + s[x as int].1,
{
    let e = s[x as int];
    assert(picked(s, v.push(x)) =~= picked(s, v).insert(v.len() as int, e));
    assert forall|l: Seq<char>| #[trigger] count_in(picked(s, v.push(x)), l) == count_in(picked(s, v), l) + weight_of(e, l) by {
        lemma_count_in_insert(picked(s, v), v.len() as int, e, l);
    }
    lemma_count_in_insert(picked(s, v), v.len() as int, e, Seq::empty());
}

/// Whether the row at position `x` comes before the one at `y` in a report.
fn ranks_first(table: &FrequencyTable, x: usize, y: usize) -> (r: bool)
    requires
        table.wf(),
        x < table@.len(),
        y < table@.len(),
    ensures
        r == ranks_before(table@, x as int, y as int),
{
    let cx = table.count_at(x);
    let cy = table.count_at(y);
    cx > cy || (cx == cy && x < y)
}

/// Merges two lists of positions, each in report order and drawn from
/// adjacent ranges, into one list in report order.
fn merge(
    table: &FrequencyTable,
    a: &Vec<usize>,
    b: &Vec<usize>,
    Ghost(lo): Ghost<int>,
    Ghost(mid): Ghost<int>,
    Ghost(hi): Ghost<int>,
) -> (r: Vec<usize>)
    requires
        table.wf(),
        0 <= lo <= mid <= hi <= table@.len(),
        ranked(table@, a@),
        ranked(table@, b@),
        within(a@, lo, mid),
        within(b@, mid, hi),
    ensures
        r@.len() == a@.len() + b@.len(),
        ranked(table@, r@),
        within(r@, lo, hi),
        forall|l: Seq<char>| #[trigger] count_in(picked(table@, r@), l) == count_in(picked(table@, a@), l) + count_in(picked(table@, b@), l),
        sum_counts(picked(table@, r@)) == sum_counts(picked(table@, a@)) + sum_counts(picked(table@, b@)),
{
    let ghost s = table@;
    let mut out: Vec<usize> = Vec::new();
    let mut i: usize = 0;
    let mut j: usize = 0;
    assert(a@.take(0) =~= Seq::<usize>::empty());
    assert(b@.take(0) =~= Seq::<usize>::empty());
    assert(picked(s, Seq::<usize>::empty()) =~= Seq::<(Seq<char>, nat)>::empty());
    while i < a.len() || j < b.len()
        invariant
            table.wf(),
            s == table@,
            0 <= lo <= mid <= hi <= s.len(),
            ranked(s, a@),
            ranked(s, b@),
            within(a@, lo, mid),
            within(b@, mid, hi),
            i <= a@.len(),
            j <= b@.len(),
            out@.len() == i + j,
            ranked(s, out@),
            within(out@, lo, hi),
            forall|k: int, m: int| 0 <= k < out@.len() && i <= m < a@.len() ==> ranks_before(s, #[trigger] out@[k] as int, #[trigger] a@[m] as int),
            forall|k: int, m: int| 0 <= k < out@.len() && j <= m < b@.len() ==> ranks_before(s, #[trigger] out@[k] as int, #[trigger] b@[m] as int),
            forall|l: Seq<char>| #[trigger] count_in(picked(s, out@), l) == count_in(picked(s, a@.take(i as int)), l) + count_in(picked(s, b@.take(j as int)), l),
            sum_counts(picked(s, out@)) == sum_counts(picked(s, a@.take(i as int))) + sum_counts(picked(s, b@.take(j as int))),
        decreases a@.len() + b@.len() - i - j,
    {
        let take_a = j >= b.len() || (i < a.len() && ranks_first(table, a[i], b[j]));
        let ghost prev = out@;
        if take_a {
            let x = a[i];
            out.push(x);
            proof {
                assert(out@ == prev.push(x));
                assert forall|a1: int, b1: int| 0 <= a1 < b1 < out@.len() implies ranks_before(s, #[trigger] out@[a1] as int, #[trigger] out@[b1] as int) by {
                    if b1 == prev.len() {
                        assert(ranks_before(s, prev[a1] as int, a@[i as int] as int));
                    } else {
                        assert(ranks_before(s, prev[a1] as int, prev[b1] as int));
                    }
                }
                assert forall|k: int, m: int| 0 <= k < out@.len() && i + 1 <= m < a@.len() implies ranks_before(s, #[trigger] out@[k] as int, #[trigger] a@[m] as int) by {
                    if k == prev.len() {
                        assert(ranks_before(s, a@[i as int] as int, a@[m] as int));
                    } else {
                        assert(ranks_before(s, prev[k] as int, a@[m] as int));
                    }
                }
                assert forall|k: int, m: int| 0 <= k < out@.len() && j <= m < b@.len() implies ranks_before(s, #[trigger] out@[k] as int, #[trigger] b@[m] as int) by {
                    if k == prev.len() {
                        assert(ranks_before(s, a@[i as int] as int, b@[j as int] as int));
                        if m > j {
                            assert(ranks_before(s, b@[j as int] as int, b@[m] as int));
                        }
                    } else {
                        assert(ranks_before(s, prev[k] as int, b@[m] as int));
                    }
                }
                assert(a@.take(i as int + 1) =~= a@.take(i as int).push(x));
                lemma_picked_push(s, prev, x);
                lemma_picked_push(s, a@.take(i as int), x);
            }
            i = i + 1;
        } else {
            let x = b[j];
            out.push(x);
            proof {
                assert(out@ == prev.push(x));
                if i < a@.len() {
                    assert(a@[i as int] < mid <= b@[j as int]);
                    assert(ranks_before(s, b@[j as int] as int, a@[i as int] as int));
                }
                assert forall|a1: int, b1: int| 0 <= a1 < b1 < out@.len() implies ranks_before(s, #[trigger] out@[a1] as int, #[trigger] out@[b1] as int) by {
                    if b1 == prev.len() {
                        assert(ranks_before(s, prev[a1] as int, b@[j as int] as int));
                    } else {
                        assert(ranks_before(s, prev[a1] as int, prev[b1] as int));
                    }
                }
                assert forall|k: int, m: int| 0 <= k < out@.len() && j + 1 <= m < b@.len() implies ranks_before(s, #[trigger] out@[k] as int, #[trigger] b@[m] as int) by {
                    if k == prev.len() {
                        assert(ranks_before(s, b@[j as int] as int, b@[m] as int));
                    } else {
                        assert(ranks_before(s, prev[k] as int, b@[m] as int));
                    }
                }
                assert forall|k: int, m: int| 0 <= k < out@.len() && i <= m < a@.len() implies ranks_before(s, #[trigger] out@[k] as int, #[trigger] a@[m] as int) by {
                    if k == prev.len() {
                        if m > i {
                            assert(ranks_before(s, a@[i as int] as int, a@[m] as int));
                        }
                    } else {
                        assert(ranks_before(s, prev[k] as int, a@[m] as int));
                    }
                }
                assert(b@.take(j as int + 1) =~= b@.take(j as int).push(x));
                lemma_picked_push(s, prev, x);
                lemma_picked_push(s, b@.take(j as int), x);
            }
            j = j + 1;
        }
    }
    assert(a@.take(i as int) =~= a@);
    assert(b@.take(j as int) =~= b@);
    out
}

/// The positions `lo..hi` of `table`, in report order.
fn sort_range(table: &FrequencyTable, lo: usize, hi: usize) -> (r: Vec<usize>)
    requires
        table.wf(),
        lo <= hi <= table@.len(),
    ensures
        r@.len() == hi - lo,
        ranked(table@, r@),
        within(r@, lo as int, hi as int),
        forall|l: Seq<char>| #[trigger] count_in(picked(table@, r@), l) == count_in(table@.subrange(lo as int, hi as int), l),
        sum_counts(picked(table@, r@)) == sum_counts(table@.subrange(lo as int, hi as int)),
    decreases hi - lo,
{
    let ghost s = table@;
    if hi - lo <= 1 {
        let mut r: Vec<usize> = Vec::new();
        if hi > lo {
            r.push(lo);
        }
        assert(picked(s, r@) =~= s.subrange(lo as int, hi as int));
        r
    } else {
        let mid = lo + (hi - lo) / 2;
        let a = sort_range(table, lo, mid);
        let b = sort_range(table, mid, hi);
        let r = merge(table, &a, &b, Ghost(lo as int), Ghost(mid as int), Ghost(hi as int));
        proof {
            let x = s.subrange(lo as int, mid as int);
            let y = s.subrange(mid as int, hi as int);
            assert(s.subrange(lo as int, hi as int) =~= x + y);
            assert forall|l: Seq<char>| #[trigger] count_in(picked(s, r@), l) == count_in(s.subrange(lo as int, hi as int), l) by {
                lemma_count_in_concat(x, y, l);
            }
            lemma_count_in_concat(x, y, Seq::empty());
        }
        r
    }
}

/// The rows of `table` ordered by descending count; rows with equal counts
/// keep the order in which their lines were first seen.
pub fn build_report(table: &FrequencyTable) -> (r: Vec<DataCount>)
    requires
        table.wf(),
    ensures
        is_report_of(table@, rows_of(r@)),
        sorted_by_count(rows_of(r@)),
{
    let order = sort_range(table, 0, table.len());
    let r = table.rows_at(&order);
    proof {
        let s = table@;
        table.lemma_well_formed();
        let rs = rows_of(r@);
        let p = order@.map_values(|i: usize| i as int);
        assert(rs =~= picked(s, order@));
        assert(s.subrange(0, s.len() as int) =~= s);
        assert forall|a: int, b: int| 0 <= a < b < p.len() implies ranks_before(s, #[trigger] p[a], #[trigger] p[b]) by {
            assert(ranks_before(s, order@[a] as int, order@[b] as int));
        }
        assert(is_arrangement(s, rs, p));
        assert forall|a: int, b: int| 0 <= a < b < rs.len() implies rs[a].0 != rs[b].0 && rs[a].1 >= rs[b].1 by {
            assert(ranks_before(s, order@[a] as int, order@[b] as int));
        }
        assert(keys_unique(rs));
    }
    r
}

} // verus!
