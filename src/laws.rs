//! Facts about a whole run: the lines read, counted into an empty table in
//! the order they arrived, and the report built from that table.
use crate::tally::{
    count_in, counted, has_key, is_arrangement, is_report_of, keys_unique, lemma_count_in_unique, lemma_counted,
    sum_counts, well_formed,
};
use vstd::prelude::*;

verus! {

/// Every line read is accounted for: the counts of the report sum to the
/// number of lines.
pub proof fn lemma_report_sums_to_line_count(lines: Seq<Seq<char>>, r: Seq<(Seq<char>, nat)>)
    requires
        is_report_of(counted(Seq::empty(), lines), r),
    ensures
        sum_counts(r) == lines.len(),
{
    assert(well_formed(Seq::<(Seq<char>, nat)>::empty()));
    lemma_counted(Seq::empty(), lines);
}

/// A line that occurs k times among the lines read has exactly one row in
/// the report, and that row's count is k; a line that does not occur has none.
pub proof fn lemma_report_row_per_line(
    lines: Seq<Seq<char>>,
    r: Seq<(Seq<char>, nat)>,
    l: Seq<char>,
)
    requires
        is_report_of(counted(Seq::empty(), lines), r),
    ensures
        lines.contains(l) ==> exists|i: int| 0 <= i < r.len() && r[i] == (l, lines.to_multiset().count(l)),
        forall|i: int, j: int| 0 <= i < r.len() && 0 <= j < r.len() && r[i].0 == l && r[j].0 == l ==> i == j,
        !lines.contains(l) ==> forall|i: int| 0 <= i < r.len() ==> r[i].0 != l,
{
    broadcast use vstd::seq_lib::group_to_multiset_ensures;

    assert(well_formed(Seq::<(Seq<char>, nat)>::empty()));
    lemma_counted(Seq::empty(), lines);
    lemma_count_in_unique(r, l);
    assert(count_in(r, l) == lines.to_multiset().count(l));
    if lines.contains(l) {
        assert(has_key(r, l));
        let i = choose|i: int| 0 <= i < r.len() && r[i].0 == l;
        assert(r[i] == (l, lines.to_multiset().count(l)));
    } else {
        let s = counted(Seq::empty(), lines);
        let p = choose|p: Seq<int>| is_arrangement(s, r, p);
        assert forall|i: int| 0 <= i < r.len() implies r[i].0 != l by {
            assert(r[i] == s[p[i]]);
        }
    }
}

/// The report does not depend on the order in which lines were counted, as
/// the lines are spread over any number of workers: two arrival orders of
/// the same lines give reports with the same rows, up to the order of rows
/// with equal counts.
pub proof fn lemma_report_independent_of_arrival_order(
    a: Seq<Seq<char>>,
    b: Seq<Seq<char>>,
    ra: Seq<(Seq<char>, nat)>,
    rb: Seq<(Seq<char>, nat)>,
)
    requires
        a.to_multiset() == b.to_multiset(),
        is_report_of(counted(Seq::empty(), a), ra),
        is_report_of(counted(Seq::empty(), b), rb),
    ensures
        ra.to_multiset() == rb.to_multiset(),
{
    broadcast use vstd::seq_lib::group_to_multiset_ensures;

    assert forall|x: (Seq<char>, nat)| ra.contains(x) <==> rb.contains(x) by {
        let l = x.0;
        lemma_report_row_per_line(a, ra, l);
        lemma_report_row_per_line(b, rb, l);
        assert(a.contains(l) <==> b.contains(l)) by {
            assert(a.to_multiset().count(l) == b.to_multiset().count(l));
        }
        if ra.contains(x) {
            let i = choose|i: int| 0 <= i < ra.len() && ra[i] == x;
            let j = choose|j: int| 0 <= j < rb.len() && rb[j] == (l, b.to_multiset().count(l));
            assert(rb[j] == x);
        }
        if rb.contains(x) {
            let j = choose|j: int| 0 <= j < rb.len() && rb[j] == x;
            let i = choose|i: int| 0 <= i < ra.len() && ra[i] == (l, a.to_multiset().count(l));
            assert(ra[i] == x);
        }
    }
    lemma_unique_keys_no_duplicates(ra);
    lemma_unique_keys_no_duplicates(rb);
    ra.lemma_multiset_has_no_duplicates();
    rb.lemma_multiset_has_no_duplicates();
    assert(ra.to_multiset() =~= rb.to_multiset());
}

/// Rows with distinct lines are distinct rows.
proof fn lemma_unique_keys_no_duplicates(r: Seq<(Seq<char>, nat)>)
    requires
        keys_unique(r),
    ensures
        r.no_duplicates(),
{
    assert forall|i: int, j: int| 0 <= i < r.len() && 0 <= j < r.len() && i != j implies r[i] != r[j] by {
        if i < j {
            assert(r[i].0 != r[j].0);
        } else {
            assert(r[j].0 != r[i].0);
        }
    }
}

} // verus!
