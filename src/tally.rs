//! The mathematical model of a tally: a sequence of rows, each a line's text
//! and the number of times it was seen, kept in the order lines first appeared.
use vstd::multiset::Multiset;
use vstd::prelude::*;

verus! {

/// What a row contributes to the count of line `l`.
pub open spec fn weight_of(e: (Seq<char>, nat), l: Seq<char>) -> nat {
    if e.0 == l {
        e.1
    } else {
        0
    }
}

/// Sum of the counts of the rows whose line is `l`.
pub open spec fn count_in(s: Seq<(Seq<char>, nat)>, l: Seq<char>) -> nat
    decreases s.len(),
{
    if s.len() == 0 {
        0
    } else {
        count_in(s.drop_last(), l) + weight_of(s.last(), l)
    }
}

/// Sum of the counts of all rows.
pub open spec fn sum_counts(s: Seq<(Seq<char>, nat)>) -> nat
    decreases s.len(),
{
    if s.len() == 0 {
        0
    } else {
        sum_counts(s.drop_last()) + s.last().1
    }
}

/// Whether some row holds line `l`.
pub open spec fn has_key(s: Seq<(Seq<char>, nat)>, l: Seq<char>) -> bool {
    exists|i: int| 0 <= i < s.len() && s[i].0 == l
}

/// No two rows hold the same line.
pub open spec fn keys_unique(s: Seq<(Seq<char>, nat)>) -> bool {
    forall|i: int, j: int| 0 <= i < j < s.len() ==> s[i].0 != s[j].0
}

/// A tally: one row per distinct line, each with a positive count.
pub open spec fn well_formed(s: Seq<(Seq<char>, nat)>) -> bool {
    &&& keys_unique(s)
    &&& forall|i: int| 0 <= i < s.len() ==> s[i].1 > 0
}

/// The tally after one more occurrence of `l`: its row's count grows by one,
/// or a new row `(l, 1)` is appended when `l` was not seen before.
pub open spec fn bump(s: Seq<(Seq<char>, nat)>, l: Seq<char>) -> Seq<(Seq<char>, nat)> {
    if has_key(s, l) {
        let i = choose|i: int| 0 <= i < s.len() && s[i].0 == l;
        s.update(i, (l, s[i].1 + 1))
    } else {
        s.push((l, 1))
    }
}

/// The tally after counting `lines`, in order, on top of `s`.
pub open spec fn counted(s: Seq<(Seq<char>, nat)>, lines: Seq<Seq<char>>) -> Seq<(Seq<char>, nat)>
    decreases lines.len(),
{
    if lines.len() == 0 {
        s
    } else {
        bump(counted(s, lines.drop_last()), lines.last())
    }
}

/// Row `i` of `s` comes before row `j` in a report: a higher count first,
/// and among equal counts the line that was seen first.
pub open spec fn ranks_before(s: Seq<(Seq<char>, nat)>, i: int, j: int) -> bool {
    s[i].1 > s[j].1 || (s[i].1 == s[j].1 && i < j)
}

/// `r` lists the rows of `s` in the positions `p` of `s`, ordered by `ranks_before`.
pub open spec fn is_arrangement(
    s: Seq<(Seq<char>, nat)>,
    r: Seq<(Seq<char>, nat)>,
    p: Seq<int>,
) -> bool {
    &&& p.len() == s.len()
    &&& r.len() == s.len()
    &&& forall|k: int| 0 <= k < p.len() ==> 0 <= #[trigger] p[k] < s.len() && r[k] == s[p[k]]
    &&& forall|a: int, b: int| 0 <= a < b < p.len() ==> ranks_before(s, #[trigger] p[a], #[trigger] p[b])
}

/// Counts never increase along `r`.
pub open spec fn sorted_by_count(r: Seq<(Seq<char>, nat)>) -> bool {
    forall|i: int, j: int| 0 <= i < j < r.len() ==> r[i].1 >= r[j].1
}

/// `r` is the report of tally `s`: the rows of `s`, each once, ordered by
/// descending count with ties in first-seen order; hence the same count for
/// every line and the same sum of counts.
pub open spec fn is_report_of(s: Seq<(Seq<char>, nat)>, r: Seq<(Seq<char>, nat)>) -> bool {
    &&& exists|p: Seq<int>| is_arrangement(s, r, p)
    &&& keys_unique(r)
    &&& forall|l: Seq<char>| count_in(r, l) == count_in(s, l)
    &&& sum_counts(r) == sum_counts(s)
}

/// Inserting a row anywhere adds its weight to every count and its count to the sum.
pub proof fn lemma_count_in_insert(s: Seq<(Seq<char>, nat)>, k: int, x: (Seq<char>, nat), l: Seq<char>)
    requires
        0 <= k <= s.len(),
    ensures
        count_in(s.insert(k, x), l) == count_in(s, l) + weight_of(x, l),
        sum_counts(s.insert(k, x)) == sum_counts(s) + x.1,
    decreases s.len(),
{
    if k == s.len() {
        assert(s.insert(k, x).drop_last() =~= s);
    } else {
        lemma_count_in_insert(s.drop_last(), k, x, l);
        assert(s.insert(k, x).drop_last() =~= s.drop_last().insert(k, x));
    }
}

/// Counts and sums add up over a concatenation.
pub proof fn lemma_count_in_concat(x: Seq<(Seq<char>, nat)>, y: Seq<(Seq<char>, nat)>, l: Seq<char>)
    ensures
        count_in(x + y, l) == count_in(x, l) + count_in(y, l),
        sum_counts(x + y) == sum_counts(x) + sum_counts(y),
    decreases y.len(),
{
    if y.len() == 0 {
        assert(x + y =~= x);
    } else {
        lemma_count_in_concat(x, y.drop_last(), l);
        assert((x + y).drop_last() =~= x + y.drop_last());
    }
}

/// Replacing a row trades its weight for that of the new row.
pub proof fn lemma_count_in_update(s: Seq<(Seq<char>, nat)>, i: int, x: (Seq<char>, nat), l: Seq<char>)
    requires
        0 <= i < s.len(),
    ensures
        count_in(s.update(i, x), l) + weight_of(s[i], l) == count_in(s, l) + weight_of(x, l),
        sum_counts(s.update(i, x)) + s[i].1 == sum_counts(s) + x.1,
    decreases s.len(),
{
    if i == s.len() - 1 {
        assert(s.update(i, x).drop_last() =~= s.drop_last());
    } else {
        lemma_count_in_update(s.drop_last(), i, x, l);
        assert(s.update(i, x).drop_last() =~= s.drop_last().update(i, x));
    }
}

/// No line's count exceeds the sum of all counts.
pub proof fn lemma_count_in_le_sum(s: Seq<(Seq<char>, nat)>, l: Seq<char>)
    ensures
        count_in(s, l) <= sum_counts(s),
    decreases s.len(),
{
    if s.len() > 0 {
        lemma_count_in_le_sum(s.drop_last(), l);
    }
}

/// In a tally with unique lines, the count of `l` is that of its row, or 0 without one.
pub proof fn lemma_count_in_unique(s: Seq<(Seq<char>, nat)>, l: Seq<char>)
    requires
        keys_unique(s),
    ensures
        forall|i: int| 0 <= i < s.len() && s[i].0 == l ==> count_in(s, l) == s[i].1,
        !has_key(s, l) ==> count_in(s, l) == 0,
    decreases s.len(),
{
    if s.len() > 0 {
        let t = s.drop_last();
        lemma_count_in_unique(t, l);
        assert forall|i: int| 0 <= i < s.len() && s[i].0 == l implies count_in(s, l) == s[i].1 by {
            if i < s.len() - 1 {
                assert(t[i] == s[i]);
            } else {
                assert forall|j: int| 0 <= j < t.len() implies t[j].0 != l by {
                    assert(s[j] == t[j]);
                }
            }
        }
        if !has_key(s, l) {
            assert(!has_key(t, l)) by {
                assert forall|j: int| 0 <= j < t.len() implies t[j].0 != l by {
                    assert(s[j] == t[j]);
                }
            }
        }
    }
}

/// One more occurrence of `l` adds one to its count and to the sum, and keeps the tally well formed.
pub proof fn lemma_bump(s: Seq<(Seq<char>, nat)>, l: Seq<char>)
    requires
        well_formed(s),
    ensures
        well_formed(bump(s, l)),
        forall|m: Seq<char>| #[trigger] count_in(bump(s, l), m) == count_in(s, m) + (if m == l { 1nat } else { 0nat }),
        sum_counts(bump(s, l)) == sum_counts(s) + 1,
{
    if has_key(s, l) {
        let i = choose|i: int| 0 <= i < s.len() && s[i].0 == l;
        assert forall|m: Seq<char>| #[trigger] count_in(bump(s, l), m) == count_in(s, m) + (if m == l { 1nat } else { 0nat }) by {
            lemma_count_in_update(s, i, (l, s[i].1 + 1), m);
        }
        lemma_count_in_update(s, i, (l, s[i].1 + 1), l);
    } else {
        assert(s.push((l, 1)) =~= s.insert(s.len() as int, (l, 1)));
        assert forall|m: Seq<char>| #[trigger] count_in(bump(s, l), m) == count_in(s, m) + (if m == l { 1nat } else { 0nat }) by {
            lemma_count_in_insert(s, s.len() as int, (l, 1), m);
        }
        lemma_count_in_insert(s, s.len() as int, (l, 1), l);
    }
}

/// Counting `lines` adds, for every line, the number of its occurrences in `lines`.
pub proof fn lemma_counted(s: Seq<(Seq<char>, nat)>, lines: Seq<Seq<char>>)
    requires
        well_formed(s),
    ensures
        well_formed(counted(s, lines)),
        forall|m: Seq<char>| #[trigger] count_in(counted(s, lines), m) == count_in(s, m) + lines.to_multiset().count(m),
        sum_counts(counted(s, lines)) == sum_counts(s) + lines.len(),
    decreases lines.len(),
{
    broadcast use vstd::seq_lib::group_to_multiset_ensures;

    if lines.len() == 0 {
        assert(lines.to_multiset() =~= Multiset::empty());
    } else {
        let front = lines.drop_last();
        lemma_counted(s, front);
        lemma_bump(counted(s, front), lines.last());
        assert(front.push(lines.last()) =~= lines);
    }
}

} // verus!
