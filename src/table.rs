//! The frequency table: one row per distinct line in first-seen order, with
//! a hash index from a line's text to its row.
use crate::tally::{
    bump, count_in, counted, has_key, lemma_bump, lemma_count_in_le_sum, lemma_count_in_unique,
    lemma_counted, sum_counts, well_formed,
};
use vstd::hash_map::StringHashMap;
use vstd::prelude::*;

verus! {

/// One row of a report: a line and how many times it occurred.
pub struct DataCount {
    pub line: String,
    pub count: usize,
}

impl View for DataCount {
    type V = (Seq<char>, nat);

    open spec fn view(&self) -> (Seq<char>, nat) {
        (self.line@, self.count as nat)
    }
}

/// The rows of a report, as the model sees them.
pub open spec fn rows_of(v: Seq<DataCount>) -> Seq<(Seq<char>, nat)> {
    v.map_values(|d: DataCount| d@)
}

/// The texts of a sequence of lines.
pub open spec fn texts(v: Seq<String>) -> Seq<Seq<char>> {
    v.map_values(|s: String| s@)
}

/// How often each distinct line has occurred so far.
pub struct FrequencyTable {
    lines: Vec<String>,
    counts: Vec<usize>,
    index: StringHashMap<usize>,
    total: usize,
}

impl View for FrequencyTable {
    type V = Seq<(Seq<char>, nat)>;

    closed spec fn view(&self) -> Seq<(Seq<char>, nat)> {
        Seq::new(self.lines@.len(), |i: int| (self.lines@[i]@, self.counts@[i] as nat))
    }
}

impl FrequencyTable {
    /// The rows are a well-formed tally, `total` is their sum of counts, and
    /// the index maps each line held to its row and nothing else.
    pub closed spec fn wf(&self) -> bool {
        &&& self.lines@.len() == self.counts@.len()
        &&& well_formed(self@)
        &&& self.total as nat == sum_counts(self@)
        &&& forall|k: Seq<char>| #[trigger] self.index@.contains_key(k) ==> {
            &&& self.index@[k] < self.lines@.len()
            &&& self.lines@[self.index@[k] as int]@ == k
        }
        &&& forall|i: int| 0 <= i < self.lines@.len() ==> self.index@.contains_key(#[trigger] self.lines@[i]@)
    }

    /// The rows of a table form a well-formed tally.
    pub proof fn lemma_well_formed(&self)
        requires
            self.wf(),
        ensures
            well_formed(self@),
    {
    }

    /// An empty table.
    pub fn new() -> (r: FrequencyTable)
        ensures
            r.wf(),
            r@ == Seq::<(Seq<char>, nat)>::empty(),
    {
        let r = FrequencyTable {
            lines: Vec::new(),
            counts: Vec::new(),
            index: StringHashMap::new(),
            total: 0,
        };
        assert(r@ =~= Seq::<(Seq<char>, nat)>::empty());
        r
    }

    /// Number of lines counted so far.
    pub fn total(&self) -> (r: usize)
        requires
            self.wf(),
        ensures
            r as nat == sum_counts(self@),
    {
        self.total
    }

    /// Number of distinct lines counted so far.
    pub fn len(&self) -> (r: usize)
        requires
            self.wf(),
        ensures
            r == self@.len(),
    {
        self.lines.len()
    }

    /// How many times `line` has been counted.
    pub fn count(&self, line: &str) -> (r: usize)
        requires
            self.wf(),
        ensures
            r as nat == count_in(self@, line@),
    {
        proof {
            lemma_count_in_unique(self@, line@);
        }
        match self.index.get(line) {
            Some(pos) => {
                assert(self@[*pos as int].0 == line@);
                self.counts[*pos]
            },
            None => {
                assert(!has_key(self@, line@)) by {
                    assert forall|i: int| 0 <= i < self@.len() implies self@[i].0 != line@ by {
                        assert(self.index@.contains_key(self.lines@[i]@));
                    }
                }
                0
            },
        }
    }

    /// Counts one occurrence of `line`: its row's count grows by one, or a
    /// row `(line, 1)` is appended when the line is new.
    pub fn increment(&mut self, line: String)
        requires
            old(self).wf(),
            sum_counts(old(self)@) < usize::MAX,
        ensures
            final(self).wf(),
            final(self)@ == bump(old(self)@, line@),
            sum_counts(final(self)@) == sum_counts(old(self)@) + 1,
            forall|l: Seq<char>| #[trigger] count_in(final(self)@, l) == count_in(old(self)@, l) + (if l == line@ { 1nat } else { 0nat }),
    {
        proof {
            lemma_bump(self@, line@);
            lemma_count_in_le_sum(self@, line@);
            lemma_count_in_unique(self@, line@);
        }
        let ghost s = self@;
        match self.index.get(line.as_str()) {
            Some(pos) => {
                let pos = *pos;
                let c = self.counts[pos];
                assert(has_key(s, line@) && s[pos as int].0 == line@);
                self.counts.set(pos, c + 1);
                self.total = self.total + 1;
                proof {
                    let i = choose|i: int| 0 <= i < s.len() && s[i].0 == line@;
                    assert(i == pos);
                    assert(self@ =~= s.update(pos as int, (line@, s[pos as int].1 + 1)));
                }
            },
            None => {
                assert(!has_key(s, line@)) by {
                    assert forall|i: int| 0 <= i < s.len() implies s[i].0 != line@ by {
                        assert(self.index@.contains_key(self.lines@[i]@));
                    }
                }
                let pos = self.lines.len();
                self.index.insert(line.clone(), pos);
                self.lines.push(line);
                self.counts.push(1);
                self.total = self.total + 1;
                proof {
                    assert(self@ =~= s.push((line@, 1)));
                }
            },
        }
    }

    /// The count of the row at position `i`.
    pub fn count_at(&self, i: usize) -> (r: usize)
        requires
            self.wf(),
            i < self@.len(),
        ensures
            r as nat == self@[i as int].1,
    {
        self.counts[i]
    }

    /// The rows at positions `order`, in that order.
    pub fn rows_at(&self, order: &Vec<usize>) -> (r: Vec<DataCount>)
        requires
            self.wf(),
            forall|k: int| 0 <= k < order@.len() ==> order@[k] < self@.len(),
        ensures
            rows_of(r@) == order@.map_values(|i: usize| self@[i as int]),
    {
        let mut r: Vec<DataCount> = Vec::new();
        let mut k: usize = 0;
        while k < order.len()
            invariant
                self.wf(),
                k <= order@.len(),
                r@.len() == k,
                forall|m: int| 0 <= m < order@.len() ==> order@[m] < self@.len(),
                rows_of(r@) =~= order@.take(k as int).map_values(|i: usize| self@[i as int]),
            decreases order@.len() - k,
        {
            let i = order[k];
            let ghost prev = rows_of(r@);
            r.push(DataCount { line: self.lines[i].clone(), count: self.counts[i] });
            proof {
                assert forall|m: int| 0 <= m < k + 1 implies rows_of(r@)[m] == self@[order@[m] as int] by {
                    if m < k {
                        assert(rows_of(r@)[m] == prev[m]);
                        assert(prev[m] == order@.take(k as int).map_values(|i: usize| self@[i as int])[m]);
                    }
                }
                assert(rows_of(r@) =~= order@.take(k as int + 1).map_values(|i: usize| self@[i as int]));
            }
            k = k + 1;
        }
        assert(order@.take(k as int) =~= order@);
        r
    }

    /// The rows in first-seen order.
    pub fn rows(&self) -> (r: Vec<DataCount>)
        requires
            self.wf(),
        ensures
            rows_of(r@) == self@,
    {
        let mut r: Vec<DataCount> = Vec::new();
        let mut i: usize = 0;
        while i < self.lines.len()
            invariant
                self.wf(),
                i <= self.lines@.len(),
                r@.len() == i,
                rows_of(r@) =~= self@.take(i as int),
            decreases self.lines@.len() - i,
        {
            r.push(DataCount { line: self.lines[i].clone(), count: self.counts[i] });
            proof {
                assert(rows_of(r@)[i as int] == self@[i as int]);
                assert(rows_of(r@) =~= self@.take(i as int + 1));
            }
            i = i + 1;
        }
        assert(self@.take(i as int) =~= self@);
        r
    }
}

/// Counts every line of `lines`, in order, into `data_count`.
pub fn count_data(lines: &Vec<String>, data_count: &mut FrequencyTable)
    requires
        old(data_count).wf(),
        sum_counts(old(data_count)@) + lines.len() <= usize::MAX,
    ensures
        final(data_count).wf(),
        final(data_count)@ == counted(old(data_count)@, texts(lines@)),
        sum_counts(final(data_count)@) == sum_counts(old(data_count)@) + lines@.len(),
        forall|l: Seq<char>| #[trigger] count_in(final(data_count)@, l) == count_in(old(data_count)@, l) + texts(lines@).to_multiset().count(l),
{
    let ghost start = data_count@;
    let mut i: usize = 0;
    while i < lines.len()
        invariant
            data_count.wf(),
            i <= lines@.len(),
            well_formed(start),
            data_count@ == counted(start, texts(lines@).take(i as int)),
            sum_counts(start) + lines@.len() <= usize::MAX,
        decreases lines@.len() - i,
    {
        proof {
            lemma_counted(start, texts(lines@).take(i as int));
        }
        data_count.increment(lines[i].clone());
        proof {
            let t = texts(lines@).take(i as int + 1);
            assert(t.drop_last() =~= texts(lines@).take(i as int));
        }
        i = i + 1;
    }
    assert(texts(lines@).take(i as int) =~= texts(lines@));
    proof {
        lemma_counted(start, texts(lines@));
    }
}

} // verus!
