//! Ordered tables of disjoint address ranges tagged with country codes.

use vstd::prelude::*;

verus! {

/// A two-letter country code, held as its two ASCII bytes.
#[derive(Clone, Copy, Debug, PartialEq, Eq, Structural)]
pub struct CountryCode {
    pub first: u8,
    pub second: u8,
}

/// One contiguous block of address ordinals mapped to a country.
#[derive(Clone, Copy, Debug, PartialEq, Eq, Structural)]
pub struct CountryRange {
    pub start: u128,
    pub end: u128,
    pub code: CountryCode,
}

/// The range covers the ordinal; both boundaries are inclusive.
pub open spec fn range_contains(r: CountryRange, ordinal: int) -> bool {
    r.start <= ordinal <= r.end
}

/// The two ranges share at least one ordinal.
pub open spec fn ranges_overlap(r1: CountryRange, r2: CountryRange) -> bool {
    r1.start <= r2.end && r2.start <= r1.end
}

/// Some two rows of the sequence share an ordinal.
pub open spec fn has_overlapping_pair(s: Seq<CountryRange>) -> bool {
    exists|i: int, j: int|
        #![trigger s[i], s[j]]
        0 <= i < s.len() && 0 <= j < s.len() && i != j && ranges_overlap(s[i], s[j])
}

/// Every row is a valid interval, and the rows stand in strictly
/// increasing, pairwise disjoint order.
pub open spec fn ranges_wf(s: Seq<CountryRange>) -> bool {
    &&& forall|i: int| 0 <= i < s.len() ==> (#[trigger] s[i]).start <= s[i].end
    &&& forall|i: int, j: int| #![trigger s[i], s[j]] 0 <= i < j < s.len() ==> s[i].end < s[j].start
}

/// Rows ordered by start ordinal.
pub open spec fn sorted_by_start(s: Seq<CountryRange>) -> bool {
    forall|i: int, j: int| #![trigger s[i], s[j]] 0 <= i < j < s.len() ==> s[i].start <= s[j].start
}

/// The code of the row covering the ordinal, if any row does.
pub open spec fn table_lookup(s: Seq<CountryRange>, ordinal: int) -> Option<CountryCode> {
    if exists|i: int| 0 <= i < s.len() && range_contains(#[trigger] s[i], ordinal) {
        Some(s[choose|i: int| 0 <= i < s.len() && range_contains(#[trigger] s[i], ordinal)].code)
    } else {
        None
    }
}

/// In a well-formed table at most one row covers any ordinal.
pub proof fn lemma_wf_unique_row(s: Seq<CountryRange>, ordinal: int, i: int, j: int)
    requires
        ranges_wf(s),
        0 <= i < s.len(),
        0 <= j < s.len(),
        range_contains(s[i], ordinal),
        range_contains(s[j], ordinal),
    ensures
        i == j,
{
}

/// Law: in a well-formed table, `table_lookup` answers `Some` exactly when
/// some row covers the ordinal, and then it returns that row's code.
pub proof fn lemma_table_lookup_characterization(s: Seq<CountryRange>, ordinal: int)
    requires
        ranges_wf(s),
    ensures
        (table_lookup(s, ordinal) is Some) <==> exists|i: int|
            0 <= i < s.len() && range_contains(#[trigger] s[i], ordinal),
        forall|i: int|
            0 <= i < s.len() && range_contains(#[trigger] s[i], ordinal) ==> table_lookup(
                s,
                ordinal,
            ) == Some(s[i].code),
{
    if exists|i: int| 0 <= i < s.len() && range_contains(#[trigger] s[i], ordinal) {
        let w = choose|i: int| 0 <= i < s.len() && range_contains(#[trigger] s[i], ordinal);
        assert forall|i: int|
            0 <= i < s.len() && range_contains(#[trigger] s[i], ordinal) implies table_lookup(
            s,
            ordinal,
        ) == Some(s[i].code) by {
            lemma_wf_unique_row(s, ordinal, i, w);
        }
    }
}

proof fn lemma_chain(s: Seq<CountryRange>, i: int, j: int)
    requires
        forall|k: int| 0 <= k < s.len() ==> (#[trigger] s[k]).start <= s[k].end,
        forall|k: int| 0 <= k < s.len() - 1 ==> (#[trigger] s[k]).end < s[k + 1].start,
        0 <= i < j < s.len(),
    ensures
        s[i].end < s[j].start,
    decreases j - i,
{
    if j > i + 1 {
        lemma_chain(s, i, j - 1);
    }
}

/// Valid rows whose adjacent pairs are disjoint are pairwise disjoint.
pub proof fn lemma_adjacent_disjoint_implies_wf(s: Seq<CountryRange>)
    requires
        forall|k: int| 0 <= k < s.len() ==> (#[trigger] s[k]).start <= s[k].end,
        forall|k: int| 0 <= k < s.len() - 1 ==> (#[trigger] s[k]).end < s[k + 1].start,
    ensures
        ranges_wf(s),
{
    assert forall|i: int, j: int| #![trigger s[i], s[j]] 0 <= i < j < s.len() implies s[i].end
        < s[j].start by {
        lemma_chain(s, i, j);
    }
}

/// A well-formed table holds no overlapping pair.
pub proof fn lemma_wf_no_overlap(s: Seq<CountryRange>)
    requires
        ranges_wf(s),
    ensures
        !has_overlapping_pair(s),
{
    if has_overlapping_pair(s) {
        let (i, j) = choose|i: int, j: int|
            #![trigger s[i], s[j]]
            0 <= i < s.len() && 0 <= j < s.len() && i != j && ranges_overlap(s[i], s[j]);
        if i < j {
            assert(s[i].end < s[j].start);
        } else {
            assert(s[j].end < s[i].start);
        }
    }
}

/// Whether some two rows overlap depends only on the rows as a multiset:
/// rearranging the rows neither creates nor hides an overlapping pair.
pub proof fn lemma_overlap_transfer(a: Seq<CountryRange>, b: Seq<CountryRange>)
    requires
        a.to_multiset() == b.to_multiset(),
        has_overlapping_pair(a),
    ensures
        has_overlapping_pair(b),
{
    broadcast use vstd::seq_lib::group_to_multiset_ensures;

    let (i, j) = choose|i: int, j: int|
        #![trigger a[i], a[j]]
        0 <= i < a.len() && 0 <= j < a.len() && i != j && ranges_overlap(a[i], a[j]);
    let v = a[i];
    let w = a[j];
    if v == w {
        let a1 = a.remove(i);
        assert(a1.to_multiset() =~= a.to_multiset().remove(v));
        let j1: int = if j < i {
            j
        } else {
            j - 1
        };
        assert(a1[j1] == v);
        assert(a1.contains(v));
        assert(a1.to_multiset().count(v) > 0);
        assert(a.to_multiset().count(v) >= 2);
        assert(b.to_multiset().count(v) >= 2);
        assert(b.contains(v));
        let bi = choose|k: int| 0 <= k < b.len() && b[k] == v;
        let b1 = b.remove(bi);
        assert(b1.to_multiset() =~= b.to_multiset().remove(v));
        assert(b1.to_multiset().count(v) > 0);
        assert(b1.contains(v));
        let k1 = choose|k: int| 0 <= k < b1.len() && b1[k] == v;
        let bj: int = if k1 < bi {
            k1
        } else {
            k1 + 1
        };
        assert(b[bj] == v);
        assert(bi != bj);
        assert(ranges_overlap(b[bi], b[bj]));
    } else {
        assert(a.contains(v));
        assert(a.contains(w));
        assert(b.to_multiset().count(v) > 0);
        assert(b.to_multiset().count(w) > 0);
        assert(b.contains(v));
        assert(b.contains(w));
        let bi = choose|k: int| 0 <= k < b.len() && b[k] == v;
        let bj = choose|k: int| 0 <= k < b.len() && b[k] == w;
        assert(bi != bj);
        assert(ranges_overlap(b[bi], b[bj]));
    }
}

/// Law: a well-formed table answers by its rows alone, however they were
/// arranged before sorting. An ordinal covered by some row of any
/// rearrangement of the table resolves to that row's code; one covered by
/// no row misses.
pub proof fn lemma_lookup_answers_from_rows(
    t: Seq<CountryRange>,
    rows: Seq<CountryRange>,
    ordinal: int,
)
    requires
        ranges_wf(t),
        t.to_multiset() == rows.to_multiset(),
    ensures
        forall|i: int|
            0 <= i < rows.len() && range_contains(#[trigger] rows[i], ordinal) ==> table_lookup(
                t,
                ordinal,
            ) == Some(rows[i].code),
        (forall|i: int| 0 <= i < rows.len() ==> !range_contains(#[trigger] rows[i], ordinal))
            ==> table_lookup(t, ordinal) is None,
{
    lemma_table_lookup_characterization(t, ordinal);
    assert forall|i: int|
        0 <= i < rows.len() && range_contains(#[trigger] rows[i], ordinal) implies table_lookup(
        t,
        ordinal,
    ) == Some(rows[i].code) by {
        assert(rows.contains(rows[i]));
        vstd::seq_lib::to_multiset_contains(rows, rows[i]);
        vstd::seq_lib::to_multiset_contains(t, rows[i]);
        assert(t.contains(rows[i]));
        let j = choose|j: int| 0 <= j < t.len() && t[j] == rows[i];
        assert(range_contains(t[j], ordinal));
    }
    if table_lookup(t, ordinal) is Some {
        let w = choose|i: int| 0 <= i < t.len() && range_contains(#[trigger] t[i], ordinal);
        assert(t.contains(t[w]));
        vstd::seq_lib::to_multiset_contains(t, t[w]);
        vstd::seq_lib::to_multiset_contains(rows, t[w]);
        assert(rows.contains(t[w]));
        let i = choose|i: int| 0 <= i < rows.len() && rows[i] == t[w];
        assert(range_contains(rows[i], ordinal));
    }
}

/// An ordered, read-only collection of disjoint country ranges for one
/// address family, answering point lookups by binary search.
pub struct RangeTable {
    ranges: Vec<CountryRange>,
}

impl View for RangeTable {
    type V = Seq<CountryRange>;

    closed spec fn view(&self) -> Seq<CountryRange> {
        self.ranges@
    }
}

impl RangeTable {
    /// The table's rows are valid, sorted and pairwise disjoint.
    #[verifier::type_invariant]
    pub closed spec fn wf(self) -> bool {
        ranges_wf(self.ranges@)
    }

    /// An empty table; every lookup against it misses.
    pub fn empty() -> (r: RangeTable)
        ensures
            r@ =~= Seq::<CountryRange>::empty(),
    {
        RangeTable { ranges: Vec::new() }
    }

    /// Builds a table from rows already validated as pairwise disjoint.
    pub fn from_disjoint_rows(rows: Vec<CountryRange>) -> (r: RangeTable)
        requires
            ranges_wf(rows@),
        ensures
            r@ == rows@,
    {
        RangeTable { ranges: rows }
    }

    /// The number of rows.
    pub fn len(&self) -> (r: usize)
        ensures
            r == self@.len(),
    {
        self.ranges.len()
    }

    /// Binary search for the row covering the ordinal; returns its country
    /// code, or `None` when no row covers it.
    pub fn lookup(&self, ordinal: u128) -> (r: Option<CountryCode>)
        ensures
            r == table_lookup(self@, ordinal as int),
    {
        proof {
            use_type_invariant(self);
        }
        let mut lo: usize = 0;
        let mut hi: usize = self.ranges.len();
        while lo < hi
            invariant
                lo <= hi <= self.ranges@.len(),
                ranges_wf(self.ranges@),
                forall|k: int| 0 <= k < lo ==> (#[trigger] self.ranges@[k]).end < ordinal,
                forall|k: int|
                    hi <= k < self.ranges@.len() ==> ordinal < (#[trigger] self.ranges@[k]).start,
            decreases hi - lo,
        {
            let mid = lo + (hi - lo) / 2;
            let range = self.ranges[mid];
            if ordinal < range.start {
                proof {
                    assert forall|k: int|
                        mid <= k < self.ranges@.len() implies ordinal < (
                    #[trigger] self.ranges@[k]).start by {
                        if k > mid {
                            assert(self.ranges@[mid as int].end < self.ranges@[k].start);
                        }
                    }
                }
                hi = mid;
            } else if range.end < ordinal {
                proof {
                    assert forall|k: int| 0 <= k <= mid implies (#[trigger] self.ranges@[k]).end
                        < ordinal by {
                        if k < mid {
                            assert(self.ranges@[k].end < self.ranges@[mid as int].start);
                        }
                    }
                }
                lo = mid + 1;
            } else {
                proof {
                    assert(range_contains(self.ranges@[mid as int], ordinal as int));
                    let w = choose|i: int|
                        0 <= i < self.ranges@.len() && range_contains(
                            #[trigger] self.ranges@[i],
                            ordinal as int,
                        );
                    lemma_wf_unique_row(self.ranges@, ordinal as int, w, mid as int);
                }
                return Some(range.code);
            }
        }
        proof {
            assert forall|i: int|
                0 <= i < self.ranges@.len() implies !range_contains(
                #[trigger] self.ranges@[i],
                ordinal as int,
            ) by {}
        }
        None
    }

    /// Row-for-row equality of two tables.
    pub fn same_rows(&self, other: &RangeTable) -> (r: bool)
        ensures
            r == (self@ =~= other@),
    {
        if self.ranges.len() != other.ranges.len() {
            return false;
        }
        let mut i: usize = 0;
        while i < self.ranges.len()
            invariant
                self.ranges@.len() == other.ranges@.len(),
                i <= self.ranges@.len(),
                forall|k: int| 0 <= k < i ==> self.ranges@[k] == other.ranges@[k],
            decreases self.ranges@.len() - i,
        {
            if !(self.ranges[i] == other.ranges[i]) {
                return false;
            }
            i += 1;
        }
        true
    }
}

} // verus!
