//! Parsing of delimited-text range datasets into range tables.
//!
//! A dataset is a sequence of newline-separated rows, each row three
//! comma-separated fields: start ordinal, end ordinal, country code. The
//! loader validates every row against the family's ordinal width, sorts
//! the rows by start ordinal, rejects overlapping ranges, and returns an
//! immutable `RangeTable`.

use vstd::prelude::*;
use vstd::multiset::Multiset;
use crate::codec::AddressFamily;
use crate::table::{
    CountryCode, CountryRange, RangeTable, has_overlapping_pair, lemma_adjacent_disjoint_implies_wf,
    lemma_overlap_transfer, lemma_wf_no_overlap, ranges_overlap, ranges_wf, sorted_by_start,
};

verus! {

/// Why a dataset was rejected.
#[derive(Clone, Copy, Debug, PartialEq, Eq, Structural)]
pub enum DatasetFormatError {
    /// Some row is not `start,end,code` with decimal ordinals inside the
    /// family's width, a two-letter code, and start at most end.
    MalformedRow,
    /// Two rows share an ordinal, which would make lookups ambiguous.
    OverlappingRanges,
}

/// An ASCII decimal digit.
pub open spec fn is_digit(b: u8) -> bool {
    48 <= b <= 57
}

/// An ASCII letter, either case.
pub open spec fn is_letter(b: u8) -> bool {
    (65 <= b <= 90) || (97 <= b <= 122)
}

/// Every byte of the field is a decimal digit.
pub open spec fn all_digits(s: Seq<u8>) -> bool {
    forall|i: int| 0 <= i < s.len() ==> is_digit(#[trigger] s[i])
}

/// Numeric value of a big-endian decimal digit string.
pub open spec fn decimal_value(s: Seq<u8>) -> int
    decreases s.len(),
{
    if s.len() == 0 {
        0
    } else {
        decimal_value(s.drop_last()) * 10 + (s.last() - 48)
    }
}

/// Index of the first occurrence of `b` in `s`, or -1 when absent.
pub open spec fn first_index_of(s: Seq<u8>, b: u8) -> int
    decreases s.len(),
{
    if s.len() == 0 {
        -1
    } else if s[0] == b {
        0
    } else {
        let r = first_index_of(s.skip(1), b);
        if r < 0 {
            -1
        } else {
            r + 1
        }
    }
}

pub proof fn lemma_first_index_of(s: Seq<u8>, b: u8)
    ensures
        first_index_of(s, b) < 0 ==> forall|i: int| 0 <= i < s.len() ==> s[i] != b,
        first_index_of(s, b) >= 0 ==> 0 <= first_index_of(s, b) < s.len() && s[first_index_of(
            s,
            b,
        )] == b,
        first_index_of(s, b) >= 0 ==> forall|i: int| 0 <= i < first_index_of(s, b) ==> s[i] != b,
    decreases s.len(),
{
    if s.len() > 0 && s[0] != b {
        let t = s.skip(1);
        lemma_first_index_of(t, b);
        let rt = first_index_of(t, b);
        if rt < 0 {
            assert forall|i: int| 0 <= i < s.len() implies s[i] != b by {
                if i > 0 {
                    assert(t[i - 1] == s[i]);
                }
            }
        } else {
            assert(s[rt + 1] == t[rt]);
            assert forall|i: int| 0 <= i < rt + 1 implies s[i] != b by {
                if i > 0 {
                    assert(t[i - 1] == s[i]);
                }
            }
        }
    }
}

/// A found first occurrence pins `first_index_of` down.
proof fn lemma_first_index_unique(s: Seq<u8>, b: u8, k: int)
    requires
        0 <= k < s.len(),
        s[k] == b,
        forall|i: int| 0 <= i < k ==> s[i] != b,
    ensures
        first_index_of(s, b) == k,
{
    lemma_first_index_of(s, b);
}

proof fn lemma_first_index_none(s: Seq<u8>, b: u8)
    requires
        forall|i: int| 0 <= i < s.len() ==> s[i] != b,
    ensures
        first_index_of(s, b) < 0,
{
    lemma_first_index_of(s, b);
}

/// The three comma-separated fields of a row, when it has exactly three.
pub open spec fn row_fields(line: Seq<u8>) -> Option<(Seq<u8>, Seq<u8>, Seq<u8>)> {
    let c1 = first_index_of(line, 44);
    if c1 < 0 {
        None
    } else {
        let rest = line.skip(c1 + 1);
        let c2 = first_index_of(rest, 44);
        if c2 < 0 {
            None
        } else {
            let f2 = rest.skip(c2 + 1);
            if first_index_of(f2, 44) >= 0 {
                None
            } else {
                Some((line.take(c1), rest.take(c2), f2))
            }
        }
    }
}

/// A non-empty digit field whose value is within the family's width.
pub open spec fn valid_number(s: Seq<u8>, max: int) -> bool {
    s.len() > 0 && all_digits(s) && decimal_value(s) <= max
}

/// A two-letter country-code field.
pub open spec fn valid_code(s: Seq<u8>) -> bool {
    s.len() == 2 && is_letter(s[0]) && is_letter(s[1])
}

/// Parse of one dataset row: `start,end,code` with start at most end,
/// both ordinals within the family's width.
pub open spec fn spec_parse_row(line: Seq<u8>, max: int) -> Option<CountryRange> {
    match row_fields(line) {
        None => None,
        Some((f0, f1, f2)) => {
            if valid_number(f0, max) && valid_number(f1, max) && valid_code(f2) && decimal_value(f0)
                <= decimal_value(f1) {
                Some(
                    CountryRange {
                        start: decimal_value(f0) as u128,
                        end: decimal_value(f1) as u128,
                        code: CountryCode { first: f2[0], second: f2[1] },
                    },
                )
            } else {
                None
            }
        },
    }
}

/// Drops one trailing carriage return, so CRLF-separated rows parse.
pub open spec fn strip_cr(line: Seq<u8>) -> Seq<u8> {
    if line.len() > 0 && line.last() == 13 {
        line.drop_last()
    } else {
        line
    }
}

/// The newline-separated lines of the dataset. A final newline closes the
/// last line; it does not open an empty one.
pub open spec fn split_lines(data: Seq<u8>) -> Seq<Seq<u8>>
    decreases data.len(),
    via split_lines_decreases
{
    if data.len() == 0 {
        Seq::empty()
    } else {
        let k = first_index_of(data, 10);
        if k < 0 {
            seq![data]
        } else {
            seq![data.take(k)] + split_lines(data.skip(k + 1))
        }
    }
}

#[via_fn]
proof fn split_lines_decreases(data: Seq<u8>) {
    lemma_first_index_of(data, 10);
}

/// The dataset's rows: its lines with any trailing carriage return removed.
pub open spec fn dataset_rows(data: Seq<u8>) -> Seq<Seq<u8>> {
    split_lines(data).map_values(|l: Seq<u8>| strip_cr(l))
}

/// Every row of the dataset parses under the family's width.
pub open spec fn all_rows_parse(data: Seq<u8>, max: int) -> bool {
    forall|i: int|
        0 <= i < dataset_rows(data).len() ==> spec_parse_row(
            #[trigger] dataset_rows(data)[i],
            max,
        ) is Some
}

/// The parsed ranges of the dataset, in file order.
pub open spec fn dataset_ranges(data: Seq<u8>, max: int) -> Seq<CountryRange> {
    dataset_rows(data).map_values(|l: Seq<u8>| spec_parse_row(l, max)->Some_0)
}

/// The largest ordinal of the family's number space.
pub open spec fn family_max(family: AddressFamily) -> int {
    match family {
        AddressFamily::V4 => 0xFFFF_FFFF,
        AddressFamily::V6 => 0xFFFF_FFFF_FFFF_FFFF_FFFF_FFFF_FFFF_FFFF,
    }
}

proof fn lemma_decimal_nonneg(s: Seq<u8>)
    requires
        all_digits(s),
    ensures
        decimal_value(s) >= 0,
    decreases s.len(),
{
    if s.len() > 0 {
        let s1 = s.drop_last();
        assert forall|i: int| 0 <= i < s1.len() implies is_digit(#[trigger] s1[i]) by {
            assert(s1[i] == s[i]);
        }
        lemma_decimal_nonneg(s1);
    }
}

/// A digit string is worth at least any of its prefixes.
proof fn lemma_decimal_prefix_le(s: Seq<u8>, k: int)
    requires
        all_digits(s),
        0 <= k <= s.len(),
    ensures
        decimal_value(s.take(k)) <= decimal_value(s),
    decreases s.len(),
{
    if k < s.len() {
        let s1 = s.drop_last();
        assert forall|i: int| 0 <= i < s1.len() implies is_digit(#[trigger] s1[i]) by {
            assert(s1[i] == s[i]);
        }
        lemma_decimal_prefix_le(s1, k);
        assert(s1.take(k) =~= s.take(k));
        lemma_decimal_nonneg(s1);
    } else {
        assert(s.take(k) =~= s);
    }
}

/// Finds the first occurrence of `b` in `data[from..to]`.
fn find_byte(data: &[u8], from: usize, to: usize, b: u8) -> (r: Option<usize>)
    requires
        from <= to <= data@.len(),
    ensures
        match r {
            Some(k) => from <= k < to && data@[k as int] == b && (forall|i: int|
                from <= i < k ==> data@[i] != b),
            None => forall|i: int| from <= i < to ==> data@[i] != b,
        },
{
    let mut i = from;
    while i < to
        invariant
            from <= i <= to <= data@.len(),
            forall|j: int| from <= j < i ==> data@[j] != b,
        decreases to - i,
    {
        if data[i] == b {
            return Some(i);
        }
        i += 1;
    }
    None
}

/// Parses `data[lo..hi]` as a decimal ordinal no greater than `max`.
fn parse_number(data: &[u8], lo: usize, hi: usize, max: u128) -> (r: Option<u128>)
    requires
        lo <= hi <= data@.len(),
    ensures
        ({
            let f = data@.subrange(lo as int, hi as int);
            match r {
                Some(v) => valid_number(f, max as int) && v as int == decimal_value(f),
                None => !valid_number(f, max as int),
            }
        }),
{
    let ghost f = data@.subrange(lo as int, hi as int);
    if lo == hi {
        return None;
    }
    let mut acc: u128 = 0;
    let mut i = lo;
    while i < hi
        invariant
            lo <= i <= hi <= data@.len(),
            all_digits(data@.subrange(lo as int, i as int)),
            acc as int == decimal_value(data@.subrange(lo as int, i as int)),
            acc <= max,
            f == data@.subrange(lo as int, hi as int),
        decreases hi - i,
    {
        let d = data[i];
        if d < 48 || d > 57 {
            proof {
                assert(f[i - lo] == data@[i as int]);
            }
            return None;
        }
        let dv = (d - 48) as u128;
        if acc > max / 10 || (acc == max / 10 && dv > max % 10) {
            proof {
                let g = data@.subrange(lo as int, i as int + 1);
                assert(g.drop_last() =~= data@.subrange(lo as int, i as int));
                assert(g.last() == data@[i as int]);
                assert(decimal_value(g) == acc * 10 + dv);
                assert(decimal_value(g) > max);
                if all_digits(f) {
                    assert(f.take(i + 1 - lo) =~= g);
                    lemma_decimal_prefix_le(f, i + 1 - lo);
                }
            }
            return None;
        }
        acc = acc * 10 + dv;
        proof {
            let g = data@.subrange(lo as int, i as int + 1);
            assert(g.drop_last() =~= data@.subrange(lo as int, i as int));
            assert(g.last() == data@[i as int]);
            assert forall|j: int| 0 <= j < g.len() implies is_digit(#[trigger] g[j]) by {
                if j < g.len() - 1 {
                    assert(g[j] == data@.subrange(lo as int, i as int)[j]);
                }
            }
        }
        i += 1;
    }
    proof {
        assert(data@.subrange(lo as int, i as int) =~= f);
    }
    Some(acc)
}

fn is_letter_byte(b: u8) -> (r: bool)
    ensures
        r == is_letter(b),
{
    (65 <= b && b <= 90) || (97 <= b && b <= 122)
}

/// Parses one row held in `data[lo..hi]`.
fn parse_row(data: &[u8], lo: usize, hi: usize, max: u128) -> (r: Option<CountryRange>)
    requires
        lo <= hi <= data@.len(),
    ensures
        r == spec_parse_row(data@.subrange(lo as int, hi as int), max as int),
{
    let ghost line = data@.subrange(lo as int, hi as int);
    let c1 = match find_byte(data, lo, hi, 44) {
        None => {
            proof {
                assert forall|i: int| 0 <= i < line.len() implies line[i] != 44 by {
                    assert(line[i] == data@[lo + i]);
                }
                lemma_first_index_none(line, 44);
            }
            return None;
        },
        Some(k) => k,
    };
    proof {
        assert(line[c1 - lo] == 44) by {
            assert(line[c1 - lo] == data@[c1 as int]);
        }
        assert forall|i: int| 0 <= i < c1 - lo implies line[i] != 44 by {
            assert(line[i] == data@[lo + i]);
        }
        lemma_first_index_unique(line, 44, c1 - lo);
    }
    let ghost rest = line.skip(c1 - lo + 1);
    proof {
        assert(rest =~= data@.subrange(c1 as int + 1, hi as int));
    }
    let c2 = match find_byte(data, c1 + 1, hi, 44) {
        None => {
            proof {
                assert forall|i: int| 0 <= i < rest.len() implies rest[i] != 44 by {
                    assert(rest[i] == data@[c1 + 1 + i]);
                }
                lemma_first_index_none(rest, 44);
            }
            return None;
        },
        Some(k) => k,
    };
    proof {
        assert(rest[c2 - (c1 + 1)] == 44) by {
            assert(rest[c2 - (c1 + 1)] == data@[c2 as int]);
        }
        assert forall|i: int| 0 <= i < c2 - (c1 + 1) implies rest[i] != 44 by {
            assert(rest[i] == data@[c1 + 1 + i]);
        }
        lemma_first_index_unique(rest, 44, c2 - (c1 + 1));
    }
    let ghost f2 = rest.skip(c2 - (c1 + 1) + 1);
    proof {
        assert(f2 =~= data@.subrange(c2 as int + 1, hi as int));
    }
    match find_byte(data, c2 + 1, hi, 44) {
        Some(k) => {
            proof {
                assert(f2[k - (c2 + 1)] == 44) by {
                    assert(f2[k - (c2 + 1)] == data@[k as int]);
                }
                assert forall|i: int| 0 <= i < k - (c2 + 1) implies f2[i] != 44 by {
                    assert(f2[i] == data@[c2 + 1 + i]);
                }
                lemma_first_index_unique(f2, 44, k - (c2 + 1));
            }
            return None;
        },
        None => {
            proof {
                assert forall|i: int| 0 <= i < f2.len() implies f2[i] != 44 by {
                    assert(f2[i] == data@[c2 + 1 + i]);
                }
                lemma_first_index_none(f2, 44);
            }
        },
    }
    let ghost f0 = line.take(c1 - lo);
    let ghost f1 = rest.take(c2 - (c1 + 1));
    proof {
        assert(f0 =~= data@.subrange(lo as int, c1 as int));
        assert(f1 =~= data@.subrange(c1 as int + 1, c2 as int));
    }
    let n0 = parse_number(data, lo, c1, max);
    let n1 = parse_number(data, c1 + 1, c2, max);
    let s0 = match n0 {
        Some(v) => v,
        None => {
            return None;
        },
    };
    let s1 = match n1 {
        Some(v) => v,
        None => {
            return None;
        },
    };
    if hi - (c2 + 1) != 2 {
        return None;
    }
    let b0 = data[c2 + 1];
    let b1 = data[c2 + 2];
    proof {
        assert(f2[0] == data@[c2 as int + 1]);
        assert(f2[1] == data@[c2 as int + 2]);
    }
    if is_letter_byte(b0) && is_letter_byte(b1) && s0 <= s1 {
        Some(CountryRange { start: s0, end: s1, code: CountryCode { first: b0, second: b1 } })
    } else {
        None
    }
}

/// Parses every row of the dataset, in file order.
fn parse_all_rows(data: &[u8], max: u128) -> (r: Result<Vec<CountryRange>, DatasetFormatError>)
    ensures
        match r {
            Ok(v) => all_rows_parse(data@, max as int) && v@ =~= dataset_ranges(
                data@,
                max as int,
            ),
            Err(e) => e == DatasetFormatError::MalformedRow && !all_rows_parse(
                data@,
                max as int,
            ),
        },
{
    let ghost lines = split_lines(data@);
    let ghost rows = dataset_rows(data@);
    let mut out: Vec<CountryRange> = Vec::new();
    let mut pos: usize = 0;
    proof {
        assert(data@.skip(0) =~= data@);
        assert(lines.skip(0) =~= lines);
    }
    while pos < data.len()
        invariant
            pos <= data@.len(),
            lines == split_lines(data@),
            rows == dataset_rows(data@),
            out@.len() <= lines.len(),
            lines.skip(out@.len() as int) =~= split_lines(data@.skip(pos as int)),
            forall|i: int|
                0 <= i < out@.len() ==> spec_parse_row(#[trigger] rows[i], max as int) is Some
                    && out@[i] == spec_parse_row(rows[i], max as int)->Some_0,
        decreases data@.len() - pos,
    {
        let ghost c = out@.len() as int;
        let ghost suffix = data@.skip(pos as int);
        let (line_end, next_pos): (usize, usize) = match find_byte(data, pos, data.len(), 10) {
            Some(k) => {
                proof {
                    assert(suffix[k - pos] == 10) by {
                        assert(suffix[k - pos] == data@[k as int]);
                    }
                    assert forall|i: int| 0 <= i < k - pos implies suffix[i] != 10 by {
                        assert(suffix[i] == data@[pos + i]);
                    }
                    lemma_first_index_unique(suffix, 10, k - pos);
                }
                (k, k + 1)
            },
            None => {
                proof {
                    assert forall|i: int| 0 <= i < suffix.len() implies suffix[i] != 10 by {
                        assert(suffix[i] == data@[pos + i]);
                    }
                    lemma_first_index_none(suffix, 10);
                }
                (data.len(), data.len())
            },
        };
        proof {
            // One line is peeled off the suffix.
            assert(split_lines(suffix) =~= seq![data@.subrange(pos as int, line_end as int)]
                + split_lines(data@.skip(next_pos as int))) by {
                if line_end < data@.len() {
                    assert(suffix.take(line_end - pos) =~= data@.subrange(
                        pos as int,
                        line_end as int,
                    ));
                    assert(suffix.skip(line_end - pos + 1) =~= data@.skip(next_pos as int));
                } else {
                    assert(suffix =~= data@.subrange(pos as int, line_end as int));
                    assert(data@.skip(next_pos as int) =~= Seq::<u8>::empty());
                }
            }
            assert(lines.skip(c).len() >= 1);
            assert(c < lines.len());
            assert(lines[c] == data@.subrange(pos as int, line_end as int)) by {
                assert(lines.skip(c)[0] == lines[c]);
            }
        }
        let row_end: usize = if line_end > pos && data[line_end - 1] == 13 {
            line_end - 1
        } else {
            line_end
        };
        proof {
            let raw = data@.subrange(pos as int, line_end as int);
            if line_end > pos && data@[line_end - 1] == 13 {
                assert(raw.last() == data@[line_end - 1]);
                assert(strip_cr(raw) =~= data@.subrange(pos as int, row_end as int));
            } else {
                if raw.len() > 0 {
                    assert(raw.last() == data@[line_end - 1]);
                }
                assert(strip_cr(raw) =~= data@.subrange(pos as int, row_end as int));
            }
            assert(rows[c] == strip_cr(lines[c]));
        }
        match parse_row(data, pos, row_end, max) {
            Some(range) => {
                out.push(range);
            },
            None => {
                proof {
                    assert(spec_parse_row(rows[c], max as int) is None);
                    assert(rows.len() == lines.len());
                    assert(dataset_rows(data@)[c] == rows[c]);
                    assert(!all_rows_parse(data@, max as int));
                }
                return Err(DatasetFormatError::MalformedRow);
            },
        }
        pos = next_pos;
        proof {
            let rest2 = split_lines(data@.skip(pos as int));
            assert(lines.skip(c).len() == 1 + rest2.len());
            assert forall|i: int| 0 <= i < lines.len() - (c + 1) implies lines.skip(c + 1)[i]
                == rest2[i] by {
                assert(lines.skip(c + 1)[i] == lines[c + 1 + i]);
                assert(lines.skip(c)[i + 1] == lines[c + 1 + i]);
                assert(lines.skip(c)[i + 1] == rest2[i]);
            }
            assert(lines.skip(c + 1) =~= rest2);
        }
    }
    proof {
        assert(pos == data@.len());
        assert(data@.skip(pos as int) =~= Seq::<u8>::empty());
        assert(split_lines(data@.skip(pos as int)) =~= Seq::<Seq<u8>>::empty());
        assert(lines.skip(out@.len() as int).len() == 0);
        assert(lines.len() == out@.len());
        assert forall|i: int| 0 <= i < out@.len() implies out@[i] == dataset_ranges(
            data@,
            max as int,
        )[i] by {
            assert(dataset_rows(data@)[i] == rows[i]);
        }
        assert(out@ =~= dataset_ranges(data@, max as int));
    }
    Ok(out)
}

/// Sorts rows by start ordinal; the result is a permutation of the input.
fn sort_rows(input: Vec<CountryRange>) -> (r: Vec<CountryRange>)
    ensures
        sorted_by_start(r@),
        r@.to_multiset() == input@.to_multiset(),
{
    let mut remaining = input;
    let mut out: Vec<CountryRange> = Vec::new();
    let ghost whole = remaining@.to_multiset();
    proof {
        assert forall|x: CountryRange|
            out@.to_multiset().add(remaining@.to_multiset()).count(x) == whole.count(x) by {
            vstd::seq_lib::to_multiset_contains(out@, x);
            assert(!out@.contains(x));
        }
        assert(out@.to_multiset().add(remaining@.to_multiset()) =~= whole);
    }
    while remaining.len() > 0
        invariant
            out@.to_multiset().add(remaining@.to_multiset()) =~= whole,
            sorted_by_start(out@),
            forall|i: int, j: int|
                #![trigger out@[i], remaining@[j]]
                0 <= i < out@.len() && 0 <= j < remaining@.len() ==> out@[i].start
                    <= remaining@[j].start,
        decreases remaining@.len(),
    {
        let mut mi: usize = 0;
        let mut m: usize = 1;
        while m < remaining.len()
            invariant
                0 < remaining@.len(),
                mi < m <= remaining@.len(),
                forall|k: int| 0 <= k < m ==> remaining@[mi as int].start <= (#[trigger] remaining@[k]).start,
            decreases remaining@.len() - m,
        {
            if remaining[m].start < remaining[mi].start {
                mi = m;
            }
            m += 1;
        }
        let ghost before = remaining@;
        let ghost out_before = out@;
        let v = remaining.remove(mi);
        out.push(v);
        proof {
            assert(v == before[mi as int]);
            assert(remaining@ == before.remove(mi as int));
            vstd::seq_lib::to_multiset_remove(before, mi as int);
            assert(out@ == out_before.push(v));
            vstd::seq_lib::to_multiset_build(out_before, v);
            assert(out@.to_multiset().add(remaining@.to_multiset()) =~= whole) by {
                assert(before.to_multiset().count(v) > 0) by {
                    assert(before.contains(v));
                    vstd::seq_lib::to_multiset_contains(before, v);
                }
                assert forall|x: CountryRange|
                    out@.to_multiset().add(remaining@.to_multiset()).count(x) == whole.count(
                    x) by {
                    assert(out@.to_multiset().count(x) == out_before.to_multiset().insert(
                        v,
                    ).count(x));
                    assert(remaining@.to_multiset().count(x) == before.to_multiset().remove(
                        v,
                    ).count(x));
                }
            }
            assert forall|i: int, j: int|
                #![trigger out@[i], remaining@[j]]
                0 <= i < out@.len() && 0 <= j < remaining@.len() implies out@[i].start
                <= remaining@[j].start by {
                let jb: int = if j < mi {
                    j
                } else {
                    j + 1
                };
                assert(remaining@[j] == before[jb]);
                if i < out@.len() - 1 {
                    assert(out@[i] == out_before[i]);
                } else {
                    assert(out@[i] == v);
                }
            }
            assert(sorted_by_start(out@)) by {
                assert forall|i: int, j: int|
                    #![trigger out@[i], out@[j]]
                    0 <= i < j < out@.len() implies out@[i].start <= out@[j].start by {
                    if j < out@.len() - 1 {
                        assert(out@[i] == out_before[i]);
                        assert(out@[j] == out_before[j]);
                    } else {
                        assert(out@[j] == v);
                        assert(out@[i] == out_before[i]);
                        assert(before[mi as int] == v);
                    }
                }
            }
        }
    }
    proof {
        assert forall|x: CountryRange|
            out@.to_multiset().add(remaining@.to_multiset()).count(x) == out@.to_multiset().count(
            x) by {
            vstd::seq_lib::to_multiset_contains(remaining@, x);
            assert(!remaining@.contains(x));
        }
        assert(out@.to_multiset() =~= whole);
    }
    out
}

/// Loads a dataset into a range table for the given address family.
///
/// Succeeds exactly when every row parses within the family's ordinal
/// width and no two parsed ranges overlap; the table then holds exactly
/// the parsed ranges, sorted by start ordinal.
pub fn load_range_table(data: &[u8], family: AddressFamily) -> (r: Result<
    RangeTable,
    DatasetFormatError,
>)
    ensures
        ({
            let maxi = family_max(family);
            match r {
                Ok(t) => {
                    &&& all_rows_parse(data@, maxi)
                    &&& !has_overlapping_pair(dataset_ranges(data@, maxi))
                    &&& ranges_wf(t@)
                    &&& sorted_by_start(t@)
                    &&& t@.to_multiset() == dataset_ranges(data@, maxi).to_multiset()
                },
                Err(DatasetFormatError::MalformedRow) => !all_rows_parse(data@, maxi),
                Err(DatasetFormatError::OverlappingRanges) => all_rows_parse(data@, maxi)
                    && has_overlapping_pair(dataset_ranges(data@, maxi)),
            }
        }),
{
    let max: u128 = match family {
        AddressFamily::V4 => 0xFFFF_FFFF,
        AddressFamily::V6 => 0xFFFF_FFFF_FFFF_FFFF_FFFF_FFFF_FFFF_FFFF,
    };
    let ghost maxi = family_max(family);
    let ghost parsed = dataset_ranges(data@, maxi);
    proof {
        assert(max as int == maxi);
    }
    let rows = match parse_all_rows(data, max) {
        Ok(v) => v,
        Err(e) => {
            return Err(e);
        },
    };
    let sorted = sort_rows(rows);
    proof {
        // Every sorted row is a parsed row, hence a valid interval.
        assert forall|k: int|
            0 <= k < sorted@.len() implies (#[trigger] sorted@[k]).start <= sorted@[k].end by {
            assert(sorted@.contains(sorted@[k]));
            vstd::seq_lib::to_multiset_contains(sorted@, sorted@[k]);
            vstd::seq_lib::to_multiset_contains(parsed, sorted@[k]);
            assert(parsed.contains(sorted@[k]));
            let w = choose|i: int| 0 <= i < parsed.len() && parsed[i] == sorted@[k];
            let l = dataset_rows(data@)[w];
            assert(spec_parse_row(l, maxi) is Some);
            let flds = row_fields(l)->Some_0;
            assert(valid_number(flds.0, maxi));
            lemma_decimal_nonneg(flds.0);
            assert(parsed[w] == spec_parse_row(l, maxi)->Some_0);
        }
    }
    let mut j: usize = 1;
    while j < sorted.len()
        invariant
            1 <= j,
            maxi == family_max(family),
            parsed == dataset_ranges(data@, maxi),
            all_rows_parse(data@, maxi),
            sorted_by_start(sorted@),
            sorted@.to_multiset() == parsed.to_multiset(),
            forall|k: int| 0 <= k < sorted@.len() ==> (#[trigger] sorted@[k]).start <= sorted@[k].end,
            forall|k: int| 0 <= k < j - 1 ==> (#[trigger] sorted@[k]).end < sorted@[k + 1].start,
        decreases sorted@.len() - j,
    {
        if sorted[j - 1].end >= sorted[j].start {
            proof {
                assert(ranges_overlap(sorted@[j - 1], sorted@[j as int]));
                assert(has_overlapping_pair(sorted@));
                lemma_overlap_transfer(sorted@, parsed);
            }
            return Err(DatasetFormatError::OverlappingRanges);
        }
        j += 1;
    }
    proof {
        assert forall|k: int|
            0 <= k < sorted@.len() - 1 implies (#[trigger] sorted@[k]).end < sorted@[k
            + 1].start by {}
        lemma_adjacent_disjoint_implies_wf(sorted@);
        lemma_wf_no_overlap(sorted@);
        if has_overlapping_pair(parsed) {
            lemma_overlap_transfer(parsed, sorted@);
        }
    }
    Ok(RangeTable::from_disjoint_rows(sorted))
}

} // verus!
