//! Single-variable (saturated-property) tables: rows keyed by one variable,
//! sorted ascending, queried by linear interpolation between neighbouring rows.
use vstd::prelude::*;
use vstd::seq_lib::*;
use vstd::multiset::Multiset;
use crate::datapoint::{DataPoint, dp_model, row_model, row_parses, row_reads_as,
    parse_to_datapoint_struct, interpolate_data_points};
use crate::error::Error;
use crate::{PREAMBLE_LINES, header_line_names, get_headers_from_string};
use crate::math::{lerp, lemma_lerp_at_start, lemma_lerp_monotone};
use crate::text::{fields, text_lines, lines_of, chars_of, string_of, lemma_fields_nonempty};

verus! {

/// The rows are in ascending order of their independent variable.
pub open spec fn sorted_by_point(pts: Seq<DataPoint>) -> bool {
    forall|i: int, j: int| 0 <= i <= j < pts.len() ==> (#[trigger] pts[i]).point <= (#[trigger] pts[j]).point
}

/// Index of the first row whose independent variable is above `x`, or the
/// number of rows where there is none.
pub open spec fn first_above(pts: Seq<DataPoint>, x: int) -> nat
    decreases pts.len(),
{
    if pts.len() == 0 {
        0
    } else if pts[0].point > x {
        0
    } else {
        1 + first_above(pts.drop_first(), x)
    }
}

pub proof fn lemma_first_above(pts: Seq<DataPoint>, x: int, i: int)
    requires
        0 <= i <= pts.len(),
        forall|j: int| 0 <= j < i ==> (#[trigger] pts[j]).point <= x,
        i == pts.len() || pts[i].point > x,
    ensures
        first_above(pts, x) == i,
    decreases pts.len(),
{
    if pts.len() > 0 && i > 0 {
        assert forall|j: int| 0 <= j < i - 1 implies (#[trigger] pts.drop_first()[j]).point <= x by {
            assert(pts[j + 1].point <= x);
        }
        lemma_first_above(pts.drop_first(), x, i - 1);
    }
}

pub proof fn lemma_first_above_facts(pts: Seq<DataPoint>, x: int)
    ensures
        first_above(pts, x) <= pts.len(),
        forall|j: int| 0 <= j < first_above(pts, x) ==> (#[trigger] pts[j]).point <= x,
        first_above(pts, x) < pts.len() ==> pts[first_above(pts, x) as int].point > x,
    decreases pts.len(),
{
    if pts.len() > 0 && pts[0].point <= x {
        lemma_first_above_facts(pts.drop_first(), x);
        assert forall|j: int| 0 <= j < first_above(pts, x) implies (#[trigger] pts[j]).point <= x by {
            if j > 0 {
                assert(pts[j] == pts.drop_first()[j - 1]);
            }
        }
    }
}

/// The values at `x` of a sorted table whose range holds `x`: the values of
/// the last row at or below `x` where that row stands at `x` or no row lies
/// above `x`; else each value interpolated linearly between that row and the
/// first row above `x`.
pub open spec fn values_at(pts: Seq<DataPoint>, x: int) -> Seq<int> {
    let k = first_above(pts, x);
    let lo = pts[k - 1];
    if k == pts.len() || lo.point == x {
        lo.values@.map_values(|v: i64| v as int)
    } else {
        let hi = pts[k as int];
        Seq::new(lo.values@.len(), |i: int| lerp(x, lo.point as int, lo.values@[i] as int, hi.point as int, hi.values@[i] as int))
    }
}

/// The lines of a table text are enough for a table: six free lines, the
/// column headers, and at least one row; every row reads as numbers and has
/// as many fields as there are headers.
pub open spec fn table_text_ok(ls: Seq<Seq<char>>) -> bool {
    &&& ls.len() > PREAMBLE_LINES + 1
    &&& forall|i: int| PREAMBLE_LINES + 1 <= i < ls.len() ==> row_parses(#[trigger] ls[i])
    &&& forall|i: int| PREAMBLE_LINES + 1 <= i < ls.len() ==>
        fields(#[trigger] ls[i], ',').len() == fields(ls[PREAMBLE_LINES as int], ',').len()
}

pub proof fn lemma_row_width(line: Seq<char>, dp: DataPoint)
    requires
        row_reads_as(line, dp),
    ensures
        dp.values@.len() + 1 == fields(line, ',').len(),
{
    lemma_fields_nonempty(line, ',');
    assert(dp_model(dp).1.len() == row_model(line).1.len());
}

/// Rows are in range and have `width` values each.
pub open spec fn rows_fit(pts: Seq<DataPoint>, width: nat) -> bool {
    forall|i: int| 0 <= i < pts.len() ==> (#[trigger] pts[i]).wf() && pts[i].values@.len() == width
}

/// The models of the rows of `pts`, as a multiset.
pub open spec fn model_multiset(pts: Seq<DataPoint>) -> Multiset<(int, Seq<int>)> {
    pts.map_values(|dp: DataPoint| dp_model(dp)).to_multiset()
}

/// The rows of `rows` in ascending order of their independent variable.
fn sort_by_point(rows: Vec<DataPoint>, Ghost(width): Ghost<nat>) -> (r: Vec<DataPoint>)
    requires
        rows_fit(rows@, width),
    ensures
        sorted_by_point(r@),
        rows_fit(r@, width),
        r@.len() == rows@.len(),
        model_multiset(r@) == model_multiset(rows@),
{
    broadcast use group_to_multiset_ensures, vstd::multiset::group_multiset_axioms;
    let ghost orig = rows@;
    let mut rows = rows;
    let mut out: Vec<DataPoint> = Vec::new();
    assert(out@.map_values(|dp: DataPoint| dp_model(dp)) =~= Seq::<(int, Seq<int>)>::empty());
    while rows.len() > 0
        invariant
            sorted_by_point(out@),
            rows_fit(out@, width),
            rows_fit(rows@, width),
            out@.len() + rows@.len() == orig.len(),
            model_multiset(out@).add(model_multiset(rows@)) == model_multiset(orig),
        decreases rows@.len(),
    {
        let ghost before = rows@;
        let dp = rows.pop().unwrap();
        assert(before == rows@.push(dp));
        assert(before.map_values(|d: DataPoint| dp_model(d)) =~= rows@.map_values(|d: DataPoint| dp_model(d)).push(dp_model(dp)));
        assert(dp.wf() && dp.values@.len() == width) by {
            assert(before[before.len() - 1] == dp);
        }
        let mut pos: usize = 0;
        while pos < out.len() && out[pos].point <= dp.point
            invariant
                pos <= out@.len(),
                forall|k: int| 0 <= k < pos ==> (#[trigger] out@[k]).point <= dp.point,
            decreases out@.len() - pos,
        {
            pos = pos + 1;
        }
        let ghost prev = out@;
        out.insert(pos, dp);
        assert(out@ == prev.insert(pos as int, dp));
        assert(out@.map_values(|d: DataPoint| dp_model(d)) =~= prev.map_values(|d: DataPoint| dp_model(d)).insert(pos as int, dp_model(dp)));
        assert forall|i: int, j: int| 0 <= i <= j < out@.len() implies (#[trigger] out@[i]).point <= (#[trigger] out@[j]).point by {
            if i < pos && j < pos {
                assert(out@[i] == prev[i] && out@[j] == prev[j]);
            } else if i < pos && j == pos {
                assert(out@[i] == prev[i]);
            } else if i < pos {
                assert(out@[i] == prev[i] && out@[j] == prev[j - 1]);
            } else if i == pos && j > pos {
                assert(out@[j] == prev[j - 1]);
                assert(j - 1 == pos || prev[pos as int].point <= prev[j - 1].point);
            } else if i > pos {
                assert(out@[i] == prev[i - 1] && out@[j] == prev[j - 1]);
            }
        }
        proof {
            to_multiset_insert(prev.map_values(|d: DataPoint| dp_model(d)), pos as int, dp_model(dp));
            to_multiset_build(rows@.map_values(|d: DataPoint| dp_model(d)), dp_model(dp));
        }
        assert(model_multiset(out@) =~= model_multiset(prev).insert(dp_model(dp)));
        assert(model_multiset(before) =~= model_multiset(rows@).insert(dp_model(dp)));
        assert(model_multiset(out@).add(model_multiset(rows@)) =~= model_multiset(prev).add(model_multiset(before)));
        assert forall|i: int| 0 <= i < out@.len() implies (#[trigger] out@[i]).wf() && out@[i].values@.len() == width by {
            if i < pos {
                assert(out@[i] == prev[i]);
            } else if i > pos {
                assert(out@[i] == prev[i - 1]);
            }
        }
    }
    out
}

/// The text and quantity of labelled pairs.
pub open spec fn labelled_view(pairs: Seq<(String, i64)>) -> Seq<(Seq<char>, int)> {
    pairs.map_values(|p: (String, i64)| (p.0@, p.1 as int))
}

/// Table of properties keyed by one variable.
pub struct SteamTable {
    headers: Vec<String>,
    datapoints: Vec<DataPoint>,
}

impl SteamTable {
    /// The column headers: the independent variable's first, then one for each
    /// value column.
    pub closed spec fn header_names(&self) -> Seq<Seq<char>> {
        self.headers@.map_values(|h: String| h@)
    }

    /// The rows, in ascending order of their independent variable.
    pub closed spec fn rows(&self) -> Seq<DataPoint> {
        self.datapoints@
    }

    /// At least one row; every row in range and with one value per value
    /// column; rows sorted.
    pub open spec fn wf(&self) -> bool {
        &&& self.rows().len() >= 1
        &&& forall|i: int| 0 <= i < self.rows().len() ==> (#[trigger] self.rows()[i]).wf()
        &&& forall|i: int| 0 <= i < self.rows().len() ==>
            (#[trigger] self.rows()[i]).values@.len() + 1 == self.header_names().len()
        &&& sorted_by_point(self.rows())
    }

    pub open spec fn min_point(&self) -> int {
        self.rows()[0].point as int
    }

    pub open spec fn max_point(&self) -> int {
        self.rows().last().point as int
    }

    /// What a query at `x` answers: out of range, that range; else the
    /// independent variable under the first header, then each value column's
    /// value at `x` under its header.
    pub open spec fn answer(&self, x: int) -> Result<Seq<(Seq<char>, int)>, Error> {
        if !(self.min_point() <= x <= self.max_point()) {
            Err(Error::ValueOutOfRange(self.min_point() as i64, self.max_point() as i64))
        } else {
            Ok(seq![(self.header_names()[0], x)] + Seq::new((self.header_names().len() - 1) as nat,
                |i: int| (self.header_names()[i + 1], values_at(self.rows(), x)[i])))
        }
    }

    /// Builds a table from its text: six free lines, a line of column headers,
    /// then one row per line. The rows are sorted by their independent
    /// variable.
    pub fn new(data_table: String) -> (r: Result<SteamTable, Error>)
        ensures
            r is Ok <==> table_text_ok(text_lines(data_table@)),
            r matches Ok(t) ==> {
                &&& t.wf()
                &&& t.header_names() == header_line_names(text_lines(data_table@)[PREAMBLE_LINES as int])
                &&& t.rows().map_values(|dp: DataPoint| dp_model(dp)).to_multiset()
                    == text_lines(data_table@).skip(PREAMBLE_LINES + 1).map_values(|l: Seq<char>| row_model(l)).to_multiset()
            },
            r matches Err(e) ==> e is TableParsingError,
    {
        let chars = chars_of(data_table.as_str());
        let lines = lines_of(chars.as_slice());
        let ghost ls = text_lines(data_table@);
        if lines.len() <= PREAMBLE_LINES + 1 {
            return Err(Error::TableParsingError(String::from_str("the text holds no header line or no row")));
        }
        let headers = get_headers_from_string(lines[PREAMBLE_LINES].as_slice());
        proof {
            lemma_fields_nonempty(ls[PREAMBLE_LINES as int], ',');
        }
        let mut str_data: Vec<String> = Vec::new();
        let mut i: usize = PREAMBLE_LINES + 1;
        while i < lines.len()
            invariant
                PREAMBLE_LINES + 1 <= i <= lines@.len() == ls.len(),
                ls == text_lines(data_table@),
                forall|k: int| 0 <= k < lines@.len() ==> #[trigger] lines@[k]@ == ls[k],
                str_data@.len() == i - PREAMBLE_LINES - 1,
                forall|k: int| 0 <= k < str_data@.len() ==> #[trigger] str_data@[k]@ == ls[k + PREAMBLE_LINES + 1],
            decreases lines@.len() - i,
        {
            str_data.push(string_of(lines[i].as_slice()));
            i = i + 1;
        }
        let ghost data = ls.skip(PREAMBLE_LINES + 1);
        assert forall|k: int| 0 <= k < str_data@.len() implies #[trigger] str_data@[k]@ == data[k] by {}
        let parsed = match parse_to_datapoint_struct(str_data) {
            Ok(ps) => ps,
            Err(e) => {
                proof {
                    let k = choose|k: int| 0 <= k < str_data@.len() && !row_parses(#[trigger] str_data@[k]@);
                    assert(!row_parses(ls[k + PREAMBLE_LINES + 1]));
                }
                return Err(e);
            },
        };
        let mut j: usize = 0;
        while j < parsed.len()
            invariant
                j <= parsed@.len() == data.len(),
                forall|k: int| 0 <= k < parsed@.len() ==> row_reads_as(data[k], #[trigger] parsed@[k]),
                forall|k: int| 0 <= k < j ==> (#[trigger] parsed@[k]).values@.len() + 1 == headers@.len(),
                forall|k: int| 0 <= k < parsed@.len() ==> (#[trigger] parsed@[k]).wf(),
                ls.len() > PREAMBLE_LINES + 1,
                data.len() + PREAMBLE_LINES + 1 == ls.len(),
                headers@.len() == fields(ls[PREAMBLE_LINES as int], ',').len() >= 1,
                data == ls.skip(PREAMBLE_LINES + 1),
                ls == text_lines(data_table@),
            decreases parsed@.len() - j,
        {
            if parsed[j].values.len() != headers.len() - 1 {
                proof {
                    lemma_row_width(data[j as int], parsed@[j as int]);
                    assert(fields(ls[j + PREAMBLE_LINES + 1], ',').len() != fields(ls[PREAMBLE_LINES as int], ',').len());
                }
                return Err(Error::TableParsingError(String::from_str("a row does not have one field for each header")));
            }
            j = j + 1;
        }
        proof {
            assert forall|k: int| PREAMBLE_LINES + 1 <= k < ls.len() implies
                fields(#[trigger] ls[k], ',').len() == fields(ls[PREAMBLE_LINES as int], ',').len() && row_parses(ls[k]) by {
                assert(ls[k] == data[k - PREAMBLE_LINES - 1]);
                lemma_row_width(data[k - PREAMBLE_LINES - 1], parsed@[k - PREAMBLE_LINES - 1]);
            }
        }
        let datapoints = sort_by_point(parsed, Ghost((headers@.len() - 1) as nat));
        let steam_table = SteamTable { headers, datapoints };
        proof {
            assert(steam_table.header_names() =~= header_line_names(ls[PREAMBLE_LINES as int]));
            assert(parsed@.map_values(|dp: DataPoint| dp_model(dp)) =~= data.map_values(|l: Seq<char>| row_model(l))) by {
                assert forall|k: int| 0 <= k < data.len() implies
                    #[trigger] dp_model(parsed@[k]) == row_model(data[k]) by {
                    assert(row_reads_as(data[k], parsed@[k]));
                }
            }
        }
        Ok(steam_table)
    }

    /// Smallest tabulated value of the independent variable.
    pub fn smallest_valid_point(&self) -> (r: i64)
        requires
            self.wf(),
        ensures
            r == self.min_point(),
    {
        self.datapoints[0].point
    }

    /// Largest tabulated value of the independent variable.
    pub fn largest_valid_point(&self) -> (r: i64)
        requires
            self.wf(),
        ensures
            r == self.max_point(),
    {
        let datapoints_length = self.datapoints.len();
        self.datapoints[datapoints_length - 1].point
    }

    /// Smallest and largest tabulated values of the independent variable.
    pub fn valid_range(&self) -> (r: (i64, i64))
        requires
            self.wf(),
        ensures
            r.0 == self.min_point() && r.1 == self.max_point(),
    {
        (self.smallest_valid_point(), self.largest_valid_point())
    }

    /// Succeeds exactly when `point` lies in the table's range; else reports
    /// that range.
    pub fn is_point_valid(&self, point: i64) -> (r: Result<(), Error>)
        requires
            self.wf(),
        ensures
            r is Ok <==> self.min_point() <= point <= self.max_point(),
            r matches Err(e) ==> e == Error::ValueOutOfRange(self.min_point() as i64, self.max_point() as i64),
    {
        let smallest_point = self.smallest_valid_point();
        let largest_point = self.largest_valid_point();
        if point < smallest_point || point > largest_point {
            return Err(Error::ValueOutOfRange(smallest_point, largest_point));
        }
        Ok(())
    }

    /// The last row at or below `point` and the first row above it, or the
    /// last row twice where no row lies above.
    fn get_bounding_points(&self, point: i64) -> (r: (DataPoint, DataPoint))
        requires
            self.wf(),
            self.min_point() <= point <= self.max_point(),
        ensures
            ({
                let k = first_above(self.rows(), point as int);
                let hi = if k == self.rows().len() { self.rows()[k - 1] } else { self.rows()[k as int] };
                &&& 1 <= k <= self.rows().len()
                &&& r.0.point == self.rows()[k - 1].point && r.0.values@ == self.rows()[k - 1].values@
                &&& r.1.point == hi.point && r.1.values@ == hi.values@
            }),
    {
        let n = self.datapoints.len();
        let mut i: usize = 0;
        while i < n && self.datapoints[i].point <= point
            invariant
                i <= n == self.rows().len(),
                forall|j: int| 0 <= j < i ==> (#[trigger] self.rows()[j]).point <= point,
            decreases n - i,
        {
            i = i + 1;
        }
        proof {
            lemma_first_above(self.rows(), point as int, i as int);
        }
        let lower = self.datapoints[i - 1].duplicate();
        let upper = if i == n { self.datapoints[i - 1].duplicate() } else { self.datapoints[i].duplicate() };
        (lower, upper)
    }

    /// Pairs each header with its quantity: the first with the independent
    /// variable, the others with the values in order.
    fn merge_header_with_data_point(&self, data_point: DataPoint) -> (r: Vec<(String, i64)>)
        requires
            data_point.values@.len() + 1 == self.header_names().len(),
        ensures
            r@.len() == self.header_names().len(),
            r@[0].0@ == self.header_names()[0],
            r@[0].1 == data_point.point,
            forall|i: int| 0 <= i < data_point.values@.len() ==>
                (#[trigger] r@[i + 1]).0@ == self.header_names()[i + 1] && r@[i + 1].1 == data_point.values@[i],
    {
        let mut labelled_data: Vec<(String, i64)> = Vec::new();
        labelled_data.push((self.headers[0].clone(), data_point.point));
        let mut i: usize = 0;
        while i < data_point.values.len()
            invariant
                i <= data_point.values@.len(),
                data_point.values@.len() + 1 == self.header_names().len() == self.headers@.len(),
                labelled_data@.len() == i + 1,
                labelled_data@[0].0@ == self.header_names()[0],
                labelled_data@[0].1 == data_point.point,
                forall|k: int| 0 <= k < i ==>
                    (#[trigger] labelled_data@[k + 1]).0@ == self.header_names()[k + 1] && labelled_data@[k + 1].1 == data_point.values@[k],
            decreases data_point.values@.len() - i,
        {
            labelled_data.push((self.headers[i + 1].clone(), data_point.values[i]));
            i = i + 1;
        }
        labelled_data
    }

    /// The labelled quantities at `point`: the independent variable under the
    /// first header, then each value column's value at `point` under its
    /// header. Fails with the table's range when `point` lies outside it.
    pub fn get_values_at_point(&self, point: i64) -> (r: Result<Vec<(String, i64)>, Error>)
        requires
            self.wf(),
        ensures
            r is Ok <==> self.min_point() <= point <= self.max_point(),
            r matches Err(e) ==> e == Error::ValueOutOfRange(self.min_point() as i64, self.max_point() as i64),
            r matches Ok(pairs) ==> {
                &&& pairs@.len() == self.header_names().len()
                &&& pairs@[0].0@ == self.header_names()[0]
                &&& pairs@[0].1 == point
                &&& forall|i: int| 0 <= i < pairs@.len() - 1 ==>
                    (#[trigger] pairs@[i + 1]).0@ == self.header_names()[i + 1]
                    && pairs@[i + 1].1 as int == values_at(self.rows(), point as int)[i]
            },
            r matches Ok(pairs) ==> self.answer(point as int) == Ok::<Seq<(Seq<char>, int)>, Error>(labelled_view(pairs@)),
            r matches Err(e) ==> self.answer(point as int) == Err::<Seq<(Seq<char>, int)>, Error>(e),
    {
        self.is_point_valid(point)?;
        let (min_data_point, max_data_point) = self.get_bounding_points(point);
        let ghost k = first_above(self.rows(), point as int);
        proof {
            lemma_first_above_facts(self.rows(), point as int);
        }
        assert(self.rows()[k - 1].wf());
        assert(self.rows()[k - 1].values@.len() + 1 == self.header_names().len());
        let data_point = if min_data_point.point == point || min_data_point.point == max_data_point.point {
            min_data_point
        } else {
            assert(self.rows()[k as int].wf());
            assert(self.rows()[k as int].values@.len() + 1 == self.header_names().len());
            assert(self.rows()[k as int].point > point);
            interpolate_data_points(point, min_data_point, max_data_point)
        };
        let ghost expected = values_at(self.rows(), point as int);
        assert(data_point.point == point);
        assert(data_point.values@.len() == expected.len());
        assert forall|i: int| 0 <= i < expected.len() implies data_point.values@[i] as int == #[trigger] expected[i] by {}
        let pairs = self.merge_header_with_data_point(data_point);
        proof {
            let h = self.header_names();
            assert(labelled_view(pairs@) =~= seq![(h[0], point as int)] + Seq::new((h.len() - 1) as nat,
                |i: int| (h[i + 1], values_at(self.rows(), point as int)[i])));
        }
        Ok(pairs)
    }
}

/// At a tabulated independent variable that no other row shares, a query
/// gives that row's values exactly.
pub proof fn lemma_exact_at_tabulated_point(t: &SteamTable, i: int)
    requires
        t.wf(),
        0 <= i < t.rows().len(),
        forall|j: int| 0 <= j < t.rows().len() && j != i ==> (#[trigger] t.rows()[j]).point != t.rows()[i].point,
    ensures
        values_at(t.rows(), t.rows()[i].point as int) == t.rows()[i].values@.map_values(|v: i64| v as int),
{
    let pts = t.rows();
    let x = pts[i].point as int;
    assert forall|j: int| 0 <= j < i + 1 implies (#[trigger] pts[j]).point <= x by {
        assert(pts[j].point <= pts[i].point);
    }
    if i + 1 < pts.len() {
        assert(pts[i].point <= pts[i + 1].point);
        assert(pts[i + 1].point != pts[i].point);
    }
    lemma_first_above(pts, x, i + 1);
}

/// Strictly between two neighbouring rows, each value column is the linear
/// interpolation between those two rows.
pub proof fn lemma_between_rows_is_linear(t: &SteamTable, k: int, x: int)
    requires
        t.wf(),
        0 <= k,
        k + 1 < t.rows().len(),
        t.rows()[k].point < x < t.rows()[k + 1].point,
    ensures
        values_at(t.rows(), x).len() == t.rows()[k].values@.len(),
        forall|c: int| 0 <= c < t.rows()[k].values@.len() ==> #[trigger] values_at(t.rows(), x)[c] == lerp(x,
            t.rows()[k].point as int, t.rows()[k].values@[c] as int,
            t.rows()[k + 1].point as int, t.rows()[k + 1].values@[c] as int),
{
    let pts = t.rows();
    assert forall|j: int| 0 <= j < k + 1 implies (#[trigger] pts[j]).point <= x by {
        assert(pts[j].point <= pts[k].point);
    }
    lemma_first_above(pts, x, k + 1);
}

/// As the query sweeps upward from one row toward the next (short of the
/// next), a value column that rises from the one row to the next never falls,
/// and one that falls never rises.
pub proof fn lemma_monotone_between_rows(t: &SteamTable, k: int, x: int, x_next: int, c: int)
    requires
        t.wf(),
        0 <= k,
        k + 1 < t.rows().len(),
        t.rows()[k].point <= x <= x_next < t.rows()[k + 1].point,
        0 <= c < t.rows()[k].values@.len(),
    ensures
        t.rows()[k].values@[c] <= t.rows()[k + 1].values@[c] ==> values_at(t.rows(), x)[c] <= values_at(t.rows(), x_next)[c],
        t.rows()[k + 1].values@[c] <= t.rows()[k].values@[c] ==> values_at(t.rows(), x_next)[c] <= values_at(t.rows(), x)[c],
{
    let pts = t.rows();
    let lo = pts[k];
    let hi = pts[k + 1];
    assert forall|j: int| 0 <= j < k + 1 implies (#[trigger] pts[j]).point <= x by {
        assert(pts[j].point <= pts[k].point);
    }
    lemma_first_above(pts, x, k + 1);
    lemma_first_above(pts, x_next, k + 1);
    lemma_lerp_at_start(lo.point as int, lo.values@[c] as int, hi.point as int, hi.values@[c] as int);
    lemma_lerp_monotone(x, x_next, lo.point as int, lo.values@[c] as int, hi.point as int, hi.values@[c] as int);
    lemma_lerp_monotone(lo.point as int, x_next, lo.point as int, lo.values@[c] as int, hi.point as int, hi.values@[c] as int);
}

/// The range that a query outside it reports is the true extent of the
/// table: every row lies within it, and its ends are rows.
pub proof fn lemma_range_is_extent(t: &SteamTable)
    requires
        t.wf(),
    ensures
        forall|i: int| 0 <= i < t.rows().len() ==>
            t.min_point() <= (#[trigger] t.rows()[i]).point <= t.max_point(),
{
    assert forall|i: int| 0 <= i < t.rows().len() implies
        t.min_point() <= (#[trigger] t.rows()[i]).point <= t.max_point() by {
        assert(t.rows()[0].point <= t.rows()[i].point);
        assert(t.rows()[i].point <= t.rows()[t.rows().len() - 1].point);
    }
}

} // verus!
