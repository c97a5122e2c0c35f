//! Rows of a single-variable table: reading them from text and interpolating
//! between two of them.
use vstd::prelude::*;
use crate::error::Error;
use crate::math::{Point2, linear_interpolate, lerp, between, in_bounds, lemma_lerp_between};
use crate::number::{field_value, parse_field, decimal_text, format_decimal, lemma_decimal_round_trip};
use crate::text::{fields, split_fields, chars_of, string_of, lemma_fields_nonempty, join_fields, free_of,
    lemma_fields_of_join};

verus! {

/// One tabulated row: the independent variable and the dependent values, in
/// column order, all in units of 10^-9.
#[derive(Debug, Clone)]
pub struct DataPoint {
    pub point: i64,
    pub values: Vec<i64>,
}

impl DataPoint {
    /// Every quantity of the row lies in the accepted range.
    pub open spec fn wf(&self) -> bool {
        &&& in_bounds(self.point as int)
        &&& forall|i: int| 0 <= i < self.values@.len() ==> in_bounds(#[trigger] self.values@[i] as int)
    }

    /// A copy of the row.
    pub fn duplicate(&self) -> (r: DataPoint)
        ensures
            r.point == self.point,
            r.values@ == self.values@,
    {
        DataPoint { point: self.point, values: self.values.clone() }
    }
}

impl PartialEq for DataPoint {
    fn eq(&self, other: &DataPoint) -> (r: bool)
        ensures
            r == (self.point == other.point && self.values@ == other.values@),
    {
        if self.point != other.point || self.values.len() != other.values.len() {
            return false;
        }
        let mut i: usize = 0;
        while i < self.values.len()
            invariant
                i <= self.values@.len() == other.values@.len(),
                forall|k: int| 0 <= k < i ==> self.values@[k] == other.values@[k],
            decreases self.values@.len() - i,
        {
            if self.values[i] != other.values[i] {
                return false;
            }
            i = i + 1;
        }
        assert(self.values@ =~= other.values@);
        true
    }
}

impl vstd::std_specs::cmp::PartialEqSpecImpl for DataPoint {
    open spec fn obeys_eq_spec() -> bool {
        true
    }

    open spec fn eq_spec(&self, other: &DataPoint) -> bool {
        self.point == other.point && self.values@ == other.values@
    }
}

/// A row reads as numbers in every comma-separated field.
pub open spec fn row_parses(line: Seq<char>) -> bool {
    forall|i: int| 0 <= i < fields(line, ',').len() ==> (#[trigger] field_value(fields(line, ',')[i])) is Some
}

/// What the row `line` reads as: its first field is the independent variable,
/// the others the values in order.
pub open spec fn row_model(line: Seq<char>) -> (int, Seq<int>) {
    let f = fields(line, ',');
    (field_value(f[0])->0, f.drop_first().map_values(|c: Seq<char>| field_value(c)->0))
}

/// The independent variable and the values of `dp`.
pub open spec fn dp_model(dp: DataPoint) -> (int, Seq<int>) {
    (dp.point as int, dp.values@.map_values(|v: i64| v as int))
}

/// `dp` is what the row `line` reads as.
pub open spec fn row_reads_as(line: Seq<char>, dp: DataPoint) -> bool {
    row_parses(line) && dp_model(dp) == row_model(line)
}

/// Reads one row.
pub fn parse_row(line: &[char]) -> (r: Option<DataPoint>)
    ensures
        r is Some <==> row_parses(line@),
        r matches Some(dp) ==> row_reads_as(line@, dp) && dp.wf(),
{
    let f = split_fields(line, ',');
    proof {
        lemma_fields_nonempty(line@, ',');
    }
    let ghost fs = fields(line@, ',');
    let point = match parse_field(f[0].as_slice()) {
        Some(v) => v,
        None => {
            assert(f@[0]@ == fs[0]);
            assert(!(field_value(fields(line@, ',')[0]) is Some));
            return None;
        }
    };
    let mut values: Vec<i64> = Vec::new();
    let mut i: usize = 1;
    while i < f.len()
        invariant
            1 <= i <= f@.len() == fs.len(),
            fs == fields(line@, ','),
            forall|k: int| 0 <= k < f@.len() ==> #[trigger] f@[k]@ == fs[k],
            field_value(fs[0]) == Some(point as int),
            in_bounds(point as int),
            values@.len() + 1 == i,
            forall|k: int| 0 <= k < values@.len() ==> field_value(fs[k + 1]) == Some(#[trigger] values@[k] as int),
            forall|k: int| 0 <= k < values@.len() ==> in_bounds(#[trigger] values@[k] as int),
        decreases f@.len() - i,
    {
        match parse_field(f[i].as_slice()) {
            Some(v) => {
                values.push(v);
            },
            None => {
                assert(field_value(fields(line@, ',')[i as int]) is None);
                return None;
            },
        }
        i = i + 1;
    }
    let dp = DataPoint { point, values };
    assert(dp_model(dp).1 =~= row_model(line@).1);
    assert forall|k: int| 0 <= k < fs.len() implies (#[trigger] field_value(fs[k])) is Some by {
        if k > 0 {
            assert(field_value(fs[(k - 1) + 1]) == Some(dp.values@[k - 1] as int));
        }
    }
    Some(dp)
}

/// Reads every row; fails if any row does not read as numbers.
pub fn parse_to_datapoint_struct(lines: Vec<String>) -> (r: Result<Vec<DataPoint>, Error>)
    ensures
        r is Ok <==> forall|i: int| 0 <= i < lines@.len() ==> row_parses(#[trigger] lines@[i]@),
        r matches Ok(ps) ==> {
            &&& ps@.len() == lines@.len()
            &&& forall|i: int| 0 <= i < ps@.len() ==> row_reads_as(lines@[i]@, #[trigger] ps@[i])
            &&& forall|i: int| 0 <= i < ps@.len() ==> (#[trigger] ps@[i]).wf()
        },
        r matches Err(e) ==> e is TableParsingError,
{
    let mut ps: Vec<DataPoint> = Vec::new();
    let mut i: usize = 0;
    while i < lines.len()
        invariant
            i <= lines@.len(),
            ps@.len() == i,
            forall|k: int| 0 <= k < i ==> row_parses(#[trigger] lines@[k]@),
            forall|k: int| 0 <= k < i ==> row_reads_as(lines@[k]@, #[trigger] ps@[k]),
            forall|k: int| 0 <= k < i ==> (#[trigger] ps@[k]).wf(),
        decreases lines@.len() - i,
    {
        let cs = chars_of(lines[i].as_str());
        match parse_row(cs.as_slice()) {
            Some(dp) => {
                ps.push(dp);
            },
            None => {
                return Err(Error::TableParsingError(String::from_str("a row holds a field that is not a number")));
            },
        }
        i = i + 1;
    }
    Ok(ps)
}

/// The row at `point` between the rows `min_data_point` and `max_data_point`:
/// the first row itself where both stand at the same coordinate, else each
/// value interpolated linearly.
pub fn interpolate_data_points(point: i64, min_data_point: DataPoint, max_data_point: DataPoint) -> (r: DataPoint)
    requires
        min_data_point.wf(),
        max_data_point.wf(),
        min_data_point.values@.len() == max_data_point.values@.len(),
        min_data_point.point != max_data_point.point
            ==> between(point as int, min_data_point.point as int, max_data_point.point as int),
    ensures
        r.wf(),
        min_data_point.point == max_data_point.point ==> r.point == min_data_point.point && r.values@ == min_data_point.values@,
        min_data_point.point != max_data_point.point ==> {
            &&& r.point == point
            &&& r.values@.len() == min_data_point.values@.len()
            &&& forall|i: int| 0 <= i < r.values@.len() ==> #[trigger] r.values@[i] as int == lerp(point as int,
                min_data_point.point as int, min_data_point.values@[i] as int,
                max_data_point.point as int, max_data_point.values@[i] as int)
        },
{
    if min_data_point.point == max_data_point.point {
        return min_data_point;
    }
    let lower_bound = min_data_point.point;
    let upper_bound = max_data_point.point;
    let mut values: Vec<i64> = Vec::new();
    let mut i: usize = 0;
    while i < min_data_point.values.len()
        invariant
            i <= min_data_point.values@.len() == max_data_point.values@.len(),
            lower_bound == min_data_point.point,
            upper_bound == max_data_point.point,
            lower_bound != upper_bound,
            min_data_point.wf(),
            max_data_point.wf(),
            between(point as int, lower_bound as int, upper_bound as int),
            values@.len() == i,
            forall|k: int| 0 <= k < i ==> #[trigger] values@[k] as int == lerp(point as int,
                lower_bound as int, min_data_point.values@[k] as int,
                upper_bound as int, max_data_point.values@[k] as int),
            forall|k: int| 0 <= k < i ==> in_bounds(#[trigger] values@[k] as int),
        decreases min_data_point.values@.len() - i,
    {
        let y0 = min_data_point.values[i];
        let y1 = max_data_point.values[i];
        proof {
            lemma_lerp_between(point as int, lower_bound as int, y0 as int, upper_bound as int, y1 as int);
        }
        let v = linear_interpolate(point, Point2(lower_bound, y0), Point2(upper_bound, y1));
        values.push(v);
        i = i + 1;
    }
    DataPoint { point, values }
}

/// The fields of the text of a row: the numerals of its independent variable
/// and of its values, in order.
pub open spec fn row_parts(dp: DataPoint) -> Seq<Seq<char>> {
    seq![decimal_text(dp.point as int)] + dp.values@.map_values(|v: i64| decimal_text(v as int))
}

/// The text of a row: its fields joined by commas.
pub open spec fn row_text(dp: DataPoint) -> Seq<char> {
    join_fields(row_parts(dp), ',')
}

/// Writes a row as a line of table text.
pub fn format_row(dp: &DataPoint) -> (r: String)
    requires
        dp.wf(),
    ensures
        r@ == row_text(*dp),
{
    let ghost parts = row_parts(*dp);
    let first = format_decimal(dp.point);
    let mut out: Vec<char> = chars_of(first.as_str());
    assert(parts.take(1) =~= seq![parts[0]]);
    let mut i: usize = 0;
    while i < dp.values.len()
        invariant
            dp.wf(),
            parts == row_parts(*dp),
            i <= dp.values@.len(),
            out@ == join_fields(parts.take(i + 1), ','),
        decreases dp.values@.len() - i,
    {
        let cell = format_decimal(dp.values[i]);
        let cs = chars_of(cell.as_str());
        out.push(',');
        let ghost head = out@;
        let mut j: usize = 0;
        while j < cs.len()
            invariant
                j <= cs@.len(),
                out@ == head + cs@.take(j as int),
            decreases cs@.len() - j,
        {
            out.push(cs[j]);
            j = j + 1;
            assert(out@ =~= head + cs@.take(j as int));
        }
        assert(cs@.take(j as int) =~= cs@);
        assert(parts.take(i + 2).drop_last() =~= parts.take(i + 1));
        assert(parts[i + 1] == decimal_text(dp.values@[i as int] as int));
        assert(out@ =~= join_fields(parts.take(i + 2), ','));
        i = i + 1;
    }
    assert(parts.take(i + 1) =~= parts);
    string_of(out.as_slice())
}

/// Reading the text that `format_row` writes for a row gives that row back.
pub proof fn lemma_row_round_trip(dp: DataPoint)
    requires
        dp.wf(),
    ensures
        row_parses(row_text(dp)),
        row_model(row_text(dp)) == dp_model(dp),
{
    let parts = row_parts(dp);
    lemma_decimal_round_trip(dp.point as int);
    assert forall|i: int| 0 <= i < parts.len() implies
        free_of(#[trigger] parts[i], ',') && field_value(parts[i]) is Some by {
        if i == 0 {
        } else {
            lemma_decimal_round_trip(dp.values@[i - 1] as int);
        }
    }
    lemma_fields_of_join(parts, ',');
    assert(fields(row_text(dp), ',') == parts);
    assert forall|i: int| 0 <= i < dp.values@.len() implies
        #[trigger] field_value(parts[i + 1]) == Some(dp.values@[i] as int) by {
        lemma_decimal_round_trip(dp.values@[i] as int);
    }
    assert(row_model(row_text(dp)).1 =~= dp_model(dp).1);
}

} // verus!
