//! Two-variable (pressure, temperature) tables of water and steam properties.
use vstd::prelude::*;
use crate::error::Error;
use crate::number::{decimal_text, format_decimal};
use crate::text::{fields, text_lines, lines_of, chars_of, string_of, lemma_fields_nonempty};
use crate::{PREAMBLE_LINES, header_line_names, get_headers_from_string};

pub mod waterpoint;

use waterpoint::{WaterPoint, WaterModel, wp_model, water_row_model, water_row_parses,
    parse_to_water_point_struct, interpolate_water_points, phase_change_occurs,
    get_nearest_water_point, cell_value, corner, nearest_index};

verus! {

/// Index of the first key above `x`, or the number of keys where there is none.
pub open spec fn first_key_above(keys: Seq<int>, x: int) -> nat
    decreases keys.len(),
{
    if keys.len() == 0 {
        0
    } else if keys[0] > x {
        0
    } else {
        1 + first_key_above(keys.drop_first(), x)
    }
}

pub proof fn lemma_first_key_above(keys: Seq<int>, x: int, i: int)
    requires
        0 <= i <= keys.len(),
        forall|j: int| 0 <= j < i ==> #[trigger] keys[j] <= x,
        i == keys.len() || keys[i] > x,
    ensures
        first_key_above(keys, x) == i,
    decreases keys.len(),
{
    if keys.len() > 0 && i > 0 {
        assert forall|j: int| 0 <= j < i - 1 implies #[trigger] keys.drop_first()[j] <= x by {
            assert(keys[j + 1] <= x);
        }
        lemma_first_key_above(keys.drop_first(), x, i - 1);
    }
}

pub proof fn lemma_first_key_above_facts(keys: Seq<int>, x: int)
    ensures
        first_key_above(keys, x) <= keys.len(),
        forall|j: int| 0 <= j < first_key_above(keys, x) ==> #[trigger] keys[j] <= x,
        first_key_above(keys, x) < keys.len() ==> keys[first_key_above(keys, x) as int] > x,
    decreases keys.len(),
{
    if keys.len() > 0 && keys[0] <= x {
        lemma_first_key_above_facts(keys.drop_first(), x);
        assert forall|j: int| 0 <= j < first_key_above(keys, x) implies #[trigger] keys[j] <= x by {
            if j > 0 {
                assert(keys[j] == keys.drop_first()[j - 1]);
            }
        }
    }
}

/// The bracket of `x` in a scan of `keys`: the last key at or below `x` before
/// the first key above it (the first key where there is none), and that first
/// key above (the last key where there is none).
pub open spec fn bracket(keys: Seq<int>, x: int) -> (int, int) {
    let k = first_key_above(keys, x);
    (
        if k > 0 { keys[k - 1] } else { keys[0] },
        if k < keys.len() { keys[k as int] } else { keys.last() },
    )
}

/// Index of the first row at the coordinates `(a, b)`, or -1 where there is none.
pub open spec fn find_point(rows: Seq<WaterPoint>, a: int, b: int) -> int
    decreases rows.len(),
{
    if rows.len() == 0 {
        -1
    } else if rows[0].point.0 == a && rows[0].point.1 == b {
        0
    } else {
        let r = find_point(rows.drop_first(), a, b);
        if r < 0 { -1 } else { r + 1 }
    }
}

pub proof fn lemma_find_point(rows: Seq<WaterPoint>, a: int, b: int, i: int)
    requires
        0 <= i <= rows.len(),
        forall|j: int| 0 <= j < i ==> !((#[trigger] rows[j]).point.0 == a && rows[j].point.1 == b),
        i < rows.len() ==> rows[i].point.0 == a && rows[i].point.1 == b,
    ensures
        find_point(rows, a, b) == (if i < rows.len() { i } else { -1 }),
    decreases rows.len(),
{
    if rows.len() > 0 && i > 0 {
        assert forall|j: int| 0 <= j < i - 1 implies
            !((#[trigger] rows.drop_first()[j]).point.0 == a && rows.drop_first()[j].point.1 == b) by {
            assert(rows.drop_first()[j] == rows[j + 1]);
        }
        lemma_find_point(rows.drop_first(), a, b, i - 1);
    }
}

pub proof fn lemma_find_point_facts(rows: Seq<WaterPoint>, a: int, b: int)
    ensures
        -1 <= find_point(rows, a, b) < rows.len(),
        find_point(rows, a, b) >= 0 ==> rows[find_point(rows, a, b)].point.0 == a
            && rows[find_point(rows, a, b)].point.1 == b,
    decreases rows.len(),
{
    if rows.len() > 0 {
        lemma_find_point_facts(rows.drop_first(), a, b);
    }
}

/// What a query answers from the four corners of its cell: where they share a
/// phase, the values interpolated over the cell at `(a, b)` with that phase;
/// else the nearest corner unchanged.
pub open spec fn cell_result(
    a: int,
    b: int,
    w00: WaterPoint,
    w01: WaterPoint,
    w10: WaterPoint,
    w11: WaterPoint,
) -> WaterModel {
    if w00.phase@ == w01.phase@ && w00.phase@ == w10.phase@ && w00.phase@ == w11.phase@ {
        (
            (a, b),
            Seq::new(w00.values@.len(), |i: int| cell_value(a, b, corner(w00, i), corner(w01, i),
                corner(w10, i), corner(w11, i))),
            w00.phase@,
        )
    } else {
        let n = nearest_index(a, b, w00, w01, w10, w11);
        wp_model(if n == 0 { w00 } else if n == 1 { w01 } else if n == 2 { w10 } else { w11 })
    }
}

/// The lines of a table text are enough for a two-variable table: six free
/// lines, the column headers, and at least one row; every row reads as a
/// two-variable row and has as many fields as there are headers.
pub open spec fn water_text_ok(ls: Seq<Seq<char>>) -> bool {
    &&& ls.len() > PREAMBLE_LINES + 1
    &&& forall|i: int| PREAMBLE_LINES + 1 <= i < ls.len() ==> water_row_parses(#[trigger] ls[i])
    &&& forall|i: int| PREAMBLE_LINES + 1 <= i < ls.len() ==>
        fields(#[trigger] ls[i], ',').len() == fields(ls[PREAMBLE_LINES as int], ',').len()
}

/// The labelled fields of a row: pressure, temperature and each value as a
/// numeral, then the phase, each under the header at its place.
pub open spec fn labelled(headers: Seq<Seq<char>>, m: WaterModel) -> Seq<(Seq<char>, Seq<char>)> {
    seq![(headers[0], decimal_text(m.0.0)), (headers[1], decimal_text(m.0.1))]
        + Seq::new(m.1.len(), |i: int| (headers[i + 2], decimal_text(m.1[i])))
        + seq![(headers[m.1.len() as int + 2], m.2)]
}

/// The text of labelled pairs.
pub open spec fn pairs_view(pairs: Seq<(String, String)>) -> Seq<(Seq<char>, Seq<char>)> {
    pairs.map_values(|p: (String, String)| (p.0@, p.1@))
}

/// Table of water and steam properties keyed by pressure and temperature.
pub struct WaterTable {
    headers: Vec<String>,
    value_points: Vec<WaterPoint>,
}

impl WaterTable {
    /// The column headers: pressure, temperature, one for each value column,
    /// then the phase.
    pub closed spec fn header_names(&self) -> Seq<Seq<char>> {
        self.headers@.map_values(|h: String| h@)
    }

    /// The rows, in table order.
    pub closed spec fn rows(&self) -> Seq<WaterPoint> {
        self.value_points@
    }

    /// At least one row; every row in range and with one value per value column.
    pub open spec fn wf(&self) -> bool {
        &&& self.rows().len() >= 1
        &&& forall|i: int| 0 <= i < self.rows().len() ==> (#[trigger] self.rows()[i]).wf()
        &&& forall|i: int| 0 <= i < self.rows().len() ==>
            (#[trigger] self.rows()[i]).values@.len() + 3 == self.header_names().len()
    }

    pub open spec fn pressures(&self) -> Seq<int> {
        self.rows().map_values(|wp: WaterPoint| wp.point.0 as int)
    }

    pub open spec fn temperatures(&self) -> Seq<int> {
        self.rows().map_values(|wp: WaterPoint| wp.point.1 as int)
    }

    /// What a query at `(p, t)` answers. Out of the pressure range of the
    /// first and last rows, or else of their temperature range: that range.
    /// Else the cell is spanned by the brackets of each coordinate, and its
    /// corners, pressure first, are looked up in the order (low, low),
    /// (low, high), (high, low), (high, high): the first that is missing is
    /// reported; with all four, the answer is `cell_result` over them.
    pub open spec fn query_result(&self, p: int, t: int) -> Result<WaterModel, Error> {
        let rows = self.rows();
        if !(rows[0].point.0 <= p <= rows.last().point.0) {
            Err(Error::ValueOutOfRange(rows[0].point.0, rows.last().point.0))
        } else if !(rows[0].point.1 <= t <= rows.last().point.1) {
            Err(Error::ValueOutOfRange(rows[0].point.1, rows.last().point.1))
        } else {
            let (a0, a1) = bracket(self.pressures(), p);
            let (b0, b1) = bracket(self.temperatures(), t);
            let i00 = find_point(rows, a0, b0);
            let i01 = find_point(rows, a0, b1);
            let i10 = find_point(rows, a1, b0);
            let i11 = find_point(rows, a1, b1);
            if i00 < 0 {
                Err(Error::MissingGridPoint(a0 as i64, b0 as i64))
            } else if i01 < 0 {
                Err(Error::MissingGridPoint(a0 as i64, b1 as i64))
            } else if i10 < 0 {
                Err(Error::MissingGridPoint(a1 as i64, b0 as i64))
            } else if i11 < 0 {
                Err(Error::MissingGridPoint(a1 as i64, b1 as i64))
            } else {
                Ok(cell_result(p, t, rows[i00], rows[i01], rows[i10], rows[i11]))
            }
        }
    }

    /// Builds a table from its text: six free lines, a line of column headers,
    /// then one row per line, kept in the order given.
    pub fn new(data_table: String) -> (r: Result<WaterTable, Error>)
        ensures
            r is Ok <==> water_text_ok(text_lines(data_table@)),
            r matches Ok(t) ==> {
                &&& t.wf()
                &&& t.header_names() == header_line_names(text_lines(data_table@)[PREAMBLE_LINES as int])
                &&& t.rows().len() + PREAMBLE_LINES + 1 == text_lines(data_table@).len()
                &&& forall|i: int| 0 <= i < t.rows().len() ==> #[trigger] wp_model(t.rows()[i])
                    == water_row_model(text_lines(data_table@)[i + PREAMBLE_LINES + 1])
            },
            r matches Err(e) ==> e is TableParsingError,
    {
        let chars = chars_of(data_table.as_str());
        let lines = lines_of(chars.as_slice());
        let ghost ls = text_lines(data_table@);
        if lines.len() <= PREAMBLE_LINES + 1 {
            return Err(Error::TableParsingError(String::from_str("the text holds no header line or no row")));
        }
        let headers = get_headers_from_string(lines[PREAMBLE_LINES].as_slice());
        proof {
            lemma_fields_nonempty(ls[PREAMBLE_LINES as int], ',');
        }
        let mut value_lines: Vec<String> = Vec::new();
        let mut i: usize = PREAMBLE_LINES + 1;
        while i < lines.len()
            invariant
                PREAMBLE_LINES + 1 <= i <= lines@.len() == ls.len(),
                ls == text_lines(data_table@),
                forall|k: int| 0 <= k < lines@.len() ==> #[trigger] lines@[k]@ == ls[k],
                value_lines@.len() == i - PREAMBLE_LINES - 1,
                forall|k: int| 0 <= k < value_lines@.len() ==> #[trigger] value_lines@[k]@ == ls[k + PREAMBLE_LINES + 1],
            decreases lines@.len() - i,
        {
            value_lines.push(string_of(lines[i].as_slice()));
            i = i + 1;
        }
        let value_points = match parse_to_water_point_struct(value_lines) {
            Ok(ps) => ps,
            Err(e) => {
                proof {
                    let k = choose|k: int| 0 <= k < value_lines@.len() && !water_row_parses(#[trigger] value_lines@[k]@);
                    assert(!water_row_parses(ls[k + PREAMBLE_LINES + 1]));
                }
                return Err(e);
            },
        };
        let mut j: usize = 0;
        while j < value_points.len()
            invariant
                j <= value_points@.len() == value_lines@.len(),
                ls.len() == value_lines@.len() + PREAMBLE_LINES + 1,
                ls == text_lines(data_table@),
                forall|k: int| 0 <= k < value_lines@.len() ==> #[trigger] value_lines@[k]@ == ls[k + PREAMBLE_LINES + 1],
                forall|k: int| 0 <= k < value_points@.len() ==>
                    #[trigger] wp_model(value_points@[k]) == water_row_model(value_lines@[k]@),
                forall|k: int| 0 <= k < value_points@.len() ==> water_row_parses(#[trigger] value_lines@[k]@),
                forall|k: int| 0 <= k < j ==> (#[trigger] value_points@[k]).values@.len() + 3 == headers@.len(),
                headers@.len() == fields(ls[PREAMBLE_LINES as int], ',').len() >= 1,
            decreases value_points@.len() - j,
        {
            if headers.len() < 3 || value_points[j].values.len() != headers.len() - 3 {
                proof {
                    lemma_water_row_width(value_lines@[j as int]@, value_points@[j as int]);
                    assert(fields(ls[j + PREAMBLE_LINES + 1], ',').len() != fields(ls[PREAMBLE_LINES as int], ',').len());
                }
                return Err(Error::TableParsingError(String::from_str("a row does not have one field for each header")));
            }
            j = j + 1;
        }
        proof {
            assert forall|k: int| PREAMBLE_LINES + 1 <= k < ls.len() implies
                fields(#[trigger] ls[k], ',').len() == fields(ls[PREAMBLE_LINES as int], ',').len() && water_row_parses(ls[k]) by {
                assert(ls[k] == value_lines@[k - PREAMBLE_LINES - 1]@);
                lemma_water_row_width(value_lines@[k - PREAMBLE_LINES - 1]@, value_points@[k - PREAMBLE_LINES - 1]);
            }
        }
        let water_table = WaterTable { headers, value_points };
        assert(water_table.header_names() =~= header_line_names(ls[PREAMBLE_LINES as int]));
        Ok(water_table)
    }

    /// Pressure of the first row.
    pub fn get_minimum_allowable_pressure(&self) -> (r: i64)
        requires
            self.wf(),
        ensures
            r == self.rows()[0].point.0,
    {
        self.value_points[0].point.0
    }

    /// Pressure of the last row.
    pub fn get_maximum_allowable_pressure(&self) -> (r: i64)
        requires
            self.wf(),
        ensures
            r == self.rows().last().point.0,
    {
        let value_length = self.value_points.len();
        self.value_points[value_length - 1].point.0
    }

    /// Temperature of the first row.
    pub fn get_minimum_allowable_temperature(&self) -> (r: i64)
        requires
            self.wf(),
        ensures
            r == self.rows()[0].point.1,
    {
        self.value_points[0].point.1
    }

    /// Temperature of the last row.
    pub fn get_maximum_allowable_temperature(&self) -> (r: i64)
        requires
            self.wf(),
        ensures
            r == self.rows().last().point.1,
    {
        let value_length = self.value_points.len();
        self.value_points[value_length - 1].point.1
    }

    /// Pressures of the first and the last row.
    pub fn valid_range_a(&self) -> (r: (i64, i64))
        requires
            self.wf(),
        ensures
            r.0 == self.rows()[0].point.0 && r.1 == self.rows().last().point.0,
    {
        (self.get_minimum_allowable_pressure(), self.get_maximum_allowable_pressure())
    }

    /// Temperatures of the first and the last row.
    pub fn valid_range_b(&self) -> (r: (i64, i64))
        requires
            self.wf(),
        ensures
            r.0 == self.rows()[0].point.1 && r.1 == self.rows().last().point.1,
    {
        (self.get_minimum_allowable_temperature(), self.get_maximum_allowable_temperature())
    }

    /// The bracket of `target` among the pressures, in table order.
    fn find_pressure_bounds(&self, target: i64) -> (r: (i64, i64))
        requires
            self.wf(),
        ensures
            (r.0 as int, r.1 as int) == bracket(self.pressures(), target as int),
    {
        let n = self.value_points.len();
        let mut i: usize = 0;
        while i < n && self.value_points[i].point.0 <= target
            invariant
                i <= n == self.rows().len() == self.pressures().len(),
                forall|j: int| 0 <= j < i ==> #[trigger] self.pressures()[j] <= target,
            decreases n - i,
        {
            assert(self.pressures()[i as int] == self.rows()[i as int].point.0);
            i = i + 1;
        }
        proof {
            lemma_first_key_above(self.pressures(), target as int, i as int);
        }
        let lower_bound = if i > 0 { self.value_points[i - 1].point.0 } else { self.value_points[0].point.0 };
        let upper_bound = if i < n { self.value_points[i].point.0 } else { self.value_points[n - 1].point.0 };
        (lower_bound, upper_bound)
    }

    /// The bracket of `target` among the temperatures, in table order.
    fn find_temperature_bounds(&self, target: i64) -> (r: (i64, i64))
        requires
            self.wf(),
        ensures
            (r.0 as int, r.1 as int) == bracket(self.temperatures(), target as int),
    {
        let n = self.value_points.len();
        let mut i: usize = 0;
        while i < n && self.value_points[i].point.1 <= target
            invariant
                i <= n == self.rows().len() == self.temperatures().len(),
                forall|j: int| 0 <= j < i ==> #[trigger] self.temperatures()[j] <= target,
            decreases n - i,
        {
            assert(self.temperatures()[i as int] == self.rows()[i as int].point.1);
            i = i + 1;
        }
        proof {
            lemma_first_key_above(self.temperatures(), target as int, i as int);
        }
        let lower_bound = if i > 0 { self.value_points[i - 1].point.1 } else { self.value_points[0].point.1 };
        let upper_bound = if i < n { self.value_points[i].point.1 } else { self.value_points[n - 1].point.1 };
        (lower_bound, upper_bound)
    }

    /// The first row at `(pressure, temperature)`, or a report of the missing
    /// grid point.
    fn get_water_point(&self, pressure: i64, temperature: i64) -> (r: Result<WaterPoint, Error>)
        requires
            self.wf(),
        ensures
            ({
                let i = find_point(self.rows(), pressure as int, temperature as int);
                &&& r is Ok <==> i >= 0
                &&& r matches Err(e) ==> e == Error::MissingGridPoint(pressure, temperature)
                &&& r matches Ok(wp) ==> {
                    &&& wp.point == self.rows()[i].point
                    &&& wp.values@ == self.rows()[i].values@
                    &&& wp.phase@ == self.rows()[i].phase@
                }
            }),
    {
        let n = self.value_points.len();
        let mut i: usize = 0;
        while i < n
            invariant
                i <= n == self.rows().len(),
                forall|j: int| 0 <= j < i ==>
                    !((#[trigger] self.rows()[j]).point.0 == pressure && self.rows()[j].point.1 == temperature),
            decreases n - i,
        {
            if self.value_points[i].point.0 == pressure && self.value_points[i].point.1 == temperature {
                proof {
                    lemma_find_point(self.rows(), pressure as int, temperature as int, i as int);
                }
                return Ok(self.value_points[i].duplicate());
            }
            i = i + 1;
        }
        proof {
            lemma_find_point(self.rows(), pressure as int, temperature as int, n as int);
        }
        Err(Error::MissingGridPoint(pressure, temperature))
    }

    /// Labels the fields of a row with the headers, in order.
    fn convert_water_point_to_labelled_data(&self, waterpoint: WaterPoint) -> (r: Vec<(String, String)>)
        requires
            waterpoint.wf(),
            waterpoint.values@.len() + 3 == self.header_names().len(),
        ensures
            pairs_view(r@) == labelled(self.header_names(), wp_model(waterpoint)),
    {
        let h = self.headers.len();
        assert(h == self.header_names().len());
        let mut labelled_data: Vec<(String, String)> = Vec::new();
        labelled_data.push((self.headers[0].clone(), format_decimal(waterpoint.point.0)));
        labelled_data.push((self.headers[1].clone(), format_decimal(waterpoint.point.1)));
        let n = waterpoint.values.len();
        let mut i: usize = 0;
        while i < n
            invariant
                n == waterpoint.values@.len(),
                n + 3 == self.header_names().len() == self.headers@.len() == h,
                waterpoint.wf(),
                i <= n,
                labelled_data@.len() == i + 2,
                pairs_view(labelled_data@) == labelled(self.header_names(), wp_model(waterpoint)).take(i + 2),
            decreases n - i,
        {
            let ghost before = labelled_data@;
            labelled_data.push((self.headers[i + 2].clone(), format_decimal(waterpoint.values[i])));
            assert(pairs_view(labelled_data@) =~= pairs_view(before).push(
                (self.header_names()[i + 2], decimal_text(waterpoint.values@[i as int] as int))));
            assert(pairs_view(labelled_data@) =~= labelled(self.header_names(), wp_model(waterpoint)).take(i + 3));
            i = i + 1;
        }
        let ghost before = labelled_data@;
        labelled_data.push((self.headers[n + 2].clone(), waterpoint.phase));
        assert(pairs_view(labelled_data@) =~= pairs_view(before).push((self.header_names()[n + 2], wp_model(waterpoint).2)));
        assert(pairs_view(labelled_data@) =~= labelled(self.header_names(), wp_model(waterpoint)));
        labelled_data
    }

    /// The labelled fields at `(pressure, temperature)`: the row that `query`
    /// answers, labelled; or the error that it reports.
    pub fn get_values_at_point(&self, pressure: i64, temperature: i64) -> (r: Result<Vec<(String, String)>, Error>)
        requires
            self.wf(),
        ensures
            r is Ok <==> self.query_result(pressure as int, temperature as int) is Ok,
            r matches Ok(pairs) ==> pairs_view(pairs@)
                == labelled(self.header_names(), self.query_result(pressure as int, temperature as int)->Ok_0),
            r matches Err(e) ==> self.query_result(pressure as int, temperature as int) == Err::<WaterModel, Error>(e),
    {
        let water_point = self.query(pressure, temperature)?;
        proof {
            lemma_query_width(self, pressure as int, temperature as int);
            assert(wp_model(water_point).1.len() == water_point.values@.len());
        }
        Ok(self.convert_water_point_to_labelled_data(water_point))
    }

    /// The row at `(pressure, temperature)`. Fails with the pressure range, or
    /// else the temperature range, when the query lies outside it; and with the
    /// first missing corner when a corner of the cell around the query is not
    /// in the table. The cell is spanned by the brackets of each coordinate;
    /// its corners, pressure first, are looked up in the order
    /// (low, low), (low, high), (high, low), (high, high).
    pub fn query(&self, pressure: i64, temperature: i64) -> (r: Result<WaterPoint, Error>)
        requires
            self.wf(),
        ensures
            r matches Ok(wp) ==> wp.wf() && self.query_result(pressure as int, temperature as int)
                == Ok::<WaterModel, Error>(wp_model(wp)),
            r matches Err(e) ==> self.query_result(pressure as int, temperature as int) == Err::<WaterModel, Error>(e),
    {
        let min_p = self.get_minimum_allowable_pressure();
        let max_p = self.get_maximum_allowable_pressure();
        if pressure < min_p || pressure > max_p {
            return Err(Error::ValueOutOfRange(min_p, max_p));
        }
        let min_t = self.get_minimum_allowable_temperature();
        let max_t = self.get_maximum_allowable_temperature();
        if temperature < min_t || temperature > max_t {
            return Err(Error::ValueOutOfRange(min_t, max_t));
        }
        let pressure_bounds = self.find_pressure_bounds(pressure);
        let temperature_bounds = self.find_temperature_bounds(temperature);
        let water_point_0_0 = self.get_water_point(pressure_bounds.0, temperature_bounds.0)?;
        let water_point_0_1 = self.get_water_point(pressure_bounds.0, temperature_bounds.1)?;
        let water_point_1_0 = self.get_water_point(pressure_bounds.1, temperature_bounds.0)?;
        let water_point_1_1 = self.get_water_point(pressure_bounds.1, temperature_bounds.1)?;
        let ghost i00 = find_point(self.rows(), pressure_bounds.0 as int, temperature_bounds.0 as int);
        let ghost i01 = find_point(self.rows(), pressure_bounds.0 as int, temperature_bounds.1 as int);
        let ghost i10 = find_point(self.rows(), pressure_bounds.1 as int, temperature_bounds.0 as int);
        let ghost i11 = find_point(self.rows(), pressure_bounds.1 as int, temperature_bounds.1 as int);
        proof {
            lemma_find_point_facts(self.rows(), pressure_bounds.0 as int, temperature_bounds.0 as int);
            lemma_find_point_facts(self.rows(), pressure_bounds.0 as int, temperature_bounds.1 as int);
            lemma_find_point_facts(self.rows(), pressure_bounds.1 as int, temperature_bounds.0 as int);
            lemma_find_point_facts(self.rows(), pressure_bounds.1 as int, temperature_bounds.1 as int);
            lemma_first_key_above_facts(self.pressures(), pressure as int);
            lemma_first_key_above_facts(self.temperatures(), temperature as int);
            assert(self.rows()[i00].wf() && self.rows()[i01].wf() && self.rows()[i10].wf() && self.rows()[i11].wf());
            assert(self.rows()[i00].values@.len() + 3 == self.header_names().len());
            assert(self.rows()[i01].values@.len() + 3 == self.header_names().len());
            assert(self.rows()[i10].values@.len() + 3 == self.header_names().len());
            assert(self.rows()[i11].values@.len() + 3 == self.header_names().len());
            assert(self.pressures()[0] == min_p);
            assert(self.pressures().last() == max_p);
            assert(self.temperatures()[0] == min_t);
            assert(self.temperatures().last() == max_t);
        }
        let water_points = (water_point_0_0, water_point_0_1, water_point_1_0, water_point_1_1);
        if phase_change_occurs(&water_points) {
            let r = get_nearest_water_point(pressure, temperature, water_points);
            Ok(r)
        } else {
            let (w00, w01, w10, w11) = water_points;
            let r = interpolate_water_points(pressure, temperature, w00, w01, w10, w11);
            let ghost expected = cell_result(pressure as int, temperature as int,
                self.rows()[i00], self.rows()[i01], self.rows()[i10], self.rows()[i11]);
            assert(wp_model(r).1 =~= expected.1);
            Ok(r)
        }
    }
}

/// A query's answer has one value for each value column.
pub proof fn lemma_query_width(t: &WaterTable, p: int, q: int)
    requires
        t.wf(),
        t.query_result(p, q) is Ok,
    ensures
        t.query_result(p, q)->Ok_0.1.len() + 3 == t.header_names().len(),
{
    let rows = t.rows();
    let (a0, a1) = bracket(t.pressures(), p);
    let (b0, b1) = bracket(t.temperatures(), q);
    lemma_find_point_facts(rows, a0, b0);
    lemma_find_point_facts(rows, a0, b1);
    lemma_find_point_facts(rows, a1, b0);
    lemma_find_point_facts(rows, a1, b1);
    let i00 = find_point(rows, a0, b0);
    let i01 = find_point(rows, a0, b1);
    let i10 = find_point(rows, a1, b0);
    let i11 = find_point(rows, a1, b1);
    assert(rows[i00].values@.len() + 3 == t.header_names().len());
    assert(rows[i01].values@.len() + 3 == t.header_names().len());
    assert(rows[i10].values@.len() + 3 == t.header_names().len());
    assert(rows[i11].values@.len() + 3 == t.header_names().len());
}

pub proof fn lemma_water_row_width(line: Seq<char>, wp: WaterPoint)
    requires
        water_row_parses(line),
        wp_model(wp) == water_row_model(line),
    ensures
        wp.values@.len() + 3 == fields(line, ',').len(),
{
    let f = fields(line, ',');
    assert(wp_model(wp).1.len() == water_row_model(line).1.len());
    assert(f.subrange(2, f.len() - 1).len() == f.len() - 3);
    assert(wp_model(wp).1.len() == wp.values@.len());
}

} // verus!
