//! Rows of a two-variable table: reading them from text, interpolating over a
//! grid cell, and the nearest-corner choice across a phase boundary.
use vstd::prelude::*;
use crate::error::Error;
use crate::math::{Point3, Point2, linear_interpolate, double_linear_interpolate, lerp, bilerp,
    between, in_bounds, MAX_MAGNITUDE, lemma_lerp_between, lemma_lerp_at_start, lemma_lerp_at_end,
    lemma_bilerp_at_corners};
use crate::number::{field_value, parse_field, decimal_text, format_decimal, lemma_decimal_round_trip};
use crate::text::{fields, split_fields, chars_of, lemma_fields_nonempty, string_of, join_fields, free_of,
    lemma_fields_of_join};

verus! {

/// One tabulated row: the two independent variables (pressure, temperature),
/// the dependent values in column order, and the phase label.
#[derive(Debug)]
pub struct WaterPoint {
    pub point: (i64, i64),
    pub values: Vec<i64>,
    pub phase: String,
}

/// The coordinates, values and phase of a row.
pub type WaterModel = ((int, int), Seq<int>, Seq<char>);

pub open spec fn wp_model(wp: WaterPoint) -> WaterModel {
    ((wp.point.0 as int, wp.point.1 as int), wp.values@.map_values(|v: i64| v as int), wp.phase@)
}

impl WaterPoint {
    /// Every quantity of the row lies in the accepted range.
    pub open spec fn wf(&self) -> bool {
        &&& in_bounds(self.point.0 as int)
        &&& in_bounds(self.point.1 as int)
        &&& forall|i: int| 0 <= i < self.values@.len() ==> in_bounds(#[trigger] self.values@[i] as int)
    }

    /// A copy of the row.
    pub fn duplicate(&self) -> (r: WaterPoint)
        ensures
            r.point == self.point,
            r.values@ == self.values@,
            r.phase@ == self.phase@,
    {
        WaterPoint { point: self.point, values: self.values.clone(), phase: self.phase.clone() }
    }
}

/// A row reads as two coordinates, numeric values, and a last field that is
/// not a number: the phase.
pub open spec fn water_row_parses(line: Seq<char>) -> bool {
    let f = fields(line, ',');
    &&& f.len() >= 3
    &&& forall|i: int| 0 <= i < f.len() - 1 ==> (#[trigger] field_value(f[i])) is Some
    &&& field_value(f.last()) is None
}

/// What the row `line` reads as; the phase is the last field as written.
pub open spec fn water_row_model(line: Seq<char>) -> WaterModel {
    let f = fields(line, ',');
    (
        (field_value(f[0])->0, field_value(f[1])->0),
        f.subrange(2, f.len() - 1).map_values(|c: Seq<char>| field_value(c)->0),
        f.last(),
    )
}

/// Reads one row.
pub fn parse_water_row(line: &[char]) -> (r: Option<WaterPoint>)
    ensures
        r is Some <==> water_row_parses(line@),
        r matches Some(wp) ==> wp_model(wp) == water_row_model(line@) && wp.wf(),
{
    let f = split_fields(line, ',');
    proof {
        lemma_fields_nonempty(line@, ',');
    }
    let ghost fs = fields(line@, ',');
    let n = f.len();
    if n < 3 {
        return None;
    }
    let mut nums: Vec<i64> = Vec::new();
    let mut i: usize = 0;
    while i < n - 1
        invariant
            n == f@.len() == fs.len() >= 3,
            fs == fields(line@, ','),
            forall|k: int| 0 <= k < f@.len() ==> #[trigger] f@[k]@ == fs[k],
            i <= n - 1,
            nums@.len() == i,
            forall|k: int| 0 <= k < i ==> field_value(fs[k]) == Some(#[trigger] nums@[k] as int),
            forall|k: int| 0 <= k < i ==> in_bounds(#[trigger] nums@[k] as int),
        decreases n - 1 - i,
    {
        match parse_field(f[i].as_slice()) {
            Some(v) => {
                nums.push(v);
            },
            None => {
                assert(field_value(fields(line@, ',')[i as int]) is None);
                return None;
            },
        }
        i = i + 1;
    }
    if parse_field(f[n - 1].as_slice()).is_some() {
        assert(field_value(fields(line@, ',').last()) is Some);
        return None;
    }
    assert(water_row_parses(line@)) by {
        assert forall|k: int| 0 <= k < fs.len() - 1 implies (#[trigger] field_value(fs[k])) is Some by {
            assert(field_value(fs[k]) == Some(nums@[k] as int));
        }
    }
    let mut values: Vec<i64> = Vec::new();
    let mut j: usize = 2;
    while j < n - 1
        invariant
            n == nums@.len() + 1,
            2 <= j <= n - 1,
            values@.len() == j - 2,
            forall|k: int| 0 <= k < values@.len() ==> #[trigger] values@[k] == nums@[k + 2],
            water_row_parses(line@),
            fs == fields(line@, ','),
            forall|k: int| 0 <= k < n - 1 ==> field_value(fs[k]) == Some(#[trigger] nums@[k] as int),
            forall|k: int| 0 <= k < n - 1 ==> in_bounds(#[trigger] nums@[k] as int),
            forall|k: int| 0 <= k < f@.len() ==> #[trigger] f@[k]@ == fs[k],
            n == f@.len(),
        decreases n - 1 - j,
    {
        values.push(nums[j]);
        j = j + 1;
    }
    let phase = string_of(f[n - 1].as_slice());
    let wp = WaterPoint { point: (nums[0], nums[1]), values, phase };
    assert(wp_model(wp).1 =~= water_row_model(line@).1);
    Some(wp)
}

/// Reads every row; fails if any row does not read as a two-variable row.
pub fn parse_to_water_point_struct(lines: Vec<String>) -> (r: Result<Vec<WaterPoint>, Error>)
    ensures
        r is Ok <==> forall|i: int| 0 <= i < lines@.len() ==> water_row_parses(#[trigger] lines@[i]@),
        r matches Ok(ps) ==> {
            &&& ps@.len() == lines@.len()
            &&& forall|i: int| 0 <= i < ps@.len() ==> #[trigger] wp_model(ps@[i]) == water_row_model(lines@[i]@)
            &&& forall|i: int| 0 <= i < ps@.len() ==> (#[trigger] ps@[i]).wf()
        },
        r matches Err(e) ==> e is TableParsingError,
{
    let mut ps: Vec<WaterPoint> = Vec::new();
    let mut i: usize = 0;
    while i < lines.len()
        invariant
            i <= lines@.len(),
            ps@.len() == i,
            forall|k: int| 0 <= k < i ==> water_row_parses(#[trigger] lines@[k]@),
            forall|k: int| 0 <= k < i ==> #[trigger] wp_model(ps@[k]) == water_row_model(lines@[k]@),
            forall|k: int| 0 <= k < i ==> (#[trigger] ps@[k]).wf(),
        decreases lines@.len() - i,
    {
        let cs = chars_of(lines[i].as_str());
        match parse_water_row(cs.as_slice()) {
            Some(wp) => {
                ps.push(wp);
            },
            None => {
                return Err(Error::TableParsingError(String::from_str("a row is not two coordinates, values and a phase")));
            },
        }
        i = i + 1;
    }
    Ok(ps)
}

/// Value at `(a, b)` over a cell with corners `c00, c01, c10, c11` (first index
/// the first axis, second the second): a corner's value where the cell is a
/// single point, linear along the axis that the cell spans where it spans one,
/// else bilinear.
pub open spec fn cell_value(
    a: int,
    b: int,
    c00: (int, int, int),
    c01: (int, int, int),
    c10: (int, int, int),
    c11: (int, int, int),
) -> int {
    if c00.0 == c10.0 && c00.1 == c01.1 {
        c00.2
    } else if c00.0 == c10.0 {
        lerp(b, c00.1, c00.2, c01.1, c01.2)
    } else if c00.1 == c01.1 {
        lerp(a, c00.0, c00.2, c10.0, c10.2)
    } else {
        bilerp(a, b, c00, c01, c10, c11)
    }
}

/// Coordinates and `i`-th value of a row.
pub open spec fn corner(wp: WaterPoint, i: int) -> (int, int, int) {
    (wp.point.0 as int, wp.point.1 as int, wp.values@[i] as int)
}

/// The four rows are the corners of a grid cell around `(a, b)`, with one value
/// per column each.
pub open spec fn is_cell_around(
    a: int,
    b: int,
    w00: WaterPoint,
    w01: WaterPoint,
    w10: WaterPoint,
    w11: WaterPoint,
) -> bool {
    &&& w00.wf() && w01.wf() && w10.wf() && w11.wf()
    &&& w00.point.0 == w01.point.0 && w10.point.0 == w11.point.0
    &&& w00.point.1 == w10.point.1 && w01.point.1 == w11.point.1
    &&& between(a, w00.point.0 as int, w10.point.0 as int)
    &&& between(b, w00.point.1 as int, w01.point.1 as int)
    &&& w01.values@.len() == w00.values@.len()
    &&& w10.values@.len() == w00.values@.len()
    &&& w11.values@.len() == w00.values@.len()
}

/// The row at `(pressure, temperature)` within a grid cell: each value
/// interpolated over the cell, the phase of the first corner.
pub fn interpolate_water_points(
    pressure: i64,
    temperature: i64,
    water_point_0_0: WaterPoint,
    water_point_0_1: WaterPoint,
    water_point_1_0: WaterPoint,
    water_point_1_1: WaterPoint,
) -> (r: WaterPoint)
    requires
        in_bounds(pressure as int),
        in_bounds(temperature as int),
        is_cell_around(pressure as int, temperature as int, water_point_0_0, water_point_0_1,
            water_point_1_0, water_point_1_1),
    ensures
        r.wf(),
        r.point == (pressure, temperature),
        r.phase@ == water_point_0_0.phase@,
        r.values@.len() == water_point_0_0.values@.len(),
        forall|i: int| 0 <= i < r.values@.len() ==> #[trigger] r.values@[i] as int == cell_value(
            pressure as int, temperature as int,
            corner(water_point_0_0, i), corner(water_point_0_1, i),
            corner(water_point_1_0, i), corner(water_point_1_1, i)),
{
    let number_of_values = water_point_0_0.values.len();
    let a0 = water_point_0_0.point.0;
    let a1 = water_point_1_0.point.0;
    let b0 = water_point_0_0.point.1;
    let b1 = water_point_0_1.point.1;
    let mut values: Vec<i64> = Vec::new();
    let mut index: usize = 0;
    while index < number_of_values
        invariant
            number_of_values == water_point_0_0.values@.len(),
            in_bounds(pressure as int),
            in_bounds(temperature as int),
            is_cell_around(pressure as int, temperature as int, water_point_0_0, water_point_0_1,
                water_point_1_0, water_point_1_1),
            a0 == water_point_0_0.point.0 && a1 == water_point_1_0.point.0,
            b0 == water_point_0_0.point.1 && b1 == water_point_0_1.point.1,
            index <= number_of_values,
            values@.len() == index,
            forall|i: int| 0 <= i < index ==> #[trigger] values@[i] as int == cell_value(
                pressure as int, temperature as int,
                corner(water_point_0_0, i), corner(water_point_0_1, i),
                corner(water_point_1_0, i), corner(water_point_1_1, i)),
            forall|i: int| 0 <= i < index ==> in_bounds(#[trigger] values@[i] as int),
        decreases number_of_values - index,
    {
        let v00 = water_point_0_0.values[index];
        let v01 = water_point_0_1.values[index];
        let v10 = water_point_1_0.values[index];
        let v11 = water_point_1_1.values[index];
        let v = if a0 == a1 && b0 == b1 {
            v00
        } else if a0 == a1 {
            proof {
                lemma_lerp_between(temperature as int, b0 as int, v00 as int, b1 as int, v01 as int);
            }
            linear_interpolate(temperature, Point2(b0, v00), Point2(b1, v01))
        } else if b0 == b1 {
            proof {
                lemma_lerp_between(pressure as int, a0 as int, v00 as int, a1 as int, v10 as int);
            }
            linear_interpolate(pressure, Point2(a0, v00), Point2(a1, v10))
        } else {
            proof {
                lemma_lerp_between(temperature as int, b0 as int, v00 as int, b1 as int, v01 as int);
                lemma_lerp_between(temperature as int, b0 as int, v10 as int, b1 as int, v11 as int);
                let l0 = lerp(temperature as int, b0 as int, v00 as int, b1 as int, v01 as int);
                let l1 = lerp(temperature as int, b0 as int, v10 as int, b1 as int, v11 as int);
                lemma_lerp_between(pressure as int, a0 as int, l0, a1 as int, l1);
            }
            double_linear_interpolate(
                pressure,
                temperature,
                Point3(a0, b0, v00),
                Point3(a0, b1, v01),
                Point3(a1, b0, v10),
                Point3(a1, b1, v11),
            )
        };
        values.push(v);
        index = index + 1;
    }
    WaterPoint { point: (pressure, temperature), values, phase: water_point_0_0.phase }
}

/// Whether the four rows do not all share one phase.
pub fn phase_change_occurs(water_points: &(WaterPoint, WaterPoint, WaterPoint, WaterPoint)) -> (r: bool)
    ensures
        r == !(water_points.0.phase@ == water_points.1.phase@
            && water_points.0.phase@ == water_points.2.phase@
            && water_points.0.phase@ == water_points.3.phase@),
{
    water_points.0.phase != water_points.1.phase
        || water_points.0.phase != water_points.2.phase
        || water_points.0.phase != water_points.3.phase
}

/// Squared distance from `(a, b)` to the coordinates of a row.
pub open spec fn distance_squared(a: int, b: int, wp: WaterPoint) -> int {
    (wp.point.0 - a) * (wp.point.0 - a) + (wp.point.1 - b) * (wp.point.1 - b)
}

/// Which of four rows lies nearest `(a, b)`: the earliest of those at the
/// least distance.
pub open spec fn nearest_index(
    a: int,
    b: int,
    w0: WaterPoint,
    w1: WaterPoint,
    w2: WaterPoint,
    w3: WaterPoint,
) -> int {
    let d0 = distance_squared(a, b, w0);
    let d1 = distance_squared(a, b, w1);
    let d2 = distance_squared(a, b, w2);
    let d3 = distance_squared(a, b, w3);
    let (i1, m1) = if d1 < d0 { (1int, d1) } else { (0int, d0) };
    let (i2, m2) = if d2 < m1 { (2int, d2) } else { (i1, m1) };
    if d3 < m2 { 3int } else { i2 }
}

fn distance_squared_exec(a: i64, b: i64, wp: &WaterPoint) -> (r: i128)
    requires
        in_bounds(a as int),
        in_bounds(b as int),
        wp.wf(),
    ensures
        r == distance_squared(a as int, b as int, *wp),
{
    let da: i128 = wp.point.0 as i128 - a as i128;
    let db: i128 = wp.point.1 as i128 - b as i128;
    proof {
        let m: int = 2 * MAX_MAGNITUDE;
        assert(da * da <= m * m) by (nonlinear_arith) requires -m <= da <= m;
        assert(db * db <= m * m) by (nonlinear_arith) requires -m <= db <= m;
        assert(0 <= da * da) by (nonlinear_arith);
        assert(0 <= db * db) by (nonlinear_arith);
    }
    da * da + db * db
}

/// The row, of four, nearest `(pressure, temperature)`; of rows at equal
/// distance, the earliest.
pub fn get_nearest_water_point(
    pressure: i64,
    temperature: i64,
    water_points: (WaterPoint, WaterPoint, WaterPoint, WaterPoint),
) -> (r: WaterPoint)
    requires
        in_bounds(pressure as int),
        in_bounds(temperature as int),
        water_points.0.wf(),
        water_points.1.wf(),
        water_points.2.wf(),
        water_points.3.wf(),
    ensures
        ({
            let i = nearest_index(pressure as int, temperature as int,
                water_points.0, water_points.1, water_points.2, water_points.3);
            &&& i == 0 ==> r == water_points.0
            &&& i == 1 ==> r == water_points.1
            &&& i == 2 ==> r == water_points.2
            &&& i == 3 ==> r == water_points.3
        }),
{
    let (w0, w1, w2, w3) = water_points;
    let d0 = distance_squared_exec(pressure, temperature, &w0);
    let d1 = distance_squared_exec(pressure, temperature, &w1);
    let d2 = distance_squared_exec(pressure, temperature, &w2);
    let d3 = distance_squared_exec(pressure, temperature, &w3);
    let mut nearest: usize = 0;
    let mut cur_score = d0;
    if d1 < cur_score {
        nearest = 1;
        cur_score = d1;
    }
    if d2 < cur_score {
        nearest = 2;
        cur_score = d2;
    }
    if d3 < cur_score {
        nearest = 3;
    }
    if nearest == 0 {
        w0
    } else if nearest == 1 {
        w1
    } else if nearest == 2 {
        w2
    } else {
        w3
    }
}

/// The fields of the text of a row: the numerals of its coordinates and of
/// its values, then its phase.
pub open spec fn water_row_parts(wp: WaterPoint) -> Seq<Seq<char>> {
    seq![decimal_text(wp.point.0 as int), decimal_text(wp.point.1 as int)]
        + wp.values@.map_values(|v: i64| decimal_text(v as int)) + seq![wp.phase@]
}

/// The text of a row: its fields joined by commas.
pub open spec fn water_row_text(wp: WaterPoint) -> Seq<char> {
    join_fields(water_row_parts(wp), ',')
}

/// Appends a comma and then `field` to `out`.
fn push_field(out: &mut Vec<char>, field: &str)
    ensures
        final(out)@ == old(out)@ + seq![','] + field@,
{
    let cs = chars_of(field);
    out.push(',');
    let ghost head = out@;
    let mut j: usize = 0;
    while j < cs.len()
        invariant
            j <= cs@.len(),
            out@ == head + cs@.take(j as int),
        decreases cs@.len() - j,
    {
        out.push(cs[j]);
        j = j + 1;
        assert(out@ =~= head + cs@.take(j as int));
    }
    assert(cs@.take(j as int) =~= cs@);
    assert(head == old(out)@ + seq![',']);
}

/// Writes a row as a line of table text.
pub fn format_water_row(wp: &WaterPoint) -> (r: String)
    requires
        wp.wf(),
    ensures
        r@ == water_row_text(*wp),
{
    let ghost parts = water_row_parts(*wp);
    let first = format_decimal(wp.point.0);
    let mut out: Vec<char> = chars_of(first.as_str());
    assert(parts.take(1) =~= seq![parts[0]]);
    let second = format_decimal(wp.point.1);
    push_field(&mut out, second.as_str());
    assert(parts.take(2).drop_last() =~= parts.take(1));
    assert(join_fields(parts.take(1), ',') == parts[0]);
    assert(parts.take(2).last() == parts[1]);
    assert(out@ =~= join_fields(parts.take(2), ','));
    let mut i: usize = 0;
    while i < wp.values.len()
        invariant
            wp.wf(),
            parts == water_row_parts(*wp),
            i <= wp.values@.len(),
            out@ == join_fields(parts.take(i + 2), ','),
        decreases wp.values@.len() - i,
    {
        let cell = format_decimal(wp.values[i]);
        push_field(&mut out, cell.as_str());
        assert(parts.take(i + 3).drop_last() =~= parts.take(i + 2));
        assert(parts[i + 2] == decimal_text(wp.values@[i as int] as int));
        assert(out@ =~= join_fields(parts.take(i + 3), ','));
        i = i + 1;
    }
    push_field(&mut out, wp.phase.as_str());
    assert(parts.take(i + 3).drop_last() =~= parts.take(i + 2));
    assert(parts.take(i + 3) =~= parts);
    assert(out@ =~= join_fields(parts, ','));
    string_of(out.as_slice())
}

/// Reading the text that `format_water_row` writes for a row gives that row
/// back, where its phase holds no comma and does not read as a number.
pub proof fn lemma_water_row_round_trip(wp: WaterPoint)
    requires
        wp.wf(),
        free_of(wp.phase@, ','),
        field_value(wp.phase@) is None,
    ensures
        water_row_parses(water_row_text(wp)),
        water_row_model(water_row_text(wp)) == wp_model(wp),
{
    let parts = water_row_parts(wp);
    let n = parts.len();
    lemma_decimal_round_trip(wp.point.0 as int);
    lemma_decimal_round_trip(wp.point.1 as int);
    assert forall|i: int| 0 <= i < n - 1 implies
        free_of(#[trigger] parts[i], ',') && field_value(parts[i]) is Some by {
        if i >= 2 {
            lemma_decimal_round_trip(wp.values@[i - 2] as int);
        }
    }
    assert(parts[n - 1] == wp.phase@);
    assert forall|i: int| 0 <= i < n implies free_of(#[trigger] parts[i], ',') by {
        if i < n - 1 {
            assert(free_of(parts[i], ',') && field_value(parts[i]) is Some);
        }
    }
    lemma_fields_of_join(parts, ',');
    assert(fields(water_row_text(wp), ',') == parts);
    assert forall|i: int| 0 <= i < n - 1 implies (#[trigger] field_value(parts[i])) is Some by {
        assert(free_of(parts[i], ',') && field_value(parts[i]) is Some);
    }
    assert forall|i: int| 0 <= i < wp.values@.len() implies
        #[trigger] field_value(parts[i + 2]) == Some(wp.values@[i] as int) by {
        lemma_decimal_round_trip(wp.values@[i] as int);
    }
    assert(water_row_model(water_row_text(wp)).1 =~= wp_model(wp).1);
}

/// Over a grid cell, the value at each corner is that corner's value; where
/// the cell collapses along an axis, this holds at its first corner and at
/// the far corner along the other axis.
pub proof fn lemma_cell_value_at_corners(
    c00: (int, int, int),
    c01: (int, int, int),
    c10: (int, int, int),
    c11: (int, int, int),
)
    requires
        c00.0 == c01.0,
        c10.0 == c11.0,
        c00.1 == c10.1,
        c01.1 == c11.1,
    ensures
        cell_value(c00.0, c00.1, c00, c01, c10, c11) == c00.2,
        c00.1 != c01.1 && c00.0 == c10.0 ==> cell_value(c01.0, c01.1, c00, c01, c10, c11) == c01.2,
        c00.0 != c10.0 && c00.1 == c01.1 ==> cell_value(c10.0, c10.1, c00, c01, c10, c11) == c10.2,
        c00.0 != c10.0 && c00.1 != c01.1 ==> {
            &&& cell_value(c01.0, c01.1, c00, c01, c10, c11) == c01.2
            &&& cell_value(c10.0, c10.1, c00, c01, c10, c11) == c10.2
            &&& cell_value(c11.0, c11.1, c00, c01, c10, c11) == c11.2
        },
{
    if c00.1 != c01.1 {
        lemma_lerp_at_start(c00.1, c00.2, c01.1, c01.2);
        lemma_lerp_at_end(c00.1, c00.2, c01.1, c01.2);
    }
    if c00.0 != c10.0 {
        lemma_lerp_at_start(c00.0, c00.2, c10.0, c10.2);
        lemma_lerp_at_end(c00.0, c00.2, c10.0, c10.2);
    }
    if c00.0 != c10.0 && c00.1 != c01.1 {
        lemma_bilerp_at_corners(c00, c01, c10, c11);
    }
}

} // verus!
