use steam_tables::error::Error;
use steam_tables::math::SCALE;
use steam_tables::water::waterpoint::{
    format_water_row, get_nearest_water_point, interpolate_water_points, phase_change_occurs,
    parse_to_water_point_struct, WaterPoint,
};
use steam_tables::water::WaterTable;

const PREAMBLE: &str = "Water\nand steam\nunits\nsource\nnotes\nblank\n";

fn table(body: &str) -> WaterTable {
    WaterTable::new(format!("{}{}", PREAMBLE, body)).unwrap()
}

fn q(whole: i64) -> i64 {
    whole * SCALE
}

fn wp(p: i64, t: i64, v: i64, phase: &str) -> WaterPoint {
    WaterPoint {
        point: (q(p), q(t)),
        values: vec![q(v)],
        phase: phase.to_string(),
    }
}

const GRID: &str = "P,T,h,phase\n5,100,2000,liquid\n5,200,2020,liquid\n15,100,1900,liquid\n15,200,1920,liquid\n";

#[test]
fn bilinear_query_in_a_single_phase_cell() {
    let t = table(GRID);
    let r = t.query(q(10), q(150)).unwrap();
    assert_eq!(r.point, (q(10), q(150)));
    assert_eq!(r.values, vec![q(1960)]);
    assert_eq!(r.phase, "liquid");

    let labelled = t.get_values_at_point(q(10), q(150)).unwrap();
    let expected: Vec<(String, String)> = vec![
        ("P".to_string(), "10".to_string()),
        ("T".to_string(), "150".to_string()),
        ("h".to_string(), "1960".to_string()),
        ("phase".to_string(), "liquid".to_string()),
    ];
    assert_eq!(labelled, expected);
}

#[test]
fn query_on_grid_lines_interpolates_along_one_axis() {
    let t = table(GRID);
    assert_eq!(t.query(q(5), q(150)).unwrap().values, vec![q(2010)]);
    assert_eq!(t.query(q(10), q(200)).unwrap().values, vec![q(1970)]);
    assert_eq!(t.query(q(15), q(100)).unwrap().values, vec![q(1900)]);
}

#[test]
fn phase_boundary_returns_the_nearest_corner() {
    let t = table(
        "P,T,h,phase\n5,100,2000,liquid\n5,200,2020,liquid\n15,100,1900,liquid\n15,200,2800,vapor\n",
    );
    let r = t.query(q(13), q(180)).unwrap();
    assert_eq!(r.point, (q(15), q(200)));
    assert_eq!(r.values, vec![q(2800)]);
    assert_eq!(r.phase, "vapor");
    let r = t.query(q(6), q(110)).unwrap();
    assert_eq!(r.point, (q(5), q(100)));
    assert_eq!(r.values, vec![q(2000)]);
    assert_eq!(r.phase, "liquid");
}

#[test]
fn out_of_range_query_reports_the_axis_bounds() {
    let t = table(GRID);
    match t.query(q(20), q(150)) {
        Err(Error::ValueOutOfRange(lo, hi)) => assert_eq!((lo, hi), (q(5), q(15))),
        other => panic!("unexpected {:?}", other),
    }
    match t.query(q(10), q(50)) {
        Err(Error::ValueOutOfRange(lo, hi)) => assert_eq!((lo, hi), (q(100), q(200))),
        other => panic!("unexpected {:?}", other),
    }
    assert_eq!(t.get_minimum_allowable_pressure(), q(5));
    assert_eq!(t.get_maximum_allowable_pressure(), q(15));
    assert_eq!(t.get_minimum_allowable_temperature(), q(100));
    assert_eq!(t.get_maximum_allowable_temperature(), q(200));
}

#[test]
fn incomplete_grid_reports_the_missing_corner() {
    let t = table("P,T,h,phase\n5,100,2000,liquid\n5,200,2020,liquid\n15,200,1920,liquid\n");
    match t.query(q(10), q(150)) {
        Err(Error::MissingGridPoint(p, temp)) => assert_eq!((p, temp), (q(15), q(100))),
        other => panic!("unexpected {:?}", other),
    }
}

#[test]
fn rows_need_a_phase_last() {
    let r = parse_to_water_point_struct(vec!["1,2,3,liquid".to_string()]).unwrap();
    assert_eq!(r[0].point, (q(1), q(2)));
    assert_eq!(r[0].values, vec![q(3)]);
    assert_eq!(r[0].phase, "liquid");
    let bad = parse_to_water_point_struct(vec!["1,2,3,4".to_string()]);
    assert!(matches!(bad, Err(Error::TableParsingError(_))));
    let bad = parse_to_water_point_struct(vec!["1,x,3,liquid".to_string()]);
    assert!(matches!(bad, Err(Error::TableParsingError(_))));
    let bad = WaterTable::new(format!("{}P,T,h,phase\n1,2,liquid\n", PREAMBLE));
    assert!(matches!(bad, Err(Error::TableParsingError(_))));
}

#[test]
fn phase_change_and_nearest_point() {
    let a = wp(5, 100, 1, "liquid");
    let b = wp(5, 200, 2, "liquid");
    let c = wp(15, 100, 3, "liquid");
    let d = wp(15, 200, 4, "vapor");
    assert!(phase_change_occurs(&(a.duplicate(), b.duplicate(), c.duplicate(), d.duplicate())));
    assert!(!phase_change_occurs(&(a.duplicate(), b.duplicate(), c.duplicate(), a.duplicate())));
    let n = get_nearest_water_point(q(14), q(120), (a.duplicate(), b.duplicate(), c.duplicate(), d.duplicate()));
    assert_eq!(n.values, vec![q(3)]);
    // At equal distance the earlier corner wins.
    let n = get_nearest_water_point(q(10), q(150), (a, b, c, d));
    assert_eq!(n.values, vec![q(1)]);
}

#[test]
fn interpolation_keeps_the_first_corner_phase() {
    let r = interpolate_water_points(
        q(10),
        q(150),
        wp(5, 100, 2000, "liquid"),
        wp(5, 200, 2020, "liquid"),
        wp(15, 100, 1900, "liquid"),
        wp(15, 200, 1920, "liquid"),
    );
    assert_eq!(r.values, vec![q(1960)]);
    assert_eq!(r.phase, "liquid");
}

#[test]
fn water_row_text_reads_back_as_the_same_row() {
    let row = WaterPoint {
        point: (q(1) / 10, q(50)),
        values: vec![1_004_300, -q(2), 209_340_000_000],
        phase: "compressed liquid".to_string(),
    };
    let text = format_water_row(&row);
    assert_eq!(text, "0.1,50,0.0010043,-2,209.34,compressed liquid");
    let back = parse_to_water_point_struct(vec![text]).unwrap();
    assert_eq!(back[0].point, row.point);
    assert_eq!(back[0].values, row.values);
    assert_eq!(back[0].phase, row.phase);
}

#[test]
fn valid_ranges_follow_first_and_last_rows() {
    let t = table(GRID);
    assert_eq!(t.valid_range_a(), (q(5), q(15)));
    assert_eq!(t.valid_range_b(), (q(100), q(200)));
}
