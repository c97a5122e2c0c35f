use steam_tables::datapoint::{
    format_row, interpolate_data_points, parse_row, parse_to_datapoint_struct, DataPoint,
};
use steam_tables::error::Error;
use steam_tables::math::SCALE;

fn chars(s: &str) -> Vec<char> {
    s.chars().collect()
}

#[test]
fn test_interpolate_data_points() {
    let half = SCALE / 2;
    let data_point_0 = DataPoint {
        point: 0,
        values: vec![0, 0, 0, 0, 0],
    };

    let data_point_1 = DataPoint {
        point: SCALE,
        values: vec![SCALE, SCALE, SCALE, SCALE, SCALE],
    };

    let data_point_mid = DataPoint {
        point: half,
        values: vec![half, half, half, half, half],
    };

    let lerp1 = interpolate_data_points(half, data_point_0.clone(), data_point_1.clone());
    assert_eq!(lerp1, data_point_mid);

    let lerp2 = interpolate_data_points(0, data_point_0.clone(), data_point_0.clone());
    assert_eq!(lerp2, data_point_0);
}

#[test]
fn parse_rows_of_numbers() {
    let rows = parse_to_datapoint_struct(vec![
        "100, 0.101418, 0.001043".to_string(),
        "-2.5,+3,.25".to_string(),
    ])
    .unwrap();
    assert_eq!(rows.len(), 2);
    assert_eq!(rows[0].point, 100 * SCALE);
    assert_eq!(rows[0].values, vec![101_418_000, 1_043_000]);
    assert_eq!(rows[1].point, -2 * SCALE - SCALE / 2);
    assert_eq!(rows[1].values, vec![3 * SCALE, SCALE / 4]);
}

#[test]
fn parse_rejects_a_field_that_is_not_a_number() {
    let r = parse_to_datapoint_struct(vec!["1.0,2.0".to_string(), "1.0,abc".to_string()]);
    assert!(matches!(r, Err(Error::TableParsingError(_))));
    assert!(parse_row(&chars("1.0,,2.0")).is_none());
    assert!(parse_row(&chars("1e-10,2.0")).is_none());
    assert!(parse_row(&chars("1e5,2.0")).is_some());
}

#[test]
fn row_text_reads_back_as_the_same_row() {
    let dp = DataPoint {
        point: 373_946_000_000,
        values: vec![22_064_000_000, -1, 0, 999_999_999_999_999_999, -5 * SCALE],
    };
    let text = format_row(&dp);
    assert_eq!(
        text,
        "373.946,22.064,-0.000000001,0,999999999.999999999,-5"
    );
    let back = parse_row(&chars(&text)).unwrap();
    assert_eq!(back.point, dp.point);
    assert_eq!(back.values, dp.values);
}
