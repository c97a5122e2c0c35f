use steam_tables::error::Error;
use steam_tables::math::SCALE;
use steam_tables::saturated_steam::SteamTable;

const PREAMBLE: &str = "Saturated water\nby temperature\nunits line\nsource\nnotes\nblank\n";

fn table(body: &str) -> SteamTable {
    SteamTable::new(format!("{}{}", PREAMBLE, body)).unwrap()
}

fn values(pairs: &[(String, i64)]) -> Vec<i64> {
    pairs.iter().map(|p| p.1).collect()
}

#[test]
fn query_halfway_between_two_rows() {
    let t = table("T, A, B, C\n0.0,0,0,0\n1.0,1,1,1\n");
    let r = t.get_values_at_point(SCALE / 2).unwrap();
    let labels: Vec<&str> = r.iter().map(|p| p.0.as_str()).collect();
    assert_eq!(labels, vec!["T", "A", "B", "C"]);
    assert_eq!(values(&r), vec![SCALE / 2; 4]);
}

#[test]
fn query_at_a_tabulated_point_is_exact() {
    let t = table("T, A, B, C\n0.0,0,0,0\n1.0,1,1,1\n");
    assert_eq!(values(&t.get_values_at_point(0).unwrap()), vec![0, 0, 0, 0]);
    assert_eq!(values(&t.get_values_at_point(SCALE).unwrap()), vec![SCALE; 4]);
    let t = table("T,v\n10,0.0012\n20,0.0017\n30,0.0031\n");
    assert_eq!(values(&t.get_values_at_point(20 * SCALE).unwrap()), vec![20 * SCALE, 1_700_000]);
}

#[test]
fn query_between_rows_uses_the_neighbouring_pair() {
    let t = table("T,v,w\n10,1,100\n20,3,50\n30,11,0\n");
    // Between 20 and 30: v from 3 to 11, w from 50 to 0.
    let r = t.get_values_at_point(25 * SCALE).unwrap();
    assert_eq!(values(&r), vec![25 * SCALE, 7 * SCALE, 25 * SCALE]);
}

#[test]
fn rising_column_rises_across_a_sweep() {
    let t = table("T,v\n10,1\n20,3\n");
    let mut last = i64::MIN;
    for step in 0..=10 {
        let x = 10 * SCALE + step * SCALE;
        let v = t.get_values_at_point(x).unwrap()[1].1;
        assert!(v >= last);
        last = v;
    }
}

#[test]
fn rows_are_sorted_on_load() {
    let t = table("T,v\n30,3\n10,1\n20,2\n");
    assert_eq!(t.smallest_valid_point(), 10 * SCALE);
    assert_eq!(t.largest_valid_point(), 30 * SCALE);
    assert_eq!(values(&t.get_values_at_point(15 * SCALE).unwrap()), vec![15 * SCALE, 3 * SCALE / 2]);
}

#[test]
fn out_of_range_reports_the_bounds() {
    let t = table("T,v\n30,3\n10,1\n20,2\n");
    for x in [10 * SCALE - 1, 30 * SCALE + 1, -SCALE] {
        match t.get_values_at_point(x) {
            Err(Error::ValueOutOfRange(lo, hi)) => {
                assert_eq!(lo, 10 * SCALE);
                assert_eq!(hi, 30 * SCALE);
            }
            other => panic!("expected an out-of-range error, got {:?}", other),
        }
    }
    assert!(t.is_point_valid(10 * SCALE).is_ok());
    assert!(t.is_point_valid(30 * SCALE).is_ok());
}

#[test]
fn construction_fails_on_a_bad_row() {
    let bad = SteamTable::new(format!("{}T,v\n10,1\n20,x\n", PREAMBLE));
    assert!(matches!(bad, Err(Error::TableParsingError(_))));
}

#[test]
fn construction_fails_on_a_wrong_field_count() {
    let bad = SteamTable::new(format!("{}T,v\n10,1\n20,2,3\n", PREAMBLE));
    assert!(matches!(bad, Err(Error::TableParsingError(_))));
}

#[test]
fn construction_fails_without_rows() {
    let bad = SteamTable::new(format!("{}T,v\n", PREAMBLE));
    assert!(matches!(bad, Err(Error::TableParsingError(_))));
    let bad = SteamTable::new("only\nthree\nlines\n".to_string());
    assert!(matches!(bad, Err(Error::TableParsingError(_))));
}

#[test]
fn headers_lose_all_surrounding_whitespace() {
    let t = table("\u{b}T\u{a0}, \u{3000}v\u{c}\n1,2\n3,4\n");
    let r = t.get_values_at_point(SCALE).unwrap();
    assert_eq!(r[0].0, "T");
    assert_eq!(r[1].0, "v");
}

#[test]
fn windows_line_endings_are_accepted() {
    let t = SteamTable::new(PREAMBLE.replace('\n', "\r\n") + "T , v \r\n1,2\r\n3,4\r\n").unwrap();
    let r = t.get_values_at_point(2 * SCALE).unwrap();
    assert_eq!(r[0].0, "T");
    assert_eq!(r[1].0, "v");
    assert_eq!(r[1].1, 3 * SCALE);
}
