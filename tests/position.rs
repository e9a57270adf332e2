use exif_geolocation_util::angle::Angle;
use exif_geolocation_util::position::{dd_position, dm_position, dms_position, parse_pos_string, PositionError};

fn degrees(a: Angle) -> f64 {
    a.num as f64 / a.den as f64
}

fn near(s: &str, lat: f64, long: f64, tol: f64) {
    let (a, b) = parse_pos_string(s).unwrap();
    assert!((degrees(a) - lat).abs() < tol, "{}: latitude {}", s, degrees(a));
    assert!((degrees(b) - long).abs() < tol, "{}: longitude {}", s, degrees(b));
}

#[test]
fn point_nemo_in_every_form() {
    near("48°52'36.0\"S, 123°23'36.0\"W", -48.88, -123.39, 0.01);
    near("48d 52m 36.0s S, 123d 23m 36.0s W", -48.88, -123.39, 0.01);
    near("48.88°S, 123.39°W", -48.88, -123.39, 1e-9);
    near("-48.88, -123.39", -48.88, -123.39, 1e-9);
    near("48deg 52min 36.0sec S, 123deg 23min 36.0sec W", -48.88, -123.39, 0.01);
    near("-48d 52m 36.0s N, -123d 23m 36.0s E", -48.88, -123.39, 0.01);
    near("48° 52.6' S, 123° 23.6' W", -48.88, -123.39, 0.01);
    near("48d 52.6m S, 123d 23.6m W", -48.88, -123.39, 0.01);
    near("-48.88 N, -123.39 E", -48.88, -123.39, 1e-9);
    near("48.88 S, 123.39 W", -48.88, -123.39, 1e-9);
}

#[test]
fn exact_values() {
    let (a, b) = parse_pos_string("-48.88, -123.39").unwrap();
    assert_eq!(a, Angle { num: -4888, den: 100 });
    assert_eq!(b, Angle { num: -12339, den: 100 });
    let (a, b) = parse_pos_string("10°30'0\"N, 20°15'36\"E").unwrap();
    assert_eq!(a.num * 2, a.den as i64 * 21);
    assert_eq!(b.num * 100, b.den as i64 * 2026);
}

#[test]
fn position_errors() {
    assert_eq!(parse_pos_string("-48.88 S, 10 E"), Err(PositionError::NegativeSouthWest));
    assert_eq!(parse_pos_string("91, 0"), Err(PositionError::TooLarge));
    assert_eq!(parse_pos_string("-91, 0"), Err(PositionError::TooSmall));
    assert_eq!(parse_pos_string("0, 181"), Err(PositionError::TooLarge));
    assert_eq!(parse_pos_string("1°61'0\"N, 1°0'0\"E"), Err(PositionError::MinutesOutOfRange));
    assert_eq!(parse_pos_string("1°1'60\"N, 1°0'0\"E"), Err(PositionError::SecondsOutOfRange));
    assert_eq!(parse_pos_string("1°60.5'N, 1°0'E"), Err(PositionError::MinutesOutOfRange));
    assert_eq!(parse_pos_string("hello"), Err(PositionError::Format));
}

#[test]
fn places_beyond_twelve_are_dropped() {
    let (a, b) = parse_pos_string("1.12345678901239, 0").unwrap();
    assert_eq!(a, Angle { num: 1_123_456_789_012, den: 1_000_000_000_000 });
    assert_eq!(b, Angle { num: 0, den: 1 });
}

fn groups(v: &[&str]) -> Vec<Option<String>> {
    v.iter().map(|s| Some(s.to_string())).collect()
}

#[test]
fn positions_from_groups() {
    assert_eq!(
        dd_position(&groups(&["", "48.88", "S", "", "123.39", "W"])),
        Ok((Angle { num: -4888, den: 100 }, Angle { num: -12339, den: 100 }))
    );
    assert_eq!(
        dm_position(&groups(&["", "48", "52.5", "N", "-", "1", "30", "E"])),
        Ok((Angle { num: 29325, den: 600 }, Angle { num: -90, den: 60 }))
    );
    assert_eq!(
        dms_position(&groups(&["", "1", "2", "3", "N", "", "4", "5", "6", "W"])),
        Ok((Angle { num: 3723, den: 3600 }, Angle { num: -14706, den: 3600 }))
    );
    assert_eq!(dd_position(&groups(&["", "4x8", "", "", "1", ""])), Err(PositionError::DegreesNotDecimal));
    assert_eq!(dm_position(&groups(&["", "99999999999", "1", "N", "", "1", "1", "E"])), Err(PositionError::DegreesNotInteger));
    assert_eq!(dm_position(&groups(&["", "1", "1x", "N", "", "1", "1", "E"])), Err(PositionError::MinutesNotDecimal));
    assert_eq!(dms_position(&groups(&["", "1", "99999999999", "1", "N", "", "1", "1", "1", "E"])), Err(PositionError::MinutesNotInteger));
    assert_eq!(dms_position(&groups(&["", "1", "1", "1y", "N", "", "1", "1", "1", "E"])), Err(PositionError::SecondsNotDecimal));
}
