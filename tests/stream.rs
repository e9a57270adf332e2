use exif_geolocation_util::angle::Angle;
use exif_geolocation_util::record::{CityEntry, EncodeError};
use exif_geolocation_util::store::GeoDatabase;
use exif_geolocation_util::stream::{parse_header, read_line, DatabaseReadError};

fn strings(v: &[&str]) -> Vec<String> {
    v.iter().map(|s| s.to_string()).collect()
}

fn empty_tables() -> &'static [u8] {
    b"\x00\x00\x00\x00\x01\n\x00\x00\x00\x00\x02\n\x00\x00\x00\x00\x03\n\x00\x00\x00\x00\x04\n\x00\x00\x00\x00\x05\n\x00\x00\x00\x00\x00\n"
}

#[test]
fn header_versions() {
    assert_eq!(parse_header("Geolocation1.03 3").ok(), Some("1.03".to_string()));
    let mut data = b"Geolocation1.03 3\ncomment\n".to_vec();
    data.extend_from_slice(empty_tables());
    assert!(GeoDatabase::read_from(&data).is_ok());

    let mut data = b"Geolocation2.00 3\ncomment\n".to_vec();
    data.extend_from_slice(empty_tables());
    match GeoDatabase::read_from(&data) {
        Err(DatabaseReadError::UnsupportedVersion { expected, found }) => {
            assert_eq!(expected, "1.03");
            assert_eq!(found, "2.00");
        }
        _ => panic!("expected a version mismatch"),
    }

    let mut data = b"Not a header\ncomment\n".to_vec();
    data.extend_from_slice(empty_tables());
    assert!(matches!(GeoDatabase::read_from(&data), Err(DatabaseReadError::InvalidHeader { .. })));
    assert!(matches!(parse_header("Geolocation"), Err(DatabaseReadError::InvalidHeader { .. })));
}

#[test]
fn empty_store_round_trips() {
    let db = GeoDatabase::new(String::new(), vec![], vec![], vec![], vec![], vec![]);
    let bytes = db.write_to().unwrap();
    let mut expected = b"Geolocation1.03 0\n\n".to_vec();
    expected.extend_from_slice(empty_tables());
    assert_eq!(bytes, expected);
    let back = GeoDatabase::read_from(&bytes).ok().unwrap();
    assert_eq!(back.comment, db.comment);
    assert!(back.cities.is_empty());
    assert!(back.countries.is_empty());
    assert!(back.regions.is_empty());
    assert!(back.subregions.is_empty());
    assert!(back.timezones.is_empty());
    assert!(back.features.is_empty());
}

#[test]
fn store_round_trips() {
    let mut db = GeoDatabase::new(
        "a comment".to_string(),
        strings(&["GBUnited Kingdom", "FRFrance"]),
        strings(&["England"]),
        strings(&["South Gloucestershire"]),
        strings(&["Europe/London"]),
        strings(&["Other", "capital"]),
    );
    db.add_city(CityEntry {
        name: "Bristol".to_string(),
        latitude: Angle { num: 51454, den: 1000 },
        longitude: Angle { num: -2587, den: 1000 },
        population: 0x455,
        country_ix: 0,
        region_ix: 0,
        subregion_ix: 0,
        timezone_ix: 0,
        feature_ix: 1,
    });
    let bytes = db.write_to().unwrap();
    assert!(bytes.starts_with(b"Geolocation1.03 1\na comment\n"));
    let back = GeoDatabase::read_from(&bytes).ok().unwrap();
    assert_eq!(back.comment, "a comment");
    assert_eq!(back.cities.len(), 1);
    assert_eq!(back.cities[0].name, "Bristol");
    assert_eq!(back.cities[0].timezone_ix, 0);
    assert_eq!(back.cities[0].population, 0x455);
    assert_eq!(back.cities[0].feature_ix, 1);
    assert_eq!(back.countries, db.countries);
    assert_eq!(back.regions, db.regions);
    assert_eq!(back.subregions, db.subregions);
    assert_eq!(back.timezones, db.timezones);
    assert_eq!(back.features, db.features);
    assert_eq!(back.write_to().unwrap(), bytes);
}

#[test]
fn unpackable_city_is_reported() {
    let mut db = GeoDatabase::new(String::new(), vec![], vec![], vec![], vec![], vec![]);
    let mut c = CityEntry {
        name: "X".to_string(),
        latitude: Angle::from_degrees(0),
        longitude: Angle::from_degrees(0),
        population: 0,
        country_ix: 0,
        region_ix: 0,
        subregion_ix: 0,
        timezone_ix: 0,
        feature_ix: 0,
    };
    c.feature_ix = 64;
    db.add_city(c);
    assert_eq!(db.write_to(), Err(EncodeError::FeatureOutOfRange));
}

#[test]
fn truncated_and_invalid_input() {
    assert!(matches!(GeoDatabase::read_from(b""), Err(DatabaseReadError::UnexpectedEnd)));
    assert!(matches!(GeoDatabase::read_from(b"Geolocation1.03 0\n\n\x00\x00"), Err(DatabaseReadError::UnexpectedEnd)));
    let mut data = b"Geolocation1.03 0\n\n".to_vec();
    data.extend_from_slice(&empty_tables()[..30]);
    assert!(matches!(GeoDatabase::read_from(&data), Err(DatabaseReadError::UnexpectedEnd)));
    assert!(matches!(GeoDatabase::read_from(b"Geolocation1.03 0\n\xff\n"), Err(DatabaseReadError::InvalidText)));
}

#[test]
fn lines_keep_everything_but_the_newline() {
    let data = b"  abc \r\nnext";
    let (l, p) = read_line(data, 0).ok().unwrap();
    assert_eq!(l, "  abc \r");
    assert_eq!(p, 8);
    let (l, p) = read_line(data, p).ok().unwrap();
    assert_eq!(l, "next");
    assert_eq!(p, 12);
    assert!(matches!(read_line(data, p), Err(DatabaseReadError::UnexpectedEnd)));
}

#[test]
fn names_with_trailing_spaces_survive() {
    let mut db = GeoDatabase::new("note ".to_string(), strings(&["GBUnited Kingdom "]), vec![], vec![], vec![], vec![]);
    db.add_city(CityEntry {
        name: "Spaced \t".to_string(),
        latitude: Angle::from_degrees(0),
        longitude: Angle::from_degrees(0),
        population: 0,
        country_ix: 0,
        region_ix: 0,
        subregion_ix: 0,
        timezone_ix: 400,
        feature_ix: 0,
    });
    let back = GeoDatabase::read_from(&db.write_to().unwrap()).ok().unwrap();
    assert_eq!(back.comment, "note ");
    assert_eq!(back.cities[0].name, "Spaced \t");
    assert_eq!(back.cities[0].timezone_ix, 400);
    assert_eq!(back.countries, db.countries);
}
