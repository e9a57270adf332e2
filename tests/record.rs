use exif_geolocation_util::angle::Angle;
use exif_geolocation_util::record::{parse_city_entry, write_city_entry, CityEntry, EncodeError};

fn city(name: &str, lat: Angle, long: Angle) -> CityEntry {
    CityEntry {
        name: name.to_string(),
        latitude: lat,
        longitude: long,
        population: 0x345,
        country_ix: 200,
        region_ix: 4000,
        subregion_ix: 60000,
        timezone_ix: 300,
        feature_ix: 42,
    }
}

fn degrees(a: Angle) -> f64 {
    a.num as f64 / a.den as f64
}

#[test]
fn packs_the_documented_layout() {
    let c = CityEntry {
        name: "Ab".to_string(),
        latitude: Angle::from_degrees(0),
        longitude: Angle::from_degrees(0),
        population: 0x123,
        country_ix: 0x45,
        region_ix: 0x678,
        subregion_ix: 0x9abc,
        timezone_ix: 0x1de,
        feature_ix: 0x3f,
    };
    let mut out = vec![];
    write_city_entry(&mut out, &c).unwrap();
    assert_eq!(
        out,
        vec![0x80, 0x00, 0x00, 0x80, 0x00, 0x45, 0x12, 0x36, 0x78, 0x9a, 0xbc, 0xde, 0xbf, b'A', b'b', b'\n']
    );
}

#[test]
fn record_round_trip() {
    let c = city("Kingswood", Angle { num: 51457, den: 1000 }, Angle { num: -2508, den: 1000 });
    let mut out = vec![];
    write_city_entry(&mut out, &c).unwrap();
    assert_eq!(out.len(), 13 + "Kingswood".len() + 1);
    let fixed: [u8; 13] = out[0..13].try_into().unwrap();
    let d = parse_city_entry(&fixed, "Kingswood".to_string());
    assert_eq!(d.name, c.name);
    assert_eq!(d.population, c.population);
    assert_eq!(d.country_ix, 200);
    assert_eq!(d.region_ix, 4000);
    assert_eq!(d.subregion_ix, 60000);
    assert_eq!(d.timezone_ix, 300);
    assert_eq!(d.feature_ix, 42);
    let dlat = degrees(c.latitude) - degrees(d.latitude);
    let dlong = degrees(c.longitude) - degrees(d.longitude);
    assert!(dlat >= 0.0 && dlat < 180.0 / 1048576.0);
    assert!(dlong >= 0.0 && dlong < 360.0 / 1048576.0);
}

#[test]
fn extreme_positions_round_trip() {
    let c = city("South", Angle::from_degrees(-90), Angle::from_degrees(-180));
    let mut out = vec![];
    write_city_entry(&mut out, &c).unwrap();
    assert_eq!(&out[0..5], &[0, 0, 0, 0, 0]);
    let fixed: [u8; 13] = out[0..13].try_into().unwrap();
    let d = parse_city_entry(&fixed, "South".to_string());
    assert_eq!(degrees(d.latitude), -90.0);
    assert_eq!(degrees(d.longitude), -180.0);
}

#[test]
fn out_of_range_fields_are_reported() {
    let ok = city("X", Angle::from_degrees(1), Angle::from_degrees(2));
    let cases: Vec<(Box<dyn Fn(&mut CityEntry)>, EncodeError)> = vec![
        (Box::new(|c| c.latitude = Angle::from_degrees(91)), EncodeError::LatitudeOutOfRange),
        (Box::new(|c| c.latitude = Angle { num: 1, den: 0 }), EncodeError::LatitudeOutOfRange),
        (Box::new(|c| c.longitude = Angle::from_degrees(180)), EncodeError::LongitudeOutOfRange),
        (Box::new(|c| c.country_ix = 256), EncodeError::CountryOutOfRange),
        (Box::new(|c| c.population = 4096), EncodeError::PopulationOutOfRange),
        (Box::new(|c| c.region_ix = 4096), EncodeError::RegionOutOfRange),
        (Box::new(|c| c.subregion_ix = 65536), EncodeError::SubregionOutOfRange),
        (Box::new(|c| c.timezone_ix = 512), EncodeError::TimezoneOutOfRange),
        (Box::new(|c| c.feature_ix = 64), EncodeError::FeatureOutOfRange),
    ];
    for (change, err) in cases {
        let mut c = ok.clone();
        change(&mut c);
        let mut out = vec![7u8];
        assert_eq!(write_city_entry(&mut out, &c), Err(err));
        assert_eq!(out, vec![7u8]);
    }
}

#[test]
fn north_pole_packs_to_the_top_code() {
    let c = city("North", Angle::from_degrees(90), Angle { num: 17999, den: 100 });
    let mut out = vec![];
    write_city_entry(&mut out, &c).unwrap();
    assert_eq!(&out[0..3], &[0xff, 0xff, 0xf0 | out[2] & 0x0f]);
    let fixed: [u8; 13] = out[0..13].try_into().unwrap();
    let d = parse_city_entry(&fixed, "North".to_string());
    let dlat = 90.0 - degrees(d.latitude);
    assert!(dlat > 0.0 && dlat <= 180.0 / 1048576.0);
}
