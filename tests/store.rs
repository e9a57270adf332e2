use exif_geolocation_util::angle::Angle;
use exif_geolocation_util::record::CityEntry;
use exif_geolocation_util::store::{AreaSummary, GeoDatabase, Level, QueryError};

fn strings(v: &[&str]) -> Vec<String> {
    v.iter().map(|s| s.to_string()).collect()
}

fn city(name: &str, country: usize, region: usize, subregion: usize, timezone: usize) -> CityEntry {
    CityEntry {
        name: name.to_string(),
        latitude: Angle::from_degrees(51),
        longitude: Angle::from_degrees(-2),
        population: 0,
        country_ix: country,
        region_ix: region,
        subregion_ix: subregion,
        timezone_ix: timezone,
        feature_ix: 0,
    }
}

fn fixture() -> GeoDatabase {
    let mut db = GeoDatabase::new(
        "fixture".to_string(),
        strings(&["GBUnited Kingdom", "USUnited States"]),
        strings(&["England", "Pennsylvania", "Wales"]),
        strings(&["South Gloucestershire", "Bucks County", "Empty County"]),
        strings(&["Europe/London", "America/New_York", "Europe/Paris"]),
        strings(&["Other", "capital", "port"]),
    );
    db.add_city(city("Bristol", 0, 0, 0, 0));
    db.add_city(city("Bristol", 1, 1, 1, 1));
    db.add_city(city("Kingswood", 0, 0, 0, 0));
    db
}

#[test]
fn city_query_chaining() {
    let db = fixture();
    assert_eq!(db.find_matching_cities("Bristol, GB"), Ok(vec![0]));
    assert_eq!(db.find_matching_cities("Bristol"), Ok(vec![0, 1]));
    assert_eq!(db.find_matching_cities("Bristol, United States"), Ok(vec![1]));
    assert_eq!(db.find_matching_cities("Bristol, England, GB"), Ok(vec![0]));
    assert_eq!(db.find_matching_cities("Bristol, South Gloucestershire, England, GB"), Ok(vec![0]));
    assert_eq!(db.find_matching_cities("Bristol, Bucks, England, GB"), Ok(vec![]));
    assert_eq!(db.find_matching_cities("Bristol, FR"), Ok(vec![]));
    assert_eq!(db.find_matching_cities(" Bristol"), Ok(vec![]));
    assert_eq!(db.find_matching_cities(" Bristol , GB "), Ok(vec![0]));
    assert_eq!(db.find_matching_cities("a,b,c,d,e"), Err(QueryError::TooManyParts));
}

#[test]
fn subregion_and_region_queries() {
    let db = fixture();
    assert_eq!(db.find_matching_subregions("South Gloucestershire"), Ok(vec![0]));
    assert_eq!(db.find_matching_subregions("South Gloucestershire, England, GB"), Ok(vec![0]));
    assert_eq!(db.find_matching_subregions("South Gloucestershire, US"), Ok(vec![]));
    assert_eq!(db.find_matching_subregions("Empty County"), Ok(vec![2]));
    assert_eq!(db.find_matching_subregions("Empty County, GB"), Ok(vec![]));
    assert_eq!(db.find_matching_subregions("a,b,c,d"), Err(QueryError::TooManyParts));
    assert_eq!(db.find_matching_regions("England"), Ok(vec![0]));
    assert_eq!(db.find_matching_regions("England, United Kingdom"), Ok(vec![0]));
    assert_eq!(db.find_matching_regions("Pennsylvania, GB"), Ok(vec![]));
    assert_eq!(db.find_matching_regions("Wales, GB"), Ok(vec![]));
    assert_eq!(db.find_matching_regions("a,b,c"), Err(QueryError::TooManyParts));
}

#[test]
fn flat_table_queries() {
    let db = fixture();
    assert_eq!(db.find_matching_countries("United"), vec![0, 1]);
    assert_eq!(db.find_matching_countries("GB"), vec![0]);
    assert_eq!(db.find_matching_countries("XX"), Vec::<usize>::new());
    assert_eq!(db.find_matching_timezones("Europe"), vec![0, 2]);
    assert_eq!(db.find_matching_timezones("London"), Vec::<usize>::new());
    assert_eq!(db.find_matching_features("port"), vec![2]);
    assert_eq!(db.find_matching_features(""), vec![0, 1, 2]);
}

#[test]
fn parent_lookups() {
    let db = fixture();
    assert_eq!(db.subregion_parents(1), Some((1, 1, 1)));
    assert_eq!(db.subregion_parents(2), None);
    assert_eq!(db.region_parent(0), Some(0));
    assert_eq!(db.region_parent(2), None);
}

#[test]
fn names_and_codes() {
    let db = fixture();
    assert_eq!(db.country_name(0), "United Kingdom");
    assert_eq!(db.country_code(1), "US");
    assert_eq!(db.region_name(1), "Pennsylvania");
    assert_eq!(db.subregion_name(0), "South Gloucestershire");
    assert_eq!(db.timezone_name(2), "Europe/Paris");
    assert_eq!(db.feature_name(1), "capital");
}

#[test]
fn add_and_remove_cities() {
    let mut db = fixture();
    assert_eq!(db.remove_city(3), Err(QueryError::IndexOutOfRange));
    assert_eq!(db.cities.len(), 3);
    assert_eq!(db.remove_city(0), Ok(()));
    assert_eq!(db.cities.len(), 2);
    assert_eq!(db.find_matching_cities("Bristol"), Ok(vec![0]));
    db.add_city(city("Bath", 0, 0, 0, 0));
    assert_eq!(db.find_matching_cities("Bath, GB"), Ok(vec![2]));
}

#[test]
fn area_summaries() {
    let mut db = fixture();
    db.add_city(city("Bath", 0, 0, 2, 2));
    assert_eq!(
        db.area_summary(Level::Country, 0),
        AreaSummary { cities: 3, subregions: 2, regions: 1, timezones: 2 }
    );
    assert_eq!(
        db.area_summary(Level::Subregion, 0),
        AreaSummary { cities: 2, subregions: 1, regions: 1, timezones: 1 }
    );
    assert_eq!(
        db.area_summary(Level::Region, 2),
        AreaSummary { cities: 0, subregions: 0, regions: 0, timezones: 0 }
    );
}
