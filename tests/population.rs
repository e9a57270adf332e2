use exif_geolocation_util::population::{format_population, parse_population_string, PopulationError};

#[test]
fn zero_parses_and_formats() {
    assert_eq!(parse_population_string("0"), Ok(0));
    assert_eq!(format_population(0), "0");
}

#[test]
fn parses_scientific_notation() {
    assert_eq!(parse_population_string("3.4e+5"), Ok(0x345));
    assert_eq!(parse_population_string("1.0e+15"), Ok(0x10f));
    assert_eq!(parse_population_string("9.9E7"), Ok(0x997));
}

#[test]
fn formats_packed_codes() {
    assert_eq!(format_population(0x345), "3.4e+5");
    assert_eq!(format_population(0x10f), "1.0e+15");
    assert_eq!(format_population(0x090), "0.9e+0");
}

#[test]
fn zero_digits_format_as_zero_whatever_the_exponent() {
    assert_eq!(format_population(0x005), "0");
    assert_eq!(format_population(0x00f), "0");
}

#[test]
fn canonical_texts_round_trip() {
    for w in 0..10u16 {
        for d in 0..10u16 {
            for e in 0..16u16 {
                if w + d == 0 {
                    continue;
                }
                let s = format!("{}.{}e+{}", w, d, e);
                let code = parse_population_string(&s).unwrap();
                assert_eq!(code, (w << 8) | (d << 4) | e);
                assert_eq!(format_population(code), s);
            }
        }
    }
}

#[test]
fn population_errors() {
    assert_eq!(parse_population_string("abc"), Err(PopulationError::Format));
    assert_eq!(parse_population_string(""), Err(PopulationError::Format));
    assert_eq!(parse_population_string("1.2e+"), Err(PopulationError::Format));
    assert_eq!(parse_population_string("12.3e+4"), Err(PopulationError::WholeTooLarge));
    assert_eq!(parse_population_string("1.23e+4"), Err(PopulationError::DecimalTooLarge));
    assert_eq!(parse_population_string("1.2e+16"), Err(PopulationError::SignificandTooLarge));
    assert_eq!(parse_population_string("99999.1e+1"), Err(PopulationError::WholeNotInteger));
    assert_eq!(parse_population_string("1.99999e+1"), Err(PopulationError::DecimalNotInteger));
    assert_eq!(parse_population_string("1.1e+99999"), Err(PopulationError::SignificandNotInteger));
}
