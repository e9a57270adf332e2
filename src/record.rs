//! Record codec: one city packed into 13 bytes of bit fields followed by its
//! name and a newline.
use vstd::prelude::*;
use crate::angle::Angle;
use vstd::utf8::encode_utf8;

verus! {

/// One city: its name, position, packed population, and positions of its
/// country, region, subregion, timezone and feature in the store's tables.
#[derive(Debug, Clone)]
pub struct CityEntry {
    pub name: String,
    pub latitude: Angle,
    pub longitude: Angle,
    pub population: u16,
    pub country_ix: usize,
    pub region_ix: usize,
    pub subregion_ix: usize,
    pub timezone_ix: usize,
    pub feature_ix: usize,
}

/// Why a city could not be packed.
#[derive(Debug, Clone, Copy, PartialEq, Eq, Structural)]
pub enum EncodeError {
    /// Latitude outside `[-90, 90]` degrees.
    LatitudeOutOfRange,
    /// Longitude outside `[-180, 180)` degrees.
    LongitudeOutOfRange,
    /// Country index above 255.
    CountryOutOfRange,
    /// Population code above 4095.
    PopulationOutOfRange,
    /// Region index above 4095.
    RegionOutOfRange,
    /// Subregion index above 65535.
    SubregionOutOfRange,
    /// Timezone index above 511.
    TimezoneOutOfRange,
    /// Feature index above 63.
    FeatureOutOfRange,
}

/// `floor((a + half) / (2 * half) * 2^20)` for an angle `a` within `[-half, half]`.
pub open spec fn raw_code(a: Angle, half: int) -> int {
    ((a.num + half * a.den) * 0x100000) / (2 * half * a.den)
}

/// The 20-bit code of an angle `a` within `[-half, half]`: `raw_code`, held at
/// the largest code for `a == half`, which 20 bits cannot hold otherwise.
pub open spec fn coord_code(a: Angle, half: int) -> int {
    if raw_code(a, half) > 0xfffff { 0xfffff } else { raw_code(a, half) }
}

/// The angle that a 20-bit code stands for, within `[-half, half)`.
pub open spec fn code_angle(code: u32, half: int) -> Angle {
    Angle { num: (2 * half * code - half * 0x100000) as i64, den: 0x100000 }
}

/// The error that packing `c` reports, if any, checking the fields in order.
pub open spec fn encode_error(c: CityEntry) -> Option<EncodeError> {
    if !c.latitude.within(90) {
        Some(EncodeError::LatitudeOutOfRange)
    } else if !(c.longitude.wf() && c.longitude.in_range(-180, 180)) {
        Some(EncodeError::LongitudeOutOfRange)
    } else if c.country_ix > 255 {
        Some(EncodeError::CountryOutOfRange)
    } else if c.population > 4095 {
        Some(EncodeError::PopulationOutOfRange)
    } else if c.region_ix > 4095 {
        Some(EncodeError::RegionOutOfRange)
    } else if c.subregion_ix > 65535 {
        Some(EncodeError::SubregionOutOfRange)
    } else if c.timezone_ix > 511 {
        Some(EncodeError::TimezoneOutOfRange)
    } else if c.feature_ix > 63 {
        Some(EncodeError::FeatureOutOfRange)
    } else {
        None
    }
}

/// The 13 fixed bytes of a record, from its field codes.
pub open spec fn fixed_bytes(
    lat: u32, long: u32, country: u32, pop: u32, region: u32, sub: u32, tz: u32, feat: u32,
) -> Seq<u8> {
    seq![
        ((lat >> 12) & 0xff) as u8,
        ((lat >> 4) & 0xff) as u8,
        (((lat & 0x0f) << 4) | (long & 0x0f)) as u8,
        ((long >> 12) & 0xff) as u8,
        ((long >> 4) & 0xff) as u8,
        (country & 0xff) as u8,
        ((pop >> 4) & 0xff) as u8,
        (((pop & 0x0f) << 4) | ((region >> 8) & 0x0f)) as u8,
        (region & 0xff) as u8,
        ((sub >> 8) & 0xff) as u8,
        (sub & 0xff) as u8,
        (tz & 0xff) as u8,
        ((((tz >> 8) & 1) << 7) | (feat & 0x3f)) as u8,
    ]
}

/// The 13 fixed bytes of a city that passes the range checks.
pub open spec fn city_fixed_bytes(c: CityEntry) -> Seq<u8> {
    fixed_bytes(
        coord_code(c.latitude, 90) as u32,
        coord_code(c.longitude, 180) as u32,
        c.country_ix as u32,
        c.population as u32,
        c.region_ix as u32,
        c.subregion_ix as u32,
        c.timezone_ix as u32,
        c.feature_ix as u32,
    )
}

/// The whole record of a city: fixed bytes, the name in UTF-8, a newline.
pub open spec fn record_bytes(c: CityEntry) -> Seq<u8> {
    city_fixed_bytes(c) + encode_utf8(c.name@) + seq![10u8]
}

pub open spec fn lat_field(b: Seq<u8>) -> u32 {
    ((b[0] as u32) << 12) | ((b[1] as u32) << 4) | ((b[2] as u32) >> 4)
}

pub open spec fn long_field(b: Seq<u8>) -> u32 {
    ((b[3] as u32) << 12) | ((b[4] as u32) << 4) | ((b[2] as u32) & 0x0f)
}

pub open spec fn population_field(b: Seq<u8>) -> u16 {
    (((b[6] as u32) << 4) | ((b[7] as u32) >> 4)) as u16
}

pub open spec fn region_field(b: Seq<u8>) -> u32 {
    (((b[7] as u32) & 0x0f) << 8) | (b[8] as u32)
}

pub open spec fn subregion_field(b: Seq<u8>) -> u32 {
    ((b[9] as u32) << 8) | (b[10] as u32)
}

pub open spec fn timezone_field(b: Seq<u8>) -> u32 {
    (b[11] as u32) | (((b[12] as u32) >> 7) << 8)
}

pub open spec fn feature_field(b: Seq<u8>) -> u32 {
    (b[12] as u32) & 0x3f
}

/// `c` is the city of fixed bytes `b` with name `name`.
pub open spec fn decodes_to(b: Seq<u8>, name: Seq<char>, c: CityEntry) -> bool {
    &&& c.name@ == name
    &&& c.latitude == code_angle(lat_field(b), 90)
    &&& c.longitude == code_angle(long_field(b), 180)
    &&& c.population == population_field(b)
    &&& c.country_ix == b[5] as usize
    &&& c.region_ix == region_field(b) as usize
    &&& c.subregion_ix == subregion_field(b) as usize
    &&& c.timezone_ix == timezone_field(b) as usize
    &&& c.feature_ix == feature_field(b) as usize
}

proof fn lemma_code_bounds(num: int, den: int, half: int)
    requires
        den > 0,
        half > 0,
        -half * den <= num <= half * den,
    ensures
        0 <= ((num + half * den) * 0x100000) / (2 * half * den) <= 0x100000,
        ((num + half * den) * 0x100000) / (2 * half * den) == 0x100000 ==> num == half * den,
{
    let n = num + half * den;
    let d = 2 * half * den;
    assert(0 <= n <= d) by (nonlinear_arith)
        requires n == num + half * den, d == 2 * half * den, -half * den <= num <= half * den, den > 0, half > 0;
    assert(d > 0) by (nonlinear_arith) requires d == 2 * half * den, den > 0, half > 0;
    assert(n * 0x100000 <= d * 0x100000) by (nonlinear_arith) requires n <= d;
    vstd::arithmetic::div_mod::lemma_div_pos_is_pos(n * 0x100000, d);
    vstd::arithmetic::div_mod::lemma_div_is_ordered(n * 0x100000, d * 0x100000, d);
    vstd::arithmetic::div_mod::lemma_div_multiples_vanish(0x100000, d);
    if n < d {
        assert(n * 0x100000 <= d * 0x100000 - 1) by (nonlinear_arith) requires n < d;
        vstd::arithmetic::div_mod::lemma_div_is_ordered(n * 0x100000, d * 0x100000 - 1, d);
        assert((d * 0x100000 - 1) / d < 0x100000) by {
            vstd::arithmetic::div_mod::lemma_fundamental_div_mod(d * 0x100000 - 1, d);
            vstd::arithmetic::div_mod::lemma_mod_bound(d * 0x100000 - 1, d);
            let q = (d * 0x100000 - 1) / d;
            if q >= 0x100000 {
                assert(d * q >= d * 0x100000) by (nonlinear_arith) requires q >= 0x100000, d > 0;
            }
        }
        assert((n * 0x100000) / d < 0x100000);
    } else {
        assert(num == half * den) by (nonlinear_arith)
            requires n == num + half * den, d == 2 * half * den, n == d;
    }
}

/// The 20-bit code of an angle within `[-half, half]`.
fn angle_code(a: Angle, half: u64) -> (r: u32)
    requires
        half == 90 || half == 180,
        a.within(half as int),
    ensures
        r as int == coord_code(a, half as int),
        r < 0x100000,
{
    proof { lemma_code_bounds(a.num as int, a.den as int, half as int); }
    let den = a.den as i128;
    assert(0 < den <= 0xffff_ffff_ffff_ffff);
    let h: i128 = half as i128;
    assert(h * den <= 180 * 0xffff_ffff_ffff_ffff) by (nonlinear_arith)
        requires 0 < h <= 180, 0 < den <= 0xffff_ffff_ffff_ffff;
    let hd: i128 = h * den;
    assert(-(half as int) * (a.den as int) == -(hd as int)) by (nonlinear_arith)
        requires hd == h * den, h == half as int, den == a.den as int;
    assert(hd > 0) by (nonlinear_arith) requires hd == h * den, h > 0, den > 0;
    assert(0 <= a.num + hd <= 2 * hd);
    let n: i128 = a.num as i128 + hd;
    let d: i128 = 2 * hd;
    assert(n * 0x100000 <= 0x7fff_ffff_ffff_ffff_ffff_ffff_ffff_ffff) by (nonlinear_arith)
        requires n <= d, d == 2 * hd, hd <= 180 * 0xffff_ffff_ffff_ffff;
    let nu = (n * 0x100000) as u128;
    let du = d as u128;
    assert(du > 0);
    let q = nu / du;
    assert(2 * (half as int) * (a.den as int) == 2 * hd) by (nonlinear_arith)
        requires hd == h * den, h == half as int, den == a.den as int;
    assert(q == raw_code(a, half as int));
    if q > 0xfffff { 0xfffff } else { q as u32 }
}

/// The error that packing `c` would report, checking the fields in order.
pub fn check_city_entry(c: &CityEntry) -> (r: Option<EncodeError>)
    ensures
        r == encode_error(*c),
{
    let lat = c.latitude;
    let long = c.longitude;
    assert(lat.within(90) <==> (lat.den > 0 && -90 * (lat.den as int) <= lat.num as int && lat.num as int <= 90 * (lat.den as int)));
    if !(lat.den > 0 && 0 - 90 * (lat.den as i128) <= lat.num as i128 && (lat.num as i128) <= 90 * (lat.den as i128)) {
        Some(EncodeError::LatitudeOutOfRange)
    } else if !(long.den > 0 && 0 - 180 * (long.den as i128) <= long.num as i128 && (long.num as i128) < 180 * (long.den as i128)) {
        Some(EncodeError::LongitudeOutOfRange)
    } else if c.country_ix > 255 {
        Some(EncodeError::CountryOutOfRange)
    } else if c.population > 4095 {
        Some(EncodeError::PopulationOutOfRange)
    } else if c.region_ix > 4095 {
        Some(EncodeError::RegionOutOfRange)
    } else if c.subregion_ix > 65535 {
        Some(EncodeError::SubregionOutOfRange)
    } else if c.timezone_ix > 511 {
        Some(EncodeError::TimezoneOutOfRange)
    } else if c.feature_ix > 63 {
        Some(EncodeError::FeatureOutOfRange)
    } else {
        None
    }
}

/// Appends the record of `city` to `out`: 13 bytes of packed fields, then the
/// name and a newline. A field out of range is reported and nothing is written.
pub fn write_city_entry(out: &mut Vec<u8>, city: &CityEntry) -> (r: Result<(), EncodeError>)
    ensures
        match encode_error(*city) {
            Some(e) => r == Err::<(), EncodeError>(e) && final(out)@ == old(out)@,
            None => r is Ok && final(out)@ == old(out)@ + record_bytes(*city),
        },
{
    match check_city_entry(city) {
        Some(e) => return Err(e),
        None => {},
    }
    let lat = angle_code(city.latitude, 90);
    let long = angle_code(city.longitude, 180);
    let country = city.country_ix as u32;
    let pop = city.population as u32;
    let region = city.region_ix as u32;
    let sub = city.subregion_ix as u32;
    let tz = city.timezone_ix as u32;
    let feat = city.feature_ix as u32;
    let fixed: [u8; 13] = [
        ((lat >> 12) & 0xff) as u8,
        ((lat >> 4) & 0xff) as u8,
        (((lat & 0x0f) << 4) | (long & 0x0f)) as u8,
        ((long >> 12) & 0xff) as u8,
        ((long >> 4) & 0xff) as u8,
        (country & 0xff) as u8,
        ((pop >> 4) & 0xff) as u8,
        (((pop & 0x0f) << 4) | ((region >> 8) & 0x0f)) as u8,
        (region & 0xff) as u8,
        ((sub >> 8) & 0xff) as u8,
        (sub & 0xff) as u8,
        (tz & 0xff) as u8,
        ((((tz >> 8) & 1) << 7) | (feat & 0x3f)) as u8,
    ];
    let ghost start = out@;
    let mut i: usize = 0;
    while i < 13
        invariant
            i <= 13,
            out@ == start + fixed@.subrange(0, i as int),
        decreases 13 - i,
    {
        out.push(fixed[i]);
        proof { assert(fixed@.subrange(0, i + 1) == fixed@.subrange(0, i as int).push(fixed@[i as int])); }
        i = i + 1;
    }
    let name = city.name.as_str().as_bytes_vec();
    let ghost mid = out@;
    let mut k: usize = 0;
    while k < name.len()
        invariant
            k <= name@.len(),
            out@ == mid + name@.subrange(0, k as int),
        decreases name@.len() - k,
    {
        out.push(name[k]);
        proof { assert(name@.subrange(0, k + 1) == name@.subrange(0, k as int).push(name@[k as int])); }
        k = k + 1;
    }
    out.push(10u8);
    proof {
        assert(fixed@.subrange(0, 13) == fixed@);
        assert(name@.subrange(0, name@.len() as int) == name@);
        assert(fixed@ == city_fixed_bytes(*city));
        assert(out@ == start + record_bytes(*city));
    }
    Ok(())
}

/// Unpacks the 13 fixed bytes of a record into a city named `name`.
pub fn parse_city_entry(data: &[u8; 13], name: String) -> (r: CityEntry)
    ensures
        decodes_to(data@, name@, r),
{
    let b = data;
    let lat: u32 = ((b[0] as u32) << 12) | ((b[1] as u32) << 4) | ((b[2] as u32) >> 4);
    let long: u32 = ((b[3] as u32) << 12) | ((b[4] as u32) << 4) | ((b[2] as u32) & 0x0f);
    let pop: u16 = (((b[6] as u32) << 4) | ((b[7] as u32) >> 4)) as u16;
    let region: u32 = (((b[7] as u32) & 0x0f) << 8) | (b[8] as u32);
    let sub: u32 = ((b[9] as u32) << 8) | (b[10] as u32);
    let tz: u32 = (b[11] as u32) | (((b[12] as u32) >> 7) << 8);
    let feat: u32 = (b[12] as u32) & 0x3f;
    let b0 = b[0]; let b1 = b[1]; let b2 = b[2]; let b3 = b[3]; let b4 = b[4];
    assert(lat < 0x100000) by (bit_vector)
        requires lat == ((b0 as u32) << 12) | ((b1 as u32) << 4) | ((b2 as u32) >> 4);
    assert(long < 0x100000) by (bit_vector)
        requires long == ((b3 as u32) << 12) | ((b4 as u32) << 4) | ((b2 as u32) & 0x0f);
    let latitude = Angle { num: (180 * (lat as i64) - 90 * 0x100000), den: 0x100000 };
    let longitude = Angle { num: (360 * (long as i64) - 180 * 0x100000), den: 0x100000 };
    CityEntry {
        name,
        latitude,
        longitude,
        population: pop,
        country_ix: b[5] as usize,
        region_ix: region as usize,
        subregion_ix: sub as usize,
        timezone_ix: tz as usize,
        feature_ix: feat as usize,
    }
}

proof fn lemma_fields_round_trip(
    lat: u32, long: u32, country: u32, pop: u32, region: u32, sub: u32, tz: u32, feat: u32,
)
    requires
        lat < 0x100000,
        long < 0x100000,
        country < 0x100,
        pop < 0x1000,
        region < 0x1000,
        sub < 0x10000,
        tz < 0x200,
        feat < 0x40,
    ensures
        lat_field(fixed_bytes(lat, long, country, pop, region, sub, tz, feat)) == lat,
        long_field(fixed_bytes(lat, long, country, pop, region, sub, tz, feat)) == long,
        fixed_bytes(lat, long, country, pop, region, sub, tz, feat)[5] as u32 == country,
        population_field(fixed_bytes(lat, long, country, pop, region, sub, tz, feat)) as u32 == pop,
        region_field(fixed_bytes(lat, long, country, pop, region, sub, tz, feat)) == region,
        subregion_field(fixed_bytes(lat, long, country, pop, region, sub, tz, feat)) == sub,
        timezone_field(fixed_bytes(lat, long, country, pop, region, sub, tz, feat)) == tz,
        feature_field(fixed_bytes(lat, long, country, pop, region, sub, tz, feat)) == feat,
{
    let b = fixed_bytes(lat, long, country, pop, region, sub, tz, feat);
    let (b0, b1, b2, b3, b4, b5) = (b[0], b[1], b[2], b[3], b[4], b[5]);
    let (b6, b7, b8, b9, b10, b11, b12) = (b[6], b[7], b[8], b[9], b[10], b[11], b[12]);
    assert(((b0 as u32) << 12) | ((b1 as u32) << 4) | ((b2 as u32) >> 4) == lat) by (bit_vector)
        requires lat < 0x100000, b0 == ((lat >> 12) & 0xff) as u8, b1 == ((lat >> 4) & 0xff) as u8,
            b2 == (((lat & 0x0f) << 4) | (long & 0x0f)) as u8;
    assert(((b3 as u32) << 12) | ((b4 as u32) << 4) | ((b2 as u32) & 0x0f) == long) by (bit_vector)
        requires long < 0x100000, b3 == ((long >> 12) & 0xff) as u8, b4 == ((long >> 4) & 0xff) as u8,
            b2 == (((lat & 0x0f) << 4) | (long & 0x0f)) as u8;
    assert(b5 as u32 == country) by (bit_vector)
        requires country < 0x100, b5 == (country & 0xff) as u8;
    assert((((b6 as u32) << 4) | ((b7 as u32) >> 4)) as u16 as u32 == pop) by (bit_vector)
        requires pop < 0x1000, b6 == ((pop >> 4) & 0xff) as u8,
            b7 == (((pop & 0x0f) << 4) | ((region >> 8) & 0x0f)) as u8;
    assert((((b7 as u32) & 0x0f) << 8) | (b8 as u32) == region) by (bit_vector)
        requires region < 0x1000, b8 == (region & 0xff) as u8,
            b7 == (((pop & 0x0f) << 4) | ((region >> 8) & 0x0f)) as u8;
    assert(((b9 as u32) << 8) | (b10 as u32) == sub) by (bit_vector)
        requires sub < 0x10000, b9 == ((sub >> 8) & 0xff) as u8, b10 == (sub & 0xff) as u8;
    assert((b11 as u32) | (((b12 as u32) >> 7) << 8) == tz) by (bit_vector)
        requires tz < 0x200, feat < 0x40, b11 == (tz & 0xff) as u8,
            b12 == ((((tz >> 8) & 1) << 7) | (feat & 0x3f)) as u8;
    assert((b12 as u32) & 0x3f == feat) by (bit_vector)
        requires tz < 0x200, feat < 0x40, b12 == ((((tz >> 8) & 1) << 7) | (feat & 0x3f)) as u8;
}

proof fn lemma_code_resolution(a: Angle, half: int)
    requires
        half == 90 || half == 180,
        a.within(half),
    ensures
        code_angle(coord_code(a, half) as u32, half).just_below(a, 2 * half),
{
    lemma_code_bounds(a.num as int, a.den as int, half);
    let den = a.den as int;
    let n = a.num + half * den;
    let d = 2 * half * den;
    let raw = raw_code(a, half);
    let c = coord_code(a, half);
    assert(d > 0) by (nonlinear_arith) requires d == 2 * half * den, den > 0, half > 0;
    vstd::arithmetic::div_mod::lemma_fundamental_div_mod(n * 0x100000, d);
    vstd::arithmetic::div_mod::lemma_mod_bound(n * 0x100000, d);
    assert(0 <= n * 0x100000 - d * raw < d);
    if raw > 0xfffff {
        assert(n == d) by (nonlinear_arith)
            requires n == a.num + half * den, d == 2 * half * den, a.num == half * den;
        assert(n * 0x100000 - d * c == d) by (nonlinear_arith) requires n == d, c == 0xfffff;
    }
    assert(0 <= n * 0x100000 - d * c <= d);
    let dec = code_angle(c as u32, half);
    assert((c as u32) as int == c);
    assert(-0x1_0000_0000 < 2 * half * c - half * 0x100000 < 0x1_0000_0000) by (nonlinear_arith)
        requires 0 <= c < 0x100000, 0 < half <= 180;
    assert(dec.num == 2 * half * c - half * 0x100000);
    let x = a.num * 0x100000 - dec.num * den;
    assert(x == n * 0x100000 - d * c) by (nonlinear_arith)
        requires x == a.num * 0x100000 - dec.num * den, dec.num == 2 * half * c - half * 0x100000,
            n == a.num + half * den, d == 2 * half * den;
    assert(x * 0x100000 <= 2 * half * den * 0x100000) by (nonlinear_arith)
        requires x <= d, d == 2 * half * den;
}

/// Packing a city whose fields are in range and unpacking the bytes again
/// gives back its name, population and indices exactly, and a position that
/// lies below the given one by at most one step (180 / 2^20 degrees of
/// latitude, 360 / 2^20 of longitude).
pub proof fn lemma_record_round_trip(c: CityEntry, d: CityEntry)
    requires
        encode_error(c) is None,
        decodes_to(city_fixed_bytes(c), c.name@, d),
    ensures
        d.name@ == c.name@,
        d.population == c.population,
        d.country_ix == c.country_ix,
        d.region_ix == c.region_ix,
        d.subregion_ix == c.subregion_ix,
        d.timezone_ix == c.timezone_ix,
        d.feature_ix == c.feature_ix,
        d.latitude.just_below(c.latitude, 180),
        d.longitude.just_below(c.longitude, 360),
{
    lemma_code_bounds(c.latitude.num as int, c.latitude.den as int, 90);
    lemma_code_bounds(c.longitude.num as int, c.longitude.den as int, 180);
    lemma_fields_round_trip(
        coord_code(c.latitude, 90) as u32,
        coord_code(c.longitude, 180) as u32,
        c.country_ix as u32,
        c.population as u32,
        c.region_ix as u32,
        c.subregion_ix as u32,
        c.timezone_ix as u32,
        c.feature_ix as u32,
    );
    lemma_code_resolution(c.latitude, 90);
    lemma_code_resolution(c.longitude, 180);
}

} // verus!
