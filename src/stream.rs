//! Stream codec: the whole file. A header line, a comment line, then six
//! sections (cities, countries, regions, subregions, timezones, features),
//! each closed by its own sentinel.
use vstd::prelude::*;
use vstd::utf8::{encode_scalar, decode_utf8, encode_utf8, encode_utf8_decode_utf8, encode_utf8_valid_utf8, is_ascii_chars_encode_utf8, valid_utf8};
use crate::position::{captures, group, groups_view, has_groups, regex_captures};
use crate::record::{city_fixed_bytes, decodes_to, encode_error, parse_city_entry, record_bytes, write_city_entry, CityEntry, EncodeError};
use crate::store::{views, GeoDatabase};
use crate::text::{decimal_chars, decimal_string};

verus! {

/// The file layout version this library reads and writes.
pub open spec fn supported_version() -> Seq<char> {
    "1.03"@
}

fn supported_version_str() -> (r: &'static str)
    ensures
        r@ == supported_version(),
{
    "1.03"
}

/// Why a file could not be read.
#[derive(Debug, Clone)]
pub enum DatabaseReadError {
    /// The header names another layout version.
    UnsupportedVersion { expected: String, found: String },
    /// The header line is not `Geolocation<version> <count>`.
    InvalidHeader { msg: String },
    /// The data ends inside a section.
    UnexpectedEnd,
    /// A line is not valid UTF-8.
    InvalidText,
}

/// What went wrong, in the terms that the contracts use.
pub enum ReadFailure {
    Version(Seq<char>),
    Header,
    End,
    Text,
}

pub open spec fn failure_of(e: DatabaseReadError) -> ReadFailure {
    match e {
        DatabaseReadError::UnsupportedVersion { expected, found } => ReadFailure::Version(found@),
        DatabaseReadError::InvalidHeader { msg } => ReadFailure::Header,
        DatabaseReadError::UnexpectedEnd => ReadFailure::End,
        DatabaseReadError::InvalidText => ReadFailure::Text,
    }
}

/// Relies on `String::from_utf8`: text exactly where the bytes are valid
/// UTF-8, holding the characters they encode.
#[verifier::external_body]
fn utf8_text(b: Vec<u8>) -> (r: Option<String>)
    ensures
        r is Some <==> valid_utf8(b@),
        r matches Some(s) ==> s@ == decode_utf8(b@),
{
    String::from_utf8(b).ok()
}

/// The first newline at or after `p`, or the end of the data.
pub open spec fn line_end(d: Seq<u8>, p: int) -> int
    decreases d.len() - p,
{
    if p < 0 || p >= d.len() || d[p] == 10 {
        p
    } else {
        line_end(d, p + 1)
    }
}

proof fn lemma_line_end(d: Seq<u8>, p: int)
    requires
        0 <= p <= d.len(),
    ensures
        p <= line_end(d, p) <= d.len(),
        line_end(d, p) < d.len() ==> d[line_end(d, p)] == 10,
    decreases d.len() - p,
{
    if p < d.len() && d[p] != 10 {
        lemma_line_end(d, p + 1);
    }
}

/// The line at `p`, without its newline, and where the next begins.
pub open spec fn line_spec(d: Seq<u8>, p: int) -> Result<(Seq<char>, int), ReadFailure> {
    if p < 0 || p >= d.len() {
        Err(ReadFailure::End)
    } else {
        let e = line_end(d, p);
        let b = d.subrange(p, e);
        if !valid_utf8(b) {
            Err(ReadFailure::Text)
        } else {
            Ok((decode_utf8(b), if e < d.len() { e + 1 } else { e }))
        }
    }
}

/// Reads the line that starts at byte `pos`: its text without the newline,
/// and the position after that newline.
pub fn read_line(data: &[u8], pos: usize) -> (r: Result<(String, usize), DatabaseReadError>)
    ensures
        match line_spec(data@, pos as int) {
            Ok((l, q)) => r matches Ok((s, q2)) && s@ == l && q2 == q,
            Err(f) => r matches Err(e) && failure_of(e) == f,
        },
        r matches Err(e) ==> (e is UnexpectedEnd || e is InvalidText),
{
    let n = data.len();
    if pos >= n {
        return Err(DatabaseReadError::UnexpectedEnd);
    }
    let mut e = pos;
    let mut bytes: Vec<u8> = Vec::new();
    while e < n && data[e] != 10
        invariant
            n == data@.len(),
            pos <= e <= n,
            line_end(data@, pos as int) == line_end(data@, e as int),
            bytes@ == data@.subrange(pos as int, e as int),
        decreases n - e,
    {
        bytes.push(data[e]);
        proof { assert(data@.subrange(pos as int, e + 1) == data@.subrange(pos as int, e as int).push(data@[e as int])); }
        e = e + 1;
    }
    let next = if e < n { e + 1 } else { e };
    match utf8_text(bytes) {
        None => Err(DatabaseReadError::InvalidText),
        Some(s) => Ok((s, next)),
    }
}


/// A line made of four NUL characters and the character of code `k`.
pub open spec fn is_sentinel(l: Seq<char>, k: u8) -> bool {
    l.len() == 5 && l[0] == '\0' && l[1] == '\0' && l[2] == '\0' && l[3] == '\0' && l[4] as u32 == k as u32
}

/// Prepends `acc` to what a section read gave.
pub open spec fn prepend<T>(acc: Seq<T>, r: Result<(Seq<T>, int), ReadFailure>) -> Result<(Seq<T>, int), ReadFailure> {
    match r {
        Ok((t, q)) => Ok((acc + t, q)),
        Err(f) => Err(f),
    }
}

/// The lines from `p` up to the sentinel line of code `k`, and where the next
/// section begins.
pub open spec fn table_spec(d: Seq<u8>, p: int, k: u8) -> Result<(Seq<Seq<char>>, int), ReadFailure>
    decreases d.len() - p,
{
    match line_spec(d, p) {
        Err(f) => Err(f),
        Ok((l, q)) => if is_sentinel(l, k) {
            Ok((Seq::empty(), q))
        } else if q <= p || q > d.len() {
            Err(ReadFailure::End)
        } else {
            prepend(seq![l], table_spec(d, q, k))
        },
    }
}

/// The six bytes that close the cities section.
pub open spec fn cities_sentinel() -> Seq<u8> {
    seq![0u8, 0, 0, 0, 1, 10]
}

/// The records from `p` up to the cities sentinel, each as its 13 fixed bytes
/// and its name, and where the next section begins.
pub open spec fn cities_spec(d: Seq<u8>, p: int) -> Result<(Seq<(Seq<u8>, Seq<char>)>, int), ReadFailure>
    decreases d.len() - p,
{
    if p < 0 || p + 6 > d.len() {
        Err(ReadFailure::End)
    } else if d.subrange(p, p + 6) == cities_sentinel() {
        Ok((Seq::empty(), p + 6))
    } else if p + 13 > d.len() {
        Err(ReadFailure::End)
    } else {
        match line_spec(d, p + 13) {
            Err(f) => Err(f),
            Ok((name, q)) => if q <= p || q > d.len() {
                Err(ReadFailure::End)
            } else {
                prepend(seq![(d.subrange(p, p + 13), name)], cities_spec(d, q))
            },
        }
    }
}

proof fn lemma_line_spec_advances(d: Seq<u8>, p: int)
    requires
        line_spec(d, p) is Ok,
    ensures
        line_spec(d, p) matches Ok((l, q)) && p < q <= d.len(),
{
    lemma_line_end(d, p);
}

fn is_sentinel_line(l: &str, k: u8) -> (r: bool)
    ensures
        r == is_sentinel(l@, k),
{
    l.unicode_len() == 5 && l.get_char(0) == '\0' && l.get_char(1) == '\0' && l.get_char(2) == '\0'
        && l.get_char(3) == '\0' && l.get_char(4) as u32 == k as u32
}

/// Reads text lines from byte `pos` up to the sentinel line of code `k`.
fn read_table(data: &[u8], pos: usize, k: u8) -> (r: Result<(Vec<String>, usize), DatabaseReadError>)
    ensures
        match table_spec(data@, pos as int, k) {
            Ok((t, q)) => r matches Ok((v, q2)) && views(v@) == t && q2 == q,
            Err(f) => r matches Err(e) && failure_of(e) == f,
        },
        r matches Err(e) ==> (e is UnexpectedEnd || e is InvalidText),
{
    let mut acc: Vec<String> = Vec::new();
    let mut p = pos;
    proof { assert(views(acc@) + Seq::<Seq<char>>::empty() == views(acc@)); }
    loop
        invariant
            p <= data@.len() || acc@.len() == 0,
            table_spec(data@, pos as int, k) == prepend(views(acc@), table_spec(data@, p as int, k)),
        decreases data@.len() - p,
    {
        let ghost before = table_spec(data@, p as int, k);
        match read_line(data, p) {
            Err(e) => {
                proof { assert(views(acc@) + Seq::<Seq<char>>::empty() == views(acc@)); }
                return Err(e);
            },
            Ok((line, q)) => {
                proof { lemma_line_spec_advances(data@, p as int); }
                if is_sentinel_line(line.as_str(), k) {
                    proof { assert(views(acc@) + Seq::<Seq<char>>::empty() =~= views(acc@)); }
                    return Ok((acc, q));
                }
                let ghost old_acc = views(acc@);
                acc.push(line);
                proof {
                    assert(views(acc@) =~= old_acc + seq![line@]);
                    match table_spec(data@, q as int, k) {
                        Ok((t, r)) => { assert(old_acc + (seq![line@] + t) =~= views(acc@) + t); },
                        Err(f) => {},
                    }
                }
                p = q;
            },
        }
    }
}

/// The views of the fixed bytes and names of decoded cities.
pub open spec fn all_decode(v: Seq<CityEntry>, t: Seq<(Seq<u8>, Seq<char>)>) -> bool {
    v.len() == t.len() && forall|i: int| 0 <= i < v.len() ==> decodes_to(t[i].0, t[i].1, #[trigger] v[i])
}

/// Reads city records from byte `pos` up to the cities sentinel.
fn read_cities(data: &[u8], pos: usize) -> (r: Result<(Vec<CityEntry>, usize), DatabaseReadError>)
    ensures
        match cities_spec(data@, pos as int) {
            Ok((t, q)) => r matches Ok((v, q2)) && all_decode(v@, t) && q2 == q,
            Err(f) => r matches Err(e) && failure_of(e) == f,
        },
        r matches Err(e) ==> (e is UnexpectedEnd || e is InvalidText),
{
    let mut acc: Vec<CityEntry> = Vec::new();
    let ghost tacc: Seq<(Seq<u8>, Seq<char>)> = Seq::empty();
    let mut p = pos;
    let n = data.len();
    proof { assert(tacc + Seq::<(Seq<u8>, Seq<char>)>::empty() == tacc); }
    loop
        invariant
            n == data@.len(),
            all_decode(acc@, tacc),
            cities_spec(data@, pos as int) == prepend(tacc, cities_spec(data@, p as int)),
        decreases data@.len() - p,
    {
        if p > n || n - p < 6 {
            proof { assert(tacc + Seq::<(Seq<u8>, Seq<char>)>::empty() == tacc); }
            return Err(DatabaseReadError::UnexpectedEnd);
        }
        if data[p] == 0 && data[p + 1] == 0 && data[p + 2] == 0 && data[p + 3] == 0 && data[p + 4] == 1 && data[p + 5] == 10 {
            proof {
                assert(data@.subrange(p as int, p + 6) =~= cities_sentinel());
                assert(tacc + Seq::<(Seq<u8>, Seq<char>)>::empty() =~= tacc);
            }
            return Ok((acc, p + 6));
        }
        proof {
            if data@.subrange(p as int, p + 6) == cities_sentinel() {
                assert(data@.subrange(p as int, p + 6)[4] == data@[p + 4]);
                assert(data@.subrange(p as int, p + 6)[0] == data@[p as int]);
                assert(data@.subrange(p as int, p + 6)[1] == data@[p + 1]);
                assert(data@.subrange(p as int, p + 6)[2] == data@[p + 2]);
                assert(data@.subrange(p as int, p + 6)[3] == data@[p + 3]);
                assert(data@.subrange(p as int, p + 6)[5] == data@[p + 5]);
            }
        }
        if n - p < 13 {
            proof { assert(tacc + Seq::<(Seq<u8>, Seq<char>)>::empty() == tacc); }
            return Err(DatabaseReadError::UnexpectedEnd);
        }
        let fixed: [u8; 13] = [
            data[p], data[p + 1], data[p + 2], data[p + 3], data[p + 4], data[p + 5], data[p + 6],
            data[p + 7], data[p + 8], data[p + 9], data[p + 10], data[p + 11], data[p + 12],
        ];
        proof { assert(fixed@ =~= data@.subrange(p as int, p + 13)); }
        match read_line(data, p + 13) {
            Err(e) => {
                proof { assert(tacc + Seq::<(Seq<u8>, Seq<char>)>::empty() == tacc); }
                return Err(e);
            },
            Ok((name, q)) => {
                proof { lemma_line_spec_advances(data@, p + 13); }
                let ghost item = (data@.subrange(p as int, p + 13), name@);
                let city = parse_city_entry(&fixed, name);
                let ghost old_t = tacc;
                acc.push(city);
                proof {
                    tacc = tacc + seq![item];
                    assert forall|i: int| 0 <= i < acc@.len() implies decodes_to(tacc[i].0, tacc[i].1, #[trigger] acc@[i]) by {
                        if i < old_t.len() {
                            assert(tacc[i] == old_t[i]);
                        }
                    }
                    match cities_spec(data@, q as int) {
                        Ok((t, r)) => { assert(old_t + (seq![item] + t) =~= tacc + t); },
                        Err(f) => {},
                    }
                }
                p = q;
            },
        }
    }
}


/// `Geolocation<version> <count>`, found anywhere in the header line.
pub open spec fn header_pattern() -> Seq<char> {
    "Geolocation([\\d]+.[\\d]+)[\\s]+([\\d]+)"@
}

fn header_pattern_str() -> (r: &'static str)
    ensures
        r@ == header_pattern(),
{
    "Geolocation([\\d]+.[\\d]+)[\\s]+([\\d]+)"
}

/// The version that a header line names.
pub open spec fn header_spec(h: Seq<char>) -> Result<Seq<char>, ReadFailure> {
    let c = regex_captures(header_pattern(), h);
    if has_groups(c, 2) {
        Ok(group(c.unwrap(), 0))
    } else {
        Err(ReadFailure::Header)
    }
}

/// The version named by a header line `Geolocation<version> <count>`.
pub fn parse_header(header: &str) -> (r: Result<String, DatabaseReadError>)
    ensures
        match header_spec(header@) {
            Ok(v) => r matches Ok(s) && s@ == v,
            Err(f) => r matches Err(e) && failure_of(e) == f,
        },
        r matches Err(e) ==> e is InvalidHeader,
{
    if let Some(g) = captures(header_pattern_str(), header) {
        if g.len() == 2 {
            proof {
                reveal_strlit("");
                assert(groups_view(g@)[0] == match g@[0] { Some(t) => Some(t@), None => None });
            }
            return match &g[0] {
                Some(v) => Ok(v.clone()),
                None => Ok(String::new()),
            };
        }
    }
    proof { reveal_strlit("Expected \"Geolocation x.xx (n)\" where \"x.xx\" is the database version number and \"n\" is the number of cities in the database"); }
    Err(DatabaseReadError::InvalidHeader {
        msg: String::from_str("Expected \"Geolocation x.xx (n)\" where \"x.xx\" is the database version number and \"n\" is the number of cities in the database"),
    })
}

/// The contents of a file, in the terms that the contracts use.
pub struct DbShape {
    pub comment: Seq<char>,
    pub cities: Seq<(Seq<u8>, Seq<char>)>,
    pub countries: Seq<Seq<char>>,
    pub regions: Seq<Seq<char>>,
    pub subregions: Seq<Seq<char>>,
    pub timezones: Seq<Seq<char>>,
    pub features: Seq<Seq<char>>,
}

/// The five text tables from `p` on.
pub open spec fn tables_spec(d: Seq<u8>, p: int, comment: Seq<char>, cs: Seq<(Seq<u8>, Seq<char>)>) -> Result<DbShape, ReadFailure> {
    match table_spec(d, p, 2) {
        Err(f) => Err(f),
        Ok((countries, p4)) => match table_spec(d, p4, 3) {
            Err(f) => Err(f),
            Ok((regions, p5)) => match table_spec(d, p5, 4) {
                Err(f) => Err(f),
                Ok((subregions, p6)) => match table_spec(d, p6, 5) {
                    Err(f) => Err(f),
                    Ok((timezones, p7)) => match table_spec(d, p7, 0) {
                        Err(f) => Err(f),
                        Ok((features, _p8)) => Ok(DbShape { comment, cities: cs, countries, regions, subregions, timezones, features }),
                    },
                },
            },
        },
    }
}

/// What reading a whole file gives.
pub open spec fn read_spec(d: Seq<u8>) -> Result<DbShape, ReadFailure> {
    match line_spec(d, 0) {
        Err(f) => Err(f),
        Ok((h, p1)) => match line_spec(d, p1) {
            Err(f) => Err(f),
            Ok((comment, p2)) => match header_spec(h) {
                Err(f) => Err(f),
                Ok(v) => if v != supported_version() {
                    Err(ReadFailure::Version(v))
                } else {
                    match cities_spec(d, p2) {
                        Err(f) => Err(f),
                        Ok((cs, p3)) => tables_spec(d, p3, comment, cs),
                    }
                },
            },
        },
    }
}

/// `db` holds what `sh` describes.
pub open spec fn holds_shape(db: GeoDatabase, sh: DbShape) -> bool {
    &&& db.comment@ == sh.comment
    &&& all_decode(db.cities@, sh.cities)
    &&& views(db.countries@) == sh.countries
    &&& views(db.regions@) == sh.regions
    &&& views(db.subregions@) == sh.subregions
    &&& views(db.timezones@) == sh.timezones
    &&& views(db.features@) == sh.features
}

impl GeoDatabase {
    /// Reads a whole file: header, comment, cities, then the five tables.
    pub fn read_from(data: &[u8]) -> (r: Result<GeoDatabase, DatabaseReadError>)
        ensures
            match read_spec(data@) {
                Ok(sh) => r matches Ok(db) && holds_shape(db, sh),
                Err(f) => r matches Err(e) && failure_of(e) == f,
            },
            r matches Err(DatabaseReadError::UnsupportedVersion { expected, found }) ==> expected@ == supported_version(),
    {
        let (header, p1) = read_line(data, 0)?;
        let (comment, p2) = read_line(data, p1)?;
        let version = parse_header(header.as_str())?;
        let supported = supported_version_str();
        if !crate::text::text_eq(version.as_str(), supported) {
            return Err(DatabaseReadError::UnsupportedVersion { expected: String::from_str(supported), found: version });
        }
        let (cities, p3) = read_cities(data, p2)?;
        let (countries, p4) = read_table(data, p3, 2)?;
        let (regions, p5) = read_table(data, p4, 3)?;
        let (subregions, p6) = read_table(data, p5, 4)?;
        let (timezones, p7) = read_table(data, p6, 5)?;
        let (features, _p8) = read_table(data, p7, 0)?;
        Ok(GeoDatabase { comment, cities, countries, regions, subregions, timezones, features })
    }
}


/// Each line in UTF-8 followed by a newline.
pub open spec fn lines_bytes(ls: Seq<Seq<char>>) -> Seq<u8>
    decreases ls.len(),
{
    if ls.len() == 0 {
        Seq::empty()
    } else {
        lines_bytes(ls.drop_last()) + encode_utf8(ls.last()) + seq![10u8]
    }
}

/// The records of the cities, in order.
pub open spec fn cities_bytes(cs: Seq<CityEntry>) -> Seq<u8>
    decreases cs.len(),
{
    if cs.len() == 0 {
        Seq::empty()
    } else {
        cities_bytes(cs.drop_last()) + record_bytes(cs.last())
    }
}

/// The first city from `k` on that cannot be packed.
pub open spec fn first_bad(cs: Seq<CityEntry>, k: int) -> Option<int>
    decreases cs.len() - k,
{
    if k < 0 || k >= cs.len() {
        None
    } else if encode_error(cs[k]) is Some {
        Some(k)
    } else {
        first_bad(cs, k + 1)
    }
}

/// The sentinel line that closes a section: four zero bytes, `k`, a newline.
pub open spec fn sentinel_bytes(k: u8) -> Seq<u8> {
    seq![0u8, 0, 0, 0, k, 10]
}

/// The header line's text for `n` cities.
pub open spec fn header_text(n: nat) -> Seq<char> {
    "Geolocation"@ + supported_version() + seq![' '] + decimal_chars(n)
}

/// The whole file of a store whose cities can all be packed.
pub open spec fn db_bytes(db: GeoDatabase) -> Seq<u8> {
    encode_utf8(header_text(db.cities@.len())) + seq![10u8]
        + encode_utf8(db.comment@) + seq![10u8]
        + cities_bytes(db.cities@) + sentinel_bytes(1)
        + lines_bytes(views(db.countries@)) + sentinel_bytes(2)
        + lines_bytes(views(db.regions@)) + sentinel_bytes(3)
        + lines_bytes(views(db.subregions@)) + sentinel_bytes(4)
        + lines_bytes(views(db.timezones@)) + sentinel_bytes(5)
        + lines_bytes(views(db.features@)) + sentinel_bytes(0)
}

/// Appends `s` in UTF-8 and a newline.
fn push_line(out: &mut Vec<u8>, s: &str)
    ensures
        final(out)@ == old(out)@ + encode_utf8(s@) + seq![10u8],
{
    let mut b = s.as_bytes_vec();
    out.append(&mut b);
    out.push(10u8);
}

/// Appends the sentinel line of code `k`.
fn push_sentinel(out: &mut Vec<u8>, k: u8)
    ensures
        final(out)@ == old(out)@ + sentinel_bytes(k),
{
    out.push(0u8);
    out.push(0u8);
    out.push(0u8);
    out.push(0u8);
    out.push(k);
    out.push(10u8);
    proof { assert(final(out)@ =~= old(out)@ + sentinel_bytes(k)); }
}

/// Appends each line of `ls` and a newline after it.
fn push_lines(out: &mut Vec<u8>, ls: &Vec<String>)
    ensures
        final(out)@ == old(out)@ + lines_bytes(views(ls@)),
{
    let ghost start = out@;
    let mut i: usize = 0;
    proof { assert(views(ls@).subrange(0, 0).len() == 0); assert(start + Seq::<u8>::empty() == start); }
    while i < ls.len()
        invariant
            i <= ls@.len(),
            out@ == start + lines_bytes(views(ls@).subrange(0, i as int)),
        decreases ls@.len() - i,
    {
        push_line(out, ls[i].as_str());
        proof {
            let pre = views(ls@).subrange(0, i + 1);
            assert(pre.drop_last() == views(ls@).subrange(0, i as int));
            assert(pre.last() == ls@[i as int]@);
        }
        i = i + 1;
    }
    proof { assert(views(ls@).subrange(0, ls@.len() as int) == views(ls@)); }
}

impl GeoDatabase {
    /// The whole file of the store: header with the city count, comment,
    /// each section's records or lines, and its sentinel. A city that cannot
    /// be packed is reported instead.
    pub fn write_to(&self) -> (r: Result<Vec<u8>, EncodeError>)
        ensures
            match first_bad(self.cities@, 0) {
                Some(k) => encode_error(self.cities@[k]) matches Some(e) && r == Err::<Vec<u8>, EncodeError>(e),
                None => r matches Ok(b) && b@ == db_bytes(*self),
            },
    {
        let mut out: Vec<u8> = Vec::new();
        let mut header = String::from_str("Geolocation");
        header.append(supported_version_str());
        header.append(" ");
        let count = decimal_string(self.cities.len() as u64);
        header.append(count.as_str());
        proof {
            reveal_strlit("Geolocation");
            reveal_strlit(" ");
            assert(header@ == header_text(self.cities@.len()));
        }
        push_line(&mut out, header.as_str());
        push_line(&mut out, self.comment.as_str());
        let ghost start = out@;
        let mut i: usize = 0;
        proof { assert(self.cities@.subrange(0, 0).len() == 0); assert(start + Seq::<u8>::empty() == start); }
        while i < self.cities.len()
            invariant
                i <= self.cities@.len(),
                out@ == start + cities_bytes(self.cities@.subrange(0, i as int)),
                first_bad(self.cities@, 0) == first_bad(self.cities@, i as int),
            decreases self.cities@.len() - i,
        {
            match write_city_entry(&mut out, &self.cities[i]) {
                Err(e) => return Err(e),
                Ok(()) => {},
            }
            proof {
                let pre = self.cities@.subrange(0, i + 1);
                assert(pre.drop_last() == self.cities@.subrange(0, i as int));
                assert(pre.last() == self.cities@[i as int]);
            }
            i = i + 1;
        }
        proof { assert(self.cities@.subrange(0, self.cities@.len() as int) == self.cities@); }
        push_sentinel(&mut out, 1);
        push_lines(&mut out, &self.countries);
        push_sentinel(&mut out, 2);
        push_lines(&mut out, &self.regions);
        push_sentinel(&mut out, 3);
        push_lines(&mut out, &self.subregions);
        push_sentinel(&mut out, 4);
        push_lines(&mut out, &self.timezones);
        push_sentinel(&mut out, 5);
        push_lines(&mut out, &self.features);
        push_sentinel(&mut out, 0);
        Ok(out)
    }
}


/// The last character of the sentinel line of code `k`.
pub open spec fn sentinel_char(k: u8) -> char {
    if k == 1 { '\u{1}' } else if k == 2 { '\u{2}' } else if k == 3 { '\u{3}' } else if k == 4 { '\u{4}' }
    else if k == 5 { '\u{5}' } else { '\0' }
}

proof fn lemma_sentinel_line(d: Seq<u8>, q: int, k: u8)
    requires
        0 <= q,
        q + 6 <= d.len(),
        d.subrange(q, q + 6) == sentinel_bytes(k),
        k <= 5,
    ensures
        line_spec(d, q) == Ok::<(Seq<char>, int), ReadFailure>((seq!['\0', '\0', '\0', '\0', sentinel_char(k)], q + 6)),
{
    let c = sentinel_char(k);
    let chars = seq!['\0', '\0', '\0', '\0', c];
    assert(d[q] == 0 && d[q + 1] == 0 && d[q + 2] == 0 && d[q + 3] == 0 && d[q + 4] == k && d[q + 5] == 10) by {
        assert(d.subrange(q, q + 6)[0] == d[q]);
        assert(d.subrange(q, q + 6)[1] == d[q + 1]);
        assert(d.subrange(q, q + 6)[2] == d[q + 2]);
        assert(d.subrange(q, q + 6)[3] == d[q + 3]);
        assert(d.subrange(q, q + 6)[4] == d[q + 4]);
        assert(d.subrange(q, q + 6)[5] == d[q + 5]);
    }
    reveal_with_fuel(line_end, 7);
    assert(line_end(d, q) == q + 5);
    assert(vstd::utf8::is_ascii_chars(chars));
    is_ascii_chars_encode_utf8(chars);
    assert(c as u8 == k);
    assert(encode_utf8(chars) =~= d.subrange(q, q + 5));
    encode_utf8_valid_utf8(chars);
    encode_utf8_decode_utf8(chars);
}

proof fn lemma_empty_table(d: Seq<u8>, q: int, k: u8)
    requires
        0 <= q,
        q + 6 <= d.len(),
        d.subrange(q, q + 6) == sentinel_bytes(k),
        k <= 5,
        k != 1,
    ensures
        table_spec(d, q, k) == Ok::<(Seq<Seq<char>>, int), ReadFailure>((Seq::empty(), q + 6)),
{
    lemma_sentinel_line(d, q, k);
    assert(is_sentinel(seq!['\0', '\0', '\0', '\0', sentinel_char(k)], k));
}

/// Reading back the sections that a store without cities and with empty
/// tables is written as gives an empty cities section and five empty tables
/// (the header and comment lines before them are not covered here).
pub proof fn lemma_empty_sections_round_trip(db: GeoDatabase)
    requires
        db.cities@.len() == 0,
        db.countries@.len() == 0,
        db.regions@.len() == 0,
        db.subregions@.len() == 0,
        db.timezones@.len() == 0,
        db.features@.len() == 0,
    ensures
        ({
            let d = db_bytes(db);
            let p = d.len() - 36;
            &&& p >= 0
            &&& cities_spec(d, p) == Ok::<(Seq<(Seq<u8>, Seq<char>)>, int), ReadFailure>((Seq::empty(), p + 6))
            &&& tables_spec(d, p + 6, db.comment@, Seq::empty()) == Ok::<DbShape, ReadFailure>(DbShape {
                comment: db.comment@,
                cities: Seq::empty(),
                countries: Seq::empty(),
                regions: Seq::empty(),
                subregions: Seq::empty(),
                timezones: Seq::empty(),
                features: Seq::empty(),
            })
        }),
{
    let d = db_bytes(db);
    let head = encode_utf8(header_text(0)) + seq![10u8] + encode_utf8(db.comment@) + seq![10u8];
    assert(views(db.countries@) =~= Seq::<Seq<char>>::empty());
    assert(views(db.regions@) =~= Seq::<Seq<char>>::empty());
    assert(views(db.subregions@) =~= Seq::<Seq<char>>::empty());
    assert(views(db.timezones@) =~= Seq::<Seq<char>>::empty());
    assert(views(db.features@) =~= Seq::<Seq<char>>::empty());
    assert(cities_bytes(db.cities@) == Seq::<u8>::empty());
    let tail = sentinel_bytes(1) + sentinel_bytes(2) + sentinel_bytes(3) + sentinel_bytes(4)
        + sentinel_bytes(5) + sentinel_bytes(0);
    assert(d =~= head + tail);
    let p = head.len() as int;
    assert(d.len() - 36 == p);
    assert(d.subrange(p, p + 6) =~= sentinel_bytes(1));
    assert(d.subrange(p, p + 6) =~= cities_sentinel());
    assert(d.subrange(p + 6, p + 12) =~= sentinel_bytes(2));
    assert(d.subrange(p + 12, p + 18) =~= sentinel_bytes(3));
    assert(d.subrange(p + 18, p + 24) =~= sentinel_bytes(4));
    assert(d.subrange(p + 24, p + 30) =~= sentinel_bytes(5));
    assert(d.subrange(p + 30, p + 36) =~= sentinel_bytes(0));
    lemma_empty_table(d, p + 6, 2);
    lemma_empty_table(d, p + 12, 3);
    lemma_empty_table(d, p + 18, 4);
    lemma_empty_table(d, p + 24, 5);
    lemma_empty_table(d, p + 30, 0);
}


proof fn lemma_scalar_no_newline(v: u32)
    requires
        v != 10,
    ensures
        forall|i: int| 0 <= i < encode_scalar(v).len() ==> encode_scalar(v)[i] != 10u8,
{
    let b1 = (v & 0x7F) as u8;
    assert(v <= 0x7f ==> b1 != 10u8) by (bit_vector) requires v != 10, b1 == (v & 0x7F) as u8;
    let x = ((v >> 6) & 0x1F) as u8;
    let y = ((v >> 12) & 0x0F) as u8;
    let z = ((v >> 18) & 0x7) as u8;
    let u = (v & 0x3F) as u8;
    let w = ((v >> 6) & 0x3F) as u8;
    let t = ((v >> 12) & 0x3F) as u8;
    assert(0xC0u8 | x != 10u8 && 0xE0u8 | y != 10u8 && 0xF0u8 | z != 10u8 && 0x80u8 | u != 10u8
        && 0x80u8 | w != 10u8 && 0x80u8 | t != 10u8) by (bit_vector);
}

proof fn lemma_encode_no_newline(chars: Seq<char>)
    requires
        !chars.contains('\n'),
    ensures
        forall|i: int| 0 <= i < encode_utf8(chars).len() ==> encode_utf8(chars)[i] != 10u8,
    decreases chars.len(),
{
    if chars.len() > 0 {
        let rest = chars.drop_first();
        assert(!rest.contains('\n')) by {
            if rest.contains('\n') {
                let k = choose|k: int| 0 <= k < rest.len() && rest[k] == '\n';
                assert(chars[k + 1] == '\n');
            }
        }
        lemma_encode_no_newline(rest);
        assert(chars[0] != '\n') by { if chars[0] == '\n' { assert(chars.contains('\n')); } }
        vstd::utf8::char_u32_cast(chars[0], chars[0] as u32);
        assert(chars[0] as u32 != 10) by {
            if chars[0] as u32 == 10 {
                assert((10u32 as char) == '\n');
            }
        }
        lemma_scalar_no_newline(chars[0] as u32);
        let h = encode_scalar(chars[0] as u32);
        assert(encode_utf8(chars) == h + encode_utf8(rest));
        assert forall|i: int| 0 <= i < encode_utf8(chars).len() implies encode_utf8(chars)[i] != 10u8 by {
            if i < h.len() {
                assert(encode_utf8(chars)[i] == h[i]);
            } else {
                assert(encode_utf8(chars)[i] == encode_utf8(rest)[i - h.len()]);
            }
        }
    }
}

proof fn lemma_line_end_at(d: Seq<u8>, p: int, e: int)
    requires
        0 <= p <= e < d.len(),
        d[e] == 10,
        forall|k: int| p <= k < e ==> d[k] != 10u8,
    ensures
        line_end(d, p) == e,
    decreases e - p,
{
    if p < e {
        lemma_line_end_at(d, p + 1, e);
    }
}

/// A city record that passes the range checks, whose name holds no newline
/// and whose first six bytes differ from the cities sentinel, reads back,
/// followed by the sentinel, as one record: its 13 fixed bytes and its name
/// unchanged (what the fixed bytes decode to is stated by
/// `lemma_record_round_trip`).
pub proof fn lemma_record_read_back(c: CityEntry)
    requires
        encode_error(c) is None,
        !c.name@.contains('\n'),
        city_fixed_bytes(c).subrange(0, 6) != cities_sentinel(),
    ensures
        cities_spec(record_bytes(c) + cities_sentinel(), 0)
            == Ok::<(Seq<(Seq<u8>, Seq<char>)>, int), ReadFailure>((seq![(city_fixed_bytes(c), c.name@)], record_bytes(c).len() as int + 6)),
{
    let fixed = city_fixed_bytes(c);
    let enc = encode_utf8(c.name@);
    let rb = record_bytes(c);
    let d = rb + cities_sentinel();
    let e: int = 13 + enc.len() as int;
    let m: int = rb.len() as int;
    assert(fixed.len() == 13);
    assert(d.subrange(0, 6) =~= fixed.subrange(0, 6));
    assert(d.subrange(0, 13) =~= fixed);
    lemma_encode_no_newline(c.name@);
    assert(d[e] == 10u8);
    assert forall|k: int| 13 <= k < e implies d[k] != 10u8 by {
        assert(d[k] == enc[k - 13]);
    }
    lemma_line_end_at(d, 13, e);
    assert(d.subrange(13, e) =~= enc);
    encode_utf8_valid_utf8(c.name@);
    encode_utf8_decode_utf8(c.name@);
    assert(line_spec(d, 13) == Ok::<(Seq<char>, int), ReadFailure>((c.name@, e + 1)));
    assert(e + 1 == m);
    assert(d.subrange(m, m + 6) =~= cities_sentinel());
    assert(cities_spec(d, m) == Ok::<(Seq<(Seq<u8>, Seq<char>)>, int), ReadFailure>((Seq::empty(), m + 6)));
    assert(seq![(fixed, c.name@)] + Seq::<(Seq<u8>, Seq<char>)>::empty() =~= seq![(fixed, c.name@)]);
}


proof fn lemma_line_read_back(d: Seq<u8>, p: int, chars: Seq<char>)
    requires
        0 <= p,
        p + encode_utf8(chars).len() < d.len(),
        d.subrange(p, p + encode_utf8(chars).len()) == encode_utf8(chars),
        d[p + encode_utf8(chars).len()] == 10u8,
        !chars.contains('\n'),
    ensures
        line_spec(d, p) == Ok::<(Seq<char>, int), ReadFailure>((chars, p + encode_utf8(chars).len() + 1)),
{
    let enc = encode_utf8(chars);
    let e: int = p + enc.len() as int;
    lemma_encode_no_newline(chars);
    assert forall|k: int| p <= k < e implies d[k] != 10u8 by {
        assert(d.subrange(p, e)[k - p] == d[k]);
    }
    lemma_line_end_at(d, p, e);
    encode_utf8_valid_utf8(chars);
    encode_utf8_decode_utf8(chars);
}

/// Writing a store without cities and with empty tables, whose comment holds
/// no newline, and reading the bytes back gives the same comment and empty
/// cities and tables, provided the header line that the store writes is
/// recognised as naming the supported version (which rests on the regular
/// expression match of the header).
pub proof fn lemma_empty_store_round_trip(db: GeoDatabase)
    requires
        db.cities@.len() == 0,
        db.countries@.len() == 0,
        db.regions@.len() == 0,
        db.subregions@.len() == 0,
        db.timezones@.len() == 0,
        db.features@.len() == 0,
        !db.comment@.contains('\n'),
    ensures
        header_spec(header_text(0)) == Ok::<Seq<char>, ReadFailure>(supported_version()) ==> read_spec(db_bytes(db))
            == Ok::<DbShape, ReadFailure>(DbShape {
                comment: db.comment@,
                cities: Seq::empty(),
                countries: Seq::empty(),
                regions: Seq::empty(),
                subregions: Seq::empty(),
                timezones: Seq::empty(),
                features: Seq::empty(),
            }),
{
    lemma_empty_sections_round_trip(db);
    let d = db_bytes(db);
    let h = header_text(0);
    lemma_header_text_one_line(h);
    let hb = encode_utf8(h);
    let cb = encode_utf8(db.comment@);
    let head = hb + seq![10u8] + cb + seq![10u8];
    assert(views(db.countries@) =~= Seq::<Seq<char>>::empty());
    assert(views(db.regions@) =~= Seq::<Seq<char>>::empty());
    assert(views(db.subregions@) =~= Seq::<Seq<char>>::empty());
    assert(views(db.timezones@) =~= Seq::<Seq<char>>::empty());
    assert(views(db.features@) =~= Seq::<Seq<char>>::empty());
    assert(cities_bytes(db.cities@) == Seq::<u8>::empty());
    let tail = sentinel_bytes(1) + sentinel_bytes(2) + sentinel_bytes(3) + sentinel_bytes(4)
        + sentinel_bytes(5) + sentinel_bytes(0);
    assert(d =~= head + tail);
    let h1: int = hb.len() as int + 1;
    assert(d.subrange(0, hb.len() as int) =~= hb);
    assert(d[hb.len() as int] == 10u8);
    lemma_line_read_back(d, 0, h);
    assert(d.subrange(h1, h1 + cb.len()) =~= cb);
    assert(d[h1 + cb.len()] == 10u8);
    lemma_line_read_back(d, h1, db.comment@);
    assert(h1 + cb.len() + 1 == d.len() - 36);
    let p2 = d.len() - 36;
    if header_spec(h) == Ok::<Seq<char>, ReadFailure>(supported_version()) {
        lemma_read_spec_from_parts(d, h, db.comment@, h1, p2);
    }
}

proof fn lemma_read_spec_from_parts(d: Seq<u8>, h: Seq<char>, comment: Seq<char>, p1: int, p2: int)
    requires
        line_spec(d, 0) == Ok::<(Seq<char>, int), ReadFailure>((h, p1)),
        line_spec(d, p1) == Ok::<(Seq<char>, int), ReadFailure>((comment, p2)),
        header_spec(h) == Ok::<Seq<char>, ReadFailure>(supported_version()),
        cities_spec(d, p2) == Ok::<(Seq<(Seq<u8>, Seq<char>)>, int), ReadFailure>((Seq::empty(), p2 + 6)),
    ensures
        read_spec(d) == tables_spec(d, p2 + 6, comment, Seq::empty()),
{
}

proof fn lemma_header_text_one_line(h: Seq<char>)
    requires
        h == header_text(0),
    ensures
        !h.contains('\n'),
{
    reveal_strlit("Geolocation");
    reveal_strlit("1.03");
    assert(decimal_chars(0) == seq!['0']);
    assert(h =~= seq!['G', 'e', 'o', 'l', 'o', 'c', 'a', 't', 'i', 'o', 'n', '1', '.', '0', '3', ' ', '0']);
    if h.contains('\n') {
        let k = choose|k: int| 0 <= k < h.len() && h[k] == '\n';
        assert(h[k] != '\n');
    }
}

} // verus!
