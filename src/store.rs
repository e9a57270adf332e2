//! The in-memory store: cities and the reference tables they point into,
//! parent lookups derived from the cities, and the query engine.
use vstd::prelude::*;
use crate::record::CityEntry;
use crate::text::{text_eq, contains, seq_contains, seq_starts_with, split_commas, split_on_commas, starts_with, trim, trim_spec};

verus! {

/// The whole database: a comment, the cities, and the tables of countries
/// (two-character code followed by the name), regions, subregions, timezones
/// and features, each addressed by position.
pub struct GeoDatabase {
    pub comment: String,
    pub cities: Vec<CityEntry>,
    pub countries: Vec<String>,
    pub regions: Vec<String>,
    pub subregions: Vec<String>,
    pub timezones: Vec<String>,
    pub features: Vec<String>,
}

/// Why a query or an index was refused.
#[derive(Debug, Clone, Copy, PartialEq, Eq, Structural)]
pub enum QueryError {
    /// The query has more comma-separated parts than the entity has levels.
    TooManyParts,
    /// No entry at that index.
    IndexOutOfRange,
}

/// `v` lists, in increasing order, exactly the indices below `n` that satisfy `p`.
pub open spec fn lists_matches(v: Seq<usize>, n: int, p: spec_fn(int) -> bool) -> bool {
    &&& forall|k: int| 0 <= k < v.len() ==> v[k] < n && p(v[k] as int)
    &&& forall|k: int, l: int| 0 <= k < l < v.len() ==> v[k] < v[l]
    &&& forall|i: int| 0 <= i < n && #[trigger] p(i) ==> v.contains(i as usize)
}

/// The name sought by a query: its first part, trimmed unless it is the only one.
pub open spec fn query_name(parts: Seq<Seq<char>>) -> Seq<char> {
    if parts.len() == 1 {
        parts[0]
    } else {
        trim_spec(parts[0])
    }
}

/// The `j`-th part counted from the end, trimmed, where the query reaches it
/// (`j == 1` the country, `2` the region, `3` the subregion).
pub open spec fn tail_term(parts: Seq<Seq<char>>, j: int) -> Option<Seq<char>> {
    if parts.len() > j {
        Some(trim_spec(parts[parts.len() - j]))
    } else {
        None
    }
}

/// Entry `ix` of `table` contains `term`, or there is no term.
pub open spec fn entry_contains(table: Seq<String>, ix: usize, term: Option<Seq<char>>) -> bool {
    match term {
        None => true,
        Some(t) => ix < table.len() && seq_contains(table[ix as int]@, t),
    }
}

/// The first city from `k` on in subregion `ix`.
pub open spec fn first_in_subregion(cities: Seq<CityEntry>, ix: usize, k: int) -> Option<int>
    decreases cities.len() - k,
{
    if k < 0 || k >= cities.len() {
        None
    } else if cities[k].subregion_ix == ix {
        Some(k)
    } else {
        first_in_subregion(cities, ix, k + 1)
    }
}

/// The first city from `k` on in region `ix`.
pub open spec fn first_in_region(cities: Seq<CityEntry>, ix: usize, k: int) -> Option<int>
    decreases cities.len() - k,
{
    if k < 0 || k >= cities.len() {
        None
    } else if cities[k].region_ix == ix {
        Some(k)
    } else {
        first_in_region(cities, ix, k + 1)
    }
}

/// The field of a city that names an area of one kind.
#[derive(Debug, Clone, Copy, PartialEq, Eq, Structural)]
pub enum Level {
    Country,
    Region,
    Subregion,
    Timezone,
}

pub open spec fn level_of(c: CityEntry, l: Level) -> usize {
    match l {
        Level::Country => c.country_ix,
        Level::Region => c.region_ix,
        Level::Subregion => c.subregion_ix,
        Level::Timezone => c.timezone_ix,
    }
}

fn level_of_exec(c: &CityEntry, l: Level) -> (r: usize)
    ensures
        r == level_of(*c, l),
{
    match l {
        Level::Country => c.country_ix,
        Level::Region => c.region_ix,
        Level::Subregion => c.subregion_ix,
        Level::Timezone => c.timezone_ix,
    }
}

/// How many of the cities are in area `ix` of kind `l`.
pub open spec fn count_in(cs: Seq<CityEntry>, l: Level, ix: usize) -> nat
    decreases cs.len(),
{
    if cs.len() == 0 {
        0
    } else {
        count_in(cs.drop_last(), l, ix) + if level_of(cs.last(), l) == ix { 1nat } else { 0nat }
    }
}

/// The areas of kind `g` of the cities that are in area `ix` of kind `l`.
pub open spec fn values_in(cs: Seq<CityEntry>, l: Level, ix: usize, g: Level) -> Set<usize>
    decreases cs.len(),
{
    if cs.len() == 0 {
        Set::empty()
    } else if level_of(cs.last(), l) == ix {
        values_in(cs.drop_last(), l, ix, g).insert(level_of(cs.last(), g))
    } else {
        values_in(cs.drop_last(), l, ix, g)
    }
}

/// How many cities an area holds, and over how many subregions, regions and
/// timezones they spread.
#[derive(Debug, Clone, Copy, PartialEq, Eq, Structural)]
pub struct AreaSummary {
    pub cities: usize,
    pub subregions: usize,
    pub regions: usize,
    pub timezones: usize,
}

fn holds_value(v: &Vec<usize>, x: usize) -> (r: bool)
    ensures
        r == v@.contains(x),
{
    let mut i: usize = 0;
    while i < v.len()
        invariant
            i <= v@.len(),
            forall|k: int| 0 <= k < i ==> v@[k] != x,
        decreases v@.len() - i,
    {
        if v[i] == x {
            return true;
        }
        i = i + 1;
    }
    false
}

/// The views of a sequence of strings.
pub open spec fn views(v: Seq<String>) -> Seq<Seq<char>> {
    v.map_values(|p: String| p@)
}

/// The comma-separated parts of a query.
fn query_parts(q: &str) -> (r: Vec<String>)
    ensures
        views(r@) == split_commas(q@),
        r@.len() >= 1,
{
    let r = split_on_commas(q);
    proof {
        crate::text::lemma_split_commas_nonempty(q@);
        assert(views(r@) =~= split_commas(q@));
    }
    r
}

/// The sought name of a query.
fn query_name_exec(parts: &Vec<String>) -> (r: String)
    requires
        parts@.len() >= 1,
    ensures
        r@ == query_name(views(parts@)),
{
    if parts.len() == 1 {
        parts[0].clone()
    } else {
        trim(parts[0].as_str())
    }
}

/// The `j`-th part from the end of a query, trimmed.
fn tail_term_exec(parts: &Vec<String>, j: usize) -> (r: Option<String>)
    requires
        j >= 1,
    ensures
        match tail_term(views(parts@), j as int) {
            None => r is None,
            Some(t) => r matches Some(s) && s@ == t,
        },
{
    if parts.len() > j {
        Some(trim(parts[parts.len() - j].as_str()))
    } else {
        None
    }
}

/// Entry `ix` of `table` contains `term`, or there is no term.
fn entry_contains_exec(table: &Vec<String>, ix: usize, term: &Option<String>) -> (r: bool)
    ensures
        r == entry_contains(table@, ix, opt_view(*term)),
{
    match term {
        None => true,
        Some(t) => ix < table.len() && contains(table[ix].as_str(), t.as_str()),
    }
}

pub open spec fn opt_view(o: Option<String>) -> Option<Seq<char>> {
    match o {
        Some(t) => Some(t@),
        None => None,
    }
}

impl GeoDatabase {
    /// Region, country and timezone of the first city in subregion `ix`.
    pub open spec fn subregion_parents_spec(&self, ix: usize) -> Option<(usize, usize, usize)> {
        match first_in_subregion(self.cities@, ix, 0) {
            Some(k) => Some((self.cities@[k].region_ix, self.cities@[k].country_ix, self.cities@[k].timezone_ix)),
            None => None,
        }
    }

    /// Country of the first city in region `ix`.
    pub open spec fn region_parent_spec(&self, ix: usize) -> Option<usize> {
        match first_in_region(self.cities@, ix, 0) {
            Some(k) => Some(self.cities@[k].country_ix),
            None => None,
        }
    }

    /// City `i` answers the query of `parts`.
    pub open spec fn city_matches(&self, i: int, parts: Seq<Seq<char>>) -> bool {
        let c = self.cities@[i];
        &&& c.name@ == query_name(parts)
        &&& entry_contains(self.countries@, c.country_ix, tail_term(parts, 1))
        &&& entry_contains(self.regions@, c.region_ix, tail_term(parts, 2))
        &&& entry_contains(self.subregions@, c.subregion_ix, tail_term(parts, 3))
    }

    /// Subregion `i` answers the query of `parts`.
    pub open spec fn subregion_matches(&self, i: int, parts: Seq<Seq<char>>) -> bool {
        &&& self.subregions@[i]@ == query_name(parts)
        &&& (parts.len() == 1 || match self.subregion_parents_spec(i as usize) {
            None => false,
            Some((r, c, _t)) => entry_contains(self.countries@, c, tail_term(parts, 1))
                && entry_contains(self.regions@, r, tail_term(parts, 2)),
        })
    }

    /// Region `i` answers the query of `parts`.
    pub open spec fn region_matches(&self, i: int, parts: Seq<Seq<char>>) -> bool {
        &&& self.regions@[i]@ == query_name(parts)
        &&& (parts.len() == 1 || match self.region_parent_spec(i as usize) {
            None => false,
            Some(c) => entry_contains(self.countries@, c, tail_term(parts, 1)),
        })
    }

    /// A store with the given comment and tables and no cities.
    pub fn new(
        comment: String,
        countries: Vec<String>,
        regions: Vec<String>,
        subregions: Vec<String>,
        timezones: Vec<String>,
        features: Vec<String>,
    ) -> (r: GeoDatabase)
        ensures
            r.comment == comment,
            r.cities@.len() == 0,
            r.countries == countries,
            r.regions == regions,
            r.subregions == subregions,
            r.timezones == timezones,
            r.features == features,
    {
        GeoDatabase { comment, cities: Vec::new(), countries, regions, subregions, timezones, features }
    }

    /// Appends a city; its indices are not checked.
    pub fn add_city(&mut self, city: CityEntry)
        ensures
            final(self).cities@ == old(self).cities@.push(city),
            final(self).comment == old(self).comment,
            final(self).countries == old(self).countries,
            final(self).regions == old(self).regions,
            final(self).subregions == old(self).subregions,
            final(self).timezones == old(self).timezones,
            final(self).features == old(self).features,
    {
        self.cities.push(city);
    }

    /// Removes the city at `city_ix`; fails where there is none.
    pub fn remove_city(&mut self, city_ix: usize) -> (r: Result<(), QueryError>)
        ensures
            city_ix < old(self).cities@.len() ==> r is Ok && final(self).cities@ == old(self).cities@.remove(city_ix as int),
            city_ix >= old(self).cities@.len() ==> r == Err::<(), QueryError>(QueryError::IndexOutOfRange)
                && final(self).cities@ == old(self).cities@,
            final(self).comment == old(self).comment,
            final(self).countries == old(self).countries,
            final(self).regions == old(self).regions,
            final(self).subregions == old(self).subregions,
            final(self).timezones == old(self).timezones,
            final(self).features == old(self).features,
    {
        if city_ix < self.cities.len() {
            self.cities.remove(city_ix);
            Ok(())
        } else {
            Err(QueryError::IndexOutOfRange)
        }
    }

    /// Indices of the cities that answer `name`: `"<city>"`,
    /// `"<city>, <country>"`, `"<city>, <region>, <country>"` or
    /// `"<city>, <subregion>, <region>, <country>"`. The city name must be equal,
    /// each further part must occur in the corresponding table entry.
    pub fn find_matching_cities(&self, name: &str) -> (r: Result<Vec<usize>, QueryError>)
        ensures
            split_commas(name@).len() > 4 <==> r == Err::<Vec<usize>, QueryError>(QueryError::TooManyParts),
            split_commas(name@).len() <= 4 ==> r is Ok,
            r matches Ok(v) ==> lists_matches(v@, self.cities@.len() as int,
                |i: int| self.city_matches(i, split_commas(name@))),
    {
        let parts = query_parts(name);
        if parts.len() > 4 {
            return Err(QueryError::TooManyParts);
        }
        let ghost ps = split_commas(name@);
        let sought = query_name_exec(&parts);
        let country = tail_term_exec(&parts, 1);
        let region = tail_term_exec(&parts, 2);
        let subregion = tail_term_exec(&parts, 3);
        let mut v: Vec<usize> = Vec::new();
        let mut i: usize = 0;
        while i < self.cities.len()
            invariant
                i <= self.cities@.len(),
                views(parts@) == ps,
                sought@ == query_name(ps),
                opt_view(country) == tail_term(ps, 1),
                opt_view(region) == tail_term(ps, 2),
                opt_view(subregion) == tail_term(ps, 3),
                lists_matches(v@, i as int, |k: int| self.city_matches(k, ps)),
                forall|k: int| 0 <= k < i && #[trigger] self.city_matches(k, ps) ==> v@.contains(k as usize),
            decreases self.cities@.len() - i,
        {
            let c = &self.cities[i];
            let ghost old_v = v@;
            if text_eq(c.name.as_str(), sought.as_str())
                && entry_contains_exec(&self.countries, c.country_ix, &country)
                && entry_contains_exec(&self.regions, c.region_ix, &region)
                && entry_contains_exec(&self.subregions, c.subregion_ix, &subregion) {
                v.push(i);
                proof { assert(v@.last() == i); }
            }
            proof {
                assert forall|k: int| 0 <= k < i + 1 && #[trigger] self.city_matches(k, ps) implies v@.contains(k as usize) by {
                    if k < i {
                        assert(old_v.contains(k as usize));
                        let j = choose|j: int| 0 <= j < old_v.len() && old_v[j] == k as usize;
                        assert(v@[j] == k as usize);
                    } else {
                        assert(v@[v@.len() - 1] == k);
                    }
                }
            }
            i = i + 1;
        }
        Ok(v)
    }

    /// Indices of the subregions that answer `name`: `"<subregion>"`,
    /// `"<subregion>, <country>"` or `"<subregion>, <region>, <country>"`.
    /// Region and country are those of the subregion's first city; a subregion
    /// without cities answers only a one-part query.
    pub fn find_matching_subregions(&self, name: &str) -> (r: Result<Vec<usize>, QueryError>)
        ensures
            split_commas(name@).len() > 3 <==> r == Err::<Vec<usize>, QueryError>(QueryError::TooManyParts),
            split_commas(name@).len() <= 3 ==> r is Ok,
            r matches Ok(v) ==> lists_matches(v@, self.subregions@.len() as int,
                |i: int| self.subregion_matches(i, split_commas(name@))),
    {
        let parts = query_parts(name);
        if parts.len() > 3 {
            return Err(QueryError::TooManyParts);
        }
        let ghost ps = split_commas(name@);
        let sought = query_name_exec(&parts);
        let country = tail_term_exec(&parts, 1);
        let region = tail_term_exec(&parts, 2);
        let mut v: Vec<usize> = Vec::new();
        let mut i: usize = 0;
        while i < self.subregions.len()
            invariant
                i <= self.subregions@.len(),
                views(parts@) == ps,
                sought@ == query_name(ps),
                opt_view(country) == tail_term(ps, 1),
                opt_view(region) == tail_term(ps, 2),
                lists_matches(v@, i as int, |k: int| self.subregion_matches(k, ps)),
                forall|k: int| 0 <= k < i && #[trigger] self.subregion_matches(k, ps) ==> v@.contains(k as usize),
            decreases self.subregions@.len() - i,
        {
            let ghost old_v = v@;
            let name_ok = text_eq(self.subregions[i].as_str(), sought.as_str());
            let parents = self.subregion_parents(i);
            let parent_ok = parts.len() == 1 || match parents {
                None => false,
                Some((r, c, _t)) => entry_contains_exec(&self.countries, c, &country)
                    && entry_contains_exec(&self.regions, r, &region),
            };
            proof {
                assert(name_ok == (self.subregions@[i as int]@ == query_name(ps)));
                assert(parents == self.subregion_parents_spec(i));
            }
            let hit = name_ok && parent_ok;
            proof {
                assert(ps.len() == parts@.len());
                assert(hit == self.subregion_matches(i as int, ps));
            }
            if hit {
                v.push(i);
                proof { assert(v@.last() == i); }
            }
            proof {
                assert forall|k: int| 0 <= k < i + 1 && #[trigger] self.subregion_matches(k, ps) implies v@.contains(k as usize) by {
                    if k < i {
                        assert(old_v.contains(k as usize));
                        let j = choose|j: int| 0 <= j < old_v.len() && old_v[j] == k as usize;
                        assert(v@[j] == k as usize);
                    } else {
                        assert(v@[v@.len() - 1] == k);
                    }
                }
            }
            i = i + 1;
        }
        Ok(v)
    }

    /// Indices of the regions that answer `name`: `"<region>"` or
    /// `"<region>, <country>"`. The country is that of the region's first
    /// city; a region without cities answers only a one-part query.
    pub fn find_matching_regions(&self, name: &str) -> (r: Result<Vec<usize>, QueryError>)
        ensures
            split_commas(name@).len() > 2 <==> r == Err::<Vec<usize>, QueryError>(QueryError::TooManyParts),
            split_commas(name@).len() <= 2 ==> r is Ok,
            r matches Ok(v) ==> lists_matches(v@, self.regions@.len() as int,
                |i: int| self.region_matches(i, split_commas(name@))),
    {
        let parts = query_parts(name);
        if parts.len() > 2 {
            return Err(QueryError::TooManyParts);
        }
        let ghost ps = split_commas(name@);
        let sought = query_name_exec(&parts);
        let country = tail_term_exec(&parts, 1);
        let mut v: Vec<usize> = Vec::new();
        let mut i: usize = 0;
        while i < self.regions.len()
            invariant
                i <= self.regions@.len(),
                views(parts@) == ps,
                sought@ == query_name(ps),
                opt_view(country) == tail_term(ps, 1),
                lists_matches(v@, i as int, |k: int| self.region_matches(k, ps)),
                forall|k: int| 0 <= k < i && #[trigger] self.region_matches(k, ps) ==> v@.contains(k as usize),
            decreases self.regions@.len() - i,
        {
            let ghost old_v = v@;
            let name_ok = text_eq(self.regions[i].as_str(), sought.as_str());
            let parent = self.region_parent(i);
            let parent_ok = parts.len() == 1 || match parent {
                None => false,
                Some(c) => entry_contains_exec(&self.countries, c, &country),
            };
            proof {
                assert(name_ok == (self.regions@[i as int]@ == query_name(ps)));
                assert(parent == self.region_parent_spec(i));
                if parts@.len() > 1 {
                    match parent {
                        None => {},
                        Some(c) => {
                            assert(parent_ok == entry_contains(self.countries@, c, tail_term(ps, 1)));
                        },
                    }
                }
            }
            let hit = name_ok && parent_ok;
            proof {
                assert(ps.len() == parts@.len());
                assert(hit == self.region_matches(i as int, ps));
            }
            if hit {
                v.push(i);
                proof { assert(v@.last() == i); }
            }
            proof {
                assert forall|k: int| 0 <= k < i + 1 && #[trigger] self.region_matches(k, ps) implies v@.contains(k as usize) by {
                    if k < i {
                        assert(old_v.contains(k as usize));
                        let j = choose|j: int| 0 <= j < old_v.len() && old_v[j] == k as usize;
                        assert(v@[j] == k as usize);
                    } else {
                        assert(v@[v@.len() - 1] == k);
                    }
                }
            }
            i = i + 1;
        }
        Ok(v)
    }

    /// Indices of the countries whose code and name contain `name`.
    pub fn find_matching_countries(&self, name: &str) -> (r: Vec<usize>)
        ensures
            lists_matches(r@, self.countries@.len() as int, |i: int| seq_contains(self.countries@[i]@, name@)),
    {
        let mut v: Vec<usize> = Vec::new();
        let mut i: usize = 0;
        while i < self.countries.len()
            invariant
                i <= self.countries@.len(),
                lists_matches(v@, i as int, |k: int| seq_contains(self.countries@[k]@, name@)),
                forall|k: int| 0 <= k < i && #[trigger] seq_contains(self.countries@[k]@, name@) ==> v@.contains(k as usize),
            decreases self.countries@.len() - i,
        {
            let ghost old_v = v@;
            if contains(self.countries[i].as_str(), name) {
                v.push(i);
                proof { assert(v@.last() == i); }
            }
            proof {
                assert forall|k: int| 0 <= k < i + 1 && #[trigger] seq_contains(self.countries@[k]@, name@) implies v@.contains(k as usize) by {
                    if k < i {
                        assert(old_v.contains(k as usize));
                        let j = choose|j: int| 0 <= j < old_v.len() && old_v[j] == k as usize;
                        assert(v@[j] == k as usize);
                    } else {
                        assert(v@[v@.len() - 1] == k);
                    }
                }
            }
            i = i + 1;
        }
        v
    }

    /// Indices of the timezones that begin with `name`.
    pub fn find_matching_timezones(&self, name: &str) -> (r: Vec<usize>)
        ensures
            lists_matches(r@, self.timezones@.len() as int, |i: int| seq_starts_with(self.timezones@[i]@, name@)),
    {
        let mut v: Vec<usize> = Vec::new();
        let mut i: usize = 0;
        while i < self.timezones.len()
            invariant
                i <= self.timezones@.len(),
                lists_matches(v@, i as int, |k: int| seq_starts_with(self.timezones@[k]@, name@)),
                forall|k: int| 0 <= k < i && #[trigger] seq_starts_with(self.timezones@[k]@, name@) ==> v@.contains(k as usize),
            decreases self.timezones@.len() - i,
        {
            let ghost old_v = v@;
            if starts_with(self.timezones[i].as_str(), name) {
                v.push(i);
                proof { assert(v@.last() == i); }
            }
            proof {
                assert forall|k: int| 0 <= k < i + 1 && #[trigger] seq_starts_with(self.timezones@[k]@, name@) implies v@.contains(k as usize) by {
                    if k < i {
                        assert(old_v.contains(k as usize));
                        let j = choose|j: int| 0 <= j < old_v.len() && old_v[j] == k as usize;
                        assert(v@[j] == k as usize);
                    } else {
                        assert(v@[v@.len() - 1] == k);
                    }
                }
            }
            i = i + 1;
        }
        v
    }

    /// Indices of the features that contain `name`.
    pub fn find_matching_features(&self, name: &str) -> (r: Vec<usize>)
        ensures
            lists_matches(r@, self.features@.len() as int, |i: int| seq_contains(self.features@[i]@, name@)),
    {
        let mut v: Vec<usize> = Vec::new();
        let mut i: usize = 0;
        while i < self.features.len()
            invariant
                i <= self.features@.len(),
                lists_matches(v@, i as int, |k: int| seq_contains(self.features@[k]@, name@)),
                forall|k: int| 0 <= k < i && #[trigger] seq_contains(self.features@[k]@, name@) ==> v@.contains(k as usize),
            decreases self.features@.len() - i,
        {
            let ghost old_v = v@;
            if contains(self.features[i].as_str(), name) {
                v.push(i);
                proof { assert(v@.last() == i); }
            }
            proof {
                assert forall|k: int| 0 <= k < i + 1 && #[trigger] seq_contains(self.features@[k]@, name@) implies v@.contains(k as usize) by {
                    if k < i {
                        assert(old_v.contains(k as usize));
                        let j = choose|j: int| 0 <= j < old_v.len() && old_v[j] == k as usize;
                        assert(v@[j] == k as usize);
                    } else {
                        assert(v@[v@.len() - 1] == k);
                    }
                }
            }
            i = i + 1;
        }
        v
    }

    /// The text of subregion `ix`.
    pub fn subregion_name(&self, ix: usize) -> (r: &str)
        requires
            ix < self.subregions@.len(),
        ensures
            r@ == self.subregions@[ix as int]@,
    {
        self.subregions[ix].as_str()
    }

    /// The text of region `ix`.
    pub fn region_name(&self, ix: usize) -> (r: &str)
        requires
            ix < self.regions@.len(),
        ensures
            r@ == self.regions@[ix as int]@,
    {
        self.regions[ix].as_str()
    }

    /// The text of timezone `ix`.
    pub fn timezone_name(&self, ix: usize) -> (r: &str)
        requires
            ix < self.timezones@.len(),
        ensures
            r@ == self.timezones@[ix as int]@,
    {
        self.timezones[ix].as_str()
    }

    /// The text of feature `ix`.
    pub fn feature_name(&self, ix: usize) -> (r: &str)
        requires
            ix < self.features@.len(),
        ensures
            r@ == self.features@[ix as int]@,
    {
        self.features[ix].as_str()
    }

    /// The name of country `ix`: its entry after the two-character code.
    pub fn country_name(&self, ix: usize) -> (r: &str)
        requires
            ix < self.countries@.len(),
            self.countries@[ix as int]@.len() >= 2,
        ensures
            r@ == self.countries@[ix as int]@.subrange(2, self.countries@[ix as int]@.len() as int),
    {
        let c = self.countries[ix].as_str();
        c.substring_char(2, c.unicode_len())
    }

    /// The two-character code of country `ix`.
    pub fn country_code(&self, ix: usize) -> (r: &str)
        requires
            ix < self.countries@.len(),
            self.countries@[ix as int]@.len() >= 2,
        ensures
            r@ == self.countries@[ix as int]@.subrange(0, 2),
    {
        self.countries[ix].as_str().substring_char(0, 2)
    }

    /// How many cities are in area `ix` of kind `l`.
    fn count_cities(&self, l: Level, ix: usize) -> (r: usize)
        ensures
            r == count_in(self.cities@, l, ix),
    {
        let mut n: usize = 0;
        let mut i: usize = 0;
        while i < self.cities.len()
            invariant
                i <= self.cities@.len(),
                n == count_in(self.cities@.subrange(0, i as int), l, ix),
                n <= i,
            decreases self.cities@.len() - i,
        {
            proof {
                let pre = self.cities@.subrange(0, i + 1);
                assert(pre.drop_last() == self.cities@.subrange(0, i as int));
                assert(pre.last() == self.cities@[i as int]);
            }
            if level_of_exec(&self.cities[i], l) == ix {
                n = n + 1;
            }
            i = i + 1;
        }
        proof { assert(self.cities@.subrange(0, self.cities@.len() as int) == self.cities@); }
        n
    }

    /// How many distinct areas of kind `g` the cities in area `ix` of kind `l` lie in.
    fn count_distinct(&self, l: Level, ix: usize, g: Level) -> (r: usize)
        ensures
            r == values_in(self.cities@, l, ix, g).len(),
    {
        let mut seen: Vec<usize> = Vec::new();
        let mut i: usize = 0;
        proof { assert(seen@.to_set() =~= Set::<usize>::empty()); }
        while i < self.cities.len()
            invariant
                i <= self.cities@.len(),
                seen@.no_duplicates(),
                seen@.to_set() == values_in(self.cities@.subrange(0, i as int), l, ix, g),
                seen@.len() <= i,
            decreases self.cities@.len() - i,
        {
            let ghost before = seen@;
            proof {
                let pre = self.cities@.subrange(0, i + 1);
                assert(pre.drop_last() == self.cities@.subrange(0, i as int));
                assert(pre.last() == self.cities@[i as int]);
            }
            if level_of_exec(&self.cities[i], l) == ix {
                let v = level_of_exec(&self.cities[i], g);
                if !holds_value(&seen, v) {
                    seen.push(v);
                    proof {
                        assert(seen@.to_set() =~= before.to_set().insert(v)) by {
                            assert forall|x: usize| seen@.contains(x) <==> before.contains(x) || x == v by {
                                if seen@.contains(x) {
                                    let k = choose|k: int| 0 <= k < seen@.len() && seen@[k] == x;
                                    if k < before.len() { assert(before[k] == x); }
                                }
                                if before.contains(x) {
                                    let k = choose|k: int| 0 <= k < before.len() && before[k] == x;
                                    assert(seen@[k] == x);
                                }
                                if x == v { assert(seen@[before.len() as int] == v); }
                            }
                        }
                        assert(seen@.no_duplicates()) by {
                            assert forall|a: int, b: int| 0 <= a < seen@.len() && 0 <= b < seen@.len() && a != b
                                implies seen@[a] != seen@[b] by {
                                if a < before.len() && b < before.len() {
                                    assert(before[a] == seen@[a] && before[b] == seen@[b]);
                                } else if a < before.len() {
                                    assert(before[a] == seen@[a]);
                                    assert(before.contains(seen@[a]));
                                } else if b < before.len() {
                                    assert(before[b] == seen@[b]);
                                    assert(before.contains(seen@[b]));
                                }
                            }
                        }
                    }
                } else {
                    proof { assert(before.to_set().insert(v) =~= before.to_set()); }
                }
            }
            i = i + 1;
        }
        proof {
            assert(self.cities@.subrange(0, self.cities@.len() as int) == self.cities@);
            seen@.unique_seq_to_set();
        }
        seen.len()
    }

    /// The cities of area `ix` of kind `l`, and the distinct subregions,
    /// regions and timezones they lie in.
    pub fn area_summary(&self, l: Level, ix: usize) -> (r: AreaSummary)
        ensures
            r.cities == count_in(self.cities@, l, ix),
            r.subregions == values_in(self.cities@, l, ix, Level::Subregion).len(),
            r.regions == values_in(self.cities@, l, ix, Level::Region).len(),
            r.timezones == values_in(self.cities@, l, ix, Level::Timezone).len(),
    {
        AreaSummary {
            cities: self.count_cities(l, ix),
            subregions: self.count_distinct(l, ix, Level::Subregion),
            regions: self.count_distinct(l, ix, Level::Region),
            timezones: self.count_distinct(l, ix, Level::Timezone),
        }
    }

    /// Region, country and timezone of the first city in subregion
    /// `subregion_ix`, or `None` where no city is in it.
    pub fn subregion_parents(&self, subregion_ix: usize) -> (r: Option<(usize, usize, usize)>)
        ensures
            r == self.subregion_parents_spec(subregion_ix),
    {
        let mut i: usize = 0;
        while i < self.cities.len()
            invariant
                i <= self.cities@.len(),
                first_in_subregion(self.cities@, subregion_ix, 0) == first_in_subregion(self.cities@, subregion_ix, i as int),
            decreases self.cities@.len() - i,
        {
            let c = &self.cities[i];
            if c.subregion_ix == subregion_ix {
                return Some((c.region_ix, c.country_ix, c.timezone_ix));
            }
            i = i + 1;
        }
        None
    }

    /// Country of the first city in region `region_ix`, or `None` where no
    /// city is in it.
    pub fn region_parent(&self, region_ix: usize) -> (r: Option<usize>)
        ensures
            r == self.region_parent_spec(region_ix),
    {
        let mut i: usize = 0;
        while i < self.cities.len()
            invariant
                i <= self.cities@.len(),
                first_in_region(self.cities@, region_ix, 0) == first_in_region(self.cities@, region_ix, i as int),
            decreases self.cities@.len() - i,
        {
            if self.cities[i].region_ix == region_ix {
                return Some(self.cities[i].country_ix);
            }
            i = i + 1;
        }
        None
    }
}

} // verus!
