//! UTM zone selection + the pinned per-project CRS.
//!
//! A project pins one UTM zone and hemisphere at creation. The zone comes from
//! the plain formula `zone = floor((lon + 180) / 6) + 1`, clamped to `1..=60`
//! so the `lon = +180` edge maps to zone 60; the Norway and Svalbard grid
//! exceptions are deliberately not applied (they are map-sheet conventions,
//! not accuracy requirements). [`ProjectCrs`] carries the two `proj4rs`
//! projections (the pinned UTM zone and WGS84 longlat) that the coordinate
//! transforms drive.

use proj4rs::proj::Proj;
use vstd::prelude::*;

verus! {

#[verifier::external_type_specification]
#[verifier::external_body]
pub struct ExProj(proj4rs::proj::Proj);

#[verifier::external_type_specification]
#[verifier::external_body]
pub struct ExProjError(proj4rs::errors::Error);

/// The proj string a projection was built from.
pub uninterp spec fn proj_source(p: Proj) -> Seq<char>;

/// `Proj::from_proj_string`: parses a proj string and builds the projection.
///
/// Claimed, on the strings this library builds (the WGS84 longlat string and
/// the UTM strings of zones `1..=60`): the call succeeds, and the projection
/// it returns is the one built from that string ([`proj_source`]). For these
/// strings `proj4rs` finds the projection (`longlat`, or `utm` with a zone in
/// range), the WGS84 ellipsoid (non-zero flattening, as `etmerc` needs), the
/// unit `m`, and no datum-shift grid, so the call reads nothing but the
/// string; other strings are not admitted. What the built projection
/// computes is not stated here.
#[verifier::external_body]
fn parse_proj(s: &str) -> (r: Result<Proj, proj4rs::errors::Error>)
    requires
        built_proj_string(s@),
    ensures
        r is Ok,
        r matches Ok(p) ==> proj_source(p) == s@,
{
    Proj::from_proj_string(s)
}

/// Errors of the integer part of the CRS boundary.
#[derive(Debug, PartialEq, Eq)]
pub enum CrsError {
    /// A zone outside `1..=60`; `lon` is the (invalid) zone's central
    /// meridian in degrees, `6·zone − 183`.
    BadZone {
        /// Central meridian of the rejected zone, degrees.
        lon: i32,
    },
}

/// The decimal digit character of `d < 10`.
pub open spec fn digit_char(d: nat) -> char {
    (d + 48) as char
}

/// Decimal rendering of a natural number, most significant digit first and
/// without leading zeros.
pub open spec fn decimal(n: nat) -> Seq<char>
    decreases n,
{
    if n < 10 {
        seq![digit_char(n)]
    } else {
        decimal(n / 10) + seq![digit_char(n % 10)]
    }
}

/// The central meridian of zone `zone`, degrees: `(zone − 1)·6 − 180 + 3`.
pub open spec fn central_meridian(zone: int) -> int {
    6 * zone - 183
}

/// The plain zone formula on the 6° band index `b = floor((lon + 180) / 6)`:
/// `b + 1`, clamped to `1..=60`.
pub open spec fn zone_of_band(b: int) -> int {
    if b + 1 < 1 {
        1
    } else if b + 1 > 60 {
        60
    } else {
        b + 1
    }
}

/// The WGS84 geographic projection string.
pub open spec fn wgs84_proj_spec() -> Seq<char> {
    "+proj=longlat +ellps=WGS84 +datum=WGS84 +no_defs"@
}

/// The UTM proj string of a zone/hemisphere.
pub open spec fn utm_proj_spec(zone: nat, south: bool) -> Seq<char> {
    "+proj=utm +zone="@ + decimal(zone) + (if south {
        " +south"@
    } else {
        ""@
    }) + " +ellps=WGS84 +units=m +no_defs"@
}

/// The proj strings this library builds: the WGS84 longlat string and the
/// UTM string of a zone `1..=60` in either hemisphere.
pub open spec fn built_proj_string(s: Seq<char>) -> bool {
    ||| s == wgs84_proj_spec()
    ||| exists|z: nat, south: bool| 1 <= z <= 60 && s == #[trigger] utm_proj_spec(z, south)
}

/// The pinned-CRS label, e.g. `utm-31n` / `utm-33s`.
pub open spec fn crs_label(zone: nat, south: bool) -> Seq<char> {
    "utm-"@ + decimal(zone) + (if south {
        "s"@
    } else {
        "n"@
    })
}

/// Every decimal rendering has one to three digits below 1000, and at least one.
proof fn lemma_decimal_len(n: nat)
    ensures
        decimal(n).len() >= 1,
        n < 10 ==> decimal(n).len() == 1,
        10 <= n < 100 ==> decimal(n).len() == 2,
        100 <= n < 1000 ==> decimal(n).len() == 3,
    decreases n,
{
    if n >= 10 {
        lemma_decimal_len(n / 10);
    }
}

/// Two numbers with the same decimal rendering are equal.
proof fn lemma_decimal_injective(a: nat, b: nat)
    requires
        decimal(a) == decimal(b),
    ensures
        a == b,
    decreases a + b,
{
    lemma_decimal_len(a);
    lemma_decimal_len(b);
    if a < 10 && b < 10 {
        assert(decimal(a)[0] == digit_char(a));
        assert(decimal(b)[0] == digit_char(b));
        assert((a + 48) as char == (b + 48) as char);
        assert(((a + 48) as char) as int == a + 48);
        assert(((b + 48) as char) as int == b + 48);
    } else if a < 10 {
        lemma_decimal_len(b / 10);
        assert(decimal(b).len() == decimal(b / 10).len() + 1);
    } else if b < 10 {
        lemma_decimal_len(a / 10);
        assert(decimal(a).len() == decimal(a / 10).len() + 1);
    } else {
        let da = decimal(a / 10);
        let db = decimal(b / 10);
        assert(decimal(a) == da + seq![digit_char(a % 10)]);
        assert(decimal(b) == db + seq![digit_char(b % 10)]);
        assert(decimal(a).last() == digit_char(a % 10));
        assert(decimal(b).last() == digit_char(b % 10));
        assert(((a % 10 + 48) as char) as int == a % 10 + 48);
        assert(((b % 10 + 48) as char) as int == b % 10 + 48);
        assert(decimal(a).drop_last() =~= da);
        assert(decimal(b).drop_last() =~= db);
        lemma_decimal_injective(a / 10, b / 10);
    }
}

/// The CRS label is `utm-`, the zone's digits, then `s` for the southern
/// hemisphere or `n` for the northern one.
pub proof fn lemma_label_literal(z: nat, south: bool)
    ensures
        crs_label(z, south) == "utm-"@ + decimal(z) + seq![
            if south {
                's'
            } else {
                'n'
            },
        ],
        crs_label(z, south).last() == 's' <==> south,
{
    reveal_strlit("s");
    reveal_strlit("n");
    if south {
        assert("s"@ =~= seq!['s']);
    } else {
        assert("n"@ =~= seq!['n']);
    }
}

/// The CRS label identifies the pinned zone and hemisphere: two CRSs with the
/// same label have the same zone and the same hemisphere.
pub proof fn lemma_label_identifies_crs(z1: nat, s1: bool, z2: nat, s2: bool)
    requires
        crs_label(z1, s1) == crs_label(z2, s2),
    ensures
        z1 == z2,
        s1 == s2,
{
    reveal_strlit("utm-");
    reveal_strlit("s");
    reveal_strlit("n");
    let l1 = crs_label(z1, s1);
    let l2 = crs_label(z2, s2);
    lemma_decimal_len(z1);
    lemma_decimal_len(z2);
    assert(l1.last() == (if s1 { 's' } else { 'n' }));
    assert(l2.last() == (if s2 { 's' } else { 'n' }));
    assert(l1.subrange(4, l1.len() - 1) =~= decimal(z1));
    assert(l2.subrange(4, l2.len() - 1) =~= decimal(z2));
    lemma_decimal_injective(z1, z2);
}

/// The UTM proj string identifies the zone and hemisphere it was built for:
/// two zone/hemisphere pairs with the same string are the same pair.
pub proof fn lemma_proj_string_identifies_crs(z1: u8, s1: bool, z2: u8, s2: bool)
    requires
        utm_proj_spec(z1 as nat, s1) == utm_proj_spec(z2 as nat, s2),
    ensures
        z1 == z2,
        s1 == s2,
{
    reveal_strlit("+proj=utm +zone=");
    reveal_strlit(" +south");
    reveal_strlit("");
    reveal_strlit(" +ellps=WGS84 +units=m +no_defs");
    let z1 = z1 as nat;
    let z2 = z2 as nat;
    let p1 = utm_proj_spec(z1, s1);
    let p2 = utm_proj_spec(z2, s2);
    lemma_decimal_len(z1);
    lemma_decimal_len(z2);
    let h1: Seq<char> = if s1 { " +south"@ } else { ""@ };
    let h2: Seq<char> = if s2 { " +south"@ } else { ""@ };
    assert(p1.len() == 16 + decimal(z1).len() + h1.len() + 31);
    assert(p2.len() == 16 + decimal(z2).len() + h2.len() + 31);
    assert(s1 == s2);
    assert(p1.subrange(16, 16 + decimal(z1).len() as int) =~= decimal(z1));
    assert(p2.subrange(16, 16 + decimal(z2).len() as int) =~= decimal(z2));
    lemma_decimal_injective(z1, z2);
}

/// The zone picked for a longitude in the 6° band `b` (`0 <= b < 60`, i.e.
/// `lon ∈ [6b − 180, 6b − 174)`) has its central meridian at the middle of
/// that band, so the pinned zone stays within 3° of its central meridian;
/// the `lon = +180` edge (band 60) folds into zone 60.
pub proof fn lemma_zone_centred_on_its_band(b: int)
    requires
        0 <= b <= 60,
    ensures
        1 <= zone_of_band(b) <= 60,
        b < 60 ==> central_meridian(zone_of_band(b)) == (6 * b - 180) + 3,
        b == 60 ==> zone_of_band(b) == 60,
{
}

/// The selected zone is the band number plus one: band `b` in `0..59` gives
/// zone `b + 1`, so consecutive bands give consecutive zones; bands west of
/// the first clamp to zone 1 and bands from 59 on to zone 60.
pub proof fn lemma_zone_is_band_plus_one(b: int)
    ensures
        0 <= b < 59 ==> zone_of_band(b) == b + 1,
        0 <= b < 58 ==> zone_of_band(b + 1) == zone_of_band(b) + 1,
        b < 0 ==> zone_of_band(b) == 1,
        b >= 59 ==> zone_of_band(b) == 60,
{
}

/// The central meridian of zone `z` is `6·z − 183` degrees: zone 1 is
/// centred on 177° W, zone 60 on 177° E, and each zone's meridian lies 6°
/// east of the previous zone's.
pub proof fn lemma_central_meridian_formula(z: int)
    ensures
        central_meridian(z) == 6 * z - 183,
        central_meridian(z + 1) == central_meridian(z) + 6,
        central_meridian(1) == -177,
        central_meridian(60) == 177,
{
}

/// Decimal rendering in concrete digits: one digit character (`'0' + n`)
/// below ten, tens then units below a hundred, hundreds, tens then units
/// below a thousand.
pub proof fn lemma_decimal_digits(n: nat)
    ensures
        n < 10 ==> decimal(n).len() == 1 && decimal(n)[0] as int == 48 + n,
        10 <= n < 100 ==> {
            &&& decimal(n).len() == 2
            &&& decimal(n)[0] as int == 48 + n / 10
            &&& decimal(n)[1] as int == 48 + n % 10
        },
        100 <= n < 1000 ==> {
            &&& decimal(n).len() == 3
            &&& decimal(n)[0] as int == 48 + n / 100
            &&& decimal(n)[1] as int == 48 + (n / 10) % 10
            &&& decimal(n)[2] as int == 48 + n % 10
        },
{
    lemma_decimal_len(n);
    if n >= 10 {
        lemma_decimal_len(n / 10);
        assert(decimal(n)[decimal(n).len() - 1] == digit_char(n % 10));
        assert(((n % 10 + 48) as char) as int == n % 10 + 48);
        if n < 100 {
            assert(decimal(n / 10) == seq![digit_char(n / 10)]);
            assert(decimal(n)[0] == digit_char(n / 10));
            assert(((n / 10 + 48) as char) as int == n / 10 + 48);
        } else if n < 1000 {
            let m = n / 10;
            assert(m / 10 == n / 100);
            assert(decimal(m) == decimal(m / 10) + seq![digit_char(m % 10)]);
            assert(decimal(m / 10) == seq![digit_char(m / 10)]);
            assert(decimal(n)[0] == digit_char(n / 100));
            assert(decimal(n)[1] == digit_char(m % 10));
            assert(((n / 100 + 48) as char) as int == n / 100 + 48);
            assert(((m % 10 + 48) as char) as int == m % 10 + 48);
        }
    } else {
        assert(((n + 48) as char) as int == n + 48);
    }
}

/// The UTM proj string of zone `z` is `+proj=utm +zone=` and the zone's
/// digits, then ` +south +ellps=WGS84 +units=m +no_defs` for the southern
/// hemisphere and ` +ellps=WGS84 +units=m +no_defs` for the northern one:
/// the text after the zone reads ` +south` exactly when `south` holds.
pub proof fn lemma_utm_proj_string_literal(z: nat, south: bool)
    ensures
        south ==> utm_proj_spec(z, south) == "+proj=utm +zone="@ + decimal(z)
            + " +south +ellps=WGS84 +units=m +no_defs"@,
        !south ==> utm_proj_spec(z, south) == "+proj=utm +zone="@ + decimal(z)
            + " +ellps=WGS84 +units=m +no_defs"@,
        utm_proj_spec(z, south).subrange(
            16 + decimal(z).len() as int,
            16 + decimal(z).len() as int + 7,
        ) == " +south"@ <==> south,
{
    reveal_strlit("+proj=utm +zone=");
    reveal_strlit(" +south");
    reveal_strlit("");
    reveal_strlit(" +ellps=WGS84 +units=m +no_defs");
    reveal_strlit(" +south +ellps=WGS84 +units=m +no_defs");
    let p = utm_proj_spec(z, south);
    let k: int = 16 + decimal(z).len() as int;
    if south {
        assert(" +south"@ + " +ellps=WGS84 +units=m +no_defs"@
            =~= " +south +ellps=WGS84 +units=m +no_defs"@);
        assert(p =~= "+proj=utm +zone="@ + decimal(z) + " +south +ellps=WGS84 +units=m +no_defs"@);
        assert(p.subrange(k, k + 7) =~= " +south"@);
    } else {
        assert(p =~= "+proj=utm +zone="@ + decimal(z) + " +ellps=WGS84 +units=m +no_defs"@);
        assert(p[k + 2] == 'e');
        assert(p.subrange(k, k + 7)[2] == 'e');
        assert(" +south"@[2] == 's');
    }
}

/// The string of one decimal digit.
fn digit_str(d: u8) -> (s: &'static str)
    requires
        d < 10,
    ensures
        s@ == seq![digit_char(d as nat)],
{
    proof {
        reveal_strlit("0");
        reveal_strlit("1");
        reveal_strlit("2");
        reveal_strlit("3");
        reveal_strlit("4");
        reveal_strlit("5");
        reveal_strlit("6");
        reveal_strlit("7");
        reveal_strlit("8");
        reveal_strlit("9");
    }
    match d {
        0 => "0",
        1 => "1",
        2 => "2",
        3 => "3",
        4 => "4",
        5 => "5",
        6 => "6",
        7 => "7",
        8 => "8",
        _ => "9",
    }
}

/// Append the decimal rendering of `n` to `out`.
fn push_decimal(out: &mut String, n: u8)
    ensures
        final(out)@ == old(out)@ + decimal(n as nat),
{
    if n >= 100 {
        out.append(digit_str(n / 100));
        out.append(digit_str((n / 10) % 10));
        out.append(digit_str(n % 10));
        assert(decimal(n as nat) == decimal((n / 10) as nat) + seq![digit_char((n % 10) as nat)]);
        assert(decimal((n / 10) as nat) == decimal((n / 100) as nat) + seq![
            digit_char(((n / 10) % 10) as nat),
        ]);
    } else if n >= 10 {
        out.append(digit_str(n / 10));
        out.append(digit_str(n % 10));
        assert(decimal(n as nat) == decimal((n / 10) as nat) + seq![digit_char((n % 10) as nat)]);
    } else {
        out.append(digit_str(n));
    }
}

/// The UTM zone of the 6° band index `band = floor((lon + 180) / 6)`:
/// `band + 1`, clamped to `1..=60` (so the `lon = +180` edge, band 60, folds
/// back into zone 60).
pub fn zone_for_band(band: i32) -> (zone: u8)
    ensures
        zone == zone_of_band(band as int),
        1 <= zone <= 60,
        0 <= band < 59 ==> zone == band + 1,
        band < 0 ==> zone == 1,
        band >= 59 ==> zone == 60,
{
    if band < 0 {
        1
    } else if band >= 59 {
        60
    } else {
        band as u8 + 1
    }
}

/// Central meridian of a zone, degrees (`6·zone − 183`).
pub fn zone_central_meridian(zone: u8) -> (lon: i32)
    ensures
        lon == central_meridian(zone as int),
        lon == 6 * zone - 183,
{
    6 * (zone as i32) - 183
}

/// Build the UTM proj string for a zone/hemisphere, e.g.
/// `+proj=utm +zone=31 +ellps=WGS84 +units=m +no_defs`.
pub fn utm_proj_string(zone: u8, south: bool) -> (s: String)
    ensures
        s@ == utm_proj_spec(zone as nat, south),
        south ==> s@ == "+proj=utm +zone="@ + decimal(zone as nat)
            + " +south +ellps=WGS84 +units=m +no_defs"@,
        !south ==> s@ == "+proj=utm +zone="@ + decimal(zone as nat)
            + " +ellps=WGS84 +units=m +no_defs"@,
{
    proof {
        lemma_utm_proj_string_literal(zone as nat, south);
    }
    let mut s = String::from_str("+proj=utm +zone=");
    push_decimal(&mut s, zone);
    if south {
        s.append(" +south");
    } else {
        proof {
            reveal_strlit("");
        }
        assert(s@ == s@ + ""@);
    }
    s.append(" +ellps=WGS84 +units=m +no_defs");
    s
}

/// A project's pinned coordinate reference system: one UTM zone + hemisphere,
/// carrying the pinned UTM projection and the WGS84 longlat projection.
pub struct ProjectCrs {
    /// UTM zone `1..=60`.
    pub utm_zone: u8,
    /// Southern hemisphere (adds `+south`, false-northing 10 000 000 m).
    pub south: bool,
    /// The pinned UTM projection (`+proj=utm ...`).
    proj: Proj,
    /// The WGS84 longlat projection (radians on the wire).
    wgs84: Proj,
}

impl ProjectCrs {
    /// The pinned UTM zone.
    pub closed spec fn pinned_zone(&self) -> u8 {
        self.utm_zone
    }

    /// Whether the pinned zone is the southern-hemisphere one.
    pub closed spec fn pinned_south(&self) -> bool {
        self.south
    }

    /// The pinned UTM projection.
    pub closed spec fn utm_projection(&self) -> Proj {
        self.proj
    }

    /// The WGS84 longlat projection.
    pub closed spec fn wgs84_projection(&self) -> Proj {
        self.wgs84
    }

    /// The pinned UTM projection, for the coordinate transforms.
    pub fn proj(&self) -> (p: &Proj)
        ensures
            *p == self.utm_projection(),
    {
        &self.proj
    }

    /// The WGS84 longlat projection, for the coordinate transforms.
    pub fn wgs84(&self) -> (p: &Proj)
        ensures
            *p == self.wgs84_projection(),
    {
        &self.wgs84
    }

    /// Build a CRS from an explicit zone + hemisphere. Validates `1..=60`.
    ///
    /// A zone outside `1..=60` is [`CrsError::BadZone`] with that zone's
    /// central meridian; otherwise the UTM projection is built from
    /// [`utm_proj_string`] and the WGS84 projection from the WGS84 longlat
    /// string.
    pub fn from_zone(utm_zone: u8, south: bool) -> (r: Result<ProjectCrs, CrsError>)
        ensures
            !(1 <= utm_zone <= 60) <==> r matches Err(CrsError::BadZone { .. }),
            r matches Err(CrsError::BadZone { lon }) ==> lon == central_meridian(utm_zone as int)
                && lon == 6 * utm_zone - 183,
            1 <= utm_zone <= 60 <==> r is Ok,
            r matches Ok(c) ==> {
                &&& c.pinned_zone() == utm_zone
                &&& c.pinned_south() == south
                &&& proj_source(c.utm_projection()) == utm_proj_spec(utm_zone as nat, south)
                &&& proj_source(c.wgs84_projection()) == wgs84_proj_spec()
            },
    {
        if !(1 <= utm_zone && utm_zone <= 60) {
            return Err(CrsError::BadZone { lon: zone_central_meridian(utm_zone) });
        }
        let utm = utm_proj_string(utm_zone, south);
        assert(built_proj_string(utm@)) by {
            assert(utm@ == utm_proj_spec(utm_zone as nat, south));
        }
        let proj = parse_proj(utm.as_str()).unwrap();
        let wgs84 = parse_proj("+proj=longlat +ellps=WGS84 +datum=WGS84 +no_defs").unwrap();
        Ok(ProjectCrs { utm_zone, south, proj, wgs84 })
    }

    /// The pinned-CRS label, e.g. `"utm-31n"` / `"utm-33s"`. Descriptive only.
    pub fn label(&self) -> (s: String)
        ensures
            s@ == crs_label(self.pinned_zone() as nat, self.pinned_south()),
            s@ == "utm-"@ + decimal(self.pinned_zone() as nat) + seq![
                if self.pinned_south() {
                    's'
                } else {
                    'n'
                },
            ],
    {
        proof {
            lemma_label_literal(self.utm_zone as nat, self.south);
        }
        let mut s = String::from_str("utm-");
        push_decimal(&mut s, self.utm_zone);
        if self.south {
            s.append("s");
        } else {
            s.append("n");
        }
        s
    }

    /// The UTM proj string for persistence/logging.
    pub fn proj_string(&self) -> (s: String)
        ensures
            s@ == utm_proj_spec(self.pinned_zone() as nat, self.pinned_south()),
    {
        utm_proj_string(self.utm_zone, self.south)
    }
}

} // verus!
