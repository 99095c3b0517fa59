//! Terrain tiles from the PlanOps Atlas catalog: which world a request
//! names, which catalog entry and layer serve it, whether catalog metadata
//! can be trusted, which tiles exist, and the checks on the provider's
//! answers.
//!
//! Sizes, origins and scale factors are binary64 values carried as their
//! bit patterns (see [`crate::float_bits`]). The two checks that need
//! floating-point arithmetic, whether a catalog size is within 0.01 of the
//! expected size and how many tiles span the world at a zoom level, are
//! computed by the caller and passed in.
use crate::bridge::{decimal, push_decimal};
use crate::float_bits::{finite, finite_positive, is_finite, is_finite_positive};
use crate::paa::{be_u32_at, png_dimensions, png_header};
use crate::text::{
    ascii_lower_seq, chars_of, clone_string, eq_ignore_ascii_case, eq_ignore_case, has_prefix,
    is_ascii_alphanumeric, is_valid_text, lit, starts_with, str_eq, string_from_chars, trim,
    trim_spec, lower_chars, valid_text, ascii_alphanumeric,
};
use vstd::prelude::*;

verus! {

broadcast use vstd::string::group_string_axioms;

/// Most bytes of a map's metadata.
pub const MAX_METADATA_BYTES: usize = 262144;

/// Most bytes of the whole catalog.
pub const MAX_CATALOG_BYTES: usize = 2097152;

/// Most maps in the catalog.
pub const MAX_CATALOG_MAPS: usize = 4096;

/// Most bytes of one tile.
pub const MAX_TILE_BYTES: usize = 2097152;

/// Largest tile width or height, in pixels.
pub const MAX_TILE_DIMENSION: u32 = 2048;

/// Longest world name, in bytes.
pub const MAX_WORLD_NAME_BYTES: usize = 128;

/// Longest display name or attribution, in bytes.
pub const MAX_METADATA_TEXT_BYTES: usize = 512;

/// Highest zoom level.
pub const MAX_ZOOM: u8 = 12;

/// Smallest tile size.
pub const MIN_TILE_SIZE: u16 = 64;

/// Largest tile size.
pub const MAX_TILE_SIZE: u16 = 1024;

/// Bit pattern of `1.0`, the smallest accepted world size in metres.
pub const MIN_WORLD_SIZE_BITS: u64 = 0x3FF0_0000_0000_0000;

/// Bit pattern of `1_000_000.0`, the largest accepted world size in metres.
pub const MAX_WORLD_SIZE_BITS: u64 = 0x412E_8480_0000_0000;

/// Why terrain could not be served.
#[derive(Debug, Clone, Copy, PartialEq, Eq, Structural)]
pub enum TerrainError {
    Unsupported,
    InvalidCoordinate,
    CatalogUnavailable,
    InvalidCatalogData,
    CacheUnavailable,
}

/// The message of a terrain error.
pub open spec fn terrain_error_message(error: TerrainError) -> Seq<char> {
    match error {
        TerrainError::Unsupported => "unsupported terrain"@,
        TerrainError::InvalidCoordinate => "invalid tile coordinate"@,
        TerrainError::CatalogUnavailable => "terrain catalog unavailable"@,
        TerrainError::InvalidCatalogData => "terrain catalog returned invalid data"@,
        TerrainError::CacheUnavailable => "terrain cache unavailable"@,
    }
}

impl TerrainError {
    /// The error's message.
    pub fn describe(&self) -> (r: &'static str)
        ensures
            r@ == terrain_error_message(*self),
    {
        match self {
            TerrainError::Unsupported => "unsupported terrain",
            TerrainError::InvalidCoordinate => "invalid tile coordinate",
            TerrainError::CatalogUnavailable => "terrain catalog unavailable",
            TerrainError::InvalidCatalogData => "terrain catalog returned invalid data",
            TerrainError::CacheUnavailable => "terrain cache unavailable",
        }
    }

    /// The HTTP status the companion answers with: 404 for terrain or
    /// tiles that do not exist, 502 when the catalog cannot be reached, 503
    /// for bad catalog data or an unusable cache.
    pub fn status_code(&self) -> (r: u16)
        ensures
            r == match self {
                TerrainError::Unsupported | TerrainError::InvalidCoordinate => 404u16,
                TerrainError::CatalogUnavailable => 502u16,
                TerrainError::InvalidCatalogData | TerrainError::CacheUnavailable => 503u16,
            },
    {
        match self {
            TerrainError::Unsupported | TerrainError::InvalidCoordinate => 404,
            TerrainError::CatalogUnavailable => 502,
            TerrainError::InvalidCatalogData | TerrainError::CacheUnavailable => 503,
        }
    }
}

// ---------------------------------------------------------------------------
// World names
// ---------------------------------------------------------------------------

/// A character allowed in a world name: ASCII letters, digits, `_`, `-`.
pub open spec fn is_world_char(c: char) -> bool {
    is_ascii_alphanumeric(c) || c == '_' || c == '-'
}

/// `normalized_world_name`: the trimmed, lower-cased name if it is 1 to 128
/// allowed characters. (Such a name is ASCII, so its length in bytes is its
/// length in characters.)
pub open spec fn normalized_world_name_spec(s: Seq<char>) -> Option<Seq<char>> {
    let normalized = ascii_lower_seq(trim_spec(s));
    if normalized.len() == 0 || normalized.len() > MAX_WORLD_NAME_BYTES || !(forall|i: int|
        0 <= i < normalized.len() ==> is_world_char(#[trigger] normalized[i])) {
        None
    } else {
        Some(normalized)
    }
}

/// `normalized_world_name`: see [`normalized_world_name_spec`].
pub fn normalized_world_name(world_name: &str) -> (r: Option<String>)
    ensures
        match r {
            Some(name) => normalized_world_name_spec(world_name@) == Some(name@),
            None => normalized_world_name_spec(world_name@) is None,
        },
{
    let trimmed = trim(world_name);
    let trimmed_chars = chars_of(trimmed.as_str());
    let normalized = lower_chars(&trimmed_chars);
    if normalized.len() == 0 || normalized.len() > MAX_WORLD_NAME_BYTES {
        return None;
    }
    let mut i: usize = 0;
    while i < normalized.len()
        invariant
            i <= normalized@.len(),
            normalized@ == ascii_lower_seq(trim_spec(world_name@)),
            forall|k: int| 0 <= k < i ==> is_world_char(#[trigger] normalized@[k]),
        decreases normalized@.len() - i,
    {
        let c = normalized[i];
        if !(ascii_alphanumeric(c) || c == '_' || c == '-') {
            assert(!is_world_char(normalized@[i as int]));
            return None;
        }
        i = i + 1;
    }
    Some(string_from_chars(&normalized))
}

/// A request for a world's terrain: the name as reported (trimmed), its
/// normalised form, which keys the cache, and the world size reported by
/// the game.
#[derive(Debug, Clone, PartialEq, Eq)]
pub struct TerrainRequest {
    pub world_name: String,
    pub cache_key: String,
    /// Bit pattern of the world size in metres.
    pub expected_size: u64,
}

/// `terrain_request`: a world size from 1 to 1,000,000 metres and a world
/// name that normalises. (Finite non-negative binary64 values are ordered
/// as their bit patterns, and every other pattern lies outside the bounds.)
pub open spec fn terrain_request_spec(world_name: Seq<char>, expected_size: u64) -> Option<
    (Seq<char>, Seq<char>),
> {
    if expected_size < MIN_WORLD_SIZE_BITS || expected_size > MAX_WORLD_SIZE_BITS {
        None
    } else {
        match normalized_world_name_spec(trim_spec(world_name)) {
            Some(key) => Some((trim_spec(world_name), key)),
            None => None,
        }
    }
}

/// `terrain_request`: see [`terrain_request_spec`]; the request holds the
/// trimmed name, its normalised form and the size.
pub fn terrain_request(world_name: &str, expected_size: u64) -> (r: Option<TerrainRequest>)
    ensures
        match r {
            Some(request) => terrain_request_spec(world_name@, expected_size) == Some(
                (request.world_name@, request.cache_key@),
            ) && request.expected_size == expected_size,
            None => terrain_request_spec(world_name@, expected_size) is None,
        },
{
    if expected_size < MIN_WORLD_SIZE_BITS || expected_size > MAX_WORLD_SIZE_BITS {
        return None;
    }
    let trimmed = trim(world_name);
    match normalized_world_name(trimmed.as_str()) {
        Some(cache_key) => Some(TerrainRequest { world_name: trimmed, cache_key, expected_size }),
        None => None,
    }
}

/// The names of the maps whose catalog entries are known without
/// consulting the catalog.
pub open spec fn is_known_catalog_name(name: Seq<char>) -> bool {
    name == "altis"@ || name == "lythium"@ || name == "tanoa"@
}

/// `known_catalog_name`: the catalog name of a well-known normalised world
/// name, which is the name itself.
pub fn known_catalog_name(normalized_world_name: &str) -> (r: Option<&'static str>)
    ensures
        r is Some <==> is_known_catalog_name(normalized_world_name@),
        r matches Some(name) ==> name@ == normalized_world_name@,
{
    if str_eq(normalized_world_name, "altis") {
        Some("altis")
    } else if str_eq(normalized_world_name, "lythium") {
        Some("lythium")
    } else if str_eq(normalized_world_name, "tanoa") {
        Some("tanoa")
    } else {
        None
    }
}

/// A catalog name: a world name that is already normalised.
pub open spec fn is_valid_catalog_name(value: Seq<char>) -> bool {
    normalized_world_name_spec(value) == Some(value)
}

/// `valid_catalog_name`.
pub fn valid_catalog_name(value: &str) -> (r: bool)
    ensures
        r == is_valid_catalog_name(value@),
{
    match normalized_world_name(value) {
        Some(normalized) => str_eq(normalized.as_str(), value),
        None => false,
    }
}

// ---------------------------------------------------------------------------
// Catalog entries
// ---------------------------------------------------------------------------

/// A tile layer of a catalog entry.
#[derive(Debug, Clone, PartialEq, Eq)]
pub struct CatalogLayer {
    pub game_map_layer_id: u32,
    pub layer_type: String,
    pub format: String,
    pub min_zoom: u8,
    pub max_zoom: u8,
    pub default_zoom: u8,
    pub is_default: bool,
    pub tile_size: u16,
    /// Bit pattern of the horizontal scale factor.
    pub factor_x: u64,
    /// Bit pattern of the vertical scale factor.
    pub factor_y: u64,
}

/// A map of the catalog.
#[derive(Debug, Clone, PartialEq, Eq)]
pub struct CatalogMap {
    pub attribution: Option<String>,
    pub append_attribution: Option<String>,
    pub game_map_id: u32,
    pub english_title: String,
    /// Bit pattern of the size in metres.
    pub size_in_meters: u64,
    pub name: String,
    pub aliases: Option<Vec<String>>,
    /// Bit pattern of the horizontal origin.
    pub origin_x: u64,
    /// Bit pattern of the vertical origin.
    pub origin_y: u64,
    pub layers: Vec<CatalogLayer>,
}

/// The catalog entry's name normalises to the requested world.
pub open spec fn names_world(map: CatalogMap, key: Seq<char>) -> bool {
    normalized_world_name_spec(map.name@) == Some(key)
}

/// One of the catalog entry's aliases normalises to the requested world.
pub open spec fn aliases_world(map: CatalogMap, key: Seq<char>) -> bool {
    match map.aliases {
        Some(aliases) => exists|k: int|
            0 <= k < aliases@.len() && normalized_world_name_spec(#[trigger] aliases@[k]@) == Some(
                key,
            ),
        None => false,
    }
}

/// `i` is the first entry named after the world.
pub open spec fn is_first_named(catalog: Seq<CatalogMap>, key: Seq<char>, i: int) -> bool {
    &&& 0 <= i < catalog.len()
    &&& names_world(catalog[i], key)
    &&& forall|j: int| 0 <= j < i ==> !names_world(#[trigger] catalog[j], key)
}

/// `i` is the first entry of the right size with an alias for the world.
pub open spec fn is_first_aliased(
    catalog: Seq<CatalogMap>,
    key: Seq<char>,
    size_matches: Seq<bool>,
    i: int,
) -> bool {
    &&& 0 <= i < catalog.len()
    &&& size_matches[i] && aliases_world(catalog[i], key)
    &&& forall|j: int| 0 <= j < i ==> !(size_matches[j] && aliases_world(#[trigger] catalog[j], key))
}

/// `select_catalog_map`: the first entry named after the world, if its
/// size matches; when no entry has the name, the first entry of the right
/// size with an alias for the world. `size_matches[i]` says whether entry
/// `i` has a finite size within 0.01 of the expected size.
pub open spec fn select_spec(catalog: Seq<CatalogMap>, key: Seq<char>, size_matches: Seq<bool>) -> Option<
    int,
> {
    if exists|i: int| is_first_named(catalog, key, i) {
        let i = choose|i: int| is_first_named(catalog, key, i);
        if size_matches[i] {
            Some(i)
        } else {
            None
        }
    } else if exists|i: int| is_first_aliased(catalog, key, size_matches, i) {
        Some(choose|i: int| is_first_aliased(catalog, key, size_matches, i))
    } else {
        None
    }
}

/// An entry named after the world makes the first such entry exist.
proof fn lemma_first_named_exists(catalog: Seq<CatalogMap>, key: Seq<char>, j: int)
    requires
        0 <= j < catalog.len(),
        names_world(catalog[j], key),
    ensures
        exists|i: int| is_first_named(catalog, key, i),
    decreases j,
{
    if forall|k: int| 0 <= k < j ==> !names_world(#[trigger] catalog[k], key) {
        assert(is_first_named(catalog, key, j));
    } else {
        let k = choose|k: int| 0 <= k < j && names_world(#[trigger] catalog[k], key);
        lemma_first_named_exists(catalog, key, k);
    }
}

/// Law (terrain by name or alias): the selected catalog entry has the
/// expected size and is named after the world or has an alias for it; when
/// an entry is named after the world, only the first such entry can be
/// selected, so a named map of the wrong size is never replaced by an alias;
/// when none is, an entry of the right size with an alias for the world is
/// always found.
pub proof fn law_catalog_selection(catalog: Seq<CatalogMap>, key: Seq<char>, size_matches: Seq<bool>)
    requires
        size_matches.len() == catalog.len(),
    ensures
        select_spec(catalog, key, size_matches) matches Some(i) ==> {
            &&& 0 <= i < catalog.len()
            &&& size_matches[i]
            &&& names_world(catalog[i], key) || aliases_world(catalog[i], key)
        },
        forall|j: int|
            0 <= j < catalog.len() && #[trigger] names_world(catalog[j], key) ==> match select_spec(
                catalog,
                key,
                size_matches,
            ) {
                Some(i) => is_first_named(catalog, key, i),
                None => exists|f: int| is_first_named(catalog, key, f) && !size_matches[f],
            },
        (forall|j: int| 0 <= j < catalog.len() ==> !#[trigger] names_world(catalog[j], key)) && (exists|j: int|
            0 <= j < catalog.len() && size_matches[j] && #[trigger] aliases_world(catalog[j], key))
            ==> select_spec(catalog, key, size_matches) is Some,
{
    assert forall|j: int|
        0 <= j < catalog.len() && #[trigger] names_world(catalog[j], key) implies match select_spec(
            catalog,
            key,
            size_matches,
        ) {
            Some(i) => is_first_named(catalog, key, i),
            None => exists|f: int| is_first_named(catalog, key, f) && !size_matches[f],
        } by {
        lemma_first_named_exists(catalog, key, j);
    }
    if (forall|j: int| 0 <= j < catalog.len() ==> !#[trigger] names_world(catalog[j], key)) && (exists|
        j: int,
    | 0 <= j < catalog.len() && size_matches[j] && #[trigger] aliases_world(catalog[j], key)) {
        let j = choose|j: int|
            0 <= j < catalog.len() && size_matches[j] && #[trigger] aliases_world(catalog[j], key);
        lemma_first_aliased_exists(catalog, key, size_matches, j);
    }
}

/// An entry of the right size with an alias for the world makes the first
/// such entry exist.
proof fn lemma_first_aliased_exists(catalog: Seq<CatalogMap>, key: Seq<char>, size_matches: Seq<bool>, j: int)
    requires
        0 <= j < catalog.len(),
        size_matches.len() == catalog.len(),
        size_matches[j] && aliases_world(catalog[j], key),
    ensures
        exists|i: int| is_first_aliased(catalog, key, size_matches, i),
    decreases j,
{
    if forall|k: int| 0 <= k < j ==> !(size_matches[k] && aliases_world(#[trigger] catalog[k], key)) {
        assert(is_first_aliased(catalog, key, size_matches, j));
    } else {
        let k = choose|k: int| 0 <= k < j && (size_matches[k] && aliases_world(#[trigger] catalog[k], key));
        lemma_first_aliased_exists(catalog, key, size_matches, k);
    }
}

/// Whether a list of names holds one that normalises to `key`.
fn any_alias_names(aliases: &Vec<String>, key: &str) -> (r: bool)
    ensures
        r == exists|k: int|
            0 <= k < aliases@.len() && normalized_world_name_spec(#[trigger] aliases@[k]@) == Some(
                key@,
            ),
{
    let mut k: usize = 0;
    while k < aliases.len()
        invariant
            k <= aliases@.len(),
            forall|j: int|
                0 <= j < k ==> normalized_world_name_spec(#[trigger] aliases@[j]@) != Some(key@),
        decreases aliases@.len() - k,
    {
        let found = match normalized_world_name(aliases[k].as_str()) {
            Some(normalized) => str_eq(normalized.as_str(), key),
            None => false,
        };
        if found {
            return true;
        }
        k = k + 1;
    }
    false
}

fn map_names_world(map: &CatalogMap, key: &str) -> (r: bool)
    ensures
        r == names_world(*map, key@),
{
    match normalized_world_name(map.name.as_str()) {
        Some(normalized) => str_eq(normalized.as_str(), key),
        None => false,
    }
}

fn map_aliases_world(map: &CatalogMap, key: &str) -> (r: bool)
    ensures
        r == aliases_world(*map, key@),
{
    match &map.aliases {
        Some(aliases) => any_alias_names(aliases, key),
        None => false,
    }
}

/// `select_catalog_map`: see [`select_spec`]; the chosen entry is taken
/// out of the catalog.
pub fn select_catalog_map(
    catalog: Vec<CatalogMap>,
    request: &TerrainRequest,
    size_matches: &Vec<bool>,
) -> (r: Option<CatalogMap>)
    requires
        size_matches@.len() == catalog@.len(),
    ensures
        match select_spec(catalog@, request.cache_key@, size_matches@) {
            Some(i) => r == Some(catalog@[i]),
            None => r is None,
        },
{
    let key = request.cache_key.as_str();
    let ghost all = catalog@;
    let mut i: usize = 0;
    while i < catalog.len()
        invariant
            i <= catalog@.len(),
            all == catalog@,
            size_matches@.len() == all.len(),
            key@ == request.cache_key@,
            forall|j: int| 0 <= j < i ==> !names_world(#[trigger] all[j], key@),
        decreases catalog@.len() - i,
    {
        if map_names_world(&catalog[i], key) {
            proof {
                assert(is_first_named(all, key@, i as int));
                let c = choose|c: int| is_first_named(all, key@, c);
                if c < i {
                    assert(!names_world(all[c], key@));
                } else if c > i {
                    assert(!names_world(all[i as int], key@));
                }
                assert(c == i);
                assert(select_spec(all, key@, size_matches@) == (if size_matches@[i as int] {
                    Some(i as int)
                } else {
                    None
                }));
            }
            if !size_matches[i] {
                return None;
            }
            let mut catalog = catalog;
            return Some(catalog.remove(i));
        }
        i = i + 1;
    }
    assert(!exists|c: int| is_first_named(all, key@, c));
    let mut k: usize = 0;
    while k < catalog.len()
        invariant
            k <= catalog@.len(),
            all == catalog@,
            size_matches@.len() == all.len(),
            key@ == request.cache_key@,
            !exists|c: int| is_first_named(all, key@, c),
            forall|j: int| 0 <= j < k ==> !(size_matches@[j] && aliases_world(#[trigger] all[j], key@)),
        decreases catalog@.len() - k,
    {
        if size_matches[k] && map_aliases_world(&catalog[k], key) {
            proof {
                assert(is_first_aliased(all, key@, size_matches@, k as int));
                let c = choose|c: int| is_first_aliased(all, key@, size_matches@, c);
                if c < k {
                    assert(!(size_matches@[c] && aliases_world(all[c], key@)));
                } else if c > k {
                    assert(!(size_matches@[k as int] && aliases_world(all[k as int], key@)));
                }
                assert(c == k);
                assert(select_spec(all, key@, size_matches@) == Some(k as int));
            }
            let mut catalog = catalog;
            return Some(catalog.remove(k));
        }
        k = k + 1;
    }
    None
}

// ---------------------------------------------------------------------------
// Terrain metadata
// ---------------------------------------------------------------------------

/// What the browser needs to draw a world's tiles.
#[derive(Debug, Clone, PartialEq, Eq)]
pub struct TerrainMetadata {
    pub world_name: String,
    pub catalog_name: String,
    pub display_name: String,
    pub attribution: String,
    /// Bit pattern of the size in metres.
    pub size_in_meters: u64,
    /// Bit pattern of the horizontal origin.
    pub origin_x: u64,
    /// Bit pattern of the vertical origin.
    pub origin_y: u64,
    pub map_id: u32,
    pub layer_id: u32,
    pub min_zoom: u8,
    pub max_zoom: u8,
    pub default_zoom: u8,
    pub tile_size: u16,
    /// Bit pattern of the horizontal scale factor.
    pub factor_x: u64,
    /// Bit pattern of the vertical scale factor.
    pub factor_y: u64,
}

/// Terrain metadata with its texts as characters.
pub struct MetadataView {
    pub world_name: Seq<char>,
    pub catalog_name: Seq<char>,
    pub display_name: Seq<char>,
    pub attribution: Seq<char>,
    pub size_in_meters: u64,
    pub origin_x: u64,
    pub origin_y: u64,
    pub map_id: u32,
    pub layer_id: u32,
    pub min_zoom: u8,
    pub max_zoom: u8,
    pub default_zoom: u8,
    pub tile_size: u16,
    pub factor_x: u64,
    pub factor_y: u64,
}

/// The view of terrain metadata.
pub open spec fn metadata_view(m: TerrainMetadata) -> MetadataView {
    MetadataView {
        world_name: m.world_name@,
        catalog_name: m.catalog_name@,
        display_name: m.display_name@,
        attribution: m.attribution@,
        size_in_meters: m.size_in_meters,
        origin_x: m.origin_x,
        origin_y: m.origin_y,
        map_id: m.map_id,
        layer_id: m.layer_id,
        min_zoom: m.min_zoom,
        max_zoom: m.max_zoom,
        default_zoom: m.default_zoom,
        tile_size: m.tile_size,
        factor_x: m.factor_x,
        factor_y: m.factor_y,
    }
}

/// `validate_metadata`: the metadata is for the requested world (up to
/// ASCII case) and, when one is expected, for that catalog name; its
/// catalog name is normalised, its texts are 1 to 512 bytes without NUL,
/// its size matches the expected size (`size_matches`, computed by the
/// caller: within 0.01), its size, origins and factors are finite and the
/// factors positive, its ids are non-zero, its zoom levels are ordered and
/// at most 12, and its tile size is 64 to 1024 pixels.
pub open spec fn metadata_valid(
    m: MetadataView,
    requested_world: Seq<char>,
    expected_catalog_name: Option<Seq<char>>,
    size_matches: bool,
) -> bool {
    &&& eq_ignore_ascii_case(m.world_name, requested_world)
    &&& is_valid_catalog_name(m.catalog_name)
    &&& match expected_catalog_name {
        Some(expected) => m.catalog_name == expected,
        None => true,
    }
    &&& is_valid_text(m.display_name, MAX_METADATA_TEXT_BYTES as nat)
    &&& is_valid_text(m.attribution, MAX_METADATA_TEXT_BYTES as nat)
    &&& size_matches
    &&& is_finite(m.size_in_meters)
    &&& is_finite(m.origin_x)
    &&& is_finite(m.origin_y)
    &&& is_finite_positive(m.factor_x)
    &&& is_finite_positive(m.factor_y)
    &&& m.map_id > 0
    &&& m.layer_id > 0
    &&& m.min_zoom <= m.default_zoom <= m.max_zoom <= MAX_ZOOM
    &&& MIN_TILE_SIZE <= m.tile_size <= MAX_TILE_SIZE
}

/// `validate_metadata`: see [`metadata_valid`]; `size_matches` says
/// whether the metadata's size is within 0.01 of the request's.
pub fn validate_metadata(
    metadata: &TerrainMetadata,
    request: &TerrainRequest,
    expected_catalog_name: Option<&str>,
    size_matches: bool,
) -> (r: Result<(), TerrainError>)
    ensures
        r is Ok <==> metadata_valid(
            metadata_view(*metadata),
            request.world_name@,
            match expected_catalog_name {
                Some(name) => Some(name@),
                None => None,
            },
            size_matches,
        ),
        r matches Err(e) ==> e == TerrainError::InvalidCatalogData,
{
    let expected_ok = match expected_catalog_name {
        Some(expected) => str_eq(metadata.catalog_name.as_str(), expected),
        None => true,
    };
    let valid = eq_ignore_case(metadata.world_name.as_str(), request.world_name.as_str())
        && valid_catalog_name(metadata.catalog_name.as_str()) && expected_ok && valid_text(
        metadata.display_name.as_str(),
        MAX_METADATA_TEXT_BYTES,
    ) && valid_text(metadata.attribution.as_str(), MAX_METADATA_TEXT_BYTES) && size_matches
        && finite(metadata.size_in_meters) && finite(metadata.origin_x) && finite(
        metadata.origin_y,
    ) && finite_positive(metadata.factor_x) && finite_positive(metadata.factor_y)
        && metadata.map_id > 0 && metadata.layer_id > 0 && metadata.min_zoom
        <= metadata.default_zoom && metadata.default_zoom <= metadata.max_zoom
        && metadata.max_zoom <= MAX_ZOOM && MIN_TILE_SIZE <= metadata.tile_size
        && metadata.tile_size <= MAX_TILE_SIZE;
    if valid {
        Ok(())
    } else {
        Err(TerrainError::InvalidCatalogData)
    }
}

/// A layer that serves tiles: the default layer, topographic, with PNG
/// tiles.
pub open spec fn is_usable_layer(layer: CatalogLayer) -> bool {
    &&& layer.is_default
    &&& layer.layer_type@ == "Topographic"@
    &&& (layer.format@ == "PngOnly"@ || layer.format@ == "PngAndWebp"@)
}

/// `i` is the first usable layer.
pub open spec fn is_first_usable_layer(layers: Seq<CatalogLayer>, i: int) -> bool {
    &&& 0 <= i < layers.len()
    &&& is_usable_layer(layers[i])
    &&& forall|j: int| 0 <= j < i ==> !is_usable_layer(#[trigger] layers[j])
}

/// The attribution shown for a map: its own attribution if it has one,
/// else the appended one, unless the chosen text is blank, in which case
/// `PlanOps Atlas`.
pub open spec fn attribution_spec(map: CatalogMap) -> Seq<char> {
    let chosen = match map.attribution {
        Some(text) => Some(text@),
        None => match map.append_attribution {
            Some(text) => Some(text@),
            None => None,
        },
    };
    match chosen {
        Some(text) => if trim_spec(text).len() != 0 {
            text
        } else {
            "PlanOps Atlas"@
        },
        None => "PlanOps Atlas"@,
    }
}

/// The metadata a catalog entry gives for a request, with layer `l`.
pub open spec fn catalog_metadata_view(map: CatalogMap, request: TerrainRequest, l: int) -> MetadataView {
    let layer = map.layers@[l];
    MetadataView {
        world_name: request.world_name@,
        catalog_name: map.name@,
        display_name: map.english_title@,
        attribution: attribution_spec(map),
        size_in_meters: map.size_in_meters,
        origin_x: map.origin_x,
        origin_y: map.origin_y,
        map_id: map.game_map_id,
        layer_id: layer.game_map_layer_id,
        min_zoom: layer.min_zoom,
        max_zoom: layer.max_zoom,
        default_zoom: layer.default_zoom,
        tile_size: layer.tile_size,
        factor_x: layer.factor_x,
        factor_y: layer.factor_y,
    }
}

/// `catalog_metadata` accepts an entry: its name is a catalog name, the
/// expected one if one is expected, it has a usable layer, and the
/// metadata made with its first usable layer is valid.
pub open spec fn catalog_accepted(
    map: CatalogMap,
    request: TerrainRequest,
    expected_catalog_name: Option<Seq<char>>,
    size_matches: bool,
) -> bool {
    &&& is_valid_catalog_name(map.name@)
    &&& match expected_catalog_name {
        Some(expected) => map.name@ == expected,
        None => true,
    }
    &&& exists|l: int| is_first_usable_layer(map.layers@, l)
    &&& metadata_valid(
        catalog_metadata_view(
            map,
            request,
            choose|l: int| is_first_usable_layer(map.layers@, l),
        ),
        request.world_name@,
        Some(map.name@),
        size_matches,
    )
}

/// Law (the first default topographic PNG layer is used): take the first
/// layer of a catalog entry that is the default layer, topographic, with
/// `PngOnly` or `PngAndWebp` tiles. The entry is accepted exactly when its
/// name is valid (and the expected one, if one is expected) and the
/// metadata made with that layer is valid, and its metadata is made with
/// that layer; an accepted entry's metadata is always made with such a
/// layer, the first one.
pub proof fn law_catalog_uses_first_png_topographic_layer(
    map: CatalogMap,
    request: TerrainRequest,
    expected_catalog_name: Option<Seq<char>>,
    size_matches: bool,
    l: int,
)
    ensures
        ({
            let layers = map.layers@;
            &&& 0 <= l < layers.len()
            &&& layers[l].is_default && layers[l].layer_type@ == "Topographic"@
            &&& (layers[l].format@ == "PngOnly"@ || layers[l].format@ == "PngAndWebp"@)
            &&& forall|j: int|
                0 <= j < l ==> !(#[trigger] layers[j].is_default && layers[j].layer_type@ == "Topographic"@
                    && (layers[j].format@ == "PngOnly"@ || layers[j].format@ == "PngAndWebp"@))
        }) ==> {
            &&& catalog_accepted(map, request, expected_catalog_name, size_matches) <==> {
                &&& is_valid_catalog_name(map.name@)
                &&& match expected_catalog_name {
                    Some(expected) => map.name@ == expected,
                    None => true,
                }
                &&& metadata_valid(
                    catalog_metadata_view(map, request, l),
                    request.world_name@,
                    Some(map.name@),
                    size_matches,
                )
            }
            &&& catalog_metadata_view(
                map,
                request,
                choose|k: int| is_first_usable_layer(map.layers@, k),
            ) == catalog_metadata_view(map, request, l)
        },
        catalog_accepted(map, request, expected_catalog_name, size_matches) ==> {
            let layers = map.layers@;
            let k = choose|k: int| is_first_usable_layer(map.layers@, k);
            &&& 0 <= k < layers.len()
            &&& layers[k].is_default && layers[k].layer_type@ == "Topographic"@
            &&& (layers[k].format@ == "PngOnly"@ || layers[k].format@ == "PngAndWebp"@)
            &&& forall|j: int|
                0 <= j < k ==> !(#[trigger] layers[j].is_default && layers[j].layer_type@ == "Topographic"@
                    && (layers[j].format@ == "PngOnly"@ || layers[j].format@ == "PngAndWebp"@))
        },
{
    let layers = map.layers@;
    if 0 <= l < layers.len() && layers[l].is_default && layers[l].layer_type@ == "Topographic"@ && (
    layers[l].format@ == "PngOnly"@ || layers[l].format@ == "PngAndWebp"@) && (forall|j: int|
        0 <= j < l ==> !(#[trigger] layers[j].is_default && layers[j].layer_type@ == "Topographic"@ && (
        layers[j].format@ == "PngOnly"@ || layers[j].format@ == "PngAndWebp"@))) {
        assert forall|j: int| 0 <= j < l implies !is_usable_layer(#[trigger] layers[j]) by {
            assert(!(layers[j].is_default && layers[j].layer_type@ == "Topographic"@ && (layers[j].format@
                == "PngOnly"@ || layers[j].format@ == "PngAndWebp"@)));
        }
        assert(is_first_usable_layer(layers, l));
        let k = choose|k: int| is_first_usable_layer(layers, k);
        if k < l {
            assert(!is_usable_layer(layers[k]));
        } else if l < k {
            assert(!is_usable_layer(layers[l]));
        }
        assert(k == l);
    }
    if catalog_accepted(map, request, expected_catalog_name, size_matches) {
        let k = choose|k: int| is_first_usable_layer(layers, k);
        assert(is_first_usable_layer(layers, k));
        assert forall|j: int| 0 <= j < k implies !(#[trigger] layers[j].is_default && layers[j].layer_type@
            == "Topographic"@ && (layers[j].format@ == "PngOnly"@ || layers[j].format@ == "PngAndWebp"@)) by {
            assert(!is_usable_layer(layers[j]));
        }
    }
}

fn usable_layer(layer: &CatalogLayer) -> (r: bool)
    ensures
        r == is_usable_layer(*layer),
{
    layer.is_default && str_eq(layer.layer_type.as_str(), "Topographic") && (str_eq(
        layer.format.as_str(),
        "PngOnly",
    ) || str_eq(layer.format.as_str(), "PngAndWebp"))
}

fn attribution_of(map: &CatalogMap) -> (r: String)
    ensures
        r@ == attribution_spec(*map),
{
    let chosen = match &map.attribution {
        Some(text) => Some(text),
        None => match &map.append_attribution {
            Some(text) => Some(text),
            None => None,
        },
    };
    match chosen {
        Some(text) => {
            if trim(text.as_str()).as_str().is_empty() {
                lit("PlanOps Atlas")
            } else {
                clone_string(text)
            }
        },
        None => lit("PlanOps Atlas"),
    }
}

/// `catalog_metadata`: the metadata of a catalog entry for a request, made
/// with its first usable layer; refused as invalid catalog data unless the
/// entry is accepted (see [`catalog_accepted`]). `size_matches` says whether
/// the entry's size is within 0.01 of the request's.
pub fn catalog_metadata(
    catalog: CatalogMap,
    request: &TerrainRequest,
    expected_catalog_name: Option<&str>,
    size_matches: bool,
) -> (r: Result<TerrainMetadata, TerrainError>)
    ensures
        ({
            let expected = match expected_catalog_name {
                Some(name) => Some(name@),
                None => None,
            };
            &&& r is Ok <==> catalog_accepted(catalog, *request, expected, size_matches)
            &&& r matches Ok(m) ==> metadata_view(m) == catalog_metadata_view(
                catalog,
                *request,
                choose|l: int| is_first_usable_layer(catalog.layers@, l),
            )
            &&& r matches Err(e) ==> e == TerrainError::InvalidCatalogData
        }),
{
    let name_ok = valid_catalog_name(catalog.name.as_str());
    let expected_ok = match expected_catalog_name {
        Some(expected) => str_eq(catalog.name.as_str(), expected),
        None => true,
    };
    if !name_ok || !expected_ok {
        return Err(TerrainError::InvalidCatalogData);
    }
    let ghost layers = catalog.layers@;
    let mut l: usize = 0;
    while l < catalog.layers.len() && !usable_layer(&catalog.layers[l])
        invariant
            l <= layers.len(),
            layers == catalog.layers@,
            forall|j: int| 0 <= j < l ==> !is_usable_layer(#[trigger] layers[j]),
        decreases layers.len() - l,
    {
        l = l + 1;
    }
    if l == catalog.layers.len() {
        proof {
            if exists|c: int| is_first_usable_layer(layers, c) {
                let c = choose|c: int| is_first_usable_layer(layers, c);
                assert(!is_usable_layer(layers[c]));
            }
        }
        return Err(TerrainError::InvalidCatalogData);
    }
    proof {
        assert(is_first_usable_layer(layers, l as int));
        let c = choose|c: int| is_first_usable_layer(layers, c);
        if c < l {
            assert(!is_usable_layer(layers[c]));
        } else if c > l {
            assert(!is_usable_layer(layers[l as int]));
        }
        assert(c == l);
    }
    let layer = &catalog.layers[l];
    let metadata = TerrainMetadata {
        world_name: clone_string(&request.world_name),
        catalog_name: clone_string(&catalog.name),
        display_name: clone_string(&catalog.english_title),
        attribution: attribution_of(&catalog),
        size_in_meters: catalog.size_in_meters,
        origin_x: catalog.origin_x,
        origin_y: catalog.origin_y,
        map_id: catalog.game_map_id,
        layer_id: layer.game_map_layer_id,
        min_zoom: layer.min_zoom,
        max_zoom: layer.max_zoom,
        default_zoom: layer.default_zoom,
        tile_size: layer.tile_size,
        factor_x: layer.factor_x,
        factor_y: layer.factor_y,
    };
    assert(metadata_view(metadata) == catalog_metadata_view(catalog, *request, l as int));
    match validate_metadata(
        &metadata,
        request,
        Some(metadata.catalog_name.as_str()),
        size_matches,
    ) {
        Ok(()) => Ok(metadata),
        Err(error) => Err(error),
    }
}

// ---------------------------------------------------------------------------
// Tiles
// ---------------------------------------------------------------------------

/// Tile coordinates, up to the size of the tile grid: a zoom
/// level within the metadata's range gives the scale `2^zoom`, from which
/// the caller computes the number of tile columns and rows.
pub fn tile_scale(metadata: &TerrainMetadata, zoom: u8) -> (r: Result<u32, TerrainError>)
    ensures
        r is Ok <==> metadata.min_zoom <= zoom <= metadata.max_zoom && zoom < 32,
        r matches Ok(scale) ==> scale == vstd::arithmetic::power2::pow2(zoom as nat),
        r matches Err(e) ==> e == TerrainError::InvalidCoordinate,
{
    if zoom < metadata.min_zoom || zoom > metadata.max_zoom || zoom >= 32 {
        return Err(TerrainError::InvalidCoordinate);
    }
    let mut scale: u32 = 1;
    let mut i: u8 = 0;
    proof {
        vstd::arithmetic::power2::lemma_pow2(0);
        assert(vstd::arithmetic::power::pow(2, 0) == 1) by {
            vstd::arithmetic::power::lemma_pow0(2);
        }
    }
    while i < zoom
        invariant
            i <= zoom < 32,
            scale == vstd::arithmetic::power2::pow2(i as nat),
        decreases zoom - i,
    {
        proof {
            vstd::arithmetic::power2::lemma_pow2_unfold((i + 1) as nat);
            vstd::arithmetic::power2::lemma_pow2_strictly_increases(i as nat, 31);
            vstd::arithmetic::power2::lemma2_to64();
        }
        scale = scale * 2;
        i = i + 1;
    }
    Ok(scale)
}

/// Tile coordinates, given the grid: a tile exists when its
/// column and row lie within the grid.
pub fn tile_in_grid(x: u32, y: u32, columns: u32, rows: u32) -> (r: Result<(), TerrainError>)
    ensures
        r is Ok <==> x < columns && y < rows,
        r matches Err(e) ==> e == TerrainError::InvalidCoordinate,
{
    if x < columns && y < rows {
        Ok(())
    } else {
        Err(TerrainError::InvalidCoordinate)
    }
}

/// A tile image: a PNG header whose width and height are both the expected
/// tile size and at most 2048 pixels.
pub open spec fn is_valid_tile_png(bytes: Seq<u8>, expected_size: u16) -> bool {
    &&& png_header(bytes)
    &&& be_u32_at(bytes, 16) == expected_size
    &&& be_u32_at(bytes, 20) == expected_size
    &&& be_u32_at(bytes, 16) <= MAX_TILE_DIMENSION
    &&& be_u32_at(bytes, 20) <= MAX_TILE_DIMENSION
}

/// `valid_png`: whether bytes can be served as a tile of the expected size.
pub fn valid_png(bytes: &[u8], expected_size: u16) -> (r: bool)
    ensures
        r == is_valid_tile_png(bytes@, expected_size),
{
    match png_dimensions(bytes) {
        Some((width, height)) => width == expected_size as u32 && height == expected_size as u32
            && width <= MAX_TILE_DIMENSION && height <= MAX_TILE_DIMENSION,
        None => false,
    }
}

// ---------------------------------------------------------------------------
// Providers and their answers
// ---------------------------------------------------------------------------

/// The main catalog provider.
pub open spec fn primary_origin() -> Seq<char> {
    "https://atlas.plan-ops.fr"@
}

/// The mirror of the catalog provider.
pub open spec fn mirror_origin() -> Seq<char> {
    "https://de.atlas.plan-ops.fr"@
}

/// The origin of a provider on the loopback interface, allowed in tests.
pub open spec fn test_origin_prefix() -> Seq<char> {
    "http://127.0.0.1:"@
}

/// `valid_provider_origin`: the provider or its mirror, or, when allowed,
/// a loopback HTTP origin.
pub open spec fn is_valid_provider_origin(origin: Seq<char>, allow_test_http: bool) -> bool {
    origin == primary_origin() || origin == mirror_origin() || (allow_test_http && has_prefix(
        origin,
        test_origin_prefix(),
    ))
}

/// `url` is an address on the provider's or the mirror's host: it begins
/// with one of their origins followed by `/`.
pub open spec fn addresses_provider(url: Seq<char>) -> bool {
    has_prefix(url, primary_origin() + "/"@) || has_prefix(url, mirror_origin() + "/"@)
}

/// Law (no request to an unrelated host): outside tests, an address made of
/// an accepted origin and a path (as the catalog, metadata and tile
/// addresses are) lies on the provider's or the mirror's host.
pub proof fn law_requests_stay_with_provider(origin: Seq<char>, path: Seq<char>)
    requires
        is_valid_provider_origin(origin, false),
        path.len() > 0,
        path[0] == '/',
    ensures
        addresses_provider(origin + path),
{
    let url = origin + path;
    assert(url.take(origin.len() + 1int) =~= origin + "/"@) by {
        reveal_strlit("/");
    }
}

/// The main catalog provider.
pub fn primary_origin_str() -> (r: &'static str)
    ensures
        r@ == primary_origin(),
{
    "https://atlas.plan-ops.fr"
}

/// The mirror of the catalog provider.
pub fn mirror_origin_str() -> (r: &'static str)
    ensures
        r@ == mirror_origin(),
{
    "https://de.atlas.plan-ops.fr"
}

/// `valid_provider_origin`.
pub fn valid_provider_origin(origin: &str, allow_test_http: bool) -> (r: bool)
    ensures
        r == is_valid_provider_origin(origin@, allow_test_http),
{
    str_eq(origin, primary_origin_str()) || str_eq(origin, mirror_origin_str()) || (allow_test_http
        && starts_with(origin, "http://127.0.0.1:"))
}

/// `with_origins`, before the client is built: the list of providers must
/// be non-empty and each one valid.
pub fn origins_acceptable(origins: &Vec<String>, allow_test_http: bool) -> (r: bool)
    ensures
        r == (origins@.len() > 0 && forall|i: int|
            0 <= i < origins@.len() ==> is_valid_provider_origin(
                #[trigger] origins@[i]@,
                allow_test_http,
            )),
{
    if origins.len() == 0 {
        return false;
    }
    let mut i: usize = 0;
    while i < origins.len()
        invariant
            i <= origins@.len(),
            forall|k: int|
                0 <= k < i ==> is_valid_provider_origin(#[trigger] origins@[k]@, allow_test_http),
        decreases origins@.len() - i,
    {
        if !valid_provider_origin(origins[i].as_str(), allow_test_http) {
            return false;
        }
        i = i + 1;
    }
    true
}

/// `fetch_limited`, on the status: a redirection or anything but success
/// (2xx) means the catalog is unavailable.
pub fn check_status(status: u16) -> (r: Result<(), TerrainError>)
    ensures
        r is Ok <==> 200 <= status <= 299,
        r matches Err(e) ==> e == TerrainError::CatalogUnavailable,
{
    if 200 <= status && status <= 299 {
        Ok(())
    } else {
        Err(TerrainError::CatalogUnavailable)
    }
}

/// `k` is where the first `;` of `s` is, or the end of `s` if it has none.
pub open spec fn first_semicolon_at(s: Seq<char>, k: int) -> bool {
    &&& 0 <= k <= s.len()
    &&& (k == s.len() || s[k] == ';')
    &&& forall|j: int| 0 <= j < k ==> #[trigger] s[j] != ';'
}

/// The media type of a `Content-Type` value: what comes before the first
/// `;`, trimmed.
pub fn media_type(value: &str) -> (r: String)
    ensures
        exists|k: int| #[trigger] first_semicolon_at(value@, k) && r@ == trim_spec(value@.take(k)),
{
    let chars = chars_of(value);
    let mut k: usize = 0;
    while k < chars.len() && chars[k] != ';'
        invariant
            k <= chars@.len(),
            forall|j: int| 0 <= j < k ==> #[trigger] chars@[j] != ';',
        decreases chars@.len() - k,
    {
        k = k + 1;
    }
    let head = crate::text::string_from_range(&chars, 0, k);
    let r = trim(head.as_str());
    assert(chars@.subrange(0, k as int) =~= chars@.take(k as int));
    assert(first_semicolon_at(value@, k as int));
    r
}

/// `fetch_limited`, on the headers: the media type must be the expected
/// one and a declared length must be within the limit.
pub fn check_content(
    media_type: Option<&str>,
    expected_media_type: &str,
    content_length: Option<u64>,
    limit: usize,
) -> (r: Result<(), TerrainError>)
    ensures
        r is Ok <==> (media_type matches Some(m) && m@ == expected_media_type@) && match content_length {
            Some(length) => length <= limit,
            None => true,
        },
        r matches Err(e) ==> e == TerrainError::InvalidCatalogData,
{
    let type_ok = match media_type {
        Some(m) => str_eq(m, expected_media_type),
        None => false,
    };
    let length_ok = match content_length {
        Some(length) => length <= limit as u64,
        None => true,
    };
    if type_ok && length_ok {
        Ok(())
    } else {
        Err(TerrainError::InvalidCatalogData)
    }
}

/// `fetch_limited`, on each chunk of the body: the body may not grow past
/// the limit.
pub fn accept_chunk(body_length: usize, chunk_length: usize, limit: usize) -> (r: Result<
    (),
    TerrainError,
>)
    ensures
        r is Ok <==> body_length + chunk_length <= limit,
        r matches Err(e) ==> e == TerrainError::InvalidCatalogData,
{
    if chunk_length > limit || body_length > limit - chunk_length {
        Err(TerrainError::InvalidCatalogData)
    } else {
        Ok(())
    }
}

/// `fetch_limited`, at the end of the body: an empty body is refused.
pub fn check_body(body_length: usize) -> (r: Result<(), TerrainError>)
    ensures
        r is Ok <==> body_length > 0,
        r matches Err(e) ==> e == TerrainError::InvalidCatalogData,
{
    if body_length == 0 {
        Err(TerrainError::InvalidCatalogData)
    } else {
        Ok(())
    }
}

/// `fetch_catalog_metadata`: the catalog must list 1 to 4096 maps.
pub fn check_catalog_size(maps: usize) -> (r: Result<(), TerrainError>)
    ensures
        r is Ok <==> 0 < maps <= MAX_CATALOG_MAPS,
        r matches Err(e) ==> e == TerrainError::InvalidCatalogData,
{
    if maps == 0 || maps > MAX_CATALOG_MAPS {
        Err(TerrainError::InvalidCatalogData)
    } else {
        Ok(())
    }
}

// ---------------------------------------------------------------------------
// Addresses
// ---------------------------------------------------------------------------

/// The address of one map's catalog entry.
pub fn metadata_url(origin: &str, catalog_name: &str) -> (r: String)
    ensures
        r@ == origin@ + "/api/v1/games/arma3/maps/"@ + catalog_name@,
{
    let mut out = lit(origin);
    out.append("/api/v1/games/arma3/maps/");
    out.append(catalog_name);
    out
}

/// The address of the whole catalog.
pub fn catalog_url(origin: &str) -> (r: String)
    ensures
        r@ == origin@ + "/api/v1/games/arma3/maps"@,
{
    let mut out = lit(origin);
    out.append("/api/v1/games/arma3/maps");
    out
}

/// The address of a tile: `{origin}/data/1/maps/{map}/{layer}/{zoom}/{x}/{y}.png`.
pub fn tile_url(origin: &str, map_id: u32, layer_id: u32, zoom: u8, x: u32, y: u32) -> (r: String)
    ensures
        r@ == origin@ + "/data/1/maps/"@ + decimal(map_id as nat) + "/"@ + decimal(
            layer_id as nat,
        ) + "/"@ + decimal(zoom as nat) + "/"@ + decimal(x as nat) + "/"@ + decimal(y as nat)
            + ".png"@,
{
    let mut out = lit(origin);
    out.append("/data/1/maps/");
    push_decimal(&mut out, map_id as u64);
    out.append("/");
    push_decimal(&mut out, layer_id as u64);
    out.append("/");
    push_decimal(&mut out, zoom as u64);
    out.append("/");
    push_decimal(&mut out, x as u64);
    out.append("/");
    push_decimal(&mut out, y as u64);
    out.append(".png");
    out
}

/// The path of a cached tile below the cache root, one component each:
/// the cache key, the layer, the zoom level, the column and `{row}.png`.
pub fn tile_cache_components(cache_key: &str, layer_id: u32, zoom: u8, x: u32, y: u32) -> (r: Vec<
    String,
>)
    ensures
        r@.len() == 5,
        r@[0]@ == cache_key@,
        r@[1]@ == decimal(layer_id as nat),
        r@[2]@ == decimal(zoom as nat),
        r@[3]@ == decimal(x as nat),
        r@[4]@ == decimal(y as nat) + ".png"@,
{
    let mut components: Vec<String> = Vec::new();
    components.push(lit(cache_key));
    let mut layer = String::new();
    push_decimal(&mut layer, layer_id as u64);
    components.push(layer);
    let mut level = String::new();
    push_decimal(&mut level, zoom as u64);
    components.push(level);
    let mut column = String::new();
    push_decimal(&mut column, x as u64);
    components.push(column);
    let mut row = String::new();
    push_decimal(&mut row, y as u64);
    row.append(".png");
    components.push(row);
    components
}

} // verus!
