use ctab_web::terrain::{
    accept_chunk, catalog_metadata, catalog_url, check_body, check_catalog_size, check_content,
    check_status, known_catalog_name, media_type, metadata_url, mirror_origin_str,
    normalized_world_name, origins_acceptable, primary_origin_str, select_catalog_map,
    terrain_request, tile_cache_components, tile_in_grid, tile_scale, tile_url,
    valid_catalog_name, valid_png, valid_provider_origin, validate_metadata, CatalogLayer,
    CatalogMap, TerrainError, TerrainMetadata, TerrainRequest,
};

fn metadata() -> TerrainMetadata {
    TerrainMetadata {
        world_name: "Altis".to_owned(),
        catalog_name: "altis".to_owned(),
        display_name: "Altis".to_owned(),
        attribution: "Copyright test".to_owned(),
        size_in_meters: 30_720.0f64.to_bits(),
        origin_x: 0.0f64.to_bits(),
        origin_y: 0.0f64.to_bits(),
        map_id: 3,
        layer_id: 3,
        min_zoom: 0,
        max_zoom: 6,
        default_zoom: 2,
        tile_size: 381,
        factor_x: 0.012375f64.to_bits(),
        factor_y: 0.012375f64.to_bits(),
    }
}

fn catalog_map(name: &str, aliases: &[&str], size_in_meters: f64) -> CatalogMap {
    CatalogMap {
        attribution: Some("Copyright test".to_owned()),
        append_attribution: None,
        game_map_id: 42,
        english_title: "Catalog Test".to_owned(),
        size_in_meters: size_in_meters.to_bits(),
        name: name.to_owned(),
        aliases: Some(aliases.iter().map(|alias| (*alias).to_owned()).collect()),
        origin_x: 0.0f64.to_bits(),
        origin_y: 0.0f64.to_bits(),
        layers: vec![CatalogLayer {
            game_map_layer_id: 43,
            layer_type: "Topographic".to_owned(),
            format: "PngOnly".to_owned(),
            min_zoom: 0,
            max_zoom: 6,
            default_zoom: 2,
            is_default: true,
            tile_size: 256,
            factor_x: 0.025f64.to_bits(),
            factor_y: 0.025f64.to_bits(),
        }],
    }
}

/// Whether a catalog size matches a request, as the companion computes it.
fn size_matches(size_bits: u64, request: &TerrainRequest) -> bool {
    let size = f64::from_bits(size_bits);
    size.is_finite() && (size - f64::from_bits(request.expected_size)).abs() < 0.01
}

fn sizes(catalog: &[CatalogMap], request: &TerrainRequest) -> Vec<bool> {
    catalog
        .iter()
        .map(|map| size_matches(map.size_in_meters, request))
        .collect()
}

/// The tile grid at a scale, as the companion computes it.
fn grid(metadata: &TerrainMetadata, scale: u32) -> (u32, u32) {
    let size = f64::from_bits(metadata.size_in_meters);
    let tile = f64::from(metadata.tile_size);
    let columns = (size * f64::from_bits(metadata.factor_x) * f64::from(scale) / tile).ceil();
    let rows = (size * f64::from_bits(metadata.factor_y) * f64::from(scale) / tile).ceil();
    (columns as u32, rows as u32)
}

#[test]
fn normalizes_only_safe_arma_world_names() {
    let tanoa = terrain_request(" TANOA ", 15_360.0f64.to_bits()).expect("Tanoa request");
    assert_eq!(tanoa.world_name, "TANOA");
    assert_eq!(tanoa.cache_key, "tanoa");
    assert_eq!(tanoa.expected_size, 15_360.0f64.to_bits());
    assert_eq!(known_catalog_name(&tanoa.cache_key), Some("tanoa"));
    assert!(terrain_request("tem_anizay", 10_240.0f64.to_bits()).is_some());
    assert!(terrain_request("../altis", 30_720.0f64.to_bits()).is_none());
    assert!(terrain_request("Altis", f64::NAN.to_bits()).is_none());
}

#[test]
fn world_sizes_and_names_are_bounded() {
    assert!(terrain_request("Altis", 1.0f64.to_bits()).is_some());
    assert!(terrain_request("Altis", 1_000_000.0f64.to_bits()).is_some());
    assert!(terrain_request("Altis", 0.5f64.to_bits()).is_none());
    assert!(terrain_request("Altis", 1_000_000.5f64.to_bits()).is_none());
    assert!(terrain_request("Altis", (-30_720.0f64).to_bits()).is_none());
    assert!(terrain_request("Altis", f64::INFINITY.to_bits()).is_none());
    assert_eq!(normalized_world_name(&"a".repeat(129)), None);
    assert_eq!(normalized_world_name("  Vtf-Lybor "), Some("vtf-lybor".to_owned()));
    assert_eq!(normalized_world_name("   "), None);
    assert_eq!(known_catalog_name("stratis"), None);
    assert!(valid_catalog_name("tem_anizay"));
    assert!(!valid_catalog_name("Tem_Anizay"));
    assert!(!valid_catalog_name(" altis"));
}

#[test]
fn resolves_dynamic_catalog_names_and_aliases_with_matching_sizes() {
    let direct = terrain_request("tem_anizay", 10_240.0f64.to_bits()).expect("direct request");
    let catalog = vec![catalog_map("tem_anizay", &[], 10_240.0)];
    let matches = sizes(&catalog, &direct);
    let selected = select_catalog_map(catalog, &direct, &matches).expect("direct catalog match");
    assert_eq!(selected.name, "tem_anizay");

    let alias = terrain_request("vtf_lybor_winter", 6_144.0f64.to_bits()).expect("alias request");
    let catalog = vec![catalog_map("vtf_lybor", &["vtf_lybor_winter"], 6_144.0)];
    let matches = sizes(&catalog, &alias);
    let selected = select_catalog_map(catalog, &alias, &matches).expect("alias catalog match");
    assert_eq!(selected.name, "vtf_lybor");

    let wrong_size = terrain_request("vtf_lybor_winter", 8_192.0f64.to_bits()).expect("request");
    let catalog = vec![catalog_map("vtf_lybor", &["vtf_lybor_winter"], 6_144.0)];
    let matches = sizes(&catalog, &wrong_size);
    assert!(select_catalog_map(catalog, &wrong_size, &matches).is_none());
}

#[test]
fn a_named_map_of_the_wrong_size_is_not_replaced_by_an_alias() {
    let request = terrain_request("altis", 30_720.0f64.to_bits()).expect("request");
    let catalog = vec![
        catalog_map("other", &["altis"], 30_720.0),
        catalog_map("altis", &[], 20_000.0),
    ];
    let matches = sizes(&catalog, &request);
    assert!(select_catalog_map(catalog, &request, &matches).is_none());
    let catalog = vec![
        catalog_map("first", &["ALTIS "], 30_720.0),
        catalog_map("second", &["altis"], 30_720.0),
    ];
    let matches = sizes(&catalog, &request);
    assert_eq!(
        select_catalog_map(catalog, &request, &matches).map(|map| map.name),
        Some("first".to_owned())
    );
}

#[test]
fn catalog_entries_become_validated_metadata() {
    let request = terrain_request("Tem_Anizay", 10_240.0f64.to_bits()).expect("request");
    let map = catalog_map("tem_anizay", &[], 10_240.0);
    let metadata = catalog_metadata(map.clone(), &request, None, true).expect("metadata");
    assert_eq!(metadata.world_name, "Tem_Anizay");
    assert_eq!(metadata.catalog_name, "tem_anizay");
    assert_eq!(metadata.display_name, "Catalog Test");
    assert_eq!(metadata.attribution, "Copyright test");
    assert_eq!((metadata.map_id, metadata.layer_id), (42, 43));
    assert_eq!(metadata.tile_size, 256);
    assert!(validate_metadata(&metadata, &request, Some("tem_anizay"), true).is_ok());
    assert_eq!(
        catalog_metadata(map.clone(), &request, Some("altis"), true),
        Err(TerrainError::InvalidCatalogData)
    );
    assert_eq!(
        catalog_metadata(map.clone(), &request, None, false),
        Err(TerrainError::InvalidCatalogData)
    );
    let mut blank = map.clone();
    blank.attribution = Some("  ".to_owned());
    blank.append_attribution = Some("ignored".to_owned());
    assert_eq!(
        catalog_metadata(blank, &request, None, true).map(|m| m.attribution),
        Ok("PlanOps Atlas".to_owned())
    );
    let mut appended = map.clone();
    appended.attribution = None;
    appended.append_attribution = Some("Appended".to_owned());
    assert_eq!(
        catalog_metadata(appended, &request, None, true).map(|m| m.attribution),
        Ok("Appended".to_owned())
    );
    let mut webp = map.clone();
    webp.layers[0].format = "WebpOnly".to_owned();
    assert_eq!(
        catalog_metadata(webp, &request, None, true),
        Err(TerrainError::InvalidCatalogData)
    );
    let mut zoomed = map;
    zoomed.layers[0].max_zoom = 13;
    assert_eq!(
        catalog_metadata(zoomed, &request, None, true),
        Err(TerrainError::InvalidCatalogData)
    );
}

#[test]
fn rejects_unknown_or_non_https_provider_origins() {
    assert!(valid_provider_origin(primary_origin_str(), false));
    assert!(valid_provider_origin(mirror_origin_str(), false));
    assert!(!valid_provider_origin("http://atlas.plan-ops.fr", false));
    assert!(!valid_provider_origin("https://attacker.invalid", false));
    assert!(!valid_provider_origin(
        "https://atlas.plan-ops.fr.attacker.invalid",
        false
    ));
}

#[test]
fn loopback_providers_are_allowed_only_for_tests() {
    assert!(valid_provider_origin("http://127.0.0.1:9", true));
    assert!(!valid_provider_origin("http://127.0.0.1:9", false));
    assert!(origins_acceptable(&vec![primary_origin_str().to_owned()], false));
    assert!(!origins_acceptable(&Vec::new(), true));
    assert!(!origins_acceptable(
        &vec![primary_origin_str().to_owned(), "http://x".to_owned()],
        false
    ));
}

#[test]
fn rejects_out_of_range_tiles() {
    let metadata = metadata();
    let scale = tile_scale(&metadata, 2).expect("zoom 2");
    assert_eq!(scale, 4);
    let (columns, rows) = grid(&metadata, scale);
    assert!(tile_in_grid(3, 3, columns, rows).is_ok());
    assert!(tile_in_grid(4, 0, columns, rows).is_err());
    assert!(tile_scale(&metadata, 7).is_err());
}

#[test]
fn validates_png_signature_and_dimensions() {
    let mut png = vec![0_u8; 24];
    png[..8].copy_from_slice(&[137, 80, 78, 71, 13, 10, 26, 10]);
    png[16..20].copy_from_slice(&381_u32.to_be_bytes());
    png[20..24].copy_from_slice(&381_u32.to_be_bytes());
    assert!(valid_png(&png, 381));
    png[16..20].copy_from_slice(&380_u32.to_be_bytes());
    assert!(!valid_png(&png, 381));
    assert!(!valid_png(b"not an image", 381));
}

#[test]
fn provider_answers_are_checked_before_use() {
    assert_eq!(check_status(200), Ok(()));
    assert_eq!(check_status(302), Err(TerrainError::CatalogUnavailable));
    assert_eq!(check_status(404), Err(TerrainError::CatalogUnavailable));
    assert_eq!(media_type(" application/json ; charset=utf-8"), "application/json");
    assert_eq!(media_type("image/png"), "image/png");
    assert_eq!(
        check_content(Some("application/json"), "application/json", Some(10), 10),
        Ok(())
    );
    assert_eq!(
        check_content(Some("text/plain"), "application/json", None, 10),
        Err(TerrainError::InvalidCatalogData)
    );
    assert_eq!(
        check_content(Some("application/json"), "application/json", Some(11), 10),
        Err(TerrainError::InvalidCatalogData)
    );
    assert_eq!(
        check_content(None, "application/json", None, 10),
        Err(TerrainError::InvalidCatalogData)
    );
    assert_eq!(accept_chunk(5, 5, 10), Ok(()));
    assert_eq!(accept_chunk(5, 6, 10), Err(TerrainError::InvalidCatalogData));
    assert_eq!(accept_chunk(usize::MAX, 1, 10), Err(TerrainError::InvalidCatalogData));
    assert_eq!(check_body(0), Err(TerrainError::InvalidCatalogData));
    assert_eq!(check_body(1), Ok(()));
    assert_eq!(check_catalog_size(0), Err(TerrainError::InvalidCatalogData));
    assert_eq!(check_catalog_size(4_096), Ok(()));
    assert_eq!(check_catalog_size(4_097), Err(TerrainError::InvalidCatalogData));
}

#[test]
fn provider_addresses_and_cache_paths() {
    assert_eq!(
        metadata_url("https://atlas.plan-ops.fr", "altis"),
        "https://atlas.plan-ops.fr/api/v1/games/arma3/maps/altis"
    );
    assert_eq!(
        catalog_url("https://atlas.plan-ops.fr"),
        "https://atlas.plan-ops.fr/api/v1/games/arma3/maps"
    );
    assert_eq!(
        tile_url("https://atlas.plan-ops.fr", 3, 3, 2, 1, 10),
        "https://atlas.plan-ops.fr/data/1/maps/3/3/2/1/10.png"
    );
    assert_eq!(
        tile_cache_components("altis", 3, 2, 1, 10),
        vec!["altis", "3", "2", "1", "10.png"]
    );
    assert_eq!(TerrainError::Unsupported.status_code(), 404);
    assert_eq!(TerrainError::CatalogUnavailable.status_code(), 502);
    assert_eq!(TerrainError::CacheUnavailable.status_code(), 503);
}

#[test]
fn requests_go_only_to_the_provider_hosts() {
    for origin in [primary_origin_str(), mirror_origin_str()] {
        assert!(valid_provider_origin(origin, false));
        let host = format!("{origin}/");
        assert!(tile_url(origin, 3, 4, 2, 1, 0).starts_with(&host));
        assert!(metadata_url(origin, "altis").starts_with(&host));
        assert!(catalog_url(origin).starts_with(&host));
    }
    assert!(!tile_url("https://atlas.plan-ops.fr.attacker.invalid", 3, 4, 2, 1, 0)
        .starts_with("https://atlas.plan-ops.fr/"));
}
