use ctab_web::marker_icons::{icon_cache_file_name, icon_cache_key};
use ctab_web::marker_icons::{IndexLookup, ModIndexTable, MAX_MOD_INDICES};
use std::collections::hash_map::DefaultHasher;
use std::hash::{BuildHasher, BuildHasherDefault};
use ctab_web::marker_icons::{
    cache_file_name, is_pbo_extension, mod_addon_candidates, mod_addon_directories,
    mod_index_key, mod_reference_from_descriptor, normalize_pbo_component,
    normalize_virtual_path, parse_icon_reference, pbo_index_order, relative_entry_path,
    valid_marker_type, valid_mod_directory, valid_mod_hash, valid_workshop_id,
    validate_arma_root, virtual_file_candidates, IconReference, MarkerIconError,
    ModIconReference, PathBase,
};
use ctab_web::paa::{
    blocks_to_png, decode_paa_to_png, parse_paa, read_u16, read_u24, read_u32,
    valid_cached_png, PaaFormat,
};
use ctab_web::pbo::{locate_pbo_entry, read_c_string, read_entry_fields, read_pbo_prefix};

const MOD_ICON_DESCRIPTOR: &str = "ctab_mod_icon_v1";

#[test]
fn rejects_unsafe_virtual_paths_and_marker_types() {
    assert!(normalize_virtual_path(r"\A3\ui_f\data\marker.paa", true).is_some());
    assert!(normalize_virtual_path(r"custom_mod\data\marker.paa", true).is_none());
    assert!(normalize_virtual_path(r"..\secret.paa", false).is_none());
    assert!(normalize_virtual_path(r"C:\secret.paa", false).is_none());
    assert!(valid_marker_type("mil_unknown"));
    assert!(!valid_marker_type("../unknown"));
}

#[test]
fn virtual_paths_are_lowered_and_backslashed() {
    assert_eq!(
        normalize_virtual_path(r"//A3/UI_F\Data/Marker.PAA", true),
        Some(r"a3\ui_f\data\marker.paa".to_owned())
    );
    assert!(normalize_virtual_path(r"a3\ui_f\\marker.paa", true).is_none());
    assert!(normalize_virtual_path(r"a3\ui_f\.\marker.paa", true).is_none());
    assert!(normalize_virtual_path(r"a3\ui_f\marker.png", true).is_none());
    assert!(normalize_virtual_path("", false).is_none());
    assert!(!valid_marker_type(""));
    assert!(!valid_marker_type(&"a".repeat(129)));
    assert!(valid_marker_type(&"a".repeat(128)));
}

#[test]
fn accepts_only_bounded_mod_icon_descriptors() {
    let descriptor = serde_json::to_string(&[
        MOD_ICON_DESCRIPTOR,
        "@marker_pack",
        "3123456789",
        "7de4bd5c",
        r"marker_pack\data\artillery_ca.paa",
    ])
    .expect("serialize descriptor");
    assert_eq!(
        parse_icon_reference(&descriptor),
        Some(IconReference::Mod(ModIconReference {
            mod_directory: "@marker_pack".to_owned(),
            workshop_id: "3123456789".to_owned(),
            mod_hash: "7de4bd5c".to_owned(),
            virtual_path: r"marker_pack\data\artillery_ca.paa".to_owned(),
        }))
    );

    let traversal = serde_json::to_string(&[
        MOD_ICON_DESCRIPTOR,
        "..",
        "3123456789",
        "7de4bd5c",
        r"marker_pack\data\artillery_ca.paa",
    ])
    .expect("serialize traversal descriptor");
    assert!(parse_icon_reference(&traversal).is_none());
    assert!(parse_icon_reference(r"marker_pack\data\artillery_ca.paa").is_none());
}

#[test]
fn descriptors_must_be_json_string_arrays_of_five() {
    assert!(parse_icon_reference("[not json").is_none());
    assert!(parse_icon_reference(r#"["ctab_mod_icon_v1"]"#).is_none());
    assert_eq!(
        parse_icon_reference(r"\A3\ui_f\data\Marker.paa"),
        Some(IconReference::BaseGame(r"a3\ui_f\data\marker.paa".to_owned()))
    );
    let descriptor = vec![
        "ctab_mod_icon_v2".to_owned(),
        "@m".to_owned(),
        "1".to_owned(),
        "".to_owned(),
        "m.paa".to_owned(),
    ];
    assert_eq!(mod_reference_from_descriptor(&descriptor), None);
    let mut accepted = descriptor.clone();
    accepted[0] = MOD_ICON_DESCRIPTOR.to_owned();
    assert_eq!(
        mod_reference_from_descriptor(&accepted).map(|r| r.virtual_path),
        Some("m.paa".to_owned())
    );
}

#[test]
fn accepts_safe_workshop_directory_punctuation_without_allowing_paths() {
    assert!(valid_mod_directory("@O&T Expansion Eden"));
    assert!(valid_mod_directory("@3AS (Beta Test)"));
    assert!(valid_mod_directory("@WebKnight's Zombies and Creatures"));
    assert!(!valid_mod_directory(r"..\secret"));
    assert!(!valid_mod_directory("../secret"));
    assert!(!valid_mod_directory("C:secret"));
    assert!(!valid_mod_directory("trailing."));
    assert!(!valid_mod_directory("trailing "));
}

#[test]
fn workshop_ids_and_hashes_are_bounded_digits() {
    assert!(valid_workshop_id("3123456789"));
    assert!(!valid_workshop_id(""));
    assert!(!valid_workshop_id("12a"));
    assert!(!valid_workshop_id(&"1".repeat(21)));
    assert!(valid_mod_hash(""));
    assert!(valid_mod_hash("7DE4bd5c"));
    assert!(!valid_mod_hash("xyz"));
    assert!(!valid_mod_hash(&"a".repeat(65)));
    assert!(!valid_mod_directory("tab\tname"));
}

#[test]
fn pbo_prefixes_are_normalized() {
    assert_eq!(
        normalize_pbo_component(r"\A3/UI_F\Data\"),
        Some(r"a3\ui_f\data".to_owned())
    );
    assert_eq!(normalize_pbo_component("//"), None);
    assert_eq!(normalize_pbo_component(r"a3\..\x"), None);
    assert_eq!(normalize_pbo_component("c:x"), None);
}

#[test]
fn mod_index_keys_ignore_case_of_directory_and_hash() {
    let reference = ModIconReference {
        mod_directory: "@Marker_Pack".to_owned(),
        workshop_id: "3123456789".to_owned(),
        mod_hash: "7DE4BD5C".to_owned(),
        virtual_path: r"marker_pack\data\a.paa".to_owned(),
    };
    assert_eq!(mod_index_key(&reference), "@marker_pack:3123456789:7de4bd5c");
}

#[test]
fn resolves_only_the_reported_workshop_mod_addons_directory() {
    let reference = ModIconReference {
        mod_directory: "@marker_pack".to_owned(),
        workshop_id: "3123456789".to_owned(),
        mod_hash: "7de4bd5c".to_owned(),
        virtual_path: r"marker_pack\data\artillery_ca.paa".to_owned(),
    };
    let candidates = mod_addon_candidates(&reference, true);
    assert_eq!(candidates.len(), 6);
    assert_eq!(candidates[0].0, PathBase::Steamapps);
    assert_eq!(
        candidates[0].1,
        vec!["workshop", "content", "107410", "3123456789", "Addons"]
    );
    assert_eq!(candidates[2], (PathBase::ArmaRoot, vec!["@marker_pack".to_owned(), "Addons".to_owned()]));
    assert_eq!(
        candidates[5].1,
        vec!["!Workshop", "@marker_pack", "addons"]
    );
    let mut local = reference.clone();
    local.workshop_id = "0".to_owned();
    assert_eq!(mod_addon_candidates(&local, true).len(), 4);
    assert_eq!(mod_addon_candidates(&reference, false).len(), 4);
    // On a case-insensitive file system `Addons` and `addons` are one
    // directory: it is listed once.
    let found = vec![
        Some("C:/steam/3123456789/Addons".to_owned()),
        Some("C:/steam/3123456789/Addons".to_owned()),
        None,
        None,
        None,
        None,
    ];
    assert_eq!(
        mod_addon_directories(&found),
        vec!["C:/steam/3123456789/Addons".to_owned()]
    );
}

#[test]
fn arma_roots_need_the_executable_and_addons() {
    assert_eq!(
        validate_arma_root(true, true, true, Some("C:/Arma".to_owned())),
        Some("C:/Arma".to_owned())
    );
    assert_eq!(
        validate_arma_root(false, true, true, Some("C:/Arma".to_owned())),
        None
    );
    assert_eq!(validate_arma_root(true, false, true, Some("x".to_owned())), None);
    assert_eq!(validate_arma_root(true, true, false, Some("x".to_owned())), None);
}

fn test_pbo(prefix: &str, entry_name: &str, entry_data: &[u8]) -> Vec<u8> {
    let mut pbo = Vec::new();
    pbo.push(0);
    pbo.extend_from_slice(b"sreV");
    pbo.extend_from_slice(&[0_u8; 16]);
    pbo.extend_from_slice(b"prefix\0");
    pbo.extend_from_slice(prefix.as_bytes());
    pbo.push(0);
    pbo.push(0);
    pbo.extend_from_slice(entry_name.as_bytes());
    pbo.push(0);
    pbo.extend_from_slice(&[0_u8; 4]);
    pbo.extend_from_slice(&(entry_data.len() as u32).to_le_bytes());
    pbo.extend_from_slice(&[0_u8; 8]);
    pbo.extend_from_slice(&(entry_data.len() as u32).to_le_bytes());
    pbo.push(0);
    pbo.extend_from_slice(&[0_u8; 20]);
    pbo.extend_from_slice(entry_data);
    pbo
}

fn test_bc1_paa() -> Vec<u8> {
    let mut paa = vec![0x01, 0xff, 0, 0, 4, 0, 4, 0, 8, 0, 0];
    paa.extend_from_slice(&[0xff, 0xff, 0, 0, 0, 0, 0, 0]);
    paa
}

#[test]
fn extracts_a_marker_from_the_reported_workshop_mod_pbo() {
    let paa = test_bc1_paa();
    let pbo = test_pbo("marker_pack", r"data\artillery_ca.paa", &paa);
    let prefix = read_pbo_prefix(&pbo, Some("marker_pack")).expect("read prefix");
    assert_eq!(prefix, "marker_pack");
    let descriptor = serde_json::to_string(&[
        MOD_ICON_DESCRIPTOR,
        "@marker_pack",
        "3123456789",
        "7de4bd5c",
        r"marker_pack\data\artillery_ca.paa",
    ])
    .expect("serialize descriptor");
    let Some(IconReference::Mod(reference)) = parse_icon_reference(&descriptor) else {
        panic!("expected a mod icon");
    };
    let candidates = virtual_file_candidates(&vec![prefix], &reference.virtual_path);
    assert_eq!(candidates, vec![(0, r"data\artillery_ca.paa".to_owned())]);
    let entry = locate_pbo_entry(&pbo, pbo.len() as u64, &candidates[0].1).expect("locate entry");
    assert_eq!(entry.size, paa.len());
    let start = entry.offset as usize;
    let data = &pbo[start..start + entry.size];
    assert_eq!(data, paa.as_slice());
    let png = decode_paa_to_png(data).expect("extract and convert Workshop marker");
    assert!(valid_cached_png(&png));
    assert_eq!(&png[16..24], &[0, 0, 0, 4, 0, 0, 0, 4]);
}

#[test]
fn archives_without_a_version_record_use_their_file_stem() {
    let mut pbo = vec![0u8];
    pbo.extend_from_slice(&[0_u8; 20]);
    assert_eq!(
        read_pbo_prefix(&pbo, Some("UI_F_Data")),
        Ok("ui_f_data".to_owned())
    );
    assert_eq!(read_pbo_prefix(&pbo, None), Err(MarkerIconError::Unsupported));
    assert_eq!(
        locate_pbo_entry(&pbo, 21, "x"),
        Err(MarkerIconError::Unsupported)
    );
    pbo.push(0);
    pbo.extend_from_slice(&[0_u8; 20]);
    assert_eq!(
        locate_pbo_entry(&pbo, 42, "x"),
        Err(MarkerIconError::Unavailable)
    );
}

#[test]
fn pbo_entries_are_found_by_name_without_regard_to_case() {
    let pbo = test_pbo("p", "Data/Icon.paa", b"0123456789");
    let entry = locate_pbo_entry(&pbo, pbo.len() as u64, r"DATA\ICON.PAA").expect("found");
    assert_eq!(entry.size, 10);
    assert_eq!(
        locate_pbo_entry(&pbo, pbo.len() as u64, "other.paa"),
        Err(MarkerIconError::Unavailable)
    );
    assert_eq!(
        locate_pbo_entry(&pbo, pbo.len() as u64 - 1, r"data\icon.paa"),
        Err(MarkerIconError::Unsupported)
    );
    assert_eq!(
        locate_pbo_entry(&pbo[..30], pbo.len() as u64, r"data\icon.paa"),
        Err(MarkerIconError::Unsupported)
    );
}

#[test]
fn header_strings_and_records_are_bounded() {
    assert_eq!(read_c_string(b"abc\0rest", 0, 3), Ok(("abc".to_owned(), 4)));
    assert_eq!(read_c_string(b"abcd\0", 0, 3), Err(MarkerIconError::Unsupported));
    assert_eq!(read_c_string(b"abc", 0, 10), Err(MarkerIconError::Unsupported));
    assert_eq!(read_c_string(&[0xff, 0], 0, 10), Err(MarkerIconError::Unsupported));
    let mut record = b"srpC".to_vec();
    record.extend_from_slice(&[1, 0, 0, 0, 2, 0, 0, 0, 3, 0, 0, 0, 4, 1, 0, 0]);
    let (fields, next) = read_entry_fields(&record, 0).expect("record");
    assert_eq!(next, 20);
    assert_eq!(&fields.mime, b"srpC");
    assert_eq!(
        (fields.original_size, fields.offset, fields.timestamp, fields.data_size),
        (1, 2, 3, 260)
    );
    assert_eq!(read_entry_fields(&record, 1), Err(MarkerIconError::Unsupported));
}

#[test]
fn little_endian_fields_are_read_within_bounds() {
    let bytes = [1u8, 2, 3, 4];
    assert_eq!(read_u16(&bytes, 2), Ok(0x0403));
    assert_eq!(read_u16(&bytes, 3), Err(MarkerIconError::Unsupported));
    assert_eq!(read_u24(&bytes, 1), Ok(0x040302));
    assert_eq!(read_u32(&bytes, 0), Ok(0x04030201));
    assert_eq!(read_u32(&bytes, usize::MAX), Err(MarkerIconError::Unsupported));
}

#[test]
fn compressed_textures_are_unpacked_with_lzo() {
    let mut paa = vec![0x01, 0xff, 0, 0, 4, 0x80, 4, 0, 12, 0, 0];
    paa.extend_from_slice(&[25, 0xff, 0xff, 0, 0, 0, 0, 0, 0, 17, 0, 0]);
    let layout = parse_paa(&paa).expect("layout");
    assert!(layout.compressed);
    assert_eq!((layout.width, layout.height, layout.expected), (4, 4, 8));
    let png = decode_paa_to_png(&paa).expect("convert");
    assert!(valid_cached_png(&png));
    let mut broken = paa.clone();
    broken[11] = 0;
    assert_eq!(decode_paa_to_png(&broken), Err(MarkerIconError::Unsupported));
}

#[test]
fn textures_are_refused_outside_their_format() {
    let mut paa = test_bc1_paa();
    paa[0] = 0x02;
    assert_eq!(parse_paa(&paa), Err(MarkerIconError::Unsupported));
    let short = test_bc1_paa()[..15].to_vec();
    assert_eq!(parse_paa(&short), Err(MarkerIconError::Unsupported));
    let mut zero = test_bc1_paa();
    zero[4] = 0;
    assert_eq!(parse_paa(&zero), Err(MarkerIconError::Unsupported));
    let layout = parse_paa(&test_bc1_paa()).expect("layout");
    assert_eq!(layout.format, PaaFormat::Bc1);
    assert_eq!(
        blocks_to_png(&layout, &[0u8; 7]),
        Err(MarkerIconError::Unsupported)
    );
    let mut tagged = vec![0x05, 0xff];
    tagged.extend_from_slice(b"GGATCXAM");
    tagged.extend_from_slice(&[2, 0, 0, 0, 9, 9]);
    tagged.extend_from_slice(&[0, 0, 4, 0, 4, 0, 16, 0, 0]);
    tagged.extend_from_slice(&[0u8; 16]);
    let layout = parse_paa(&tagged).expect("tagged layout");
    assert_eq!(layout.format, PaaFormat::Bc3);
    assert_eq!(layout.expected, 16);
    assert!(valid_cached_png(&decode_paa_to_png(&tagged).expect("convert")));
}

#[test]
fn cached_pngs_need_a_bounded_image_header() {
    let mut png = vec![0_u8; 24];
    png[..8].copy_from_slice(&[137, 80, 78, 71, 13, 10, 26, 10]);
    png[16..20].copy_from_slice(&64_u32.to_be_bytes());
    png[20..24].copy_from_slice(&64_u32.to_be_bytes());
    assert!(valid_cached_png(&png));
    png[16..20].copy_from_slice(&1025_u32.to_be_bytes());
    assert!(!valid_cached_png(&png));
    png[16..20].copy_from_slice(&0_u32.to_be_bytes());
    assert!(!valid_cached_png(&png));
    assert!(!valid_cached_png(b"short"));
}

#[test]
fn archives_are_tried_longest_prefix_first() {
    assert_eq!(pbo_index_order(&vec![2, 5, 5, 1]), vec![1, 2, 0, 3]);
    let prefixes = vec![r"a3\ui_f".to_owned(), r"a3\ui_f\data".to_owned(), "b".to_owned()];
    assert_eq!(
        virtual_file_candidates(&prefixes, r"a3\ui_f\data\x.paa"),
        vec![(0, r"data\x.paa".to_owned()), (1, "x.paa".to_owned())]
    );
    assert_eq!(relative_entry_path(r"a3\ui_fx\y.paa", r"a3\ui_f"), None);
    assert!(is_pbo_extension(Some("PBO")));
    assert!(!is_pbo_extension(Some("ebo")));
    assert!(!is_pbo_extension(None));
}

#[test]
fn cached_icons_are_named_by_marker_type_and_hash() {
    assert_eq!(
        cache_file_name("mil_unknown", 0x0123_4567_89ab_cdef),
        "mil_unknown_0123456789abcdef.png"
    );
    assert_eq!(cache_file_name("b_inf", 0), "b_inf_0000000000000000.png");
    assert_eq!(MarkerIconError::Cache.status_code(), 503);
    assert_eq!(MarkerIconError::Unsupported.status_code(), 404);
}

#[test]
fn mod_indices_are_found_by_key_and_bounded() {
    let mut table = ModIndexTable::new();
    assert!(table.lookup("mod:1:aa").is_none());
    table.insert("mod:1:aa".to_owned(), 7_u32);
    table.insert("other:2:bb".to_owned(), 9_u32);
    assert_eq!(table.lookup("mod:1:aa"), Some(&7));
    assert_eq!(table.lookup("other:2:bb"), Some(&9));
    assert!(table.lookup("mod:1:AA").is_none());
    assert!(!table.is_full());
    for index in 2..ctab_web::marker_icons::MAX_MOD_INDICES {
        table.insert(format!("mod-{index}:0:"), index as u32);
    }
    assert!(table.is_full());
}

#[test]
fn entity_and_overlay_icons_are_keyed_by_their_hash() {
    assert_eq!(
        ctab_web::marker_icons::hashed_icon_key("entity", 0x1234_abcd),
        "entity_000000001234abcd"
    );
    assert_eq!(
        ctab_web::marker_icons::hashed_icon_key("overlay", u64::MAX),
        "overlay_ffffffffffffffff"
    );
}

#[test]
fn mod_index_decisions_reuse_refuse_or_build() {
    let mut table = ModIndexTable::new();
    assert!(matches!(table.find("mod:1:aa"), IndexLookup::Missing));
    assert!(table.store_new("mod:1:aa".to_owned(), 1_u32));
    assert!(!table.store_new("mod:1:aa".to_owned(), 2_u32));
    assert!(matches!(table.find("mod:1:aa"), IndexLookup::Cached(&1)));
    for index in 1..MAX_MOD_INDICES {
        assert!(table.store_new(format!("mod:{index}:"), index as u32));
    }
    assert!(matches!(table.find("another:0:"), IndexLookup::Full));
    assert!(!table.store_new("another:0:".to_owned(), 0));
}

#[test]
fn icon_cache_names_use_the_standard_default_hash() {
    let path = r"\A3\ui_f\data\map\markers\military\dot_ca.paa";
    let hash = BuildHasherDefault::<DefaultHasher>::default().hash_one(path);
    assert_eq!(icon_cache_file_name("mil_dot", path), format!("mil_dot_{hash:016x}.png"));
    assert_eq!(icon_cache_key("entity", path), format!("entity_{hash:016x}"));
    assert_ne!(
        icon_cache_key("entity", path),
        icon_cache_key("entity", r"\A3\ui_f\data\map\markers\military\arrow_ca.paa")
    );
    assert_eq!(icon_cache_key("overlay", path).len(), "overlay_".len() + 16);
}

#[test]
fn decoded_textures_are_pngs_of_the_texture_size() {
    let mut paa = vec![0x01, 0xff, 0, 0, 4, 0x80, 4, 0, 12, 0, 0];
    paa.extend_from_slice(&[25, 0xff, 0xff, 0, 0, 0, 0, 0, 0, 17, 0, 0]);
    let png = decode_paa_to_png(&paa).expect("convert");
    assert_eq!(&png[..8], &[0x89, b'P', b'N', b'G', 0x0d, 0x0a, 0x1a, 0x0a]);
    assert_eq!(&png[8..16], &[0, 0, 0, 13, b'I', b'H', b'D', b'R']);
    assert_eq!(u32::from_be_bytes([png[16], png[17], png[18], png[19]]), 4);
    assert_eq!(u32::from_be_bytes([png[20], png[21], png[22], png[23]]), 4);
}
