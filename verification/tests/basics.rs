use eve_sde_mcp::config::{Config, Transport};
use eve_sde_mcp::dogma::operation_label;
use eve_sde_mcp::download::{parse_build, sanitize_zip_path};
use eve_sde_mcp::guidance::guidance_for;
use eve_sde_mcp::manufacturing::material_with_me;
use eve_sde_mcp::scan::{extract_key, parse_u64_prefix};
use eve_sde_mcp::skills::{skill_sp, sp_breakdown};

fn config_with_data_dir(data_dir: Option<&str>) -> Config {
    Config {
        data_dir: data_dir.map(|s| s.as_bytes().to_vec()),
        log_level: "warn".to_string(),
        redownload: false,
        language: Some("en".to_string()),
        transport: Transport::Stdio,
        bind: "127.0.0.1:8080".to_string(),
        path: "/mcp".to_string(),
    }
}

fn per_os_default() -> Vec<u8> {
    directories::ProjectDirs::from("", "", "eve-sde-mcp")
        .unwrap()
        .data_dir()
        .as_os_str()
        .as_encoded_bytes()
        .to_vec()
}

#[test]
fn empty_data_dir_falls_back_to_per_os_default() {
    // An empty setting defers to the per-OS default.
    let cfg = config_with_data_dir(Some(""));
    assert_eq!(cfg.data_dir_setting().unwrap(), per_os_default());
}

#[test]
fn unset_data_dir_uses_per_os_default() {
    let cfg = config_with_data_dir(None);
    assert_eq!(cfg.data_dir_setting().unwrap(), per_os_default());
}

#[test]
fn explicit_data_dir_is_honored() {
    let cfg = config_with_data_dir(Some("/custom/sde"));
    assert_eq!(cfg.data_dir_setting().unwrap(), b"/custom/sde".to_vec());
}

#[test]
fn parse_build_extracts_number_from_redirect_url() {
    let url = "https://data.eveonline.com/tranquility/eve-online-static-data-3333874-jsonl.zip";
    assert_eq!(parse_build(url).unwrap(), 3333874);
}

#[test]
fn parse_build_returns_error_when_prefix_missing() {
    let url = "https://data.eveonline.com/tranquility/something-else.zip";
    assert!(parse_build(url).is_err());
}

#[test]
fn parse_build_returns_error_when_no_trailing_dash() {
    let url = "https://data.eveonline.com/tranquility/eve-online-static-data-3333874.zip";
    assert!(parse_build(url).is_err());
}

#[test]
fn sanitize_zip_path_rejects_parent_traversal() {
    assert!(sanitize_zip_path("../escape/path").is_err());
}

#[test]
fn sanitize_zip_path_strips_curdir() {
    let p = sanitize_zip_path("./foo/bar.txt").unwrap();
    assert_eq!(p, "foo/bar.txt");
}

#[test]
fn sanitize_zip_path_accepts_normal_path() {
    let p = sanitize_zip_path("sde/types.jsonl").unwrap();
    assert_eq!(p, "sde/types.jsonl");
}

#[test]
fn extract_key_finds_underscore_key_field() {
    let line = br#"{"_key":34,"groupID":18,"name":{"en":"Tritanium"}}"#;
    assert_eq!(extract_key(line), Some(34));
}

#[test]
fn extract_key_returns_none_when_missing() {
    let line = br#"{"id":34}"#;
    assert_eq!(extract_key(line), None);
}

#[test]
fn parse_u64_prefix_parses_number_before_delimiter() {
    assert_eq!(parse_u64_prefix(b"12345,rest"), Some(12345));
    assert_eq!(parse_u64_prefix(b"0}"), Some(0));
    assert_eq!(parse_u64_prefix(b"abc"), None);
}

#[test]
fn operation_label_decodes_canonical_dogma_operators() {
    assert_eq!(operation_label(6), "postPercent (+magnitude% per stacking source)");
    assert_eq!(operation_label(2), "modAdd (additive, flat)");
    assert_eq!(operation_label(4), "postMul (multiply)");
    assert_eq!(operation_label(0), "preMul (multiply)");
    assert_eq!(operation_label(7), "postAssignment (set, applied last)");
    assert_eq!(operation_label(123), "unknown");
}

#[test]
fn guidance_separates_an_unrecorded_attribute_from_an_over_narrowed_call() {
    let g = guidance_for(Some(1971), 66, 0, false, |_| false).expect("empty answer");
    assert!(!g.contains("No Type records"), "must not deny the 66 stored rows: {g}");
    assert!(g.contains("66 Types record"), "quotes the true count: {g}");
    assert!(
        g.contains("not the problem"),
        "acquits the attribute ID so the caller stops doubting it: {g}"
    );

    let g = guidance_for(Some(30), 0, 0, false, |_| false).expect("empty answer");
    assert!(g.contains("No Type records an ExplicitValue"), "{g}");
    assert!(g.contains("sde_search_dogma"), "routes to verification: {g}");
}

#[test]
fn guidance_keeps_the_modifiers_pointer_on_both_empty_shapes() {
    let over_narrowed = guidance_for(Some(77), 5, 0, false, |_| true).expect("empty answer");
    assert!(over_narrowed.contains("sde_get_modifiers"), "{over_narrowed}");
    let unrecorded = guidance_for(Some(77), 0, 0, false, |_| true).expect("empty answer");
    assert!(unrecorded.contains("sde_get_modifiers"), "{unrecorded}");

    let neither = guidance_for(Some(77), 5, 0, false, |_| false).expect("empty answer");
    assert!(
        !neither.contains("sde_get_modifiers"),
        "must not route to a tool that is also empty: {neither}"
    );
}

#[test]
fn guidance_is_absent_when_the_answer_is_neither_empty_nor_truncated() {
    assert!(guidance_for(Some(1971), 66, 66, false, |_| true).is_none());
    assert!(guidance_for(Some(1971), 66, 3, false, |_| true).is_none());
    assert!(guidance_for(None, 0, 0, false, |_| true).is_none());
}

#[test]
fn manufacturing_material_with_me_floors_at_runs() {
    // 100 base, 10 runs, 10% ME -> 900, still above the 10-run floor.
    assert_eq!(material_with_me(100, 10, 10), Some(900));
    // 1 base, 5 runs, 90% ME -> the floor of one unit per run.
    assert_eq!(material_with_me(1, 5, 90), Some(5));
}

#[test]
fn tests_material_with_me_floors_at_runs() {
    assert_eq!(material_with_me(100, 10, 10), Some(900));
    assert_eq!(material_with_me(1, 5, 90), Some(5));
}

#[test]
fn skill_sp_matches_canonical_rank1_points() {
    assert_eq!(skill_sp(1, 1), 250);
    assert_eq!(skill_sp(1, 2), 1414);
    assert_eq!(skill_sp(1, 3), 8000);
    assert_eq!(skill_sp(1, 4), 45255);
    assert_eq!(skill_sp(1, 5), 256000);
    assert_eq!(skill_sp(3, 3), 24000);
    assert_eq!(skill_sp(1, 0), 0);
}

#[test]
fn sp_breakdown_increments_sum_to_cumulative() {
    let b = sp_breakdown(1);
    assert_eq!(b[0].sp_to_reach, 250);
    assert_eq!(b[4].sp_to_reach, 256000);
    assert_eq!(b[0].increment, 250);
    assert_eq!(b[1].increment, 1414 - 250);
    assert_eq!(b[3].sp_to_reach + b[4].increment, b[4].sp_to_reach);
}

#[test]
fn build_and_meta_paths_sit_under_the_data_dir() {
    let cfg = config_with_data_dir(Some("/data"));
    assert_eq!(cfg.sde_dir(3333874).unwrap(), b"/data/sde-3333874".to_vec());
    assert_eq!(cfg.meta_path().unwrap(), b"/data/meta.json".to_vec());
    let cfg = config_with_data_dir(Some("/data/"));
    assert_eq!(cfg.sde_dir(7).unwrap(), b"/data/sde-7".to_vec());
}
