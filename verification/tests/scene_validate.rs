use aa_engine::exit_codes::ExitCode;
use aa_engine::json::{JsonNumber, JsonValue};
use aa_engine::ron_subset::parse_ron_subset;
use aa_engine::scene::{
    filter_entities, infer_project_root_from_scene, inspect_entity, load_scene, patch_prefab_checks, plan_patch,
    patch_value, project_path_safe, rel_path, resolve_path, sha256_prefix16, sorted_unique, SceneRead, SectorData,
};
use aa_engine::validate::{
    detect_prefab_cycles, extract_prefab_refs, find_cycle, finish, line_number_for_match, missing_prefab_ref,
    normalize_prefab_ref, parse_quoted_string, prefab_graph_refs, unresolved_prefab_refs, validation_error,
    validation_to_sarif, ValidationError, asset_id, assets_root_error, config_file_error, reference_error,
    ron_file_error, schema_version_error, validate_step, ConfigFileCheck, RonFileCheck, ValidateEvent,
};

#[test]
fn prefab_refs_are_found_with_offsets() {
    let text = "E(prefab: \"assets/prefabs/tree.ron\")\n  é prefab:   \"prefabs/rock\" prefab: nothing";
    let refs = extract_prefab_refs(text);
    assert_eq!(refs, vec![("assets/prefabs/tree.ron".to_string(), 2), ("prefabs/rock".to_string(), 42)]);
    assert_eq!(line_number_for_match(text, 2), Some(1));
    assert_eq!(line_number_for_match(text, 42), Some(2));
    assert_eq!(line_number_for_match(text, 40), None);
    assert_eq!(line_number_for_match(text, 10_000), None);
    assert_eq!(line_number_for_match("a\nb", 2), Some(1));
    assert_eq!(line_number_for_match("", 0), Some(0));
}

#[test]
fn quoted_strings_and_ids() {
    assert_eq!(parse_quoted_string("  \"a\\\"b\" rest"), Some("a\"b".to_string()));
    assert_eq!(parse_quoted_string("x\"a\""), None);
    assert_eq!(parse_quoted_string("\"open"), None);
    assert_eq!(normalize_prefab_ref("  assets/prefabs/tree.ron "), "prefabs/tree");
    assert_eq!(normalize_prefab_ref("prefabs/rock"), "prefabs/rock");
}

#[test]
fn prefab_graph_and_cycles() {
    let ids = vec!["prefabs/a".to_string(), "prefabs/b".to_string()];
    let refs = prefab_graph_refs("prefab: \"prefabs/b.ron\" prefab: \"prefabs/zzz\"", &ids);
    assert_eq!(refs, vec!["prefabs/b".to_string()]);
    let graph = vec![
        ("prefabs/a".to_string(), vec!["prefabs/b".to_string()]),
        ("prefabs/b".to_string(), vec!["prefabs/a".to_string()]),
    ];
    assert_eq!(find_cycle("prefabs/a", &graph), None);
    assert_eq!(detect_prefab_cycles(&graph), None);
    let unresolved = unresolved_prefab_refs("x\nprefab: \"assets/props/barrel.ron\"", &ids);
    assert_eq!(unresolved, vec![("assets/props/barrel.ron".to_string(), "props/barrel.ron".to_string(), 2)]);
    let err = missing_prefab_ref("assets/s.ron", "assets/props/barrel.ron", "x\nprefab: \"y\"", 2);
    assert_eq!(err.message, "prefab ref 'assets/props/barrel.ron' does not resolve");
    assert_eq!(err.line, Some(1));
}

#[test]
fn finishing_a_validation_run() {
    let (report, code) = finish(vec![], 0, 12);
    assert!(report.ok);
    assert_eq!(code, ExitCode::Success);
    let mut e = validation_error("REF_MISSING", "gone".to_string(), "assets/a.ron");
    e.line = Some(3);
    let (report, code) = finish(vec![e.clone(), validation_error("CONFIG_MISSING", "m".to_string(), "c")], 1, 5);
    assert!(!report.ok);
    assert_eq!(report.error_count, 2);
    assert_eq!(report.warning_count, 1);
    assert_eq!(code, ExitCode::ValidationFailed);
    assert_eq!(report.diagnostics[0].severity, "error");
    assert_eq!(report.diagnostics[0].span.map(|s| s.line), Some(3));
    assert!(report.diagnostics[1].span.is_none());
    let sarif = validation_to_sarif(&report);
    let JsonValue::Object(top) = &sarif else { panic!("object") };
    let keys: Vec<&str> = top.iter().map(|(k, _)| k.as_str()).collect();
    assert_eq!(keys, vec!["$schema", "runs", "version"]);
    let _unused: ValidationError = e;
}

#[test]
fn scene_paths() {
    assert_eq!(resolve_path("/repo", "a/b.ron"), "/repo/a/b.ron");
    assert_eq!(resolve_path("/repo", "/abs.ron"), "/abs.ron");
    assert_eq!(rel_path("/repo", "/repo/a\\b.ron"), "a/b.ron");
    assert_eq!(rel_path("/repo", "/repository/x"), "/repository/x");
    assert_eq!(
        infer_project_root_from_scene("/w/examples/ow/assets/sectors/s.ron"),
        ("/w/examples/ow".to_string(), "assets/sectors/s.ron".to_string())
    );
    assert_eq!(infer_project_root_from_scene("/tmp/s.ron"), ("/tmp".to_string(), "s.ron".to_string()));
    assert!(project_path_safe("assets/a.ron"));
    assert!(!project_path_safe("assets/../x"));
    assert!(!project_path_safe("/x"));
    assert!(!project_path_safe(""));
    assert!(!project_path_safe("a\\b"));
    assert!(project_path_safe("a/..b"));
}

#[test]
fn digest_prefix_is_sha256() {
    assert_eq!(sha256_prefix16(""), "e3b0c44298fc1c14");
    assert_eq!(sha256_prefix16("abc"), "ba7816bf8f01cfea");
    assert_eq!(sorted_unique(&vec!["b".into(), "a".into(), "b".into()]), vec!["a".to_string(), "b".to_string()]);
}

#[test]
fn scenes_and_entities() {
    let data = SectorData {
        id: "sector_0_0".into(),
        data_layers: vec!["gameplay".into()],
        prefabs: vec!["prefabs/camp_fire.ron".into(), "prefabs/.hidden".into()],
    };
    let (kind, entities, diags) = load_scene("s.ron", SceneRead::Parsed(data));
    assert_eq!(kind, "sector");
    assert!(diags.is_empty());
    assert_eq!(entities[0].id, "sector_0_0/entity_0");
    assert_eq!(entities[0].name, Some("camp_fire".to_string()));
    assert_eq!(entities[1].name, Some(".hidden".to_string()));
    let kept = filter_entities(entities.clone(), Some("CAMP"));
    assert_eq!(kept.len(), 1);
    let (found, diags, ok) = inspect_entity(entities, diags, "sector_0_0/entity_1", "s.ron");
    assert!(found.is_some() && diags.is_empty() && ok);
    let (kind, entities, diags) = load_scene("s.ron", SceneRead::Missing);
    assert_eq!(kind, "scene");
    assert_eq!(diags[0].message, "Scene file not found: s.ron");
    let (found, diags, ok) = inspect_entity(entities, diags, "e", "s.ron");
    assert!(found.is_none() && !ok);
    assert_eq!(diags[1].code, "ENTITY_NOT_FOUND");
}

#[test]
fn dry_run_patch_plan() {
    let patch = parse_ron_subset(
        r#"(id: "add_campfire", target: (path: "assets/sectors/s.ron"), ops: [
            (InstantiatePrefab: (entity_id: "camp_1", prefab: "assets/prefabs/fire.ron")),
            (SetTransform: (entity_id: "camp_0")),
            (InstantiatePrefab: (entity_id: "camp_1", prefab: "../escape.ron")),
        ])"#,
    )
    .expect("patch");
    assert_eq!(patch_prefab_checks(&patch), vec!["assets/prefabs/fire.ron".to_string()]);
    let plan = plan_patch(true, true, "assets/sectors/s.ron", "patch.json", &patch, &vec![]);
    assert_eq!(plan.patch_id, "add_campfire");
    assert_eq!(plan.target, "assets/sectors/s.ron");
    assert_eq!(
        plan.affected_files,
        vec!["../escape.ron".to_string(), "assets/prefabs/fire.ron".to_string(), "assets/sectors/s.ron".to_string()]
    );
    assert_eq!(plan.affected_entities, vec!["camp_0".to_string(), "camp_1".to_string()]);
    assert_eq!(plan.ops.len(), 3);
    assert_eq!(plan.ops[1].kind, "SetTransform");
    assert!(plan.ops[1].affected_files.is_empty());
    let codes: Vec<&str> = plan.diagnostics.iter().map(|d| d.code.as_str()).collect();
    assert_eq!(codes, vec!["REF_MISSING", "SCENE_PATCH_INVALID"]);
    assert!(!plan.ok);
    assert!(plan.undo_token.starts_with("undo:dry-run:"));
    assert_eq!(plan.undo_token.len(), "undo:dry-run:".len() + 16);
    let existing = vec!["assets/prefabs/fire.ron".to_string()];
    let again = plan_patch(false, false, "assets/sectors/other.ron", "patch.json", &patch, &existing);
    let codes: Vec<&str> = again.diagnostics.iter().map(|d| d.code.as_str()).collect();
    assert_eq!(codes, vec!["DRY_RUN_REQUIRED", "FILE_MISSING", "TARGET_MISMATCH", "SCENE_PATCH_INVALID"]);
    let empty = plan_patch(true, true, "s.ron", "p", &JsonValue::Null, &vec![]);
    assert_eq!(empty.patch_id, "unknown");
    assert_eq!(empty.target, "s.ron");
    assert!(empty.ok);
    let _n = JsonNumber::PosInt(0);
}

#[test]
fn project_check_findings() {
    let e = schema_version_error(0, "p/aa.project.toml").unwrap();
    assert_eq!(e.code, "SCHEMA_VERSION");
    assert_eq!(e.message, "schema_version must be >= 1");
    assert_eq!(e.path, "p/aa.project.toml");
    assert!(schema_version_error(1, "p/aa.project.toml").is_none());

    let e = config_file_error("input.toml", "p/config/input.toml", &ConfigFileCheck::Missing).unwrap();
    assert_eq!(e.code, "CONFIG_MISSING");
    assert_eq!(e.message, "required config file missing: input.toml");
    assert_eq!(e.path, "p/config/input.toml");
    let e = config_file_error("game.toml", "c/game.toml", &ConfigFileCheck::ReadFailed("denied".to_string())).unwrap();
    assert_eq!(e.code, "CONFIG_PARSE");
    assert_eq!(e.message, "failed to parse TOML: denied");
    let e = config_file_error("game.toml", "c/game.toml", &ConfigFileCheck::Read("key = ".to_string())).unwrap();
    assert_eq!(e.code, "CONFIG_PARSE");
    assert!(e.message.starts_with("failed to parse TOML: "));
    assert!(e.message.len() > "failed to parse TOML: ".len());
    assert_eq!(e.path, "c/game.toml");
    let good = "[app]\ntarget_fps = 60\n".to_string();
    assert!(config_file_error("game.toml", "c/game.toml", &ConfigFileCheck::Read(good)).is_none());

    let e = assets_root_error("assets", "p/assets", false).unwrap();
    assert_eq!(e.code, "ASSETS_ROOT_MISSING");
    assert_eq!(e.message, "assets root not found: assets");
    assert!(assets_root_error("assets", "p/assets", true).is_none());

    let e = ron_file_error("/abs/p/assets/a.ron", "assets/a.ron", &RonFileCheck::ReadFailed("denied".to_string())).unwrap();
    assert_eq!((e.code.as_str(), e.path.as_str()), ("RON_READ", "/abs/p/assets/a.ron"));
    assert_eq!(e.message, "failed to read RON file: denied");
    let e = ron_file_error("/abs/p/assets/a.ron", "assets/a.ron", &RonFileCheck::Read("(a: ".to_string())).unwrap();
    assert_eq!((e.code.as_str(), e.path.as_str()), ("RON_PARSE", "assets/a.ron"));
    assert!(e.message.starts_with("RON parse error: "));
    assert!(e.message.len() > "RON parse error: ".len());
    assert!(ron_file_error("a", "b", &RonFileCheck::Read("(id: \"x\", n: [1, 2])".to_string())).is_none());

    let e = reference_error("startup_scene", "scenes/main", "p/assets/scenes/main.ron", false).unwrap();
    assert_eq!(e.code, "REF_MISSING");
    assert_eq!(e.message, "startup_scene 'scenes/main' not found");
    assert_eq!(e.line, None);
    assert!(reference_error("default_experience", "x", "p/assets/x.ron", true).is_none());
}

#[test]
fn asset_ids_of_ron_files() {
    assert_eq!(asset_id("prefabs/enemy.ron"), ("prefabs/enemy".to_string(), true));
    assert_eq!(asset_id("prefabs\\boss.ron"), ("prefabs/boss".to_string(), true));
    assert_eq!(asset_id("scenes/main.ron"), ("scenes/main".to_string(), false));
    assert_eq!(asset_id("prefabsx.ron"), ("prefabsx".to_string(), false));
    assert_eq!(asset_id("a.b.ron"), ("a.b".to_string(), false));
}

#[test]
fn patch_text_is_read_as_json_or_null() {
    assert!(matches!(patch_value("not json"), JsonValue::Null));
    assert!(matches!(patch_value(""), JsonValue::Null));
    match patch_value(r#"{"id": "p1", "ops": []}"#) {
        JsonValue::Object(entries) => {
            assert_eq!(entries[0].0, "id");
            assert!(matches!(&entries[0].1, JsonValue::String(s) if s == "p1"));
        }
        _ => panic!("expected an object"),
    }
}

#[test]
fn validation_steps_record_findings_and_stop_early() {
    let mut errors = Vec::new();
    let stop = validate_step(
        &mut errors,
        ValidateEvent::ManifestRead { manifest_file: "p/aa.project.toml".to_string(), schema_version: 1 },
    );
    assert!(!stop && errors.is_empty());
    let stop = validate_step(
        &mut errors,
        ValidateEvent::ConfigFile {
            file: "input.toml".to_string(),
            config_path: "p/config/input.toml".to_string(),
            check: ConfigFileCheck::Missing,
        },
    );
    assert!(!stop);
    assert_eq!(errors.len(), 1);
    assert_eq!(errors[0].code, "CONFIG_MISSING");
    let stop = validate_step(
        &mut errors,
        ValidateEvent::AssetsRoot { assets_root: "assets".to_string(), assets_root_path: "p/assets".to_string(), exists: false },
    );
    assert!(stop);
    assert_eq!(errors[1].code, "ASSETS_ROOT_MISSING");
    let mut fresh = Vec::new();
    let stop = validate_step(
        &mut fresh,
        ValidateEvent::ManifestUnreadable { manifest_file: "p/aa.project.toml".to_string(), message: "bad".to_string() },
    );
    assert!(stop);
    assert_eq!((fresh[0].code.as_str(), fresh[0].message.as_str()), ("MANIFEST_PARSE", "bad"));
    assert!(!validate_step(
        &mut fresh,
        ValidateEvent::Reference {
            field: "startup_scene".to_string(),
            name: "scenes/main".to_string(),
            path: "p/assets/scenes/main.ron".to_string(),
            exists: false,
        },
    ));
    assert_eq!(fresh[1].message, "startup_scene 'scenes/main' not found");
}
