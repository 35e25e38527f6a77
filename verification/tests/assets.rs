use aa_engine::assets::{
    load_asset_manifest, load_tag_dictionary, tag_exists, validate_tag, validate_tags, AssetError,
    AssetManifest, AssetManifestEntry, AssetRegistry, TagDictionary, TagDictionaryResource,
    TAG_DICTIONARY_SCHEMA_VERSION,
};

fn sample_dictionary() -> TagDictionary {
    TagDictionary {
        schema_version: TAG_DICTIONARY_SCHEMA_VERSION,
        tags: vec!["State.Stunned".to_string(), "Damage.Fire".to_string()],
    }
}

#[test]
fn known_tag_passes_validation() {
    let dictionary = sample_dictionary();
    assert!(tag_exists(&dictionary, "Damage.Fire"));
    validate_tag(&dictionary, "Damage.Fire").expect("known tag");
}

#[test]
fn unknown_tag_fails_validation() {
    let dictionary = sample_dictionary();
    let error = validate_tag(&dictionary, "Ability.Missing").unwrap_err();
    assert!(matches!(error, AssetError::UnknownTag(_)));
}

#[test]
fn validate_tags_reports_first_unknown() {
    let dictionary = sample_dictionary();
    assert_eq!(validate_tags(&dictionary, &["State.Stunned", "Damage.Fire"]), Ok(()));
    assert_eq!(
        validate_tags(&dictionary, &["Damage.Fire", "A.B", "C.D"]),
        Err(AssetError::UnknownTag("A.B".to_string()))
    );
    assert_eq!(validate_tags(&dictionary, &[]), Ok(()));
}

#[test]
fn tag_dictionary_version_is_checked() {
    let ok = sample_dictionary().validated();
    assert_eq!(ok, Ok(sample_dictionary()));
    let bad = TagDictionary { schema_version: 2, tags: vec![] }.validated();
    assert_eq!(bad, Err(AssetError::UnsupportedSchemaVersion { found: 2, expected: 1 }));
}

#[test]
fn tag_set_holds_each_tag_once() {
    let dictionary = TagDictionary {
        schema_version: 1,
        tags: vec!["A".to_string(), "B".to_string(), "A".to_string()],
    };
    let set = dictionary.tag_set();
    assert_eq!(set, vec!["A".to_string(), "B".to_string()]);
}

#[test]
fn asset_error_messages() {
    assert_eq!(AssetError::UnknownTag("X".into()).message(), "unknown gameplay tag: X");
    assert_eq!(
        AssetError::UnsupportedSchemaVersion { found: 3, expected: 1 }.message(),
        "unsupported schema version 3, expected 1"
    );
    assert_eq!(AssetError::Io("gone".into()).message(), "IO error reading asset: gone");
    assert_eq!(AssetError::Ron("bad".into()).message(), "RON parse error: bad");
    assert_eq!(AssetError::Json("bad".into()).message(), "JSON parse error: bad");
}

#[test]
fn registry_holds_each_path_once() {
    let mut registry = AssetRegistry::new();
    assert!(registry.is_empty());
    registry.register("abilities/fireball.ron".to_string());
    registry.register("effects/burning.ron".to_string());
    registry.register("abilities/fireball.ron".to_string());
    assert_eq!(registry.len(), 2);
    assert!(registry.contains("effects/burning.ron"));
    assert!(!registry.contains("effects/missing.ron"));
    assert_eq!(registry.resolve("abilities/fireball.ron"), Some("abilities/fireball.ron"));
    assert_eq!(registry.resolve("nope"), None);
    let mut all = registry.iter();
    all.sort();
    assert_eq!(all, vec!["abilities/fireball.ron".to_string(), "effects/burning.ron".to_string()]);
}

#[test]
fn manifest_ids_are_registered() {
    let manifest = AssetManifest {
        schema_version: 1,
        generated_at: "2026-06-13T12:00:00Z".to_string(),
        assets: vec![AssetManifestEntry {
            id: "abilities/fireball.ron".to_string(),
            kind: "gameplay_ability".to_string(),
            hash: "sha256:def456".to_string(),
            deps: vec!["effects/burning.ron".to_string()],
        }],
    };
    let mut registry = AssetRegistry::new();
    assert_eq!(load_asset_manifest(&mut registry, Some(Ok(manifest.clone()))), None);
    assert!(registry.contains("abilities/fireball.ron"));
    assert_eq!(registry.len(), 1);

    let mut other = AssetRegistry::new();
    let old = AssetManifest { schema_version: 0, ..manifest };
    assert_eq!(
        load_asset_manifest(&mut other, Some(Ok(old))),
        Some(AssetError::UnsupportedSchemaVersion { found: 0, expected: 1 })
    );
    assert!(other.is_empty());
    assert_eq!(load_asset_manifest(&mut other, None), None);
}

#[test]
fn tag_dictionary_resource_loading() {
    let mut resource = TagDictionaryResource::default();
    assert!(!resource.is_loaded());
    assert!(resource.get().is_none());
    assert_eq!(resource.dictionary().tags.len(), 0);
    assert_eq!(load_tag_dictionary(&mut resource, None), None);
    assert!(!resource.is_loaded());
    let err = load_tag_dictionary(&mut resource, Some(Err(AssetError::Ron("x".into()))));
    assert_eq!(err, Some(AssetError::Ron("x".into())));
    assert!(!resource.is_loaded());
    assert_eq!(load_tag_dictionary(&mut resource, Some(Ok(sample_dictionary()))), None);
    assert!(resource.is_loaded());
    assert_eq!(resource.get(), Some(&sample_dictionary()));
}
