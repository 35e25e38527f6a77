use aa_engine::ability::{
    tick_remaining, validate_schema_version, AbilityAssetLoaderError, AppRole, AttributeSetAssetLoader,
    GameplayAbilityAssetLoader, GameplayEffectAssetLoader, LocomotionState, INFINITE_TICKS,
};
use aa_engine::experience::{
    ExperienceAction, ExperienceAssetLoaderError, ExperienceDefinitionAsset, ExperienceDefinitionLoader,
};

#[test]
fn schema_versions() {
    assert_eq!(validate_schema_version(1), Ok(()));
    assert_eq!(validate_schema_version(2), Err(2));
    assert_eq!(aa_engine::experience::validate_schema_version(0), Err(0));
}

#[test]
fn ability_loaders() {
    assert_eq!(AttributeSetAssetLoader.extensions(), vec!["ron"]);
    assert_eq!(GameplayEffectAssetLoader.extensions(), vec!["ron"]);
    assert_eq!(GameplayAbilityAssetLoader.accept(Ok(1)), Ok(()));
    assert_eq!(
        GameplayEffectAssetLoader.accept(Ok(7)),
        Err(AbilityAssetLoaderError::UnsupportedSchemaVersion(7))
    );
    assert_eq!(
        AttributeSetAssetLoader.accept(Err("expected struct".into())),
        Err(AbilityAssetLoaderError::Ron("expected struct".into()))
    );
    assert_eq!(AbilityAssetLoaderError::UnsupportedSchemaVersion(7).message(), "unsupported schema_version 7");
    assert_eq!(AbilityAssetLoaderError::Io("gone".into()).message(), "io error: gone");
}

#[test]
fn effect_ticks() {
    assert_eq!(tick_remaining(3), (2, false));
    assert_eq!(tick_remaining(1), (0, true));
    assert_eq!(tick_remaining(0), (0, true));
    assert_eq!(tick_remaining(INFINITE_TICKS), (INFINITE_TICKS, false));
}

#[test]
fn roles_and_states() {
    assert!(AppRole::DedicatedServer.is_server());
    assert!(AppRole::ListenServer.is_server());
    assert!(!AppRole::Client.is_server());
    assert!(!AppRole::Editor.is_server());
    assert_eq!(AppRole::default(), AppRole::Client);
    assert_eq!(LocomotionState::default(), LocomotionState::Idle);
}

#[test]
fn experience_loader() {
    let asset = ExperienceDefinitionAsset {
        schema_version: 1,
        id: "experiences/demo".into(),
        display_name: "Demo".into(),
        game_features: vec![],
        default_pawn: "prefabs/player".into(),
        action_sets: vec![],
        actions: vec![ExperienceAction::GrantAbilitySet { abilities: vec!["abilities/fireball".into()] }],
    };
    assert_eq!(ExperienceDefinitionLoader.extensions(), vec!["ron"]);
    assert_eq!(ExperienceDefinitionLoader.load(Ok(asset.clone())), Ok(asset.clone()));
    let old = ExperienceDefinitionAsset { schema_version: 3, ..asset };
    assert_eq!(
        ExperienceDefinitionLoader.load(Ok(old)),
        Err(ExperienceAssetLoaderError::UnsupportedSchemaVersion(3))
    );
    assert_eq!(
        ExperienceDefinitionLoader.load(Err("bad".into())),
        Err(ExperienceAssetLoaderError::Ron("bad".into()))
    );
    assert_eq!(ExperienceAssetLoaderError::Ron("bad".into()).message(), "ron parse error: bad");
}
