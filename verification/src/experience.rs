//! Experience definitions: what an experience grants, and the schema check of
//! its asset.
use vstd::prelude::*;
use crate::assets::SCHEMA_VERSION;
use crate::text::{push_text, push_decimal, decimal};

verus! {

/// Accepts the supported schema version; any other is handed back.
pub fn validate_schema_version(found: u32) -> (r: Result<(), u32>)
    ensures
        found == SCHEMA_VERSION ==> r is Ok,
        found != SCHEMA_VERSION ==> r == Err::<(), u32>(found),
{
    if found != SCHEMA_VERSION {
        Err(found)
    } else {
        Ok(())
    }
}

/// One action of an experience.
#[derive(Debug, Clone, PartialEq, Eq)]
pub enum ExperienceAction {
    GrantAbilitySet { abilities: Vec<String> },
    AddInputContext { context: String },
    LoadAttributeSet { path: String },
}

/// An experience definition.
#[derive(Debug, Clone, PartialEq, Eq)]
pub struct ExperienceDefinitionAsset {
    pub schema_version: u32,
    pub id: String,
    pub display_name: String,
    pub game_features: Vec<String>,
    pub default_pawn: String,
    pub action_sets: Vec<String>,
    pub actions: Vec<ExperienceAction>,
}

/// Why an experience asset could not be loaded.
#[derive(Debug, Clone, PartialEq, Eq)]
pub enum ExperienceAssetLoaderError {
    Io(String),
    Ron(String),
    UnsupportedSchemaVersion(u32),
}

impl ExperienceAssetLoaderError {
    /// The error's text.
    pub fn message(&self) -> (r: String)
        ensures
            r@ == match self {
                ExperienceAssetLoaderError::Io(m) => "io error: "@ + m@,
                ExperienceAssetLoaderError::Ron(m) => "ron parse error: "@ + m@,
                ExperienceAssetLoaderError::UnsupportedSchemaVersion(v) => "unsupported schema_version "@ + decimal(*v as nat),
            },
    {
        let mut out = String::new();
        match self {
            ExperienceAssetLoaderError::Io(m) => {
                push_text(&mut out, "io error: ");
                push_text(&mut out, m.as_str());
            },
            ExperienceAssetLoaderError::Ron(m) => {
                push_text(&mut out, "ron parse error: ");
                push_text(&mut out, m.as_str());
            },
            ExperienceAssetLoaderError::UnsupportedSchemaVersion(v) => {
                push_text(&mut out, "unsupported schema_version ");
                push_decimal(&mut out, *v as u128);
            },
        }
        out
    }
}

/// Loader of experience definitions.
pub struct ExperienceDefinitionLoader;

impl ExperienceDefinitionLoader {
    pub fn extensions(&self) -> (r: Vec<&'static str>)
        ensures
            r@.len() == 1,
            r@[0]@ == "ron"@,
    {
        vec!["ron"]
    }

    /// Whether a parsed definition is taken: a parse error is reported as
    /// such, an unsupported schema version with the version found.
    pub fn load(&self, parsed: Result<ExperienceDefinitionAsset, String>) -> (r: Result<ExperienceDefinitionAsset, ExperienceAssetLoaderError>)
        ensures
            match parsed {
                Err(e) => r == Err::<ExperienceDefinitionAsset, ExperienceAssetLoaderError>(ExperienceAssetLoaderError::Ron(e)),
                Ok(a) => if a.schema_version == SCHEMA_VERSION {
                    r == Ok::<ExperienceDefinitionAsset, ExperienceAssetLoaderError>(a)
                } else {
                    r == Err::<ExperienceDefinitionAsset, ExperienceAssetLoaderError>(ExperienceAssetLoaderError::UnsupportedSchemaVersion(a.schema_version))
                },
            },
    {
        match parsed {
            Err(e) => Err(ExperienceAssetLoaderError::Ron(e)),
            Ok(a) => match validate_schema_version(a.schema_version) {
                Ok(()) => Ok(a),
                Err(found) => Err(ExperienceAssetLoaderError::UnsupportedSchemaVersion(found)),
            },
        }
    }
}

} // verus!
