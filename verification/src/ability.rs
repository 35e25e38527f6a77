//! Gameplay ability data: schema checks of the ability assets and the tick
//! count of periodic effects.
use vstd::prelude::*;
use crate::assets::SCHEMA_VERSION;
use crate::text::{push_text, push_decimal, decimal};

verus! {

/// Accepts the supported schema version; any other is handed back.
pub fn validate_schema_version(found: u32) -> (r: Result<(), u32>)
    ensures
        found == SCHEMA_VERSION ==> r is Ok,
        found != SCHEMA_VERSION ==> r == Err::<(), u32>(found),
{
    if found != SCHEMA_VERSION {
        Err(found)
    } else {
        Ok(())
    }
}

/// Why an ability asset could not be loaded.
#[derive(Debug, Clone, PartialEq, Eq)]
pub enum AbilityAssetLoaderError {
    Io(String),
    Ron(String),
    UnsupportedSchemaVersion(u32),
}

impl AbilityAssetLoaderError {
    /// The error's text.
    pub fn message(&self) -> (r: String)
        ensures
            r@ == match self {
                AbilityAssetLoaderError::Io(m) => "io error: "@ + m@,
                AbilityAssetLoaderError::Ron(m) => "ron parse error: "@ + m@,
                AbilityAssetLoaderError::UnsupportedSchemaVersion(v) => "unsupported schema_version "@ + decimal(*v as nat),
            },
    {
        let mut out = String::new();
        match self {
            AbilityAssetLoaderError::Io(m) => {
                push_text(&mut out, "io error: ");
                push_text(&mut out, m.as_str());
            },
            AbilityAssetLoaderError::Ron(m) => {
                push_text(&mut out, "ron parse error: ");
                push_text(&mut out, m.as_str());
            },
            AbilityAssetLoaderError::UnsupportedSchemaVersion(v) => {
                push_text(&mut out, "unsupported schema_version ");
                push_decimal(&mut out, *v as u128);
            },
        }
        out
    }
}

/// What loading an ability asset ends with, given what parsing its RON gave
/// (its schema version, or the parse error).
pub open spec fn ability_load_outcome(parsed: Result<u32, String>) -> Result<(), AbilityAssetLoaderError> {
    match parsed {
        Err(e) => Err(AbilityAssetLoaderError::Ron(e)),
        Ok(v) => if v == SCHEMA_VERSION {
            Ok(())
        } else {
            Err(AbilityAssetLoaderError::UnsupportedSchemaVersion(v))
        },
    }
}

fn accept_ability_asset(parsed: Result<u32, String>) -> (r: Result<(), AbilityAssetLoaderError>)
    ensures
        r == ability_load_outcome(parsed),
{
    match parsed {
        Err(e) => Err(AbilityAssetLoaderError::Ron(e)),
        Ok(v) => match validate_schema_version(v) {
            Ok(()) => Ok(()),
            Err(found) => Err(AbilityAssetLoaderError::UnsupportedSchemaVersion(found)),
        },
    }
}

/// The file extensions the asset loaders take.
pub fn ron_extensions() -> (r: Vec<&'static str>)
    ensures
        r@.len() == 1,
        r@[0]@ == "ron"@,
{
    vec!["ron"]
}

/// Loader of attribute-set assets.
pub struct AttributeSetAssetLoader;

/// Loader of gameplay-effect assets.
pub struct GameplayEffectAssetLoader;

/// Loader of gameplay-ability assets.
pub struct GameplayAbilityAssetLoader;

impl AttributeSetAssetLoader {
    pub fn extensions(&self) -> (r: Vec<&'static str>)
        ensures
            r@.len() == 1,
            r@[0]@ == "ron"@,
    {
        ron_extensions()
    }

    /// Whether a parsed asset is taken (see `ability_load_outcome`).
    pub fn accept(&self, parsed: Result<u32, String>) -> (r: Result<(), AbilityAssetLoaderError>)
        ensures
            r == ability_load_outcome(parsed),
    {
        accept_ability_asset(parsed)
    }
}

impl GameplayEffectAssetLoader {
    pub fn extensions(&self) -> (r: Vec<&'static str>)
        ensures
            r@.len() == 1,
            r@[0]@ == "ron"@,
    {
        ron_extensions()
    }

    /// Whether a parsed asset is taken (see `ability_load_outcome`).
    pub fn accept(&self, parsed: Result<u32, String>) -> (r: Result<(), AbilityAssetLoaderError>)
        ensures
            r == ability_load_outcome(parsed),
    {
        accept_ability_asset(parsed)
    }
}

impl GameplayAbilityAssetLoader {
    pub fn extensions(&self) -> (r: Vec<&'static str>)
        ensures
            r@.len() == 1,
            r@[0]@ == "ron"@,
    {
        ron_extensions()
    }

    /// Whether a parsed asset is taken (see `ability_load_outcome`).
    pub fn accept(&self, parsed: Result<u32, String>) -> (r: Result<(), AbilityAssetLoaderError>)
        ensures
            r == ability_load_outcome(parsed),
    {
        accept_ability_asset(parsed)
    }
}

/// The tick count of an effect that never runs out.
pub const INFINITE_TICKS: u32 = 0xffff_ffff;

/// The ticks an effect has left after one of its periods: an infinite effect
/// keeps its count, any other loses one (not going below zero); it is removed
/// when none are left.
pub fn tick_remaining(remaining: u32) -> (r: (u32, bool))
    ensures
        r.0 == if remaining == INFINITE_TICKS {
            remaining
        } else if remaining == 0 {
            0
        } else {
            (remaining - 1) as u32
        },
        r.1 == (r.0 == 0),
{
    let next = if remaining != INFINITE_TICKS {
        remaining.saturating_sub(1)
    } else {
        remaining
    };
    (next, next == 0)
}

/// Application role, set once at boot.
#[derive(Debug, Clone, Copy, PartialEq, Eq, Hash)]
pub enum AppRole {
    Client,
    DedicatedServer,
    ListenServer,
    Editor,
}

impl AppRole {
    /// Whether the role runs the server side.
    pub fn is_server(&self) -> (r: bool)
        ensures
            r == (*self == AppRole::DedicatedServer || *self == AppRole::ListenServer),
    {
        match self {
            AppRole::DedicatedServer | AppRole::ListenServer => true,
            _ => false,
        }
    }
}

impl Default for AppRole {
    fn default() -> (r: Self)
        ensures
            r == AppRole::Client,
    {
        AppRole::Client
    }
}

/// Locomotion state of a character.
#[derive(Debug, Clone, Copy, PartialEq, Eq)]
pub enum LocomotionState {
    Idle,
    Walk,
    Run,
}

impl Default for LocomotionState {
    fn default() -> (r: Self)
        ensures
            r == LocomotionState::Idle,
    {
        LocomotionState::Idle
    }
}

} // verus!
