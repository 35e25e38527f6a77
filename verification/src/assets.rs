//! Asset metadata: the gameplay tag dictionary, the asset manifest, the
//! registry of known asset paths, and tag validation.
use vstd::prelude::*;
use crate::text::{strs, same_text, push_text, push_decimal, decimal};

verus! {

/// Supported schema version of every data asset.
pub const SCHEMA_VERSION: u32 = 1;

/// Supported schema version of the tag dictionary.
pub const TAG_DICTIONARY_SCHEMA_VERSION: u32 = SCHEMA_VERSION;

/// Supported schema version of the asset manifest.
pub const ASSET_MANIFEST_SCHEMA_VERSION: u32 = SCHEMA_VERSION;

/// Errors raised while loading or validating assets.
#[derive(Debug, Clone, PartialEq, Eq)]
pub enum AssetError {
    Io(String),
    Ron(String),
    Json(String),
    UnsupportedSchemaVersion { found: u32, expected: u32 },
    UnknownTag(String),
}

impl AssetError {
    /// The error's text.
    pub fn message(&self) -> (r: String)
        ensures
            r@ == match self {
                AssetError::Io(m) => "IO error reading asset: "@ + m@,
                AssetError::Ron(m) => "RON parse error: "@ + m@,
                AssetError::Json(m) => "JSON parse error: "@ + m@,
                AssetError::UnsupportedSchemaVersion { found, expected } => "unsupported schema version "@
                    + decimal(*found as nat) + ", expected "@ + decimal(*expected as nat),
                AssetError::UnknownTag(t) => "unknown gameplay tag: "@ + t@,
            },
    {
        let mut out = String::new();
        match self {
            AssetError::Io(m) => {
                push_text(&mut out, "IO error reading asset: ");
                push_text(&mut out, m.as_str());
            },
            AssetError::Ron(m) => {
                push_text(&mut out, "RON parse error: ");
                push_text(&mut out, m.as_str());
            },
            AssetError::Json(m) => {
                push_text(&mut out, "JSON parse error: ");
                push_text(&mut out, m.as_str());
            },
            AssetError::UnsupportedSchemaVersion { found, expected } => {
                push_text(&mut out, "unsupported schema version ");
                push_decimal(&mut out, *found as u128);
                push_text(&mut out, ", expected ");
                push_decimal(&mut out, *expected as u128);
            },
            AssetError::UnknownTag(t) => {
                push_text(&mut out, "unknown gameplay tag: ");
                push_text(&mut out, t.as_str());
            },
        }
        out
    }
}

/// The gameplay tag dictionary: a schema version and a flat list of dotted tag names.
#[derive(Debug, Clone, PartialEq, Eq)]
pub struct TagDictionary {
    pub schema_version: u32,
    pub tags: Vec<String>,
}

impl TagDictionary {
    /// Accepts the dictionary when its schema version is the supported one.
    pub fn validated(self) -> (r: Result<Self, AssetError>)
        ensures
            self.schema_version == TAG_DICTIONARY_SCHEMA_VERSION ==> r == Ok::<Self, AssetError>(self),
            self.schema_version != TAG_DICTIONARY_SCHEMA_VERSION ==> r == Err::<Self, AssetError>(
                AssetError::UnsupportedSchemaVersion {
                    found: self.schema_version,
                    expected: TAG_DICTIONARY_SCHEMA_VERSION,
                },
            ),
    {
        if self.schema_version != TAG_DICTIONARY_SCHEMA_VERSION {
            return Err(
                AssetError::UnsupportedSchemaVersion {
                    found: self.schema_version,
                    expected: TAG_DICTIONARY_SCHEMA_VERSION,
                },
            );
        }
        Ok(self)
    }

    /// The distinct tag names of the dictionary.
    pub fn tag_set(&self) -> (r: Vec<String>)
        ensures
            strs(r@).no_duplicates(),
            strs(r@).to_set() == strs(self.tags@).to_set(),
    {
        let mut out: Vec<String> = Vec::new();
        let mut i: usize = 0;
        while i < self.tags.len()
            invariant
                i <= self.tags.len(),
                strs(out@).no_duplicates(),
                strs(out@).to_set() == strs(self.tags@.take(i as int)).to_set(),
            decreases self.tags.len() - i,
        {
            let t = &self.tags[i];
            let ghost before = strs(out@);
            if !contains_text_in(&out, t.as_str()) {
                out.push(t.clone());
                assert(strs(out@) =~= before.push(t@));
            } else {
                assert(strs(out@) =~= before);
            }
            assert(strs(self.tags@.take(i + 1)) =~= strs(self.tags@.take(i as int)).push(t@));
            proof {
                strs(self.tags@.take(i as int)).lemma_push_to_set_commute(t@);
                before.lemma_push_to_set_commute(t@);
                if before.contains(t@) {
                    assert(before.to_set().contains(t@));
                    assert(before.to_set().insert(t@) =~= before.to_set());
                }
            }
            assert(strs(out@).to_set() =~= strs(self.tags@.take(i + 1)).to_set());
            i = i + 1;
        }
        assert(self.tags@.take(i as int) =~= self.tags@);
        out
    }

    /// An empty dictionary at the supported schema version.
    pub fn empty() -> (r: Self)
        ensures
            r.schema_version == TAG_DICTIONARY_SCHEMA_VERSION,
            r.tags@.len() == 0,
    {
        TagDictionary { schema_version: TAG_DICTIONARY_SCHEMA_VERSION, tags: Vec::new() }
    }
}

impl Default for TagDictionary {
    fn default() -> (r: Self)
        ensures
            r.schema_version == TAG_DICTIONARY_SCHEMA_VERSION,
            r.tags@.len() == 0,
    {
        TagDictionary::empty()
    }
}

/// Whether some string of `v` holds the text `t`.
fn contains_text_in(v: &Vec<String>, t: &str) -> (r: bool)
    ensures
        r == strs(v@).contains(t@),
{
    let mut i: usize = 0;
    while i < v.len()
        invariant
            i <= v.len(),
            forall|j: int| 0 <= j < i ==> strs(v@)[j] != t@,
        decreases v.len() - i,
    {
        if same_text(v[i].as_str(), t) {
            assert(strs(v@)[i as int] == t@);
            return true;
        }
        i = i + 1;
    }
    false
}

/// Whether `tag` is one of the dictionary's tags.
pub fn tag_exists(dictionary: &TagDictionary, tag: &str) -> (r: bool)
    ensures
        r == strs(dictionary.tags@).contains(tag@),
{
    contains_text_in(&dictionary.tags, tag)
}

/// Accepts a tag that the dictionary knows.
pub fn validate_tag(dictionary: &TagDictionary, tag: &str) -> (r: Result<(), AssetError>)
    ensures
        strs(dictionary.tags@).contains(tag@) ==> r is Ok,
        !strs(dictionary.tags@).contains(tag@) ==> (r matches Err(AssetError::UnknownTag(t)) && t@ == tag@),
{
    if tag_exists(dictionary, tag) {
        Ok(())
    } else {
        Err(AssetError::UnknownTag(tag.to_string()))
    }
}

/// Accepts tags that the dictionary all knows; otherwise reports the first unknown one.
pub fn validate_tags(dictionary: &TagDictionary, tags: &[&str]) -> (r: Result<(), AssetError>)
    ensures
        r is Ok <==> (forall|i: int| 0 <= i < tags@.len() ==> strs(dictionary.tags@).contains(#[trigger] tags@[i]@)),
        r matches Err(e) ==> exists|i: int|
            0 <= i < tags@.len() && !strs(dictionary.tags@).contains(#[trigger] tags@[i]@) && (forall|j: int|
                0 <= j < i ==> strs(dictionary.tags@).contains(#[trigger] tags@[j]@)) && (e matches AssetError::UnknownTag(t) && t@ == tags@[i]@),
{
    let mut i: usize = 0;
    while i < tags.len()
        invariant
            i <= tags@.len(),
            forall|j: int| 0 <= j < i ==> strs(dictionary.tags@).contains(#[trigger] tags@[j]@),
        decreases tags.len() - i,
    {
        let r = validate_tag(dictionary, tags[i]);
        if r.is_err() {
            assert(!strs(dictionary.tags@).contains(tags@[i as int]@));
            return r;
        }
        i = i + 1;
    }
    Ok(())
}

} // verus!

verus! {

/// The tag dictionary as held at run time: the dictionary, and whether it was
/// loaded from disk (else it is the empty default).
#[derive(Debug)]
pub struct TagDictionaryResource {
    dictionary: TagDictionary,
    loaded: bool,
}

impl TagDictionaryResource {
    pub closed spec fn dict(self) -> TagDictionary {
        self.dictionary
    }

    pub closed spec fn loaded_from_disk(self) -> bool {
        self.loaded
    }

    /// The dictionary, when one was loaded.
    pub fn get(&self) -> (r: Option<&TagDictionary>)
        ensures
            self.loaded_from_disk() ==> r == Some(&self.dict()),
            !self.loaded_from_disk() ==> r is None,
    {
        if self.loaded {
            Some(&self.dictionary)
        } else {
            None
        }
    }

    /// The dictionary, loaded or not.
    pub fn dictionary(&self) -> (r: &TagDictionary)
        ensures
            *r == self.dict(),
    {
        &self.dictionary
    }

    pub fn is_loaded(&self) -> (r: bool)
        ensures
            r == self.loaded_from_disk(),
    {
        self.loaded
    }

    /// Installs a dictionary read from disk.
    pub fn set_loaded(&mut self, dictionary: TagDictionary)
        ensures
            final(self).dict() == dictionary,
            final(self).loaded_from_disk(),
    {
        self.dictionary = dictionary;
        self.loaded = true;
    }
}

impl Default for TagDictionaryResource {
    fn default() -> (r: Self)
        ensures
            r.dict().schema_version == TAG_DICTIONARY_SCHEMA_VERSION,
            r.dict().tags@.len() == 0,
            !r.loaded_from_disk(),
    {
        TagDictionaryResource { dictionary: TagDictionary::empty(), loaded: false }
    }
}

/// Startup loading of the tag dictionary, given what reading the file gave:
/// nothing when there is no file, else the parsed dictionary or the error.
/// A dictionary is validated and installed; an error is handed back to be reported.
pub fn load_tag_dictionary(resource: &mut TagDictionaryResource, read: Option<Result<TagDictionary, AssetError>>) -> (r: Option<AssetError>)
    ensures
        match read {
            None => r is None && *final(resource) == *old(resource),
            Some(Err(e)) => r == Some(e) && *final(resource) == *old(resource),
            Some(Ok(d)) => if d.schema_version == TAG_DICTIONARY_SCHEMA_VERSION {
                r is None && final(resource).dict() == d && final(resource).loaded_from_disk()
            } else {
                r == Some(AssetError::UnsupportedSchemaVersion { found: d.schema_version, expected: TAG_DICTIONARY_SCHEMA_VERSION })
                    && *final(resource) == *old(resource)
            },
        },
{
    match read {
        None => None,
        Some(Err(e)) => Some(e),
        Some(Ok(d)) => match d.validated() {
            Ok(d) => {
                resource.set_loaded(d);
                None
            },
            Err(e) => Some(e),
        },
    }
}

/// One row of the asset manifest.
#[derive(Debug, Clone, PartialEq, Eq)]
pub struct AssetManifestEntry {
    pub id: String,
    pub kind: String,
    pub hash: String,
    pub deps: Vec<String>,
}

/// The manifest of known assets, their hashes and dependencies.
#[derive(Debug, Clone, PartialEq, Eq)]
pub struct AssetManifest {
    pub schema_version: u32,
    pub generated_at: String,
    pub assets: Vec<AssetManifestEntry>,
}

impl AssetManifest {
    /// Accepts the manifest when its schema version is the supported one.
    pub fn validated(self) -> (r: Result<Self, AssetError>)
        ensures
            self.schema_version == ASSET_MANIFEST_SCHEMA_VERSION ==> r == Ok::<Self, AssetError>(self),
            self.schema_version != ASSET_MANIFEST_SCHEMA_VERSION ==> r == Err::<Self, AssetError>(
                AssetError::UnsupportedSchemaVersion {
                    found: self.schema_version,
                    expected: ASSET_MANIFEST_SCHEMA_VERSION,
                },
            ),
    {
        if self.schema_version != ASSET_MANIFEST_SCHEMA_VERSION {
            return Err(
                AssetError::UnsupportedSchemaVersion {
                    found: self.schema_version,
                    expected: ASSET_MANIFEST_SCHEMA_VERSION,
                },
            );
        }
        Ok(self)
    }
}

/// The set of known asset paths, each held once.
#[derive(Debug)]
pub struct AssetRegistry {
    paths: Vec<String>,
}

impl View for AssetRegistry {
    type V = Set<Seq<char>>;

    closed spec fn view(&self) -> Set<Seq<char>> {
        strs(self.paths@).to_set()
    }
}

impl AssetRegistry {
    #[verifier::type_invariant]
    closed spec fn each_path_once(self) -> bool {
        strs(self.paths@).no_duplicates()
    }

    pub fn new() -> (r: Self)
        ensures
            r@ == Set::<Seq<char>>::empty(),
    {
        let r = AssetRegistry { paths: Vec::new() };
        assert(r@ =~= Set::<Seq<char>>::empty());
        r
    }

    /// Adds a path; a path already known stays known once.
    pub fn register(&mut self, path: String)
        ensures
            final(self)@ == old(self)@.insert(path@),
    {
        proof {
            use_type_invariant(&*self);
        }
        let ghost before = strs(self.paths@);
        if !contains_text_in(&self.paths, path.as_str()) {
            let ghost p = path@;
            let mut paths: Vec<String> = Vec::new();
            std::mem::swap(&mut paths, &mut self.paths);
            paths.push(path);
            assert(strs(paths@) =~= before.push(p));
            self.paths = paths;
            proof {
                before.lemma_push_to_set_commute(p);
            }
        } else {
            assert(before.to_set().contains(path@));
            assert(before.to_set().insert(path@) =~= before.to_set());
        }
    }

    pub fn contains(&self, path: &str) -> (r: bool)
        ensures
            r == self@.contains(path@),
    {
        contains_text_in(&self.paths, path)
    }

    /// The registered path equal to `path`, if there is one.
    pub fn resolve(&self, path: &str) -> (r: Option<&str>)
        ensures
            self@.contains(path@) ==> (r matches Some(p) && p@ == path@),
            !self@.contains(path@) ==> r is None,
    {
        let mut i: usize = 0;
        while i < self.paths.len()
            invariant
                i <= self.paths.len(),
                forall|j: int| 0 <= j < i ==> strs(self.paths@)[j] != path@,
            decreases self.paths.len() - i,
        {
            if same_text(self.paths[i].as_str(), path) {
                assert(strs(self.paths@)[i as int] == path@);
                assert(strs(self.paths@).to_set().contains(path@));
                return Some(self.paths[i].as_str());
            }
            i = i + 1;
        }
        None
    }

    /// Every registered path, once each.
    pub fn iter(&self) -> (r: Vec<String>)
        ensures
            strs(r@).no_duplicates(),
            strs(r@).to_set() == self@,
    {
        proof {
            use_type_invariant(self);
        }
        let mut out: Vec<String> = Vec::new();
        let mut i: usize = 0;
        while i < self.paths.len()
            invariant
                i <= self.paths.len(),
                strs(self.paths@).no_duplicates(),
                strs(out@) == strs(self.paths@).take(i as int),
            decreases self.paths.len() - i,
        {
            let c = self.paths[i].clone();
            let ghost before = strs(out@);
            out.push(c);
            assert(strs(out@) =~= before.push(self.paths@[i as int]@));
            assert(strs(out@) =~= strs(self.paths@).take(i + 1));
            i = i + 1;
        }
        assert(strs(self.paths@).take(i as int) =~= strs(self.paths@));
        out
    }

    /// Number of registered paths.
    pub fn len(&self) -> (r: usize)
        ensures
            r == self@.len(),
    {
        proof {
            use_type_invariant(self);
            strs(self.paths@).unique_seq_to_set();
        }
        self.paths.len()
    }

    pub fn is_empty(&self) -> (r: bool)
        ensures
            r == (self@.len() == 0),
    {
        self.len() == 0
    }
}

/// Registering a path makes it known (so `contains` and `resolve` find it) and
/// leaves every other path's answer as it was; registering a known path again
/// changes nothing, and a new one adds exactly one to the count.
pub proof fn law_register_then_lookup(before: Set<Seq<char>>, p: Seq<char>, q: Seq<char>)
    requires
        before.finite(),
    ensures
        before.insert(p).contains(p),
        q != p ==> before.insert(p).contains(q) == before.contains(q),
        before.contains(p) ==> before.insert(p) == before,
        before.contains(p) ==> before.insert(p).len() == before.len(),
        !before.contains(p) ==> before.insert(p).len() == before.len() + 1,
{
    if before.contains(p) {
        assert(before.insert(p) =~= before);
    }
}

/// Startup loading of the asset manifest, given what reading the file gave:
/// every asset id of a valid manifest is registered; an error is handed back
/// to be reported.
pub fn load_asset_manifest(registry: &mut AssetRegistry, read: Option<Result<AssetManifest, AssetError>>) -> (r: Option<AssetError>)
    ensures
        match read {
            None => r is None && final(registry)@ == old(registry)@,
            Some(Err(e)) => r == Some(e) && final(registry)@ == old(registry)@,
            Some(Ok(m)) => if m.schema_version == ASSET_MANIFEST_SCHEMA_VERSION {
                r is None && final(registry)@ == old(registry)@ + Set::new(|id: Seq<char>| exists|i: int| 0 <= i < m.assets@.len() && #[trigger] m.assets@[i].id@ == id)
            } else {
                r == Some(AssetError::UnsupportedSchemaVersion { found: m.schema_version, expected: ASSET_MANIFEST_SCHEMA_VERSION })
                    && final(registry)@ == old(registry)@
            },
        },
{
    match read {
        None => None,
        Some(Err(e)) => Some(e),
        Some(Ok(m)) => match m.validated() {
            Err(e) => Some(e),
            Ok(m) => {
                let ghost start = registry@;
                let mut i: usize = 0;
                while i < m.assets.len()
                    invariant
                        i <= m.assets.len(),
                        registry@ == start + Set::new(|id: Seq<char>| exists|j: int| 0 <= j < i && #[trigger] m.assets@[j].id@ == id),
                    decreases m.assets.len() - i,
                {
                    let id = m.assets[i].id.clone();
                    registry.register(id);
                    assert(registry@ =~= start + Set::new(|id: Seq<char>| exists|j: int| 0 <= j < i + 1 && #[trigger] m.assets@[j].id@ == id));
                    i = i + 1;
                }
                assert(registry@ =~= start + Set::new(|id: Seq<char>| exists|j: int| 0 <= j < m.assets@.len() && #[trigger] m.assets@[j].id@ == id));
                None
            },
        },
    }
}

} // verus!
