//! The project manifest `aa.project.toml` and how a project root is found.
use vstd::prelude::*;
use crate::text::{push_text, chars_of, string_of, slice_chars};

verus! {

/// The file that marks a project root.
pub open spec fn manifest_file_name() -> Seq<char> {
    "aa.project.toml"@
}

/// `Path::join` on `/`-separated paths: an absolute `rel` replaces `base`;
/// otherwise a separator goes between them unless `base` is empty or already
/// ends with one.
pub open spec fn path_join(base: Seq<char>, rel: Seq<char>) -> Seq<char> {
    if rel.len() > 0 && rel[0] == '/' {
        rel
    } else if base.len() == 0 || base.last() == '/' {
        base + rel
    } else {
        base + "/"@ + rel
    }
}

/// A path without its trailing separators (the root `/` stays).
pub open spec fn trim_trailing_slashes(p: Seq<char>) -> Seq<char>
    decreases p.len(),
{
    if p.len() > 1 && p.last() == '/' {
        trim_trailing_slashes(p.drop_last())
    } else {
        p
    }
}

/// Index of the last `/` in `p`, or -1.
pub open spec fn last_slash(p: Seq<char>) -> int
    decreases p.len(),
{
    if p.len() == 0 {
        -1
    } else if p.last() == '/' {
        p.len() - 1
    } else {
        last_slash(p.drop_last())
    }
}

/// The last component of a path.
pub open spec fn file_name_of(p: Seq<char>) -> Seq<char> {
    let t = trim_trailing_slashes(p);
    t.skip(last_slash(t) + 1)
}

/// A path without its last component: empty for a single relative
/// component, `/` for a component right under the root.
pub open spec fn parent_of(p: Seq<char>) -> Seq<char> {
    let t = trim_trailing_slashes(p);
    let i = last_slash(t);
    if i < 0 {
        Seq::empty()
    } else if i == 0 {
        "/"@
    } else {
        trim_trailing_slashes(t.take(i))
    }
}

/// Why a project could not be opened.
#[derive(Debug, Clone, PartialEq, Eq)]
pub enum ProjectError {
    ManifestMissing(String),
    Io(String),
    Parse(String),
}

impl ProjectError {
    /// The error's text.
    pub fn message(&self) -> (r: String)
        ensures
            r@ == match self {
                ProjectError::ManifestMissing(p) => "aa.project.toml not found at "@ + p@,
                ProjectError::Io(m) => "failed to read manifest: "@ + m@,
                ProjectError::Parse(m) => "failed to parse manifest: "@ + m@,
            },
    {
        let mut out = String::new();
        match self {
            ProjectError::ManifestMissing(p) => {
                push_text(&mut out, "aa.project.toml not found at ");
                push_text(&mut out, p.as_str());
            },
            ProjectError::Io(m) => {
                push_text(&mut out, "failed to read manifest: ");
                push_text(&mut out, m.as_str());
            },
            ProjectError::Parse(m) => {
                push_text(&mut out, "failed to parse manifest: ");
                push_text(&mut out, m.as_str());
            },
        }
        out
    }
}

/// The `[engine]` section of the project manifest.
#[derive(Debug, Clone, PartialEq, Eq)]
pub struct EngineSection {
    pub config_root: String,
    pub assets_root: String,
    pub default_experience: Option<String>,
    pub startup_scene: Option<String>,
}

/// The project manifest.
#[derive(Debug, Clone, PartialEq, Eq)]
pub struct ProjectManifest {
    pub schema_version: u32,
    pub name: String,
    pub version: String,
    pub engine: EngineSection,
}

/// `base.join(rel)`.
pub fn join_path(base: &str, rel: &str) -> (r: String)
    ensures
        r@ == path_join(base@, rel@),
{
    let b = chars_of(base);
    let relc = chars_of(rel);
    if relc.len() > 0 && relc[0] == '/' {
        return string_of(&relc);
    }
    let mut out = string_of(&b);
    proof {
        reveal_strlit("/");
    }
    if !(b.len() == 0 || b[b.len() - 1] == '/') {
        out.push('/');
        assert(out@ =~= base@ + "/"@);
    }
    push_text(&mut out, rel);
    out
}

/// Where the manifest of a project root lives.
pub fn manifest_path(project_root: &str) -> (r: String)
    ensures
        r@ == path_join(project_root@, manifest_file_name()),
{
    join_path(project_root, "aa.project.toml")
}

/// A path relative to the project root.
pub fn project_path(project_root: &str, relative: &str) -> (r: String)
    ensures
        r@ == path_join(project_root@, relative@),
{
    join_path(project_root, relative)
}

fn trim_slashes(p: &Vec<char>) -> (r: usize)
    ensures
        r <= p.len(),
        p@.take(r as int) == trim_trailing_slashes(p@),
{
    let mut n = p.len();
    assert(p@.take(n as int) =~= p@);
    while n > 1 && p[n - 1] == '/'
        invariant
            n <= p.len(),
            trim_trailing_slashes(p@) == trim_trailing_slashes(p@.take(n as int)),
        decreases n,
    {
        assert(p@.take(n as int).drop_last() =~= p@.take(n - 1));
        n = n - 1;
    }
    n
}

fn find_last_slash(p: &Vec<char>, n: usize) -> (r: Option<usize>)
    requires
        n <= p.len(),
    ensures
        match r {
            Some(i) => i < n && i as int == last_slash(p@.take(n as int)),
            None => last_slash(p@.take(n as int)) == -1,
        },
{
    let mut k = n;
    while k > 0 && p[k - 1] != '/'
        invariant
            k <= n <= p.len(),
            last_slash(p@.take(n as int)) == last_slash(p@.take(k as int)),
        decreases k,
    {
        assert(p@.take(k as int).drop_last() =~= p@.take(k - 1));
        k = k - 1;
    }
    if k == 0 {
        None
    } else {
        Some(k - 1)
    }
}

/// Decides the project root for a path, given the path as canonicalised
/// (or as given, when that failed) and whether a manifest file sits in it:
/// a directory with a manifest is the root; a path to a manifest gives its
/// parent; anything else is an error naming where the manifest was looked for.
pub fn resolve_project_root(path: &str, manifest_is_file: bool) -> (r: Result<String, ProjectError>)
    ensures
        manifest_is_file ==> (r matches Ok(s) && s@ == path@),
        !manifest_is_file && file_name_of(path@) == manifest_file_name() ==> (r matches Ok(s) && s@ == parent_of(path@)),
        !manifest_is_file && file_name_of(path@) != manifest_file_name() ==> (r matches Err(ProjectError::ManifestMissing(m))
            && m@ == path_join(path@, manifest_file_name())),
{
    if manifest_is_file {
        return Ok(path.to_string());
    }
    let p = chars_of(path);
    let n = trim_slashes(&p);
    let ghost t = p@.take(n as int);
    let start = match find_last_slash(&p, n) {
        Some(i) => i + 1,
        None => 0,
    };
    assert(t.skip(start as int) =~= p@.subrange(start as int, n as int));
    let name = slice_chars(&p, start, n);
    let target = chars_of("aa.project.toml");
    if crate::json::chars_equal(&name, &target) {
        let parent = match find_last_slash(&p, n) {
            None => String::new(),
            Some(0) => "/".to_string(),
            Some(i) => {
                let head = slice_chars(&p, 0, i);
                let m = trim_slashes(&head);
                assert(t.take(i as int) =~= head@);
                assert(head@.take(m as int) =~= p@.take(m as int));
                string_of(&slice_chars(&p, 0, m))
            },
        };
        proof {
            reveal_strlit("/");
        }
        return Ok(parent);
    }
    Err(ProjectError::ManifestMissing(manifest_path(path)))
}

/// Configuration files that every project must have.
pub fn required_config_files() -> (r: Vec<&'static str>)
    ensures
        r@.len() == 2,
        r@[0]@ == "engine.toml"@,
        r@[1]@ == "game.toml"@,
{
    vec!["engine.toml", "game.toml"]
}

/// Length of `p` without its trailing separators (see `trim_trailing_slashes`).
pub fn trim_slashes_len(p: &Vec<char>) -> (r: usize)
    ensures
        r <= p.len(),
        p@.take(r as int) == trim_trailing_slashes(p@),
{
    trim_slashes(p)
}

/// The last component of a path (see `file_name_of`).
pub fn file_name_chars(p: &Vec<char>) -> (r: Vec<char>)
    ensures
        r@ == file_name_of(p@),
{
    let n = trim_slashes(p);
    let start = match find_last_slash(p, n) {
        Some(i) => i + 1,
        None => 0,
    };
    assert(p@.take(n as int).skip(start as int) =~= p@.subrange(start as int, n as int));
    slice_chars(p, start, n)
}

/// A path without its last component (see `parent_of`).
pub fn parent_path(path: &str) -> (r: String)
    ensures
        r@ == parent_of(path@),
{
    let p = chars_of(path);
    let n = trim_slashes(&p);
    let ghost t = p@.take(n as int);
    proof {
        reveal_strlit("/");
    }
    match find_last_slash(&p, n) {
        None => String::new(),
        Some(0) => "/".to_string(),
        Some(i) => {
            let head = slice_chars(&p, 0, i);
            let m = trim_slashes(&head);
            assert(t.take(i as int) =~= head@);
            assert(head@.take(m as int) =~= p@.take(m as int));
            string_of(&slice_chars(&p, 0, m))
        },
    }
}

/// How a command ends when the project cannot be opened: a missing manifest
/// is a usage error, anything else an internal one; `None` when it opened.
pub fn resolution_exit_code(resolution: &Result<String, ProjectError>) -> (r: Option<crate::exit_codes::ExitCode>)
    ensures
        r == match resolution {
            Ok(_) => None,
            Err(ProjectError::ManifestMissing(_)) => Some(crate::exit_codes::ExitCode::InvalidArgs),
            Err(_) => Some(crate::exit_codes::ExitCode::InternalError),
        },
{
    match resolution {
        Ok(_) => None,
        Err(ProjectError::ManifestMissing(_)) => Some(crate::exit_codes::ExitCode::InvalidArgs),
        Err(_) => Some(crate::exit_codes::ExitCode::InternalError),
    }
}

/// The roles `aa run` accepts.
pub open spec fn run_role_ok(role: Seq<char>) -> bool {
    role == "client"@ || role == "dedicated_server"@ || role == "editor"@
}

/// Whether `aa run` accepts a role.
pub fn valid_run_role(role: &str) -> (r: bool)
    ensures
        r == run_role_ok(role@),
{
    crate::text::same_text(role, "client") || crate::text::same_text(role, "dedicated_server")
        || crate::text::same_text(role, "editor")
}

} // verus!
