//! `aa scene`: scene files, their entities, and dry-run scene patches.
use vstd::prelude::*;
use crate::json::{JsonValue, JsonModel, key_less, chars_less, chars_equal, get_key, as_str, get, models, lemma_array_model, lemma_object_model};
use crate::text::{chars_of, string_of, slice_chars, starts_with, contains_char, occurs_at, split_char, views, split_from, push_text, strs, find_from, matches_at, contains_ch};
use crate::project::{path_join, join_path, trim_trailing_slashes, file_name_of, parent_of};
use crate::config::{lemma_key_less_transitive, lemma_key_less_total};
use crate::schema_subset::{joined, lemma_joined_push};
use vstd::string::StringSliceAdditionalSpecFns;

verus! {

/// `s.replace('\\', "/")`.
pub open spec fn forward_slashes(s: Seq<char>) -> Seq<char> {
    s.map_values(|c: char| if c == '\\' { '/' } else { c })
}

pub(crate) fn to_forward_slashes(s: &Vec<char>) -> (r: Vec<char>)
    ensures
        r@ == forward_slashes(s@),
{
    let mut out: Vec<char> = Vec::new();
    let mut i: usize = 0;
    while i < s.len()
        invariant
            i <= s.len(),
            out@ == forward_slashes(s@.take(i as int)),
        decreases s.len() - i,
    {
        let c = if s[i] == '\\' { '/' } else { s[i] };
        out.push(c);
        assert(forward_slashes(s@.take(i + 1)) =~= forward_slashes(s@.take(i as int)).push(c));
        i = i + 1;
    }
    assert(s@.take(i as int) =~= s@);
    out
}

/// A path argument taken relative to the repository root unless it is absolute.
pub fn resolve_path(repo: &str, arg: &str) -> (r: String)
    ensures
        r@ == path_join(repo@, arg@),
{
    join_path(repo, arg)
}

/// `path` with the leading `base` directory removed, when `base` is one of
/// its leading directories (the whole text of `base`, then a separator or the
/// end).
pub open spec fn strip_dir_prefix(path: Seq<char>, base: Seq<char>) -> Option<Seq<char>> {
    if base.len() == 0 {
        Some(path)
    } else if !starts_with(path, base) {
        None
    } else if path.len() == base.len() {
        Some(Seq::empty())
    } else if base.last() == '/' {
        Some(path.skip(base.len() as int))
    } else if path[base.len() as int] == '/' {
        Some(path.skip(base.len() as int + 1))
    } else {
        None
    }
}

/// A path as reported relative to the repository: without the repository
/// prefix when it has one, with forward slashes.
pub open spec fn relative_to(repo: Seq<char>, path: Seq<char>) -> Seq<char> {
    forward_slashes(
        match strip_dir_prefix(path, repo) {
            Some(rest) => rest,
            None => path,
        },
    )
}

/// A path as reported relative to the repository (see `relative_to`).
pub fn rel_path(repo: &str, path: &str) -> (r: String)
    ensures
        r@ == relative_to(repo@, path@),
{
    let b = chars_of(repo);
    let p = chars_of(path);
    let rest: Vec<char> = if b.len() == 0 {
        p.clone()
    } else if !matches_at(&p, &b, 0) {
        p.clone()
    } else if p.len() == b.len() {
        Vec::new()
    } else if b[b.len() - 1] == '/' {
        slice_chars(&p, b.len(), p.len())
    } else if p[b.len()] == '/' {
        slice_chars(&p, b.len() + 1, p.len())
    } else {
        p.clone()
    };
    proof {
        if b.len() > 0 && occurs_at(p@, b@, 0) {
            if p.len() > b.len() {
                assert(p@.skip(b@.len() as int) =~= p@.subrange(b@.len() as int, p@.len() as int));
                assert(p@.skip(b@.len() as int + 1) =~= p@.subrange(b@.len() as int + 1, p@.len() as int));
            }
        }
    }
    assert(rest@ == match strip_dir_prefix(p@, b@) {
        Some(x) => x,
        None => p@,
    });
    string_of(&to_forward_slashes(&rest))
}

/// A path that stays inside the project: not empty, not absolute, without
/// backslashes, and with no `..` component.
pub open spec fn path_is_project_safe(path: Seq<char>) -> bool {
    &&& path.len() > 0
    &&& path[0] != '/'
    &&& !contains_char(path, '\\')
    &&& !split_char(path, '/').contains(".."@)
}

/// Whether a path stays inside the project (see `path_is_project_safe`).
pub fn project_path_safe(path: &str) -> (r: bool)
    ensures
        r == path_is_project_safe(path@),
{
    let p = chars_of(path);
    if p.len() == 0 || p[0] == '/' || contains_ch(&p, '\\') {
        return false;
    }
    let parts = split_from(&p, 0, '/');
    assert(p@.skip(0) =~= p@);
    let dots = chars_of("..");
    let mut i: usize = 0;
    while i < parts.len()
        invariant
            i <= parts.len(),
            views(parts@) == split_char(p@, '/'),
            p@ == path@,
            dots@ == ".."@,
            forall|j: int| 0 <= j < i ==> views(parts@)[j] != ".."@,
        decreases parts.len() - i,
    {
        if chars_equal(&parts[i], &dots) {
            assert(views(parts@)[i as int] == ".."@);
            assert(split_char(p@, '/')[i as int] == ".."@);
            assert(split_char(p@, '/').contains(".."@));
            return false;
        }
        i = i + 1;
    }
    true
}

/// The last component of a path when it names something (not the root, not `..`).
pub open spec fn file_name_opt(p: Seq<char>) -> Option<Seq<char>> {
    let name = file_name_of(p);
    if name.len() == 0 || name == ".."@ {
        None
    } else {
        Some(name)
    }
}

/// Where a scene's project starts and the scene's path inside it: up to the
/// `/assets/` directory when the path has one; otherwise the scene's
/// directory and its file name.
pub open spec fn scene_project(resolved: Seq<char>) -> (Seq<char>, Seq<char>) {
    let normalized = forward_slashes(resolved);
    if exists|i: int| occurs_at(normalized, "/assets/"@, i) {
        let idx = choose|i: int| occurs_at(normalized, "/assets/"@, i) && forall|j: int| 0 <= j < i ==> !occurs_at(normalized, "/assets/"@, j);
        (normalized.take(idx), normalized.skip(idx + 1))
    } else {
        let t = trim_trailing_slashes(resolved);
        let parent = if t.len() == 0 || t == "/"@ {
            resolved
        } else {
            parent_of(resolved)
        };
        let name = match file_name_opt(resolved) {
            Some(n) => n,
            None => "scene"@,
        };
        (parent, name)
    }
}

/// Infers the project root and the project-relative scene path from a
/// scene path (already canonicalised when it could be).
pub fn infer_project_root_from_scene(resolved: &str) -> (r: (String, String))
    ensures
        (r.0@, r.1@) == scene_project(resolved@),
{
    let raw = chars_of(resolved);
    let normalized = to_forward_slashes(&raw);
    let marker = chars_of("/assets/");
    proof {
        reveal_strlit("/assets/");
    }
    match find_from(&normalized, &marker, 0) {
        Some(idx) => {
            assert forall|j: int| 0 <= j < idx implies !occurs_at(normalized@, "/assets/"@, j) by {}
            let root = slice_chars(&normalized, 0, idx);
            let rel = slice_chars(&normalized, idx + 1, normalized.len());
            assert(normalized@.take(idx as int) =~= root@);
            assert(normalized@.skip(idx + 1) =~= rel@);
            proof {
                let chosen = choose|i: int| occurs_at(normalized@, "/assets/"@, i) && forall|j: int| 0 <= j < i ==> !occurs_at(normalized@, "/assets/"@, j);
                assert(occurs_at(normalized@, "/assets/"@, idx as int));
                assert(chosen == idx) by {
                    if chosen < idx {
                    } else if chosen > idx {
                    }
                }
            }
            (string_of(&root), string_of(&rel))
        },
        None => {
            assert(!exists|i: int| occurs_at(normalized@, "/assets/"@, i)) by {
                assert forall|i: int| !occurs_at(normalized@, "/assets/"@, i) by {
                    if i < 0 {
                    }
                }
            }
            let n = crate::project::trim_slashes_len(&raw);
            let whole = n == 0 || (n == 1 && raw[0] == '/');
            proof {
                reveal_strlit("/");
                if n == 1 && raw@[0] == '/' {
                    assert(raw@.take(1) =~= "/"@);
                }
                if raw@.take(n as int) == "/"@ {
                    assert(raw@.take(n as int)[0] == '/');
                }
            }
            let parent = if whole {
                resolved.to_string()
            } else {
                crate::project::parent_path(resolved)
            };
            let name_chars = crate::project::file_name_chars(&raw);
            let dotdot = chars_of("..");
            let name = if name_chars.len() == 0 || chars_equal(&name_chars, &dotdot) {
                "scene".to_string()
            } else {
                string_of(&name_chars)
            };
            (parent, name)
        },
    }
}

/// SHA-256 of a byte string, as `sha2::Sha256::digest` computes it.
pub uninterp spec fn sha256_of(data: Seq<u8>) -> Seq<u8>;

/// `sha2::Sha256::digest`: the 32-byte SHA-256 digest of `data`.
#[verifier::external_body]
fn sha256_digest(data: &[u8]) -> (r: Vec<u8>)
    ensures
        r@ == sha256_of(data@),
        r@.len() == 32,
{
    <sha2::Sha256 as sha2::Digest>::digest(data).to_vec()
}

pub open spec fn hex_digit(d: int) -> char {
    if d < 10 {
        ('0' as int + d) as char
    } else {
        ('a' as int + d - 10) as char
    }
}

/// Lower-case hexadecimal of bytes, two digits each.
pub open spec fn hex_of(d: Seq<u8>) -> Seq<char>
    decreases d.len(),
{
    if d.len() == 0 {
        Seq::empty()
    } else {
        hex_of(d.drop_last()) + seq![hex_digit(d.last() as int / 16), hex_digit(d.last() as int % 16)]
    }
}

fn hex_char(d: u8) -> (c: char)
    requires
        d < 16,
    ensures
        c == hex_digit(d as int),
{
    let table = ['0', '1', '2', '3', '4', '5', '6', '7', '8', '9', 'a', 'b', 'c', 'd', 'e', 'f'];
    let c = table[d as usize];
    assert(c == hex_digit(d as int)) by {
        assert(table@ == seq!['0', '1', '2', '3', '4', '5', '6', '7', '8', '9', 'a', 'b', 'c', 'd', 'e', 'f']);
    }
    c
}

/// The first 16 hexadecimal digits of the SHA-256 digest of a text's UTF-8 bytes.
pub open spec fn digest_prefix16(text: Seq<char>) -> Seq<char> {
    hex_of(sha256_of(vstd::utf8::encode_utf8(text)).take(8))
}

/// The first 16 hexadecimal digits of the SHA-256 digest of `input`.
pub fn sha256_prefix16(input: &str) -> (r: String)
    ensures
        r@ == digest_prefix16(input@),
{
    let digest = sha256_digest(input.as_bytes());
    let mut out = String::new();
    let mut i: usize = 0;
    assert(digest@.take(0) =~= Seq::<u8>::empty());
    while i < 8
        invariant
            i <= 8,
            digest@.len() == 32,
            out@ == hex_of(digest@.take(i as int)),
        decreases 8 - i,
    {
        let b = digest[i];
        out.push(hex_char(b / 16));
        out.push(hex_char(b % 16));
        assert(digest@.take(i + 1).drop_last() =~= digest@.take(i as int));
        i = i + 1;
    }
    out
}

/// Strictly ascending (code point order): sorted, each value once.
pub open spec fn strictly_ascending(s: Seq<Seq<char>>) -> bool {
    forall|i: int, j: int| 0 <= i < j < s.len() ==> key_less(#[trigger] s[i], #[trigger] s[j])
}

/// `sort` then `dedup`: the distinct values, ascending.
pub fn sorted_unique(items: &Vec<String>) -> (r: Vec<String>)
    ensures
        strictly_ascending(strs(r@)),
        strs(r@).to_set() == strs(items@).to_set(),
{
    let mut out: Vec<String> = Vec::new();
    let mut i: usize = 0;
    while i < items.len()
        invariant
            i <= items.len(),
            strictly_ascending(strs(out@)),
            strs(out@).to_set() == strs(items@.take(i as int)).to_set(),
        decreases items.len() - i,
    {
        let x = chars_of(items[i].as_str());
        let ghost o = strs(out@);
        let mut p: usize = 0;
        while p < out.len() && chars_less(&chars_of(out[p].as_str()), &x)
            invariant
                p <= out.len(),
                o == strs(out@),
                forall|q: int| 0 <= q < p ==> key_less(o[q], x@),
            decreases out.len() - p,
        {
            p = p + 1;
        }
        assert(strs(items@.take(i + 1)) =~= strs(items@.take(i as int)).push(x@));
        proof {
            strs(items@.take(i as int)).lemma_push_to_set_commute(x@);
        }
        if p < out.len() && chars_equal(&chars_of(out[p].as_str()), &x) {
            assert(o[p as int] == x@);
            assert(o.to_set().contains(x@));
            assert(o.to_set().insert(x@) =~= o.to_set());
        } else {
            proof {
                if p < out.len() {
                    lemma_key_less_total(o[p as int], x@);
                }
            }
            let ghost xv = x@;
            out.insert(p, items[i].clone());
            let ghost n = strs(out@);
            assert(n =~= o.take(p as int).push(xv) + o.skip(p as int));
            assert forall|a: int, b: int| 0 <= a < b < n.len() implies key_less(#[trigger] n[a], #[trigger] n[b]) by {
                if b < p {
                    assert(n[a] == o[a] && n[b] == o[b]);
                } else if b == p {
                    assert(n[a] == o[a]);
                } else if a == p {
                    assert(n[b] == o[b - 1]);
                    if b - 1 > p {
                        lemma_key_less_transitive(xv, o[p as int], o[b - 1]);
                    }
                } else if a < p {
                    assert(n[a] == o[a] && n[b] == o[b - 1]);
                    if b - 1 >= p {
                        lemma_key_less_transitive(o[a], xv, o[p as int]);
                        if b - 1 > p {
                            lemma_key_less_transitive(o[a], o[p as int], o[b - 1]);
                        }
                    }
                } else {
                    assert(n[a] == o[a - 1] && n[b] == o[b - 1]);
                }
            }
            assert forall|y: Seq<char>| n.to_set().contains(y) <==> o.to_set().insert(xv).contains(y) by {
                if n.contains(y) {
                    let k = choose|k: int| 0 <= k < n.len() && n[k] == y;
                    if k < p {
                        assert(o[k] == y);
                    } else if k > p {
                        assert(o[k - 1] == y);
                    }
                }
                if o.contains(y) {
                    let k = choose|k: int| 0 <= k < o.len() && o[k] == y;
                    if k < p {
                        assert(n[k] == y);
                    } else {
                        assert(n[k + 1] == y);
                    }
                }
                if y == xv {
                    assert(n[p as int] == y);
                }
            }
            assert(n.to_set() =~= o.to_set().insert(xv));
        }
        i = i + 1;
    }
    assert(items@.take(i as int) =~= items@);
    out
}

} // verus!

verus! {

/// An entity of a scene.
#[derive(Debug, Clone, PartialEq, Eq)]
pub struct SceneEntity {
    pub id: String,
    pub name: Option<String>,
    pub prefab: Option<String>,
    pub layers: Option<Vec<String>>,
}

/// A finding about a scene or a patch.
#[derive(Debug, Clone, PartialEq, Eq)]
pub struct SceneDiagnostic {
    pub code: String,
    pub severity: String,
    pub message: String,
    pub path: Option<String>,
}

/// What a sector scene file holds: its id, its data layers and the prefab of
/// each entity, in order.
#[derive(Debug, Clone, PartialEq, Eq)]
pub struct SectorData {
    pub id: String,
    pub data_layers: Vec<String>,
    pub prefabs: Vec<String>,
}

/// What reading a scene file gave.
#[derive(Debug, Clone, PartialEq, Eq)]
pub enum SceneRead {
    Missing,
    ParseError(String),
    Parsed(SectorData),
}

/// A diagnostic as `(code, severity, message, path)`.
pub open spec fn diag_model(d: SceneDiagnostic) -> (Seq<char>, Seq<char>, Seq<char>, Option<Seq<char>>) {
    (
        d.code@,
        d.severity@,
        d.message@,
        match d.path {
            Some(p) => Some(p@),
            None => None,
        },
    )
}

pub open spec fn diag_models(ds: Seq<SceneDiagnostic>) -> Seq<(Seq<char>, Seq<char>, Seq<char>, Option<Seq<char>>)> {
    ds.map_values(|d: SceneDiagnostic| diag_model(d))
}

pub open spec fn error_at(code: Seq<char>, message: Seq<char>, path: Seq<char>) -> (
    Seq<char>,
    Seq<char>,
    Seq<char>,
    Option<Seq<char>>,
) {
    (code, "error"@, message, Some(path))
}

fn error_diag(code: &str, message: String, path: &str) -> (r: SceneDiagnostic)
    ensures
        diag_model(r) == error_at(code@, message@, path@),
{
    SceneDiagnostic {
        code: code.to_string(),
        severity: "error".to_string(),
        message,
        path: Some(path.to_string()),
    }
}

fn concat(a: &str, b: &str) -> (r: String)
    ensures
        r@ == a@ + b@,
{
    let mut out = String::new();
    push_text(&mut out, a);
    push_text(&mut out, b);
    out
}

/// `Path::file_stem`: the file name without its last extension (a name
/// whose only dot leads it is kept whole).
pub open spec fn file_stem_of(p: Seq<char>) -> Option<Seq<char>> {
    match file_name_opt(p) {
        None => None,
        Some(name) => {
            let dot = last_dot(name);
            if dot <= 0 {
                Some(name)
            } else {
                Some(name.take(dot))
            }
        },
    }
}

/// Index of the last `.` in `s`, or -1.
pub open spec fn last_dot(s: Seq<char>) -> int
    decreases s.len(),
{
    if s.len() == 0 {
        -1
    } else if s.last() == '.' {
        s.len() - 1
    } else {
        last_dot(s.drop_last())
    }
}

fn file_stem(path: &str) -> (r: Option<String>)
    ensures
        match file_stem_of(path@) {
            Some(s) => r matches Some(x) && x@ == s,
            None => r is None,
        },
{
    let p = chars_of(path);
    let name = crate::project::file_name_chars(&p);
    let dotdot = chars_of("..");
    if name.len() == 0 || chars_equal(&name, &dotdot) {
        return None;
    }
    let mut k = name.len();
    assert(name@.take(name.len() as int) =~= name@);
    while k > 0 && name[k - 1] != '.'
        invariant
            k <= name.len(),
            last_dot(name@) == last_dot(name@.take(k as int)),
        decreases k,
    {
        assert(name@.take(k as int).drop_last() =~= name@.take(k - 1));
        k = k - 1;
    }
    assert(name@.take(name.len() as int) =~= name@);
    if k <= 1 {
        Some(string_of(&name))
    } else {
        Some(string_of(&slice_chars(&name, 0, k - 1)))
    }
}

/// The id of the entity at `index` of a sector: `SECTOR/entity_INDEX`.
pub open spec fn entity_id_of(sector: Seq<char>, index: nat) -> Seq<char> {
    sector + "/entity_"@ + crate::text::decimal(index)
}

/// The entities of a parsed sector, one per prefab, in order.
pub open spec fn sector_entity_ok(data: SectorData, i: int, e: SceneEntity) -> bool {
    &&& e.id@ == entity_id_of(data.id@, i as nat)
    &&& match file_stem_of(data.prefabs@[i]@) {
        Some(s) => e.name matches Some(n) && n@ == s,
        None => e.name is None,
    }
    &&& e.prefab matches Some(p) && p@ == data.prefabs@[i]@
    &&& e.layers matches Some(l) && strs(l@) == strs(data.data_layers@)
}

fn clone_strings(v: &Vec<String>) -> (r: Vec<String>)
    ensures
        strs(r@) == strs(v@),
{
    let mut out: Vec<String> = Vec::new();
    let mut i: usize = 0;
    while i < v.len()
        invariant
            i <= v.len(),
            strs(out@) == strs(v@.take(i as int)),
        decreases v.len() - i,
    {
        let c = v[i].clone();
        let ghost before = strs(out@);
        out.push(c);
        assert(strs(out@) =~= before.push(v@[i as int]@));
        assert(strs(v@.take(i + 1)) =~= strs(v@.take(i as int)).push(v@[i as int]@));
        i = i + 1;
    }
    assert(v@.take(i as int) =~= v@);
    out
}

/// Reads a scene: a missing file or a parse error gives no entities and an
/// error naming the scene; a sector gives one entity per prefab.
pub fn load_scene(scene_rel: &str, read: SceneRead) -> (r: (String, Vec<SceneEntity>, Vec<SceneDiagnostic>))
    ensures
        match read {
            SceneRead::Missing => r.0@ == "scene"@ && r.1@.len() == 0 && diag_models(r.2@) == seq![
                error_at("SCENE_READ_FAILED"@, "Scene file not found: "@ + scene_rel@, scene_rel@),
            ],
            SceneRead::ParseError(e) => r.0@ == "sector"@ && r.1@.len() == 0 && diag_models(r.2@) == seq![
                error_at("SCENE_READ_FAILED"@, "RON parse error: "@ + e@, scene_rel@),
            ],
            SceneRead::Parsed(data) => r.0@ == "sector"@ && r.2@.len() == 0 && r.1@.len() == data.prefabs@.len()
                && forall|i: int| 0 <= i < r.1@.len() ==> sector_entity_ok(data, i, #[trigger] r.1@[i]),
        },
{
    let mut diagnostics: Vec<SceneDiagnostic> = Vec::new();
    match read {
        SceneRead::Missing => {
            let d = error_diag("SCENE_READ_FAILED", concat("Scene file not found: ", scene_rel), scene_rel);
            diagnostics.push(d);
            assert(diag_models(diagnostics@) =~= seq![diag_model(d)]);
            ("scene".to_string(), Vec::new(), diagnostics)
        },
        SceneRead::ParseError(e) => {
            let d = error_diag("SCENE_READ_FAILED", concat("RON parse error: ", e.as_str()), scene_rel);
            diagnostics.push(d);
            assert(diag_models(diagnostics@) =~= seq![diag_model(d)]);
            ("sector".to_string(), Vec::new(), diagnostics)
        },
        SceneRead::Parsed(data) => {
            let mut entities: Vec<SceneEntity> = Vec::new();
            let mut i: usize = 0;
            while i < data.prefabs.len()
                invariant
                    i <= data.prefabs.len(),
                    entities@.len() == i,
                    forall|j: int| 0 <= j < i ==> sector_entity_ok(data, j, #[trigger] entities@[j]),
                decreases data.prefabs.len() - i,
            {
                let mut id = data.id.clone();
                push_text(&mut id, "/entity_");
                crate::text::push_decimal(&mut id, i as u128);
                let name = file_stem(data.prefabs[i].as_str());
                let prefab = data.prefabs[i].clone();
                let layers = clone_strings(&data.data_layers);
                entities.push(SceneEntity { id, name, prefab: Some(prefab), layers: Some(layers) });
                i = i + 1;
            }
            ("sector".to_string(), entities, diagnostics)
        },
    }
}

/// `a.to_lowercase().contains(b)` for an already lower-cased `b`.
pub open spec fn lower_contains(a: Seq<char>, b: Seq<char>) -> bool {
    crate::text::contains_text(crate::text::lowercase(a), b)
}

/// An entity matches a filter when its id, name or prefab contains it, case aside.
pub open spec fn entity_matches(e: SceneEntity, lowered: Seq<char>) -> bool {
    ||| lower_contains(e.id@, lowered)
    ||| (e.name matches Some(n) && lower_contains(n@, lowered))
    ||| (e.prefab matches Some(p) && lower_contains(p@, lowered))
}

fn lower_has(a: &str, lowered: &Vec<char>) -> (r: bool)
    ensures
        r == lower_contains(a@, lowered@),
{
    let l = crate::text::to_lower(a);
    crate::text::contains(&chars_of(l.as_str()), lowered)
}

/// The entities that a filter keeps (all of them without a filter), in order.
pub fn filter_entities(entities: Vec<SceneEntity>, filter: Option<&str>) -> (r: Vec<SceneEntity>)
    ensures
        match filter {
            None => r@ == entities@,
            Some(f) => r@ == entities@.filter(|e: SceneEntity| entity_matches(e, crate::text::lowercase(f@))),
        },
{
    match filter {
        None => entities,
        Some(f) => {
            let lowered = chars_of(crate::text::to_lower(f).as_str());
            let ghost pred = |e: SceneEntity| entity_matches(e, crate::text::lowercase(f@));
            let mut out: Vec<SceneEntity> = Vec::new();
            let mut i: usize = 0;
            let n = entities.len();
            let mut rest = entities;
            let ghost all = rest@;
            assert(all.take(0).filter(pred) =~= Seq::<SceneEntity>::empty());
            assert(all.skip(0) =~= all);
            while i < n
                invariant
                    n == all.len(),
                    i <= n,
                    rest@ == all.skip(i as int),
                    pred == (|e: SceneEntity| entity_matches(e, crate::text::lowercase(f@))),
                    lowered@ == crate::text::lowercase(f@),
                    out@ == all.take(i as int).filter(pred),
                decreases n - i,
            {
                let e = rest.remove(0);
                assert(e == all[i as int]);
                assert(rest@ =~= all.skip(i + 1));
                let by_id = lower_has(e.id.as_str(), &lowered);
                let by_name = match &e.name {
                    Some(nm) => lower_has(nm.as_str(), &lowered),
                    None => false,
                };
                let by_prefab = match &e.prefab {
                    Some(p) => lower_has(p.as_str(), &lowered),
                    None => false,
                };
                let keep = by_id || by_name || by_prefab;
                assert(by_name == (e.name matches Some(nm) && lower_contains(nm@, lowered@)));
                assert(by_prefab == (e.prefab matches Some(p) && lower_contains(p@, lowered@)));
                assert(keep == entity_matches(e, crate::text::lowercase(f@)));
                proof {
                    assert(all.take(i + 1) =~= all.take(i as int).push(e));
                    all.take(i as int).lemma_filter_push(e, pred);
                    assert(pred(e) == keep);
                }
                if keep {
                    out.push(e);
                }
                i = i + 1;
            }
            assert(all.take(n as int) =~= all);
            out
        },
    }
}

} // verus!

verus! {

/// Whether some diagnostic is an error.
pub open spec fn any_error(ds: Seq<SceneDiagnostic>) -> bool {
    exists|i: int| 0 <= i < ds.len() && (#[trigger] ds[i]).severity@ == "error"@
}

/// Whether some diagnostic is an error (see `any_error`).
pub fn has_error(ds: &Vec<SceneDiagnostic>) -> (r: bool)
    ensures
        r == any_error(ds@),
{
    let err = chars_of("error");
    let mut i: usize = 0;
    while i < ds.len()
        invariant
            i <= ds.len(),
            err@ == "error"@,
            forall|j: int| 0 <= j < i ==> (#[trigger] ds@[j]).severity@ != "error"@,
        decreases ds.len() - i,
    {
        if chars_equal(&chars_of(ds[i].severity.as_str()), &err) {
            return true;
        }
        i = i + 1;
    }
    false
}

/// Index of the first entity with the given id.
pub open spec fn first_with_id(es: Seq<SceneEntity>, id: Seq<char>) -> Option<int> {
    if exists|i: int| 0 <= i < es.len() && (#[trigger] es[i]).id@ == id && forall|j: int| 0 <= j < i ==> es[j].id@ != id {
        Some(choose|i: int| 0 <= i < es.len() && (#[trigger] es[i]).id@ == id && forall|j: int| 0 <= j < i ==> es[j].id@ != id)
    } else {
        None
    }
}

/// Looks an entity up: the first with that id, or an `ENTITY_NOT_FOUND`
/// error; the outcome is ok when it was found and no error was reported.
fn find_entity(entities: &Vec<SceneEntity>, entity_id: &str) -> (r: Option<usize>)
    ensures
        match first_with_id(entities@, entity_id@) {
            Some(i) => r matches Some(k) && k as int == i && 0 <= i < entities@.len(),
            None => r is None,
        },
{
    let mut i: usize = 0;
    while i < entities.len()
        invariant
            i <= entities.len(),
            forall|j: int| 0 <= j < i ==> entities@[j].id@ != entity_id@,
        decreases entities.len() - i,
    {
        if crate::text::same_text(entities[i].id.as_str(), entity_id) {
            proof {
                let all = entities@;
                assert(0 <= i < all.len() && (#[trigger] all[i as int]).id@ == entity_id@);
                let c = choose|k: int| 0 <= k < all.len() && (#[trigger] all[k]).id@ == entity_id@ && forall|j: int| 0 <= j < k ==> all[j].id@ != entity_id@;
                assert(c == i) by {
                    if c < i {
                    } else if c > i {
                        assert(all[i as int].id@ == entity_id@);
                    }
                }
            }
            return Some(i);
        }
        i = i + 1;
    }
    None
}

/// Looks an entity up: the first with that id, or an `ENTITY_NOT_FOUND`
/// error; the outcome is ok when it was found and no error was reported.
pub fn inspect_entity(entities: Vec<SceneEntity>, diagnostics: Vec<SceneDiagnostic>, entity_id: &str, scene_rel: &str) -> (r: (Option<SceneEntity>, Vec<SceneDiagnostic>, bool))
    ensures
        match first_with_id(entities@, entity_id@) {
            Some(i) => r.0 == Some(entities@[i]) && r.1@ == diagnostics@,
            None => r.0 is None && diag_models(r.1@) == diag_models(diagnostics@).push(
                error_at("ENTITY_NOT_FOUND"@, "Scene entity id was not found: "@ + entity_id@, scene_rel@),
            ),
        },
        r.2 == (r.0 is Some && !any_error(r.1@)),
{
    let mut diagnostics = diagnostics;
    let mut entities = entities;
    let ghost orig = entities@;
    let found = match find_entity(&entities, entity_id) {
        Some(i) => {
            let e = entities.remove(i);
            assert(first_with_id(orig, entity_id@) == Some(i as int));
            assert(e == orig[i as int]);
            Some(e)
        },
        None => {
            let ghost before = diag_models(diagnostics@);
            let d = error_diag("ENTITY_NOT_FOUND", concat("Scene entity id was not found: ", entity_id), scene_rel);
            diagnostics.push(d);
            assert(diag_models(diagnostics@) =~= before.push(diag_model(d)));
            None
        },
    };
    let ok = found.is_some() && !has_error(&diagnostics);
    (found, diagnostics, ok)
}

} // verus!

verus! {

/// A diagnostic as `(code, severity, message, path)`.
pub type DiagModel = (Seq<char>, Seq<char>, Seq<char>, Option<Seq<char>>);

/// The text a JSON value holds, if it is a string.
pub open spec fn text_of(m: Option<JsonModel>) -> Option<Seq<char>> {
    match m {
        Some(v) => as_str(v),
        None => None,
    }
}

/// A patch's id (`unknown` when it has none).
pub open spec fn patch_id_of(p: JsonModel) -> Seq<char> {
    match text_of(get_key(p, "id"@)) {
        Some(s) => s,
        None => "unknown"@,
    }
}

/// A patch's target path (`/target/path`), or the scene's own path.
pub open spec fn patch_target(p: JsonModel, scene_path: Seq<char>) -> Seq<char> {
    match get_key(p, "target"@) {
        Some(t) => match text_of(get_key(t, "path"@)) {
            Some(s) => s,
            None => scene_path,
        },
        None => scene_path,
    }
}

/// A patch's operations.
pub open spec fn patch_ops(p: JsonModel) -> Seq<JsonModel> {
    match get_key(p, "ops"@) {
        Some(JsonModel::Array(a)) => a,
        _ => Seq::empty(),
    }
}

/// An operation as `(kind, entity id, prefab)`: its first key is its kind;
/// only `InstantiatePrefab` names a prefab.
pub open spec fn op_parts(op: JsonModel) -> Option<(Seq<char>, Seq<char>, Option<Seq<char>>)> {
    match op {
        JsonModel::Object(e) => if e.len() > 0 {
            let v = e[0].1;
            let entity = match text_of(get_key(v, "entity_id"@)) {
                Some(s) => s,
                None => "<unknown>"@,
            };
            let prefab = if e[0].0 == "InstantiatePrefab"@ {
                text_of(get_key(v, "prefab"@))
            } else {
                None
            };
            Some((e[0].0, entity, prefab))
        } else {
            None
        },
        _ => None,
    }
}

/// The entity ids the operations touch, in order.
pub open spec fn op_entities(ops: Seq<JsonModel>) -> Seq<Seq<char>>
    decreases ops.len(),
{
    if ops.len() == 0 {
        Seq::empty()
    } else {
        op_entities(ops.drop_last()) + match op_parts(ops.last()) {
            Some(parts) => seq![parts.1],
            None => Seq::empty(),
        }
    }
}

/// The prefabs the operations instantiate, in order.
pub open spec fn op_prefabs(ops: Seq<JsonModel>) -> Seq<Seq<char>>
    decreases ops.len(),
{
    if ops.len() == 0 {
        Seq::empty()
    } else {
        op_prefabs(ops.drop_last()) + match op_parts(ops.last()) {
            Some((_, _, Some(pf))) => seq![pf],
            _ => Seq::empty(),
        }
    }
}

/// One report per operation: its index, kind, entity and files.
pub open spec fn op_reports(ops: Seq<JsonModel>) -> Seq<(nat, Seq<char>, Seq<char>, Seq<Seq<char>>)>
    decreases ops.len(),
{
    if ops.len() == 0 {
        Seq::empty()
    } else {
        op_reports(ops.drop_last()) + match op_parts(ops.last()) {
            Some((kind, ent, pf)) => seq![
                (
                    (ops.len() - 1) as nat,
                    kind,
                    ent,
                    match pf {
                        Some(f) => seq![f],
                        None => Seq::empty(),
                    },
                ),
            ],
            None => Seq::empty(),
        }
    }
}

/// The findings about the prefabs of the operations: a path outside the
/// project, or one that is not a file.
pub open spec fn op_diags(ops: Seq<JsonModel>, existing: Seq<Seq<char>>, diag_path: Seq<char>) -> Seq<DiagModel>
    decreases ops.len(),
{
    if ops.len() == 0 {
        Seq::empty()
    } else {
        op_diags(ops.drop_last(), existing, diag_path) + match op_parts(ops.last()) {
            Some((_, _, Some(pf))) => if !path_is_project_safe(pf) {
                seq![error_at("SCENE_PATCH_INVALID"@, "Patch op path is outside the project allowlist: "@ + pf, diag_path)]
            } else if !existing.contains(pf) {
                seq![error_at("REF_MISSING"@, "Patch op referenced file does not exist: "@ + pf, diag_path)]
            } else {
                Seq::empty()
            },
            _ => Seq::empty(),
        }
    }
}

/// The findings about the patch as a whole.
pub open spec fn head_diags(dry_run: bool, scene_is_file: bool, scene_path: Seq<char>, diag_path: Seq<char>, target: Seq<char>) -> Seq<DiagModel> {
    (if !dry_run {
        seq![error_at("DRY_RUN_REQUIRED"@, "Scene patch only supports --dry-run."@, scene_path)]
    } else {
        Seq::empty()
    }) + (if !scene_is_file {
        seq![error_at("FILE_MISSING"@, "Scene target does not exist: "@ + scene_path, scene_path)]
    } else {
        Seq::empty()
    }) + (if !path_is_project_safe(target) {
        seq![error_at("SCENE_PATCH_INVALID"@, "Patch target path is outside the project allowlist: "@ + target, diag_path)]
    } else {
        Seq::empty()
    }) + (if target != scene_path {
        seq![error_at("TARGET_MISMATCH"@, "Patch target "@ + target + " does not match --scene "@ + scene_path, diag_path)]
    } else {
        Seq::empty()
    })
}

/// One operation of a planned patch.
#[derive(Debug, Clone, PartialEq, Eq)]
pub struct PatchOp {
    pub index: usize,
    pub kind: String,
    pub entity_id: String,
    pub affected_files: Vec<String>,
}

pub open spec fn op_model(o: PatchOp) -> (nat, Seq<char>, Seq<char>, Seq<Seq<char>>) {
    (o.index as nat, o.kind@, o.entity_id@, strs(o.affected_files@))
}

/// The outcome of a dry-run scene patch.
#[derive(Debug, Clone, PartialEq, Eq)]
pub struct PatchPlan {
    pub ok: bool,
    pub dry_run: bool,
    pub patch_id: String,
    pub target: String,
    pub affected_files: Vec<String>,
    pub affected_entities: Vec<String>,
    pub ops: Vec<PatchOp>,
    pub undo_token: String,
    pub diagnostics: Vec<SceneDiagnostic>,
}

fn text_at(v: Option<&JsonValue>) -> (r: Option<String>)
    ensures
        match v {
            Some(x) => match as_str(x.model()) {
                Some(s) => r matches Some(t) && t@ == s,
                None => r is None,
            },
            None => r is None,
        },
{
    match v {
        Some(JsonValue::String(s)) => Some(s.clone()),
        _ => None,
    }
}

/// The value of a scene patch file's text: what `serde_json` reads from it, or
/// `null` when the text is not JSON.
pub fn patch_value(patch_text: &str) -> (r: JsonValue)
    ensures
        r.model() == match crate::json::json_reading(patch_text@) {
            Ok(m) => m,
            Err(_) => JsonModel::Null,
        },
        crate::json::json_wf(r.model()),
{
    match crate::json::parse_json_text(patch_text) {
        Ok(v) => v,
        Err(_) => JsonValue::Null,
    }
}

/// The prefabs of a patch's operations that lie inside the project: those
/// whose existence on disk the plan needs to know.
pub fn patch_prefab_checks(patch: &JsonValue) -> (r: Vec<String>)
    ensures
        strs(r@) == op_prefabs(patch_ops(patch.model())).filter(|p: Seq<char>| path_is_project_safe(p)),
{
    let ghost ops = patch_ops(patch.model());
    let mut out: Vec<String> = Vec::new();
    match crate::json::get(patch, "ops") {
        Some(JsonValue::Array(items)) => {
            proof {
                lemma_array_model(*items);
            }
            let mut i: usize = 0;
            assert(ops.take(0) =~= Seq::<JsonModel>::empty());
            while i < items.len()
                invariant
                    i <= items.len(),
                    ops == models(items@),
                    strs(out@) == op_prefabs(ops.take(i as int)).filter(|p: Seq<char>| path_is_project_safe(p)),
                decreases items.len() - i,
            {
                let (_, _, pf) = op_info(&items[i]);
                let ghost before = strs(out@);
                assert(ops.take(i + 1).drop_last() =~= ops.take(i as int));
                assert(ops.take(i + 1).last() == items@[i as int].model());
                match pf {
                    Some(f) => {
                        let safe = project_path_safe(f.as_str());
                        let ghost fv = f@;
                        if safe {
                            out.push(f);
                            assert(strs(out@) =~= before.push(fv));
                        }
                        proof {
                            op_prefabs(ops.take(i as int)).lemma_filter_push(fv, |p: Seq<char>| path_is_project_safe(p));
                            assert(op_prefabs(ops.take(i + 1)) =~= op_prefabs(ops.take(i as int)).push(fv));
                        }
                    },
                    None => {
                        assert(op_prefabs(ops.take(i + 1)) =~= op_prefabs(ops.take(i as int)));
                    },
                }
                i = i + 1;
            }
            assert(ops.take(i as int) =~= ops);
        },
        _ => {
            assert(ops =~= Seq::<JsonModel>::empty());
            assert(op_prefabs(ops) =~= Seq::<Seq<char>>::empty());
            assert(op_prefabs(ops).filter(|p: Seq<char>| path_is_project_safe(p)) =~= Seq::<Seq<char>>::empty());
        },
    }
    out
}

/// Reads one operation: `(Some(kind), entity, prefab)`, or `None` for the kind
/// when it is no non-empty object.
fn op_info(op: &JsonValue) -> (r: (Option<String>, String, Option<String>))
    ensures
        match op_parts(op.model()) {
            Some((kind, ent, pf)) => r.0 matches Some(k) && k@ == kind && r.1@ == ent && match pf {
                Some(f) => r.2 matches Some(x) && x@ == f,
                None => r.2 is None,
            },
            None => r.0 is None && r.2 is None,
        },
{
    match op {
        JsonValue::Object(entries) => {
            proof {
                lemma_object_model(*entries);
            }
            if entries.len() == 0 {
                return (None, String::new(), None);
            }
            let kind = entries[0].0.clone();
            let value = &entries[0].1;
            let entity = match text_at(crate::json::get(value, "entity_id")) {
                Some(s) => s,
                None => "<unknown>".to_string(),
            };
            let prefab = if crate::text::same_text(kind.as_str(), "InstantiatePrefab") {
                text_at(crate::json::get(value, "prefab"))
            } else {
                None
            };
            (Some(kind), entity, prefab)
        },
        _ => (None, String::new(), None),
    }
}

} // verus!

verus! {

/// `parts.join(sep)`.
pub fn join_strings(parts: &Vec<String>, sep: &str) -> (r: String)
    ensures
        r@ == joined(strs(parts@), sep@),
{
    let mut out = String::new();
    let mut i: usize = 0;
    assert(strs(parts@).take(0) =~= Seq::<Seq<char>>::empty());
    while i < parts.len()
        invariant
            i <= parts.len(),
            out@ == joined(strs(parts@).take(i as int), sep@),
        decreases parts.len() - i,
    {
        proof {
            lemma_joined_push(strs(parts@).take(i as int), sep@, parts@[i as int]@);
            assert(strs(parts@).take(i + 1) =~= strs(parts@).take(i as int).push(parts@[i as int]@));
        }
        if i > 0 {
            push_text(&mut out, sep);
        }
        push_text(&mut out, parts[i].as_str());
        i = i + 1;
    }
    assert(strs(parts@).take(i as int) =~= strs(parts@));
    out
}

fn contains_string(v: &Vec<String>, t: &str) -> (r: bool)
    ensures
        r == strs(v@).contains(t@),
{
    let mut i: usize = 0;
    while i < v.len()
        invariant
            i <= v.len(),
            forall|j: int| 0 <= j < i ==> strs(v@)[j] != t@,
        decreases v.len() - i,
    {
        if crate::text::same_text(v[i].as_str(), t) {
            assert(strs(v@)[i as int] == t@);
            return true;
        }
        i = i + 1;
    }
    false
}

fn push_diag(ds: &mut Vec<SceneDiagnostic>, d: SceneDiagnostic)
    ensures
        diag_models(final(ds)@) == diag_models(old(ds)@).push(diag_model(d)),
{
    let ghost before = diag_models(ds@);
    ds.push(d);
    assert(diag_models(ds@) =~= before.push(diag_model(d)));
}

/// The findings about the patch as a whole (see `head_diags`).
fn patch_head_diags(dry_run: bool, scene_is_file: bool, scene_path: &str, diag_path: &str, target: &str) -> (r: Vec<SceneDiagnostic>)
    ensures
        diag_models(r@) == head_diags(dry_run, scene_is_file, scene_path@, diag_path@, target@),
{
    let mut ds: Vec<SceneDiagnostic> = Vec::new();
    let ghost mut expect: Seq<DiagModel> = Seq::empty();
    if !dry_run {
        push_diag(&mut ds, error_diag("DRY_RUN_REQUIRED", "Scene patch only supports --dry-run.".to_string(), scene_path));
    }
    let ghost a = diag_models(ds@);
    if !scene_is_file {
        push_diag(&mut ds, error_diag("FILE_MISSING", concat("Scene target does not exist: ", scene_path), scene_path));
    }
    let ghost b = diag_models(ds@);
    if !project_path_safe(target) {
        push_diag(
            &mut ds,
            error_diag("SCENE_PATCH_INVALID", concat("Patch target path is outside the project allowlist: ", target), diag_path),
        );
    }
    let ghost c = diag_models(ds@);
    if !crate::text::same_text(target, scene_path) {
        let mut m = concat("Patch target ", target);
        push_text(&mut m, " does not match --scene ");
        push_text(&mut m, scene_path);
        push_diag(&mut ds, error_diag("TARGET_MISMATCH", m, diag_path));
    }
    assert(diag_models(ds@) =~= head_diags(dry_run, scene_is_file, scene_path@, diag_path@, target@));
    ds
}

/// Plans a dry-run scene patch: the patch's id and target, the files and
/// entities it touches (sorted, each once), one report per operation, the
/// findings, and an undo token derived from all of these. `existing` lists
/// the prefab paths found to be files.
pub fn plan_patch(
    dry_run: bool,
    scene_is_file: bool,
    scene_path: &str,
    diag_path: &str,
    patch: &JsonValue,
    existing: &Vec<String>,
) -> (r: PatchPlan)
    ensures
        r.dry_run == dry_run,
        r.patch_id@ == patch_id_of(patch.model()),
        r.target@ == patch_target(patch.model(), scene_path@),
        diag_models(r.diagnostics@) == head_diags(dry_run, scene_is_file, scene_path@, diag_path@, r.target@)
            + op_diags(patch_ops(patch.model()), strs(existing@), diag_path@),
        r.ok == !any_error(r.diagnostics@),
        r.ops@.map_values(|o: PatchOp| op_model(o)) == op_reports(patch_ops(patch.model())),
        strictly_ascending(strs(r.affected_files@)),
        strs(r.affected_files@).to_set() == (seq![r.target@] + op_prefabs(patch_ops(patch.model()))).to_set(),
        strictly_ascending(strs(r.affected_entities@)),
        strs(r.affected_entities@).to_set() == op_entities(patch_ops(patch.model())).to_set(),
        r.undo_token@ == "undo:dry-run:"@ + digest_prefix16(
            joined(seq![r.patch_id@, r.target@] + strs(r.affected_files@) + strs(r.affected_entities@), "|"@),
        ),
{
    let ghost pm = patch.model();
    let patch_id = match text_at(crate::json::get(patch, "id")) {
        Some(s) => s,
        None => "unknown".to_string(),
    };
    let target = match crate::json::get(patch, "target") {
        Some(t) => match text_at(crate::json::get(t, "path")) {
            Some(s) => s,
            None => scene_path.to_string(),
        },
        None => scene_path.to_string(),
    };
    let mut diagnostics = patch_head_diags(dry_run, scene_is_file, scene_path, diag_path, target.as_str());
    let ghost head = diag_models(diagnostics@);
    let mut files: Vec<String> = Vec::new();
    files.push(target.clone());
    let mut entities: Vec<String> = Vec::new();
    let mut reports: Vec<PatchOp> = Vec::new();
    let ghost ops = patch_ops(patch.model());
    let ghost ex = strs(existing@);
    assert(strs(files@) =~= seq![target@]);
    match crate::json::get(patch, "ops") {
        Some(JsonValue::Array(items)) => {
            proof {
                lemma_array_model(*items);
            }
            let mut i: usize = 0;
            assert(ops.take(0) =~= Seq::<JsonModel>::empty());
            while i < items.len()
                invariant
                    i <= items.len(),
                    ops == models(items@),
                    ex == strs(existing@),
                    strs(files@) == seq![target@] + op_prefabs(ops.take(i as int)),
                    strs(entities@) == op_entities(ops.take(i as int)),
                    reports@.map_values(|o: PatchOp| op_model(o)) == op_reports(ops.take(i as int)),
                    diag_models(diagnostics@) == head + op_diags(ops.take(i as int), ex, diag_path@),
                decreases items.len() - i,
            {
                let (kind, entity, pf) = op_info(&items[i]);
                assert(ops.take(i + 1).drop_last() =~= ops.take(i as int));
                assert(ops.take(i + 1).last() == items@[i as int].model());
                assert(ops.take(i + 1).len() == i + 1);
                match kind {
                    Some(k) => {
                        let ghost f0 = strs(files@);
                        let ghost e0 = strs(entities@);
                        let ghost r0 = reports@.map_values(|o: PatchOp| op_model(o));
                        let ghost d0 = diag_models(diagnostics@);
                        let ghost ev = entity@;
                        entities.push(entity);
                        assert(strs(entities@) =~= e0.push(ev));
                        let mut op_files: Vec<String> = Vec::new();
                        match pf {
                            Some(f) => {
                                let ghost fv = f@;
                                op_files.push(f.clone());
                                files.push(f.clone());
                                assert(strs(files@) =~= f0.push(fv));
                                if !project_path_safe(f.as_str()) {
                                    push_diag(
                                        &mut diagnostics,
                                        error_diag(
                                            "SCENE_PATCH_INVALID",
                                            concat("Patch op path is outside the project allowlist: ", f.as_str()),
                                            diag_path,
                                        ),
                                    );
                                } else if !contains_string(existing, f.as_str()) {
                                    push_diag(
                                        &mut diagnostics,
                                        error_diag(
                                            "REF_MISSING",
                                            concat("Patch op referenced file does not exist: ", f.as_str()),
                                            diag_path,
                                        ),
                                    );
                                }
                                assert(strs(op_files@) =~= seq![fv]);
                            },
                            None => {
                                assert(strs(op_files@) =~= Seq::<Seq<char>>::empty());
                            },
                        }
                        let ghost km = k@;
                        let ghost ofm = strs(op_files@);
                        let rep = PatchOp { index: i, kind: k, entity_id: items_entity_copy(&entities), affected_files: op_files };
                        reports.push(rep);
                        assert(reports@.map_values(|o: PatchOp| op_model(o)) =~= r0.push((i as nat, km, ev, ofm)));
                        assert(diag_models(diagnostics@) =~= head + op_diags(ops.take(i + 1), ex, diag_path@));
                        assert(strs(files@) =~= seq![target@] + op_prefabs(ops.take(i + 1)));
                    },
                    None => {
                        assert(op_diags(ops.take(i + 1), ex, diag_path@) =~= op_diags(ops.take(i as int), ex, diag_path@));
                        assert(op_prefabs(ops.take(i + 1)) =~= op_prefabs(ops.take(i as int)));
                        assert(op_entities(ops.take(i + 1)) =~= op_entities(ops.take(i as int)));
                        assert(op_reports(ops.take(i + 1)) =~= op_reports(ops.take(i as int)));
                    },
                }
                i = i + 1;
            }
            assert(ops.take(i as int) =~= ops);
        },
        _ => {
            assert(ops =~= Seq::<JsonModel>::empty());
        },
    }
    let affected_files = sorted_unique(&files);
    let affected_entities = sorted_unique(&entities);
    let mut parts: Vec<String> = Vec::new();
    parts.push(patch_id.clone());
    parts.push(target.clone());
    let mut k: usize = 0;
    while k < affected_files.len()
        invariant
            k <= affected_files.len(),
            strs(parts@) == seq![patch_id@, target@] + strs(affected_files@).take(k as int),
        decreases affected_files.len() - k,
    {
        let ghost before = strs(parts@);
        parts.push(affected_files[k].clone());
        assert(strs(parts@) =~= before.push(affected_files@[k as int]@));
        assert(strs(affected_files@).take(k + 1) =~= strs(affected_files@).take(k as int).push(affected_files@[k as int]@));
        k = k + 1;
    }
    assert(strs(affected_files@).take(k as int) =~= strs(affected_files@));
    let mut k: usize = 0;
    while k < affected_entities.len()
        invariant
            k <= affected_entities.len(),
            strs(parts@) == seq![patch_id@, target@] + strs(affected_files@) + strs(affected_entities@).take(k as int),
        decreases affected_entities.len() - k,
    {
        let ghost before = strs(parts@);
        parts.push(affected_entities[k].clone());
        assert(strs(parts@) =~= before.push(affected_entities@[k as int]@));
        assert(strs(affected_entities@).take(k + 1) =~= strs(affected_entities@).take(k as int).push(affected_entities@[k as int]@));
        k = k + 1;
    }
    assert(strs(affected_entities@).take(k as int) =~= strs(affected_entities@));
    let token_input = join_strings(&parts, "|");
    let mut undo_token = "undo:dry-run:".to_string();
    let digest = sha256_prefix16(token_input.as_str());
    push_text(&mut undo_token, digest.as_str());
    let ok = !has_error(&diagnostics);
    PatchPlan {
        ok,
        dry_run,
        patch_id,
        target,
        affected_files,
        affected_entities,
        ops: reports,
        undo_token,
        diagnostics,
    }
}

fn items_entity_copy(entities: &Vec<String>) -> (r: String)
    requires
        entities.len() > 0,
    ensures
        r@ == entities@.last()@,
{
    entities[entities.len() - 1].clone()
}

} // verus!

verus! {

/// How a scene command ends: success when its outcome is ok.
pub fn emit_exit_code(ok: bool) -> (r: crate::exit_codes::ExitCode)
    ensures
        r == if ok {
            crate::exit_codes::ExitCode::Success
        } else {
            crate::exit_codes::ExitCode::ValidationFailed
        },
{
    if ok {
        crate::exit_codes::ExitCode::Success
    } else {
        crate::exit_codes::ExitCode::ValidationFailed
    }
}

/// One step of the search for the workspace root, upwards from a directory:
/// a directory whose `Cargo.toml` mentions `[workspace]` is the root;
/// otherwise the search goes on in the parent, and ends at `.` when there is
/// no parent.
pub enum WorkspaceStep {
    Found(String),
    Up(String),
    NotFound(String),
}

pub open spec fn has_parent(dir: Seq<char>) -> bool {
    let t = trim_trailing_slashes(dir);
    t.len() > 0 && t != "/"@
}

pub fn workspace_root_step(dir: &str, cargo_toml: Option<String>) -> (r: WorkspaceStep)
    ensures
        match cargo_toml {
            Some(t) if crate::text::contains_text(t@, "[workspace]"@) => r matches WorkspaceStep::Found(d) && d@ == dir@,
            _ => if has_parent(dir@) {
                r matches WorkspaceStep::Up(p) && p@ == parent_of(dir@)
            } else {
                r matches WorkspaceStep::NotFound(d) && d@ == "."@
            },
        },
{
    if let Some(t) = &cargo_toml {
        if crate::text::contains(&chars_of(t.as_str()), &chars_of("[workspace]")) {
            return WorkspaceStep::Found(dir.to_string());
        }
    }
    let raw = chars_of(dir);
    let n = crate::project::trim_slashes_len(&raw);
    proof {
        reveal_strlit("/");
        if n == 1 && raw@[0] == '/' {
            assert(raw@.take(1) =~= "/"@);
        }
        if raw@.take(n as int) == "/"@ {
            assert(raw@.take(n as int)[0] == '/');
        }
    }
    if n == 0 || (n == 1 && raw[0] == '/') {
        WorkspaceStep::NotFound(".".to_string())
    } else {
        WorkspaceStep::Up(crate::project::parent_path(dir))
    }
}

/// The filter keeps every entity whose id contains the filter text, case
/// aside (and likewise one whose name or prefab does), and keeps nothing else.
pub proof fn law_filter_keeps_matching_entities(entities: Seq<SceneEntity>, f: Seq<char>, i: int)
    requires
        0 <= i < entities.len(),
    ensures
        ({
            let l = crate::text::lowercase(f);
            let kept = entities.filter(|e: SceneEntity| entity_matches(e, l));
            let e = entities[i];
            &&& crate::text::contains_text(crate::text::lowercase(e.id@), l) ==> kept.contains(e)
            &&& (e.name matches Some(n) && crate::text::contains_text(crate::text::lowercase(n@), l)) ==> kept.contains(e)
            &&& (e.prefab matches Some(p) && crate::text::contains_text(crate::text::lowercase(p@), l)) ==> kept.contains(e)
            &&& forall|j: int| 0 <= j < kept.len() ==> ({
                let k = #[trigger] kept[j];
                ||| crate::text::contains_text(crate::text::lowercase(k.id@), l)
                ||| (k.name matches Some(n) && crate::text::contains_text(crate::text::lowercase(n@), l))
                ||| (k.prefab matches Some(p) && crate::text::contains_text(crate::text::lowercase(p@), l))
            })
        }),
{
    let l = crate::text::lowercase(f);
    let pred = |e: SceneEntity| entity_matches(e, l);
    if pred(entities[i]) {
        entities.lemma_filter_contains(pred, i);
    }
    assert forall|j: int| 0 <= j < entities.filter(pred).len() implies pred(#[trigger] entities.filter(pred)[j]) by {
        entities.lemma_filter_pred(pred, j);
    }
}

} // verus!
