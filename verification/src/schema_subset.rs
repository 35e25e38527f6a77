//! The subset of JSON Schema that the AA spec tools and `aa validate` use.
use vstd::prelude::*;
use crate::json::{JsonModel, JsonNumber, JsonValue, NumberModel, get_key, as_str, as_array, as_bool, as_u64, is_i64, object_get, value_debug, list_debug, number_display, str_debug, same_json, json_wf};
use crate::text::{decimal, byte_offset, contains_text, starts_with, contains_char, split_char, views, split_from};
use crate::number::num_order;
use vstd::string::StringExecFns;

verus! {

/// A schema violation, or a schema that cannot be applied; the message says which.
#[derive(Debug, Clone, PartialEq, Eq)]
pub struct SchemaValidationError {
    pub message: String,
}

/// `Regex::new(pattern)` of the `regex` crate: `None` when the pattern
/// compiles, else the text of the error it returns.
pub uninterp spec fn regex_build_error(pattern: Seq<char>) -> Option<Seq<char>>;

/// `Regex::is_match(value)` of the `regex` crate, for a regex compiled from `pattern`.
pub uninterp spec fn regex_is_match(pattern: Seq<char>, value: Seq<char>) -> bool;

/// Compiles `pattern` with the `regex` crate and, when it compiles, tells
/// whether it matches anywhere in `value`; otherwise hands back the error text.
#[verifier::external_body]
fn regex_search(pattern: &str, value: &str) -> (r: Result<bool, String>)
    ensures
        match regex_build_error(pattern@) {
            None => r == Ok::<bool, String>(regex_is_match(pattern@, value@)),
            Some(e) => r matches Err(m) && m@ == e,
        },
{
    match regex::Regex::new(pattern) {
        Ok(re) => Ok(re.is_match(value)),
        Err(e) => Err(e.to_string()),
    }
}

pub open spec fn relative_path_ok(path: Seq<char>) -> bool {
    &&& path.len() > 0
    &&& path[0] != '/'
    &&& !contains_text(path, ".."@)
    &&& !contains_char(path, '\\')
}

/// What a `pattern` keyword does to a string: the three look-around patterns
/// the spec schemas use are decided directly, other look-arounds are refused,
/// and everything else goes to the `regex` crate.
pub open spec fn pattern_result(pattern: Seq<char>, value: Seq<char>) -> Result<bool, Seq<char>> {
    if contains_text(pattern, "(?!"@) || contains_text(pattern, "(?<"@) {
        if pattern == "^(?!/)(?!.*\\.\\.)(?!.*\\\\).+$"@ {
            Ok(relative_path_ok(value))
        } else if pattern == "^(?!/)(?!.*\\\\).+$"@ {
            Ok(value.len() > 0 && value[0] != '/' && !contains_char(value, '\\'))
        } else if pattern == "^$|^(?!/)(?!.*\\.\\.)(?!.*\\\\).+$"@ {
            Ok(value.len() == 0 || relative_path_ok(value))
        } else {
            Err("unsupported look-around pattern "@ + str_debug(pattern))
        }
    } else {
        match regex_build_error(pattern) {
            Some(e) => Err("invalid schema pattern "@ + str_debug(pattern) + ": "@ + e),
            None => Ok(regex_is_match(pattern, value)),
        }
    }
}

/// `str::replace(pat, rep)` for a non-empty pattern.
pub open spec fn replace_text(s: Seq<char>, pat: Seq<char>, rep: Seq<char>) -> Seq<char>
    decreases s.len(),
{
    if pat.len() == 0 || s.len() == 0 {
        s
    } else if starts_with(s, pat) {
        rep + replace_text(s.skip(pat.len() as int), pat, rep)
    } else {
        seq![s[0]] + replace_text(s.drop_first(), pat, rep)
    }
}

/// A JSON-pointer reference token: `~1` stands for `/`, then `~0` for `~`.
pub open spec fn unescape_token(part: Seq<char>) -> Seq<char> {
    replace_text(replace_text(part, "~1"@, "/"@), "~0"@, "~"@)
}

pub open spec fn walk_ref(target: JsonModel, parts: Seq<Seq<char>>, ref_path: Seq<char>) -> Result<JsonModel, Seq<char>>
    decreases parts.len(),
{
    if parts.len() == 0 {
        Ok(target)
    } else {
        match get_key(target, unescape_token(parts[0])) {
            Some(t) => walk_ref(t, parts.drop_first(), ref_path),
            None => Err("unresolved $ref "@ + str_debug(ref_path)),
        }
    }
}

/// Resolving a local `$ref` (`#/a/b`) against the root schema.
pub open spec fn ref_target(ref_path: Seq<char>, root: JsonModel) -> Result<JsonModel, Seq<char>> {
    if !starts_with(ref_path, "#/"@) {
        Err("unsupported $ref "@ + str_debug(ref_path) + "; only local refs are supported"@)
    } else {
        walk_ref(root, split_char(ref_path.skip(2), '/'), ref_path)
    }
}

pub open spec fn has_type(expected: Seq<char>, v: JsonModel) -> bool {
    if expected == "object"@ {
        v is Object
    } else if expected == "array"@ {
        v is Array
    } else if expected == "string"@ {
        v is String
    } else if expected == "integer"@ {
        is_i64(v)
    } else if expected == "number"@ {
        v is Number
    } else if expected == "boolean"@ {
        v is Bool
    } else if expected == "null"@ {
        v is Null
    } else {
        false
    }
}

pub open spec fn type_name_of(v: JsonModel) -> Seq<char> {
    match v {
        JsonModel::Null => "null"@,
        JsonModel::Bool(_) => "boolean"@,
        JsonModel::Number(_) => if is_i64(v) {
            "integer"@
        } else {
            "number"@
        },
        JsonModel::String(_) => "string"@,
        JsonModel::Array(_) => "array"@,
        JsonModel::Object(_) => "object"@,
    }
}

pub open spec fn get_str(m: JsonModel, k: Seq<char>) -> Option<Seq<char>> {
    match get_key(m, k) {
        Some(v) => as_str(v),
        None => None,
    }
}

pub open spec fn get_array(m: JsonModel, k: Seq<char>) -> Option<Seq<JsonModel>> {
    match get_key(m, k) {
        Some(v) => as_array(v),
        None => None,
    }
}

pub open spec fn get_u64(m: JsonModel, k: Seq<char>) -> Option<u64> {
    match get_key(m, k) {
        Some(v) => as_u64(v),
        None => None,
    }
}

pub open spec fn get_number(m: JsonModel, k: Seq<char>) -> Option<NumberModel> {
    match get_key(m, k) {
        Some(JsonModel::Number(n)) => Some(n),
        _ => None,
    }
}

pub open spec fn get_flag(m: JsonModel, k: Seq<char>) -> Option<bool> {
    match get_key(m, k) {
        Some(v) => as_bool(v),
        None => None,
    }
}

pub open spec fn type_name_matches(t: JsonModel, v: JsonModel) -> bool {
    match t {
        JsonModel::String(name) => has_type(name, v),
        _ => false,
    }
}

/// Some string of `types` names a type that `v` has.
pub open spec fn some_type_matches(types: Seq<JsonModel>, v: JsonModel) -> bool {
    exists|i: int| 0 <= i < types.len() && type_name_matches(#[trigger] types[i], v)
}

pub open spec fn const_error(schema: JsonModel, v: JsonModel, path: Seq<char>) -> Option<Seq<char>> {
    match get_key(schema, "const"@) {
        Some(expected) => if !same_json(v, expected) {
            Some(path + ": expected const "@ + value_debug(expected) + ", got "@ + value_debug(v))
        } else {
            None
        },
        None => None,
    }
}

pub open spec fn enum_error(schema: JsonModel, v: JsonModel, path: Seq<char>) -> Option<Seq<char>> {
    match get_array(schema, "enum"@) {
        Some(values) => if !(exists|i: int| 0 <= i < values.len() && same_json(#[trigger] values[i], v)) {
            Some(path + ": expected one of "@ + list_debug(values) + ", got "@ + value_debug(v))
        } else {
            None
        },
        None => None,
    }
}

pub open spec fn type_error(schema: JsonModel, v: JsonModel, path: Seq<char>) -> Option<Seq<char>> {
    match get_key(schema, "type"@) {
        Some(JsonModel::Array(types)) => if !some_type_matches(types, v) {
            Some(path + ": expected type "@ + list_debug(types) + ", got "@ + type_name_of(v))
        } else {
            None
        },
        Some(JsonModel::String(expected)) => if !has_type(expected, v) {
            Some(path + ": expected type "@ + str_debug(expected) + ", got "@ + type_name_of(v))
        } else {
            None
        },
        _ => None,
    }
}

/// `minLength` (counted in UTF-8 bytes) and `pattern` on a string value.
pub open spec fn string_error(schema: JsonModel, text: Seq<char>, path: Seq<char>) -> Option<Seq<char>> {
    let too_short = match get_u64(schema, "minLength"@) {
        Some(min) => if byte_offset(text, text.len() as int) < min {
            Some(path + ": string shorter than minLength "@ + decimal(min as nat))
        } else {
            None
        },
        None => None,
    };
    if too_short is Some {
        too_short
    } else {
        match get_str(schema, "pattern"@) {
            Some(pattern) => match pattern_result(pattern, text) {
                Err(e) => Some(e),
                Ok(false) => Some(path + ": string does not match pattern "@ + str_debug(pattern) + ": "@
                    + str_debug(text)),
                Ok(true) => None,
            },
            None => None,
        }
    }
}

/// `minimum`, `exclusiveMinimum` and `maximum` on a number, compared by exact
/// value (`num_order`) and shown by `number_display`. Floating point is not
/// used: where values round to the same `f64` (integers above 2^53, long
/// decimals), this comparison can differ from one made in `f64`, and a decimal
/// is shown as written rather than as `f64` prints it.
pub open spec fn number_error(schema: JsonModel, n: NumberModel, path: Seq<char>) -> Option<Seq<char>> {
    let shown = number_display(n);
    match get_number(schema, "minimum"@) {
        Some(m) if num_order(n, m) < 0 => Some(path + ": "@ + shown + " < minimum "@ + number_display(m)),
        _ => match get_number(schema, "exclusiveMinimum"@) {
            Some(m) if num_order(n, m) <= 0 => Some(path + ": "@ + shown + " <= exclusiveMinimum "@
                + number_display(m)),
            _ => match get_number(schema, "maximum"@) {
                Some(m) if num_order(n, m) > 0 => Some(path + ": "@ + shown + " > maximum "@
                    + number_display(m)),
                _ => None,
            },
        },
    }
}

/// Checks that neither recurse nor depend on the value's children.
pub open spec fn local_error(schema: JsonModel, v: JsonModel, path: Seq<char>) -> Option<Seq<char>> {
    if const_error(schema, v, path) is Some {
        const_error(schema, v, path)
    } else if enum_error(schema, v, path) is Some {
        enum_error(schema, v, path)
    } else if type_error(schema, v, path) is Some {
        type_error(schema, v, path)
    } else {
        match v {
            JsonModel::String(text) => string_error(schema, text, path),
            JsonModel::Number(n) => number_error(schema, n, path),
            _ => None,
        }
    }
}

/// Two positions of `items` hold equal values.
pub open spec fn has_duplicates(items: Seq<JsonModel>) -> bool {
    exists|i: int, j: int| 0 <= i < j < items.len() && same_json(#[trigger] items[i], #[trigger] items[j])
}

pub open spec fn array_error(schema: JsonModel, items: Seq<JsonModel>, path: Seq<char>) -> Option<Seq<char>> {
    match get_u64(schema, "minItems"@) {
        Some(min) if items.len() < min => Some(path + ": array shorter than minItems "@ + decimal(
            min as nat,
        )),
        _ => match get_u64(schema, "maxItems"@) {
            Some(max) if items.len() > max => Some(path + ": array longer than maxItems "@ + decimal(
                max as nat,
            )),
            _ => if get_flag(schema, "uniqueItems"@) == Some(true) && has_duplicates(items) {
                Some(path + ": array items are not unique"@)
            } else {
                None
            },
        },
    }
}

/// The first key listed under `required` (from position `i` on) that `map` lacks.
pub open spec fn missing_required(required: Seq<JsonModel>, map: Seq<(Seq<char>, JsonModel)>, i: int) -> Option<Seq<char>>
    decreases required.len() - i,
{
    if i < 0 || i >= required.len() {
        None
    } else {
        match as_str(required[i]) {
            Some(k) if object_get(map, k) is None => Some(k),
            _ => missing_required(required, map, i + 1),
        }
    }
}

pub open spec fn schema_properties(schema: JsonModel) -> Seq<(Seq<char>, JsonModel)> {
    match get_key(schema, "properties"@) {
        Some(JsonModel::Object(p)) => p,
        _ => Seq::empty(),
    }
}

/// Keys of `map`, in order, that `props` does not list.
pub open spec fn extra_keys(map: Seq<(Seq<char>, JsonModel)>, props: Seq<(Seq<char>, JsonModel)>) -> Seq<Seq<char>>
    decreases map.len(),
{
    if map.len() == 0 {
        Seq::empty()
    } else {
        let rest = extra_keys(map.drop_first(), props);
        if object_get(props, map[0].0) is Some {
            rest
        } else {
            seq![map[0].0] + rest
        }
    }
}

/// `{:?}` of a list of strings.
pub open spec fn strings_debug(keys: Seq<Seq<char>>) -> Seq<char> {
    "["@ + joined(keys.map_values(|k: Seq<char>| str_debug(k)), ", "@) + "]"@
}

/// The parts joined with `sep` between them.
pub open spec fn joined(parts: Seq<Seq<char>>, sep: Seq<char>) -> Seq<char>
    decreases parts.len(),
{
    if parts.len() == 0 {
        Seq::empty()
    } else if parts.len() == 1 {
        parts[0]
    } else {
        parts[0] + sep + joined(parts.drop_first(), sep)
    }
}

pub open spec fn object_error(schema: JsonModel, map: Seq<(Seq<char>, JsonModel)>, path: Seq<char>) -> Option<Seq<char>> {
    let missing = match get_array(schema, "required"@) {
        Some(req) => missing_required(req, map, 0),
        None => None,
    };
    match missing {
        Some(k) => Some(path + ": missing required key "@ + str_debug(k)),
        None => {
            let extras = extra_keys(map, schema_properties(schema));
            if get_flag(schema, "additionalProperties"@) == Some(false) && extras.len() > 0 {
                Some(path + ": unexpected keys "@ + strings_debug(extras))
            } else {
                None
            }
        },
    }
}

/// The result of validating `v` against `schema`, or `None` when `fuel`
/// nested validations do not suffice (a `$ref` cycle never finishes).
/// `Some(None)` means valid, `Some(Some(message))` the first violation.
pub open spec fn validate_spec(schema: JsonModel, v: JsonModel, root: JsonModel, path: Seq<char>, fuel: nat) -> Option<Option<Seq<char>>>
    decreases fuel, 1int, 0int,
{
    if fuel == 0 {
        None
    } else {
        match get_str(schema, "$ref"@) {
            Some(rp) => match ref_target(rp, root) {
                Err(e) => Some(Some(e)),
                Ok(target) => validate_spec(target, v, root, path, (fuel - 1) as nat),
            },
            None => match get_array(schema, "oneOf"@) {
                Some(options) => match one_of_scan(options, v, root, path, fuel, 0) {
                    None => None,
                    Some((matches, failures)) => if matches != 1 {
                        Some(Some(path + ": expected exactly one oneOf match, got "@ + decimal(matches)
                            + ". "@ + joined(failures.take(if failures.len() < 3 { failures.len() as int } else { 3 }), "; "@)))
                    } else {
                        Some(None)
                    },
                },
                None => if local_error(schema, v, path) is Some {
                    Some(local_error(schema, v, path))
                } else {
                    match v {
                        JsonModel::Array(items) => if array_error(schema, items, path) is Some {
                            Some(array_error(schema, items, path))
                        } else {
                            match get_key(schema, "items"@) {
                                Some(item_schema) => items_scan(item_schema, items, root, path, fuel, 0),
                                None => Some(None),
                            }
                        },
                        JsonModel::Object(map) => if object_error(schema, map, path) is Some {
                            Some(object_error(schema, map, path))
                        } else {
                            props_scan(schema_properties(schema), map, root, path, fuel, 0)
                        },
                        _ => Some(None),
                    }
                },
            },
        }
    }
}

/// Validating `v` against `options[i..]`: how many accept it, and the
/// messages of those that do not.
pub open spec fn one_of_scan(options: Seq<JsonModel>, v: JsonModel, root: JsonModel, path: Seq<char>, fuel: nat, i: int) -> Option<(nat, Seq<Seq<char>>)>
    decreases fuel, 0int, options.len() - i,
{
    if fuel == 0 || i < 0 || i >= options.len() {
        if fuel == 0 { None } else { Some((0, Seq::empty())) }
    } else {
        match validate_spec(options[i], v, root, path, (fuel - 1) as nat) {
            None => None,
            Some(outcome) => match one_of_scan(options, v, root, path, fuel, i + 1) {
                None => None,
                Some((m, fails)) => match outcome {
                    None => Some((m + 1, fails)),
                    Some(msg) => Some((m, seq![msg] + fails)),
                },
            },
        }
    }
}

/// Validating `items[i..]` against `item_schema`, stopping at the first violation.
pub open spec fn items_scan(item_schema: JsonModel, items: Seq<JsonModel>, root: JsonModel, path: Seq<char>, fuel: nat, i: int) -> Option<Option<Seq<char>>>
    decreases fuel, 0int, items.len() - i,
{
    if fuel == 0 || i < 0 || i >= items.len() {
        if fuel == 0 { None } else { Some(None) }
    } else {
        match validate_spec(item_schema, items[i], root, path + "["@ + decimal(i as nat) + "]"@, (fuel - 1) as nat) {
            None => None,
            Some(Some(msg)) => Some(Some(msg)),
            Some(None) => items_scan(item_schema, items, root, path, fuel, i + 1),
        }
    }
}

/// Validating the members of `map` named by `props[i..]`, in order, stopping at
/// the first violation.
pub open spec fn props_scan(props: Seq<(Seq<char>, JsonModel)>, map: Seq<(Seq<char>, JsonModel)>, root: JsonModel, path: Seq<char>, fuel: nat, i: int) -> Option<Option<Seq<char>>>
    decreases fuel, 0int, props.len() - i,
{
    if fuel == 0 || i < 0 || i >= props.len() {
        if fuel == 0 { None } else { Some(None) }
    } else {
        match object_get(map, props[i].0) {
            Some(child) => match validate_spec(props[i].1, child, root, path + "."@ + props[i].0, (fuel - 1) as nat) {
                None => None,
                Some(Some(msg)) => Some(Some(msg)),
                Some(None) => props_scan(props, map, root, path, fuel, i + 1),
            },
            None => props_scan(props, map, root, path, fuel, i + 1),
        }
    }
}

} // verus!

verus! {

pub proof fn lemma_joined_push(parts: Seq<Seq<char>>, sep: Seq<char>, x: Seq<char>)
    ensures
        joined(parts.push(x), sep) == if parts.len() == 0 {
            x
        } else {
            joined(parts, sep) + sep + x
        },
    decreases parts.len(),
{
    if parts.len() == 0 {
        assert(parts.push(x) =~= seq![x]);
    } else if parts.len() == 1 {
        assert(parts.push(x).drop_first() =~= seq![x]);
        assert(joined(seq![x], sep) == x);
        assert(parts.push(x)[0] == parts[0]);
    } else {
        lemma_joined_push(parts.drop_first(), sep, x);
        assert(parts.push(x).drop_first() =~= parts.drop_first().push(x));
        assert(parts.push(x)[0] == parts[0]);
        let r = joined(parts.drop_first(), sep);
        assert(parts[0] + sep + (r + sep + x) =~= (parts[0] + sep + r) + sep + x);
    }
}

/// A project-relative path: not empty, not absolute, no `..`, no backslash.
pub fn is_project_relative_path(path: &str) -> (r: bool)
    ensures
        r == relative_path_ok(path@),
{
    let p = crate::text::chars_of(path);
    let dots = crate::text::chars_of("..");
    p.len() > 0 && p[0] != '/' && !crate::text::contains(&p, &dots) && !crate::text::contains_ch(
        &p,
        '\\',
    )
}

/// Applies a schema `pattern` to a string (see `pattern_result`).
pub fn matches_string_pattern(pattern: &str, value: &str) -> (r: Result<bool, SchemaValidationError>)
    ensures
        match pattern_result(pattern@, value@) {
            Ok(b) => r == Ok::<bool, SchemaValidationError>(b),
            Err(m) => r matches Err(e) && e.message@ == m,
        },
{
    let pc = crate::text::chars_of(pattern);
    let look_ahead = crate::text::chars_of("(?!");
    let look_behind = crate::text::chars_of("(?<");
    if crate::text::contains(&pc, &look_ahead) || crate::text::contains(&pc, &look_behind) {
        let relative = crate::text::chars_of("^(?!/)(?!.*\\.\\.)(?!.*\\\\).+$");
        let not_absolute = crate::text::chars_of("^(?!/)(?!.*\\\\).+$");
        let empty_or_relative = crate::text::chars_of("^$|^(?!/)(?!.*\\.\\.)(?!.*\\\\).+$");
        if crate::json::chars_equal(&pc, &relative) {
            return Ok(is_project_relative_path(value));
        }
        if crate::json::chars_equal(&pc, &not_absolute) {
            let v = crate::text::chars_of(value);
            return Ok(v.len() > 0 && v[0] != '/' && !crate::text::contains_ch(&v, '\\'));
        }
        if crate::json::chars_equal(&pc, &empty_or_relative) {
            let v = crate::text::chars_of(value);
            return Ok(v.len() == 0 || is_project_relative_path(value));
        }
        let mut m = String::new();
        m.append("unsupported look-around pattern ");
        let d = crate::json::debug_str(pattern);
        m.append(d.as_str());
        return Err(SchemaValidationError { message: m });
    }
    match regex_search(pattern, value) {
        Ok(b) => Ok(b),
        Err(e) => {
            let mut m = String::new();
            m.append("invalid schema pattern ");
            let d = crate::json::debug_str(pattern);
            m.append(d.as_str());
            m.append(": ");
            m.append(e.as_str());
            Err(SchemaValidationError { message: m })
        },
    }
}

/// `s.replace(pat, rep)`.
fn replace_chars(s: &Vec<char>, pat: &Vec<char>, rep: &Vec<char>) -> (r: Vec<char>)
    requires
        pat.len() > 0,
    ensures
        r@ == replace_text(s@, pat@, rep@),
{
    let mut out: Vec<char> = Vec::new();
    let mut i: usize = 0;
    assert(s@.skip(0) =~= s@);
    while i < s.len()
        invariant
            i <= s.len(),
            pat.len() > 0,
            replace_text(s@, pat@, rep@) == out@ + replace_text(s@.skip(i as int), pat@, rep@),
        decreases s.len() - i,
    {
        let ghost rest = s@.skip(i as int);
        if crate::text::matches_at(s, pat, i) {
            assert(rest.subrange(0, pat.len() as int) =~= s@.subrange(i as int, i + pat.len()));
            assert(rest.skip(pat.len() as int) =~= s@.skip(i + pat.len()));
            let ghost before = out@;
            let mut k: usize = 0;
            while k < rep.len()
                invariant
                    k <= rep.len(),
                    out@ == before + rep@.take(k as int),
                decreases rep.len() - k,
            {
                out.push(rep[k]);
                k = k + 1;
                assert(out@ =~= before + rep@.take(k as int));
            }
            assert(rep@.take(rep.len() as int) =~= rep@);
            assert(before + (rep@ + replace_text(rest.skip(pat.len() as int), pat@, rep@)) =~= out@
                + replace_text(rest.skip(pat.len() as int), pat@, rep@));
            i = i + pat.len();
        } else {
            assert(!starts_with(rest, pat@)) by {
                if starts_with(rest, pat@) {
                    assert(rest.subrange(0, pat.len() as int) =~= s@.subrange(i as int, i + pat.len()));
                }
            }
            assert(rest.drop_first() =~= s@.skip(i + 1));
            assert(rest[0] == s@[i as int]);
            let ghost before = out@;
            out.push(s[i]);
            assert(before + (seq![s@[i as int]] + replace_text(rest.drop_first(), pat@, rep@)) =~= out@
                + replace_text(rest.drop_first(), pat@, rep@));
            i = i + 1;
        }
    }
    assert(s@.skip(i as int) =~= Seq::<char>::empty());
    assert(out@ + Seq::<char>::empty() =~= out@);
    out
}

fn error_with(message: String) -> (r: Result<(), SchemaValidationError>)
    ensures
        r matches Err(e) && e.message@ == message@,
{
    Err(SchemaValidationError { message })
}

/// Resolves a local `$ref` against the root schema.
pub fn resolve_ref<'a>(ref_path: &str, root_schema: &'a JsonValue) -> (r: Result<&'a JsonValue, SchemaValidationError>)
    ensures
        match ref_target(ref_path@, root_schema.model()) {
            Ok(m) => r matches Ok(t) && t.model() == m,
            Err(msg) => r matches Err(e) && e.message@ == msg,
        },
{
    let rc = crate::text::chars_of(ref_path);
    let prefix = crate::text::chars_of("#/");
    proof {
        reveal_strlit("#/");
        reveal_strlit("~1");
        reveal_strlit("~0");
    }
    if !crate::text::matches_at(&rc, &prefix, 0) {
        let mut m = String::new();
        m.append("unsupported $ref ");
        let d = crate::json::debug_str(ref_path);
        m.append(d.as_str());
        m.append("; only local refs are supported");
        return Err(SchemaValidationError { message: m });
    }
    let parts = split_from(&rc, 2, '/');
    let ghost ps = views(parts@);
    let tilde_one = crate::text::chars_of("~1");
    let slash = crate::text::chars_of("/");
    let tilde_zero = crate::text::chars_of("~0");
    let tilde = crate::text::chars_of("~");
    let mut target: &'a JsonValue = root_schema;
    let mut i: usize = 0;
    assert(starts_with(ref_path@, "#/"@));
    assert(ps.skip(0) =~= ps);
    while i < parts.len()
        invariant
            i <= parts.len(),
            ps == views(parts@),
            ps.len() == parts.len(),
            rc@ == ref_path@,
            tilde_one@ == "~1"@,
            tilde_one@.len() == 2,
            tilde_zero@.len() == 2,
            slash@ == "/"@,
            tilde_zero@ == "~0"@,
            tilde@ == "~"@,
            walk_ref(root_schema.model(), ps, ref_path@) == walk_ref(target.model(), ps.skip(i as int), ref_path@),
            ref_target(ref_path@, root_schema.model()) == walk_ref(root_schema.model(), ps, ref_path@),
        decreases parts.len() - i,
    {
        let step = replace_chars(&parts[i], &tilde_one, &slash);
        let key_chars = replace_chars(&step, &tilde_zero, &tilde);
        let key = crate::text::string_of(&key_chars);
        assert(ps.skip(i as int)[0] == ps[i as int]);
        assert(ps[i as int] == parts@[i as int]@);
        assert(ps.skip(i as int).drop_first() =~= ps.skip(i + 1));
        match crate::json::get(target, key.as_str()) {
            Some(next) => {
                target = next;
            },
            None => {
                let mut m = String::new();
                m.append("unresolved $ref ");
                let d = crate::json::debug_str(ref_path);
                m.append(d.as_str());
                return Err(SchemaValidationError { message: m });
            },
        }
        i = i + 1;
    }
    assert(ps.skip(i as int) =~= Seq::<Seq<char>>::empty());
    Ok(target)
}

} // verus!

verus! {

fn lookup_array<'a>(m: &'a JsonValue, k: &str) -> (r: Option<&'a Vec<JsonValue>>)
    ensures
        match get_array(m.model(), k@) {
            Some(a) => r matches Some(v) && crate::json::models(v@) == a,
            None => r is None,
        },
{
    match crate::json::get(m, k) {
        Some(JsonValue::Array(items)) => {
            proof {
                crate::json::lemma_array_model(*items);
            }
            Some(items)
        },
        _ => None,
    }
}

fn lookup_u64(m: &JsonValue, k: &str) -> (r: Option<u64>)
    ensures
        r == get_u64(m.model(), k@),
{
    match crate::json::get(m, k) {
        Some(JsonValue::Number(JsonNumber::PosInt(n))) => Some(*n),
        _ => None,
    }
}

fn lookup_flag(m: &JsonValue, k: &str) -> (r: Option<bool>)
    ensures
        r == get_flag(m.model(), k@),
{
    match crate::json::get(m, k) {
        Some(JsonValue::Bool(b)) => Some(*b),
        _ => None,
    }
}

fn lookup_str<'a>(m: &'a JsonValue, k: &str) -> (r: Option<&'a String>)
    ensures
        match get_str(m.model(), k@) {
            Some(t) => r matches Some(v) && v@ == t,
            None => r is None,
        },
{
    match crate::json::get(m, k) {
        Some(JsonValue::String(s)) => Some(s),
        _ => None,
    }
}

fn lookup_number<'a>(m: &'a JsonValue, k: &str) -> (r: Option<&'a JsonNumber>)
    ensures
        match get_number(m.model(), k@) {
            Some(n) => r matches Some(v) && v.model() == n,
            None => r is None,
        },
{
    match crate::json::get(m, k) {
        Some(JsonValue::Number(n)) => Some(n),
        _ => None,
    }
}

fn value_is_i64(v: &JsonValue) -> (r: bool)
    ensures
        r == is_i64(v.model()),
{
    match v {
        JsonValue::Number(JsonNumber::PosInt(n)) => *n <= 0x7fff_ffff_ffff_ffff,
        JsonValue::Number(JsonNumber::NegInt(_)) => true,
        _ => false,
    }
}

/// Whether `value` has the JSON Schema type named `expected`.
pub fn type_matches(expected: &str, value: &JsonValue) -> (r: bool)
    ensures
        r == has_type(expected@, value.model()),
{
    let e = crate::text::chars_of(expected);
    if crate::json::chars_equal(&e, &crate::text::chars_of("object")) {
        value.is_object()
    } else if crate::json::chars_equal(&e, &crate::text::chars_of("array")) {
        value.is_array()
    } else if crate::json::chars_equal(&e, &crate::text::chars_of("string")) {
        value.is_string()
    } else if crate::json::chars_equal(&e, &crate::text::chars_of("integer")) {
        value_is_i64(value)
    } else if crate::json::chars_equal(&e, &crate::text::chars_of("number")) {
        value.is_number()
    } else if crate::json::chars_equal(&e, &crate::text::chars_of("boolean")) {
        value.is_bool()
    } else if crate::json::chars_equal(&e, &crate::text::chars_of("null")) {
        value.is_null()
    } else {
        false
    }
}

/// The JSON Schema type name of a value.
pub fn json_type_name(value: &JsonValue) -> (r: &'static str)
    ensures
        r@ == type_name_of(value.model()),
{
    match value {
        JsonValue::Null => "null",
        JsonValue::Bool(_) => "boolean",
        JsonValue::Number(_) => if value_is_i64(value) {
            "integer"
        } else {
            "number"
        },
        JsonValue::String(_) => "string",
        JsonValue::Array(_) => "array",
        JsonValue::Object(_) => "object",
    }
}

} // verus!

verus! {

fn check_const(schema: &JsonValue, value: &JsonValue, path: &String) -> (r: Result<(), SchemaValidationError>)
    ensures
        match const_error(schema.model(), value.model(), path@) {
            None => r is Ok,
            Some(m) => r matches Err(e) && e.message@ == m,
        },
{
    if let Some(expected) = crate::json::get(schema, "const") {
        if !crate::json::values_equal(value, expected) {
            let mut m = path.clone();
            m.append(": expected const ");
            crate::json::push_value_debug(&mut m, expected);
            m.append(", got ");
            crate::json::push_value_debug(&mut m, value);
            return error_with(m);
        }
    }
    Ok(())
}

fn check_enum(schema: &JsonValue, value: &JsonValue, path: &String) -> (r: Result<(), SchemaValidationError>)
    ensures
        match enum_error(schema.model(), value.model(), path@) {
            None => r is Ok,
            Some(m) => r matches Err(e) && e.message@ == m,
        },
{
    if let Some(values) = lookup_array(schema, "enum") {
        let ghost vm = crate::json::models(values@);
        let mut i: usize = 0;
        while i < values.len()
            invariant
                i <= values.len(),
                vm == crate::json::models(values@),
                get_array(schema.model(), "enum"@) == Some(vm),
                forall|j: int| 0 <= j < i ==> !same_json(#[trigger] vm[j], value.model()),
            decreases values.len() - i,
        {
            if crate::json::values_equal(&values[i], value) {
                assert(same_json(vm[i as int], value.model()));
                return Ok(());
            }
            i = i + 1;
        }
        assert(!(exists|k: int| 0 <= k < vm.len() && same_json(#[trigger] vm[k], value.model())));
        let mut m = path.clone();
        m.append(": expected one of ");
        crate::json::push_list_debug(&mut m, values);
        m.append(", got ");
        crate::json::push_value_debug(&mut m, value);
        return error_with(m);
    }
    Ok(())
}

fn check_type(schema: &JsonValue, value: &JsonValue, path: &String) -> (r: Result<(), SchemaValidationError>)
    ensures
        match type_error(schema.model(), value.model(), path@) {
            None => r is Ok,
            Some(m) => r matches Err(e) && e.message@ == m,
        },
{
    match crate::json::get(schema, "type") {
        Some(JsonValue::Array(types)) => {
            proof {
                crate::json::lemma_array_model(*types);
            }
            let ghost tm = crate::json::models(types@);
            let mut i: usize = 0;
            while i < types.len()
                invariant
                    i <= types.len(),
                    tm == crate::json::models(types@),
                    get_key(schema.model(), "type"@) == Some(JsonModel::Array(tm)),
                    forall|j: int| 0 <= j < i ==> !type_name_matches(#[trigger] tm[j], value.model()),
                decreases types.len() - i,
            {
                if let JsonValue::String(name) = &types[i] {
                    if type_matches(name.as_str(), value) {
                        assert(type_name_matches(tm[i as int], value.model()));
                        return Ok(());
                    }
                }
                i = i + 1;
            }
            let mut m = path.clone();
            m.append(": expected type ");
            crate::json::push_list_debug(&mut m, types);
            m.append(", got ");
            m.append(json_type_name(value));
            error_with(m)
        },
        Some(JsonValue::String(expected)) => {
            if !type_matches(expected.as_str(), value) {
                let mut m = path.clone();
                m.append(": expected type ");
                let d = crate::json::debug_str(expected.as_str());
                m.append(d.as_str());
                m.append(", got ");
                m.append(json_type_name(value));
                return error_with(m);
            }
            Ok(())
        },
        _ => Ok(()),
    }
}

fn check_string(schema: &JsonValue, text: &String, path: &String) -> (r: Result<(), SchemaValidationError>)
    ensures
        match string_error(schema.model(), text@, path@) {
            None => r is Ok,
            Some(m) => r matches Err(e) && e.message@ == m,
        },
{
    if let Some(min_length) = lookup_u64(schema, "minLength") {
        let chars = crate::text::chars_of(text.as_str());
        let bytes = crate::text::byte_offset_of(&chars, chars.len());
        if bytes < min_length as u128 {
            let mut m = path.clone();
            m.append(": string shorter than minLength ");
            crate::text::push_decimal(&mut m, min_length as u128);
            return error_with(m);
        }
    }
    if let Some(pattern) = lookup_str(schema, "pattern") {
        let matched = match matches_string_pattern(pattern.as_str(), text.as_str()) {
            Ok(b) => b,
            Err(e) => {
                return Err(e);
            },
        };
        if !matched {
            let mut m = path.clone();
            m.append(": string does not match pattern ");
            let d = crate::json::debug_str(pattern.as_str());
            m.append(d.as_str());
            m.append(": ");
            let t = crate::json::debug_str(text.as_str());
            m.append(t.as_str());
            return error_with(m);
        }
    }
    Ok(())
}

fn number_bound_message(path: &String, n: &JsonNumber, middle: &str, bound: &JsonNumber) -> (m: String)
    ensures
        m@ == path@ + ": "@ + number_display(n.model()) + middle@ + number_display(bound.model()),
{
    let mut m = path.clone();
    m.append(": ");
    crate::json::push_number_display(&mut m, n);
    m.append(middle);
    crate::json::push_number_display(&mut m, bound);
    m
}

fn check_number(schema: &JsonValue, n: &JsonNumber, path: &String) -> (r: Result<(), SchemaValidationError>)
    ensures
        match number_error(schema.model(), n.model(), path@) {
            None => r is Ok,
            Some(m) => r matches Err(e) && e.message@ == m,
        },
{
    if let Some(minimum) = lookup_number(schema, "minimum") {
        if crate::number::compare_numbers(n, minimum) < 0 {
            return error_with(number_bound_message(path, n, " < minimum ", minimum));
        }
    }
    if let Some(exclusive_minimum) = lookup_number(schema, "exclusiveMinimum") {
        if crate::number::compare_numbers(n, exclusive_minimum) <= 0 {
            return error_with(number_bound_message(path, n, " <= exclusiveMinimum ", exclusive_minimum));
        }
    }
    if let Some(maximum) = lookup_number(schema, "maximum") {
        if crate::number::compare_numbers(n, maximum) > 0 {
            return error_with(number_bound_message(path, n, " > maximum ", maximum));
        }
    }
    Ok(())
}

fn check_local(schema: &JsonValue, value: &JsonValue, path: &String) -> (r: Result<(), SchemaValidationError>)
    ensures
        match local_error(schema.model(), value.model(), path@) {
            None => r is Ok,
            Some(m) => r matches Err(e) && e.message@ == m,
        },
{
    check_const(schema, value, path)?;
    check_enum(schema, value, path)?;
    check_type(schema, value, path)?;
    match value {
        JsonValue::String(text) => check_string(schema, text, path),
        JsonValue::Number(n) => check_number(schema, n, path),
        _ => Ok(()),
    }
}

} // verus!

verus! {

fn check_array(schema: &JsonValue, items: &Vec<JsonValue>, path: &String) -> (r: Result<(), SchemaValidationError>)
    ensures
        match array_error(schema.model(), crate::json::models(items@), path@) {
            None => r is Ok,
            Some(m) => r matches Err(e) && e.message@ == m,
        },
{
    let ghost im = crate::json::models(items@);
    if let Some(min_items) = lookup_u64(schema, "minItems") {
        if (items.len() as u64) < min_items {
            let mut m = path.clone();
            m.append(": array shorter than minItems ");
            crate::text::push_decimal(&mut m, min_items as u128);
            return error_with(m);
        }
    }
    if let Some(max_items) = lookup_u64(schema, "maxItems") {
        if (items.len() as u64) > max_items {
            let mut m = path.clone();
            m.append(": array longer than maxItems ");
            crate::text::push_decimal(&mut m, max_items as u128);
            return error_with(m);
        }
    }
    if lookup_flag(schema, "uniqueItems") == Some(true) {
        let mut i: usize = 0;
        while i < items.len()
            invariant
                i <= items.len(),
                im == crate::json::models(items@),
                (get_u64(schema.model(), "minItems"@) matches Some(mn) ==> im.len() >= mn),
                (get_u64(schema.model(), "maxItems"@) matches Some(mx) ==> im.len() <= mx),
                get_flag(schema.model(), "uniqueItems"@) == Some(true),
                forall|a: int, b: int| 0 <= a < i && a < b < items.len() ==> !same_json(#[trigger] im[a], #[trigger] im[b]),
            decreases items.len() - i,
        {
            let mut j: usize = i + 1;
            while j < items.len()
                invariant
                    i < j <= items.len(),
                    im == crate::json::models(items@),
                    (get_u64(schema.model(), "minItems"@) matches Some(mn) ==> im.len() >= mn),
                    (get_u64(schema.model(), "maxItems"@) matches Some(mx) ==> im.len() <= mx),
                    get_flag(schema.model(), "uniqueItems"@) == Some(true),

                    forall|b: int| i < b < j ==> !same_json(im[i as int], #[trigger] im[b]),
                decreases items.len() - j,
            {
                if crate::json::values_equal(&items[i], &items[j]) {
                    assert(same_json(im[i as int], im[j as int]));
                    assert(has_duplicates(im));
                    let mut m = path.clone();
                    m.append(": array items are not unique");
                    return error_with(m);
                }
                j = j + 1;
            }
            i = i + 1;
        }
        assert(!has_duplicates(im));
    }
    Ok(())
}

fn push_strings_debug(out: &mut String, keys: &Vec<String>)
    ensures
        final(out)@ == old(out)@ + strings_debug(keys@.map_values(|k: String| k@)),
{
    let ghost ks = keys@.map_values(|k: String| k@);
    let ghost ds = ks.map_values(|k: Seq<char>| str_debug(k));
    out.append("[");
    let ghost start = out@;
    let mut i: usize = 0;
    while i < keys.len()
        invariant
            i <= keys.len(),
            ks == keys@.map_values(|k: String| k@),
            ds == ks.map_values(|k: Seq<char>| str_debug(k)),
            out@ == start + joined(ds.take(i as int), ", "@),
        decreases keys.len() - i,
    {
        if i > 0 {
            out.append(", ");
        }
        let d = crate::json::debug_str(keys[i].as_str());
        out.append(d.as_str());
        proof {
            lemma_joined_push(ds.take(i as int), ", "@, ds[i as int]);
            assert(ds.take(i + 1) =~= ds.take(i as int).push(ds[i as int]));
        }
        i = i + 1;
    }
    assert(ds.take(keys.len() as int) =~= ds);
    out.append("]");
}

fn check_object(schema: &JsonValue, entries: &Vec<(String, JsonValue)>, path: &String) -> (r: Result<(), SchemaValidationError>)
    ensures
        match object_error(schema.model(), crate::json::entry_models(entries@), path@) {
            None => r is Ok,
            Some(m) => r matches Err(e) && e.message@ == m,
        },
{
    let ghost map = crate::json::entry_models(entries@);
    if let Some(required) = lookup_array(schema, "required") {
        let ghost req = crate::json::models(required@);
        let mut i: usize = 0;
        while i < required.len()
            invariant
                i <= required.len(),
                req == crate::json::models(required@),
                get_array(schema.model(), "required"@) == Some(req),
                map == crate::json::entry_models(entries@),
                missing_required(req, map, 0) == missing_required(req, map, i as int),
            decreases required.len() - i,
        {
            if let JsonValue::String(key) = &required[i] {
                if crate::json::object_lookup(entries, key.as_str()).is_none() {
                    let mut m = path.clone();
                    m.append(": missing required key ");
                    let d = crate::json::debug_str(key.as_str());
                    m.append(d.as_str());
                    return error_with(m);
                }
            }
            i = i + 1;
        }
    }
    if lookup_flag(schema, "additionalProperties") == Some(false) {
        let empty: Vec<(String, JsonValue)> = Vec::new();
        let props: &Vec<(String, JsonValue)> = match crate::json::get(schema, "properties") {
            Some(JsonValue::Object(p)) => {
                proof {
                    crate::json::lemma_object_model(*p);
                }
                p
            },
            _ => &empty,
        };
        assert(crate::json::entry_models(props@) == schema_properties(schema.model())) by {
            assert(crate::json::entry_models(empty@) =~= Seq::empty());
        }
        let ghost pm = crate::json::entry_models(props@);
        let mut extras: Vec<String> = Vec::new();
        let mut i: usize = 0;
        assert(map.skip(0) =~= map);
        while i < entries.len()
            invariant
                i <= entries.len(),
                map == crate::json::entry_models(entries@),
                pm == crate::json::entry_models(props@),
                extra_keys(map, pm) == extras@.map_values(|k: String| k@) + extra_keys(map.skip(i as int), pm),
            decreases entries.len() - i,
        {
            let ghost before = extras@.map_values(|k: String| k@);
            assert(map.skip(i as int).drop_first() =~= map.skip(i + 1));
            assert(map.skip(i as int)[0] == map[i as int]);
            if crate::json::object_lookup(props, entries[i].0.as_str()).is_none() {
                extras.push(entries[i].0.clone());
                assert(extras@.map_values(|k: String| k@) =~= before.push(map[i as int].0));
                assert(before + (seq![map[i as int].0] + extra_keys(map.skip(i + 1), pm)) =~= before.push(map[i as int].0) + extra_keys(map.skip(i + 1), pm));
            }
            i = i + 1;
        }
        assert(map.skip(i as int) =~= Seq::<(Seq<char>, JsonModel)>::empty());
        assert(extras@.map_values(|k: String| k@) + Seq::<Seq<char>>::empty() =~= extras@.map_values(|k: String| k@));
        if extras.len() > 0 {
            let mut m = path.clone();
            m.append(": unexpected keys ");
            push_strings_debug(&mut m, &extras);
            return error_with(m);
        }
    }
    Ok(())
}

} // verus!

verus! {

/// The validation finishes: no `$ref` cycle is entered.
pub open spec fn validation_terminates(schema: JsonModel, v: JsonModel, root: JsonModel, path: Seq<char>) -> bool {
    exists|fuel: nat| (#[trigger] validate_spec(schema, v, root, path, fuel)) is Some
}

pub open spec fn validation_fuel(schema: JsonModel, v: JsonModel, root: JsonModel, path: Seq<char>) -> nat {
    choose|fuel: nat| (#[trigger] validate_spec(schema, v, root, path, fuel)) is Some
}

/// `None` when `v` satisfies `schema`, else the message of the first violation.
pub open spec fn validation_outcome(schema: JsonModel, v: JsonModel, root: JsonModel, path: Seq<char>) -> Option<Seq<char>> {
    validate_spec(schema, v, root, path, validation_fuel(schema, v, root, path)).unwrap()
}

pub open spec fn one_of_message(path: Seq<char>, matches: nat, failures: Seq<Seq<char>>) -> Seq<char> {
    path + ": expected exactly one oneOf match, got "@ + decimal(matches) + ". "@ + joined(
        failures.take(if failures.len() < 3 { failures.len() as int } else { 3 }),
        "; "@,
    )
}

fn check_one_of(options: &Vec<JsonValue>, value: &JsonValue, root: &JsonValue, path: &String, budget: Option<u64>, Ghost(fuel): Ghost<nat>) -> (r: Option<Result<(), SchemaValidationError>>)
    requires
        fuel > 0,
        budget matches Some(b) ==> b == fuel,
        budget is None ==> one_of_scan(crate::json::models(options@), value.model(), root.model(), path@, fuel, 0) is Some,
    ensures
        match one_of_scan(crate::json::models(options@), value.model(), root.model(), path@, fuel, 0) {
            None => r is None,
            Some((m, f)) => if m != 1 {
                r matches Some(Err(e)) && e.message@ == one_of_message(path@, m, f)
            } else {
                r matches Some(Ok(_))
            },
        },
    decreases fuel, 0int, 0int,
{
    let ghost om = crate::json::models(options@);
    let ghost vm = value.model();
    let ghost rm = root.model();
    let mut matches: usize = 0;
    let mut failures: Vec<String> = Vec::new();
    let mut i: usize = 0;
    while i < options.len()
        invariant
            i <= options.len(),
            fuel > 0,
            om == crate::json::models(options@),
            vm == value.model(),
            rm == root.model(),
            matches <= i,
            budget matches Some(b) ==> b == fuel,
            budget is None ==> one_of_scan(om, vm, rm, path@, fuel, 0) is Some,
            one_of_scan(om, vm, rm, path@, fuel, 0) == match one_of_scan(om, vm, rm, path@, fuel, i as int) {
                Some((m, f)) => Some(((m + matches) as nat, failures@.map_values(|s: String| s@) + f)),
                None => None::<(nat, Seq<Seq<char>>)>,
            },
        decreases options.len() - i,
    {
        let ghost before = failures@.map_values(|s: String| s@);
        let child_budget = match budget {
            Some(b) => Some(b - 1),
            None => None,
        };
        match validate_inner(&options[i], value, root, path, child_budget, Ghost((fuel - 1) as nat)) {
            None => {
                return None;
            },
            Some(Ok(())) => {
                matches = matches + 1;
            },
            Some(Err(err)) => {
                failures.push(err.message);
                proof {
                    let rest = one_of_scan(om, vm, rm, path@, fuel, i + 1);
                    if let Some((m2, f2)) = rest {
                        let msg = validate_spec(om[i as int], vm, rm, path@, (fuel - 1) as nat).unwrap().unwrap();
                        assert(failures@.map_values(|s: String| s@) =~= before.push(msg));
                        assert(before + (seq![msg] + f2) =~= before.push(msg) + f2);
                    }
                }
            },
        }
        i = i + 1;
    }
    let ghost fs = failures@.map_values(|s: String| s@);
    assert(fs + Seq::<Seq<char>>::empty() =~= fs);
    if matches != 1 {
        let mut m = path.clone();
        m.append(": expected exactly one oneOf match, got ");
        crate::text::push_decimal(&mut m, matches as u128);
        m.append(". ");
        let shown: usize = if failures.len() < 3 {
            failures.len()
        } else {
            3
        };
        let ghost start = m@;
        let mut k: usize = 0;
        while k < shown
            invariant
                k <= shown <= failures.len(),
                fs == failures@.map_values(|s: String| s@),
                m@ == start + joined(fs.take(k as int), "; "@),
            decreases shown - k,
        {
            if k > 0 {
                m.append("; ");
            }
            m.append(failures[k].as_str());
            proof {
                lemma_joined_push(fs.take(k as int), "; "@, fs[k as int]);
                assert(fs.take(k + 1) =~= fs.take(k as int).push(fs[k as int]));
            }
            k = k + 1;
        }
        return Some(error_with(m));
    }
    Some(Ok(()))
}

fn check_items(item_schema: &JsonValue, items: &Vec<JsonValue>, root: &JsonValue, path: &String, budget: Option<u64>, Ghost(fuel): Ghost<nat>) -> (r: Option<Result<(), SchemaValidationError>>)
    requires
        fuel > 0,
        budget matches Some(b) ==> b == fuel,
        budget is None ==> items_scan(item_schema.model(), crate::json::models(items@), root.model(), path@, fuel, 0) is Some,
    ensures
        match items_scan(item_schema.model(), crate::json::models(items@), root.model(), path@, fuel, 0) {
            None => r is None,
            Some(None) => r matches Some(Ok(_)),
            Some(Some(m)) => r matches Some(Err(e)) && e.message@ == m,
        },
    decreases fuel, 0int, 0int,
{
    let ghost im = crate::json::models(items@);
    let mut i: usize = 0;
    while i < items.len()
        invariant
            i <= items.len(),
            fuel > 0,
            im == crate::json::models(items@),
            budget matches Some(b) ==> b == fuel,
            budget is None ==> items_scan(item_schema.model(), im, root.model(), path@, fuel, 0) is Some,
            items_scan(item_schema.model(), im, root.model(), path@, fuel, 0) == items_scan(item_schema.model(), im, root.model(), path@, fuel, i as int),
        decreases items.len() - i,
    {
        let mut child_path = path.clone();
        child_path.append("[");
        crate::text::push_decimal(&mut child_path, i as u128);
        child_path.append("]");
        let child_budget = match budget {
            Some(b) => Some(b - 1),
            None => None,
        };
        match validate_inner(item_schema, &items[i], root, &child_path, child_budget, Ghost((fuel - 1) as nat)) {
            None => {
                return None;
            },
            Some(Err(e)) => {
                return Some(Err(e));
            },
            Some(Ok(())) => {},
        }
        i = i + 1;
    }
    Some(Ok(()))
}

fn check_props(props: &Vec<(String, JsonValue)>, entries: &Vec<(String, JsonValue)>, root: &JsonValue, path: &String, budget: Option<u64>, Ghost(fuel): Ghost<nat>) -> (r: Option<Result<(), SchemaValidationError>>)
    requires
        fuel > 0,
        budget matches Some(b) ==> b == fuel,
        budget is None ==> props_scan(crate::json::entry_models(props@), crate::json::entry_models(entries@), root.model(), path@, fuel, 0) is Some,
    ensures
        match props_scan(crate::json::entry_models(props@), crate::json::entry_models(entries@), root.model(), path@, fuel, 0) {
            None => r is None,
            Some(None) => r matches Some(Ok(_)),
            Some(Some(m)) => r matches Some(Err(e)) && e.message@ == m,
        },
    decreases fuel, 0int, 0int,
{
    let ghost pm = crate::json::entry_models(props@);
    let ghost em = crate::json::entry_models(entries@);
    let mut i: usize = 0;
    while i < props.len()
        invariant
            i <= props.len(),
            fuel > 0,
            pm == crate::json::entry_models(props@),
            em == crate::json::entry_models(entries@),
            budget matches Some(b) ==> b == fuel,
            budget is None ==> props_scan(pm, em, root.model(), path@, fuel, 0) is Some,
            props_scan(pm, em, root.model(), path@, fuel, 0) == props_scan(pm, em, root.model(), path@, fuel, i as int),
        decreases props.len() - i,
    {
        if let Some(child) = crate::json::object_lookup(entries, props[i].0.as_str()) {
            let mut child_path = path.clone();
            child_path.append(".");
            child_path.append(props[i].0.as_str());
            let child_budget = match budget {
                Some(b) => Some(b - 1),
                None => None,
            };
            match validate_inner(&props[i].1, child, root, &child_path, child_budget, Ghost((fuel - 1) as nat)) {
                None => {
                    return None;
                },
                Some(Err(e)) => {
                    return Some(Err(e));
                },
                Some(Ok(())) => {},
            }
        }
        i = i + 1;
    }
    Some(Ok(()))
}

/// Validation with `fuel` nested validations at most: `budget` counts them down
/// at run time, or is `None` where the fuel is known to suffice.
fn validate_inner(schema: &JsonValue, value: &JsonValue, root: &JsonValue, path: &String, budget: Option<u64>, Ghost(fuel): Ghost<nat>) -> (r: Option<Result<(), SchemaValidationError>>)
    requires
        budget matches Some(b) ==> b == fuel,
        budget is None ==> validate_spec(schema.model(), value.model(), root.model(), path@, fuel) is Some,
    ensures
        match validate_spec(schema.model(), value.model(), root.model(), path@, fuel) {
            None => r is None,
            Some(None) => r matches Some(Ok(_)),
            Some(Some(m)) => r matches Some(Err(e)) && e.message@ == m,
        },
    decreases fuel, 1int, 0int,
{
    if budget == Some(0u64) {
        return None;
    }
    let child_budget = match budget {
        Some(b) => Some(b - 1),
        None => None,
    };
    if let Some(ref_path) = lookup_str(schema, "$ref") {
        let resolved = match resolve_ref(ref_path.as_str(), root) {
            Ok(t) => t,
            Err(e) => {
                return Some(Err(e));
            },
        };
        return validate_inner(resolved, value, root, path, child_budget, Ghost((fuel - 1) as nat));
    }
    if let Some(options) = lookup_array(schema, "oneOf") {
        return check_one_of(options, value, root, path, budget, Ghost(fuel));
    }
    if let Err(e) = check_local(schema, value, path) {
        return Some(Err(e));
    }
    match value {
        JsonValue::Array(items) => {
            proof {
                crate::json::lemma_array_model(*items);
            }
            if let Err(e) = check_array(schema, items, path) {
                return Some(Err(e));
            }
            if let Some(item_schema) = crate::json::get(schema, "items") {
                return check_items(item_schema, items, root, path, budget, Ghost(fuel));
            }
            Some(Ok(()))
        },
        JsonValue::Object(entries) => {
            proof {
                crate::json::lemma_object_model(*entries);
            }
            if let Err(e) = check_object(schema, entries, path) {
                return Some(Err(e));
            }
            let empty: Vec<(String, JsonValue)> = Vec::new();
            let props: &Vec<(String, JsonValue)> = match crate::json::get(schema, "properties") {
                Some(JsonValue::Object(p)) => {
                    proof {
                        crate::json::lemma_object_model(*p);
                    }
                    p
                },
                _ => &empty,
            };
            assert(crate::json::entry_models(props@) == schema_properties(schema.model())) by {
                assert(crate::json::entry_models(empty@) =~= Seq::empty());
            }
            check_props(props, entries, root, path, budget, Ghost(fuel))
        },
        _ => Some(Ok(())),
    }
}

/// A JSON document's value, once its text is read: the value, or the error
/// `LABEL: invalid JSON: MESSAGE` (the label is the file's path).
pub fn json_document(label: &str, text: &str) -> (r: Result<JsonValue, SchemaValidationError>)
    ensures
        match crate::json::json_reading(text@) {
            Ok(m) => r matches Ok(v) && v.model() == m && json_wf(m),
            Err(e) => r matches Err(err) && err.message@ == label@ + ": invalid JSON: "@ + e,
        },
{
    match crate::json::parse_json_text(text) {
        Ok(v) => Ok(v),
        Err(e) => {
            let mut message = label.to_string();
            crate::text::push_text(&mut message, ": invalid JSON: ");
            crate::text::push_text(&mut message, e.as_str());
            Err(SchemaValidationError { message })
        },
    }
}

/// Validates `value` against `schema` (resolving `$ref`s in `root_schema`),
/// reporting the first violation found, located by `path`. The values are
/// valid JSON values (`json_wf`: unique, ordered object keys), as every value
/// `parse_ron_subset` reads or `json_value_wf` accepts is.
pub fn validate_schema(schema: &JsonValue, value: &JsonValue, root_schema: &JsonValue, path: &str) -> (r: Result<(), SchemaValidationError>)
    requires
        json_wf(schema.model()),
        json_wf(value.model()),
        json_wf(root_schema.model()),
        validation_terminates(schema.model(), value.model(), root_schema.model(), path@),
    ensures
        match validation_outcome(schema.model(), value.model(), root_schema.model(), path@) {
            None => r is Ok,
            Some(m) => r matches Err(e) && e.message@ == m,
        },
{
    let ghost fuel = validation_fuel(schema.model(), value.model(), root_schema.model(), path@);
    let p = path.to_owned();
    validate_inner(schema, value, root_schema, &p, None, Ghost(fuel)).unwrap()
}

/// Validates `value` against `schema` as `validate_schema` does, but with at
/// most `fuel` nested validations (each `$ref` followed, `oneOf` option, array
/// item and property takes one): `None` when they do not suffice, as on a
/// `$ref` cycle. Any answer it gives is that of `validate_schema`.
pub fn validate_schema_with_fuel(schema: &JsonValue, value: &JsonValue, root_schema: &JsonValue, path: &str, fuel: u64) -> (r: Option<Result<(), SchemaValidationError>>)
    requires
        json_wf(schema.model()),
        json_wf(value.model()),
        json_wf(root_schema.model()),
    ensures
        match validate_spec(schema.model(), value.model(), root_schema.model(), path@, fuel as nat) {
            None => r is None,
            Some(None) => r matches Some(Ok(_)),
            Some(Some(m)) => r matches Some(Err(e)) && e.message@ == m,
        },
        r is Some ==> validation_terminates(schema.model(), value.model(), root_schema.model(), path@)
            && match validation_outcome(schema.model(), value.model(), root_schema.model(), path@) {
                None => r matches Some(Ok(_)),
                Some(m) => r matches Some(Err(e)) && e.message@ == m,
            },
{
    let p = path.to_owned();
    let r = validate_inner(schema, value, root_schema, &p, Some(fuel), Ghost(fuel as nat));
    proof {
        if r is Some {
            lemma_validate_fuel_independent(schema.model(), value.model(), root_schema.model(), path@, fuel as nat);
        }
    }
    r
}

} // verus!

verus! {

/// More fuel changes nothing once a validation has finished.
pub proof fn lemma_validate_fuel_mono(schema: JsonModel, v: JsonModel, root: JsonModel, path: Seq<char>, f: nat, g: nat)
    requires
        f <= g,
        validate_spec(schema, v, root, path, f) is Some,
    ensures
        validate_spec(schema, v, root, path, g) == validate_spec(schema, v, root, path, f),
    decreases f, 1int, 0int,
{
    match get_str(schema, "$ref"@) {
        Some(rp) => match ref_target(rp, root) {
            Err(_) => {},
            Ok(target) => {
                lemma_validate_fuel_mono(target, v, root, path, (f - 1) as nat, (g - 1) as nat);
            },
        },
        None => match get_array(schema, "oneOf"@) {
            Some(options) => {
                lemma_one_of_fuel_mono(options, v, root, path, f, g, 0);
            },
            None => if local_error(schema, v, path) is None {
                match v {
                    JsonModel::Array(items) => if array_error(schema, items, path) is None {
                        match get_key(schema, "items"@) {
                            Some(item_schema) => {
                                lemma_items_fuel_mono(item_schema, items, root, path, f, g, 0);
                            },
                            None => {},
                        }
                    },
                    JsonModel::Object(map) => if object_error(schema, map, path) is None {
                        lemma_props_fuel_mono(schema_properties(schema), map, root, path, f, g, 0);
                    },
                    _ => {},
                }
            },
        },
    }
}

proof fn lemma_one_of_fuel_mono(options: Seq<JsonModel>, v: JsonModel, root: JsonModel, path: Seq<char>, f: nat, g: nat, i: int)
    requires
        f <= g,
        one_of_scan(options, v, root, path, f, i) is Some,
    ensures
        one_of_scan(options, v, root, path, g, i) == one_of_scan(options, v, root, path, f, i),
    decreases f, 0int, options.len() - i,
{
    if i >= 0 && i < options.len() {
        lemma_validate_fuel_mono(options[i], v, root, path, (f - 1) as nat, (g - 1) as nat);
        lemma_one_of_fuel_mono(options, v, root, path, f, g, i + 1);
    }
}

proof fn lemma_items_fuel_mono(item_schema: JsonModel, items: Seq<JsonModel>, root: JsonModel, path: Seq<char>, f: nat, g: nat, i: int)
    requires
        f <= g,
        items_scan(item_schema, items, root, path, f, i) is Some,
    ensures
        items_scan(item_schema, items, root, path, g, i) == items_scan(item_schema, items, root, path, f, i),
    decreases f, 0int, items.len() - i,
{
    if i >= 0 && i < items.len() {
        let p = path + "["@ + decimal(i as nat) + "]"@;
        lemma_validate_fuel_mono(item_schema, items[i], root, p, (f - 1) as nat, (g - 1) as nat);
        if validate_spec(item_schema, items[i], root, p, (f - 1) as nat) == Some(None::<Seq<char>>) {
            lemma_items_fuel_mono(item_schema, items, root, path, f, g, i + 1);
        }
    }
}

proof fn lemma_props_fuel_mono(props: Seq<(Seq<char>, JsonModel)>, map: Seq<(Seq<char>, JsonModel)>, root: JsonModel, path: Seq<char>, f: nat, g: nat, i: int)
    requires
        f <= g,
        props_scan(props, map, root, path, f, i) is Some,
    ensures
        props_scan(props, map, root, path, g, i) == props_scan(props, map, root, path, f, i),
    decreases f, 0int, props.len() - i,
{
    if i >= 0 && i < props.len() {
        match object_get(map, props[i].0) {
            Some(child) => {
                let p = path + "."@ + props[i].0;
                lemma_validate_fuel_mono(props[i].1, child, root, p, (f - 1) as nat, (g - 1) as nat);
                if validate_spec(props[i].1, child, root, p, (f - 1) as nat) == Some(None::<Seq<char>>) {
                    lemma_props_fuel_mono(props, map, root, path, f, g, i + 1);
                }
            },
            None => {
                lemma_props_fuel_mono(props, map, root, path, f, g, i + 1);
            },
        }
    }
}

/// The outcome of a validation does not depend on the fuel it was given: any
/// fuel with which it finishes gives `validation_outcome`.
pub proof fn lemma_validate_fuel_independent(schema: JsonModel, v: JsonModel, root: JsonModel, path: Seq<char>, f: nat)
    requires
        validate_spec(schema, v, root, path, f) is Some,
    ensures
        validation_terminates(schema, v, root, path),
        validate_spec(schema, v, root, path, f) == Some(validation_outcome(schema, v, root, path)),
{
    assert(validation_terminates(schema, v, root, path));
    let g = validation_fuel(schema, v, root, path);
    if f <= g {
        lemma_validate_fuel_mono(schema, v, root, path, f, g);
    } else {
        lemma_validate_fuel_mono(schema, v, root, path, g, f);
    }
}

/// A schema with a `$ref` is validated as the schema the reference leads to
/// (its other keywords are not looked at): a reference that does not resolve
/// is reported with its error, and otherwise the validation finishes, and ends
/// the same way, exactly when the validation against the target does.
pub proof fn law_ref_validates_as_target(schema: JsonModel, v: JsonModel, root: JsonModel, path: Seq<char>, rp: Seq<char>)
    requires
        get_str(schema, "$ref"@) == Some(rp),
    ensures
        match ref_target(rp, root) {
            Err(e) => validation_terminates(schema, v, root, path) && validation_outcome(schema, v, root, path) == Some(e),
            Ok(t) => (validation_terminates(schema, v, root, path) <==> validation_terminates(t, v, root, path))
                && (validation_terminates(t, v, root, path) ==> validation_outcome(schema, v, root, path)
                    == validation_outcome(t, v, root, path)),
        },
{
    match ref_target(rp, root) {
        Err(e) => {
            assert(validate_spec(schema, v, root, path, 1) == Some(Some(e)));
            lemma_validate_fuel_independent(schema, v, root, path, 1);
        },
        Ok(t) => {
            if validation_terminates(t, v, root, path) {
                let f = validation_fuel(t, v, root, path);
                assert(validate_spec(schema, v, root, path, f + 1) == validate_spec(t, v, root, path, f));
                lemma_validate_fuel_independent(t, v, root, path, f);
                lemma_validate_fuel_independent(schema, v, root, path, f + 1);
            }
            if validation_terminates(schema, v, root, path) {
                let f = validation_fuel(schema, v, root, path);
                assert(f > 0);
                assert(validate_spec(schema, v, root, path, f) == validate_spec(t, v, root, path, (f - 1) as nat));
                assert(validate_spec(t, v, root, path, (f - 1) as nat) is Some);
            }
        },
    }
}

/// How many of `b[i..]` are true.
pub open spec fn true_count(b: Seq<bool>, i: int) -> nat
    decreases b.len() - i,
{
    if i < 0 || i >= b.len() {
        0
    } else {
        true_count(b, i + 1) + if b[i] { 1nat } else { 0nat }
    }
}

/// For each option, whether it accepts `v`.
pub open spec fn accepting(options: Seq<JsonModel>, v: JsonModel, root: JsonModel, path: Seq<char>) -> Seq<bool> {
    Seq::new(options.len(), |k: int| validation_outcome(options[k], v, root, path) is None)
}

/// How many of `options[i..]` accept `v`.
pub open spec fn one_of_passes(options: Seq<JsonModel>, v: JsonModel, root: JsonModel, path: Seq<char>, i: int) -> nat {
    true_count(accepting(options, v, root, path), i)
}

/// None of `b[i..]` is true.
pub open spec fn none_true(b: Seq<bool>, i: int) -> bool {
    forall|j: int| i <= j < b.len() ==> !#[trigger] b[j]
}

/// Of `b[i..]`, `b[k]` and no other is true.
pub open spec fn only_true_at(b: Seq<bool>, i: int, k: int) -> bool {
    &&& i <= k < b.len()
    &&& b[k]
    &&& forall|j: int| i <= j < b.len() && j != k ==> !#[trigger] b[j]
}

proof fn lemma_true_count_zero(b: Seq<bool>, i: int)
    requires
        0 <= i <= b.len(),
    ensures
        true_count(b, i) == 0 <==> none_true(b, i),
    decreases b.len() - i,
{
    if i < b.len() {
        lemma_true_count_zero(b, i + 1);
        if none_true(b, i) {
            assert(!b[i]);
            assert forall|j: int| i + 1 <= j < b.len() implies !#[trigger] b[j] by {
                assert(i <= j);
            }
        }
        if true_count(b, i) == 0 {
            assert forall|j: int| i <= j < b.len() implies !#[trigger] b[j] by {
                if j > i {
                    assert(none_true(b, i + 1));
                }
            }
        }
    }
}

proof fn lemma_true_count_one(b: Seq<bool>, i: int)
    requires
        0 <= i <= b.len(),
    ensures
        true_count(b, i) == 1 <==> exists|k: int| #[trigger] only_true_at(b, i, k),
    decreases b.len() - i,
{
    if i < b.len() {
        lemma_true_count_one(b, i + 1);
        lemma_true_count_zero(b, i + 1);
        if true_count(b, i) == 1 {
            if b[i] {
                assert forall|j: int| i <= j < b.len() && j != i implies !#[trigger] b[j] by {
                    assert(none_true(b, i + 1));
                }
                assert(only_true_at(b, i, i));
            } else {
                let k = choose|k: int| #[trigger] only_true_at(b, i + 1, k);
                assert forall|j: int| i <= j < b.len() && j != k implies !#[trigger] b[j] by {
                    if j > i {
                        assert(only_true_at(b, i + 1, k));
                    }
                }
                assert(only_true_at(b, i, k));
            }
        }
        if exists|k: int| #[trigger] only_true_at(b, i, k) {
            let k = choose|k: int| #[trigger] only_true_at(b, i, k);
            if k == i {
                assert forall|j: int| i + 1 <= j < b.len() implies !#[trigger] b[j] by {
                    assert(j != k);
                }
                assert(none_true(b, i + 1));
            } else {
                assert(!b[i]);
                assert forall|j: int| i + 1 <= j < b.len() && j != k implies !#[trigger] b[j] by {
                    assert(i <= j);
                }
                assert(only_true_at(b, i + 1, k));
            }
        }
    }
}

proof fn lemma_one_of_scan_some(options: Seq<JsonModel>, v: JsonModel, root: JsonModel, path: Seq<char>, f: nat, i: int)
    requires
        f > 0,
        0 <= i <= options.len(),
    ensures
        one_of_scan(options, v, root, path, f, i) is Some <==> forall|k: int| i <= k < options.len() ==>
            (#[trigger] validate_spec(options[k], v, root, path, (f - 1) as nat)) is Some,
        one_of_scan(options, v, root, path, f, i) matches Some((m, _)) ==> m == one_of_passes(options, v, root, path, i),
    decreases options.len() - i,
{
    if i < options.len() {
        lemma_one_of_scan_some(options, v, root, path, f, i + 1);
        if validate_spec(options[i], v, root, path, (f - 1) as nat) is Some {
            lemma_validate_fuel_independent(options[i], v, root, path, (f - 1) as nat);
        }
    }
}

/// Some fuel finishes the validation of `v` against every one of `options[i..]`.
proof fn lemma_common_fuel(options: Seq<JsonModel>, v: JsonModel, root: JsonModel, path: Seq<char>, i: int) -> (f: nat)
    requires
        0 <= i <= options.len(),
        forall|k: int| i <= k < options.len() ==> #[trigger] validation_terminates(options[k], v, root, path),
    ensures
        forall|k: int| i <= k < options.len() ==> (#[trigger] validate_spec(options[k], v, root, path, f)) is Some,
    decreases options.len() - i,
{
    if i == options.len() {
        0
    } else {
        let rest = lemma_common_fuel(options, v, root, path, i + 1);
        assert(validation_terminates(options[i], v, root, path));
        let here = validation_fuel(options[i], v, root, path);
        let f = if rest < here { here } else { rest };
        assert forall|k: int| i <= k < options.len() implies (#[trigger] validate_spec(options[k], v, root, path, f)) is Some by {
            if k == i {
                lemma_validate_fuel_mono(options[k], v, root, path, here, f);
            } else {
                lemma_validate_fuel_mono(options[k], v, root, path, rest, f);
            }
        }
        f
    }
}

/// A schema with `oneOf` (and no `$ref`) is validated by its options alone (its
/// other keywords are not looked at): the validation finishes exactly when it
/// finishes against every option, and it then accepts `v` exactly when one
/// option and no other accepts it; otherwise the message counts the options
/// that accept `v`.
pub proof fn law_one_of_exactly_one(schema: JsonModel, v: JsonModel, root: JsonModel, path: Seq<char>, options: Seq<JsonModel>)
    requires
        get_str(schema, "$ref"@) is None,
        get_array(schema, "oneOf"@) == Some(options),
    ensures
        validation_terminates(schema, v, root, path) <==> forall|k: int| 0 <= k < options.len()
            ==> #[trigger] validation_terminates(options[k], v, root, path),
        validation_terminates(schema, v, root, path) ==> (validation_outcome(schema, v, root, path) is None
            <==> exists|k: int| 0 <= k < options.len()
                && (#[trigger] validation_outcome(options[k], v, root, path)) is None
                && forall|j: int| 0 <= j < options.len() && j != k
                    ==> (#[trigger] validation_outcome(options[j], v, root, path)) is Some),
        validation_terminates(schema, v, root, path) && one_of_passes(options, v, root, path, 0) != 1
            ==> (validation_outcome(schema, v, root, path) matches Some(m) && exists|fails: Seq<Seq<char>>|
                m == #[trigger] one_of_message(path, one_of_passes(options, v, root, path, 0), fails)),
{
    let flags = accepting(options, v, root, path);
    lemma_true_count_one(flags, 0);
    if exists|k: int| #[trigger] only_true_at(flags, 0, k) {
        let k = choose|k: int| #[trigger] only_true_at(flags, 0, k);
        assert(validation_outcome(options[k], v, root, path) is None);
        assert forall|j: int| 0 <= j < options.len() && j != k implies (#[trigger] validation_outcome(options[j], v, root, path)) is Some by {
            assert(!flags[j]);
        }
    }
    if exists|k: int| 0 <= k < options.len()
        && (#[trigger] validation_outcome(options[k], v, root, path)) is None
        && forall|j: int| 0 <= j < options.len() && j != k
            ==> (#[trigger] validation_outcome(options[j], v, root, path)) is Some {
        let k = choose|k: int| 0 <= k < options.len()
            && (#[trigger] validation_outcome(options[k], v, root, path)) is None
            && forall|j: int| 0 <= j < options.len() && j != k
                ==> (#[trigger] validation_outcome(options[j], v, root, path)) is Some;
        assert forall|j: int| 0 <= j < flags.len() && j != k implies !#[trigger] flags[j] by {
            assert(validation_outcome(options[j], v, root, path) is Some);
        }
        assert(only_true_at(flags, 0, k));
    }
    assert forall|k: int| 0 <= k < options.len() implies flags[k] == (#[trigger] validation_outcome(options[k], v, root, path) is None) by {}
    if forall|k: int| 0 <= k < options.len() ==> #[trigger] validation_terminates(options[k], v, root, path) {
        let f = lemma_common_fuel(options, v, root, path, 0);
        lemma_one_of_scan_some(options, v, root, path, f + 1, 0);
        assert(validate_spec(schema, v, root, path, f + 1) is Some);
        lemma_validate_fuel_independent(schema, v, root, path, f + 1);
    }
    if validation_terminates(schema, v, root, path) {
        let f = validation_fuel(schema, v, root, path);
        assert(f > 0);
        lemma_one_of_scan_some(options, v, root, path, f, 0);
        assert forall|k: int| 0 <= k < options.len() implies #[trigger] validation_terminates(options[k], v, root, path) by {
            assert(validate_spec(options[k], v, root, path, (f - 1) as nat) is Some);
        }
        let (m, fails) = one_of_scan(options, v, root, path, f, 0).unwrap();
        if m != 1 {
            assert(validation_outcome(schema, v, root, path) == Some(one_of_message(path, m, fails)));
        }
    }
}

/// `minimum` is inclusive: against a schema whose only constraint on numbers
/// is `minimum` (no `$ref`, `oneOf`, `const`, `enum`, `type`,
/// `exclusiveMinimum` or `maximum`), a number is accepted exactly when it is
/// not below the minimum, so a number equal in value to it is accepted.
pub proof fn law_minimum_is_inclusive(schema: JsonModel, n: NumberModel, m: NumberModel, root: JsonModel, path: Seq<char>)
    requires
        get_key(schema, "$ref"@) is None,
        get_key(schema, "oneOf"@) is None,
        get_key(schema, "const"@) is None,
        get_key(schema, "enum"@) is None,
        get_key(schema, "type"@) is None,
        get_key(schema, "exclusiveMinimum"@) is None,
        get_key(schema, "maximum"@) is None,
        get_number(schema, "minimum"@) == Some(m),
    ensures
        validation_terminates(schema, JsonModel::Number(n), root, path),
        validation_outcome(schema, JsonModel::Number(n), root, path) is None <==> num_order(n, m) >= 0,
{
    let v = JsonModel::Number(n);
    assert(local_error(schema, v, path) == number_error(schema, n, path));
    assert(validate_spec(schema, v, root, path, 1) == Some(number_error(schema, n, path)));
    lemma_validate_fuel_independent(schema, v, root, path, 1);
}

} // verus!
