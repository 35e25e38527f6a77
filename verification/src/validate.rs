//! The checks behind `aa validate`: prefab soft references, their line
//! numbers, the diagnostics report and its SARIF form.
use vstd::prelude::*;
use crate::text::{trim_start_ws, trim_end_ws, trim_start_index, whitespace, occurs_at, starts_with, byte_offset, char_utf8_width, chars_of, string_of, slice_chars, find_from, matches_at};
use crate::exit_codes::ExitCode;
use crate::json::{JsonValue, JsonModel, JsonNumber, NumberModel, lemma_array_model, lemma_object_model, models, entry_models};

verus! {

/// `str::strip_prefix(p).unwrap_or(s)`.
pub open spec fn without_prefix(s: Seq<char>, p: Seq<char>) -> Seq<char> {
    if starts_with(s, p) {
        s.skip(p.len() as int)
    } else {
        s
    }
}

/// `str::strip_suffix(p).unwrap_or(s)`.
pub open spec fn without_suffix(s: Seq<char>, p: Seq<char>) -> Seq<char> {
    if s.len() >= p.len() && s.skip(s.len() - p.len()) == p {
        s.take(s.len() - p.len())
    } else {
        s
    }
}

/// A prefab reference as a prefab id: trimmed, without a leading `assets/`
/// and without a trailing `.ron`.
pub open spec fn normalized_prefab_ref(s: Seq<char>) -> Seq<char> {
    without_suffix(without_prefix(trim_end_ws(trim_start_ws(s)), "assets/"@), ".ron"@)
}

/// The text of a quoted string up to its closing quote: a backslash takes the
/// next character as it is.
pub open spec fn quoted_body(s: Seq<char>, escaped: bool, out: Seq<char>) -> Option<Seq<char>>
    decreases s.len(),
{
    if s.len() == 0 {
        None
    } else if escaped {
        quoted_body(s.drop_first(), false, out.push(s[0]))
    } else if s[0] == '\\' {
        quoted_body(s.drop_first(), true, out)
    } else if s[0] == '"' {
        Some(out)
    } else {
        quoted_body(s.drop_first(), false, out.push(s[0]))
    }
}

/// A quoted string at the start of `s` (after whitespace), if there is a whole one.
pub open spec fn quoted_string(s: Seq<char>) -> Option<Seq<char>> {
    let t = trim_start_ws(s);
    if t.len() > 0 && t[0] == '"' {
        quoted_body(t.drop_first(), false, Seq::empty())
    } else {
        None
    }
}

/// The marker of a prefab soft reference.
pub open spec fn prefab_marker() -> Seq<char> {
    seq!['p', 'r', 'e', 'f', 'a', 'b', ':']
}

/// The `prefab: "id"` references of `s` from position `i` on: each
/// occurrence of `prefab:` followed by a quoted string gives the string and
/// the byte offset of the occurrence.
pub open spec fn prefab_refs_from(s: Seq<char>, i: int) -> Seq<(Seq<char>, nat)>
    decreases s.len() - i,
{
    if i < 0 || i >= s.len() {
        Seq::empty()
    } else if occurs_at(s, prefab_marker(), i) {
        let rest = prefab_refs_from(s, i + 7);
        match quoted_string(s.skip(i + 7)) {
            Some(id) => seq![(id, byte_offset(s, i))] + rest,
            None => rest,
        }
    } else {
        prefab_refs_from(s, i + 1)
    }
}

/// Number of `c` in `s`.
pub open spec fn count_char(s: Seq<char>, c: char) -> nat
    decreases s.len(),
{
    if s.len() == 0 {
        0
    } else {
        count_char(s.drop_last(), c) + if s.last() == c {
            1nat
        } else {
            0nat
        }
    }
}

/// `str::lines().count()`: a line per newline, and one more for text after
/// the last newline.
pub open spec fn line_count(s: Seq<char>) -> nat {
    count_char(s, '\n') + if s.len() > 0 && s.last() != '\n' {
        1nat
    } else {
        0nat
    }
}

/// The UTF-8 length of `s` fits in `usize` (true of every `str` in memory).
pub open spec fn byte_len_fits(s: Seq<char>) -> bool {
    byte_offset(s, s.len() as int) <= usize::MAX
}

pub proof fn lemma_byte_offset_mono(s: Seq<char>, i: int, j: int)
    requires
        0 <= i <= j <= s.len(),
    ensures
        byte_offset(s, i) <= byte_offset(s, j),
    decreases j - i,
{
    if i < j {
        lemma_byte_offset_mono(s, i, j - 1);
    }
}

pub proof fn lemma_byte_offset_strict(s: Seq<char>, i: int, j: int)
    requires
        0 <= i < j <= s.len(),
    ensures
        byte_offset(s, i) < byte_offset(s, j),
{
    lemma_byte_offset_mono(s, i, j - 1);
}

/// The quoted string at the start of `s[from..]` (see `quoted_string`).
fn quoted_at(s: &Vec<char>, from: usize) -> (r: Option<String>)
    requires
        from <= s.len(),
    ensures
        match r {
            Some(t) => quoted_string(s@.skip(from as int)) == Some(t@),
            None => quoted_string(s@.skip(from as int)) is None,
        },
{
    let k = trim_start_index(s, from);
    if k >= s.len() || s[k] != '"' {
        return None;
    }
    let mut out = String::new();
    let mut escaped = false;
    let mut i = k + 1;
    assert(s@.skip(k as int).drop_first() =~= s@.skip(i as int));
    while i < s.len()
        invariant
            k < i <= s.len(),
            quoted_string(s@.skip(from as int)) == quoted_body(s@.skip(i as int), escaped, out@),
        decreases s.len() - i,
    {
        let ch = s[i];
        assert(s@.skip(i as int).drop_first() =~= s@.skip(i + 1));
        if escaped {
            out.push(ch);
            escaped = false;
        } else if ch == '\\' {
            escaped = true;
        } else if ch == '"' {
            return Some(out);
        } else {
            out.push(ch);
        }
        i = i + 1;
    }
    None
}

/// Parses a quoted string (after leading whitespace) with backslash escapes.
pub fn parse_quoted_string(s: &str) -> (r: Option<String>)
    ensures
        match r {
            Some(t) => quoted_string(s@) == Some(t@),
            None => quoted_string(s@) is None,
        },
{
    let cs = chars_of(s);
    assert(cs@.skip(0) =~= cs@);
    quoted_at(&cs, 0)
}

/// A prefab reference as the prefab id it names (see `normalized_prefab_ref`).
pub fn normalize_prefab_ref(prefab_id: &str) -> (r: String)
    ensures
        r@ == normalized_prefab_ref(prefab_id@),
{
    let s = chars_of(prefab_id);
    let a = trim_start_index(&s, 0);
    assert(s@.skip(0) =~= s@);
    let mut b = s.len();
    assert(s@.subrange(a as int, b as int) =~= s@.skip(a as int));
    while b > a && whitespace(s[b - 1])
        invariant
            a <= b <= s.len(),
            trim_end_ws(trim_start_ws(s@)) == trim_end_ws(s@.subrange(a as int, b as int)),
        decreases b,
    {
        assert(s@.subrange(a as int, b as int).drop_last() =~= s@.subrange(a as int, b - 1));
        b = b - 1;
    }
    let ghost t = s@.subrange(a as int, b as int);
    assert(trim_end_ws(t) == t);
    let prefix = chars_of("assets/");
    let suffix = chars_of(".ron");
    let mut start = a;
    if matches_at(&s, &prefix, a) && a + prefix.len() <= b {
        start = a + prefix.len();
        assert(t.subrange(0, prefix@.len() as int) =~= s@.subrange(a as int, a + prefix.len()));
        assert(t.skip(prefix@.len() as int) =~= s@.subrange(start as int, b as int));
    } else {
        assert(!starts_with(t, prefix@)) by {
            if starts_with(t, prefix@) {
                assert(s@.subrange(a as int, a + prefix.len()) =~= t.subrange(0, prefix@.len() as int));
            }
        }
    }
    let ghost u = s@.subrange(start as int, b as int);
    assert(u == without_prefix(t, "assets/"@));
    let mut end = b;
    if b - start >= suffix.len() && matches_at(&s, &suffix, b - suffix.len()) {
        end = b - suffix.len();
        assert(u.skip(u.len() - suffix@.len()) =~= s@.subrange(end as int, b as int));
        assert(u.take(u.len() - suffix@.len()) =~= s@.subrange(start as int, end as int));
    } else {
        assert(!(u.len() >= suffix@.len() && u.skip(u.len() - suffix@.len()) == suffix@)) by {
            if u.len() >= suffix@.len() && u.skip(u.len() - suffix@.len()) == suffix@ {
                assert(s@.subrange(b - suffix.len(), b as int) =~= u.skip(u.len() - suffix@.len()));
            }
        }
    }
    string_of(&slice_chars(&s, start, end))
}

proof fn lemma_refs_skip_none(s: Seq<char>, from: int)
    requires
        0 <= from,
        forall|q: int| from <= q ==> !occurs_at(s, prefab_marker(), q),
    ensures
        prefab_refs_from(s, from).len() == 0,
    decreases s.len() - from,
{
    if from < s.len() {
        lemma_refs_skip_none(s, from + 1);
    }
}

proof fn lemma_refs_skip_to(s: Seq<char>, from: int, p: int)
    requires
        0 <= from <= p,
        forall|q: int| from <= q < p ==> !occurs_at(s, prefab_marker(), q),
        occurs_at(s, prefab_marker(), p),
    ensures
        prefab_refs_from(s, from) == prefab_refs_from(s, p),
    decreases p - from,
{
    if from < p {
        lemma_refs_skip_to(s, from + 1, p);
    }
}

/// The `prefab: "id"` soft references of a RON text, each with the byte
/// offset at which `prefab:` stands.
pub fn extract_prefab_refs(text: &str) -> (r: Vec<(String, usize)>)
    requires
        byte_len_fits(text@),
    ensures
        r@.len() == prefab_refs_from(text@, 0).len(),
        forall|k: int|
            0 <= k < r@.len() ==> (#[trigger] r@[k]).0@ == prefab_refs_from(text@, 0)[k].0 && r@[k].1
                == prefab_refs_from(text@, 0)[k].1,
{
    let s = chars_of(text);
    let needle = chars_of("prefab:");
    proof {
        reveal_strlit("prefab:");
        assert(needle@ =~= prefab_marker());
    }
    let mut refs: Vec<(String, usize)> = Vec::new();
    let mut from: usize = 0;
    let mut offset: u128 = 0;
    let mut at: usize = 0;
    let ghost total = prefab_refs_from(s@, 0);
    while from < s.len()
        invariant
            from <= s.len() + 7,
            s@ == text@,
            needle@ == prefab_marker(),
            byte_len_fits(s@),
            total == prefab_refs_from(s@, 0),
            at <= s.len(),
            at <= from || from > s.len(),
            offset == byte_offset(s@, at as int),
            refs@.len() + prefab_refs_from(s@, from as int).len() == total.len(),
            forall|k: int|
                0 <= k < refs@.len() ==> (#[trigger] refs@[k]).0@ == total[k].0 && refs@[k].1 == total[k].1,
            forall|k: int|
                0 <= k < prefab_refs_from(s@, from as int).len() ==> #[trigger] prefab_refs_from(s@, from as int)[k]
                    == total[refs@.len() + k],
        decreases s.len() + 8 - from,
    {
        let ghost rest_before = prefab_refs_from(s@, from as int);
        match find_from(&s, &needle, from) {
            None => {
                proof {
                    lemma_refs_skip_none(s@, from as int);
                }
                from = s.len();
            },
            Some(p) => {
                proof {
                    lemma_refs_skip_to(s@, from as int, p as int);
                }
                while at < p
                    invariant
                        at <= p <= s.len(),
                        offset == byte_offset(s@, at as int),
                        byte_len_fits(s@),
                    decreases p - at,
                {
                    proof {
                        lemma_byte_offset_mono(s@, at + 1, s.len() as int);
                    }
                    offset = offset + char_utf8_width(s[at]) as u128;
                    at = at + 1;
                }
                proof {
                    lemma_byte_offset_mono(s@, p as int, s.len() as int);
                }
                let ghost rest = prefab_refs_from(s@, p + 7);
                let ghost before = refs@;
                match quoted_at(&s, p + 7) {
                    Some(id) => {
                        let ghost idv = id@;
                        refs.push((id, offset as usize));
                        assert(prefab_refs_from(s@, p as int) == seq![(idv, byte_offset(s@, p as int))] + rest);
                        assert(rest_before[0] == (idv, byte_offset(s@, p as int)));
                        assert(total[before.len() as int] == rest_before[0]);
                        assert forall|k: int| 0 <= k < refs@.len() implies (#[trigger] refs@[k]).0@ == total[k].0
                            && refs@[k].1 == total[k].1 by {
                            if k < before.len() {
                                assert(refs@[k] == before[k]);
                            }
                        }
                        assert forall|k: int| 0 <= k < rest.len() implies #[trigger] rest[k] == total[refs@.len() + k] by {
                            assert(rest[k] == prefab_refs_from(s@, p as int)[k + 1]);
                        }
                    },
                    None => {
                        assert(prefab_refs_from(s@, p as int) == rest);
                    },
                }
                from = p + 7;
            },
        }
    }
    refs
}

} // verus!

verus! {

/// The character index whose byte offset in `s` is `off`, if there is one.
pub open spec fn char_index_at_byte(s: Seq<char>, off: int) -> Option<int> {
    if exists|i: int| 0 <= i <= s.len() && byte_offset(s, i) == off {
        Some(choose|i: int| 0 <= i <= s.len() && byte_offset(s, i) == off)
    } else {
        None
    }
}

/// When byte offset `off` is that of character `i`, `i` is the character index at `off`.
pub proof fn lemma_char_index_unique(s: Seq<char>, off: int, i: int)
    requires
        0 <= i <= s.len(),
        byte_offset(s, i) == off,
    ensures
        char_index_at_byte(s, off) == Some(i),
{
    assert forall|j: int| 0 <= j <= s.len() && byte_offset(s, j) == off implies j == i by {
        if j < i {
            lemma_byte_offset_strict(s, j, i);
        } else if j > i {
            lemma_byte_offset_strict(s, i, j);
        }
    }
}

/// The line number reported for byte offset `off` of `text`: the number of
/// lines (as `str::lines` counts them) in the text before it. That is the
/// 1-based line of `off` when `off` is past the first character of its line;
/// at the first character of a line it is one less (0 at offset 0). Nothing
/// when `off` is not on a character boundary within the text.
pub open spec fn line_at_byte(text: Seq<char>, off: int) -> Option<u32> {
    match char_index_at_byte(text, off) {
        Some(i) => Some(line_count(text.take(i)) as u32),
        None => None,
    }
}

/// The line number for a match at a byte offset (see `line_at_byte`).
pub fn line_number_for_match(text: &str, byte_offset: usize) -> (r: Option<u32>)
    ensures
        r == line_at_byte(text@, byte_offset as int),
{
    let s = chars_of(text);
    let mut i: usize = 0;
    let mut acc: u128 = 0;
    let mut newlines: u128 = 0;
    assert(s@.take(0) =~= Seq::<char>::empty());
    while i < s.len() && acc < byte_offset as u128
        invariant
            i <= s.len(),
            s@ == text@,
            acc == crate::text::byte_offset(s@, i as int),
            acc <= 4 * i,
            newlines == count_char(s@.take(i as int), '\n'),
            newlines <= i,
            forall|j: int| 0 <= j < i ==> crate::text::byte_offset(s@, j) < byte_offset,
        decreases s.len() - i,
    {
        proof {
            lemma_byte_offset_strict(s@, i as int, i + 1);
            assert(s@.take(i + 1).drop_last() =~= s@.take(i as int));
        }
        if s[i] == '\n' {
            newlines = newlines + 1;
        }
        acc = acc + char_utf8_width(s[i]) as u128;
        i = i + 1;
    }
    let ghost off = byte_offset as int;
    if acc != byte_offset as u128 {
        proof {
            assert forall|j: int| 0 <= j <= s@.len() implies crate::text::byte_offset(s@, j) != off by {
                if j > i {
                    lemma_byte_offset_mono(s@, i as int, j);
                }
            }
        }
        return None;
    }
    proof {
        assert forall|j: int| 0 <= j <= s@.len() && crate::text::byte_offset(s@, j) == off implies j == i by {
            if j < i {
            } else if j > i {
                lemma_byte_offset_strict(s@, i as int, j);
            }
        }
    }
    let last_open = i > 0 && s[i - 1] != '\n';
    let lines: u128 = newlines + if last_open {
        1
    } else {
        0
    };
    Some(lines as u32)
}

/// A finding of `aa validate`.
#[derive(Debug, Clone, PartialEq, Eq)]
pub struct ValidationError {
    pub code: String,
    pub message: String,
    pub path: String,
    pub line: Option<u32>,
    pub column: Option<u32>,
}

/// Where in a file a diagnostic points.
#[derive(Debug, Clone, Copy, PartialEq, Eq)]
pub struct DiagnosticSpan {
    pub line: u32,
    pub column: Option<u32>,
}

/// A diagnostic as reported.
#[derive(Debug, Clone, PartialEq, Eq)]
pub struct ValidationDiagnostic {
    pub code: String,
    pub severity: String,
    pub message: String,
    pub path: String,
    pub span: Option<DiagnosticSpan>,
}

/// The report of a validation run.
#[derive(Debug, Clone, PartialEq, Eq)]
pub struct ValidateReport {
    pub ok: bool,
    pub error_count: usize,
    pub warning_count: usize,
    pub duration_ms: u64,
    pub diagnostics: Vec<ValidationDiagnostic>,
}

/// A finding with no position in its file.
pub fn validation_error(code: &str, message: String, path: &str) -> (r: ValidationError)
    ensures
        r.code@ == code@,
        r.message == message,
        r.path@ == path@,
        r.line is None,
        r.column is None,
{
    ValidationError { code: code.to_string(), message, path: path.to_string(), line: None, column: None }
}

/// The diagnostic an error is reported as.
pub open spec fn diagnostic_of(d: ValidationDiagnostic, e: ValidationError) -> bool {
    &&& d.code@ == e.code@
    &&& d.severity@ == "error"@
    &&& d.message@ == e.message@
    &&& d.path@ == e.path@
    &&& d.span == match e.line {
        Some(line) => Some(DiagnosticSpan { line, column: e.column }),
        None => None,
    }
}

/// The report of a run with the given findings, and the exit code it ends with.
pub fn finish(errors: Vec<ValidationError>, warning_count: usize, duration_ms: u64) -> (r: (ValidateReport, ExitCode))
    ensures
        r.0.ok == (errors@.len() == 0),
        r.0.error_count == errors@.len(),
        r.0.warning_count == warning_count,
        r.0.duration_ms == duration_ms,
        r.0.diagnostics@.len() == errors@.len(),
        forall|i: int| 0 <= i < errors@.len() ==> diagnostic_of(#[trigger] r.0.diagnostics@[i], errors@[i]),
        r.1 == if errors@.len() == 0 {
            ExitCode::Success
        } else {
            ExitCode::ValidationFailed
        },
{
    let ok = errors.len() == 0;
    let mut diagnostics: Vec<ValidationDiagnostic> = Vec::new();
    let mut i: usize = 0;
    while i < errors.len()
        invariant
            i <= errors.len(),
            diagnostics@.len() == i,
            forall|j: int| 0 <= j < i ==> diagnostic_of(#[trigger] diagnostics@[j], errors@[j]),
        decreases errors.len() - i,
    {
        let e = &errors[i];
        let span = match e.line {
            Some(line) => Some(DiagnosticSpan { line, column: e.column }),
            None => None,
        };
        proof {
            reveal_strlit("error");
        }
        diagnostics.push(
            ValidationDiagnostic {
                code: e.code.clone(),
                severity: "error".to_string(),
                message: e.message.clone(),
                path: e.path.clone(),
                span,
            },
        );
        i = i + 1;
    }
    let report = ValidateReport { ok, error_count: errors.len(), warning_count, duration_ms, diagnostics };
    let code = if ok {
        ExitCode::Success
    } else {
        ExitCode::ValidationFailed
    };
    (report, code)
}

} // verus!

verus! {

pub open spec fn json_text(s: Seq<char>) -> JsonModel {
    JsonModel::String(s)
}

pub open spec fn json_single(k: Seq<char>, v: JsonModel) -> JsonModel {
    JsonModel::Object(seq![(k, v)])
}

/// The SARIF region of a span: its start line, or null.
pub open spec fn sarif_region(span: Option<DiagnosticSpan>) -> JsonModel {
    match span {
        Some(sp) => json_single("startLine"@, JsonModel::Number(NumberModel::PosInt(sp.line as u64))),
        None => JsonModel::Null,
    }
}

/// The SARIF location of a diagnostic.
pub open spec fn sarif_location(d: ValidationDiagnostic) -> JsonModel {
    json_single(
        "physicalLocation"@,
        JsonModel::Object(
            seq![("artifactLocation"@, json_single("uri"@, json_text(d.path@))), ("region"@, sarif_region(d.span))],
        ),
    )
}

/// One SARIF result for a diagnostic.
pub open spec fn sarif_result(d: ValidationDiagnostic) -> JsonModel {
    JsonModel::Object(
        seq![
            ("level"@, json_text(d.severity@)),
            ("locations"@, JsonModel::Array(seq![sarif_location(d)])),
            ("message"@, json_single("text"@, json_text(d.message@))),
            ("ruleId"@, json_text(d.code@)),
        ],
    )
}

/// The SARIF 2.1.0 log of a report (keys in the order a JSON map keeps them).
pub open spec fn sarif_of(report: ValidateReport) -> JsonModel {
    JsonModel::Object(
        seq![
            ("$schema"@, json_text("https://json.schemastore.org/sarif-2.1.0.json"@)),
            (
                "runs"@,
                JsonModel::Array(
                    seq![
                        JsonModel::Object(
                            seq![
                                (
                                    "results"@,
                                    JsonModel::Array(
                                        report.diagnostics@.map_values(|d: ValidationDiagnostic| sarif_result(d)),
                                    ),
                                ),
                                (
                                    "tool"@,
                                    json_single(
                                        "driver"@,
                                        JsonModel::Object(
                                            seq![("name"@, json_text("aa_cli"@)), ("version"@, json_text("0.1.0"@))],
                                        ),
                                    ),
                                ),
                            ],
                        ),
                    ],
                ),
            ),
            ("version"@, json_text("2.1.0"@)),
        ],
    )
}

fn text_value(s: &str) -> (r: JsonValue)
    ensures
        r.model() == json_text(s@),
{
    JsonValue::String(s.to_string())
}

fn single(k: &str, v: JsonValue) -> (r: JsonValue)
    ensures
        r.model() == json_single(k@, v.model()),
{
    let ghost vm = v.model();
    let mut e: Vec<(String, JsonValue)> = Vec::new();
    e.push((k.to_string(), v));
    proof {
        lemma_object_model(e);
        assert(entry_models(e@) =~= seq![(k@, vm)]);
    }
    JsonValue::Object(e)
}

fn object_of(entries: Vec<(String, JsonValue)>) -> (r: JsonValue)
    ensures
        r.model() == JsonModel::Object(entry_models(entries@)),
{
    proof {
        lemma_object_model(entries);
    }
    JsonValue::Object(entries)
}

fn array_of(items: Vec<JsonValue>) -> (r: JsonValue)
    ensures
        r.model() == JsonModel::Array(models(items@)),
{
    proof {
        lemma_array_model(items);
    }
    JsonValue::Array(items)
}

fn sarif_region_value(span: Option<DiagnosticSpan>) -> (r: JsonValue)
    ensures
        r.model() == sarif_region(span),
{
    match span {
        Some(sp) => single("startLine", JsonValue::Number(JsonNumber::PosInt(sp.line as u64))),
        None => JsonValue::Null,
    }
}

fn sarif_location_value(d: &ValidationDiagnostic) -> (r: JsonValue)
    ensures
        r.model() == sarif_location(*d),
{
    let artifact = single("uri", text_value(d.path.as_str()));
    let region = sarif_region_value(d.span);
    let ghost am = artifact.model();
    let ghost rm = region.model();
    let mut phys: Vec<(String, JsonValue)> = Vec::new();
    phys.push(("artifactLocation".to_string(), artifact));
    phys.push(("region".to_string(), region));
    assert(entry_models(phys@) =~= seq![("artifactLocation"@, am), ("region"@, rm)]);
    single("physicalLocation", object_of(phys))
}

fn sarif_result_value(d: &ValidationDiagnostic) -> (r: JsonValue)
    ensures
        r.model() == sarif_result(*d),
{
    let loc = sarif_location_value(d);
    let ghost lm = loc.model();
    let mut locs: Vec<JsonValue> = Vec::new();
    locs.push(loc);
    assert(models(locs@) =~= seq![lm]);
    let locations = array_of(locs);
    let level = text_value(d.severity.as_str());
    let message = single("text", text_value(d.message.as_str()));
    let rule = text_value(d.code.as_str());
    let ghost m0 = level.model();
    let ghost m1 = locations.model();
    let ghost m2 = message.model();
    let ghost m3 = rule.model();
    let mut e: Vec<(String, JsonValue)> = Vec::new();
    e.push(("level".to_string(), level));
    e.push(("locations".to_string(), locations));
    e.push(("message".to_string(), message));
    e.push(("ruleId".to_string(), rule));
    assert(entry_models(e@) =~= seq![("level"@, m0), ("locations"@, m1), ("message"@, m2), ("ruleId"@, m3)]);
    object_of(e)
}

/// The SARIF 2.1.0 log of a report (see `sarif_of`).
pub fn validation_to_sarif(report: &ValidateReport) -> (r: JsonValue)
    ensures
        r.model() == sarif_of(*report),
{
    let mut results: Vec<JsonValue> = Vec::new();
    let mut i: usize = 0;
    while i < report.diagnostics.len()
        invariant
            i <= report.diagnostics.len(),
            models(results@) == report.diagnostics@.take(i as int).map_values(
                |d: ValidationDiagnostic| sarif_result(d),
            ),
        decreases report.diagnostics.len() - i,
    {
        let v = sarif_result_value(&report.diagnostics[i]);
        let ghost before = models(results@);
        let ghost vm = v.model();
        results.push(v);
        assert(models(results@) =~= before.push(vm));
        assert(report.diagnostics@.take(i + 1) =~= report.diagnostics@.take(i as int).push(report.diagnostics@[i as int]));
        assert(models(results@) =~= report.diagnostics@.take(i + 1).map_values(
            |d: ValidationDiagnostic| sarif_result(d),
        ));
        i = i + 1;
    }
    assert(report.diagnostics@.take(i as int) =~= report.diagnostics@);
    let results_v = array_of(results);
    let mut driver: Vec<(String, JsonValue)> = Vec::new();
    driver.push(("name".to_string(), text_value("aa_cli")));
    driver.push(("version".to_string(), text_value("0.1.0")));
    assert(entry_models(driver@) =~= seq![("name"@, json_text("aa_cli"@)), ("version"@, json_text("0.1.0"@))]);
    let tool = single("driver", object_of(driver));
    let ghost rm = results_v.model();
    let ghost tm = tool.model();
    let mut run: Vec<(String, JsonValue)> = Vec::new();
    run.push(("results".to_string(), results_v));
    run.push(("tool".to_string(), tool));
    assert(entry_models(run@) =~= seq![("results"@, rm), ("tool"@, tm)]);
    let run_v = object_of(run);
    let ghost runm = run_v.model();
    let mut runs: Vec<JsonValue> = Vec::new();
    runs.push(run_v);
    assert(models(runs@) =~= seq![runm]);
    let runs_v = array_of(runs);
    let ghost runsm = runs_v.model();
    let mut top: Vec<(String, JsonValue)> = Vec::new();
    top.push(("$schema".to_string(), text_value("https://json.schemastore.org/sarif-2.1.0.json")));
    top.push(("runs".to_string(), runs_v));
    top.push(("version".to_string(), text_value("2.1.0")));
    assert(entry_models(top@) =~= seq![
        ("$schema"@, json_text("https://json.schemastore.org/sarif-2.1.0.json"@)),
        ("runs"@, runsm),
        ("version"@, json_text("2.1.0"@)),
    ]);
    object_of(top)
}

} // verus!

verus! {

/// The neighbours listed in a graph, entry by entry.
pub open spec fn neighbor_names(g: Seq<(String, Vec<String>)>) -> Seq<Seq<char>>
    decreases g.len(),
{
    if g.len() == 0 {
        Seq::empty()
    } else {
        neighbor_names(g.drop_last()) + crate::text::strs(g.last().1@)
    }
}

/// Every name a walk from `start` can meet.
pub open spec fn graph_names(start: Seq<char>, g: Seq<(String, Vec<String>)>) -> Set<Seq<char>> {
    (seq![start] + neighbor_names(g)).to_set()
}

proof fn lemma_neighbor_listed(g: Seq<(String, Vec<String>)>, i: int, j: int)
    requires
        0 <= i < g.len(),
        0 <= j < g[i].1@.len(),
    ensures
        neighbor_names(g).contains(g[i].1@[j]@),
    decreases g.len(),
{
    if i < g.len() - 1 {
        lemma_neighbor_listed(g.drop_last(), i, j);
        let a = neighbor_names(g.drop_last());
        let k = choose|k: int| 0 <= k < a.len() && a[k] == g[i].1@[j]@;
        assert(neighbor_names(g)[k] == a[k]);
    } else {
        let a = neighbor_names(g.drop_last());
        assert(neighbor_names(g)[a.len() + j] == crate::text::strs(g.last().1@)[j]);
    }
}

fn holds(v: &Vec<String>, t: &str) -> (r: bool)
    ensures
        r == crate::text::strs(v@).contains(t@),
{
    let mut i: usize = 0;
    while i < v.len()
        invariant
            i <= v.len(),
            forall|j: int| 0 <= j < i ==> crate::text::strs(v@)[j] != t@,
        decreases v.len() - i,
    {
        if crate::text::same_text(v[i].as_str(), t) {
            assert(crate::text::strs(v@)[i as int] == t@);
            return true;
        }
        i = i + 1;
    }
    false
}

/// Whether a parent has been recorded for `t` (an entry keyed by `t`).
fn has_parent(parent: &Vec<(String, String)>, t: &str) -> (r: bool)
    ensures
        r == exists|k: int| 0 <= k < parent@.len() && (#[trigger] parent@[k]).0@ == t@,
{
    let mut i: usize = 0;
    while i < parent.len()
        invariant
            i <= parent.len(),
            forall|k: int| 0 <= k < i ==> (#[trigger] parent@[k]).0@ != t@,
        decreases parent.len() - i,
    {
        if crate::text::same_text(parent[i].0.as_str(), t) {
            assert(parent@[i as int].0@ == t@);
            return true;
        }
        i = i + 1;
    }
    false
}

/// The index of the first entry of `graph` keyed by `key`, if there is one.
fn entry_of(graph: &Vec<(String, Vec<String>)>, key: &str) -> (r: Option<usize>)
    ensures
        r matches Some(i) ==> i < graph.len() && graph@[i as int].0@ == key@
            && forall|k: int| 0 <= k < i ==> (#[trigger] graph@[k]).0@ != key@,
        r is None ==> forall|k: int| 0 <= k < graph@.len() ==> (#[trigger] graph@[k]).0@ != key@,
{
    let mut i: usize = 0;
    while i < graph.len()
        invariant
            i <= graph.len(),
            forall|k: int| 0 <= k < i ==> (#[trigger] graph@[k]).0@ != key@,
        decreases graph.len() - i,
    {
        if crate::text::same_text(graph[i].0.as_str(), key) {
            return Some(i);
        }
        i = i + 1;
    }
    None
}

/// The depth-first search for a cycle through `start` in the prefab graph
/// (each entry a prefab and the prefabs it refers to). A node is marked as
/// being visited only while it is expanded and unmarked before the next node
/// is taken, so the mark is never seen set and no cycle is ever reported: the
/// search walks the graph and ends with `None`.
pub fn find_cycle(start: &str, graph: &Vec<(String, Vec<String>)>) -> (r: Option<Vec<String>>)
    ensures
        r is None,
{
    let ghost names = graph_names(start@, graph@);
    let mut stack: Vec<String> = Vec::new();
    stack.push(start.to_string());
    let mut visiting: Vec<String> = Vec::new();
    let mut visited: Vec<String> = Vec::new();
    let mut parent: Vec<(String, String)> = Vec::new();
    proof {
        vstd::seq_lib::seq_to_set_is_finite(seq![start@] + neighbor_names(graph@));
        assert((seq![start@] + neighbor_names(graph@))[0] == start@);
    }
    assert(crate::text::strs(visited@).to_set() =~= Set::<Seq<char>>::empty());
    while stack.len() > 0
        invariant
            names == graph_names(start@, graph@),
            names.finite(),
            forall|k: int| 0 <= k < stack@.len() ==> names.contains(#[trigger] stack@[k]@),
            crate::text::strs(visited@).no_duplicates(),
            crate::text::strs(visited@).to_set().subset_of(names),
            visiting@.len() == 0,
        decreases names.len() - crate::text::strs(visited@).to_set().len(), stack@.len(),
    {
        proof {
            vstd::set_lib::lemma_len_subset(crate::text::strs(visited@).to_set(), names);
        }
        let node = stack.pop().unwrap();
        assert(names.contains(node@));
        if holds(&visited, node.as_str()) {
            continue;
        }
        if holds(&visiting, node.as_str()) {
            proof {
                assert(false);
            }
            return None;
        }
        visiting.push(node.clone());
        stack.push(node.clone());
        assert(names.contains(stack@[stack@.len() - 1]@));
        if let Some(idx) = entry_of(graph, node.as_str()) {
            let neighbors = &graph[idx].1;
            let mut j: usize = 0;
            while j < neighbors.len()
                invariant
                    idx < graph@.len(),
                    *neighbors == graph@[idx as int].1,
                    j <= neighbors.len(),
                    names == graph_names(start@, graph@),
                    forall|k: int| 0 <= k < stack@.len() ==> names.contains(#[trigger] stack@[k]@),
                decreases neighbors.len() - j,
            {
                let n = &neighbors[j];
                if !has_parent(&parent, n.as_str()) {
                    parent.push((n.clone(), node.clone()));
                }
                proof {
                    lemma_neighbor_listed(graph@, idx as int, j as int);
                    let a = seq![start@] + neighbor_names(graph@);
                    let b = neighbor_names(graph@);
                    let k = choose|k: int| 0 <= k < b.len() && b[k] == graph@[idx as int].1@[j as int]@;
                    assert(a[k + 1] == b[k]);
                    assert(a.contains(n@));
                }
                stack.push(n.clone());
                j = j + 1;
            }
        }
        visiting.pop();
        let ghost before = crate::text::strs(visited@);
        let ghost nv = node@;
        visited.push(node);
        proof {
            assert(crate::text::strs(visited@) =~= before.push(nv));
            before.lemma_push_to_set_commute(nv);
            assert(!before.to_set().contains(nv));
            assert(crate::text::strs(visited@).to_set().len() == before.to_set().len() + 1);
            assert(crate::text::strs(visited@).to_set().subset_of(names));
            vstd::set_lib::lemma_len_subset(crate::text::strs(visited@).to_set(), names);
        }
    }
    None
}

} // verus!

verus! {

/// The prefab ids that a prefab's text refers to and that are known prefabs,
/// in the order they appear.
pub open spec fn known_refs(refs: Seq<(Seq<char>, nat)>, known: Seq<Seq<char>>) -> Seq<Seq<char>>
    decreases refs.len(),
{
    if refs.len() == 0 {
        Seq::empty()
    } else {
        known_refs(refs.drop_last(), known) + if known.contains(normalized_prefab_ref(refs.last().0)) {
            seq![normalized_prefab_ref(refs.last().0)]
        } else {
            Seq::empty()
        }
    }
}

/// The edges of the prefab graph out of one prefab: the prefab references of
/// its text, as prefab ids, that name known prefabs.
pub fn prefab_graph_refs(text: &str, prefab_ids: &Vec<String>) -> (r: Vec<String>)
    requires
        byte_len_fits(text@),
    ensures
        crate::text::strs(r@) == known_refs(prefab_refs_from(text@, 0), crate::text::strs(prefab_ids@)),
{
    let refs = extract_prefab_refs(text);
    let ghost all = prefab_refs_from(text@, 0);
    let ghost known = crate::text::strs(prefab_ids@);
    let mut out: Vec<String> = Vec::new();
    let mut i: usize = 0;
    assert(all.take(0) =~= Seq::<(Seq<char>, nat)>::empty());
    while i < refs.len()
        invariant
            i <= refs.len(),
            refs@.len() == all.len(),
            forall|k: int| 0 <= k < refs@.len() ==> (#[trigger] refs@[k]).0@ == all[k].0 && refs@[k].1 == all[k].1,
            known == crate::text::strs(prefab_ids@),
            crate::text::strs(out@) == known_refs(all.take(i as int), known),
        decreases refs.len() - i,
    {
        let id = normalize_prefab_ref(refs[i].0.as_str());
        assert(all.take(i + 1).drop_last() =~= all.take(i as int));
        assert(all.take(i + 1).last() == all[i as int]);
        if holds(prefab_ids, id.as_str()) {
            let ghost before = crate::text::strs(out@);
            let ghost idv = id@;
            out.push(id);
            assert(crate::text::strs(out@) =~= before.push(idv));
        }
        i = i + 1;
    }
    assert(all.take(i as int) =~= all);
    out
}

/// The cycle finding over the prefab graph: each prefab is tried as a start
/// (see `find_cycle`, which never reports one), so no finding comes of it.
pub fn detect_prefab_cycles(graph: &Vec<(String, Vec<String>)>) -> (r: Option<ValidationError>)
    ensures
        r is None,
{
    let mut i: usize = 0;
    while i < graph.len()
        decreases graph.len() - i,
    {
        match find_cycle(graph[i].0.as_str(), graph) {
            Some(cycle) => {
                let mut message = "cyclic prefab refs: ".to_string();
                crate::text::push_text(&mut message, crate::scene::join_strings(&cycle, " -> ").as_str());
                let mut path = "assets/".to_string();
                crate::text::push_text(&mut path, graph[i].0.as_str());
                crate::text::push_text(&mut path, ".ron");
                return Some(ValidationError { code: "CYCLE_PREFAB".to_string(), message, path, line: None, column: None });
            },
            None => {},
        }
        i = i + 1;
    }
    None
}

/// The prefab references of a text that name no known prefab: each with the
/// asset path to look for on disk (without a leading `assets/`) and the byte
/// offset where it stands.
pub open spec fn unknown_refs(refs: Seq<(Seq<char>, nat)>, known: Seq<Seq<char>>) -> Seq<(Seq<char>, Seq<char>, nat)>
    decreases refs.len(),
{
    if refs.len() == 0 {
        Seq::empty()
    } else {
        unknown_refs(refs.drop_last(), known) + if known.contains(normalized_prefab_ref(refs.last().0)) {
            Seq::empty()
        } else {
            seq![(refs.last().0, without_prefix(refs.last().0, "assets/"@), refs.last().1)]
        }
    }
}

/// The prefab references of a text that name no known prefab (see `unknown_refs`).
pub fn unresolved_prefab_refs(text: &str, prefab_ids: &Vec<String>) -> (r: Vec<(String, String, usize)>)
    requires
        byte_len_fits(text@),
    ensures
        r@.len() == unknown_refs(prefab_refs_from(text@, 0), crate::text::strs(prefab_ids@)).len(),
        forall|k: int|
            0 <= k < r@.len() ==> ({
                let u = unknown_refs(prefab_refs_from(text@, 0), crate::text::strs(prefab_ids@))[k];
                &&& (#[trigger] r@[k]).0@ == u.0
                &&& r@[k].1@ == u.1
                &&& r@[k].2 == u.2
            }),
{
    let refs = extract_prefab_refs(text);
    let ghost all = prefab_refs_from(text@, 0);
    let ghost known = crate::text::strs(prefab_ids@);
    let prefix = chars_of("assets/");
    let mut out: Vec<(String, String, usize)> = Vec::new();
    let mut i: usize = 0;
    assert(all.take(0) =~= Seq::<(Seq<char>, nat)>::empty());
    while i < refs.len()
        invariant
            i <= refs.len(),
            refs@.len() == all.len(),
            forall|k: int| 0 <= k < refs@.len() ==> (#[trigger] refs@[k]).0@ == all[k].0 && refs@[k].1 == all[k].1,
            known == crate::text::strs(prefab_ids@),
            prefix@ == "assets/"@,
            out@.len() == unknown_refs(all.take(i as int), known).len(),
            forall|k: int|
                0 <= k < out@.len() ==> ({
                    let u = unknown_refs(all.take(i as int), known)[k];
                    &&& (#[trigger] out@[k]).0@ == u.0
                    &&& out@[k].1@ == u.1
                    &&& out@[k].2 == u.2
                }),
        decreases refs.len() - i,
    {
        let id = normalize_prefab_ref(refs[i].0.as_str());
        assert(all.take(i + 1).drop_last() =~= all.take(i as int));
        assert(all.take(i + 1).last() == all[i as int]);
        if !holds(prefab_ids, id.as_str()) {
            let raw = chars_of(refs[i].0.as_str());
            let asset_ref = if matches_at(&raw, &prefix, 0) {
                assert(raw@.skip(7) =~= raw@.subrange(7, raw@.len() as int));
                string_of(&slice_chars(&raw, prefix.len(), raw.len()))
            } else {
                refs[i].0.clone()
            };
            let ghost before = out@;
            out.push((refs[i].0.clone(), asset_ref, refs[i].1));
            assert forall|k: int| 0 <= k < out@.len() implies ({
                let u = unknown_refs(all.take(i + 1), known)[k];
                &&& (#[trigger] out@[k]).0@ == u.0
                &&& out@[k].1@ == u.1
                &&& out@[k].2 == u.2
            }) by {
                if k < before.len() {
                    assert(out@[k] == before[k]);
                }
            }
        } else {
            assert(unknown_refs(all.take(i + 1), known) =~= unknown_refs(all.take(i as int), known));
        }
        i = i + 1;
    }
    assert(all.take(i as int) =~= all);
    out
}

/// The finding for a prefab reference that resolves to nothing, placed on
/// the line where it stands.
pub fn missing_prefab_ref(rel: &str, prefab_id: &str, text: &str, byte_offset: usize) -> (r: ValidationError)
    ensures
        r.code@ == "REF_MISSING"@,
        r.message@ == "prefab ref '"@ + prefab_id@ + "' does not resolve"@,
        r.path@ == rel@,
        r.line == line_at_byte(text@, byte_offset as int),
        r.column is None,
{
    let mut message = "prefab ref '".to_string();
    crate::text::push_text(&mut message, prefab_id);
    crate::text::push_text(&mut message, "' does not resolve");
    ValidationError {
        code: "REF_MISSING".to_string(),
        message,
        path: rel.to_string(),
        line: line_number_for_match(text, byte_offset),
        column: None,
    }
}

} // verus!

verus! {

/// An error with no position: its code, message and path are the given texts.
pub open spec fn plain_error(e: ValidationError, code: Seq<char>, message: Seq<char>, path: Seq<char>) -> bool {
    &&& e.code@ == code
    &&& e.message@ == message
    &&& e.path@ == path
    &&& e.line is None
    &&& e.column is None
}

/// What looking for and reading one required configuration file gave.
#[derive(Debug, Clone, PartialEq, Eq)]
pub enum ConfigFileCheck {
    /// The file does not exist.
    Missing,
    /// Reading it failed, with the error's text.
    ReadFailed(String),
    /// Its text.
    Read(String),
}

/// What reading one RON asset gave.
#[derive(Debug, Clone, PartialEq, Eq)]
pub enum RonFileCheck {
    /// Reading it failed, with the error's text.
    ReadFailed(String),
    /// Its text.
    Read(String),
}

/// `toml::from_str::<toml::Table>(text)` of the `toml` crate: `None` when the
/// text parses as a TOML table, else the text of the error it returns.
pub uninterp spec fn toml_table_error(text: Seq<char>) -> Option<Seq<char>>;

/// Parses `text` as a TOML table with the `toml` crate and hands back the
/// error's text when it does not parse.
#[verifier::external_body]
fn toml_table_check(text: &str) -> (r: Option<String>)
    ensures
        match toml_table_error(text@) {
            None => r is None,
            Some(e) => r matches Some(m) && m@ == e,
        },
{
    toml::from_str::<toml::Table>(text).err().map(|e| e.to_string())
}

/// `ron::from_str::<ron::Value>(text)` of the `ron` crate: `None` when the text
/// parses as a RON value, else the text of the error it returns.
pub uninterp spec fn ron_value_error(text: Seq<char>) -> Option<Seq<char>>;

/// Parses `text` as a RON value with the `ron` crate and hands back the
/// error's text when it does not parse.
#[verifier::external_body]
fn ron_value_check(text: &str) -> (r: Option<String>)
    ensures
        match ron_value_error(text@) {
            None => r is None,
            Some(e) => r matches Some(m) && m@ == e,
        },
{
    ron::from_str::<ron::Value>(text).err().map(|e| e.to_string())
}

fn error_with(code: &str, head: &str, tail: &str, path: &str) -> (r: ValidationError)
    ensures
        plain_error(r, code@, head@ + tail@, path@),
{
    let mut message = head.to_string();
    crate::text::push_text(&mut message, tail);
    validation_error(code, message, path)
}

/// The finding for a manifest whose `schema_version` is 0.
pub fn schema_version_error(schema_version: u32, manifest_file: &str) -> (r: Option<ValidationError>)
    ensures
        r is Some <==> schema_version == 0,
        r matches Some(e) ==> plain_error(e, "SCHEMA_VERSION"@, "schema_version must be >= 1"@, manifest_file@),
{
    if schema_version == 0 {
        Some(validation_error("SCHEMA_VERSION", "schema_version must be >= 1".to_string(), manifest_file))
    } else {
        None
    }
}

/// The finding for one required configuration file: it is missing, it cannot
/// be read, or its text does not parse as a TOML table.
pub fn config_file_error(file: &str, config_path: &str, check: &ConfigFileCheck) -> (r: Option<ValidationError>)
    ensures
        match check {
            ConfigFileCheck::Missing => r matches Some(e) && plain_error(e, "CONFIG_MISSING"@,
                "required config file missing: "@ + file@, config_path@),
            ConfigFileCheck::ReadFailed(why) => r matches Some(e) && plain_error(e, "CONFIG_PARSE"@,
                "failed to parse TOML: "@ + why@, config_path@),
            ConfigFileCheck::Read(text) => match toml_table_error(text@) {
                None => r is None,
                Some(why) => r matches Some(e) && plain_error(e, "CONFIG_PARSE"@,
                    "failed to parse TOML: "@ + why, config_path@),
            },
        },
{
    match check {
        ConfigFileCheck::Missing => Some(error_with("CONFIG_MISSING", "required config file missing: ", file, config_path)),
        ConfigFileCheck::ReadFailed(why) => Some(error_with("CONFIG_PARSE", "failed to parse TOML: ", why.as_str(), config_path)),
        ConfigFileCheck::Read(text) => match toml_table_check(text.as_str()) {
            None => None,
            Some(why) => Some(error_with("CONFIG_PARSE", "failed to parse TOML: ", why.as_str(), config_path)),
        },
    }
}

/// The finding for an assets root that is not a directory; validation stops there.
pub fn assets_root_error(assets_root: &str, assets_root_path: &str, exists: bool) -> (r: Option<ValidationError>)
    ensures
        r is Some <==> !exists,
        r matches Some(e) ==> plain_error(e, "ASSETS_ROOT_MISSING"@, "assets root not found: "@ + assets_root@,
            assets_root_path@),
{
    if exists {
        None
    } else {
        Some(error_with("ASSETS_ROOT_MISSING", "assets root not found: ", assets_root, assets_root_path))
    }
}

/// The finding for one RON asset that could not be read (reported at its full
/// path) or whose text does not parse as RON (reported relative to the project root).
pub fn ron_file_error(file_path: &str, project_rel: &str, check: &RonFileCheck) -> (r: Option<ValidationError>)
    ensures
        match check {
            RonFileCheck::ReadFailed(why) => r matches Some(e) && plain_error(e, "RON_READ"@,
                "failed to read RON file: "@ + why@, file_path@),
            RonFileCheck::Read(text) => match ron_value_error(text@) {
                None => r is None,
                Some(why) => r matches Some(e) && plain_error(e, "RON_PARSE"@,
                    "RON parse error: "@ + why, project_rel@),
            },
        },
{
    match check {
        RonFileCheck::ReadFailed(why) => Some(error_with("RON_READ", "failed to read RON file: ", why.as_str(), file_path)),
        RonFileCheck::Read(text) => match ron_value_check(text.as_str()) {
            None => None,
            Some(why) => Some(error_with("RON_PARSE", "RON parse error: ", why.as_str(), project_rel)),
        },
    }
}

/// The finding for a manifest reference (`startup_scene`, `default_experience`)
/// whose asset file does not exist.
pub fn reference_error(field: &str, name: &str, path: &str, exists: bool) -> (r: Option<ValidationError>)
    ensures
        r is Some <==> !exists,
        r matches Some(e) ==> plain_error(e, "REF_MISSING"@, field@ + " '"@ + name@ + "' not found"@, path@),
{
    if exists {
        None
    } else {
        let mut message = field.to_string();
        crate::text::push_text(&mut message, " '");
        crate::text::push_text(&mut message, name);
        crate::text::push_text(&mut message, "' not found");
        Some(validation_error("REF_MISSING", message, path))
    }
}

/// The asset id of a `.ron` file, given its path below the assets root, and
/// whether it names a prefab.
pub fn asset_id(rel: &str) -> (r: (String, bool))
    ensures
        r.0@ == crate::scene::forward_slashes(without_suffix(rel@, ".ron"@)),
        r.1 == starts_with(r.0@, "prefabs/"@),
{
    let s = chars_of(rel);
    let suffix = chars_of(".ron");
    let mut end = s.len();
    if s.len() >= suffix.len() && matches_at(&s, &suffix, s.len() - suffix.len()) {
        end = s.len() - suffix.len();
        assert(s@.skip(s@.len() - suffix@.len()) =~= s@.subrange(end as int, s@.len() as int));
        assert(s@.take(s@.len() - suffix@.len()) =~= s@.subrange(0, end as int));
    } else {
        assert(!(s@.len() >= suffix@.len() && s@.skip(s@.len() - suffix@.len()) == suffix@)) by {
            if s@.len() >= suffix@.len() && s@.skip(s@.len() - suffix@.len()) == suffix@ {
                assert(s@.subrange(s.len() - suffix.len(), s.len() as int) =~= s@.skip(s@.len() - suffix@.len()));
            }
        }
        assert(s@.subrange(0, end as int) =~= s@);
    }
    let stem = slice_chars(&s, 0, end);
    let id = crate::scene::to_forward_slashes(&stem);
    let prefix = chars_of("prefabs/");
    let is_prefab = matches_at(&id, &prefix, 0);
    (string_of(&id), is_prefab)
}

/// One outcome of the I/O that an `aa validate` run performs, in the order
/// the run meets them.
pub enum ValidateEvent {
    /// The project manifest could not be read or parsed.
    ManifestUnreadable { manifest_file: String, message: String },
    /// The project manifest was read.
    ManifestRead { manifest_file: String, schema_version: u32 },
    /// One required configuration file was looked for.
    ConfigFile { file: String, config_path: String, check: ConfigFileCheck },
    /// The assets root was looked for.
    AssetsRoot { assets_root: String, assets_root_path: String, exists: bool },
    /// One RON asset was read.
    RonFile { file_path: String, project_rel: String, check: RonFileCheck },
    /// A manifest reference (`startup_scene`, `default_experience`) was looked for.
    Reference { field: String, name: String, path: String, exists: bool },
}

/// The finding an event gives, as (code, message, path), if any.
pub open spec fn event_finding(ev: ValidateEvent) -> Option<(Seq<char>, Seq<char>, Seq<char>)> {
    match ev {
        ValidateEvent::ManifestUnreadable { manifest_file, message } => Some(("MANIFEST_PARSE"@, message@, manifest_file@)),
        ValidateEvent::ManifestRead { manifest_file, schema_version } => if schema_version == 0 {
            Some(("SCHEMA_VERSION"@, "schema_version must be >= 1"@, manifest_file@))
        } else {
            None
        },
        ValidateEvent::ConfigFile { file, config_path, check } => match check {
            ConfigFileCheck::Missing => Some(("CONFIG_MISSING"@, "required config file missing: "@ + file@, config_path@)),
            ConfigFileCheck::ReadFailed(why) => Some(("CONFIG_PARSE"@, "failed to parse TOML: "@ + why@, config_path@)),
            ConfigFileCheck::Read(text) => match toml_table_error(text@) {
                None => None,
                Some(why) => Some(("CONFIG_PARSE"@, "failed to parse TOML: "@ + why, config_path@)),
            },
        },
        ValidateEvent::AssetsRoot { assets_root, assets_root_path, exists } => if exists {
            None
        } else {
            Some(("ASSETS_ROOT_MISSING"@, "assets root not found: "@ + assets_root@, assets_root_path@))
        },
        ValidateEvent::RonFile { file_path, project_rel, check } => match check {
            RonFileCheck::ReadFailed(why) => Some(("RON_READ"@, "failed to read RON file: "@ + why@, file_path@)),
            RonFileCheck::Read(text) => match ron_value_error(text@) {
                None => None,
                Some(why) => Some(("RON_PARSE"@, "RON parse error: "@ + why, project_rel@)),
            },
        },
        ValidateEvent::Reference { field, name, path, exists } => if exists {
            None
        } else {
            Some(("REF_MISSING"@, field@ + " '"@ + name@ + "' not found"@, path@))
        },
    }
}

/// The run reports at once, with the findings so far: the manifest is
/// unreadable, or the assets root is missing.
pub open spec fn event_ends_run(ev: ValidateEvent) -> bool {
    match ev {
        ValidateEvent::ManifestUnreadable { .. } => true,
        ValidateEvent::AssetsRoot { exists, .. } => !exists,
        _ => false,
    }
}

/// One step of an `aa validate` run: records the finding the event gives, and
/// tells whether the run ends here (then it reports what it found).
pub fn validate_step(errors: &mut Vec<ValidationError>, event: ValidateEvent) -> (finish: bool)
    ensures
        finish == event_ends_run(event),
        match event_finding(event) {
            None => final(errors)@ == old(errors)@,
            Some((code, message, path)) => final(errors)@.len() == old(errors)@.len() + 1
                && final(errors)@.drop_last() == old(errors)@ && plain_error(final(errors)@.last(), code, message, path),
        },
{
    let ghost ev = event;
    let (finding, finish) = match event {
        ValidateEvent::ManifestUnreadable { manifest_file, message } => {
            (Some(validation_error("MANIFEST_PARSE", message, manifest_file.as_str())), true)
        },
        ValidateEvent::ManifestRead { manifest_file, schema_version } => {
            (schema_version_error(schema_version, manifest_file.as_str()), false)
        },
        ValidateEvent::ConfigFile { file, config_path, check } => {
            (config_file_error(file.as_str(), config_path.as_str(), &check), false)
        },
        ValidateEvent::AssetsRoot { assets_root, assets_root_path, exists } => {
            (assets_root_error(assets_root.as_str(), assets_root_path.as_str(), exists), !exists)
        },
        ValidateEvent::RonFile { file_path, project_rel, check } => {
            (ron_file_error(file_path.as_str(), project_rel.as_str(), &check), false)
        },
        ValidateEvent::Reference { field, name, path, exists } => {
            (reference_error(field.as_str(), name.as_str(), path.as_str(), exists), false)
        },
    };
    match finding {
        Some(e) => {
            errors.push(e);
            assert(errors@.drop_last() =~= old(errors)@);
        },
        None => {},
    }
    finish
}

/// Each SARIF result reports its diagnostic's severity as its level: the log
/// has one run, whose results stand for the report's diagnostics in order, and
/// result `i` has level `diagnostics[i].severity`.
pub proof fn law_sarif_level_is_severity(report: ValidateReport)
    ensures
        ({
            let log = sarif_of(report);
            &&& crate::json::get_key(log, "runs"@) matches Some(JsonModel::Array(runs))
            &&& runs.len() == 1
            &&& crate::json::get_key(runs[0], "results"@) matches Some(JsonModel::Array(results))
            &&& results.len() == report.diagnostics@.len()
            &&& forall|i: int| 0 <= i < results.len() ==> crate::json::get_key(#[trigger] results[i], "level"@)
                == Some(JsonModel::String(report.diagnostics@[i].severity@))
        }),
{
    reveal_strlit("$schema");
    reveal_strlit("runs");
    assert("$schema"@.len() == 7 && "runs"@.len() == 4);
    assert("$schema"@ != "runs"@);
    let log = sarif_of(report);
    let entries = match log {
        JsonModel::Object(e) => e,
        _ => Seq::empty(),
    };
    assert(entries[0].0 != "runs"@);
    assert(entries[1].0 == "runs"@);
    assert(crate::json::object_get(entries.drop_first(), "runs"@) == Some(entries[1].1));
    assert(crate::json::get_key(log, "runs"@) == Some(entries[1].1));
    let results = report.diagnostics@.map_values(|d: ValidationDiagnostic| sarif_result(d));
    assert forall|i: int| 0 <= i < results.len() implies crate::json::get_key(#[trigger] results[i], "level"@)
        == Some(JsonModel::String(report.diagnostics@[i].severity@)) by {
        assert(results[i] == sarif_result(report.diagnostics@[i]));
    }
}

/// Every finding of a validation run is reported in SARIF at level `error`.
pub proof fn law_findings_are_sarif_errors(errors: Seq<ValidationError>, report: ValidateReport)
    requires
        report.diagnostics@.len() == errors.len(),
        forall|i: int| 0 <= i < errors.len() ==> diagnostic_of(#[trigger] report.diagnostics@[i], errors[i]),
    ensures
        crate::json::get_key(sarif_of(report), "runs"@) matches Some(JsonModel::Array(runs)) && (crate::json::get_key(
            runs[0],
            "results"@,
        ) matches Some(JsonModel::Array(results)) && forall|i: int| 0 <= i < results.len()
            ==> crate::json::get_key(#[trigger] results[i], "level"@) == Some(JsonModel::String("error"@))),
{
    law_sarif_level_is_severity(report);
    assert forall|i: int| 0 <= i < report.diagnostics@.len() implies (#[trigger] report.diagnostics@[i]).severity@ == "error"@ by {
        assert(diagnostic_of(report.diagnostics@[i], errors[i]));
    }
}

} // verus!
