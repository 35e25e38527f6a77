//! `aa check`: which manifest `cargo check` runs on, and the errors read
//! back from its output.
use vstd::prelude::*;
use crate::text::{
    lines_of, lines, trim_start_ws, trim_end_ws, trim_start_index, whitespace, starts_with, first_index_of,
    lemma_first_index_of, chars_of, string_of, slice_chars, matches_at, is_digit, digit,
};
use crate::exit_codes::ExitCode;
use crate::ron_subset::{digits_value, lemma_digits_value_push};

verus! {

/// One compiler error found in `cargo check` output.
#[derive(Debug, Clone, PartialEq, Eq)]
pub struct CheckError {
    pub file: String,
    pub line: Option<u32>,
    pub message: String,
}

/// The report of `aa check`.
#[derive(Debug, Clone, PartialEq, Eq)]
pub struct CheckReport {
    pub ok: bool,
    pub errors: Vec<CheckError>,
    pub warnings: Vec<String>,
    pub duration_ms: u64,
}

/// `s.trim()`.
pub open spec fn trimmed(s: Seq<char>) -> Seq<char> {
    trim_end_ws(trim_start_ws(s))
}

/// `s.parse::<u32>()`: an optional `+`, then at least one decimal digit, with
/// a value that fits.
pub open spec fn u32_literal(s: Seq<char>) -> Option<u32> {
    let digits = plus_stripped(s);
    if digits.len() > 0 && all_digits(digits) && digits_value(digits) <= u32::MAX {
        Some(digits_value(digits) as u32)
    } else {
        None
    }
}

pub open spec fn plus_stripped(s: Seq<char>) -> Seq<char> {
    if s.len() > 0 && s[0] == '+' {
        s.drop_first()
    } else {
        s
    }
}

pub open spec fn all_digits(d: Seq<char>) -> bool {
    forall|i: int| 0 <= i < d.len() ==> is_digit(#[trigger] d[i])
}

/// An error as `(file, line, message)`.
pub open spec fn error_model(e: CheckError) -> (Seq<char>, Option<u32>, Seq<char>) {
    (e.file@, e.line, e.message@)
}

/// What one line of output does to the errors found so far: a line starting
/// with `error` opens a new error; a `--> file:rest` line gives the last error
/// its file, and its line when `rest` is a number.
pub open spec fn read_line(errs: Seq<(Seq<char>, Option<u32>, Seq<char>)>, line: Seq<char>) -> Seq<
    (Seq<char>, Option<u32>, Seq<char>),
> {
    let t = trimmed(line);
    if starts_with(t, "error"@) {
        errs.push((Seq::empty(), None, t))
    } else if starts_with(t, "--> "@) {
        let rest = t.skip(4);
        let colon = first_index_of(rest, ':');
        if colon >= 0 && errs.len() > 0 {
            errs.update(
                errs.len() - 1,
                (trimmed(rest.take(colon)), u32_literal(trimmed(rest.skip(colon + 1))), errs.last().2),
            )
        } else {
            errs
        }
    } else {
        errs
    }
}

/// The errors read from lines of output, in order.
pub open spec fn read_lines(ls: Seq<Seq<char>>) -> Seq<(Seq<char>, Option<u32>, Seq<char>)>
    decreases ls.len(),
{
    if ls.len() == 0 {
        Seq::empty()
    } else {
        read_line(read_lines(ls.drop_last()), ls.last())
    }
}

pub fn trimmed_chars(s: &Vec<char>) -> (r: Vec<char>)
    ensures
        r@ == trimmed(s@),
{
    let a = trim_start_index(s, 0);
    assert(s@.skip(0) =~= s@);
    let mut b = s.len();
    assert(s@.subrange(a as int, b as int) =~= s@.skip(a as int));
    while b > a && whitespace(s[b - 1])
        invariant
            a <= b <= s.len(),
            trimmed(s@) == trim_end_ws(s@.subrange(a as int, b as int)),
        decreases b,
    {
        assert(s@.subrange(a as int, b as int).drop_last() =~= s@.subrange(a as int, b - 1));
        b = b - 1;
    }
    let r = slice_chars(s, a, b);
    assert(trim_end_ws(r@) == r@);
    r
}

/// `s.parse::<u32>()`.
fn parse_u32(s: &Vec<char>) -> (r: Option<u32>)
    ensures
        r == u32_literal(s@),
{
    let start: usize = if s.len() > 0 && s[0] == '+' {
        1
    } else {
        0
    };
    let ghost digits = plus_stripped(s@);
    assert(digits =~= s@.subrange(start as int, s.len() as int));
    if start == s.len() {
        return None;
    }
    let mut value: u64 = 0;
    let mut k = start;
    assert(s@.subrange(start as int, start as int) =~= Seq::<char>::empty());
    while k < s.len()
        invariant
            start <= k <= s.len(),
            digits == s@.subrange(start as int, s.len() as int),
            digits == plus_stripped(s@),
            forall|q: int| start <= q < k ==> is_digit(#[trigger] s@[q]),
            value == digits_value(s@.subrange(start as int, k as int)),
            value <= u32::MAX,
        decreases s.len() - k,
    {
        let c = s[k];
        if !digit(c) {
            assert(!is_digit(digits[k - start]));
            assert(!all_digits(digits));
            return None;
        }
        proof {
            assert(s@.subrange(start as int, k + 1) =~= s@.subrange(start as int, k as int).push(c));
            lemma_digits_value_push(s@.subrange(start as int, k as int), c);
        }
        let next = value * 10 + (c as u32 - '0' as u32) as u64;
        if next > 0xffff_ffff {
            proof {
                if all_digits(digits) {
                    lemma_digits_value_prefix(digits, k + 1 - start);
                    assert(digits.take(k + 1 - start) =~= s@.subrange(start as int, k + 1));
                }
            }
            return None;
        }
        value = next;
        k = k + 1;
    }
    assert(s@.subrange(start as int, k as int) =~= digits);
    Some(value as u32)
}

proof fn lemma_digits_value_prefix(d: Seq<char>, n: int)
    requires
        0 <= n <= d.len(),
        forall|i: int| 0 <= i < d.len() ==> is_digit(#[trigger] d[i]),
    ensures
        digits_value(d) >= digits_value(d.take(n)),
        digits_value(d.take(n)) >= 0,
    decreases d.len(),
{
    if n < d.len() {
        lemma_digits_value_prefix(d.drop_last(), n);
        assert(d.drop_last().take(n) =~= d.take(n));
        assert(is_digit(d.last()));
        lemma_digits_value_prefix(d.drop_last(), d.len() - 1);
        assert(d.drop_last().take(d.len() - 1) =~= d.drop_last());
    } else {
        assert(d.take(n) =~= d);
        if d.len() > 0 {
            lemma_digits_value_prefix(d.drop_last(), d.len() - 1);
            assert(d.drop_last().take(d.len() - 1) =~= d.drop_last());
            assert(is_digit(d.last()));
        }
    }
}

/// The compiler errors in `cargo check` output (see `read_lines`).
pub fn parse_cargo_errors(stderr: &str) -> (r: Vec<CheckError>)
    ensures
        r@.map_values(|e: CheckError| error_model(e)) == read_lines(lines_of(stderr@)),
{
    let s = chars_of(stderr);
    let ls = lines(&s);
    let ghost lv = lines_of(s@);
    let error_word = chars_of("error");
    let arrow = chars_of("--> ");
    proof {
        reveal_strlit("--> ");
    }
    let mut errors: Vec<CheckError> = Vec::new();
    let mut i: usize = 0;
    assert(lv.take(0) =~= Seq::<Seq<char>>::empty());
    while i < ls.len()
        invariant
            i <= ls.len(),
            ls@.len() == lv.len(),
            forall|k: int| 0 <= k < ls@.len() ==> (#[trigger] ls@[k])@ == lv[k],
            error_word@ == "error"@,
            arrow@ == "--> "@,
            arrow@.len() == 4,
            errors@.map_values(|e: CheckError| error_model(e)) == read_lines(lv.take(i as int)),
        decreases ls.len() - i,
    {
        let ghost before = errors@.map_values(|e: CheckError| error_model(e));
        assert(lv.take(i + 1).drop_last() =~= lv.take(i as int));
        let t = trimmed_chars(&ls[i]);
        if matches_at(&t, &error_word, 0) {
            errors.push(CheckError { file: String::new(), line: None, message: string_of(&t) });
            assert(errors@.map_values(|e: CheckError| error_model(e)) =~= before.push((Seq::empty(), None, t@)));
        } else if matches_at(&t, &arrow, 0) {
            let rest = slice_chars(&t, 4, t.len());
            assert(rest@ =~= t@.skip(4));
            let mut colon: usize = 0;
            while colon < rest.len() && rest[colon] != ':'
                invariant
                    colon <= rest.len(),
                    forall|q: int| 0 <= q < colon ==> rest@[q] != ':',
                decreases rest.len() - colon,
            {
                colon = colon + 1;
            }
            proof {
                lemma_first_index_of(rest@, ':');
                let f = first_index_of(rest@, ':');
                if colon < rest.len() {
                    assert(f == colon) by {
                        if f < 0 || f > colon {
                            assert(rest@[colon as int] == ':');
                        }
                    }
                } else {
                    assert(f < 0) by {
                        if f >= 0 {
                            assert(rest@[f] == ':');
                        }
                    }
                }
            }
            if colon < rest.len() && errors.len() > 0 {
                let file = trimmed_chars(&slice_chars(&rest, 0, colon));
                let tail = trimmed_chars(&slice_chars(&rest, colon + 1, rest.len()));
                assert(rest@.take(colon as int) =~= rest@.subrange(0, colon as int));
                assert(rest@.skip(colon + 1) =~= rest@.subrange(colon + 1, rest@.len() as int));
                let n = parse_u32(&tail);
                let last = errors.len() - 1;
                let message = errors[last].message.clone();
                errors.set(last, CheckError { file: string_of(&file), line: n, message });
                assert(errors@.map_values(|e: CheckError| error_model(e)) =~= before.update(
                    last as int,
                    (file@, n, before.last().2),
                ));
            }
        }
        i = i + 1;
    }
    assert(lv.take(i as int) =~= lv);
    errors
}

/// Which manifest `cargo check` is given: the package's own `Cargo.toml`
/// when there is one; for a game project (with `aa.project.toml`) the
/// workspace `Cargo.toml` of the working directory, when there is one;
/// otherwise none, and the whole workspace is checked.
pub fn find_cargo_manifest(
    path: &str,
    own_manifest_is_file: bool,
    project_manifest_is_file: bool,
    working_dir: Option<String>,
    workspace_manifest_is_file: bool,
) -> (r: Option<String>)
    ensures
        own_manifest_is_file ==> (r matches Some(m) && m@ == crate::project::path_join(path@, "Cargo.toml"@)),
        !own_manifest_is_file && project_manifest_is_file && working_dir is Some && workspace_manifest_is_file ==> (r matches Some(m)
            && m@ == crate::project::path_join(working_dir->0@, "Cargo.toml"@)),
        !own_manifest_is_file && !(project_manifest_is_file && working_dir is Some && workspace_manifest_is_file) ==> r is None,
{
    if own_manifest_is_file {
        return Some(crate::project::join_path(path, "Cargo.toml"));
    }
    if project_manifest_is_file {
        if let Some(cwd) = working_dir {
            if workspace_manifest_is_file {
                return Some(crate::project::join_path(cwd.as_str(), "Cargo.toml"));
            }
        }
    }
    None
}

/// How `aa check` ends: success when cargo succeeded, else a compile failure.
pub fn check_exit_code(cargo_ok: bool) -> (r: ExitCode)
    ensures
        r == if cargo_ok {
            ExitCode::Success
        } else {
            ExitCode::CompileFailed
        },
{
    if cargo_ok {
        ExitCode::Success
    } else {
        ExitCode::CompileFailed
    }
}

} // verus!
