//! `aa index`: query terms, the per-file counts a hit is scored from, and the
//! kind, summary and relations of a hit.
use vstd::prelude::*;
use crate::text::{chars_of, string_of, slice_chars, strs, lowercase, to_lower, occurs_at, contains_text, matches_at, is_unicode_whitespace, whitespace, lines_of, lines, byte_offset, push_text, char_utf8_width};
use crate::text::{trim_start_ws, trim_end_ws};
use crate::scene::{sorted_unique, strictly_ascending};


verus! {

/// The words of a text from position `i` on: its maximal runs of
/// non-whitespace, in order.
pub open spec fn words_from(s: Seq<char>, i: int) -> Seq<Seq<char>>
    decreases s.len() - i,
{
    if i < 0 || i >= s.len() {
        Seq::empty()
    } else if is_unicode_whitespace(s[i]) {
        words_from(s, i + 1)
    } else {
        proof {
            lemma_word_end(s, i + 1);
        }
        seq![s.subrange(i, word_end(s, i))] + words_from(s, word_end(s, i))
    }
}

/// End of the run of non-whitespace starting at `i`.
pub open spec fn word_end(s: Seq<char>, i: int) -> int
    decreases s.len() - i,
{
    if 0 <= i < s.len() && !is_unicode_whitespace(s[i]) {
        word_end(s, i + 1)
    } else {
        i
    }
}

pub proof fn lemma_word_end(s: Seq<char>, i: int)
    requires
        0 <= i <= s.len(),
    ensures
        i <= word_end(s, i) <= s.len(),
        forall|k: int| i <= k < word_end(s, i) ==> !is_unicode_whitespace(#[trigger] s[k]),
        word_end(s, i) < s.len() ==> is_unicode_whitespace(s[word_end(s, i)]),
    decreases s.len() - i,
{
    if i < s.len() && !is_unicode_whitespace(s[i]) {
        lemma_word_end(s, i + 1);
    }
}

/// The search terms of a query: its lower-cased words.
pub open spec fn query_terms_of(query: Seq<char>) -> Seq<Seq<char>> {
    words_from(lowercase(query), 0)
}

fn words(s: &Vec<char>) -> (r: Vec<String>)
    ensures
        strs(r@) == words_from(s@, 0),
{
    let mut out: Vec<String> = Vec::new();
    let mut i: usize = 0;
    assert(strs(out@) + words_from(s@, 0) =~= words_from(s@, 0));
    while i < s.len()
        invariant
            i <= s.len(),
            strs(out@) + words_from(s@, i as int) == words_from(s@, 0),
        decreases s.len() - i,
    {
        if whitespace(s[i]) {
            i = i + 1;
        } else {
            let start = i;
            proof {
                lemma_word_end(s@, i as int);
            }
            while i < s.len() && !whitespace(s[i])
                invariant
                    start <= i <= s.len(),
                    word_end(s@, start as int) == word_end(s@, i as int),
                decreases s.len() - i,
            {
                i = i + 1;
            }
            let w = slice_chars(s, start, i);
            let ghost before = strs(out@);
            out.push(string_of(&w));
            assert(strs(out@) =~= before.push(w@));
            assert(strs(out@) + words_from(s@, i as int) =~= before + (seq![w@] + words_from(s@, i as int)));
        }
    }
    assert(strs(out@) + words_from(s@, i as int) =~= strs(out@));
    out
}

/// The search terms of a query (see `query_terms_of`).
pub fn query_terms(query: &str) -> (r: Vec<String>)
    ensures
        strs(r@) == query_terms_of(query@),
{
    let lowered = to_lower(query);
    words(&chars_of(lowered.as_str()))
}

} // verus!

verus! {

/// `s[i..].matches(t).count()`: non-overlapping occurrences, left to right
/// (an empty pattern matches at every character boundary).
pub open spec fn match_count_from(s: Seq<char>, t: Seq<char>, i: int) -> nat
    decreases s.len() + 1 - i,
{
    if i < 0 || i > s.len() {
        0
    } else if t.len() == 0 {
        (s.len() + 1 - i) as nat
    } else if i + t.len() > s.len() {
        0
    } else if occurs_at(s, t, i) {
        1 + match_count_from(s, t, i + t.len())
    } else {
        match_count_from(s, t, i + 1)
    }
}

pub open spec fn match_count(s: Seq<char>, t: Seq<char>) -> nat {
    match_count_from(s, t, 0)
}

proof fn lemma_match_count_bound(s: Seq<char>, t: Seq<char>, i: int)
    requires
        0 <= i <= s.len(),
    ensures
        match_count_from(s, t, i) <= s.len() + 1 - i,
    decreases s.len() + 1 - i,
{
    if t.len() > 0 && i + t.len() <= s.len() {
        if occurs_at(s, t, i) {
            lemma_match_count_bound(s, t, i + t.len());
        } else {
            lemma_match_count_bound(s, t, i + 1);
        }
    }
}

/// `s.matches(t).count()`.
pub fn count_matches(s: &Vec<char>, t: &Vec<char>) -> (r: u128)
    ensures
        r == match_count(s@, t@),
        r <= s.len() + 1,
{
    if t.len() == 0 {
        return s.len() as u128 + 1;
    }
    let mut n: u128 = 0;
    let mut i: usize = 0;
    proof {
        lemma_match_count_bound(s@, t@, 0);
    }
    while s.len() - i >= t.len()
        invariant
            i <= s.len(),
            t.len() > 0,
            n + match_count_from(s@, t@, i as int) == match_count(s@, t@),
            match_count(s@, t@) <= s.len() + 1,
            n <= i,
            i <= s.len() ==> match_count_from(s@, t@, i as int) <= s.len() + 1 - i,
        decreases s.len() + 1 - i,
    {
        proof {
            lemma_match_count_bound(s@, t@, i as int);
        }
        if matches_at(s, t, i) {
            n = n + 1;
            i = i + t.len();
        } else {
            i = i + 1;
        }
        proof {
            if i <= s.len() {
                lemma_match_count_bound(s@, t@, i as int);
            }
        }
    }
    n
}

} // verus!

verus! {

/// `s.ends_with(t)`.
pub open spec fn ends_with(s: Seq<char>, t: Seq<char>) -> bool {
    t.len() <= s.len() && s.skip(s.len() - t.len()) == t
}

/// The kind of a hit, from its path.
pub open spec fn hit_kind(path: Seq<char>) -> Seq<char> {
    if contains_text(path, "/sectors/"@) {
        "sector"@
    } else if contains_text(path, "/spawn_tables/"@) {
        "spawn_table"@
    } else if contains_text(path, "/worlds/"@) {
        "world"@
    } else if ends_with(path, ".md"@) {
        "spec"@
    } else {
        "asset"@
    }
}

/// The kind of a hit (see `hit_kind`).
pub fn classify_hit(path: &str) -> (r: String)
    ensures
        r@ == hit_kind(path@),
{
    let p = chars_of(path);
    if crate::text::contains(&p, &chars_of("/sectors/")) {
        "sector".to_string()
    } else if crate::text::contains(&p, &chars_of("/spawn_tables/")) {
        "spawn_table".to_string()
    } else if crate::text::contains(&p, &chars_of("/worlds/")) {
        "world".to_string()
    } else {
        let md = chars_of(".md");
        proof {
            reveal_strlit(".md");
        }
        let ends = p.len() >= 3 && matches_at(&p, &md, p.len() - 3);
        assert(ends == ends_with(p@, ".md"@)) by {
            if p.len() >= 3 {
                assert(p@.subrange(p.len() - 3, p.len() - 3 + 3) =~= p@.skip(p.len() - 3));
            }
        }
        if ends {
            "spec".to_string()
        } else {
            "asset".to_string()
        }
    }
}

/// `s.trim()`.
pub open spec fn trim_ws(s: Seq<char>) -> Seq<char> {
    trim_end_ws(trim_start_ws(s))
}

/// A line as a hit's summary: trimmed, and cut after its first 120 bytes
/// (with `…` appended) when it is longer.
pub open spec fn line_summary(line: Seq<char>) -> Seq<char> {
    let t = trim_ws(line);
    if byte_offset(t, t.len() as int) > 120 {
        t.take(crate::validate::char_index_at_byte(t, 120)->0) + "…"@
    } else {
        t
    }
}

/// Cutting a line after 120 bytes needs a character boundary there.
pub open spec fn summary_cut_ok(line: Seq<char>) -> bool {
    let t = trim_ws(line);
    byte_offset(t, t.len() as int) > 120 ==> crate::validate::char_index_at_byte(t, 120) is Some
}

/// A line as a hit's summary (see `line_summary`).
pub fn summarize_line(line: &str) -> (r: String)
    requires
        summary_cut_ok(line@),
    ensures
        r@ == line_summary(line@),
{
    let t = crate::check::trimmed_chars(&chars_of(line));
    let mut i: usize = 0;
    let mut acc: u128 = 0;
    while i < t.len() && acc < 120
        invariant
            i <= t.len(),
            acc == byte_offset(t@, i as int),
            acc <= 4 * i,
            forall|j: int| 0 <= j < i ==> byte_offset(t@, j) < 120,
        decreases t.len() - i,
    {
        acc = acc + char_utf8_width(t[i]) as u128;
        i = i + 1;
    }
    if i == t.len() && acc <= 120 {
        return string_of(&t);
    }
    proof {
        let tv = t@;
        crate::validate::lemma_byte_offset_mono(tv, i as int, tv.len() as int);
        if i < t.len() {
            crate::validate::lemma_byte_offset_strict(tv, i as int, i + 1);
            crate::validate::lemma_byte_offset_mono(tv, i + 1, tv.len() as int);
        }
        assert(byte_offset(tv, tv.len() as int) > 120);
        let k = choose|k: int| 0 <= k <= tv.len() && byte_offset(tv, k) == 120;
        assert(0 <= k <= tv.len() && byte_offset(tv, k) == 120);
        if k < i {
        } else if k > i {
            crate::validate::lemma_byte_offset_strict(tv, i as int, k);
        }
        assert(k == i);
        crate::validate::lemma_char_index_unique(tv, 120, i as int);
    }
    let mut out = string_of(&slice_chars(&t, 0, i));
    push_text(&mut out, "…");
    assert(t@.take(i as int) =~= t@.subrange(0, i as int));
    out
}

} // verus!

verus! {

/// `char::is_alphanumeric` of std (Unicode `Alphabetic` or `Numeric`).
pub uninterp spec fn alphanumeric(c: char) -> bool;

/// `char::is_alphanumeric` of std.
#[verifier::external_body]
fn is_alphanumeric(c: char) -> (r: bool)
    ensures
        r == alphanumeric(c),
{
    c.is_alphanumeric()
}

/// A character that may stand in a relation token.
pub open spec fn token_char(c: char) -> bool {
    alphanumeric(c) || c == '/' || c == '_' || c == '-' || c == '.'
}

/// `s.split(|c| !token_char(c))`: the pieces between separators, empty ones included.
pub open spec fn tokens_of(s: Seq<char>) -> Seq<Seq<char>>
    decreases s.len(),
{
    if s.len() == 0 {
        seq![Seq::empty()]
    } else {
        let rest = tokens_of(s.drop_first());
        if !token_char(s[0]) {
            seq![Seq::<char>::empty()] + rest
        } else {
            rest.update(0, seq![s[0]] + rest[0])
        }
    }
}

proof fn lemma_tokens_nonempty(s: Seq<char>)
    ensures
        tokens_of(s).len() >= 1,
    decreases s.len(),
{
    if s.len() > 0 {
        lemma_tokens_nonempty(s.drop_first());
    }
}

fn tokens_from(s: &Vec<char>, i: usize) -> (r: Vec<Vec<char>>)
    requires
        i <= s.len(),
    ensures
        crate::text::views(r@) == tokens_of(s@.skip(i as int)),
    decreases s.len() - i,
{
    if i == s.len() {
        let mut r: Vec<Vec<char>> = Vec::new();
        r.push(Vec::new());
        assert(s@.skip(i as int) =~= Seq::<char>::empty());
        assert(crate::text::views(r@) =~= seq![Seq::<char>::empty()]);
        return r;
    }
    let mut rest = tokens_from(s, i + 1);
    assert(s@.skip(i as int).drop_first() =~= s@.skip(i + 1));
    assert(s@.skip(i as int)[0] == s@[i as int]);
    let c = s[i];
    let keep = is_alphanumeric(c) || c == '/' || c == '_' || c == '-' || c == '.';
    let ghost rv = crate::text::views(rest@);
    if !keep {
        rest.insert(0, Vec::new());
        assert(crate::text::views(rest@) =~= seq![Seq::<char>::empty()] + rv);
        rest
    } else {
        assert(rv.len() >= 1) by {
            lemma_tokens_nonempty(s@.skip(i + 1));
        }
        let ghost old_rest = rest@;
        let mut first = rest.remove(0);
        first.insert(0, c);
        assert(first@ =~= seq![s@[i as int]] + rv[0]);
        rest.insert(0, first);
        assert forall|j: int| 1 <= j < rest@.len() implies #[trigger] crate::text::views(rest@)[j] == rv[j] by {
            assert(rest@[j] == old_rest[j]);
        }
        assert(crate::text::views(rest@) =~= rv.update(0, seq![s@[i as int]] + rv[0]));
        rest
    }
}

/// The relation tokens of a line: the tokens that mention `assets/`.
pub open spec fn relation_tokens(line: Seq<char>) -> Seq<Seq<char>> {
    tokens_of(line).filter(|t: Seq<char>| contains_text(t, "assets/"@))
}

/// The asset paths a line mentions: its tokens containing `assets/`, sorted, each once.
pub fn extract_relations(line: &str) -> (r: Vec<String>)
    ensures
        strictly_ascending(strs(r@)),
        strs(r@).to_set() == relation_tokens(line@).to_set(),
{
    let s = chars_of(line);
    let toks = tokens_from(&s, 0);
    assert(s@.skip(0) =~= s@);
    let ghost tv = crate::text::views(toks@);
    let pat = chars_of("assets/");
    let ghost pred = |t: Seq<char>| contains_text(t, "assets/"@);
    let mut found: Vec<String> = Vec::new();
    let mut i: usize = 0;
    assert(tv.take(0).filter(pred) =~= Seq::<Seq<char>>::empty());
    while i < toks.len()
        invariant
            i <= toks.len(),
            tv == crate::text::views(toks@),
            tv == tokens_of(line@),
            pat@ == "assets/"@,
            pred == (|t: Seq<char>| contains_text(t, "assets/"@)),
            strs(found@) == tv.take(i as int).filter(pred),
        decreases toks.len() - i,
    {
        let has = crate::text::contains(&toks[i], &pat);
        proof {
            assert(tv.take(i + 1) =~= tv.take(i as int).push(tv[i as int]));
            tv.take(i as int).lemma_filter_push(tv[i as int], pred);
        }
        if has {
            let ghost before = strs(found@);
            found.push(string_of(&toks[i]));
            assert(strs(found@) =~= before.push(tv[i as int]));
        }
        i = i + 1;
    }
    assert(tv.take(i as int) =~= tv);
    sorted_unique(&found)
}

} // verus!

verus! {

/// Occurrences of all the terms in `s`, summed.
pub open spec fn term_total(s: Seq<char>, terms: Seq<Seq<char>>) -> nat
    decreases terms.len(),
{
    if terms.len() == 0 {
        0
    } else {
        term_total(s, terms.drop_last()) + match_count(s, terms.last())
    }
}

/// How many of the terms `s` contains.
pub open spec fn terms_in(s: Seq<char>, terms: Seq<Seq<char>>) -> nat
    decreases terms.len(),
{
    if terms.len() == 0 {
        0
    } else {
        terms_in(s, terms.drop_last()) + if contains_text(s, terms.last()) {
            1nat
        } else {
            0nat
        }
    }
}

/// The best line: the first with the highest positive score (its index and
/// score), or index -1 when no line scores.
pub open spec fn best_line_of(ls: Seq<Seq<char>>, terms: Seq<Seq<char>>) -> (int, nat)
    decreases ls.len(),
{
    if ls.len() == 0 {
        (-1, 0)
    } else {
        let prev = best_line_of(ls.drop_last(), terms);
        let score = term_total(lowercase(ls.last()), terms);
        if score > prev.1 {
            (ls.len() - 1, score)
        } else {
            prev
        }
    }
}

/// The counts an index hit is scored from, and what it shows.
#[derive(Debug, Clone, PartialEq, Eq)]
pub struct FileHit {
    pub id: String,
    pub kind: String,
    pub path: String,
    pub path_score: usize,
    pub text_score: u128,
    pub line_start: u32,
    pub best_line: String,
    pub relations: Vec<String>,
    pub tags: Vec<String>,
}

fn total_matches(s: &Vec<char>, terms: &Vec<String>) -> (r: u128)
    ensures
        r == term_total(s@, strs(terms@)),
{
    let mut acc: u128 = 0;
    let mut i: usize = 0;
    let ghost ts = strs(terms@);
    assert(ts.take(0) =~= Seq::<Seq<char>>::empty());
    while i < terms.len()
        invariant
            i <= terms.len(),
            ts == strs(terms@),
            acc == term_total(s@, ts.take(i as int)),
            acc <= i * (s.len() + 1),
        decreases terms.len() - i,
    {
        let c = count_matches(s, &chars_of(terms[i].as_str()));
        assert(ts.take(i + 1).drop_last() =~= ts.take(i as int));
        assert(acc + c <= (i + 1) * (s.len() + 1)) by (nonlinear_arith)
            requires
                acc <= i * (s.len() + 1),
                c <= s.len() + 1,
        ;
        assert((i + 1) * (s.len() + 1) <= 0xFFFF_FFFF_FFFF_FFFF * 0x1_0000_0000_0000_0000) by (nonlinear_arith)
            requires
                i + 1 <= 0xFFFF_FFFF_FFFF_FFFF,
                s.len() + 1 <= 0x1_0000_0000_0000_0000,
        ;
        acc = acc + c;
        i = i + 1;
    }
    assert(ts.take(i as int) =~= ts);
    acc
}

/// Scores one file against the query terms: how many terms its path holds,
/// how often they occur in its text, its best line (numbered from 1; the
/// first line, or the path when the text has none, when no line scores), its
/// id `PATH:LINE`, kind, relations and the terms it mentions. A file in which
/// nothing scores is no hit.
pub fn file_hit(rel: &str, text: &str, terms: &Vec<String>) -> (r: Option<FileHit>)
    ensures
        ({
            let lp = lowercase(rel@);
            let lt = lowercase(text@);
            let ts = strs(terms@);
            let ls = lines_of(text@);
            let best = best_line_of(ls, ts);
            let number: u32 = if best.0 < 0 {
                1
            } else {
                (best.0 + 1) as u32
            };
            let shown = if best.0 >= 0 {
                ls[best.0]
            } else if ls.len() > 0 {
                ls[0]
            } else {
                rel@
            };
            if terms_in(lp, ts) + term_total(lt, ts) == 0 {
                r is None
            } else {
                r matches Some(h) && h.path@ == rel@ && h.path_score == terms_in(lp, ts) && h.text_score == term_total(lt, ts)
                    && h.line_start == number && h.best_line@ == shown && h.id@ == rel@ + ":"@ + crate::text::decimal(
                    number as nat,
                ) && h.kind@ == hit_kind(rel@) && strictly_ascending(strs(h.relations@)) && strs(h.relations@).to_set()
                    == relation_tokens(shown).to_set() && strs(h.tags@) == ts.filter(
                    |t: Seq<char>| contains_text(lt, t) || contains_text(lp, t),
                )
            }
        }),
{
    let lp = chars_of(to_lower(rel).as_str());
    let lt = chars_of(to_lower(text).as_str());
    let ghost ts = strs(terms@);
    let mut path_score: usize = 0;
    let mut tags: Vec<String> = Vec::new();
    let ghost tag_pred = |t: Seq<char>| contains_text(lt@, t) || contains_text(lp@, t);
    let mut i: usize = 0;
    assert(ts.take(0) =~= Seq::<Seq<char>>::empty());
    assert(ts.take(0).filter(tag_pred) =~= Seq::<Seq<char>>::empty());
    while i < terms.len()
        invariant
            i <= terms.len(),
            ts == strs(terms@),
            path_score == terms_in(lp@, ts.take(i as int)),
            path_score <= i,
            tag_pred == (|t: Seq<char>| contains_text(lt@, t) || contains_text(lp@, t)),
            strs(tags@) == ts.take(i as int).filter(tag_pred),
        decreases terms.len() - i,
    {
        let t = chars_of(terms[i].as_str());
        let in_path = crate::text::contains(&lp, &t);
        let in_text = crate::text::contains(&lt, &t);
        assert(ts.take(i + 1).drop_last() =~= ts.take(i as int));
        assert(ts.take(i + 1) =~= ts.take(i as int).push(ts[i as int]));
        proof {
            ts.take(i as int).lemma_filter_push(ts[i as int], tag_pred);
        }
        if in_path {
            path_score = path_score + 1;
        }
        if in_text || in_path {
            let ghost before = strs(tags@);
            tags.push(terms[i].clone());
            assert(strs(tags@) =~= before.push(ts[i as int]));
        }
        i = i + 1;
    }
    assert(ts.take(i as int) =~= ts);
    let text_score = total_matches(&lt, terms);
    if path_score == 0 && text_score == 0 {
        return None;
    }
    let s = chars_of(text);
    let ls = lines(&s);
    let ghost lv = lines_of(text@);
    let mut best_index: Option<usize> = None;
    let mut best_score: u128 = 0;
    let mut k: usize = 0;
    assert(lv.take(0) =~= Seq::<Seq<char>>::empty());
    while k < ls.len()
        invariant
            k <= ls.len(),
            ls@.len() == lv.len(),
            forall|q: int| 0 <= q < ls@.len() ==> (#[trigger] ls@[q])@ == lv[q],
            ts == strs(terms@),
            best_line_of(lv.take(k as int), ts) == (match best_index {
                Some(b) => b as int,
                None => -1int,
            }, best_score as nat),
            best_index matches Some(b) ==> b < k,
        decreases ls.len() - k,
    {
        let line_lower = chars_of(to_lower(string_of(&ls[k]).as_str()).as_str());
        let score = total_matches(&line_lower, terms);
        assert(lv.take(k + 1).drop_last() =~= lv.take(k as int));
        assert(lv.take(k + 1).last() == lv[k as int]);
        if score > best_score {
            best_score = score;
            best_index = Some(k);
        }
        k = k + 1;
    }
    assert(lv.take(k as int) =~= lv);
    let (number, shown): (u32, String) = match best_index {
        Some(b) => ((b + 1) as u32, string_of(&ls[b])),
        None => if ls.len() > 0 {
            (1, string_of(&ls[0]))
        } else {
            (1, rel.to_string())
        },
    };
    let mut id = rel.to_string();
    push_text(&mut id, ":");
    crate::text::push_decimal(&mut id, number as u128);
    let relations = extract_relations(shown.as_str());
    Some(
        FileHit {
            id,
            kind: classify_hit(rel),
            path: rel.to_string(),
            path_score,
            text_score,
            line_start: number,
            best_line: shown,
            relations,
            tags,
        },
    )
}

/// The best line of a text is the first line with the highest score (the
/// number of term occurrences in the lower-cased line): no line scores more,
/// every earlier line scores less, and when no line scores at all there is
/// no best line (index -1).
pub proof fn law_best_line_scores_highest(ls: Seq<Seq<char>>, terms: Seq<Seq<char>>)
    ensures
        ({
            let (idx, score) = best_line_of(ls, terms);
            &&& -1 <= idx < ls.len()
            &&& idx == -1 ==> score == 0 && forall|j: int| 0 <= j < ls.len() ==> #[trigger] term_total(lowercase(ls[j]), terms) == 0
            &&& idx >= 0 ==> score > 0 && score == term_total(lowercase(ls[idx]), terms)
            &&& forall|j: int| 0 <= j < ls.len() ==> #[trigger] term_total(lowercase(ls[j]), terms) <= score
            &&& forall|j: int| 0 <= j < idx ==> #[trigger] term_total(lowercase(ls[j]), terms) < score
        }),
    decreases ls.len(),
{
    if ls.len() > 0 {
        let rest = ls.drop_last();
        law_best_line_scores_highest(rest, terms);
        assert forall|j: int| 0 <= j < rest.len() implies #[trigger] rest[j] == ls[j] by {}
        let (pi, ps) = best_line_of(rest, terms);
        let score = term_total(lowercase(ls.last()), terms);
        assert forall|j: int| 0 <= j < rest.len() implies #[trigger] term_total(lowercase(ls[j]), terms) == term_total(lowercase(rest[j]), terms) by {
            assert(rest[j] == ls[j]);
        }
        if score > ps {
        } else {
            assert(ls[ls.len() - 1] == ls.last());
        }
    }
}

} // verus!
