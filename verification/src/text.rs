//! Character-level helpers shared by the parsers and validators: character
//! classes, UTF-8 widths, decimal rendering and `String` building.
use vstd::prelude::*;

verus! {

/// `String::push` appends one character.
pub assume_specification[ std::string::String::push ](s: &mut std::string::String, ch: char)
    ensures
        final(s)@ == old(s)@.push(ch),
;

/// Unicode `White_Space` property (the set `char::is_whitespace` accepts).
pub open spec fn is_unicode_whitespace(c: char) -> bool {
    let u = c as u32;
    ||| 0x09 <= u <= 0x0D
    ||| u == 0x20
    ||| u == 0x85
    ||| u == 0xA0
    ||| u == 0x1680
    ||| 0x2000 <= u <= 0x200A
    ||| u == 0x2028
    ||| u == 0x2029
    ||| u == 0x202F
    ||| u == 0x205F
    ||| u == 0x3000
}

pub open spec fn is_digit(c: char) -> bool {
    '0' <= c <= '9'
}

pub open spec fn is_alpha(c: char) -> bool {
    ('a' <= c <= 'z') || ('A' <= c <= 'Z')
}

pub open spec fn is_alnum(c: char) -> bool {
    is_alpha(c) || is_digit(c)
}

pub fn whitespace(c: char) -> (r: bool)
    ensures
        r == is_unicode_whitespace(c),
{
    let u = c as u32;
    (0x09 <= u && u <= 0x0D) || u == 0x20 || u == 0x85 || u == 0xA0 || u == 0x1680 || (0x2000
        <= u && u <= 0x200A) || u == 0x2028 || u == 0x2029 || u == 0x202F || u == 0x205F || u
        == 0x3000
}

pub fn digit(c: char) -> (r: bool)
    ensures
        r == is_digit(c),
{
    '0' <= c && c <= '9'
}

pub fn alpha(c: char) -> (r: bool)
    ensures
        r == is_alpha(c),
{
    ('a' <= c && c <= 'z') || ('A' <= c && c <= 'Z')
}

pub fn alnum(c: char) -> (r: bool)
    ensures
        r == is_alnum(c),
{
    alpha(c) || digit(c)
}

/// Number of bytes the UTF-8 encoding of `c` takes.
pub open spec fn utf8_width(c: char) -> nat {
    let u = c as u32;
    if u < 0x80 {
        1
    } else if u < 0x800 {
        2
    } else if u < 0x10000 {
        3
    } else {
        4
    }
}

/// Byte offset, in the UTF-8 encoding of `s`, of the character at index `i`.
pub open spec fn byte_offset(s: Seq<char>, i: int) -> nat
    decreases i,
{
    if i <= 0 || s.len() == 0 {
        0
    } else if i > s.len() {
        byte_offset(s, s.len() as int)
    } else {
        byte_offset(s, i - 1) + utf8_width(s[i - 1])
    }
}

pub fn char_utf8_width(c: char) -> (w: u8)
    ensures
        w == utf8_width(c),
{
    let u = c as u32;
    if u < 0x80 {
        1
    } else if u < 0x800 {
        2
    } else if u < 0x10000 {
        3
    } else {
        4
    }
}

/// Byte offset of character index `i` of `s`.
pub fn byte_offset_of(s: &Vec<char>, i: usize) -> (r: u128)
    requires
        i <= s.len(),
    ensures
        r == byte_offset(s@, i as int),
{
    let mut k: usize = 0;
    let mut acc: u128 = 0;
    while k < i
        invariant
            k <= i <= s.len(),
            acc == byte_offset(s@, k as int),
            acc <= 4 * k,
        decreases i - k,
    {
        let w = char_utf8_width(s[k]);
        acc = acc + w as u128;
        k = k + 1;
    }
    acc
}

pub open spec fn digit_char(d: nat) -> char {
    if d == 0 { '0' }
    else if d == 1 { '1' }
    else if d == 2 { '2' }
    else if d == 3 { '3' }
    else if d == 4 { '4' }
    else if d == 5 { '5' }
    else if d == 6 { '6' }
    else if d == 7 { '7' }
    else if d == 8 { '8' }
    else { '9' }
}

/// Decimal rendering of `n`, as `{}` formats an unsigned integer.
pub open spec fn decimal(n: nat) -> Seq<char>
    decreases n,
{
    if n < 10 {
        seq![digit_char(n)]
    } else {
        decimal(n / 10).push(digit_char(n % 10))
    }
}

fn digit_to_char(d: u8) -> (c: char)
    requires
        d < 10,
    ensures
        c == digit_char(d as nat),
{
    if d == 0 { '0' }
    else if d == 1 { '1' }
    else if d == 2 { '2' }
    else if d == 3 { '3' }
    else if d == 4 { '4' }
    else if d == 5 { '5' }
    else if d == 6 { '6' }
    else if d == 7 { '7' }
    else if d == 8 { '8' }
    else { '9' }
}

/// Appends the decimal rendering of `n` to `out`.
pub fn push_decimal(out: &mut String, n: u128)
    ensures
        final(out)@ == old(out)@ + decimal(n as nat),
    decreases n,
{
    if n < 10 {
        out.push(digit_to_char(n as u8));
    } else {
        push_decimal(out, n / 10);
        out.push(digit_to_char((n % 10) as u8));
    }
}

/// Appends every character of `cs` to `out`.
pub fn push_chars(out: &mut String, cs: &Vec<char>)
    ensures
        final(out)@ == old(out)@ + cs@,
{
    let mut k: usize = 0;
    while k < cs.len()
        invariant
            k <= cs.len(),
            out@ == old(out)@ + cs@.take(k as int),
        decreases cs.len() - k,
    {
        out.push(cs[k]);
        k = k + 1;
        assert(cs@.take(k as int) == cs@.take(k - 1).push(cs@[k - 1]));
    }
    assert(cs@.take(cs.len() as int) == cs@);
}

/// A `String` holding exactly the characters of `cs`.
pub fn string_of(cs: &Vec<char>) -> (s: String)
    ensures
        s@ == cs@,
{
    let mut s = String::new();
    push_chars(&mut s, cs);
    s
}

/// The characters of a string slice, in order.
pub fn chars_of(text: &str) -> (out: Vec<char>)
    ensures
        out@ == text@,
{
    let mut out: Vec<char> = Vec::new();
    for c in it: text.chars()
        invariant
            out@ == it.seq().take(it.index()),
            it.seq() == text@,
    {
        out.push(c);
    }
    out
}

} // verus!

verus! {

/// `t` occurs in `s` starting at position `i`.
pub open spec fn occurs_at(s: Seq<char>, t: Seq<char>, i: int) -> bool {
    0 <= i && i + t.len() <= s.len() && s.subrange(i, i + t.len()) == t
}

/// `s.contains(t)` for a pattern string `t`.
pub open spec fn contains_text(s: Seq<char>, t: Seq<char>) -> bool {
    exists|i: int| occurs_at(s, t, i)
}

/// `s.starts_with(t)`.
pub open spec fn starts_with(s: Seq<char>, t: Seq<char>) -> bool {
    occurs_at(s, t, 0)
}

/// `s.contains(c)` for a character `c`.
pub open spec fn contains_char(s: Seq<char>, c: char) -> bool {
    exists|i: int| 0 <= i < s.len() && s[i] == c
}

/// Whether `t` occurs in `s` at position `i`.
pub fn matches_at(s: &Vec<char>, t: &Vec<char>, i: usize) -> (r: bool)
    ensures
        r == occurs_at(s@, t@, i as int),
{
    if i > s.len() || t.len() > s.len() - i {
        return false;
    }
    let mut k: usize = 0;
    while k < t.len()
        invariant
            k <= t.len(),
            i + t.len() <= s.len(),
            forall|j: int| 0 <= j < k ==> s@[i + j] == t@[j],
        decreases t.len() - k,
    {
        if s[i + k] != t[k] {
            assert(s@.subrange(i as int, i + t.len())[k as int] != t@[k as int]);
            return false;
        }
        k = k + 1;
    }
    assert(s@.subrange(i as int, i + t.len()) =~= t@);
    true
}

/// First position at or after `from` where `t` occurs in `s`.
pub fn find_from(s: &Vec<char>, t: &Vec<char>, from: usize) -> (r: Option<usize>)
    ensures
        r matches Some(p) ==> from <= p && occurs_at(s@, t@, p as int) && forall|q: int|
            from <= q < p ==> !occurs_at(s@, t@, q),
        r is None ==> forall|q: int| from <= q ==> !occurs_at(s@, t@, q),
{
    let mut p = from;
    while p < s.len()
        invariant
            from <= p,
            forall|q: int| from <= q < p ==> !occurs_at(s@, t@, q),
        decreases s.len() - p,
    {
        if matches_at(s, t, p) {
            return Some(p);
        }
        p = p + 1;
    }
    if matches_at(s, t, p) {
        return Some(p);
    }
    None
}

/// `s.contains(t)`.
pub fn contains(s: &Vec<char>, t: &Vec<char>) -> (r: bool)
    ensures
        r == contains_text(s@, t@),
{
    match find_from(s, t, 0) {
        Some(_) => true,
        None => {
            assert forall|q: int| !occurs_at(s@, t@, q) by {
                if q < 0 {
                }
            }
            false
        },
    }
}

/// `s.contains(c)`.
pub fn contains_ch(s: &Vec<char>, c: char) -> (r: bool)
    ensures
        r == contains_char(s@, c),
{
    let mut i: usize = 0;
    while i < s.len()
        invariant
            i <= s.len(),
            forall|j: int| 0 <= j < i ==> s@[j] != c,
        decreases s.len() - i,
    {
        if s[i] == c {
            return true;
        }
        i = i + 1;
    }
    false
}


/// `str::split(c)`.
pub open spec fn split_char(s: Seq<char>, c: char) -> Seq<Seq<char>>
    decreases s.len(),
{
    if s.len() == 0 {
        seq![Seq::empty()]
    } else {
        let rest = split_char(s.drop_first(), c);
        if s[0] == c {
            seq![Seq::<char>::empty()] + rest
        } else {
            rest.update(0, seq![s[0]] + rest[0])
        }
    }
}

pub open spec fn views(parts: Seq<Vec<char>>) -> Seq<Seq<char>> {
    parts.map_values(|p: Vec<char>| p@)
}

/// `s[i..].split(c)`.
pub fn split_from(s: &Vec<char>, i: usize, c: char) -> (r: Vec<Vec<char>>)
    requires
        i <= s.len(),
    ensures
        views(r@) == split_char(s@.skip(i as int), c),
    decreases s.len() - i,
{
    if i == s.len() {
        let mut r: Vec<Vec<char>> = Vec::new();
        r.push(Vec::new());
        assert(s@.skip(i as int) =~= Seq::<char>::empty());
        assert(views(r@) =~= seq![Seq::<char>::empty()]);
        return r;
    }
    let mut rest = split_from(s, i + 1, c);
    assert(s@.skip(i as int).drop_first() =~= s@.skip(i + 1));
    assert(s@.skip(i as int)[0] == s@[i as int]);
    if s[i] == c {
        let ghost rv = views(rest@);
        rest.insert(0, Vec::new());
        assert(views(rest@) =~= seq![Seq::<char>::empty()] + rv);
        rest
    } else {
        let ghost rv = views(rest@);
        assert(rv.len() >= 1) by {
            lemma_split_nonempty(s@.skip(i + 1), c);
        }
        let ghost old_rest = rest@;
        let mut first = rest.remove(0);
        assert(first@ == rv[0]);
        first.insert(0, s[i]);
        assert(first@ =~= seq![s@[i as int]] + rv[0]);
        rest.insert(0, first);
        assert(rest@.len() == old_rest.len());
        assert forall|j: int| 1 <= j < rest@.len() implies #[trigger] views(rest@)[j] == rv[j] by {
            assert(rest@[j] == old_rest[j]);
        }
        assert(views(rest@) =~= rv.update(0, seq![s@[i as int]] + rv[0]));
        rest
    }
}

pub proof fn lemma_split_nonempty(s: Seq<char>, c: char)
    ensures
        split_char(s, c).len() >= 1,
    decreases s.len(),
{
    if s.len() > 0 {
        lemma_split_nonempty(s.drop_first(), c);
    }
}


/// The characters of `v` from `a` to `b`.
pub fn slice_chars(v: &Vec<char>, a: usize, b: usize) -> (r: Vec<char>)
    requires
        a <= b <= v.len(),
    ensures
        r@ == v@.subrange(a as int, b as int),
{
    let mut r: Vec<char> = Vec::new();
    let mut k = a;
    while k < b
        invariant
            a <= k <= b <= v.len(),
            r@ == v@.subrange(a as int, k as int),
        decreases b - k,
    {
        r.push(v[k]);
        k = k + 1;
        assert(r@ =~= v@.subrange(a as int, k as int));
    }
    r
}


/// Appends the characters of `s` to `out`.
pub fn push_text(out: &mut String, s: &str)
    ensures
        final(out)@ == old(out)@ + s@,
{
    let cs = chars_of(s);
    push_chars(out, &cs);
}


/// The views of a sequence of strings.
pub open spec fn strs(v: Seq<String>) -> Seq<Seq<char>> {
    v.map_values(|s: String| s@)
}

/// Whether two string slices hold the same characters.
pub fn same_text(a: &str, b: &str) -> (r: bool)
    ensures
        r == (a@ == b@),
{
    let x = chars_of(a);
    let y = chars_of(b);
    crate::json::chars_equal(&x, &y)
}


/// `str::trim_start`.
pub open spec fn trim_start_ws(s: Seq<char>) -> Seq<char>
    decreases s.len(),
{
    if s.len() > 0 && is_unicode_whitespace(s[0]) {
        trim_start_ws(s.drop_first())
    } else {
        s
    }
}

/// `str::trim_end`.
pub open spec fn trim_end_ws(s: Seq<char>) -> Seq<char>
    decreases s.len(),
{
    if s.len() > 0 && is_unicode_whitespace(s.last()) {
        trim_end_ws(s.drop_last())
    } else {
        s
    }
}

pub fn trim_start_index(s: &Vec<char>, from: usize) -> (r: usize)
    requires
        from <= s.len(),
    ensures
        from <= r <= s.len(),
        s@.skip(r as int) == trim_start_ws(s@.skip(from as int)),
{
    let mut k = from;
    while k < s.len() && whitespace(s[k])
        invariant
            from <= k <= s.len(),
            trim_start_ws(s@.skip(from as int)) == trim_start_ws(s@.skip(k as int)),
        decreases s.len() - k,
    {
        assert(s@.skip(k as int).drop_first() =~= s@.skip(k + 1));
        k = k + 1;
    }
    k
}

/// First index of `c` in `s`, or -1.
pub open spec fn first_index_of(s: Seq<char>, c: char) -> int
    decreases s.len(),
{
    if s.len() == 0 {
        -1
    } else if s[0] == c {
        0
    } else if first_index_of(s.drop_first(), c) < 0 {
        -1
    } else {
        first_index_of(s.drop_first(), c) + 1
    }
}

pub proof fn lemma_first_index_of(s: Seq<char>, c: char)
    ensures
        -1 <= first_index_of(s, c) < s.len(),
        first_index_of(s, c) >= 0 ==> s[first_index_of(s, c)] == c,
        forall|j: int| 0 <= j < s.len() && (first_index_of(s, c) < 0 || j < first_index_of(s, c)) ==> s[j] != c,
    decreases s.len(),
{
    if s.len() > 0 {
        lemma_first_index_of(s.drop_first(), c);
        assert forall|j: int| 0 < j < s.len() implies s[j] == s.drop_first()[j - 1] by {}
    }
}

/// A line without the `\r` of a `\r\n` ending.
pub open spec fn without_cr(line: Seq<char>) -> Seq<char> {
    if line.len() > 0 && line.last() == '\r' {
        line.drop_last()
    } else {
        line
    }
}

/// `str::lines()`: the text split at each `\n`, a `\r` before it dropped,
/// with no empty line after a final `\n`.
pub open spec fn lines_of(s: Seq<char>) -> Seq<Seq<char>>
    decreases s.len(),
{
    if s.len() == 0 {
        Seq::empty()
    } else {
        let i = first_index_of(s, '\n');
        if i < 0 {
            seq![s]
        } else {
            proof {
                lemma_first_index_of(s, '\n');
            }
            seq![without_cr(s.take(i))] + lines_of(s.skip(i + 1))
        }
    }
}

/// `s.lines()`.
pub fn lines(s: &Vec<char>) -> (r: Vec<Vec<char>>)
    ensures
        r@.len() == lines_of(s@).len(),
        forall|k: int| 0 <= k < r@.len() ==> (#[trigger] r@[k])@ == lines_of(s@)[k],
{
    let mut out: Vec<Vec<char>> = Vec::new();
    let mut start: usize = 0;
    assert(s@.skip(0) =~= s@);
    while start < s.len()
        invariant
            start <= s.len(),
            out@.len() + lines_of(s@.skip(start as int)).len() == lines_of(s@).len(),
            forall|k: int| 0 <= k < out@.len() ==> (#[trigger] out@[k])@ == lines_of(s@)[k],
            forall|k: int|
                0 <= k < lines_of(s@.skip(start as int)).len() ==> #[trigger] lines_of(s@.skip(start as int))[k]
                    == lines_of(s@)[out@.len() + k],
        decreases s.len() - start,
    {
        let ghost rest = s@.skip(start as int);
        proof {
            lemma_first_index_of(rest, '\n');
        }
        let mut j = start;
        while j < s.len() && s[j] != '\n'
            invariant
                start <= j <= s.len(),
                rest == s@.skip(start as int),
                forall|q: int| start <= q < j ==> s@[q] != '\n',
            decreases s.len() - j,
        {
            j = j + 1;
        }
        let mut end = j;
        if j < s.len() && end > start && s[end - 1] == '\r' {
            end = end - 1;
        }
        let line = slice_chars(s, start, end);
        let ghost before = out@;
        if j < s.len() {
            assert(first_index_of(rest, '\n') == j - start) by {
                if first_index_of(rest, '\n') < 0 || first_index_of(rest, '\n') > j - start {
                    assert(rest[j - start] == '\n');
                }
                if 0 <= first_index_of(rest, '\n') < j - start {
                    assert(rest[first_index_of(rest, '\n')] == s@[start + first_index_of(rest, '\n')]);
                }
            }
            assert(rest.take(j - start) =~= s@.subrange(start as int, j as int));
            assert(line@ == without_cr(rest.take(j - start))) by {
                if end < j {
                    assert(s@.subrange(start as int, j as int).drop_last() =~= line@);
                } else {
                    assert(line@ =~= s@.subrange(start as int, j as int));
                }
            }
            assert(rest.skip(j - start + 1) =~= s@.skip(j + 1));
            out.push(line);
            start = j + 1;
        } else {
            assert(first_index_of(rest, '\n') < 0) by {
                if first_index_of(rest, '\n') >= 0 {
                    assert(rest[first_index_of(rest, '\n')] == s@[start + first_index_of(rest, '\n')]);
                }
            }
            assert(line@ =~= rest);
            out.push(line);
            start = s.len();
            assert(s@.skip(start as int) =~= Seq::<char>::empty());
        }
        assert(lines_of(rest)[0] == line@);
        assert forall|k: int| 0 <= k < out@.len() implies (#[trigger] out@[k])@ == lines_of(s@)[k] by {
            if k < before.len() {
                assert(out@[k] == before[k]);
            }
        }
        assert forall|k: int|
            0 <= k < lines_of(s@.skip(start as int)).len() implies #[trigger] lines_of(s@.skip(start as int))[k]
                == lines_of(s@)[out@.len() + k] by {
            assert(lines_of(s@.skip(start as int))[k] == lines_of(rest)[k + 1]);
        }
    }
    out
}


/// `str::to_lowercase`: the Unicode lower-case mapping of a text.
pub uninterp spec fn lowercase(s: Seq<char>) -> Seq<char>;

/// `str::to_lowercase` of std.
#[verifier::external_body]
pub(crate) fn to_lower(s: &str) -> (r: String)
    ensures
        r@ == lowercase(s@),
{
    s.to_lowercase()
}

} // verus!
