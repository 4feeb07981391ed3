//! Character-level text helpers shared by the path, command-line and
//! description logic.
//!
//! Strings are handled as sequences of Unicode scalar values (`Seq<char>`),
//! which is what the view of `str` and `String` is.

use vstd::prelude::*;

verus! {

// ---------------------------------------------------------------------------
// Conversions between strings and character vectors
// ---------------------------------------------------------------------------

/// The characters of a string slice, in order.
pub fn chars_of(s: &str) -> (r: Vec<char>)
    ensures
        r@ == s@,
{
    let mut r: Vec<char> = Vec::new();
    for c in it: s.chars()
        invariant
            it.seq() == s@,
            r@ == it.seq().take(it.index() as int),
    {
        r.push(c);
    }
    r
}

/// A string made of exactly the given characters (`FromIterator<&char>` for
/// `String`). Trusted: the collected string holds the characters in order.
#[verifier::external_body]
pub fn string_from_chars(chars: &[char]) -> (r: String)
    ensures
        r@ == chars@,
{
    chars.iter().collect()
}

/// Unicode lowercase mapping of a whole string, as `str::to_lowercase`
/// computes it (including the context-dependent final sigma).
pub uninterp spec fn lowercase(s: Seq<char>) -> Seq<char>;

/// Every character is ASCII.
pub open spec fn all_ascii(s: Seq<char>) -> bool {
    forall|i: int| 0 <= i < s.len() ==> (#[trigger] s[i] as u32) < 128
}

/// Calls `str::to_lowercase`. Trusted: the result is the Unicode lowercase
/// mapping of the argument and depends on nothing else; on ASCII text that
/// mapping turns `A`..`Z` into `a`..`z` and keeps every other character.
#[verifier::external_body]
pub fn to_lowercase(s: &str) -> (r: String)
    ensures
        r@ == lowercase(s@),
        all_ascii(s@) ==> r@ == ascii_lowered(s@),
{
    s.to_lowercase()
}

/// The characters a sequence of UTF-16 code units decodes to, each unpaired
/// surrogate becoming U+FFFD (as `char::decode_utf16` pairs them).
pub open spec fn utf16_lossy(units: Seq<u16>) -> Seq<char>
    decreases units.len(),
{
    if units.len() == 0 {
        seq![]
    } else {
        let u = units[0];
        if u < 0xD800 || u > 0xDFFF {
            seq![u as char] + utf16_lossy(units.drop_first())
        } else if u <= 0xDBFF && units.len() >= 2 && 0xDC00 <= units[1] <= 0xDFFF {
            seq![(0x10000 + (u - 0xD800) * 0x400 + (units[1] - 0xDC00)) as char] + utf16_lossy(
                units.skip(2),
            )
        } else {
            seq!['\u{FFFD}'] + utf16_lossy(units.drop_first())
        }
    }
}

/// Trimming and replacing one ASCII character by another keep text ASCII.
pub proof fn lemma_ascii_kept(s: Seq<char>, t: Trim, from: char, to: char)
    requires
        all_ascii(s),
        (to as u32) < 128,
    ensures
        all_ascii(trim_start(s, t)),
        all_ascii(trim_end(s, t)),
        all_ascii(trim_both(s, t)),
        all_ascii(replace_char(s, from, to)),
{
    lemma_lead_count_bound(s, t);
    lemma_trail_count_bound(s, t);
    let a = trim_start(s, t);
    assert forall|i: int| 0 <= i < a.len() implies (#[trigger] a[i] as u32) < 128 by {
        assert(a[i] == s[i + lead_count(s, t)]);
    }
    assert forall|i: int| 0 <= i < trim_end(s, t).len() implies (#[trigger] trim_end(s, t)[i]
        as u32) < 128 by {
        assert(trim_end(s, t)[i] == s[i]);
    }
    lemma_trail_count_bound(a, t);
    assert forall|i: int| 0 <= i < trim_both(s, t).len() implies (#[trigger] trim_both(s, t)[i]
        as u32) < 128 by {
        assert(trim_both(s, t)[i] == a[i]);
    }
    let r = replace_char(s, from, to);
    assert forall|i: int| 0 <= i < r.len() implies (#[trigger] r[i] as u32) < 128 by {
        assert(r[i] == (if s[i] == from { to } else { s[i] }));
    }
}

/// Calls `String::from_utf16_lossy`. Trusted: the result is the UTF-16
/// decoding of the units with each unpaired surrogate replaced by U+FFFD.
#[verifier::external_body]
pub fn decode_utf16_lossy(units: &[u16]) -> (r: String)
    ensures
        r@ == utf16_lossy(units@),
{
    String::from_utf16_lossy(units)
}

/// Character-sequence equality of two strings.
pub fn same_text(a: &str, b: &str) -> (r: bool)
    ensures
        r == (a@ == b@),
{
    let x = chars_of(a);
    let y = chars_of(b);
    chars_equal(&x, &y)
}

/// Element-wise equality of two character vectors.
pub fn chars_equal(a: &Vec<char>, b: &Vec<char>) -> (r: bool)
    ensures
        r == (a@ == b@),
{
    if a.len() != b.len() {
        return false;
    }
    let mut i: usize = 0;
    while i < a.len()
        invariant
            a.len() == b.len(),
            i <= a.len(),
            forall|j: int| 0 <= j < i ==> a@[j] == b@[j],
        decreases a.len() - i,
    {
        if a[i] != b[i] {
            return false;
        }
        i = i + 1;
    }
    assert(a@ =~= b@);
    true
}

// ---------------------------------------------------------------------------
// Whitespace and trimming
// ---------------------------------------------------------------------------

/// Unicode `White_Space`, which is what `char::is_whitespace` tests.
pub open spec fn is_white(c: char) -> bool {
    let u = c as u32;
    ||| 0x09 <= u <= 0x0D
    ||| u == 0x20
    ||| u == 0x85
    ||| u == 0xA0
    ||| u == 0x1680
    ||| 0x2000 <= u <= 0x200A
    ||| u == 0x2028
    ||| u == 0x2029
    ||| u == 0x202F
    ||| u == 0x205F
    ||| u == 0x3000
}

/// `char::is_whitespace`.
pub fn is_whitespace(c: char) -> (r: bool)
    ensures
        r == is_white(c),
{
    let u = c as u32;
    (0x09 <= u && u <= 0x0D) || u == 0x20 || u == 0x85 || u == 0xA0 || u == 0x1680 || (0x2000
        <= u && u <= 0x200A) || u == 0x2028 || u == 0x2029 || u == 0x202F || u == 0x205F || u
        == 0x3000
}

/// Which characters a trim removes.
#[derive(Clone, Copy)]
pub enum Trim {
    /// Unicode whitespace, as `str::trim` removes.
    Whitespace,
    /// One specific character, as `str::trim_matches(c)` removes.
    Exactly(char),
}

/// Whether `t` removes `c`.
pub open spec fn trims(t: Trim, c: char) -> bool {
    match t {
        Trim::Whitespace => is_white(c),
        Trim::Exactly(x) => c == x,
    }
}

/// Whether `t` removes `c`.
pub fn trims_char(t: Trim, c: char) -> (r: bool)
    ensures
        r == trims(t, c),
{
    match t {
        Trim::Whitespace => is_whitespace(c),
        Trim::Exactly(x) => c == x,
    }
}

/// Number of leading characters of `s` that `t` removes.
pub open spec fn lead_count(s: Seq<char>, t: Trim) -> nat
    decreases s.len(),
{
    if s.len() > 0 && trims(t, s[0]) {
        1 + lead_count(s.drop_first(), t)
    } else {
        0
    }
}

/// Number of trailing characters of `s` that `t` removes.
pub open spec fn trail_count(s: Seq<char>, t: Trim) -> nat
    decreases s.len(),
{
    if s.len() > 0 && trims(t, s.last()) {
        1 + trail_count(s.drop_last(), t)
    } else {
        0
    }
}

/// `str::trim_start_matches`: `s` without its removable prefix.
pub open spec fn trim_start(s: Seq<char>, t: Trim) -> Seq<char> {
    s.skip(lead_count(s, t) as int)
}

/// `str::trim_end_matches`: `s` without its removable suffix.
pub open spec fn trim_end(s: Seq<char>, t: Trim) -> Seq<char> {
    s.take(s.len() - trail_count(s, t))
}

/// `str::trim` / `str::trim_matches`: both ends removed.
pub open spec fn trim_both(s: Seq<char>, t: Trim) -> Seq<char> {
    trim_end(trim_start(s, t), t)
}

pub proof fn lemma_lead_count_bound(s: Seq<char>, t: Trim)
    ensures
        lead_count(s, t) <= s.len(),
        forall|j: int| 0 <= j < lead_count(s, t) ==> trims(t, #[trigger] s[j]),
        lead_count(s, t) < s.len() ==> !trims(t, s[lead_count(s, t) as int]),
    decreases s.len(),
{
    if s.len() > 0 && trims(t, s[0]) {
        lemma_lead_count_bound(s.drop_first(), t);
        assert forall|j: int| 0 <= j < lead_count(s, t) implies trims(t, #[trigger] s[j]) by {
            if j > 0 {
                assert(s[j] == s.drop_first()[j - 1]);
            }
        }
    }
}

pub proof fn lemma_trail_count_bound(s: Seq<char>, t: Trim)
    ensures
        trail_count(s, t) <= s.len(),
        forall|j: int|
            s.len() - trail_count(s, t) <= j < s.len() ==> trims(t, #[trigger] s[j]),
        trail_count(s, t) < s.len() ==> !trims(t, s[s.len() - trail_count(s, t) - 1]),
    decreases s.len(),
{
    if s.len() > 0 && trims(t, s.last()) {
        lemma_trail_count_bound(s.drop_last(), t);
        assert forall|j: int|
            s.len() - trail_count(s, t) <= j < s.len() implies trims(t, #[trigger] s[j]) by {
            if j < s.len() - 1 {
                assert(s[j] == s.drop_last()[j]);
            }
        }
    }
}

/// The lead count is the first index whose character is kept.
proof fn lemma_lead_count_is_first_kept(s: Seq<char>, t: Trim, i: int)
    requires
        0 <= i <= s.len(),
        forall|j: int| 0 <= j < i ==> trims(t, #[trigger] s[j]),
        i == s.len() || !trims(t, s[i]),
    ensures
        lead_count(s, t) == i,
    decreases s.len(),
{
    if s.len() > 0 && trims(t, s[0]) {
        assert(i > 0);
        assert forall|j: int| 0 <= j < i - 1 implies trims(t, #[trigger] s.drop_first()[j]) by {
            assert(s.drop_first()[j] == s[j + 1]);
        }
        lemma_lead_count_is_first_kept(s.drop_first(), t, i - 1);
    }
}

/// The trail count is the number of removable characters after the last kept
/// one.
proof fn lemma_trail_count_is_last_kept(s: Seq<char>, t: Trim, e: int)
    requires
        0 <= e <= s.len(),
        forall|j: int| e <= j < s.len() ==> trims(t, #[trigger] s[j]),
        e == 0 || !trims(t, s[e - 1]),
    ensures
        trail_count(s, t) == s.len() - e,
    decreases s.len(),
{
    if s.len() > 0 && trims(t, s.last()) {
        assert(e < s.len());
        assert forall|j: int| e <= j < s.drop_last().len() implies trims(
            t,
            #[trigger] s.drop_last()[j],
        ) by {
            assert(s.drop_last()[j] == s[j]);
        }
        lemma_trail_count_is_last_kept(s.drop_last(), t, e);
    }
}

/// Index of the first character of `s` that `t` keeps (or `s.len()`).
pub fn lead_len(s: &Vec<char>, t: Trim) -> (n: usize)
    ensures
        n == lead_count(s@, t),
{
    let mut i: usize = 0;
    while i < s.len() && trims_char(t, s[i])
        invariant
            i <= s.len(),
            forall|j: int| 0 <= j < i ==> trims(t, #[trigger] s@[j]),
        decreases s.len() - i,
    {
        i = i + 1;
    }
    proof {
        lemma_lead_count_is_first_kept(s@, t, i as int);
    }
    i
}

/// Length of `s` once its removable suffix is dropped.
pub fn kept_len(s: &Vec<char>, t: Trim) -> (n: usize)
    ensures
        n == s.len() - trail_count(s@, t),
{
    let mut e: usize = s.len();
    while e > 0 && trims_char(t, s[e - 1])
        invariant
            e <= s.len(),
            forall|j: int| e <= j < s.len() ==> trims(t, #[trigger] s@[j]),
        decreases e,
    {
        e = e - 1;
    }
    proof {
        lemma_trail_count_is_last_kept(s@, t, e as int);
    }
    e
}

/// The characters of `s[from..to]`.
pub fn slice_chars(s: &Vec<char>, from: usize, to: usize) -> (r: Vec<char>)
    requires
        from <= to <= s.len(),
    ensures
        r@ == s@.subrange(from as int, to as int),
{
    let mut r: Vec<char> = Vec::new();
    let mut i = from;
    while i < to
        invariant
            from <= i <= to <= s.len(),
            r@ == s@.subrange(from as int, i as int),
        decreases to - i,
    {
        r.push(s[i]);
        i = i + 1;
        assert(r@ =~= s@.subrange(from as int, i as int));
    }
    r
}

/// `trim_start` on a character vector.
pub fn trimmed_start(s: &Vec<char>, t: Trim) -> (r: Vec<char>)
    ensures
        r@ == trim_start(s@, t),
{
    let n = lead_len(s, t);
    proof {
        lemma_lead_count_bound(s@, t);
    }
    let r = slice_chars(s, n, s.len());
    assert(r@ =~= trim_start(s@, t));
    r
}

/// `trim_end` on a character vector.
pub fn trimmed_end(s: &Vec<char>, t: Trim) -> (r: Vec<char>)
    ensures
        r@ == trim_end(s@, t),
{
    proof {
        lemma_trail_count_bound(s@, t);
    }
    let e = kept_len(s, t);
    let r = slice_chars(s, 0, e);
    assert(r@ =~= trim_end(s@, t));
    r
}

/// `trim_both` on a character vector.
pub fn trimmed(s: &Vec<char>, t: Trim) -> (r: Vec<char>)
    ensures
        r@ == trim_both(s@, t),
{
    let a = trimmed_start(s, t);
    trimmed_end(&a, t)
}

// ---------------------------------------------------------------------------
// Replacement, search, ASCII case
// ---------------------------------------------------------------------------

/// `str::replace` of one character by another.
pub open spec fn replace_char(s: Seq<char>, from: char, to: char) -> Seq<char> {
    s.map_values(|c: char| if c == from { to } else { c })
}

/// `replace_char` on a character vector.
pub fn replaced(s: &Vec<char>, from: char, to: char) -> (r: Vec<char>)
    ensures
        r@ == replace_char(s@, from, to),
{
    let mut r: Vec<char> = Vec::new();
    let mut i: usize = 0;
    while i < s.len()
        invariant
            i <= s.len(),
            r@ == replace_char(s@.take(i as int), from, to),
        decreases s.len() - i,
    {
        let c = s[i];
        r.push(if c == from { to } else { c });
        i = i + 1;
        assert(r@ =~= replace_char(s@.take(i as int), from, to));
    }
    assert(s@.take(s.len() as int) =~= s@);
    r
}

/// Index of the first `c` in `s`, or -1 when there is none (`str::find`).
pub open spec fn char_index(s: Seq<char>, c: char) -> int
    decreases s.len(),
{
    if s.len() == 0 {
        -1
    } else if s[0] == c {
        0
    } else {
        let r = char_index(s.drop_first(), c);
        if r < 0 {
            -1
        } else {
            r + 1
        }
    }
}

/// `char_index` is the first occurrence, and -1 means none.
pub proof fn lemma_char_index(s: Seq<char>, c: char)
    ensures
        -1 <= char_index(s, c) < s.len(),
        char_index(s, c) >= 0 ==> s[char_index(s, c)] == c,
        forall|j: int| 0 <= j < s.len() && (char_index(s, c) < 0 || j < char_index(s, c)) ==> #[trigger] s[j] != c,
    decreases s.len(),
{
    if s.len() > 0 && s[0] != c {
        lemma_char_index(s.drop_first(), c);
        assert forall|j: int| 0 <= j < s.len() && (char_index(s, c) < 0 || j < char_index(s, c)) implies #[trigger] s[j] != c by {
            if j > 0 {
                assert(s[j] == s.drop_first()[j - 1]);
            }
        }
    }
}

proof fn lemma_char_index_at(s: Seq<char>, c: char, i: int)
    requires
        -1 <= i < s.len(),
        i >= 0 ==> s[i] == c,
        forall|j: int| 0 <= j < s.len() && (i < 0 || j < i) ==> #[trigger] s[j] != c,
    ensures
        char_index(s, c) == i,
    decreases s.len(),
{
    if s.len() > 0 && s[0] != c {
        assert forall|j: int| 0 <= j < s.drop_first().len() && (i - 1 < 0 || j < i - 1) implies #[trigger] s.drop_first()[j] != c by {
            assert(s.drop_first()[j] == s[j + 1]);
        }
        if i >= 0 {
            lemma_char_index_at(s.drop_first(), c, i - 1);
        } else {
            lemma_char_index_at(s.drop_first(), c, -1);
        }
    }
}

/// The first `c` in `s` at or after `from`.
pub fn find_char(s: &Vec<char>, from: usize, c: char) -> (r: Option<usize>)
    requires
        from <= s.len(),
    ensures
        r is None <==> char_index(s@.skip(from as int), c) < 0,
        r matches Some(i) ==> i == from + char_index(s@.skip(from as int), c),
        match r {
            Some(i) => from <= i < s.len() && s@[i as int] == c && forall|j: int|
                from <= j < i ==> s@[j] != c,
            None => forall|j: int| from <= j < s.len() ==> s@[j] != c,
        },
{
    let mut i = from;
    while i < s.len()
        invariant
            from <= i <= s.len(),
            forall|j: int| from <= j < i ==> s@[j] != c,
        decreases s.len() - i,
    {
        if s[i] == c {
            proof {
                let t = s@.skip(from as int);
                assert forall|j: int| 0 <= j < t.len() && j < i - from implies #[trigger] t[j] != c by {
                    assert(t[j] == s@[from + j]);
                }
                lemma_char_index_at(t, c, i - from);
            }
            return Some(i);
        }
        i = i + 1;
    }
    proof {
        let t = s@.skip(from as int);
        assert forall|j: int| 0 <= j < t.len() implies #[trigger] t[j] != c by {
            assert(t[j] == s@[from + j]);
        }
        lemma_char_index_at(t, c, -1);
    }
    None
}

/// Index of the first whitespace character of `s`, or -1 when there is none.
pub open spec fn white_index(s: Seq<char>) -> int
    decreases s.len(),
{
    if s.len() == 0 {
        -1
    } else if is_white(s[0]) {
        0
    } else {
        let r = white_index(s.drop_first());
        if r < 0 {
            -1
        } else {
            r + 1
        }
    }
}

proof fn lemma_white_index_at(s: Seq<char>, i: int)
    requires
        -1 <= i < s.len(),
        i >= 0 ==> is_white(s[i]),
        forall|j: int| 0 <= j < s.len() && (i < 0 || j < i) ==> !is_white(#[trigger] s[j]),
    ensures
        white_index(s) == i,
    decreases s.len(),
{
    if s.len() > 0 && !is_white(s[0]) {
        assert forall|j: int| 0 <= j < s.drop_first().len() && (i - 1 < 0 || j < i - 1) implies !is_white(#[trigger] s.drop_first()[j]) by {
            assert(s.drop_first()[j] == s[j + 1]);
        }
        if i >= 0 {
            lemma_white_index_at(s.drop_first(), i - 1);
        } else {
            lemma_white_index_at(s.drop_first(), -1);
        }
    }
}

/// The first whitespace character of `s`.
pub fn find_white(s: &Vec<char>) -> (r: Option<usize>)
    ensures
        r is None <==> white_index(s@) < 0,
        r matches Some(i) ==> i == white_index(s@) && i < s.len(),
{
    let mut i: usize = 0;
    while i < s.len()
        invariant
            i <= s.len(),
            forall|j: int| 0 <= j < i ==> !is_white(#[trigger] s@[j]),
        decreases s.len() - i,
    {
        if is_whitespace(s[i]) {
            proof {
                lemma_white_index_at(s@, i as int);
            }
            return Some(i);
        }
        i = i + 1;
    }
    proof {
        lemma_white_index_at(s@, -1);
    }
    None
}

/// Index of the first occurrence of `pat` in `s`, or -1 when there is none.
pub open spec fn sub_index(s: Seq<char>, pat: Seq<char>) -> int
    decreases s.len(),
{
    if s.len() < pat.len() {
        -1
    } else if s.take(pat.len() as int) == pat {
        0
    } else if s.len() == 0 {
        -1
    } else {
        let r = sub_index(s.drop_first(), pat);
        if r < 0 {
            -1
        } else {
            r + 1
        }
    }
}

/// Whether `pat` occurs in `s` at `i`.
pub open spec fn occurs_at(s: Seq<char>, pat: Seq<char>, i: int) -> bool {
    0 <= i && i + pat.len() <= s.len() && s.subrange(i, i + pat.len()) == pat
}

proof fn lemma_sub_index_at(s: Seq<char>, pat: Seq<char>, i: int)
    requires
        -1 <= i,
        i >= 0 ==> occurs_at(s, pat, i),
        forall|j: int| 0 <= j && (i < 0 || j < i) ==> !#[trigger] occurs_at(s, pat, j),
    ensures
        sub_index(s, pat) == i,
    decreases s.len(),
{
    if s.len() < pat.len() {
        if i >= 0 {
            assert(false);
        }
    } else if s.take(pat.len() as int) == pat {
        assert(s.subrange(0, pat.len() as int) =~= s.take(pat.len() as int));
        assert(occurs_at(s, pat, 0));
        if i != 0 {
            assert(!occurs_at(s, pat, 0));
        }
    } else if s.len() == 0 {
        assert(pat.len() == 0);
        assert(s.take(0) =~= pat);
    } else {
        assert(s.subrange(0, pat.len() as int) =~= s.take(pat.len() as int));
        assert(!occurs_at(s, pat, 0));
        let t = s.drop_first();
        assert forall|j: int| 0 <= j && (i - 1 < 0 || j < i - 1) implies !#[trigger] occurs_at(t, pat, j) by {
            if occurs_at(t, pat, j) {
                assert(s.subrange(j + 1, j + 1 + pat.len()) =~= t.subrange(j, j + pat.len()));
                assert(occurs_at(s, pat, j + 1));
            }
        }
        if i >= 0 {
            assert(i > 0);
            assert(t.subrange(i - 1, i - 1 + pat.len()) =~= s.subrange(i, i + pat.len()));
            lemma_sub_index_at(t, pat, i - 1);
        } else {
            lemma_sub_index_at(t, pat, -1);
        }
    }
}

fn occurs_here(s: &Vec<char>, pat: &Vec<char>, i: usize) -> (r: bool)
    requires
        i + pat.len() <= s.len(),
    ensures
        r == occurs_at(s@, pat@, i as int),
{
    let mut k: usize = 0;
    while k < pat.len()
        invariant
            k <= pat.len(),
            i + pat.len() <= s.len(),
            forall|q: int| 0 <= q < k ==> s@[i + q] == pat@[q],
        decreases pat.len() - k,
    {
        if s[i + k] != pat[k] {
            assert(s@.subrange(i as int, i + pat.len())[k as int] != pat@[k as int]);
            return false;
        }
        k = k + 1;
    }
    assert(s@.subrange(i as int, i + pat.len()) =~= pat@);
    true
}

/// The first occurrence of `pat` in `s` (`str::find` with a string pattern).
pub fn find_sub(s: &Vec<char>, pat: &Vec<char>) -> (r: Option<usize>)
    ensures
        r is None <==> sub_index(s@, pat@) < 0,
        r matches Some(i) ==> i == sub_index(s@, pat@) && occurs_at(s@, pat@, i as int),
{
    if pat.len() > s.len() {
        proof {
            lemma_sub_index_at(s@, pat@, -1);
        }
        return None;
    }
    if pat.len() == 0 {
        proof {
            assert(s@.subrange(0, 0) =~= pat@);
            lemma_sub_index_at(s@, pat@, 0);
        }
        return Some(0);
    }
    let mut i: usize = 0;
    while i <= s.len() - pat.len()
        invariant
            1 <= pat.len() <= s.len(),
            i <= s.len() - pat.len() + 1,
            forall|j: int| 0 <= j < i ==> !#[trigger] occurs_at(s@, pat@, j),
        decreases s.len() + 1 - i,
    {
        if occurs_here(s, pat, i) {
            proof {
                lemma_sub_index_at(s@, pat@, i as int);
            }
            return Some(i);
        }
        i = i + 1;
    }
    proof {
        lemma_sub_index_at(s@, pat@, -1);
    }
    None
}

/// ASCII lowercase of one character (`char::to_ascii_lowercase`).
pub open spec fn ascii_lower(c: char) -> char {
    if 'A' <= c <= 'Z' {
        ((c as u32) + 32) as char
    } else {
        c
    }
}

/// `char::to_ascii_lowercase`.
pub fn to_ascii_lower(c: char) -> (r: char)
    ensures
        r == ascii_lower(c),
{
    if 'A' <= c && c <= 'Z' {
        let b = (c as u8) + 32;
        assert(b as char == ((c as u32) + 32) as char);
        b as char
    } else {
        c
    }
}

/// `str::to_ascii_lowercase` on a character sequence.
pub open spec fn ascii_lowered(s: Seq<char>) -> Seq<char> {
    s.map_values(|c: char| ascii_lower(c))
}

/// ASCII-lowercased copy of a character vector.
pub fn ascii_lowercase_chars(s: &Vec<char>) -> (r: Vec<char>)
    ensures
        r@ == ascii_lowered(s@),
{
    let mut r: Vec<char> = Vec::new();
    let mut i: usize = 0;
    while i < s.len()
        invariant
            i <= s.len(),
            r@ == ascii_lowered(s@.take(i as int)),
        decreases s.len() - i,
    {
        r.push(to_ascii_lower(s[i]));
        i = i + 1;
        assert(r@ =~= ascii_lowered(s@.take(i as int)));
    }
    assert(s@.take(s.len() as int) =~= s@);
    r
}

// ---------------------------------------------------------------------------
// Decimal numbers
// ---------------------------------------------------------------------------

/// The decimal digit character for `d < 10`.
pub open spec fn digit_char(d: nat) -> char {
    ((d + 48) as u32) as char
}

/// Decimal rendering of a natural number, as `Display` prints an unsigned
/// integer.
pub open spec fn decimal(n: nat) -> Seq<char>
    decreases n,
{
    if n < 10 {
        seq![digit_char(n)]
    } else {
        decimal(n / 10).push(digit_char(n % 10))
    }
}

/// One decimal digit as a character.
fn digit(d: u64) -> (c: char)
    requires
        d < 10,
    ensures
        c == digit_char(d as nat),
{
    let b = (d as u8) + 48;
    assert(b as char == (((d as nat) + 48) as u32) as char);
    b as char
}

/// The decimal rendering of `n`, as a character vector.
pub fn decimal_chars(n: u64) -> (r: Vec<char>)
    ensures
        r@ == decimal(n as nat),
    decreases n,
{
    if n < 10 {
        let mut r = Vec::new();
        r.push(digit(n));
        assert(r@ =~= decimal(n as nat));
        r
    } else {
        let mut r = decimal_chars(n / 10);
        r.push(digit(n % 10));
        r
    }
}

/// The decimal rendering of `n` (`n.to_string()`).
pub fn decimal_string(n: u64) -> (r: String)
    ensures
        r@ == decimal(n as nat),
{
    let v = decimal_chars(n);
    string_from_chars(v.as_slice())
}

/// Whether `c` is an ASCII decimal digit.
pub open spec fn is_digit(c: char) -> bool {
    '0' <= c <= '9'
}

/// Value of a run of decimal digits.
pub open spec fn digits_value(s: Seq<char>) -> nat
    decreases s.len(),
{
    if s.len() == 0 {
        0
    } else {
        digits_value(s.drop_last()) * 10 + ((s.last() as u32) - 48) as nat
    }
}

/// The digits part of an unsigned number: `s` without one leading `+`.
pub open spec fn unsigned_digits(s: Seq<char>) -> Seq<char> {
    if s.len() > 0 && s[0] == '+' {
        s.drop_first()
    } else {
        s
    }
}

/// Every character of `s` is an ASCII digit.
pub open spec fn all_digits(s: Seq<char>) -> bool {
    forall|i: int| 0 <= i < s.len() ==> is_digit(#[trigger] s[i])
}

/// `u32::from_str`: an optional `+`, then one or more ASCII digits whose value
/// fits in 32 bits.
pub open spec fn parse_u32(s: Seq<char>) -> Option<u32> {
    let d = unsigned_digits(s);
    if d.len() > 0 && all_digits(d) && digits_value(d) <= u32::MAX {
        Some(digits_value(d) as u32)
    } else {
        None
    }
}

proof fn lemma_digits_value_grows(s: Seq<char>, n: int)
    requires
        0 <= n < s.len(),
        forall|i: int| 0 <= i < s.len() ==> is_digit(#[trigger] s[i]),
    ensures
        digits_value(s.take(n)) <= digits_value(s.take(n + 1)),
{
    assert(s.take(n + 1).drop_last() =~= s.take(n));
    assert(s.take(n + 1).last() == s[n]);
}

proof fn lemma_digits_value_prefix(s: Seq<char>, n: int)
    requires
        0 <= n <= s.len(),
        forall|i: int| 0 <= i < s.len() ==> is_digit(#[trigger] s[i]),
    ensures
        digits_value(s.take(n)) <= digits_value(s),
    decreases s.len() - n,
{
    if n < s.len() {
        lemma_digits_value_grows(s, n);
        lemma_digits_value_prefix(s, n + 1);
    } else {
        assert(s.take(n) =~= s);
    }
}

proof fn lemma_parse_rejects(s: Seq<char>, d: Seq<char>)
    requires
        d == unsigned_digits(s),
        !all_digits(d) || digits_value(d) > u32::MAX,
    ensures
        parse_u32(s) is None,
{
}

/// `s.parse::<u32>().ok()`.
pub fn parse_u32_chars(s: &Vec<char>) -> (r: Option<u32>)
    ensures
        r == parse_u32(s@),
{
    let start: usize = if s.len() > 0 && s[0] == '+' {
        1
    } else {
        0
    };
    let ghost d = unsigned_digits(s@);
    assert(d =~= s@.skip(start as int));
    if start == s.len() {
        return None;
    }
    let mut value: u64 = 0;
    let mut i = start;
    while i < s.len()
        invariant
            start <= i <= s.len(),
            d =~= s@.skip(start as int),
            d == unsigned_digits(s@),
            forall|j: int| 0 <= j < i - start ==> is_digit(#[trigger] d[j]),
            value == digits_value(d.take(i - start)),
            value <= u32::MAX,
        decreases s.len() - i,
    {
        let c = s[i];
        if !('0' <= c && c <= '9') {
            proof {
                let j = i - start;
                assert(d[j] == c);
                assert(!is_digit(d[j]));
                assert(!(forall|q: int| 0 <= q < d.len() ==> is_digit(#[trigger] d[q])));
                lemma_parse_rejects(s@, d);
            }
            return None;
        }
        let ghost k = i - start;
        assert(d.take(k + 1).drop_last() =~= d.take(k));
        assert(d.take(k + 1).last() == c);
        let dv = (c as u32 - 48) as u64;
        if value > (u32::MAX as u64 - dv) / 10 {
            proof {
                assert(digits_value(d.take(k + 1)) == value * 10 + dv);
                assert(value * 10 + dv > u32::MAX) by (nonlinear_arith)
                    requires
                        value > (u32::MAX - dv) / 10,
                        dv < 10,
                ;
                // every longer prefix is at least as large
                if all_digits(d) {
                    lemma_digits_value_prefix(d, k + 1);
                    assert(digits_value(d) > u32::MAX);
                }
                lemma_parse_rejects(s@, d);
            }
            return None;
        }
        assert(value * 10 + dv <= u32::MAX) by (nonlinear_arith)
            requires
                value <= (u32::MAX - dv) / 10,
                dv < 10,
        ;
        value = value * 10 + dv;
        i = i + 1;
    }
    assert(d.take(d.len() as int) =~= d);
    Some(value as u32)
}

/// Appends every character of `src` to `dst`.
pub fn push_all(dst: &mut Vec<char>, src: &Vec<char>)
    ensures
        final(dst)@ == old(dst)@ + src@,
{
    let mut i: usize = 0;
    while i < src.len()
        invariant
            i <= src.len(),
            dst@ == old(dst)@ + src@.take(i as int),
        decreases src.len() - i,
    {
        dst.push(src[i]);
        i = i + 1;
        assert(dst@ =~= old(dst)@ + src@.take(i as int));
    }
    assert(src@.take(src.len() as int) =~= src@);
}

/// Whether `s` begins with `prefix`.
pub open spec fn starts_with(s: Seq<char>, prefix: Seq<char>) -> bool {
    prefix.len() <= s.len() && s.take(prefix.len() as int) == prefix
}

/// Whether `s` begins with `prefix`.
pub fn has_prefix(s: &Vec<char>, prefix: &Vec<char>) -> (r: bool)
    ensures
        r == starts_with(s@, prefix@),
{
    if prefix.len() > s.len() {
        return false;
    }
    let mut i: usize = 0;
    while i < prefix.len()
        invariant
            prefix.len() <= s.len(),
            i <= prefix.len(),
            forall|j: int| 0 <= j < i ==> s@[j] == prefix@[j],
        decreases prefix.len() - i,
    {
        if s[i] != prefix[i] {
            assert(s@.take(prefix.len() as int)[i as int] != prefix@[i as int]);
            return false;
        }
        i = i + 1;
    }
    assert(s@.take(prefix.len() as int) =~= prefix@);
    true
}

/// The concatenation of two strings.
pub fn concatenated(a: &str, b: &str) -> (r: String)
    ensures
        r@ == a@ + b@,
{
    let mut v = chars_of(a);
    let w = chars_of(b);
    push_all(&mut v, &w);
    string_from_chars(v.as_slice())
}

/// `n` in decimal, with leading zeros up to `width` digits (as `{:0width$}`
/// prints an unsigned integer).
pub open spec fn zero_padded(n: nat, width: nat) -> Seq<char> {
    if decimal(n).len() < width {
        Seq::new((width - decimal(n).len()) as nat, |i: int| '0') + decimal(n)
    } else {
        decimal(n)
    }
}

/// Appends `n` in decimal with leading zeros up to `width` digits.
pub fn push_zero_padded(dst: &mut Vec<char>, n: u64, width: usize)
    ensures
        final(dst)@ == old(dst)@ + zero_padded(n as nat, width as nat),
{
    let digits = decimal_chars(n);
    let ghost start = dst@;
    if digits.len() < width {
        let pad = width - digits.len();
        let mut k: usize = 0;
        while k < pad
            invariant
                k <= pad,
                dst@ == start + Seq::new(k as nat, |i: int| '0'),
            decreases pad - k,
        {
            dst.push('0');
            k = k + 1;
            assert(dst@ =~= start + Seq::new(k as nat, |i: int| '0'));
        }
    }
    push_all(dst, &digits);
    assert(dst@ =~= start + zero_padded(n as nat, width as nat));
}

// ---------------------------------------------------------------------------
// UTF-16
// ---------------------------------------------------------------------------

/// The UTF-16 code units of one character.
pub open spec fn utf16_units(c: char) -> Seq<u16> {
    let v = c as u32;
    if v < 0x10000 {
        seq![v as u16]
    } else {
        seq![(0xD800 + (v - 0x10000) / 1024) as u16, (0xDC00 + (v - 0x10000) % 1024) as u16]
    }
}

/// The UTF-16 encoding of a character sequence.
pub open spec fn utf16_of(s: Seq<char>) -> Seq<u16>
    decreases s.len(),
{
    if s.len() == 0 {
        Seq::empty()
    } else {
        utf16_of(s.drop_last()) + utf16_units(s.last())
    }
}

/// The UTF-16 encoding of a string followed by a terminating zero, as the
/// wide-string arguments of the Windows API take it.
pub fn wide(value: &str) -> (r: Vec<u16>)
    ensures
        r@ == utf16_of(value@).push(0),
{
    let chars = chars_of(value);
    let mut r: Vec<u16> = Vec::new();
    let mut i: usize = 0;
    while i < chars.len()
        invariant
            i <= chars.len(),
            r@ == utf16_of(chars@.take(i as int)),
        decreases chars.len() - i,
    {
        let c = chars[i];
        let v = c as u32;
        proof {
            assert(chars@.take(i + 1).drop_last() =~= chars@.take(i as int));
            assert(chars@.take(i + 1).last() == c);
        }
        if v < 0x10000 {
            r.push(v as u16);
        } else {
            let w = v - 0x10000;
            r.push((0xD800 + w / 1024) as u16);
            r.push((0xDC00 + w % 1024) as u16);
        }
        i = i + 1;
        assert(r@ =~= utf16_of(chars@.take(i as int)));
    }
    assert(chars@.take(chars.len() as int) =~= chars@);
    r.push(0);
    r
}

} // verus!
