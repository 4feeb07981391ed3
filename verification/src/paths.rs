//! Path normalization, `%VARIABLE%` expansion, and the executable named by a
//! command line or a service image path.
//!
//! Every comparison of executables in this crate goes through
//! `normalize_path`, so a path recorded in the snapshot, an allowance, a
//! startup entry and a running process all meet in the same form.

use crate::text::{
    all_ascii, ascii_lower, lead_count, lemma_ascii_kept, lemma_lead_count_bound, lemma_trail_count_bound,
    trail_count, trims,
    ascii_lowercase_chars, ascii_lowered, char_index, chars_of, decode_utf16_lossy, find_char,
    find_sub, find_white, has_prefix, is_white, is_whitespace, lemma_char_index, lowercase,
    push_all, replace_char, replaced, slice_chars, starts_with, string_from_chars, sub_index,
    to_lowercase, trim_both, trim_end, trim_start, trimmed, trimmed_end, trimmed_start,
    utf16_lossy, white_index, Trim,
};
use vstd::prelude::*;

verus! {

/// A path trimmed of whitespace and then of quotes, forward slashes turned
/// into backslashes, trailing backslashes removed.
pub open spec fn path_before_case(p: Seq<char>) -> Seq<char> {
    trim_end(
        replace_char(
            trim_both(trim_both(p, Trim::Whitespace), Trim::Exactly('"')),
            '/',
            '\\',
        ),
        Trim::Exactly('\\'),
    )
}

/// The comparison form of a path: `path_before_case`, lowercased.
pub open spec fn normalized_path(p: Seq<char>) -> Seq<char> {
    lowercase(path_before_case(p))
}

/// `normalized_path` of a character vector; on ASCII text the lowercasing
/// is ASCII lowercasing.
pub fn normalize_chars(p: &Vec<char>) -> (r: String)
    ensures
        r@ == normalized_path(p@),
        all_ascii(p@) ==> r@ == ascii_normalized(p@),
{
    let a = trimmed(p, Trim::Whitespace);
    let b = trimmed(&a, Trim::Exactly('"'));
    let c = replaced(&b, '/', '\\');
    let d = trimmed_end(&c, Trim::Exactly('\\'));
    proof {
        if all_ascii(p@) {
            lemma_ascii_kept(p@, Trim::Whitespace, '/', '\\');
            lemma_ascii_kept(a@, Trim::Exactly('"'), '/', '\\');
            lemma_ascii_kept(b@, Trim::Exactly('"'), '/', '\\');
            lemma_ascii_kept(c@, Trim::Exactly('\\'), '/', '\\');
        }
    }
    let joined = string_from_chars(d.as_slice());
    to_lowercase(joined.as_str())
}

/// The comparison form of a path (see `normalized_path`); on ASCII text the
/// lowercasing is ASCII lowercasing.
pub fn normalize_path(path: &str) -> (r: String)
    ensures
        r@ == normalized_path(path@),
        all_ascii(path@) ==> r@ == ascii_normalized(path@),
{
    let p = chars_of(path);
    normalize_chars(&p)
}

/// The comparison form of a path on ASCII text, where lowercasing is ASCII
/// lowercasing (see `normalize_path`).
pub open spec fn ascii_normalized(p: Seq<char>) -> Seq<char> {
    ascii_lowered(path_before_case(p))
}

/// `char::to_ascii_uppercase`.
pub open spec fn ascii_upper(c: char) -> char {
    if 'a' <= c <= 'z' {
        ((c as u32) - 32) as char
    } else {
        c
    }
}

/// Every ASCII letter uppercased.
pub open spec fn ascii_uppered(s: Seq<char>) -> Seq<char> {
    s.map_values(|c: char| ascii_upper(c))
}

proof fn lemma_counts_mapped(s: Seq<char>, t: Trim, f: spec_fn(char) -> char)
    requires
        forall|c: char| trims(t, #[trigger] f(c)) == trims(t, c),
    ensures
        lead_count(s.map_values(f), t) == lead_count(s, t),
        trail_count(s.map_values(f), t) == trail_count(s, t),
    decreases s.len(),
{
    let m = s.map_values(f);
    if s.len() > 0 {
        assert(m[0] == f(s[0]));
        assert(m.last() == f(s.last()));
        lemma_counts_mapped(s.drop_first(), t, f);
        lemma_counts_mapped(s.drop_last(), t, f);
        assert(m.drop_first() =~= s.drop_first().map_values(f));
        assert(m.drop_last() =~= s.drop_last().map_values(f));
    }
}

/// Trimming characters that a character mapping neither creates nor removes
/// commutes with that mapping.
proof fn lemma_trim_mapped(s: Seq<char>, t: Trim, f: spec_fn(char) -> char)
    requires
        forall|c: char| trims(t, #[trigger] f(c)) == trims(t, c),
    ensures
        trim_start(s.map_values(f), t) == trim_start(s, t).map_values(f),
        trim_end(s.map_values(f), t) == trim_end(s, t).map_values(f),
        trim_both(s.map_values(f), t) == trim_both(s, t).map_values(f),
{
    lemma_counts_mapped(s, t, f);
    lemma_lead_count_bound(s, t);
    lemma_trail_count_bound(s, t);
    assert(trim_start(s.map_values(f), t) =~= trim_start(s, t).map_values(f));
    assert(trim_end(s.map_values(f), t) =~= trim_end(s, t).map_values(f));
    let a = trim_start(s, t);
    lemma_counts_mapped(a, t, f);
    lemma_trail_count_bound(a, t);
    assert(trim_end(a.map_values(f), t) =~= trim_end(a, t).map_values(f));
}

/// The comparison form of a path does not depend on which separator it
/// uses, and on ASCII text not on letter case either; it never contains a
/// forward slash or ends in a backslash.
pub proof fn lemma_path_form(p: Seq<char>)
    ensures
        normalized_path(replace_char(p, '\\', '/')) == normalized_path(p),
        ascii_normalized(replace_char(p, '\\', '/')) == ascii_normalized(p),
        ascii_normalized(ascii_uppered(p)) == ascii_normalized(p),
        !ascii_normalized(p).contains('/'),
        ascii_normalized(p).len() > 0 ==> ascii_normalized(p).last() != '\\',
{
    let ws = Trim::Whitespace;
    let qt = Trim::Exactly('"');
    let bs = Trim::Exactly('\\');
    // Separators.
    let f1 = |c: char| if c == '\\' { '/' } else { c };
    assert(replace_char(p, '\\', '/') == p.map_values(f1));
    assert forall|c: char| trims(ws, #[trigger] f1(c)) == trims(ws, c) by {}
    assert forall|c: char| trims(qt, #[trigger] f1(c)) == trims(qt, c) by {}
    lemma_trim_mapped(p, ws, f1);
    let a = trim_both(p, ws);
    lemma_trim_mapped(a, qt, f1);
    let b = trim_both(a, qt);
    assert(replace_char(b.map_values(f1), '/', '\\') =~= replace_char(b, '/', '\\'));
    assert(path_before_case(replace_char(p, '\\', '/')) == path_before_case(p));
    // Letter case.
    let f2 = |c: char| ascii_upper(c);
    assert(ascii_uppered(p) == p.map_values(f2));
    assert forall|c: char| trims(ws, #[trigger] f2(c)) == trims(ws, c) by {}
    assert forall|c: char| trims(qt, #[trigger] f2(c)) == trims(qt, c) by {}
    assert forall|c: char| trims(bs, #[trigger] f2(c)) == trims(bs, c) by {}
    lemma_trim_mapped(p, ws, f2);
    lemma_trim_mapped(a, qt, f2);
    let r = replace_char(b, '/', '\\');
    assert(replace_char(b.map_values(f2), '/', '\\') =~= r.map_values(f2));
    lemma_trim_mapped(r, bs, f2);
    let e = trim_end(r, bs);
    assert(ascii_lowered(e.map_values(f2)) =~= ascii_lowered(e));
    // Shape.
    lemma_trail_count_bound(r, bs);
    let n = ascii_normalized(p);
    assert forall|i: int| 0 <= i < n.len() implies n[i] != '/' by {
        assert(n[i] == ascii_lower(e[i]));
        assert(e[i] == r[i]);
    }
    if n.len() > 0 {
        assert(n.last() == ascii_lower(e.last()));
        assert(e.last() == r[r.len() - trail_count(r, bs) - 1]);
    }
}

/// An optional string as plain characters.
pub open spec fn opt_text(o: Option<String>) -> Option<Seq<char>> {
    match o {
        Some(s) => Some(s@),
        None => None,
    }
}

// ---------------------------------------------------------------------------
// %VARIABLE% expansion
// ---------------------------------------------------------------------------

/// `v` with its `%NAME%` references replaced: the i-th reference by
/// `found[i]` when that is `Some`, and left as written when it is `None` or
/// missing. A `%` with no closing `%` is kept as written.
pub open spec fn expand_with(v: Seq<char>, found: Seq<Option<Seq<char>>>) -> Seq<char>
    decreases v.len(),
{
    let start = char_index(v, '%');
    if start < 0 {
        v
    } else {
        let after = v.skip(start + 1);
        let end = char_index(after, '%');
        if end < 0 {
            v
        } else {
            proof {
                lemma_char_index(v, '%');
                lemma_char_index(after, '%');
            }
            let name = after.take(end);
            let rest = after.skip(end + 1);
            let replacement = if found.len() > 0 && found[0] is Some {
                found[0]->0
            } else {
                seq!['%'] + name + seq!['%']
            };
            v.take(start) + replacement + expand_with(rest, found.drop_first())
        }
    }
}

/// The names of the `%NAME%` references in `v`, in order.
pub open spec fn var_names(v: Seq<char>) -> Seq<Seq<char>>
    decreases v.len(),
{
    let start = char_index(v, '%');
    if start < 0 {
        seq![]
    } else {
        let after = v.skip(start + 1);
        let end = char_index(after, '%');
        if end < 0 {
            seq![]
        } else {
            proof {
                lemma_char_index(v, '%');
                lemma_char_index(after, '%');
            }
            seq![after.take(end)] + var_names(after.skip(end + 1))
        }
    }
}

/// `res` is an answer `lookup` can give for a name spelled `name`.
#[verifier::opaque]
pub open spec fn answers<F: Fn(&str) -> Option<String>>(
    lookup: F,
    name: Seq<char>,
    res: Option<String>,
) -> bool {
    exists|arg: &str| #[trigger] call_ensures(lookup, (arg,), res) && arg@ == name
}

/// Every `found[i]` is an answer `lookup` gave for `names[i]`.
pub open spec fn answered<F: Fn(&str) -> Option<String>>(
    lookup: F,
    names: Seq<Seq<char>>,
    found: Seq<Option<String>>,
) -> bool {
    &&& found.len() == names.len()
    &&& forall|i: int| 0 <= i < found.len() ==> #[trigger] answers(lookup, names[i], found[i])
}

/// The plain values of lookup answers.
pub open spec fn opt_texts(found: Seq<Option<String>>) -> Seq<Option<Seq<char>>> {
    found.map_values(|o: Option<String>| opt_text(o))
}

proof fn lemma_expand_step(
    v: Seq<char>,
    pos: int,
    start: int,
    end: int,
    x: Option<Seq<char>>,
    ext: Seq<Option<Seq<char>>>,
)
    requires
        0 <= pos <= start < end < v.len(),
        char_index(v.skip(pos), '%') == start - pos,
        char_index(v.skip(start + 1), '%') == end - start - 1,
    ensures
        expand_with(v.skip(pos), seq![x] + ext) == v.subrange(pos, start) + (if x is Some {
            x->0
        } else {
            seq!['%'] + v.subrange(start + 1, end) + seq!['%']
        }) + expand_with(v.skip(end + 1), ext),
        var_names(v.skip(pos)) == seq![v.subrange(start + 1, end)] + var_names(v.skip(end + 1)),
{
    let w = v.skip(pos);
    let after = w.skip(start - pos + 1);
    assert(after =~= v.skip(start + 1));
    assert(after.take(end - start - 1) =~= v.subrange(start + 1, end));
    assert(after.skip(end - start) =~= v.skip(end + 1));
    assert(w.take(start - pos) =~= v.subrange(pos, start));
    assert((seq![x] + ext).drop_first() =~= ext);
    assert((seq![x] + ext)[0] == x);
}

proof fn lemma_expand_none(v: Seq<char>, ext: Seq<Option<Seq<char>>>)
    requires
        char_index(v, '%') < 0 || char_index(v.skip(char_index(v, '%') + 1), '%') < 0,
    ensures
        expand_with(v, ext) == v,
        var_names(v) == Seq::<Seq<char>>::empty(),
{
}

/// Expansion that resolves no reference leaves the text as it was: unknown
/// `%NAME%` references, `%%` and an unmatched `%` are all kept verbatim.
pub proof fn lemma_expand_nothing(v: Seq<char>, found: Seq<Option<Seq<char>>>)
    requires
        found.len() == var_names(v).len(),
        forall|i: int| 0 <= i < found.len() ==> #[trigger] found[i] is None,
    ensures
        expand_with(v, found) == v,
    decreases v.len(),
{
    lemma_char_index(v, '%');
    let start = char_index(v, '%');
    if start >= 0 {
        let after = v.skip(start + 1);
        lemma_char_index(after, '%');
        let end = char_index(after, '%');
        if end >= 0 {
            let name = after.take(end);
            let rest = after.skip(end + 1);
            assert(var_names(v) == seq![name] + var_names(rest));
            assert(found.len() >= 1);
            assert forall|i: int| 0 <= i < found.drop_first().len() implies #[trigger] found.drop_first()[i]
                is None by {
                assert(found.drop_first()[i] == found[i + 1]);
            }
            lemma_expand_nothing(rest, found.drop_first());
            if found.len() > 0 {
                assert(found[0] is None);
            }
            assert(v.take(start) + (seq!['%'] + name + seq!['%']) + rest =~= v);
        }
    }
}

/// With a lookup that never resolves a name, expansion returns its input
/// unchanged.
pub proof fn lemma_expand_with_no_variables<F: Fn(&str) -> Option<String>>(
    lookup: F,
    value: Seq<char>,
    found: Seq<Option<String>>,
)
    requires
        forall|name: &str, res: Option<String>| call_ensures(lookup, (name,), res) ==> res is None,
        answered(lookup, var_names(value), found),
    ensures
        expand_with(value, opt_texts(found)) == value,
{
    assert forall|i: int| 0 <= i < opt_texts(found).len() implies #[trigger] opt_texts(found)[i]
        is None by {
        assert(answers(lookup, var_names(value)[i], found[i]));
        reveal(answers);
        let arg = choose|arg: &str| #[trigger] call_ensures(lookup, (arg,), found[i]) && arg@
            == var_names(value)[i];
    }
    lemma_expand_nothing(value, opt_texts(found));
}

/// `value` with `%NAME%` references replaced by what `lookup` returns for
/// each name; a reference `lookup` does not resolve, and a `%` without a
/// closing `%`, are kept as written.
pub fn expand_environment_with<F: Fn(&str) -> Option<String>>(value: &str, lookup: F) -> (r:
    String)
    requires
        forall|name: &str| call_requires(lookup, (name,)),
    ensures
        exists|found: Seq<Option<String>>|
            answered(lookup, var_names(value@), found) && r@ == expand_with(
                value@,
                opt_texts(found),
            ),
{
    let v = chars_of(value);
    let mut result: Vec<char> = Vec::new();
    let mut pos: usize = 0;
    let ghost mut found: Seq<Option<String>> = seq![];
    let ghost mut names: Seq<Seq<char>> = seq![];
    proof {
        assert(v@.skip(0) =~= v@);
        assert(names + var_names(v@) =~= var_names(v@));
        assert forall|ext: Seq<Option<Seq<char>>>|
            #![trigger expand_with(v@.skip(0), ext)]
            expand_with(v@, opt_texts(found) + ext) == result@ + expand_with(v@.skip(0), ext) by {
            assert(opt_texts(found) + ext =~= ext);
            assert(result@ + expand_with(v@.skip(0), ext) =~= expand_with(v@, ext));
        }
    }
    loop
        invariant
            v@ == value@,
            pos <= v.len(),
            forall|name: &str| call_requires(lookup, (name,)),
            found.len() == names.len(),
            forall|i: int| 0 <= i < found.len() ==> #[trigger] answers(lookup, names[i], found[i]),
            var_names(v@) == names + var_names(v@.skip(pos as int)),
            forall|ext: Seq<Option<Seq<char>>>|
                #![trigger expand_with(v@.skip(pos as int), ext)]
                expand_with(v@, opt_texts(found) + ext) == result@ + expand_with(
                    v@.skip(pos as int),
                    ext,
                ),
        decreases v.len() - pos,
    {
        let start_opt = find_char(&v, pos, '%');
        let tail_start: usize;
        match start_opt {
            None => {
                proof {
                    lemma_expand_none(v@.skip(pos as int), seq![]);
                }
                tail_start = pos;
            },
            Some(start) => {
                let end_opt = find_char(&v, start + 1, '%');
                match end_opt {
                    None => {
                        proof {
                            assert(v@.skip(pos as int).skip(start - pos + 1) =~= v@.skip(
                                start + 1,
                            ));
                            lemma_expand_none(v@.skip(pos as int), seq![]);
                        }
                        tail_start = pos;
                    },
                    Some(end) => {
                        let ghost old_result = result@;
                        let before = slice_chars(&v, pos, start);
                        push_all(&mut result, &before);
                        let name_chars = slice_chars(&v, start + 1, end);
                        let name = string_from_chars(name_chars.as_slice());
                        let arg = name.as_str();
                        let answer = lookup(arg);
                        let ghost x = opt_text(answer);
                        match &answer {
                            Some(text) => {
                                let t = chars_of(text.as_str());
                                push_all(&mut result, &t);
                            },
                            None => {
                                result.push('%');
                                push_all(&mut result, &name_chars);
                                result.push('%');
                            },
                        }
                        proof {
                            assert(v@.skip(pos as int).skip(start - pos + 1) =~= v@.skip(
                                start + 1,
                            ));
                            let old_found = found;
                            assert forall|ext: Seq<Option<Seq<char>>>|
                                #![trigger expand_with(v@.skip(end + 1), ext)]
                                expand_with(
                                    v@,
                                    opt_texts(old_found.push(answer)) + ext,
                                ) == result@ + expand_with(v@.skip(end + 1), ext) by {
                                lemma_expand_step(v@, pos as int, start as int, end as int, x, ext);
                                assert(opt_texts(old_found.push(answer)) + ext =~= opt_texts(
                                    old_found,
                                ) + (seq![x] + ext));
                                assert(expand_with(v@, opt_texts(old_found) + (seq![x] + ext))
                                    == old_result + expand_with(v@.skip(pos as int), seq![x] + ext));
                            }
                            lemma_expand_step(
                                v@,
                                pos as int,
                                start as int,
                                end as int,
                                x,
                                seq![],
                            );
                            let old_names = names;
                            found = old_found.push(answer);
                            names = names.push(name_chars@);
                            assert(answers(lookup, name_chars@, answer)) by {
                                reveal(answers);
                                assert(call_ensures(lookup, (arg,), answer) && arg@ == name_chars@);
                            }
                            assert forall|i: int| 0 <= i < found.len() implies #[trigger] answers(
                                lookup,
                                names[i],
                                found[i],
                            ) by {
                                if i < old_found.len() {
                                    assert(found[i] == old_found[i]);
                                    assert(names[i] == old_names[i]);
                                    assert(answers(lookup, old_names[i], old_found[i]));
                                } else {
                                    assert(found[i] == answer);
                                    assert(names[i] == name_chars@);
                                }
                            }
                            assert(names + var_names(v@.skip(end + 1)) =~= (names.drop_last()
                                + var_names(v@.skip(pos as int))));
                        }
                        pos = end + 1;
                        continue ;
                    },
                }
            },
        }
        let ghost result_before_tail = result@;
        let tail = slice_chars(&v, tail_start, v.len());
        push_all(&mut result, &tail);
        proof {
            assert(tail@ =~= v@.skip(pos as int));
            assert(names + var_names(v@.skip(pos as int)) =~= names);
            assert(opt_texts(found) + seq![] =~= opt_texts(found));
            assert(expand_with(v@, opt_texts(found) + seq![]) == result_before_tail + expand_with(
                v@.skip(pos as int),
                seq![],
            ));
        }
        let r = string_from_chars(result.as_slice());
        assert(answered(lookup, var_names(value@), found));
        return r;
    }
}

// ---------------------------------------------------------------------------
// Command lines
// ---------------------------------------------------------------------------

/// The executable a command line starts: the quoted first token, or the text
/// before the first whitespace, normalized. `None` for a blank command or an
/// unterminated quote.
pub open spec fn command_path(command: Seq<char>) -> Option<Seq<char>> {
    let c = trim_start(command, Trim::Whitespace);
    if c.len() == 0 {
        None
    } else if c[0] == '"' {
        let rest = c.drop_first();
        let end = char_index(rest, '"');
        if end < 0 {
            None
        } else {
            Some(normalized_path(rest.take(end)))
        }
    } else {
        let w = white_index(c);
        Some(
            normalized_path(
                if w < 0 {
                    c
                } else {
                    c.take(w)
                },
            ),
        )
    }
}

/// The executable a command line starts (see `command_path`).
pub fn command_chars(command: &Vec<char>) -> (r: Option<String>)
    ensures
        opt_text(r) == command_path(command@),
{
    let c = trimmed_start(command, Trim::Whitespace);
    if c.len() == 0 {
        return None;
    }
    if c[0] == '"' {
        let rest = slice_chars(&c, 1, c.len());
        assert(rest@ =~= c@.drop_first());
        match find_char(&rest, 0, '"') {
            None => {
                assert(rest@.skip(0) =~= rest@);
                None
            },
            Some(end) => {
                assert(rest@.skip(0) =~= rest@);
                let exe = slice_chars(&rest, 0, end);
                assert(exe@ =~= rest@.take(end as int));
                Some(normalize_chars(&exe))
            },
        }
    } else {
        match find_white(&c) {
            None => Some(normalize_chars(&c)),
            Some(w) => {
                let exe = slice_chars(&c, 0, w);
                assert(exe@ =~= c@.take(w as int));
                Some(normalize_chars(&exe))
            },
        }
    }
}

/// The executable a command line starts once its `%VARIABLES%` are expanded
/// through `lookup` (the process environment, where the caller reads it).
pub fn command_executable<F: Fn(&str) -> Option<String>>(command: &str, lookup: F) -> (r: Option<
    String,
>)
    requires
        forall|name: &str| call_requires(lookup, (name,)),
    ensures
        exists|found: Seq<Option<String>>|
            answered(lookup, var_names(command@), found) && opt_text(r) == command_path(
                expand_with(command@, opt_texts(found)),
            ),
{
    let expanded = expand_environment_with(command, lookup);
    let c = chars_of(expanded.as_str());
    command_chars(&c)
}

// ---------------------------------------------------------------------------
// Service image paths
// ---------------------------------------------------------------------------

/// Where the first of the known image extensions ends in `lowered`, or -1.
pub open spec fn extension_end(lowered: Seq<char>) -> int {
    let a = sub_index(lowered, ".exe"@);
    let b = sub_index(lowered, ".sys"@);
    let c = sub_index(lowered, ".dll"@);
    if a < 0 && b < 0 && c < 0 {
        -1
    } else {
        let m1 = if a < 0 {
            if b < 0 {
                c
            } else if c < 0 || b <= c {
                b
            } else {
                c
            }
        } else {
            let m = if b >= 0 && b < a {
                b
            } else {
                a
            };
            if c >= 0 && c < m {
                c
            } else {
                m
            }
        };
        m1 + 4
    }
}

/// An unquoted service image path cut after its image extension when a
/// boundary follows it; otherwise `expanded` (the path with its
/// `%VARIABLES%` expanded) parsed as a command line.
pub open spec fn unquoted_service_path(value: Seq<char>, expanded: Seq<char>) -> Option<Seq<char>> {
    let end = extension_end(ascii_lowered(value));
    if end >= 0 && (end == value.len() || is_white(value[end])) {
        Some(normalized_path(value.take(end)))
    } else {
        command_path(expanded)
    }
}

/// A service `ImagePath` trimmed and stripped of an NT prefix.
pub open spec fn service_image(image: Seq<char>) -> Seq<char> {
    let t = trim_both(image, Trim::Whitespace);
    if starts_with(t, "\\??\\"@) || starts_with(t, "\\\\?\\"@) {
        t.skip(4)
    } else {
        t
    }
}

/// The executable of a service `ImagePath`: NT prefixes stripped, quoted or
/// unquoted forms parsed (a command line is parsed from `expanded`, the
/// stripped image with its `%VARIABLES%` expanded), and a path without a
/// drive or UNC root anchored at `root` (the Windows directory).
pub open spec fn service_path(image: Seq<char>, expanded: Seq<char>, root: Seq<char>) -> Option<
    Seq<char>,
> {
    let w = service_image(image);
    let exe = if w.len() > 0 && w[0] == '"' {
        command_path(expanded)
    } else {
        unquoted_service_path(w, expanded)
    };
    match exe {
        None => None,
        Some(e) => if e.len() == 0 {
            None
        } else if (e.len() > 1 && e[1] == ':') || starts_with(e, "\\\\"@) {
            Some(e)
        } else {
            Some(
                normalized_path(
                    trim_end(root, Trim::Exactly('\\')) + seq!['\\'] + trim_start(
                        e,
                        Trim::Exactly('\\'),
                    ),
                ),
            )
        },
    }
}

/// The Windows directory: the environment's `SystemRoot`, or `C:\Windows`
/// when it names none.
pub open spec fn root_or_default(system_root: Option<Seq<char>>) -> Seq<char> {
    match system_root {
        Some(root) => root,
        None => DEFAULT_SYSTEM_ROOT@,
    }
}

fn extension_cut(lowered: &Vec<char>) -> (r: Option<usize>)
    ensures
        r is None <==> extension_end(lowered@) < 0,
        r matches Some(i) ==> i == extension_end(lowered@) && i <= lowered.len(),
{
    let exe = chars_of(".exe");
    let sys = chars_of(".sys");
    let dll = chars_of(".dll");
    proof {
        reveal_strlit(".exe");
        reveal_strlit(".sys");
        reveal_strlit(".dll");
    }
    let a = find_sub(lowered, &exe);
    let b = find_sub(lowered, &sys);
    let c = find_sub(lowered, &dll);
    let mut best: Option<usize> = None;
    match a {
        Some(x) => {
            best = Some(x);
        },
        None => {},
    }
    match b {
        Some(x) => {
            match best {
                Some(y) => {
                    if x < y {
                        best = Some(x);
                    }
                },
                None => {
                    best = Some(x);
                },
            }
        },
        None => {},
    }
    match c {
        Some(x) => {
            match best {
                Some(y) => {
                    if x < y {
                        best = Some(x);
                    }
                },
                None => {
                    best = Some(x);
                },
            }
        },
        None => {},
    }
    match best {
        None => None,
        Some(x) => {
            assert(x + 4 <= lowered.len());
            Some(x + 4)
        },
    }
}

/// `unquoted_service_path` of character vectors.
fn unquoted_service_chars(value: &Vec<char>, expanded: &Vec<char>) -> (r: Option<String>)
    ensures
        opt_text(r) == unquoted_service_path(value@, expanded@),
{
    let lowered = ascii_lowercase_chars(value);
    match extension_cut(&lowered) {
        Some(end) => {
            if end == value.len() || (end < value.len() && is_whitespace(value[end])) {
                let exe = slice_chars(value, 0, end);
                assert(exe@ =~= value@.take(end as int));
                return Some(normalize_chars(&exe));
            }
        },
        None => {},
    }
    command_chars(expanded)
}

/// The Windows directory assumed when the environment does not name one.
pub const DEFAULT_SYSTEM_ROOT: &'static str = "C:\\Windows";

/// The executable of a service `ImagePath`, with `%VARIABLES%` and the
/// `SystemRoot` directory read through `lookup` (see `service_path`).
pub fn service_executable<F: Fn(&str) -> Option<String>>(image: &str, lookup: F) -> (r: Option<
    String,
>)
    requires
        forall|name: &str| call_requires(lookup, (name,)),
    ensures
        exists|found: Seq<Option<String>>, system_root: Option<String>|
            {
                &&& answered(lookup, var_names(service_image(image@)), found)
                &&& answers(lookup, "SystemRoot"@, system_root)
                &&& opt_text(r) == service_path(
                    image@,
                    expand_with(service_image(image@), opt_texts(found)),
                    root_or_default(opt_text(system_root)),
                )
            },
{
    let root_name = "SystemRoot";
    let system_root = lookup(root_name);
    proof {
        reveal(answers);
        assert(call_ensures(lookup, (root_name,), system_root) && root_name@ == "SystemRoot"@);
    }
    let raw = chars_of(image);
    let t = trimmed(&raw, Trim::Whitespace);
    let nt = chars_of("\\??\\");
    let dos = chars_of("\\\\?\\");
    proof {
        reveal_strlit("\\??\\");
        reveal_strlit("\\\\?\\");
    }
    let w = if has_prefix(&t, &nt) || has_prefix(&t, &dos) {
        slice_chars(&t, 4, t.len())
    } else {
        t
    };
    assert(w@ == service_image(image@));
    let stripped = string_from_chars(w.as_slice());
    let expanded = expand_environment_with(stripped.as_str(), lookup);
    let x = chars_of(expanded.as_str());
    let exe = if w.len() > 0 && w[0] == '"' {
        command_chars(&x)
    } else {
        unquoted_service_chars(&w, &x)
    };
    let ghost found = choose|found: Seq<Option<String>>|
        answered(lookup, var_names(stripped@), found) && expanded@ == expand_with(
            stripped@,
            opt_texts(found),
        );
    let unc = chars_of("\\\\");
    proof {
        reveal_strlit("\\\\");
    }
    let r = match exe {
        None => None,
        Some(exe) => {
            let e = chars_of(exe.as_str());
            if e.len() == 0 {
                None
            } else if (e.len() > 1 && e[1] == ':') || has_prefix(&e, &unc) {
                Some(exe)
            } else {
                let root = match &system_root {
                    Some(text) => chars_of(text.as_str()),
                    None => chars_of(DEFAULT_SYSTEM_ROOT),
                };
                let mut joined = trimmed_end(&root, Trim::Exactly('\\'));
                joined.push('\\');
                let rel = trimmed_start(&e, Trim::Exactly('\\'));
                push_all(&mut joined, &rel);
                assert(joined@ =~= trim_end(root@, Trim::Exactly('\\')) + seq!['\\']
                    + trim_start(e@, Trim::Exactly('\\')));
                Some(normalize_chars(&joined))
            }
        },
    };
    assert(answered(lookup, var_names(service_image(image@)), found));
    assert(opt_text(r) == service_path(
        image@,
        expand_with(service_image(image@), opt_texts(found)),
        root_or_default(opt_text(system_root)),
    ));
    r
}

// ---------------------------------------------------------------------------
// Registry string values
// ---------------------------------------------------------------------------

/// The UTF-16 code units of a registry value: little-endian pairs of the
/// first `min(byte_length, buffer.len())` bytes, up to the first NUL.
pub open spec fn registry_units(buffer: Seq<u8>, byte_length: nat) -> Seq<u16> {
    let usable = (if byte_length < buffer.len() {
        byte_length
    } else {
        buffer.len()
    }) / 2;
    let all = Seq::new(usable, |i: int| (buffer[2 * i] + 256 * buffer[2 * i + 1]) as u16);
    all.take(first_zero(all))
}

/// Index of the first zero unit, or the length when there is none.
pub open spec fn first_zero(s: Seq<u16>) -> int
    decreases s.len(),
{
    if s.len() == 0 {
        0
    } else if s[0] == 0 {
        0
    } else {
        1 + first_zero(s.drop_first())
    }
}

proof fn lemma_first_zero_at(s: Seq<u16>, i: int)
    requires
        0 <= i <= s.len(),
        i < s.len() ==> s[i] == 0,
        forall|j: int| 0 <= j < i ==> #[trigger] s[j] != 0,
    ensures
        first_zero(s) == i,
    decreases s.len(),
{
    if s.len() > 0 && s[0] != 0 {
        assert forall|j: int| 0 <= j < i - 1 implies #[trigger] s.drop_first()[j] != 0 by {
            assert(s.drop_first()[j] == s[j + 1]);
        }
        lemma_first_zero_at(s.drop_first(), i - 1);
    }
}

/// The text of a registry string value before expansion, or `None` when it
/// holds no character before its terminator.
pub fn registry_text(buffer: &[u8], byte_length: usize) -> (r: Option<String>)
    ensures
        registry_units(buffer@, byte_length as nat).len() == 0 ==> r is None,
        registry_units(buffer@, byte_length as nat).len() > 0 ==> opt_text(r) == Some(
            utf16_lossy(registry_units(buffer@, byte_length as nat)),
        ),
{
    let limit = if byte_length < buffer.len() {
        byte_length
    } else {
        buffer.len()
    };
    let usable = limit / 2;
    let ghost all = Seq::new(
        usable as nat,
        |i: int| (buffer@[2 * i] + 256 * buffer@[2 * i + 1]) as u16,
    );
    let mut units: Vec<u16> = Vec::new();
    let mut i: usize = 0;
    let mut stopped = false;
    while i < usable && !stopped
        invariant
            stopped ==> i < usable && all[i as int] == 0,
            usable * 2 <= buffer.len(),
            all.len() == usable,
            all == Seq::new(
                usable as nat,
                |i: int| (buffer@[2 * i] + 256 * buffer@[2 * i + 1]) as u16,
            ),
            i <= usable,
            units@ == all.take(i as int),
            forall|j: int| 0 <= j < i ==> #[trigger] all[j] != 0,
        decreases usable - i + (if stopped {
            0int
        } else {
            1int
        }),
    {
        let unit = (buffer[2 * i] as u16) + 256 * (buffer[2 * i + 1] as u16);
        assert(unit == all[i as int]);
        if unit == 0 {
            stopped = true;
        } else {
            units.push(unit);
            i = i + 1;
            assert(units@ =~= all.take(i as int));
        }
    }
    proof {
        lemma_first_zero_at(all, i as int);
    }
    if units.len() == 0 {
        return None;
    }
    Some(decode_utf16_lossy(units.as_slice()))
}

} // verus!
