//! URL templates.
//!
//! In the raw dataset a template marks the place of the search terms with
//! `{{{s}}}`. The catalog stores templates in an escaped form: each literal
//! brace is doubled and that marker becomes the placeholder `{s}`. Templates
//! that users write mark the place with `{s}` itself; their literal braces
//! are doubled too. Filling a stored template replaces each `{s}` with the
//! terms and undoes the doubling.

use vstd::prelude::*;
use crate::text::{free_of_space, is_space, push_char, to_chars};

verus! {

/// The legacy query parameter that the catalog never keeps.
pub open spec fn ie_fragment() -> Seq<char> {
    "&ie={inputEncoding}"@
}

/// `p` occurs in `s` at position `i`.
pub open spec fn occurs_at(s: Seq<char>, i: int, p: Seq<char>) -> bool {
    0 <= i && i + p.len() <= s.len() && forall|k: int| 0 <= k < p.len() ==> s[i + k] == p[k]
}

/// `s` with every occurrence of `p` taken out, scanning from the left.
pub open spec fn without(s: Seq<char>, p: Seq<char>) -> Seq<char>
    decreases s.len(),
{
    if s.len() == 0 {
        s
    } else if p.len() > 0 && occurs_at(s, 0, p) {
        without(s.subrange(p.len() as int, s.len() as int), p)
    } else {
        seq![s[0]] + without(s.drop_first(), p)
    }
}

/// `s` opens with the raw marker `{{{s}}}`.
pub open spec fn at_raw_marker(s: Seq<char>) -> bool {
    s.len() >= 7 && s[0] == '{' && s[1] == '{' && s[2] == '{' && s[3] == 's' && s[4] == '}'
        && s[5] == '}' && s[6] == '}'
}

/// `s` opens with the placeholder `{s}`.
pub open spec fn at_placeholder(s: Seq<char>) -> bool {
    s.len() >= 3 && s[0] == '{' && s[1] == 's' && s[2] == '}'
}

/// `s` opens with a doubled brace `c`.
pub open spec fn at_double(s: Seq<char>, c: char) -> bool {
    s.len() >= 2 && s[0] == c && s[1] == c
}

/// The escaped form of a raw template.
pub open spec fn escaped(s: Seq<char>) -> Seq<char>
    decreases s.len(),
{
    if s.len() == 0 {
        s
    } else if at_raw_marker(s) {
        seq!['{', 's', '}'] + escaped(s.subrange(7, s.len() as int))
    } else if s[0] == '{' || s[0] == '}' {
        seq![s[0], s[0]] + escaped(s.drop_first())
    } else {
        seq![s[0]] + escaped(s.drop_first())
    }
}

/// An escaped template `t` with each placeholder replaced by `terms` and each
/// doubled brace read as one brace.
pub open spec fn filled(t: Seq<char>, terms: Seq<char>) -> Seq<char>
    decreases t.len(),
{
    if t.len() == 0 {
        t
    } else if at_placeholder(t) {
        terms + filled(t.subrange(3, t.len() as int), terms)
    } else if at_double(t, '{') || at_double(t, '}') {
        seq![t[0]] + filled(t.subrange(2, t.len() as int), terms)
    } else {
        seq![t[0]] + filled(t.drop_first(), terms)
    }
}

/// A raw template with each `{{{s}}}` replaced by `terms`.
pub open spec fn substituted(s: Seq<char>, terms: Seq<char>) -> Seq<char>
    decreases s.len(),
{
    if s.len() == 0 {
        s
    } else if at_raw_marker(s) {
        terms + substituted(s.subrange(7, s.len() as int), terms)
    } else {
        seq![s[0]] + substituted(s.drop_first(), terms)
    }
}

/// What the catalog stores for the raw template `raw`.
pub open spec fn stored_template(raw: Seq<char>) -> Seq<char> {
    escaped(without(raw, ie_fragment()))
}

/// Filling an escaped template gives back the raw template, with the terms in
/// place of each marker and every literal brace as it was.
pub proof fn lemma_fill_inverts_escape(raw: Seq<char>, terms: Seq<char>)
    ensures
        filled(escaped(raw), terms) == substituted(raw, terms),
    decreases raw.len(),
{
    if raw.len() > 0 {
        let e = escaped(raw);
        if at_raw_marker(raw) {
            let rest = raw.subrange(7, raw.len() as int);
            lemma_fill_inverts_escape(rest, terms);
            assert(e.subrange(3, e.len() as int) =~= escaped(rest));
        } else if raw[0] == '{' || raw[0] == '}' {
            let rest = raw.drop_first();
            lemma_fill_inverts_escape(rest, terms);
            assert(e.subrange(2, e.len() as int) =~= escaped(rest));
            assert(e[1] == raw[0]);
        } else {
            let rest = raw.drop_first();
            lemma_fill_inverts_escape(rest, terms);
            assert(e.drop_first() =~= escaped(rest));
        }
    }
}

fn occurs_in(v: &Vec<char>, i: usize, p: &Vec<char>) -> (r: bool)
    ensures
        r == occurs_at(v@, i as int, p@),
{
    if p.len() > v.len() || i > v.len() - p.len() {
        return false;
    }
    let mut k: usize = 0;
    while k < p.len()
        invariant
            i + p.len() <= v.len(),
            k <= p.len(),
            forall|j: int| 0 <= j < k ==> v@[i + j] == p@[j],
        decreases p.len() - k,
    {
        if v[i + k] != p[k] {
            return false;
        }
        k = k + 1;
    }
    true
}

/// `s` with every occurrence of the legacy input-encoding parameter removed.
pub fn strip_ie_fragment(s: &Vec<char>) -> (r: Vec<char>)
    ensures
        r@ == without(s@, ie_fragment()),
{
    let p = to_chars("&ie={inputEncoding}");
    proof {
        reveal_strlit("&ie={inputEncoding}");
    }
    let mut out: Vec<char> = Vec::new();
    let mut i: usize = 0;
    assert(s@.subrange(0, s@.len() as int) =~= s@);
    assert(out@ + without(s@, p@) =~= without(s@, p@));
    while i < s.len()
        invariant
            i <= s.len(),
            p@ == ie_fragment(),
            p@.len() > 0,
            out@ + without(s@.subrange(i as int, s@.len() as int), p@) == without(s@, p@),
        decreases s.len() - i,
    {
        let ghost rest = s@.subrange(i as int, s@.len() as int);
        if occurs_in(s, i, &p) {
            assert(occurs_at(rest, 0, p@));
            assert(rest.subrange(p@.len() as int, rest.len() as int) =~= s@.subrange(
                i + p@.len(),
                s@.len() as int,
            ));
            i = i + p.len();
        } else {
            assert(!occurs_at(rest, 0, p@));
            assert(rest.drop_first() =~= s@.subrange(i + 1, s@.len() as int));
            out.push(s[i]);
            i = i + 1;
            assert(out@ + without(rest.drop_first(), p@) =~= (out@.drop_last() + (seq![rest[0]]
                + without(rest.drop_first(), p@))));
        }
    }
    assert(s@.subrange(i as int, s@.len() as int) =~= Seq::<char>::empty());
    assert(out@ + Seq::<char>::empty() =~= out@);
    out
}

/// Turns a raw template into its stored form: drops the legacy input-encoding
/// parameter, doubles each literal brace and turns each `{{{s}}}` into `{s}`.
pub fn escape_template(raw: &str) -> (r: String)
    ensures
        r@ == stored_template(raw@),
{
    let chars = to_chars(raw);
    let v = strip_ie_fragment(&chars);
    let mut out = String::new();
    let mut i: usize = 0;
    assert(v@.subrange(0, v@.len() as int) =~= v@);
    assert(out@ + escaped(v@) =~= escaped(v@));
    while i < v.len()
        invariant
            i <= v.len(),
            out@ + escaped(v@.subrange(i as int, v@.len() as int)) == escaped(v@),
        decreases v.len() - i,
    {
        let ghost rest = v@.subrange(i as int, v@.len() as int);
        let ghost before = out@;
        let c = v[i];
        if 7 <= v.len() - i && c == '{' && v[i + 1] == '{' && v[i + 2] == '{' && v[i + 3] == 's'
            && v[i + 4] == '}' && v[i + 5] == '}' && v[i + 6] == '}' {
            push_char(&mut out, '{');
            push_char(&mut out, 's');
            push_char(&mut out, '}');
            assert(at_raw_marker(rest));
            assert(rest.subrange(7, rest.len() as int) =~= v@.subrange(i + 7, v@.len() as int));
            i = i + 7;
            assert(out@ =~= before + seq!['{', 's', '}']);
        } else if c == '{' || c == '}' {
            push_char(&mut out, c);
            push_char(&mut out, c);
            assert(!at_raw_marker(rest));
            assert(rest.drop_first() =~= v@.subrange(i + 1, v@.len() as int));
            i = i + 1;
            assert(out@ =~= before + seq![c, c]);
        } else {
            push_char(&mut out, c);
            assert(rest.drop_first() =~= v@.subrange(i + 1, v@.len() as int));
            i = i + 1;
            assert(out@ =~= before + seq![c]);
        }
        assert(out@ + escaped(v@.subrange(i as int, v@.len() as int)) =~= before + escaped(rest));
    }
    assert(out@ + escaped(Seq::<char>::empty()) =~= out@);
    assert(v@.subrange(i as int, v@.len() as int) =~= Seq::<char>::empty());
    out
}

/// The URL that the stored template `template` gives for the already
/// encoded `terms`. A template without a placeholder is a direct link: it
/// comes back as it was written, its braces single again.
pub open spec fn expanded(template: Seq<char>, terms: Seq<char>) -> Seq<char> {
    filled(template, terms)
}

/// Filling a template that holds no whitespace with terms that hold none
/// gives a URL that holds none.
pub proof fn lemma_filled_free_of_space(t: Seq<char>, terms: Seq<char>)
    requires
        free_of_space(t),
        free_of_space(terms),
    ensures
        free_of_space(filled(t, terms)),
    decreases t.len(),
{
    if t.len() > 0 {
        let r = filled(t, terms);
        if at_placeholder(t) {
            let rest = t.subrange(3, t.len() as int);
            assert(free_of_space(rest)) by {
                assert forall|i: int| 0 <= i < rest.len() implies !is_space(#[trigger] rest[i]) by {
                    assert(rest[i] == t[i + 3]);
                }
            }
            lemma_filled_free_of_space(rest, terms);
            let f = filled(rest, terms);
            assert forall|i: int| 0 <= i < r.len() implies !is_space(#[trigger] r[i]) by {
                if i >= terms.len() {
                    assert(r[i] == f[i - terms.len()]);
                }
            }
        } else if at_double(t, '{') || at_double(t, '}') {
            let rest = t.subrange(2, t.len() as int);
            assert(free_of_space(rest)) by {
                assert forall|i: int| 0 <= i < rest.len() implies !is_space(#[trigger] rest[i]) by {
                    assert(rest[i] == t[i + 2]);
                }
            }
            lemma_filled_free_of_space(rest, terms);
            let f = filled(rest, terms);
            assert(!is_space(t[0]));
            assert forall|i: int| 0 <= i < r.len() implies !is_space(#[trigger] r[i]) by {
                if i >= 1 {
                    assert(r[i] == f[i - 1]);
                }
            }
        } else {
            let rest = t.drop_first();
            assert(free_of_space(rest)) by {
                assert forall|i: int| 0 <= i < rest.len() implies !is_space(#[trigger] rest[i]) by {
                    assert(rest[i] == t[i + 1]);
                }
            }
            lemma_filled_free_of_space(rest, terms);
            let f = filled(rest, terms);
            assert(!is_space(t[0]));
            assert forall|i: int| 0 <= i < r.len() implies !is_space(#[trigger] r[i]) by {
                if i >= 1 {
                    assert(r[i] == f[i - 1]);
                }
            }
        }
    }
}

/// Fills the stored template `template` with the already encoded `terms`.
pub fn expand(template: &str, terms: &str) -> (r: String)
    ensures
        r@ == expanded(template@, terms@),
{
    let t = to_chars(template);
    let mut out = String::new();
    let mut i: usize = 0;
    assert(t@.subrange(0, t@.len() as int) =~= t@);
    assert(out@ + filled(t@, terms@) =~= filled(t@, terms@));
    while i < t.len()
        invariant
            i <= t.len(),
            out@ + filled(t@.subrange(i as int, t@.len() as int), terms@) == filled(t@, terms@),
        decreases t.len() - i,
    {
        let ghost rest = t@.subrange(i as int, t@.len() as int);
        let ghost before = out@;
        let c = t[i];
        if 3 <= t.len() - i && c == '{' && t[i + 1] == 's' && t[i + 2] == '}' {
            out.append(terms);
            assert(at_placeholder(rest));
            assert(rest.subrange(3, rest.len() as int) =~= t@.subrange(i + 3, t@.len() as int));
            i = i + 3;
        } else if 2 <= t.len() - i && (c == '{' || c == '}') && t[i + 1] == c {
            push_char(&mut out, c);
            assert(!at_placeholder(rest));
            assert(at_double(rest, c));
            assert(rest.subrange(2, rest.len() as int) =~= t@.subrange(i + 2, t@.len() as int));
            i = i + 2;
            assert(out@ =~= before + seq![c]);
        } else {
            push_char(&mut out, c);
            assert(!at_placeholder(rest));
            assert(!at_double(rest, '{') && !at_double(rest, '}'));
            assert(rest.drop_first() =~= t@.subrange(i + 1, t@.len() as int));
            i = i + 1;
            assert(out@ =~= before + seq![c]);
        }
        assert(out@ + filled(t@.subrange(i as int, t@.len() as int), terms@) =~= before + filled(
            rest,
            terms@,
        ));
    }
    assert(t@.subrange(i as int, t@.len() as int) =~= Seq::<char>::empty());
    assert(out@ + filled(Seq::<char>::empty(), terms@) =~= out@);
    out
}

/// The stored form of a template that a user writes: each literal brace is
/// doubled, and `{s}` stays as the placeholder.
pub open spec fn escaped_custom(s: Seq<char>) -> Seq<char>
    decreases s.len(),
{
    if s.len() == 0 {
        s
    } else if at_placeholder(s) {
        seq!['{', 's', '}'] + escaped_custom(s.subrange(3, s.len() as int))
    } else if s[0] == '{' || s[0] == '}' {
        seq![s[0], s[0]] + escaped_custom(s.drop_first())
    } else {
        seq![s[0]] + escaped_custom(s.drop_first())
    }
}

/// A user's template with each `{s}` replaced by `terms`.
pub open spec fn replaced(s: Seq<char>, terms: Seq<char>) -> Seq<char>
    decreases s.len(),
{
    if s.len() == 0 {
        s
    } else if at_placeholder(s) {
        terms + replaced(s.subrange(3, s.len() as int), terms)
    } else {
        seq![s[0]] + replaced(s.drop_first(), terms)
    }
}

/// Filling the stored form of a user's template gives back what the user
/// wrote, with the terms in place of each `{s}`.
pub proof fn lemma_fill_inverts_custom_escape(raw: Seq<char>, terms: Seq<char>)
    ensures
        filled(escaped_custom(raw), terms) == replaced(raw, terms),
    decreases raw.len(),
{
    if raw.len() > 0 {
        let e = escaped_custom(raw);
        if at_placeholder(raw) {
            let rest = raw.subrange(3, raw.len() as int);
            lemma_fill_inverts_custom_escape(rest, terms);
            assert(e.subrange(3, e.len() as int) =~= escaped_custom(rest));
        } else if raw[0] == '{' || raw[0] == '}' {
            let rest = raw.drop_first();
            lemma_fill_inverts_custom_escape(rest, terms);
            assert(e.subrange(2, e.len() as int) =~= escaped_custom(rest));
            assert(e[1] == raw[0]);
        } else {
            let rest = raw.drop_first();
            lemma_fill_inverts_custom_escape(rest, terms);
            assert(e.drop_first() =~= escaped_custom(rest));
        }
    }
}

/// Turns a template that a user wrote into its stored form.
pub fn escape_custom_template(raw: &str) -> (r: String)
    ensures
        r@ == escaped_custom(raw@),
{
    let v = to_chars(raw);
    let mut out = String::new();
    let mut i: usize = 0;
    assert(v@.subrange(0, v@.len() as int) =~= v@);
    assert(out@ + escaped_custom(v@) =~= escaped_custom(v@));
    while i < v.len()
        invariant
            i <= v.len(),
            out@ + escaped_custom(v@.subrange(i as int, v@.len() as int)) == escaped_custom(v@),
        decreases v.len() - i,
    {
        let ghost rest = v@.subrange(i as int, v@.len() as int);
        let ghost before = out@;
        let c = v[i];
        if 3 <= v.len() - i && c == '{' && v[i + 1] == 's' && v[i + 2] == '}' {
            push_char(&mut out, '{');
            push_char(&mut out, 's');
            push_char(&mut out, '}');
            assert(at_placeholder(rest));
            assert(rest.subrange(3, rest.len() as int) =~= v@.subrange(i + 3, v@.len() as int));
            i = i + 3;
            assert(out@ =~= before + seq!['{', 's', '}']);
        } else if c == '{' || c == '}' {
            push_char(&mut out, c);
            push_char(&mut out, c);
            assert(!at_placeholder(rest));
            assert(rest.drop_first() =~= v@.subrange(i + 1, v@.len() as int));
            i = i + 1;
            assert(out@ =~= before + seq![c, c]);
        } else {
            push_char(&mut out, c);
            assert(rest.drop_first() =~= v@.subrange(i + 1, v@.len() as int));
            i = i + 1;
            assert(out@ =~= before + seq![c]);
        }
        assert(out@ + escaped_custom(v@.subrange(i as int, v@.len() as int)) =~= before
            + escaped_custom(rest));
    }
    assert(out@ + escaped_custom(Seq::<char>::empty()) =~= out@);
    assert(v@.subrange(i as int, v@.len() as int) =~= Seq::<char>::empty());
    out
}

} // verus!
