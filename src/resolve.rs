//! Turning a query into a redirect URL.
//!
//! The first whitespace-separated token that opens with `!` names a shortcut.
//! It is looked up in the user's overrides, then in the catalog. When it
//! names an engine, that token alone is taken out of the query, the rest is
//! trimmed and percent-encoded, and the engine's template is filled with it.
//! Otherwise the whole query goes, percent-encoded, to the fallback template.

use vstd::prelude::*;
use crate::engines::{CatalogView, EngineRecord, SearchEngine, SearchEngineDatabase};
use crate::template::{expand, expanded, lemma_filled_free_of_space};
use crate::text::{
    free_of_space, is_space, lower_of, space, string_of, to_chars, trim_bounds, trimmed,
};

verus! {

/// What `urlencoding::encode` makes of a string.
pub uninterp spec fn percent_encoded(s: Seq<char>) -> Seq<char>;

/// A character that percent-encoding leaves in its output: an ASCII letter
/// or digit, one of `-`, `_`, `.`, `~`, or the `%` of an escape.
pub open spec fn url_safe(c: char) -> bool {
    let u = c as u32;
    (0x30 <= u && u <= 0x39) || (0x41 <= u && u <= 0x5A) || (0x61 <= u && u <= 0x7A) || u == 0x2D
        || u == 0x5F || u == 0x2E || u == 0x7E || u == 0x25
}

/// Relies on `urlencoding::encode`: percent-encodes every byte of the UTF-8
/// form except ASCII letters, digits and `-`, `_`, `.`, `~`, as `%` and two
/// hex digits; the result depends on the characters alone.
#[verifier::external_body]
fn encode(s: &str) -> (r: String)
    ensures
        r@ == percent_encoded(s@),
        forall|i: int| 0 <= i < r@.len() ==> url_safe(#[trigger] r@[i]),
{
    urlencoding::encode(s).into_owned()
}

/// A token that opens with `!` starts at `s`: a `!` at the start of `q` or
/// right after whitespace.
pub open spec fn bang_at(q: Seq<char>, s: int) -> bool {
    0 <= s < q.len() && q[s] == '!' && (s == 0 || is_space(q[s - 1]))
}

/// `s` is where the first token that opens with `!` starts.
pub open spec fn first_bang_at(q: Seq<char>, s: int) -> bool {
    bang_at(q, s) && forall|j: int| 0 <= j < s ==> !bang_at(q, j)
}

/// Where the token that runs from `s` ends.
pub open spec fn token_end(q: Seq<char>, s: int) -> int
    decreases q.len() - s,
{
    if s < 0 || s >= q.len() || is_space(q[s]) {
        s
    } else {
        token_end(q, s + 1)
    }
}

/// `t` without its leading `!`s.
pub open spec fn strip_bangs(t: Seq<char>) -> Seq<char>
    decreases t.len(),
{
    if t.len() > 0 && t[0] == '!' {
        strip_bangs(t.drop_first())
    } else {
        t
    }
}

/// The record that `name` gives: the overrides are asked first, then the
/// catalog.
pub open spec fn layered(
    overrides: CatalogView,
    builtin: CatalogView,
    name: Seq<char>,
) -> Option<EngineRecord> {
    match overrides.lookup(name) {
        Some(e) => Some(e),
        None => builtin.lookup(name),
    }
}

/// No stored template of the catalog holds whitespace.
pub open spec fn templates_free_of_space(c: CatalogView) -> bool {
    forall|i: int| 0 <= i < c.engines.len() ==> free_of_space((#[trigger] c.engines[i]).1)
}

/// The redirect URL for the query `q`.
pub open spec fn resolved(
    q: Seq<char>,
    overrides: CatalogView,
    builtin: CatalogView,
    fallback: Seq<char>,
) -> Seq<char> {
    if exists|s: int| first_bang_at(q, s) {
        let s = choose|s: int| first_bang_at(q, s);
        let e = token_end(q, s);
        match layered(overrides, builtin, strip_bangs(q.subrange(s, e))) {
            Some(engine) => expanded(
                engine.url,
                percent_encoded(trimmed(q.subrange(0, s) + q.subrange(e, q.len() as int))),
            ),
            None => expanded(fallback, percent_encoded(q)),
        }
    } else {
        expanded(fallback, percent_encoded(q))
    }
}

proof fn lemma_first_bang_unique(q: Seq<char>, s: int, t: int)
    requires
        first_bang_at(q, s),
        first_bang_at(q, t),
    ensures
        s == t,
{
    if s < t {
        assert(!bang_at(q, s));
    } else if t < s {
        assert(!bang_at(q, t));
    }
}

proof fn lemma_strip_bangs_skip(t: Seq<char>, k: int)
    requires
        0 <= k <= t.len(),
        forall|j: int| 0 <= j < k ==> t[j] == '!',
        k == t.len() || t[k] != '!',
    ensures
        strip_bangs(t) == t.subrange(k, t.len() as int),
    decreases k,
{
    if k > 0 {
        let u = t.drop_first();
        assert forall|j: int| 0 <= j < k - 1 implies u[j] == '!' by {
            assert(u[j] == t[j + 1]);
        }
        lemma_strip_bangs_skip(u, k - 1);
        assert(u.subrange(k - 1, u.len() as int) =~= t.subrange(k, t.len() as int));
    } else {
        assert(t.subrange(0, t.len() as int) =~= t);
    }
}

proof fn lemma_token_end_run(q: Seq<char>, s: int, e: int)
    requires
        0 <= s <= e <= q.len(),
        forall|i: int| s <= i < e ==> !is_space(q[i]),
        e == q.len() || is_space(q[e]),
    ensures
        token_end(q, s) == e,
    decreases e - s,
{
    if s < e {
        lemma_token_end_run(q, s + 1, e);
    }
}

/// In a query made of a prefix `p` that holds no shortcut token, the token
/// `!a`, and whatever `x` follows (other shortcut tokens included), `!a` is
/// the one that decides: its engine is used with `p` and `x` as the terms,
/// and only when it names none does the fallback get the whole query.
pub proof fn lemma_first_shortcut_wins(
    overrides: CatalogView,
    builtin: CatalogView,
    fallback: Seq<char>,
    p: Seq<char>,
    a: Seq<char>,
    x: Seq<char>,
)
    requires
        forall|j: int| 0 <= j < p.len() ==> !bang_at(p, j),
        p.len() == 0 || is_space(p.last()),
        forall|i: int| 0 <= i < a.len() ==> !is_space(a[i]),
        a.len() == 0 || a[0] != '!',
        x.len() == 0 || is_space(x[0]),
    ensures
        resolved(p + seq!['!'] + a + x, overrides, builtin, fallback) == match layered(
            overrides,
            builtin,
            a,
        ) {
            Some(engine) => expanded(engine.url, percent_encoded(trimmed(p + x))),
            None => expanded(fallback, percent_encoded(p + seq!['!'] + a + x)),
        },
{
    let q = p + seq!['!'] + a + x;
    let n = p.len() as int;
    let e = n + 1 + a.len();
    assert forall|j: int| 0 <= j < n implies !bang_at(q, j) by {
        assert(q[j] == p[j]);
        if j > 0 {
            assert(q[j - 1] == p[j - 1]);
        }
        assert(!bang_at(p, j));
    }
    assert(q[n] == '!');
    if n > 0 {
        assert(q[n - 1] == p.last());
    }
    assert(first_bang_at(q, n));
    lemma_first_bang_unique(q, n, choose|t: int| first_bang_at(q, t));
    assert forall|i: int| n <= i < e implies !is_space(q[i]) by {
        if i > n {
            assert(q[i] == a[i - n - 1]);
        }
    }
    if e < q.len() {
        assert(q[e] == x[0]);
    }
    lemma_token_end_run(q, n, e);
    let t = q.subrange(n, e);
    assert(t =~= seq!['!'] + a);
    lemma_strip_bangs_skip(t, 1);
    assert(t.subrange(1, t.len() as int) =~= a);
    assert(q.subrange(0, n) =~= p);
    assert(q.subrange(e, q.len() as int) =~= x);
}

/// The case of a shortcut that names an engine does not matter: two queries
/// that differ only in it give the same URL.
pub proof fn lemma_shortcut_case_ignored(
    overrides: CatalogView,
    builtin: CatalogView,
    fallback: Seq<char>,
    p: Seq<char>,
    a: Seq<char>,
    b: Seq<char>,
    x: Seq<char>,
)
    requires
        forall|j: int| 0 <= j < p.len() ==> !bang_at(p, j),
        p.len() == 0 || is_space(p.last()),
        forall|i: int| 0 <= i < a.len() ==> !is_space(a[i]),
        forall|i: int| 0 <= i < b.len() ==> !is_space(b[i]),
        a.len() == 0 || a[0] != '!',
        b.len() == 0 || b[0] != '!',
        x.len() == 0 || is_space(x[0]),
        lower_of(a) == lower_of(b),
        layered(overrides, builtin, a) is Some,
    ensures
        resolved(p + seq!['!'] + a + x, overrides, builtin, fallback) == resolved(
            p + seq!['!'] + b + x,
            overrides,
            builtin,
            fallback,
        ),
{
    lemma_first_shortcut_wins(overrides, builtin, fallback, p, a, x);
    lemma_first_shortcut_wins(overrides, builtin, fallback, p, b, x);
    assert(layered(overrides, builtin, a) == layered(overrides, builtin, b));
}

/// A user override wins over the catalog for the shortcut it names, whether
/// or not the catalog has that shortcut too.
pub proof fn lemma_override_wins(
    overrides: CatalogView,
    builtin: CatalogView,
    name: Seq<char>,
)
    requires
        overrides.lookup(name) is Some,
    ensures
        layered(overrides, builtin, name) == overrides.lookup(name),
{
}

/// The record that `shortcut` names: the user's override if there is one,
/// else the catalog's.
pub fn lookup(
    shortcut: &str,
    overrides: &SearchEngineDatabase,
    builtin: &SearchEngineDatabase,
) -> (r: Option<SearchEngine>)
    requires
        overrides.wf(),
        builtin.wf(),
    ensures
        match r {
            Some(e) => layered(overrides@, builtin@, shortcut@) == Some(e@),
            None => layered(overrides@, builtin@, shortcut@) is None,
        },
{
    match overrides.get(shortcut) {
        Some(e) => Some(e),
        None => builtin.get(shortcut),
    }
}

fn find_bang(q: &Vec<char>) -> (r: Option<usize>)
    ensures
        match r {
            Some(s) => first_bang_at(q@, s as int),
            None => forall|s: int| !bang_at(q@, s),
        },
{
    let mut i: usize = 0;
    while i < q.len()
        invariant
            i <= q.len(),
            forall|j: int| 0 <= j < i ==> !bang_at(q@, j),
        decreases q.len() - i,
    {
        if q[i] == '!' && (i == 0 || space(q[i - 1])) {
            return Some(i);
        }
        i = i + 1;
    }
    None
}

/// Fills the fallback template with the whole query.
fn fall_back(query: &str, fallback: &str) -> (r: String)
    ensures
        r@ == expanded(fallback@, percent_encoded(query@)),
        free_of_space(fallback@) ==> free_of_space(r@),
{
    let encoded = encode(query);
    proof {
        assert forall|i: int| 0 <= i < encoded@.len() implies !is_space(#[trigger] encoded@[i]) by {
            assert(url_safe(encoded@[i]));
        }
        if free_of_space(fallback@) {
            lemma_filled_free_of_space(fallback@, encoded@);
        }
    }
    expand(fallback, encoded.as_str())
}

/// The redirect URL for `query`, an already decoded search string.
pub fn resolve(
    query: &str,
    overrides: &SearchEngineDatabase,
    builtin: &SearchEngineDatabase,
    fallback: &str,
) -> (r: String)
    requires
        overrides.wf(),
        builtin.wf(),
    ensures
        r@ == resolved(query@, overrides@, builtin@, fallback@),
        templates_free_of_space(overrides@) && templates_free_of_space(builtin@) && free_of_space(
            fallback@,
        ) ==> free_of_space(r@),
{
    let q = to_chars(query);
    let found = find_bang(&q);
    let s = match found {
        Some(s) => s,
        None => {
            assert(!exists|s: int| first_bang_at(q@, s));
            return fall_back(query, fallback);
        },
    };
    proof {
        assert(first_bang_at(q@, s as int));
        lemma_first_bang_unique(q@, s as int, choose|t: int| first_bang_at(q@, t));
    }
    let mut k: usize = s;
    while k < q.len() && q[k] == '!'
        invariant
            s <= k <= q.len(),
            forall|j: int| s <= j < k ==> q@[j] == '!',
            token_end(q@, s as int) == token_end(q@, k as int),
        decreases q.len() - k,
    {
        k = k + 1;
    }
    let mut e: usize = k;
    while e < q.len() && !space(q[e])
        invariant
            s <= k <= e <= q.len(),
            forall|j: int| s <= j < k ==> q@[j] == '!',
            token_end(q@, s as int) == token_end(q@, e as int),
        decreases q.len() - e,
    {
        e = e + 1;
    }
    proof {
        let t = q@.subrange(s as int, e as int);
        lemma_strip_bangs_skip(t, k - s);
        assert(t.subrange(k - s, t.len() as int) =~= q@.subrange(k as int, e as int));
    }
    let name = string_of(&q, k, e);
    match lookup(name.as_str(), overrides, builtin) {
        Some(engine) => {
            let mut rest: Vec<char> = Vec::new();
            let mut i: usize = 0;
            while i < s
                invariant
                    i <= s <= e <= q.len(),
                    rest@ == q@.subrange(0, i as int),
                decreases s - i,
            {
                rest.push(q[i]);
                i = i + 1;
                assert(rest@ =~= q@.subrange(0, i as int));
            }
            let mut j: usize = e;
            while j < q.len()
                invariant
                    s <= e <= j <= q.len(),
                    rest@ == q@.subrange(0, s as int) + q@.subrange(e as int, j as int),
                decreases q.len() - j,
            {
                rest.push(q[j]);
                j = j + 1;
                assert(rest@ =~= q@.subrange(0, s as int) + q@.subrange(e as int, j as int));
            }
            let (a, b) = trim_bounds(&rest);
            let terms = string_of(&rest, a, b);
            let encoded = encode(terms.as_str());
            proof {
                assert forall|i: int| 0 <= i < encoded@.len() implies !is_space(
                    #[trigger] encoded@[i],
                ) by {
                    assert(url_safe(encoded@[i]));
                }
                if templates_free_of_space(overrides@) && templates_free_of_space(builtin@) {
                    let key = lower_of(name@);
                    if overrides@.shortcuts.contains_key(key) {
                        let idx = overrides@.shortcuts[key] as int;
                        assert(free_of_space(overrides@.engines[idx].1));
                    } else {
                        let idx = builtin@.shortcuts[key] as int;
                        assert(free_of_space(builtin@.engines[idx].1));
                    }
                    lemma_filled_free_of_space(engine.url@, encoded@);
                }
            }
            expand(engine.url.as_str(), encoded.as_str())
        },
        None => fall_back(query, fallback),
    }
}

} // verus!
