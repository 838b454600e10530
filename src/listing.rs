//! The data behind the page that lists every shortcut: engines grouped by
//! category and subcategory.

use vstd::prelude::*;
use core::cmp::Ordering;
use crate::engines::{EngineRecord, SearchEngine};
use crate::template::{expand, expanded};
use crate::text::{lower_of, push_char, to_chars, to_lower};

verus! {

/// How the listing shows one engine.
#[derive(Debug, Clone, PartialEq, Eq)]
pub struct EngineDescription {
    pub name: String,
    /// The engine's shortcuts, each with its `!`, separated by `, `.
    pub shortcuts: String,
}

/// The shortcuts `names` as the listing shows them: `!a, !b, !c`.
pub open spec fn bang_list(names: Seq<String>) -> Seq<char>
    decreases names.len(),
{
    if names.len() == 0 {
        Seq::empty()
    } else if names.len() == 1 {
        seq!['!'] + names[0]@
    } else {
        bang_list(names.drop_last()) + seq![',', ' ', '!'] + names.last()@
    }
}

/// One line of the listing: the engine's link, which is its template with
/// empty terms, its name and its shortcuts.
pub type EntryView = (Seq<char>, Seq<char>, Seq<char>);

pub open spec fn entry_view(e: (String, EngineDescription)) -> EntryView {
    (e.0@, e.1.name@, e.1.shortcuts@)
}

/// The listing line of an engine named by `shortcuts`.
pub open spec fn described(shortcuts: Seq<String>, engine: crate::engines::EngineRecord) -> EntryView {
    (expanded(engine.url, Seq::empty()), engine.name, bang_list(shortcuts))
}

fn append_str(out: &mut String, s: &String)
    ensures
        final(out)@ == old(out)@ + s@,
{
    out.append(s.as_str());
}

/// The link, name and shortcut list that the listing shows for `engine`.
pub fn map_engine(shortcuts: &Vec<String>, engine: &SearchEngine) -> (r: (String, EngineDescription))
    ensures
        entry_view(r) == described(shortcuts@, engine@),
{
    let mut list = String::new();
    let mut i: usize = 0;
    while i < shortcuts.len()
        invariant
            i <= shortcuts.len(),
            list@ == bang_list(shortcuts@.subrange(0, i as int)),
        decreases shortcuts.len() - i,
    {
        let ghost before = list@;
        if i > 0 {
            push_char(&mut list, ',');
            push_char(&mut list, ' ');
        }
        push_char(&mut list, '!');
        append_str(&mut list, &shortcuts[i]);
        let ghost next = shortcuts@.subrange(0, i + 1);
        assert(next.drop_last() =~= shortcuts@.subrange(0, i as int));
        i = i + 1;
        if i == 1 {
            assert(list@ =~= seq!['!'] + next[0]@);
        } else {
            assert(list@ =~= before + seq![',', ' ', '!'] + next.last()@);
        }
    }
    assert(shortcuts@.subrange(0, shortcuts.len() as int) =~= shortcuts@);
    let url = expand(engine.url.as_str(), "");
    proof {
        reveal_strlit("");
        assert(""@ =~= Seq::<char>::empty());
    }
    (url, EngineDescription { name: engine.name.clone(), shortcuts: list })
}

/// Where a category stands in the listing: "Custom" first, "Uncategorized"
/// last, every other one in between.
pub open spec fn category_rank(name: Seq<char>) -> int {
    if name == "Custom"@ {
        0
    } else if name == "Uncategorized"@ {
        2
    } else {
        1
    }
}

/// Lexicographic order of character sequences, by code point.
pub open spec fn lex_cmp(a: Seq<char>, b: Seq<char>) -> Ordering
    decreases a.len(),
{
    if a.len() == 0 && b.len() == 0 {
        Ordering::Equal
    } else if a.len() == 0 {
        Ordering::Less
    } else if b.len() == 0 {
        Ordering::Greater
    } else if a[0] < b[0] {
        Ordering::Less
    } else if a[0] > b[0] {
        Ordering::Greater
    } else {
        lex_cmp(a.drop_first(), b.drop_first())
    }
}

/// The order of two categories in the listing: by rank, and between two
/// ordinary categories alphabetically, ignoring case.
pub open spec fn category_order(a: Seq<char>, b: Seq<char>) -> Ordering {
    if category_rank(a) < category_rank(b) {
        Ordering::Less
    } else if category_rank(a) > category_rank(b) {
        Ordering::Greater
    } else if category_rank(a) == 1 {
        lex_cmp(lower_of(a), lower_of(b))
    } else {
        Ordering::Equal
    }
}

proof fn lemma_lex_antisymmetric(a: Seq<char>, b: Seq<char>)
    ensures
        (lex_cmp(a, b) == Ordering::Less) == (lex_cmp(b, a) == Ordering::Greater),
        (lex_cmp(a, b) == Ordering::Equal) == (lex_cmp(b, a) == Ordering::Equal),
    decreases a.len(),
{
    if a.len() > 0 && b.len() > 0 && a[0] == b[0] {
        lemma_lex_antisymmetric(a.drop_first(), b.drop_first());
    }
}

proof fn lemma_lex_transitive(a: Seq<char>, b: Seq<char>, c: Seq<char>)
    requires
        lex_cmp(a, b) != Ordering::Greater,
        lex_cmp(b, c) != Ordering::Greater,
    ensures
        lex_cmp(a, c) != Ordering::Greater,
        lex_cmp(a, b) == Ordering::Less || lex_cmp(b, c) == Ordering::Less ==> lex_cmp(a, c)
            == Ordering::Less,
    decreases a.len(),
{
    if a.len() > 0 && b.len() > 0 && c.len() > 0 && a[0] == b[0] && b[0] == c[0] {
        lemma_lex_transitive(a.drop_first(), b.drop_first(), c.drop_first());
    }
}

proof fn lemma_order_antisymmetric(a: Seq<char>, b: Seq<char>)
    ensures
        (category_order(a, b) == Ordering::Less) == (category_order(b, a) == Ordering::Greater),
{
    lemma_lex_antisymmetric(lower_of(a), lower_of(b));
}

proof fn lemma_order_transitive(a: Seq<char>, b: Seq<char>, c: Seq<char>)
    requires
        category_order(a, b) != Ordering::Greater,
        category_order(b, c) != Ordering::Greater,
    ensures
        category_order(a, c) != Ordering::Greater,
        category_order(a, b) == Ordering::Less || category_order(b, c) == Ordering::Less
            ==> category_order(a, c) == Ordering::Less,
{
    if category_rank(a) == 1 && category_rank(b) == 1 && category_rank(c) == 1 {
        lemma_lex_transitive(lower_of(a), lower_of(b), lower_of(c));
    }
}

fn lex_compare(a: &Vec<char>, b: &Vec<char>) -> (r: Ordering)
    ensures
        r == lex_cmp(a@, b@),
{
    let mut i: usize = 0;
    assert(a@.subrange(0, a@.len() as int) =~= a@);
    assert(b@.subrange(0, b@.len() as int) =~= b@);
    while i < a.len() && i < b.len() && a[i] == b[i]
        invariant
            i <= a.len(),
            i <= b.len(),
            lex_cmp(a@, b@) == lex_cmp(
                a@.subrange(i as int, a@.len() as int),
                b@.subrange(i as int, b@.len() as int),
            ),
        decreases a.len() - i,
    {
        let ghost sa = a@.subrange(i as int, a@.len() as int);
        let ghost sb = b@.subrange(i as int, b@.len() as int);
        assert(sa.drop_first() =~= a@.subrange(i + 1, a@.len() as int));
        assert(sb.drop_first() =~= b@.subrange(i + 1, b@.len() as int));
        i = i + 1;
    }
    let ghost sa = a@.subrange(i as int, a@.len() as int);
    let ghost sb = b@.subrange(i as int, b@.len() as int);
    if i < a.len() {
        assert(sa[0] == a@[i as int]);
    }
    if i < b.len() {
        assert(sb[0] == b@[i as int]);
    }
    if i == a.len() && i == b.len() {
        Ordering::Equal
    } else if i == a.len() {
        Ordering::Less
    } else if i == b.len() {
        Ordering::Greater
    } else if a[i] < b[i] {
        Ordering::Less
    } else {
        Ordering::Greater
    }
}

fn rank(name: &str) -> (r: u8)
    ensures
        r as int == category_rank(name@),
{
    let chars = to_chars(name);
    let custom = to_chars("Custom");
    let other = to_chars("Uncategorized");
    if matches!(lex_compare(&chars, &custom), Ordering::Equal) {
        proof {
            lemma_lex_equal(chars@, custom@);
        }
        0
    } else if matches!(lex_compare(&chars, &other), Ordering::Equal) {
        proof {
            lemma_lex_equal(chars@, other@);
        }
        2
    } else {
        proof {
            lemma_lex_self(chars@);
        }
        1
    }
}

proof fn lemma_lex_equal(a: Seq<char>, b: Seq<char>)
    requires
        lex_cmp(a, b) == Ordering::Equal,
    ensures
        a == b,
    decreases a.len(),
{
    if a.len() > 0 && b.len() > 0 {
        lemma_lex_equal(a.drop_first(), b.drop_first());
        assert(a =~= seq![a[0]] + a.drop_first());
        assert(b =~= seq![b[0]] + b.drop_first());
    } else {
        assert(a =~= b);
    }
}

proof fn lemma_lex_self(a: Seq<char>)
    ensures
        lex_cmp(a, a) == Ordering::Equal,
    decreases a.len(),
{
    if a.len() > 0 {
        lemma_lex_self(a.drop_first());
    }
}

/// Compares two category names for the listing: "Custom" first,
/// "Uncategorized" last, the others alphabetically, ignoring case.
pub fn compare_categories(a: &str, b: &str) -> (r: Ordering)
    ensures
        r == category_order(a@, b@),
{
    let ra = rank(a);
    let rb = rank(b);
    if ra < rb {
        Ordering::Less
    } else if ra > rb {
        Ordering::Greater
    } else if ra == 1 {
        let la = to_lower(a);
        let lb = to_lower(b);
        lex_compare(&to_chars(la.as_str()), &to_chars(lb.as_str()))
    } else {
        Ordering::Equal
    }
}

/// The engines of one subcategory, each under its link.
pub type Subcategory = Vec<(String, EngineDescription)>;

/// The subcategories of one category, each under its name.
pub type Category = Vec<(String, Subcategory)>;

pub type SubcategoryView = Seq<EntryView>;

pub type CategoryView = Seq<(Seq<char>, SubcategoryView)>;

pub type ListingView = Seq<(Seq<char>, CategoryView)>;

pub open spec fn subcategory_view(s: Seq<(String, EngineDescription)>) -> SubcategoryView {
    s.map_values(|e: (String, EngineDescription)| entry_view(e))
}

pub open spec fn category_view(c: Seq<(String, Subcategory)>) -> CategoryView {
    c.map_values(|p: (String, Subcategory)| (p.0@, subcategory_view(p.1@)))
}

pub open spec fn listing_view(l: Seq<(String, Category)>) -> ListingView {
    l.map_values(|p: (String, Category)| (p.0@, category_view(p.1@)))
}

/// The engines of a subcategory after adding `e`: it takes the place of an
/// engine with the same link, else it goes last.
pub open spec fn put_entry(list: SubcategoryView, e: EntryView) -> SubcategoryView
    decreases list.len(),
{
    if list.len() == 0 {
        seq![e]
    } else if list[0].0 == e.0 {
        seq![e] + list.drop_first()
    } else {
        seq![list[0]] + put_entry(list.drop_first(), e)
    }
}

/// The subcategories of a category after adding `e` under `name`, which is
/// added last if it is new.
pub open spec fn put_subcategory(subs: CategoryView, name: Seq<char>, e: EntryView) -> CategoryView
    decreases subs.len(),
{
    if subs.len() == 0 {
        seq![(name, seq![e])]
    } else if subs[0].0 == name {
        seq![(name, put_entry(subs[0].1, e))] + subs.drop_first()
    } else {
        seq![subs[0]] + put_subcategory(subs.drop_first(), name, e)
    }
}

/// The listing after adding `e` under category `name` and subcategory `sub`.
/// A new category goes before the first one that it orders before.
pub open spec fn put_category(
    cats: ListingView,
    name: Seq<char>,
    sub: Seq<char>,
    e: EntryView,
) -> ListingView
    decreases cats.len(),
{
    if cats.len() == 0 {
        seq![(name, seq![(sub, seq![e])])]
    } else if cats[0].0 == name {
        seq![(name, put_subcategory(cats[0].1, sub, e))] + cats.drop_first()
    } else if category_order(name, cats[0].0) == Ordering::Less {
        seq![(name, seq![(sub, seq![e])])] + cats
    } else {
        seq![cats[0]] + put_category(cats.drop_first(), name, sub, e)
    }
}

/// Each category is ordered no later than every one after it.
pub open spec fn categories_sorted(cats: ListingView) -> bool {
    forall|i: int, j: int|
        0 <= i < j < cats.len() ==> category_order(cats[i].0, cats[j].0) != Ordering::Greater
}

/// A name ordered no later than `name` and every category of `cats` is
/// ordered no later than every category after `name` is put in.
proof fn lemma_put_category_bound(
    cats: ListingView,
    name: Seq<char>,
    sub: Seq<char>,
    e: EntryView,
    x: Seq<char>,
)
    requires
        category_order(x, name) != Ordering::Greater,
        forall|i: int| 0 <= i < cats.len() ==> category_order(x, cats[i].0) != Ordering::Greater,
    ensures
        forall|i: int|
            0 <= i < put_category(cats, name, sub, e).len() ==> category_order(
                x,
                put_category(cats, name, sub, e)[i].0,
            ) != Ordering::Greater,
    decreases cats.len(),
{
    let r = put_category(cats, name, sub, e);
    if cats.len() > 0 && cats[0].0 != name && category_order(name, cats[0].0) != Ordering::Less {
        let rest = cats.drop_first();
        lemma_put_category_bound(rest, name, sub, e, x);
        assert forall|i: int| 0 <= i < r.len() implies category_order(x, r[i].0)
            != Ordering::Greater by {
            if i > 0 {
                assert(r[i] == put_category(rest, name, sub, e)[i - 1]);
            }
        }
    } else if cats.len() > 0 {
        assert forall|i: int| 0 <= i < r.len() implies category_order(x, r[i].0)
            != Ordering::Greater by {
            if i > 0 && cats[0].0 != name {
                assert(r[i] == cats[i - 1]);
            } else if i > 0 {
                assert(r[i] == cats[i]);
            }
        }
    }
}

/// Putting an engine into a listing keeps its categories in order.
pub proof fn lemma_put_category_sorted(cats: ListingView, name: Seq<char>, sub: Seq<char>, e: EntryView)
    requires
        categories_sorted(cats),
    ensures
        categories_sorted(put_category(cats, name, sub, e)),
    decreases cats.len(),
{
    let r = put_category(cats, name, sub, e);
    if cats.len() == 0 {
    } else if cats[0].0 == name {
        assert forall|i: int, j: int| 0 <= i < j < r.len() implies category_order(r[i].0, r[j].0)
            != Ordering::Greater by {
            assert(r[i].0 == cats[i].0 && r[j].0 == cats[j].0);
        }
    } else if category_order(name, cats[0].0) == Ordering::Less {
        assert forall|i: int, j: int| 0 <= i < j < r.len() implies category_order(r[i].0, r[j].0)
            != Ordering::Greater by {
            if i == 0 {
                if j > 1 {
                    lemma_order_transitive(name, cats[0].0, cats[j - 1].0);
                }
            } else {
                assert(r[i] == cats[i - 1] && r[j] == cats[j - 1]);
            }
        }
    } else {
        let rest = cats.drop_first();
        lemma_put_category_sorted(rest, name, sub, e);
        lemma_order_antisymmetric(name, cats[0].0);
        lemma_put_category_bound(rest, name, sub, e, cats[0].0);
        let pr = put_category(rest, name, sub, e);
        assert forall|i: int, j: int| 0 <= i < j < r.len() implies category_order(r[i].0, r[j].0)
            != Ordering::Greater by {
            assert(r[j] == pr[j - 1]);
            if i > 0 {
                assert(r[i] == pr[i - 1]);
            }
        }
    }
}

/// The listing of any engines has its categories in order.
pub proof fn lemma_grouped_sorted(engines: Seq<(Vec<String>, SearchEngine)>)
    ensures
        categories_sorted(grouped(engines)),
    decreases engines.len(),
{
    if engines.len() > 0 {
        lemma_grouped_sorted(engines.drop_last());
        let (names, e) = engines.last();
        lemma_put_category_sorted(
            grouped(engines.drop_last()),
            category_of(e@),
            subcategory_of(e@),
            described(names@, e@),
        );
    }
}

/// The category an engine is listed under.
pub open spec fn category_of(e: EngineRecord) -> Seq<char> {
    match e.category {
        Some(c) => c,
        None => "Uncategorized"@,
    }
}

/// The subcategory an engine is listed under; the empty name for none.
pub open spec fn subcategory_of(e: EngineRecord) -> Seq<char> {
    match e.subcategory {
        Some(c) => c,
        None => Seq::empty(),
    }
}

/// The listing of `engines`, each with its shortcuts, added in order.
pub open spec fn grouped(engines: Seq<(Vec<String>, SearchEngine)>) -> ListingView
    decreases engines.len(),
{
    if engines.len() == 0 {
        Seq::empty()
    } else {
        let (names, e) = engines.last();
        put_category(
            grouped(engines.drop_last()),
            category_of(e@),
            subcategory_of(e@),
            described(names@, e@),
        )
    }
}

fn single_entry(e: (String, EngineDescription)) -> (r: Subcategory)
    ensures
        subcategory_view(r@) == seq![entry_view(e)],
{
    let ghost ev = entry_view(e);
    let mut r: Subcategory = Vec::new();
    r.push(e);
    assert(subcategory_view(r@) =~= seq![ev]);
    r
}

fn single_subcategory(name: String, e: (String, EngineDescription)) -> (r: Category)
    ensures
        category_view(r@) == seq![(name@, seq![entry_view(e)])],
{
    let ghost ev = entry_view(e);
    let ghost nv = name@;
    let list = single_entry(e);
    let mut r: Category = Vec::new();
    r.push((name, list));
    assert(category_view(r@) =~= seq![(nv, seq![ev])]);
    r
}

fn add_entry(list: &mut Subcategory, e: (String, EngineDescription))
    ensures
        subcategory_view(final(list)@) == put_entry(subcategory_view(old(list)@), entry_view(e)),
{
    let ghost v = subcategory_view(list@);
    let ghost ev = entry_view(e);
    let mut i: usize = 0;
    assert(v.subrange(0, v.len() as int) =~= v);
    while i < list.len()
        invariant
            i <= list.len(),
            list@ == old(list)@,
            v == subcategory_view(list@),
            ev == entry_view(e),
            put_entry(v, ev) == v.subrange(0, i as int) + put_entry(v.subrange(i as int, v.len() as int), ev),
        decreases list.len() - i,
    {
        let ghost rest = v.subrange(i as int, v.len() as int);
        assert(rest[0] == entry_view(list@[i as int]));
        if list[i].0 == e.0 {
            assert(put_entry(rest, ev) == seq![ev] + rest.drop_first());
            list[i] = e;
            assert(subcategory_view(list@) =~= v.subrange(0, i as int) + (seq![ev] + rest.drop_first()));
            return;
        }
        assert(rest.drop_first() =~= v.subrange(i + 1, v.len() as int));
        assert(v.subrange(0, i + 1) =~= v.subrange(0, i as int) + seq![rest[0]]);
        i = i + 1;
    }
    list.push(e);
    assert(subcategory_view(list@) =~= v + seq![ev]);
}

fn add_to_subcategory(subs: &mut Category, name: String, e: (String, EngineDescription))
    ensures
        category_view(final(subs)@) == put_subcategory(category_view(old(subs)@), name@, entry_view(e)),
{
    let ghost v = category_view(subs@);
    let ghost ev = entry_view(e);
    let mut i: usize = 0;
    assert(v.subrange(0, v.len() as int) =~= v);
    while i < subs.len()
        invariant
            i <= subs.len(),
            subs@ == old(subs)@,
            v == category_view(subs@),
            ev == entry_view(e),
            put_subcategory(v, name@, ev) == v.subrange(0, i as int) + put_subcategory(
                v.subrange(i as int, v.len() as int),
                name@,
                ev,
            ),
        decreases subs.len() - i,
    {
        let ghost rest = v.subrange(i as int, v.len() as int);
        assert(rest[0] == (subs@[i as int].0@, subcategory_view(subs@[i as int].1@)));
        if subs[i].0 == name {
            assert(put_subcategory(rest, name@, ev) == seq![(name@, put_entry(rest[0].1, ev))]
                + rest.drop_first());
            let (key, mut list) = subs.remove(i);
            add_entry(&mut list, e);
            subs.insert(i, (key, list));
            assert(category_view(subs@) =~= v.subrange(0, i as int) + (seq![
                (name@, put_entry(rest[0].1, ev)),
            ] + rest.drop_first()));
            return;
        }
        assert(rest.drop_first() =~= v.subrange(i + 1, v.len() as int));
        assert(v.subrange(0, i + 1) =~= v.subrange(0, i as int) + seq![rest[0]]);
        i = i + 1;
    }
    let list = single_entry(e);
    subs.push((name, list));
    assert(category_view(subs@) =~= v + seq![(name@, seq![ev])]);
}

fn add_to_listing(
    cats: &mut Vec<(String, Category)>,
    name: String,
    sub: String,
    e: (String, EngineDescription),
)
    ensures
        listing_view(final(cats)@) == put_category(
            listing_view(old(cats)@),
            name@,
            sub@,
            entry_view(e),
        ),
{
    let ghost v = listing_view(cats@);
    let ghost ev = entry_view(e);
    let ghost fresh: (Seq<char>, CategoryView) = (name@, seq![(sub@, seq![ev])]);
    let mut i: usize = 0;
    assert(v.subrange(0, v.len() as int) =~= v);
    while i < cats.len()
        invariant
            i <= cats.len(),
            cats@ == old(cats)@,
            v == listing_view(cats@),
            ev == entry_view(e),
            fresh == (name@, seq![(sub@, seq![ev])]),
            put_category(v, name@, sub@, ev) == v.subrange(0, i as int) + put_category(
                v.subrange(i as int, v.len() as int),
                name@,
                sub@,
                ev,
            ),
        decreases cats.len() - i,
    {
        let ghost rest = v.subrange(i as int, v.len() as int);
        assert(rest[0] == (cats@[i as int].0@, category_view(cats@[i as int].1@)));
        if cats[i].0 == name {
            assert(put_category(rest, name@, sub@, ev) == seq![
                (name@, put_subcategory(rest[0].1, sub@, ev)),
            ] + rest.drop_first());
            let (key, mut subs) = cats.remove(i);
            add_to_subcategory(&mut subs, sub, e);
            cats.insert(i, (key, subs));
            assert(listing_view(cats@) =~= v.subrange(0, i as int) + (seq![
                (name@, put_subcategory(rest[0].1, sub@, ev)),
            ] + rest.drop_first()));
            return;
        }
        if matches!(compare_categories(name.as_str(), cats[i].0.as_str()), Ordering::Less) {
            assert(put_category(rest, name@, sub@, ev) == seq![fresh] + rest);
            let fresh_subs = single_subcategory(sub, e);
            cats.insert(i, (name, fresh_subs));
            assert(listing_view(cats@) =~= v.subrange(0, i as int) + (seq![fresh] + rest));
            return;
        }
        assert(rest.drop_first() =~= v.subrange(i + 1, v.len() as int));
        assert(v.subrange(0, i + 1) =~= v.subrange(0, i as int) + seq![rest[0]]);
        i = i + 1;
    }
    let fresh_subs = single_subcategory(sub, e);
    cats.push((name, fresh_subs));
    assert(listing_view(cats@) =~= v + seq![fresh]);
}

/// The engines of one subcategory after adding `engines` in order.
pub open spec fn entries_of(engines: Seq<(Vec<String>, SearchEngine)>) -> SubcategoryView
    decreases engines.len(),
{
    if engines.len() == 0 {
        Seq::empty()
    } else {
        let (names, e) = engines.last();
        put_entry(entries_of(engines.drop_last()), described(names@, e@))
    }
}

/// The subcategories after `name` is made to hold exactly `list`.
pub open spec fn set_subcategory(subs: CategoryView, name: Seq<char>, list: SubcategoryView) -> CategoryView
    decreases subs.len(),
{
    if subs.len() == 0 {
        seq![(name, list)]
    } else if subs[0].0 == name {
        seq![(name, list)] + subs.drop_first()
    } else {
        seq![subs[0]] + set_subcategory(subs.drop_first(), name, list)
    }
}

/// The listing after the unnamed subcategory of "Custom" is made to hold
/// exactly `list`; "Custom" is added if it is missing.
pub open spec fn with_custom(cats: ListingView, list: SubcategoryView) -> ListingView
    decreases cats.len(),
{
    if cats.len() == 0 {
        seq![("Custom"@, seq![(Seq::<char>::empty(), list)])]
    } else if cats[0].0 == "Custom"@ {
        seq![("Custom"@, set_subcategory(cats[0].1, Seq::empty(), list))] + cats.drop_first()
    } else if category_order("Custom"@, cats[0].0) == Ordering::Less {
        seq![("Custom"@, seq![(Seq::<char>::empty(), list)])] + cats
    } else {
        seq![cats[0]] + with_custom(cats.drop_first(), list)
    }
}

/// Whatever the listing holds, "Custom" comes first once the user's engines
/// are in it.
pub proof fn lemma_custom_first(cats: ListingView, list: SubcategoryView)
    ensures
        with_custom(cats, list).len() > 0,
        with_custom(cats, list)[0].0 == "Custom"@,
{
    if cats.len() > 0 && cats[0].0 != "Custom"@ {
        assert(category_rank("Custom"@) == 0);
        assert(category_rank(cats[0].0) > 0);
    }
}

proof fn lemma_with_custom_bound(cats: ListingView, list: SubcategoryView, x: Seq<char>)
    requires
        category_order(x, "Custom"@) != Ordering::Greater,
        forall|i: int| 0 <= i < cats.len() ==> category_order(x, cats[i].0) != Ordering::Greater,
    ensures
        forall|i: int|
            0 <= i < with_custom(cats, list).len() ==> category_order(
                x,
                with_custom(cats, list)[i].0,
            ) != Ordering::Greater,
    decreases cats.len(),
{
    let r = with_custom(cats, list);
    if cats.len() > 0 && cats[0].0 != "Custom"@ && category_order("Custom"@, cats[0].0)
        != Ordering::Less {
        let rest = cats.drop_first();
        lemma_with_custom_bound(rest, list, x);
        assert forall|i: int| 0 <= i < r.len() implies category_order(x, r[i].0)
            != Ordering::Greater by {
            if i > 0 {
                assert(r[i] == with_custom(rest, list)[i - 1]);
            }
        }
    } else if cats.len() > 0 {
        assert forall|i: int| 0 <= i < r.len() implies category_order(x, r[i].0)
            != Ordering::Greater by {
            if i > 0 && cats[0].0 != "Custom"@ {
                assert(r[i] == cats[i - 1]);
            } else if i > 0 {
                assert(r[i] == cats[i]);
            }
        }
    }
}

/// Putting the user's engines into a listing keeps its categories in order.
pub proof fn lemma_with_custom_sorted(cats: ListingView, list: SubcategoryView)
    requires
        categories_sorted(cats),
    ensures
        categories_sorted(with_custom(cats, list)),
    decreases cats.len(),
{
    let r = with_custom(cats, list);
    let name = "Custom"@;
    if cats.len() == 0 {
    } else if cats[0].0 == name {
        assert forall|i: int, j: int| 0 <= i < j < r.len() implies category_order(r[i].0, r[j].0)
            != Ordering::Greater by {
            assert(r[i].0 == cats[i].0 && r[j].0 == cats[j].0);
        }
    } else if category_order(name, cats[0].0) == Ordering::Less {
        assert forall|i: int, j: int| 0 <= i < j < r.len() implies category_order(r[i].0, r[j].0)
            != Ordering::Greater by {
            if i == 0 {
                if j > 1 {
                    lemma_order_transitive(name, cats[0].0, cats[j - 1].0);
                }
            } else {
                assert(r[i] == cats[i - 1] && r[j] == cats[j - 1]);
            }
        }
    } else {
        let rest = cats.drop_first();
        lemma_with_custom_sorted(rest, list);
        lemma_order_antisymmetric(name, cats[0].0);
        lemma_with_custom_bound(rest, list, cats[0].0);
        let pr = with_custom(rest, list);
        assert forall|i: int, j: int| 0 <= i < j < r.len() implies category_order(r[i].0, r[j].0)
            != Ordering::Greater by {
            assert(r[j] == pr[j - 1]);
            if i > 0 {
                assert(r[i] == pr[i - 1]);
            }
        }
    }
}

fn entries_of_engines(engines: &Vec<(Vec<String>, SearchEngine)>) -> (r: Subcategory)
    ensures
        subcategory_view(r@) == entries_of(engines@),
{
    let mut list: Subcategory = Vec::new();
    let mut i: usize = 0;
    assert(subcategory_view(list@) =~= entries_of(engines@.subrange(0, 0)));
    while i < engines.len()
        invariant
            i <= engines.len(),
            subcategory_view(list@) == entries_of(engines@.subrange(0, i as int)),
        decreases engines.len() - i,
    {
        let entry = map_engine(&engines[i].0, &engines[i].1);
        add_entry(&mut list, entry);
        let ghost next = engines@.subrange(0, i + 1);
        assert(next.drop_last() =~= engines@.subrange(0, i as int));
        i = i + 1;
    }
    assert(engines@.subrange(0, engines.len() as int) =~= engines@);
    list
}

fn set_unnamed(subs: &mut Category, list: Subcategory)
    ensures
        category_view(final(subs)@) == set_subcategory(
            category_view(old(subs)@),
            Seq::empty(),
            subcategory_view(list@),
        ),
{
    let ghost v = category_view(subs@);
    let ghost lv = subcategory_view(list@);
    let ghost empty = Seq::<char>::empty();
    let mut i: usize = 0;
    assert(v.subrange(0, v.len() as int) =~= v);
    while i < subs.len()
        invariant
            i <= subs.len(),
            subs@ == old(subs)@,
            v == category_view(subs@),
            lv == subcategory_view(list@),
            empty == Seq::<char>::empty(),
            set_subcategory(v, empty, lv) == v.subrange(0, i as int) + set_subcategory(
                v.subrange(i as int, v.len() as int),
                empty,
                lv,
            ),
        decreases subs.len() - i,
    {
        let ghost rest = v.subrange(i as int, v.len() as int);
        assert(rest[0] == (subs@[i as int].0@, subcategory_view(subs@[i as int].1@)));
        let current: &str = subs[i].0.as_str();
        assert(current@ == subs@[i as int].0@);
        if current.is_empty() {
            assert(rest[0].0 =~= empty);
            assert(set_subcategory(rest, empty, lv) == seq![(empty, lv)] + rest.drop_first());
            let name = String::new();
            subs[i] = (name, list);
            assert(subs@[i as int].0@ == empty);
            assert(category_view(subs@) =~= v.subrange(0, i as int) + (seq![(empty, lv)]
                + rest.drop_first()));
            return;
        }
        assert(rest[0].0 != empty);
        assert(rest.drop_first() =~= v.subrange(i + 1, v.len() as int));
        assert(v.subrange(0, i + 1) =~= v.subrange(0, i as int) + seq![rest[0]]);
        i = i + 1;
    }
    let name = String::new();
    subs.push((name, list));
    assert(category_view(subs@) =~= v + seq![(empty, lv)]);
}

fn custom_category(list: Subcategory) -> (r: Category)
    ensures
        category_view(r@) == seq![(Seq::<char>::empty(), subcategory_view(list@))],
{
    let ghost lv = subcategory_view(list@);
    let mut r: Category = Vec::new();
    r.push((String::new(), list));
    assert(category_view(r@) =~= seq![(Seq::<char>::empty(), lv)]);
    r
}

fn put_custom(cats: &mut Vec<(String, Category)>, list: Subcategory)
    ensures
        listing_view(final(cats)@) == with_custom(listing_view(old(cats)@), subcategory_view(list@)),
{
    let ghost v = listing_view(cats@);
    let ghost lv = subcategory_view(list@);
    let ghost fresh: (Seq<char>, CategoryView) = ("Custom"@, seq![(Seq::<char>::empty(), lv)]);
    let custom = String::from_str("Custom");
    let mut i: usize = 0;
    assert(v.subrange(0, v.len() as int) =~= v);
    while i < cats.len()
        invariant
            i <= cats.len(),
            cats@ == old(cats)@,
            v == listing_view(cats@),
            lv == subcategory_view(list@),
            custom@ == "Custom"@,
            fresh == ("Custom"@, seq![(Seq::<char>::empty(), lv)]),
            with_custom(v, lv) == v.subrange(0, i as int) + with_custom(
                v.subrange(i as int, v.len() as int),
                lv,
            ),
        decreases cats.len() - i,
    {
        let ghost rest = v.subrange(i as int, v.len() as int);
        assert(rest[0] == (cats@[i as int].0@, category_view(cats@[i as int].1@)));
        if cats[i].0 == custom {
            assert(with_custom(rest, lv) == seq![
                ("Custom"@, set_subcategory(rest[0].1, Seq::empty(), lv)),
            ] + rest.drop_first());
            let (key, mut subs) = cats.remove(i);
            set_unnamed(&mut subs, list);
            cats.insert(i, (key, subs));
            assert(listing_view(cats@) =~= v.subrange(0, i as int) + (seq![
                ("Custom"@, set_subcategory(rest[0].1, Seq::empty(), lv)),
            ] + rest.drop_first()));
            return;
        }
        if matches!(compare_categories(custom.as_str(), cats[i].0.as_str()), Ordering::Less) {
            assert(with_custom(rest, lv) == seq![fresh] + rest);
            let subs = custom_category(list);
            cats.insert(i, (custom, subs));
            assert(listing_view(cats@) =~= v.subrange(0, i as int) + (seq![fresh] + rest));
            return;
        }
        assert(rest.drop_first() =~= v.subrange(i + 1, v.len() as int));
        assert(v.subrange(0, i + 1) =~= v.subrange(0, i as int) + seq![rest[0]]);
        i = i + 1;
    }
    let subs = custom_category(list);
    cats.push((custom, subs));
    assert(listing_view(cats@) =~= v + seq![fresh]);
}

/// Groups the catalog's engines and the user's, each with its shortcuts, for
/// the listing. The catalog's go by category (none counts as
/// "Uncategorized"), then subcategory (none counts as the empty name); the
/// user's all go to the unnamed subcategory of "Custom", which always exists
/// and comes first. Categories come in listing order; subcategories and
/// engines in the order they first appear, an engine replacing an earlier
/// one with the same link.
pub fn generate_categories(
    builtin: &Vec<(Vec<String>, SearchEngine)>,
    custom: &Vec<(Vec<String>, SearchEngine)>,
) -> (r: Vec<(String, Category)>)
    ensures
        listing_view(r@) == with_custom(grouped(builtin@), entries_of(custom@)),
        r.len() > 0,
        r[0].0@ == "Custom"@,
        categories_sorted(listing_view(r@)),
{
    let mut cats: Vec<(String, Category)> = Vec::new();
    let mut i: usize = 0;
    assert(listing_view(cats@) =~= grouped(builtin@.subrange(0, 0)));
    while i < builtin.len()
        invariant
            i <= builtin.len(),
            listing_view(cats@) == grouped(builtin@.subrange(0, i as int)),
        decreases builtin.len() - i,
    {
        let names = &builtin[i].0;
        let e = &builtin[i].1;
        let category = match &e.category {
            Some(c) => c.clone(),
            None => String::from_str("Uncategorized"),
        };
        let subcategory = match &e.subcategory {
            Some(c) => c.clone(),
            None => String::new(),
        };
        let entry = map_engine(names, e);
        add_to_listing(&mut cats, category, subcategory, entry);
        let ghost next = builtin@.subrange(0, i + 1);
        assert(next.drop_last() =~= builtin@.subrange(0, i as int));
        i = i + 1;
    }
    assert(builtin@.subrange(0, builtin.len() as int) =~= builtin@);
    let list = entries_of_engines(custom);
    put_custom(&mut cats, list);
    proof {
        lemma_custom_first(grouped(builtin@), entries_of(custom@));
        lemma_grouped_sorted(builtin@);
        lemma_with_custom_sorted(grouped(builtin@), entries_of(custom@));
        assert(listing_view(cats@)[0] == (cats@[0].0@, category_view(cats@[0].1@)));
    }
    cats
}

} // verus!
