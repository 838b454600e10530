//! The catalog of search engines: deduplicated engine records with interned
//! category names, and an index from lower-cased shortcut to record.

use vstd::prelude::*;
use indexmap::{IndexMap, IndexSet};
use crate::tables::{
    disk_view, engine_items, engine_set_get, engine_set_insert, engine_set_len, index_entries,
    index_get, index_insert, index_pairs, new_engine_set, new_index, new_string_set, string_items,
    string_set_get, string_set_insert, string_set_len, DiskEngine, DiskView, IndexView,
};
use crate::text::{lower_of, to_lower};

verus! {

/// An engine record. Callers see it with owned strings (`SearchEngine`); the
/// same shape with views of them is what the contracts speak of.
#[derive(Debug, Clone, PartialEq, Eq, Hash)]
pub struct InternalSearchEngine<S, C> {
    pub name: S,
    pub url: S,
    pub category: C,
    pub subcategory: C,
}

/// An engine record with owned strings.
pub type SearchEngine = InternalSearchEngine<String, Option<String>>;

/// What an engine record holds.
pub type EngineRecord = InternalSearchEngine<Seq<char>, Option<Seq<char>>>;

pub open spec fn opt_view(o: Option<String>) -> Option<Seq<char>> {
    match o {
        Some(s) => Some(s@),
        None => None,
    }
}

impl View for InternalSearchEngine<String, Option<String>> {
    type V = EngineRecord;

    open spec fn view(&self) -> EngineRecord {
        InternalSearchEngine {
            name: self.name@,
            url: self.url@,
            category: opt_view(self.category),
            subcategory: opt_view(self.subcategory),
        }
    }
}

/// The table after interning `c`, and the index that stands for it: 0 for no
/// value, else the place of `c`, which is added at the end if it is new.
pub open spec fn interned(table: Seq<Seq<char>>, c: Option<Seq<char>>) -> (Seq<Seq<char>>, usize) {
    match c {
        None => (table, 0),
        Some(s) => if table.contains(s) {
            (table, table.index_of(s) as usize)
        } else {
            (table.push(s), table.len() as usize)
        },
    }
}

/// What a catalog holds.
pub struct CatalogView {
    pub shortcuts: IndexView,
    pub engines: Seq<DiskView>,
    pub categories: Seq<Seq<char>>,
}

impl CatalogView {
    /// Slot 0 of the category table is the empty string and stands for "no
    /// category"; no string or engine is stored twice; every index points
    /// into its table.
    pub open spec fn wf(self) -> bool {
        &&& self.categories.len() >= 1
        &&& self.categories[0] == Seq::<char>::empty()
        &&& self.categories.no_duplicates()
        &&& self.engines.no_duplicates()
        &&& forall|i: int|
            0 <= i < self.engines.len() ==> (#[trigger] self.engines[i]).2 < self.categories.len()
                && self.engines[i].3 < self.categories.len()
        &&& forall|k: Seq<char>| #[trigger]
            self.shortcuts.contains_key(k) ==> self.shortcuts[k] < self.engines.len()
    }

    /// The category that index `i` stands for.
    pub open spec fn category_at(self, i: usize) -> Option<Seq<char>> {
        if i == 0 {
            None
        } else {
            Some(self.categories[i as int])
        }
    }

    /// The record at place `i` of the engine table, its categories resolved.
    pub open spec fn engine_at(self, i: int) -> EngineRecord {
        let d = self.engines[i];
        InternalSearchEngine {
            name: d.0,
            url: d.1,
            category: self.category_at(d.2),
            subcategory: self.category_at(d.3),
        }
    }

    /// The record that `shortcut` names, whatever its case.
    pub open spec fn lookup(self, shortcut: Seq<char>) -> Option<EngineRecord> {
        let k = lower_of(shortcut);
        if self.shortcuts.contains_key(k) {
            Some(self.engine_at(self.shortcuts[k] as int))
        } else {
            None
        }
    }

    /// The catalog after `shortcut` is made to name the record `e`.
    pub open spec fn inserted(self, shortcut: Seq<char>, e: EngineRecord) -> CatalogView {
        let (c1, ci) = interned(self.categories, e.category);
        let (c2, si) = interned(c1, e.subcategory);
        let d = (e.name, e.url, ci, si);
        let (table, idx) = if self.engines.contains(d) {
            (self.engines, self.engines.index_of(d) as usize)
        } else {
            (self.engines.push(d), self.engines.len() as usize)
        };
        CatalogView {
            shortcuts: self.shortcuts.insert(lower_of(shortcut), idx),
            engines: table,
            categories: c2,
        }
    }
}

/// The record that the reserved shortcut `info` names.
pub open spec fn info_record() -> EngineRecord {
    InternalSearchEngine {
        name: "View This Page"@,
        url: "/info"@,
        category: None,
        subcategory: None,
    }
}

proof fn lemma_index_of_unique<A>(s: Seq<A>, j: int)
    requires
        s.no_duplicates(),
        0 <= j < s.len(),
    ensures
        s.contains(s[j]),
        s.index_of(s[j]) == j,
{
    assert(0 <= j < s.len() && s[j] == s[j]);
    let k = s.index_of(s[j]);
    assert(0 <= k < s.len() && s[k] == s[j]);
}

proof fn lemma_push_fresh_no_duplicates<A>(s: Seq<A>, x: A)
    requires
        s.no_duplicates(),
        !s.contains(x),
    ensures
        s.push(x).no_duplicates(),
{
    let t = s.push(x);
    assert forall|a: int, b: int| 0 <= a < t.len() && 0 <= b < t.len() && a != b implies t[a]
        != t[b] by {
        if a < s.len() && b < s.len() {
            assert(t[a] == s[a] && t[b] == s[b]);
        } else if a < s.len() {
            assert(t[a] == s[a]);
        } else {
            assert(t[b] == s[b]);
        }
    }
}

/// Interning keeps the table free of duplicates, only ever appends, and
/// gives an index whose entry is the interned value.
proof fn lemma_interned(table: Seq<Seq<char>>, c: Option<Seq<char>>)
    requires
        table.len() <= usize::MAX,
        table.no_duplicates(),
        table.len() >= 1,
        table[0] == Seq::<char>::empty(),
    ensures
        interned(table, c).0.no_duplicates(),
        interned(table, c).0.len() >= table.len(),
        interned(table, c).0.subrange(0, table.len() as int) == table,
        interned(table, c).1 < interned(table, c).0.len(),
        c is None ==> interned(table, c) == (table, 0usize),
        c is Some ==> interned(table, c).0[interned(table, c).1 as int] == c->0,
        c is Some ==> interned(table, c).0.contains(c->0),
        interned(interned(table, c).0, c) == interned(table, c),
{
    let (t, i) = interned(table, c);
    match c {
        None => {
            assert(table.subrange(0, table.len() as int) =~= table);
        },
        Some(s) => {
            if table.contains(s) {
                let k = table.index_of(s);
                assert(table.subrange(0, table.len() as int) =~= table);
                assert(0 <= k < table.len() && table[k] == s);
            } else {
                lemma_push_fresh_no_duplicates(table, s);
                assert(t.subrange(0, table.len() as int) =~= table);
                lemma_index_of_unique(t, table.len() as int);
            }
            lemma_index_of_unique(t, i as int);
        },
    }
}

/// Inserting into a well-formed catalog gives a well-formed catalog.
pub proof fn lemma_inserted_wf(c: CatalogView, shortcut: Seq<char>, e: EngineRecord)
    requires
        c.wf(),
        c.categories.len() < usize::MAX,
        c.engines.len() <= usize::MAX,
    ensures
        c.inserted(shortcut, e).wf(),
        c.inserted(shortcut, e).engines.subrange(0, c.engines.len() as int) == c.engines,
{
    let (c1, ci) = interned(c.categories, e.category);
    lemma_interned(c.categories, e.category);
    assert(c1[0] == c1.subrange(0, c.categories.len() as int)[0]);
    let (c2, si) = interned(c1, e.subcategory);
    lemma_interned(c1, e.subcategory);
    assert(c2[0] == c2.subrange(0, c1.len() as int)[0]);
    let d = (e.name, e.url, ci, si);
    let r = c.inserted(shortcut, e);
    if c.engines.contains(d) {
        let k = c.engines.index_of(d);
        assert(0 <= k < c.engines.len() && c.engines[k] == d);
        assert(c.engines.subrange(0, c.engines.len() as int) =~= c.engines);
    } else {
        lemma_push_fresh_no_duplicates(c.engines, d);
        assert(r.engines.subrange(0, c.engines.len() as int) =~= c.engines);
    }
    assert forall|i: int| 0 <= i < r.engines.len() implies (#[trigger] r.engines[i]).2
        < r.categories.len() && r.engines[i].3 < r.categories.len() by {
        if i < c.engines.len() {
            assert(r.engines[i] == c.engines[i]);
        }
    }
}

/// Two shortcuts that name identical records share one stored record: after
/// both are inserted they point at the same place, and the second insertion
/// stores nothing new.
pub proof fn lemma_identical_records_share_storage(
    c: CatalogView,
    a: Seq<char>,
    b: Seq<char>,
    e: EngineRecord,
)
    requires
        c.wf(),
        c.categories.len() < usize::MAX,
        c.engines.len() <= usize::MAX,
    ensures
        c.inserted(a, e).inserted(b, e).engines == c.inserted(a, e).engines,
        c.inserted(a, e).inserted(b, e).shortcuts[lower_of(a)] == c.inserted(a, e).inserted(
            b,
            e,
        ).shortcuts[lower_of(b)],
        c.inserted(a, e).inserted(b, e).lookup(a) == c.inserted(a, e).inserted(b, e).lookup(b),
{
    let c1 = c.inserted(a, e);
    lemma_inserted_wf(c, a, e);
    lemma_interned(c.categories, e.category);
    let (t1, ci) = interned(c.categories, e.category);
    lemma_interned(t1, e.subcategory);
    let (t2, si) = interned(t1, e.subcategory);
    assert(t2[0] == t2.subrange(0, c.categories.len() as int)[0]);
    let d = (e.name, e.url, ci, si);
    assert(c1.categories == t2);
    match e.category {
        Some(s) => {
            assert(t1.contains(s));
            let k = ci as int;
            assert(t2[k] == t1[k]) by {
                assert(t2.subrange(0, t1.len() as int)[k] == t2[k]);
            }
            lemma_index_of_unique(t2, k);
        },
        None => {},
    }
    assert(interned(t2, e.category) == (t2, ci));
    assert(interned(t2, e.subcategory) == (t2, si));
    let idx = c1.shortcuts[lower_of(a)];
    assert(c1.engines[idx as int] == d) by {
        if c.engines.contains(d) {
            let k = c.engines.index_of(d);
            assert(c1.engines[k] == d);
        }
    }
    lemma_index_of_unique(c1.engines, idx as int);
}

#[derive(Debug)]
pub struct SearchEngineDatabase {
    shortcuts: IndexMap<String, usize>,
    engines: IndexSet<DiskEngine>,
    categories: IndexSet<String>,
}

impl View for SearchEngineDatabase {
    type V = CatalogView;

    closed spec fn view(&self) -> CatalogView {
        CatalogView {
            shortcuts: index_entries(self.shortcuts),
            engines: engine_items(self.engines),
            categories: string_items(self.categories),
        }
    }
}

/// A stored record with owned strings, as the catalog's parts hand it out.
pub type DiskRecord = InternalSearchEngine<String, usize>;

pub open spec fn disk_record_view(d: DiskRecord) -> DiskView {
    (d.name@, d.url@, d.category, d.subcategory)
}

/// The parts describe the catalog `c`.
pub open spec fn parts_match(
    c: CatalogView,
    shortcuts: Seq<(String, usize)>,
    engines: Seq<DiskRecord>,
    categories: Seq<String>,
) -> bool {
    &&& engines.len() == c.engines.len()
    &&& forall|i: int| 0 <= i < engines.len() ==> disk_record_view(#[trigger] engines[i]) == c.engines[i]
    &&& categories.len() == c.categories.len()
    &&& forall|i: int| 0 <= i < categories.len() ==> (#[trigger] categories[i])@ == c.categories[i]
    &&& forall|i: int|
        0 <= i < shortcuts.len() ==> c.shortcuts.contains_key((#[trigger] shortcuts[i]).0@)
            && c.shortcuts[shortcuts[i].0@] == shortcuts[i].1
    &&& forall|k: Seq<char>| #[trigger]
        c.shortcuts.contains_key(k) ==> exists|i: int| 0 <= i < shortcuts.len() && (#[trigger] shortcuts[i]).0@ == k
    &&& forall|i: int, j: int| 0 <= i < j < shortcuts.len() ==> shortcuts[i].0@ != shortcuts[j].0@
}

/// Parts that some well-formed catalog gives.
pub open spec fn parts_valid(
    shortcuts: Seq<(String, usize)>,
    engines: Seq<DiskRecord>,
    categories: Seq<String>,
) -> bool {
    &&& categories.len() >= 1
    &&& categories[0]@ == Seq::<char>::empty()
    &&& forall|i: int, j: int| 0 <= i < j < categories.len() ==> categories[i]@ != categories[j]@
    &&& forall|i: int, j: int|
        0 <= i < j < engines.len() ==> disk_record_view(engines[i]) != disk_record_view(engines[j])
    &&& forall|i: int|
        0 <= i < engines.len() ==> (#[trigger] engines[i]).category < categories.len()
            && engines[i].subcategory < categories.len()
    &&& forall|i: int| 0 <= i < shortcuts.len() ==> (#[trigger] shortcuts[i]).1 < engines.len()
    &&& forall|i: int, j: int| 0 <= i < j < shortcuts.len() ==> shortcuts[i].0@ != shortcuts[j].0@
}

/// `names` holds a string whose characters are `k`.
pub open spec fn names_include(names: Seq<String>, k: Seq<char>) -> bool {
    exists|j: int| 0 <= j < names.len() && names[j]@ == k
}

/// A catalog with only the empty category name and no engines.
pub open spec fn blank_catalog() -> CatalogView {
    CatalogView {
        shortcuts: IndexView::empty(),
        engines: Seq::empty(),
        categories: seq![Seq::<char>::empty()],
    }
}

impl SearchEngineDatabase {
    pub open spec fn wf(&self) -> bool {
        self@.wf()
    }

    /// A catalog that holds the reserved shortcut `info` and nothing else.
    pub fn new() -> (r: Self)
        ensures
            r.wf(),
            r@ == blank_catalog().inserted("info"@, info_record()),
            r@.engines.len() == 1,
            r@.lookup("info"@) == Some(info_record()),
    {
        let mut categories = new_string_set();
        let _ = string_set_insert(&mut categories, String::new());
        let mut me = SearchEngineDatabase {
            shortcuts: new_index(),
            engines: new_engine_set(),
            categories,
        };
        assert(me@ =~= blank_catalog());
        let info = InternalSearchEngine {
            name: String::from_str("View This Page"),
            url: String::from_str("/info"),
            category: None,
            subcategory: None,
        };
        assert(info@ == info_record());
        me.insert("info", info);
        proof {
            reveal_strlit("info");
            let d = ("View This Page"@, "/info"@, 0usize, 0usize);
            assert(!Seq::<DiskView>::empty().contains(d));
            assert(me@.engines =~= seq![d]);
            assert(me@.shortcuts.contains_key(lower_of("info"@)));
        }
        me
    }

    fn insert_category(&mut self, s: Option<String>) -> (r: usize)
        requires
            old(self)@.categories.no_duplicates(),
        ensures
            (final(self)@.categories, r) == interned(old(self)@.categories, opt_view(s)),
            final(self)@.shortcuts == old(self)@.shortcuts,
            final(self)@.engines == old(self)@.engines,
    {
        match s {
            None => 0,
            Some(s) => {
                let ghost v = s@;
                let (i, _) = string_set_insert(&mut self.categories, s);
                proof {
                    if old(self)@.categories.contains(v) {
                        lemma_index_of_unique(old(self)@.categories, i as int);
                    }
                }
                i
            },
        }
    }

    /// Makes `shortcut`, lower-cased, name `engine`. An identical record
    /// already in the catalog is shared rather than stored again, and category
    /// names are interned.
    pub fn insert(&mut self, shortcut: &str, engine: SearchEngine)
        requires
            old(self).wf(),
        ensures
            final(self).wf(),
            final(self)@ == old(self)@.inserted(shortcut@, engine@),
    {
        let ghost e = engine@;
        let ghost v0 = self@;
        let category = self.insert_category(engine.category);
        let ghost v1 = self@;
        proof {
            if let Some(c) = e.category {
                if !v0.categories.contains(c) {
                    lemma_push_fresh_no_duplicates(v0.categories, c);
                }
            }
        }
        let subcategory = self.insert_category(engine.subcategory);
        let ghost v2 = self@;
        let disk: DiskEngine = (engine.name, engine.url, category, subcategory);
        let ghost d = disk_view(disk);
        let (idx, _) = engine_set_insert(&mut self.engines, disk);
        proof {
            if v2.engines.contains(d) {
                lemma_index_of_unique(v2.engines, idx as int);
            }
        }
        let key = to_lower(shortcut);
        index_insert(&mut self.shortcuts, key, idx);
        proof {
            let v3 = self@;
            if let Some(c) = e.subcategory {
                if !v1.categories.contains(c) {
                    lemma_push_fresh_no_duplicates(v1.categories, c);
                }
            }
            if !v2.engines.contains(d) {
                lemma_push_fresh_no_duplicates(v2.engines, d);
            }
            assert forall|i: int| 0 <= i < v3.engines.len() implies (#[trigger] v3.engines[i]).2
                < v3.categories.len() && v3.engines[i].3 < v3.categories.len() by {
                if i < v0.engines.len() {
                    assert(v3.engines[i] == v0.engines[i]);
                }
            }
            assert(v3 == v0.inserted(shortcut@, e));
        }
    }

    /// The category that index `idx` stands for; 0 stands for none.
    fn get_category(&self, idx: usize) -> (r: Option<String>)
        ensures
            idx < self@.categories.len() ==> opt_view(r) == self@.category_at(idx),
            idx >= self@.categories.len() ==> r is None,
    {
        if idx != 0 {
            match string_set_get(&self.categories, idx) {
                Some(s) => Some(s.clone()),
                None => None,
            }
        } else {
            None
        }
    }

    fn construct_engine(&self, disk: &DiskEngine) -> (r: SearchEngine)
        requires
            self.wf(),
            disk.2 < self@.categories.len(),
            disk.3 < self@.categories.len(),
        ensures
            r@ == (InternalSearchEngine {
                name: disk.0@,
                url: disk.1@,
                category: self@.category_at(disk.2),
                subcategory: self@.category_at(disk.3),
            }),
    {
        InternalSearchEngine {
            name: disk.0.clone(),
            url: disk.1.clone(),
            category: self.get_category(disk.2),
            subcategory: self.get_category(disk.3),
        }
    }

    /// The record that `shortcut` names, whatever its case.
    pub fn get(&self, shortcut: &str) -> (r: Option<SearchEngine>)
        requires
            self.wf(),
        ensures
            match r {
                Some(e) => self@.lookup(shortcut@) == Some(e@),
                None => self@.lookup(shortcut@) is None,
            },
    {
        let key = to_lower(shortcut);
        match index_get(&self.shortcuts, key.as_str()) {
            Some(i) => match engine_set_get(&self.engines, i) {
                Some(disk) => Some(self.construct_engine(disk)),
                None => None,
            },
            None => None,
        }
    }

    /// Each record in table order, with every shortcut that names it.
    pub fn engines(&self) -> (r: Vec<(Vec<String>, SearchEngine)>)
        requires
            self.wf(),
        ensures
            r.len() == self@.engines.len(),
            forall|i: int| 0 <= i < r.len() ==> (#[trigger] r[i]).1@ == self@.engine_at(i),
            forall|i: int, j: int|
                0 <= i < r.len() && 0 <= j < r[i].0.len() ==> self@.shortcuts.contains_key(
                    (#[trigger] r[i].0[j])@,
                ) && self@.shortcuts[r[i].0[j]@] == i,
            forall|k: Seq<char>| #[trigger]
                self@.shortcuts.contains_key(k) ==> names_include(
                    r[self@.shortcuts[k] as int].0@,
                    k,
                ),
            forall|i: int, j: int, k: int|
                0 <= i < r.len() && 0 <= j < k < r[i].0.len() ==> (#[trigger] r[i].0[j])@
                    != (#[trigger] r[i].0[k])@,
    {
        let n = engine_set_len(&self.engines);
        let mut buckets: Vec<Vec<String>> = Vec::new();
        let mut e: usize = 0;
        while e < n
            invariant
                n == self@.engines.len(),
                e <= n,
                buckets.len() == e,
                forall|b: int| 0 <= b < e ==> (#[trigger] buckets[b]).len() == 0,
            decreases n - e,
        {
            buckets.push(Vec::new());
            e = e + 1;
        }
        let pairs = index_pairs(&self.shortcuts);
        assert forall|i: int| 0 <= i < pairs.len() implies (#[trigger] pairs[i]).1 < n by {
            assert(self@.shortcuts.contains_key(pairs[i].0@));
        }
        let mut p: usize = 0;
        while p < pairs.len()
            invariant
                self.wf(),
                n == self@.engines.len(),
                p <= pairs.len(),
                buckets.len() == n,
                forall|i: int|
                    0 <= i < pairs.len() ==> self@.shortcuts.contains_key((#[trigger] pairs[i]).0@)
                        && self@.shortcuts[pairs[i].0@] == pairs[i].1,
                forall|i: int| 0 <= i < pairs.len() ==> (#[trigger] pairs[i]).1 < n,
                forall|b: int, j: int|
                    0 <= b < n && 0 <= j < buckets[b].len() ==> self@.shortcuts.contains_key(
                        (#[trigger] buckets[b][j])@,
                    ) && self@.shortcuts[buckets[b][j]@] == b,
                forall|q: int|
                    0 <= q < p ==> names_include(
                        buckets[(#[trigger] pairs[q]).1 as int]@,
                        pairs[q].0@,
                    ),
                forall|a: int, b: int| 0 <= a < b < pairs.len() ==> pairs[a].0@ != pairs[b].0@,
                forall|b: int, j: int|
                    0 <= b < n && 0 <= j < buckets[b].len() ==> exists|q: int|
                        0 <= q < p && (#[trigger] pairs[q]).0@ == (#[trigger] buckets[b][j])@,
                forall|b: int, j: int, k: int|
                    0 <= b < n && 0 <= j < k < buckets[b].len() ==> (#[trigger] buckets[b][j])@
                        != (#[trigger] buckets[b][k])@,
            decreases pairs.len() - p,
        {
            let key = pairs[p].0.clone();
            let t = pairs[p].1;
            assert(self@.shortcuts.contains_key(pairs[p as int].0@));
            let ghost old_buckets = buckets@;
            buckets[t].push(key);
            p = p + 1;
            proof {
                assert forall|b: int| 0 <= b < n && b != t implies buckets[b] == old_buckets[b] by {}
                assert(buckets[t as int]@ == old_buckets[t as int]@.push(pairs[p - 1].0));
                assert forall|q: int| 0 <= q < p implies names_include(
                    buckets[(#[trigger] pairs[q]).1 as int]@,
                    pairs[q].0@,
                ) by {
                    let b = pairs[q].1 as int;
                    if q < p - 1 {
                        let j = choose|j: int|
                            0 <= j < old_buckets[b].len() && old_buckets[b][j]@ == pairs[q].0@;
                        assert(buckets[b][j] == old_buckets[b][j]);
                    } else {
                        let j = buckets[t as int].len() - 1;
                        assert(buckets[b][j]@ == pairs[q].0@);
                    }
                }
                assert forall|b: int, j: int|
                    0 <= b < n && 0 <= j < buckets[b].len() implies self@.shortcuts.contains_key(
                    (#[trigger] buckets[b][j])@,
                ) && self@.shortcuts[buckets[b][j]@] == b by {
                    if b != t || j < old_buckets[b].len() {
                        assert(buckets[b][j] == old_buckets[b][j]);
                    }
                }
                assert forall|b: int, j: int|
                    0 <= b < n && 0 <= j < buckets[b].len() implies exists|q: int|
                        0 <= q < p && (#[trigger] pairs[q]).0@ == (#[trigger] buckets[b][j])@ by {
                    if b != t || j < old_buckets[b].len() {
                        assert(buckets[b][j] == old_buckets[b][j]);
                        let q = choose|q: int|
                            0 <= q < p - 1 && (#[trigger] pairs[q]).0@ == old_buckets[b][j]@;
                        assert(pairs[q].0@ == buckets[b][j]@);
                    } else {
                        assert(pairs[p - 1].0@ == buckets[b][j]@);
                    }
                }
                assert forall|b: int, j: int, k: int|
                    0 <= b < n && 0 <= j < k < buckets[b].len() implies (#[trigger] buckets[b][j])@
                        != (#[trigger] buckets[b][k])@ by {
                    if b != t || k < old_buckets[b].len() {
                        assert(buckets[b][j] == old_buckets[b][j]);
                        assert(buckets[b][k] == old_buckets[b][k]);
                    } else {
                        assert(buckets[b][j] == old_buckets[b][j]);
                        let q = choose|q: int|
                            0 <= q < p - 1 && (#[trigger] pairs[q]).0@ == old_buckets[b][j]@;
                        assert(pairs[q].0@ != pairs[p - 1].0@);
                    }
                }
            }
        }
        let mut r: Vec<(Vec<String>, SearchEngine)> = Vec::new();
        let mut i: usize = 0;
        while i < n
            invariant
                self.wf(),
                n == self@.engines.len(),
                i <= n,
                buckets.len() == n,
                r.len() == i,
                forall|k: int| 0 <= k < i ==> (#[trigger] r[k]).1@ == self@.engine_at(k),
                forall|k: int| 0 <= k < i ==> (#[trigger] r[k]).0@ == buckets[k]@,
                forall|b: int, j: int, k: int|
                    0 <= b < n && 0 <= j < k < buckets[b].len() ==> (#[trigger] buckets[b][j])@
                        != (#[trigger] buckets[b][k])@,
            decreases n - i,
        {
            let d = engine_set_get(&self.engines, i);
            match d {
                Some(disk) => {
                    assert(disk_view(*disk) == self@.engines[i as int]);
                    let e = self.construct_engine(disk);
                    let names = buckets[i].clone();
                    assert(names@ =~= buckets[i as int]@);
                    r.push((names, e));
                },
                None => {},
            }
            i = i + 1;
        }
        proof {
            assert forall|k: Seq<char>| #[trigger]
                self@.shortcuts.contains_key(k) implies names_include(
                    r[self@.shortcuts[k] as int].0@,
                    k,
                ) by {
                let q = choose|q: int| 0 <= q < pairs.len() && #[trigger] pairs[q].0@ == k;
                assert(pairs[q].1 == self@.shortcuts[k]);
                assert(names_include(buckets[pairs[q].1 as int]@, pairs[q].0@));
                assert(r[self@.shortcuts[k] as int].0@ == buckets[pairs[q].1 as int]@);
            }
            assert forall|i: int, j: int, k: int|
                0 <= i < r.len() && 0 <= j < k < r[i].0.len() implies (#[trigger] r[i].0[j])@
                    != (#[trigger] r[i].0[k])@ by {
                assert(r[i].0@ == buckets[i]@);
                assert(r[i].0[j] == buckets[i][j] && r[i].0[k] == buckets[i][k]);
            }
        }
        r
    }

    /// The catalog's three tables as plain values: each shortcut with the
    /// index of its record, the records with category indices, and the
    /// interned category names.
    pub fn to_parts(&self) -> (r: (Vec<(String, usize)>, Vec<DiskRecord>, Vec<String>))
        requires
            self.wf(),
        ensures
            parts_match(self@, r.0@, r.1@, r.2@),
    {
        let shortcuts = index_pairs(&self.shortcuts);
        let n = engine_set_len(&self.engines);
        let mut engines: Vec<DiskRecord> = Vec::new();
        let mut i: usize = 0;
        while i < n
            invariant
                n == self@.engines.len(),
                i <= n,
                engines.len() == i,
                forall|k: int| 0 <= k < i ==> disk_record_view(#[trigger] engines[k]) == self@.engines[k],
            decreases n - i,
        {
            match engine_set_get(&self.engines, i) {
                Some(d) => {
                    engines.push(
                        InternalSearchEngine {
                            name: d.0.clone(),
                            url: d.1.clone(),
                            category: d.2,
                            subcategory: d.3,
                        },
                    );
                },
                None => {},
            }
            i = i + 1;
        }
        let m = string_set_len(&self.categories);
        let mut categories: Vec<String> = Vec::new();
        let mut j: usize = 0;
        while j < m
            invariant
                m == self@.categories.len(),
                j <= m,
                categories.len() == j,
                forall|k: int| 0 <= k < j ==> (#[trigger] categories[k])@ == self@.categories[k],
            decreases m - j,
        {
            match string_set_get(&self.categories, j) {
                Some(c) => {
                    categories.push(c.clone());
                },
                None => {},
            }
            j = j + 1;
        }
        (shortcuts, engines, categories)
    }

    /// Rebuilds a catalog from its parts, as `to_parts` gives them. Parts
    /// that no well-formed catalog gives (a repeated key, record or name, an
    /// index out of range, a first category name that is not empty) give
    /// nothing.
    pub fn from_parts(
        shortcuts: Vec<(String, usize)>,
        engines: Vec<DiskRecord>,
        categories: Vec<String>,
    ) -> (r: Option<Self>)
        ensures
            r is Some <==> parts_valid(shortcuts@, engines@, categories@),
            r is Some ==> r->0.wf() && parts_match(r->0@, shortcuts@, engines@, categories@),
    {
        let ghost sh = shortcuts@;
        let ghost en = engines@;
        let ghost ca = categories@;
        let mut cats = new_string_set();
        let mut i: usize = 0;
        while i < categories.len()
            invariant
                categories@ == ca,
                i <= ca.len(),
                string_items(cats).len() == i,
                forall|k: int| 0 <= k < i ==> string_items(cats)[k] == (#[trigger] ca[k])@,
                string_items(cats).no_duplicates(),
            decreases ca.len() - i,
        {
            let c = categories[i].clone();
            let ghost before = string_items(cats);
            let (_, fresh) = string_set_insert(&mut cats, c);
            if !fresh {
                proof {
                    let k = before.index_of(ca[i as int]@);
                    assert(ca[k]@ == ca[i as int]@);
                    assert(!parts_valid(sh, en, ca));
                }
                return None;
            }
            proof {
                lemma_push_fresh_no_duplicates(before, ca[i as int]@);
            }
            i = i + 1;
        }
        let ncat = string_set_len(&cats);
        if ncat == 0 {
            return None;
        }
        match string_set_get(&cats, 0) {
            Some(first) => {
                if !first.as_str().is_empty() {
                    proof {
                        assert(ca[0]@.len() != 0);
                    }
                    return None;
                }
            },
            None => {
                return None;
            },
        }
        let mut table = new_engine_set();
        let mut j: usize = 0;
        while j < engines.len()
            invariant
                categories@ == ca,
                engines@ == en,
                string_items(cats).len() == ncat == ca.len(),
                j <= en.len(),
                engine_items(table).len() == j,
                forall|k: int| 0 <= k < j ==> engine_items(table)[k] == disk_record_view(#[trigger] en[k]),
                forall|k: int| 0 <= k < j ==> (#[trigger] en[k]).category < ncat && en[k].subcategory < ncat,
                engine_items(table).no_duplicates(),
            decreases en.len() - j,
        {
            let e = &engines[j];
            if e.category >= ncat || e.subcategory >= ncat {
                return None;
            }
            let d: DiskEngine = (e.name.clone(), e.url.clone(), e.category, e.subcategory);
            let ghost before = engine_items(table);
            let (_, fresh) = engine_set_insert(&mut table, d);
            if !fresh {
                proof {
                    let k = before.index_of(disk_view(d));
                    assert(disk_record_view(en[k]) == disk_record_view(en[j as int]));
                }
                return None;
            }
            proof {
                lemma_push_fresh_no_duplicates(before, disk_view(d));
            }
            j = j + 1;
        }
        let nen = engine_set_len(&table);
        let mut index = new_index();
        let mut p: usize = 0;
        while p < shortcuts.len()
            invariant
                shortcuts@ == sh,
                engines@ == en,
                categories@ == ca,
                nen == en.len(),
                p <= sh.len(),
                forall|k: int| 0 <= k < p ==> (#[trigger] sh[k]).1 < nen,
                forall|a: int, b: int| 0 <= a < b < p ==> sh[a].0@ != sh[b].0@,
                forall|k: int|
                    0 <= k < p ==> index_entries(index).contains_key((#[trigger] sh[k]).0@)
                        && index_entries(index)[sh[k].0@] == sh[k].1,
                forall|key: Seq<char>| #[trigger]
                    index_entries(index).contains_key(key) ==> exists|k: int|
                        0 <= k < p && (#[trigger] sh[k]).0@ == key,
            decreases sh.len() - p,
        {
            let key = &shortcuts[p].0;
            let target = shortcuts[p].1;
            if target >= nen {
                proof {
                    assert(sh[p as int].1 >= en.len());
                }
                return None;
            }
            if index_get(&index, key.as_str()).is_some() {
                proof {
                    let k = choose|k: int| 0 <= k < p && (#[trigger] sh[k]).0@ == key@;
                    assert(sh[k].0@ == sh[p as int].0@);
                }
                return None;
            }
            index_insert(&mut index, key.clone(), target);
            p = p + 1;
        }
        let db = SearchEngineDatabase { shortcuts: index, engines: table, categories: cats };
        proof {
            let v = db@;
            assert(v.categories == string_items(cats));
            assert(v.engines == engine_items(table));
            assert(v.shortcuts == index_entries(index));
            assert(string_items(cats)[0] =~= Seq::<char>::empty());
            assert forall|a: int, b: int| 0 <= a < b < ca.len() implies ca[a]@ != ca[b]@ by {
                assert(v.categories[a] == ca[a]@ && v.categories[b] == ca[b]@);
            }
            assert forall|a: int, b: int|
                0 <= a < b < en.len() implies disk_record_view(en[a]) != disk_record_view(en[b]) by {
                assert(v.engines[a] == disk_record_view(en[a]));
                assert(v.engines[b] == disk_record_view(en[b]));
            }
            assert forall|i: int| 0 <= i < v.engines.len() implies (#[trigger] v.engines[i]).2
                < v.categories.len() && v.engines[i].3 < v.categories.len() by {
                assert(v.engines[i] == disk_record_view(en[i]));
            }
            assert(parts_valid(sh, en, ca));
            assert forall|key: Seq<char>| #[trigger] db@.shortcuts.contains_key(key) implies db@.shortcuts[key]
                < db@.engines.len() by {
                let k = choose|k: int| 0 <= k < sh.len() && (#[trigger] sh[k]).0@ == key;
            }
        }
        Some(db)
    }

    /// The number of distinct engine records.
    pub fn count(&self) -> (r: usize)
        ensures
            r == self@.engines.len(),
    {
        engine_set_len(&self.engines)
    }
}

} // verus!
