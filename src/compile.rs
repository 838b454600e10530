//! Building the catalog from raw dataset records.

use vstd::prelude::*;
use crate::defaults;
use crate::engines::{
    blank_catalog, info_record, opt_view, CatalogView, InternalSearchEngine, SearchEngineDatabase,
};
use crate::template::{escape_template, stored_template};
use crate::text::{lower_of, to_chars, to_lower};

verus! {

/// A record of the raw dataset.
pub struct ParsedEngine {
    pub url: String,
    pub name: String,
    pub shortcut: String,
    pub category: Option<String>,
    pub subcategory: Option<String>,
}

/// What a raw record holds.
pub struct ParsedRecord {
    pub url: Seq<char>,
    pub name: Seq<char>,
    pub shortcut: Seq<char>,
    pub category: Option<Seq<char>>,
    pub subcategory: Option<Seq<char>>,
}

impl View for ParsedEngine {
    type V = ParsedRecord;

    open spec fn view(&self) -> ParsedRecord {
        ParsedRecord {
            url: self.url@,
            name: self.name@,
            shortcut: self.shortcut@,
            category: opt_view(self.category),
            subcategory: opt_view(self.subcategory),
        }
    }
}

/// Why a dataset gives no catalog.
#[derive(Debug, PartialEq, Eq, Structural)]
pub enum CompileError {
    /// The default engine's shortcut names no record.
    MissingDefaultEngine,
}

/// A stored template that is a link into the publisher's own site rather
/// than an outside engine.
pub open spec fn is_site_link(url: Seq<char>) -> bool {
    url.len() > 0 && url[0] == '/'
}

/// A record that the catalog leaves out: its stored template is a site link,
/// or its shortcut is the reserved `info`, whatever its case.
pub open spec fn is_skipped(p: ParsedRecord) -> bool {
    is_site_link(stored_template(p.url)) || lower_of(p.shortcut) == lower_of("info"@)
}

/// The catalog that the records give, in order: each record that is not
/// left out makes its shortcut name it.
pub open spec fn compiled(records: Seq<ParsedRecord>) -> CatalogView
    decreases records.len(),
{
    if records.len() == 0 {
        blank_catalog().inserted("info"@, info_record())
    } else {
        let before = compiled(records.drop_last());
        let p = records.last();
        let url = stored_template(p.url);
        if is_skipped(p) {
            before
        } else {
            before.inserted(
                p.shortcut,
                InternalSearchEngine {
                    name: p.name,
                    url,
                    category: p.category,
                    subcategory: p.subcategory,
                },
            )
        }
    }
}

pub open spec fn record_views(records: Seq<ParsedEngine>) -> Seq<ParsedRecord> {
    records.map_values(|p: ParsedEngine| p@)
}

fn copy_opt(o: &Option<String>) -> (r: Option<String>)
    ensures
        opt_view(r) == opt_view(*o),
{
    match o {
        Some(s) => Some(s.clone()),
        None => None,
    }
}

/// Builds the catalog from the dataset. It fails when the default engine's
/// shortcut names no record, so no catalog without one is ever produced. The
/// reserved shortcut `info` always names the catalog's own page.
pub fn compile(records: &Vec<ParsedEngine>) -> (r: Result<SearchEngineDatabase, CompileError>)
    ensures
        match r {
            Ok(db) => {
                &&& db.wf()
                &&& db@ == compiled(record_views(records@))
                &&& db@.engines.len() > 0
                &&& db@.lookup("DuckDuckGo"@) is Some
                &&& db@.lookup("info"@) == Some(info_record())
            },
            Err(e) => e == CompileError::MissingDefaultEngine && compiled(
                record_views(records@),
            ).lookup("DuckDuckGo"@) is None,
        },
{
    let mut db = SearchEngineDatabase::new();
    let reserved = to_lower("info");
    let mut i: usize = 0;
    while i < records.len()
        invariant
            i <= records.len(),
            db.wf(),
            db@ == compiled(record_views(records@.subrange(0, i as int))),
            db@.engines.len() > 0,
            db@.lookup("info"@) == Some(info_record()),
            reserved@ == lower_of("info"@),
        decreases records.len() - i,
    {
        let p = &records[i];
        let ghost before = records@.subrange(0, i as int);
        let ghost after = records@.subrange(0, i + 1);
        assert(record_views(after).drop_last() =~= record_views(before));
        assert(record_views(after).last() == records@[i as int]@);
        let url = escape_template(p.url.as_str());
        let chars = to_chars(url.as_str());
        let key = to_lower(p.shortcut.as_str());
        if !(chars.len() > 0 && chars[0] == '/') && key != reserved {
            let ghost before_db = db@;
            db.insert(
                p.shortcut.as_str(),
                InternalSearchEngine {
                    name: p.name.clone(),
                    url,
                    category: copy_opt(&p.category),
                    subcategory: copy_opt(&p.subcategory),
                },
            );
            proof {
                let k = lower_of("info"@);
                let idx = before_db.shortcuts[k];
                assert(db@.shortcuts[k] == idx);
                assert(db@.engines[idx as int] == before_db.engines[idx as int]);
                assert(db@.engine_at(idx as int) == before_db.engine_at(idx as int));
            }
        }
        i = i + 1;
    }
    assert(records@.subrange(0, records.len() as int) =~= records@);
    let name = defaults::engine();
    match db.get(name.as_str()) {
        Some(_) => Ok(db),
        None => Err(CompileError::MissingDefaultEngine),
    }
}

} // verus!
