//! Process settings: the listen address, the fallback engine and the user's
//! override layer.

use vstd::prelude::*;
use crate::defaults;
use crate::engines::{
    blank_catalog, info_record, CatalogView, EngineRecord, InternalSearchEngine, SearchEngine,
    SearchEngineDatabase,
};
use crate::resolve::{layered, lookup};
use crate::template::{escape_custom_template, escaped_custom};

verus! {

/// Settings as a configuration file gives them.
pub struct ConfigFile {
    pub port: u16,
    pub default: String,
    pub broadcast: bool,
    /// Shortcut and URL template of each user-defined engine.
    pub engines: Vec<(String, String)>,
}

pub struct Config {
    pub port: u16,
    pub default_engine: SearchEngine,
    pub broadcast: bool,
    /// The override layer: the user's engines, each under the category
    /// "Custom" and named after its shortcut.
    pub engines: SearchEngineDatabase,
    pub path: Option<String>,
}

/// The record that a user-defined engine with this shortcut and template gets:
/// the template in its stored form, under the category "Custom".
pub open spec fn custom_record(shortcut: Seq<char>, url: Seq<char>) -> EngineRecord {
    InternalSearchEngine {
        name: shortcut,
        url: escaped_custom(url),
        category: Some("Custom"@),
        subcategory: None,
    }
}

/// The override layer that the user-defined engines give, in order.
pub open spec fn override_layer(entries: Seq<(String, String)>) -> CatalogView
    decreases entries.len(),
{
    if entries.len() == 0 {
        blank_catalog().inserted("info"@, info_record())
    } else {
        let (k, u) = entries.last();
        override_layer(entries.drop_last()).inserted(k@, custom_record(k@, u@))
    }
}

/// The fallback engine that the configured shortcut `name` gives: the one it
/// names in the overrides or the catalog, else the catalog's default engine.
pub open spec fn chosen_default(
    overrides: CatalogView,
    builtin: CatalogView,
    name: Seq<char>,
) -> Option<EngineRecord> {
    match layered(overrides, builtin, name) {
        Some(e) => Some(e),
        None => builtin.lookup("DuckDuckGo"@),
    }
}

impl Config {
    /// The settings used when no configuration file is found. There are none
    /// only if the catalog lacks its default engine.
    pub fn defaults(builtin: &SearchEngineDatabase) -> (r: Option<Config>)
        requires
            builtin.wf(),
        ensures
            match r {
                Some(c) => {
                    &&& c.port == 9321
                    &&& !c.broadcast
                    &&& c.path is None
                    &&& c.engines.wf()
                    &&& c.engines@ == override_layer(Seq::empty())
                    &&& builtin@.lookup("DuckDuckGo"@) == Some(c.default_engine@)
                },
                None => builtin@.lookup("DuckDuckGo"@) is None,
            },
    {
        let name = defaults::engine();
        match builtin.get(name.as_str()) {
            Some(default_engine) => Some(
                Config {
                    port: defaults::port(),
                    default_engine,
                    broadcast: false,
                    engines: SearchEngineDatabase::new(),
                    path: None,
                },
            ),
            None => None,
        }
    }

    /// The settings that a configuration file found at `path` gives. There
    /// are none only if no fallback engine can be found at all.
    pub fn from_file(file: &ConfigFile, path: String, builtin: &SearchEngineDatabase) -> (r:
        Option<Config>)
        requires
            builtin.wf(),
        ensures
            match r {
                Some(c) => {
                    &&& c.port == file.port
                    &&& c.broadcast == file.broadcast
                    &&& c.path == Some(path)
                    &&& c.engines.wf()
                    &&& c.engines@ == override_layer(file.engines@)
                    &&& chosen_default(c.engines@, builtin@, file.default@) == Some(
                        c.default_engine@,
                    )
                },
                None => chosen_default(override_layer(file.engines@), builtin@, file.default@)
                    is None,
            },
    {
        let mut engines = SearchEngineDatabase::new();
        let mut i: usize = 0;
        while i < file.engines.len()
            invariant
                i <= file.engines.len(),
                engines.wf(),
                engines@ == override_layer(file.engines@.subrange(0, i as int)),
            decreases file.engines.len() - i,
        {
            let (k, u) = &file.engines[i];
            let ghost before = file.engines@.subrange(0, i as int);
            assert(file.engines@.subrange(0, i + 1).drop_last() =~= before);
            let record = InternalSearchEngine {
                name: k.clone(),
                url: escape_custom_template(u.as_str()),
                category: Some(String::from_str("Custom")),
                subcategory: None,
            };
            engines.insert(k.as_str(), record);
            i = i + 1;
        }
        assert(file.engines@.subrange(0, file.engines.len() as int) =~= file.engines@);
        let chosen = match lookup(file.default.as_str(), &engines, builtin) {
            Some(e) => Some(e),
            None => {
                let name = defaults::engine();
                builtin.get(name.as_str())
            },
        };
        match chosen {
            Some(default_engine) => Some(
                Config {
                    port: file.port,
                    default_engine,
                    broadcast: file.broadcast,
                    engines,
                    path: Some(path),
                },
            ),
            None => None,
        }
    }

    /// The address to listen on, as IPv4 octets and a port: every interface
    /// when broadcasting, else only the loopback interface.
    pub fn addr(&self) -> (r: ([u8; 4], u16))
        ensures
            r.0@ == (if self.broadcast {
                seq![0u8, 0u8, 0u8, 0u8]
            } else {
                seq![127u8, 0u8, 0u8, 1u8]
            }),
            r.1 == self.port,
    {
        let ip: [u8; 4] = if self.broadcast {
            [0, 0, 0, 0]
        } else {
            [127, 0, 0, 1]
        };
        assert(ip@ =~= (if self.broadcast {
            seq![0u8, 0u8, 0u8, 0u8]
        } else {
            seq![127u8, 0u8, 0u8, 1u8]
        }));
        (ip, self.port)
    }
}

} // verus!
