use local_search_shortcuts::compile::{compile, CompileError, ParsedEngine};
use local_search_shortcuts::config::{Config, ConfigFile};
use local_search_shortcuts::engines::{InternalSearchEngine, SearchEngineDatabase};
use local_search_shortcuts::resolve::{lookup, resolve};

fn raw(shortcut: &str, name: &str, url: &str) -> ParsedEngine {
    ParsedEngine {
        url: url.to_string(),
        name: name.to_string(),
        shortcut: shortcut.to_string(),
        category: None,
        subcategory: None,
    }
}

fn catalog() -> SearchEngineDatabase {
    compile(&vec![
        raw("DuckDuckGo", "DuckDuckGo", "https://duckduckgo.com/?q={{{s}}}"),
        raw("w", "Wikipedia", "https://en.wikipedia.org/wiki/Special:Search?search={{{s}}}"),
        raw("wiki", "Wikipedia", "https://en.wikipedia.org/wiki/Special:Search?search={{{s}}}"),
        raw("a", "Alpha", "https://alpha.example/?q={{{s}}}"),
        raw("b", "Beta", "https://beta.example/?q={{{s}}}"),
        raw("g", "Google", "https://www.google.com/search?q={{{s}}}"),
        raw("braces", "Braces", "https://x.example/{lit}?q={{{s}}}&ie={inputEncoding}"),
        raw("home", "Home", "https://home.example/"),
        raw("lit", "Literal", "https://lit.example/{page}"),
    ])
    .unwrap()
}

const FALLBACK: &str = "https://duckduckgo.com/?q={s}";

fn go(query: &str) -> String {
    let builtin = catalog();
    let overrides = SearchEngineDatabase::new();
    resolve(query, &overrides, &builtin, FALLBACK)
}

#[test]
fn literal_braces_come_back_unescaped() {
    assert_eq!(go("!braces"), "https://x.example/{lit}?q=");
    assert_eq!(go("!braces hi"), "https://x.example/{lit}?q=hi");
}

#[test]
fn shortcut_case_is_ignored() {
    assert_eq!(go("!WIKI test"), go("!wiki test"));
    assert_eq!(go("!WIKI test"), "https://en.wikipedia.org/wiki/Special:Search?search=test");
}

#[test]
fn only_the_shortcut_token_is_removed() {
    assert_eq!(go("!w wiki"), "https://en.wikipedia.org/wiki/Special:Search?search=wiki");
    assert_eq!(go("!w foo!wbar"), "https://en.wikipedia.org/wiki/Special:Search?search=foo%21wbar");
}

#[test]
fn first_shortcut_wins() {
    assert_eq!(go("hello !a !b"), "https://alpha.example/?q=hello%20%20%21b");
}

#[test]
fn plain_query_goes_to_default() {
    assert_eq!(
        go("plain text, no bang"),
        "https://duckduckgo.com/?q=plain%20text%2C%20no%20bang"
    );
}

#[test]
fn unknown_shortcut_goes_to_default_with_whole_query() {
    assert_eq!(go("!nope cats"), "https://duckduckgo.com/?q=%21nope%20cats");
}

#[test]
fn shortcut_alone_fills_with_nothing() {
    assert_eq!(go("!g"), "https://www.google.com/search?q=");
    assert_eq!(go("   !g   "), "https://www.google.com/search?q=");
}

#[test]
fn shortcut_in_the_middle_is_honoured() {
    assert_eq!(go("rust  !g  book "), "https://www.google.com/search?q=rust%20%20%20%20book");
}

#[test]
fn leading_bangs_are_all_stripped() {
    assert_eq!(go("!!g x"), "https://www.google.com/search?q=x");
}

#[test]
fn template_without_placeholder_is_returned_as_is() {
    assert_eq!(go("!home anything"), "https://home.example/");
    assert_eq!(go("!info"), "/info");
}

#[test]
fn override_takes_priority() {
    let builtin = catalog();
    let file = ConfigFile {
        port: 8080,
        default: "DuckDuckGo".to_string(),
        broadcast: false,
        engines: vec![("g".to_string(), "https://mine.example/?q={s}".to_string())],
    };
    let config = Config::from_file(&file, "lss.toml".to_string(), &builtin).unwrap();
    let url = resolve("!g cats", &config.engines, &builtin, &config.default_engine.url);
    assert_eq!(url, "https://mine.example/?q=cats");
    let found = lookup("G", &config.engines, &builtin).unwrap();
    assert_eq!(found.category.as_deref(), Some("Custom"));
    assert_eq!(found.name, "g");
}

#[test]
fn identical_records_are_stored_once() {
    let db = catalog();
    // "w" and "wiki" name the same record; DuckDuckGo, a, b, g, braces, home,
    // lit and the reserved info page are the others.
    assert_eq!(db.count(), 9);
    assert_eq!(db.get("w"), db.get("wiki"));
    let listing = db.engines();
    let wiki = listing
        .iter()
        .find(|(_, e)| e.name == "Wikipedia")
        .unwrap();
    let mut names = wiki.0.clone();
    names.sort();
    assert_eq!(names, vec!["w".to_string(), "wiki".to_string()]);
}

#[test]
fn missing_default_engine_fails_the_build() {
    let r = compile(&vec![raw("w", "Wikipedia", "https://w.example/?q={{{s}}}")]);
    assert_eq!(r.err(), Some(CompileError::MissingDefaultEngine));
}

#[test]
fn site_links_are_skipped() {
    let db = compile(&vec![
        raw("DuckDuckGo", "DuckDuckGo", "https://duckduckgo.com/?q={{{s}}}"),
        raw("bangs", "Bangs", "/bangs?q={{{s}}}"),
    ])
    .unwrap();
    assert!(db.get("bangs").is_none());
    assert_eq!(db.count(), 2);
}

#[test]
fn categories_are_interned_and_resolved() {
    let mut db = SearchEngineDatabase::new();
    let make = |name: &str, cat: Option<&str>, sub: Option<&str>| InternalSearchEngine {
        name: name.to_string(),
        url: format!("https://{name}.example/?q={{s}}"),
        category: cat.map(|c| c.to_string()),
        subcategory: sub.map(|c| c.to_string()),
    };
    db.insert("x", make("x", Some("Tech"), Some("Search")));
    db.insert("y", make("y", Some("Tech"), None));
    db.insert("z", make("z", Some(""), None));
    let x = db.get("X").unwrap();
    assert_eq!(x.category.as_deref(), Some("Tech"));
    assert_eq!(x.subcategory.as_deref(), Some("Search"));
    let y = db.get("y").unwrap();
    assert_eq!(y.category.as_deref(), Some("Tech"));
    assert_eq!(y.subcategory, None);
    // An empty category name is the "no category" slot.
    assert_eq!(db.get("z").unwrap().category, None);
}

#[test]
fn new_catalog_holds_only_info() {
    let db = SearchEngineDatabase::new();
    assert_eq!(db.count(), 1);
    let info = db.get("INFO").unwrap();
    assert_eq!(info.name, "View This Page");
    assert_eq!(info.url, "/info");
    assert_eq!(info.category, None);
    assert!(db.get("w").is_none());
}

#[test]
fn later_insert_rebinds_a_shortcut() {
    let mut db = SearchEngineDatabase::new();
    let e = |url: &str| InternalSearchEngine {
        name: "E".to_string(),
        url: url.to_string(),
        category: None,
        subcategory: None,
    };
    db.insert("k", e("https://one.example/"));
    db.insert("K", e("https://two.example/"));
    assert_eq!(db.get("k").unwrap().url, "https://two.example/");
    assert_eq!(db.count(), 3);
}

#[test]
fn direct_link_keeps_its_literal_braces() {
    assert_eq!(go("!lit anything"), "https://lit.example/{page}");
}

#[test]
fn dataset_cannot_take_the_info_shortcut() {
    let db = compile(&vec![
        raw("DuckDuckGo", "DuckDuckGo", "https://duckduckgo.com/?q={{{s}}}"),
        raw("INFO", "Impostor", "https://impostor.example/?q={{{s}}}"),
        raw("info", "Impostor", "https://impostor.example/?q={{{s}}}"),
    ])
    .unwrap();
    let info = db.get("info").unwrap();
    assert_eq!(info.name, "View This Page");
    assert_eq!(info.url, "/info");
    assert_eq!(db.count(), 2);
}

#[test]
fn redirect_holds_no_whitespace() {
    for query in ["a\tb\nc", "!g  x\u{3000}y ", "no bang at all", "!nope\u{a0}z"] {
        let url = go(query);
        assert!(!url.chars().any(char::is_whitespace), "{url}");
    }
}
