use local_search_shortcuts::compile::{compile, ParsedEngine};
use local_search_shortcuts::config::{Config, ConfigFile};
use local_search_shortcuts::defaults::{default_engine, engine, port};
use local_search_shortcuts::engines::SearchEngineDatabase;
use local_search_shortcuts::template::{escape_custom_template, escape_template, expand};

fn builtin() -> SearchEngineDatabase {
    compile(&vec![ParsedEngine {
        url: "https://duckduckgo.com/?q={{{s}}}".to_string(),
        name: "DuckDuckGo".to_string(),
        shortcut: "duckduckgo".to_string(),
        category: Some("Search".to_string()),
        subcategory: None,
    }])
    .unwrap()
}

#[test]
fn built_in_values() {
    assert_eq!(engine(), "DuckDuckGo");
    assert_eq!(default_engine(), "duckduckgo");
    assert_eq!(port(), 9321);
}

#[test]
fn escaping_doubles_braces_and_keeps_the_marker() {
    assert_eq!(
        escape_template("https://x.example/{a}?q={{{s}}}&ie={inputEncoding}"),
        "https://x.example/{{a}}?q={s}"
    );
    assert_eq!(escape_template("{{{{s}}}"), "{{{s}");
    assert_eq!(escape_template("{s}"), "{{s}}");
}

#[test]
fn expanding_fills_every_placeholder() {
    assert_eq!(expand("a{s}b{s}", "x"), "axbx");
    assert_eq!(expand("{{s}}", "x"), "{s}");
    assert_eq!(expand("https://d.example/{{x}}", "x"), "https://d.example/{x}");
    assert_eq!(expand("{{lit}}?q={s}", ""), "{lit}?q=");
    assert_eq!(expand("/info", "x"), "/info");
}

#[test]
fn escape_then_expand_gives_back_the_raw_template() {
    let raw = "https://x.example/{a}/}{?q={{{s}}}";
    assert_eq!(expand(&escape_template(raw), ""), "https://x.example/{a}/}{?q=");
    assert_eq!(expand(&escape_template(raw), "t"), "https://x.example/{a}/}{?q=t");
}

#[test]
fn defaults_without_a_file() {
    let db = builtin();
    let config = Config::defaults(&db).unwrap();
    assert_eq!(config.port, 9321);
    assert!(!config.broadcast);
    assert!(config.path.is_none());
    assert_eq!(config.default_engine.name, "DuckDuckGo");
    assert_eq!(config.default_engine.category.as_deref(), Some("Search"));
    assert_eq!(config.engines.count(), 1);
    assert_eq!(config.addr(), ([127, 0, 0, 1], 9321));
}

#[test]
fn defaults_need_the_default_engine() {
    let db = SearchEngineDatabase::new();
    assert!(Config::defaults(&db).is_none());
}

#[test]
fn file_settings_and_unknown_default() {
    let db = builtin();
    let file = ConfigFile {
        port: 1234,
        default: "nowhere".to_string(),
        broadcast: true,
        engines: vec![
            ("m".to_string(), "https://m.example/?q={s}".to_string()),
            ("n".to_string(), "https://m.example/?q={s}".to_string()),
        ],
    };
    let config = Config::from_file(&file, "/etc/lss.toml".to_string(), &db).unwrap();
    assert_eq!(config.addr(), ([0, 0, 0, 0], 1234));
    assert_eq!(config.path.as_deref(), Some("/etc/lss.toml"));
    // The unknown default falls back to the catalog's own.
    assert_eq!(config.default_engine.name, "DuckDuckGo");
    // info, m and n: different names, so no two records are alike.
    assert_eq!(config.engines.count(), 3);
}

#[test]
fn file_default_may_be_a_custom_engine() {
    let db = builtin();
    let file = ConfigFile {
        port: 9321,
        default: "M".to_string(),
        broadcast: false,
        engines: vec![("m".to_string(), "https://m.example/?q={s}".to_string())],
    };
    let config = Config::from_file(&file, "lss.toml".to_string(), &db).unwrap();
    assert_eq!(config.default_engine.url, "https://m.example/?q={s}");
    assert_eq!(config.default_engine.category.as_deref(), Some("Custom"));
}

#[test]
fn user_templates_keep_their_braces() {
    assert_eq!(escape_custom_template("https://u.example/{x}?q={s}"), "https://u.example/{{x}}?q={s}");
    assert_eq!(expand(&escape_custom_template("https://u.example/{x}?q={s}"), "t"), "https://u.example/{x}?q=t");
    assert_eq!(expand(&escape_custom_template("a{{b}}"), ""), "a{{b}}");
}

#[test]
fn custom_engine_with_literal_braces_resolves() {
    let db = builtin();
    let file = ConfigFile {
        port: 9321,
        default: "DuckDuckGo".to_string(),
        broadcast: false,
        engines: vec![("u".to_string(), "https://u.example/{x}?q={s}".to_string())],
    };
    let config = Config::from_file(&file, "lss.toml".to_string(), &db).unwrap();
    let url = local_search_shortcuts::resolve::resolve("!u cats", &config.engines, &db, &config.default_engine.url);
    assert_eq!(url, "https://u.example/{x}?q=cats");
}
