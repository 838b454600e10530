use local_search_shortcuts::engines::{InternalSearchEngine, SearchEngineDatabase};

fn record(name: &str, url: &str, category: usize, subcategory: usize) -> InternalSearchEngine<String, usize> {
    InternalSearchEngine {
        name: name.to_string(),
        url: url.to_string(),
        category,
        subcategory,
    }
}

fn sample() -> SearchEngineDatabase {
    let mut db = SearchEngineDatabase::new();
    db.insert(
        "w",
        InternalSearchEngine {
            name: "Wikipedia".to_string(),
            url: "https://w.example/?q={s}".to_string(),
            category: Some("Research".to_string()),
            subcategory: Some("Reference".to_string()),
        },
    );
    db.insert(
        "WIKI",
        InternalSearchEngine {
            name: "Wikipedia".to_string(),
            url: "https://w.example/?q={s}".to_string(),
            category: Some("Research".to_string()),
            subcategory: Some("Reference".to_string()),
        },
    );
    db
}

#[test]
fn parts_round_trip() {
    let db = sample();
    let (shortcuts, engines, categories) = db.to_parts();
    assert_eq!(categories, vec!["".to_string(), "Research".to_string(), "Reference".to_string()]);
    assert_eq!(engines.len(), 2);
    assert_eq!(engines[1], record("Wikipedia", "https://w.example/?q={s}", 1, 2));
    let mut keys: Vec<(String, usize)> = shortcuts.clone();
    keys.sort();
    assert_eq!(keys, vec![("info".to_string(), 0), ("w".to_string(), 1), ("wiki".to_string(), 1)]);

    let back = SearchEngineDatabase::from_parts(shortcuts, engines, categories).unwrap();
    assert_eq!(back.count(), 2);
    assert_eq!(back.get("Wiki"), db.get("wiki"));
    assert_eq!(back.get("info").unwrap().url, "/info");
}

#[test]
fn parts_with_a_bad_index_are_refused() {
    let cats = vec!["".to_string()];
    let engines = vec![record("A", "https://a.example/", 0, 0)];
    assert!(SearchEngineDatabase::from_parts(vec![("a".to_string(), 1)], engines, cats.clone()).is_none());
    let engines = vec![record("A", "https://a.example/", 3, 0)];
    assert!(SearchEngineDatabase::from_parts(vec![], engines, cats).is_none());
}

#[test]
fn parts_with_repeats_are_refused() {
    let cats = vec!["".to_string()];
    let one = vec![record("A", "https://a.example/", 0, 0)];
    let twice = vec![record("A", "https://a.example/", 0, 0), record("A", "https://a.example/", 0, 0)];
    assert!(SearchEngineDatabase::from_parts(vec![], twice, cats.clone()).is_none());
    let keys = vec![("a".to_string(), 0), ("a".to_string(), 0)];
    assert!(SearchEngineDatabase::from_parts(keys, one.clone(), cats).is_none());
    let cats = vec!["".to_string(), "x".to_string(), "x".to_string()];
    assert!(SearchEngineDatabase::from_parts(vec![], one, cats).is_none());
}

#[test]
fn parts_need_the_empty_category_first() {
    let one = vec![record("A", "https://a.example/", 0, 0)];
    assert!(SearchEngineDatabase::from_parts(vec![], one.clone(), vec!["x".to_string()]).is_none());
    assert!(SearchEngineDatabase::from_parts(vec![], one.clone(), vec![]).is_none());
    let db = SearchEngineDatabase::from_parts(vec![("a".to_string(), 0)], one, vec!["".to_string()]).unwrap();
    assert_eq!(db.get("A").unwrap().category, None);
}
