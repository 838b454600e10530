use std::cmp::Ordering;

use local_search_shortcuts::engines::InternalSearchEngine;
use local_search_shortcuts::engines::SearchEngine;
use local_search_shortcuts::listing::{compare_categories, generate_categories, map_engine};

#[test]
fn engine_description_lists_every_shortcut() {
    let engine = InternalSearchEngine {
        name: "Wikipedia".to_string(),
        url: "https://w.example/{{x}}?q={s}".to_string(),
        category: None,
        subcategory: None,
    };
    let (url, d) = map_engine(&vec!["w".to_string(), "wiki".to_string()], &engine);
    assert_eq!(url, "https://w.example/{x}?q=");
    assert_eq!(d.name, "Wikipedia");
    assert_eq!(d.shortcuts, "!w, !wiki");
    let (_, single) = map_engine(&vec!["g".to_string()], &engine);
    assert_eq!(single.shortcuts, "!g");
    let (_, none) = map_engine(&vec![], &engine);
    assert_eq!(none.shortcuts, "");
}

#[test]
fn categories_order_custom_alphabetical_uncategorized() {
    assert_eq!(compare_categories("Custom", "Academic"), Ordering::Less);
    assert_eq!(compare_categories("Academic", "Custom"), Ordering::Greater);
    assert_eq!(compare_categories("Uncategorized", "Tech"), Ordering::Greater);
    assert_eq!(compare_categories("Tech", "Uncategorized"), Ordering::Less);
    assert_eq!(compare_categories("news", "Maps"), Ordering::Greater);
    assert_eq!(compare_categories("Maps", "news"), Ordering::Less);
    assert_eq!(compare_categories("Tech", "tech"), Ordering::Equal);
    assert_eq!(compare_categories("Custom", "Custom"), Ordering::Equal);
    let mut names = vec!["Uncategorized", "tech", "Academic", "Custom", "maps"];
    names.sort_by(|a, b| compare_categories(a, b));
    assert_eq!(names, vec!["Custom", "Academic", "maps", "tech", "Uncategorized"]);
}

fn entry(name: &str, cat: Option<&str>, sub: Option<&str>, url: &str) -> (Vec<String>, SearchEngine) {
    (
        vec![name.to_lowercase()],
        InternalSearchEngine {
            name: name.to_string(),
            url: url.to_string(),
            category: cat.map(|c| c.to_string()),
            subcategory: sub.map(|c| c.to_string()),
        },
    )
}

#[test]
fn listing_groups_by_category_and_subcategory() {
    let engines = vec![
        entry("Info", None, None, "/info"),
        entry("Maps", Some("Maps"), Some("World"), "https://maps.example/?q={s}"),
        entry("Arxiv", Some("Academic"), None, "https://arxiv.example/?q={s}"),
        entry("Atlas", Some("Maps"), Some("World"), "https://atlas.example/?q={s}"),
        entry("Streets", Some("Maps"), Some("Local"), "https://streets.example/?q={s}"),
        entry("Maps Again", Some("Maps"), Some("World"), "https://maps.example/?q={s}"),
    ];
    let custom = vec![
        entry("Info", None, None, "/info"),
        entry("Mine", Some("Custom"), None, "https://mine.example/?q={s}"),
    ];
    let listing = generate_categories(&engines, &custom);
    let names: Vec<&str> = listing.iter().map(|(c, _)| c.as_str()).collect();
    assert_eq!(names, vec!["Custom", "Academic", "Maps", "Uncategorized"]);

    // The whole override layer sits in the unnamed subcategory of "Custom".
    let mine = &listing[0].1;
    assert_eq!(mine.len(), 1);
    assert_eq!(mine[0].0, "");
    let links: Vec<&str> = mine[0].1.iter().map(|(u, _)| u.as_str()).collect();
    assert_eq!(links, vec!["/info", "https://mine.example/?q="]);

    let maps = &listing[2].1;
    let subs: Vec<&str> = maps.iter().map(|(s, _)| s.as_str()).collect();
    assert_eq!(subs, vec!["World", "Local"]);
    let world = &maps[0].1;
    assert_eq!(world.len(), 2);
    // The later engine with the same link takes the earlier one's place.
    assert_eq!(world[0].0, "https://maps.example/?q=");
    assert_eq!(world[0].1.name, "Maps Again");
    assert_eq!(world[0].1.shortcuts, "!maps again");
    assert_eq!(world[1].1.name, "Atlas");

    let uncategorized = &listing[3].1;
    assert_eq!(uncategorized[0].0, "");
    assert_eq!(uncategorized[0].1[0].0, "/info");
}

#[test]
fn listing_always_has_custom_first() {
    let listing = generate_categories(&vec![], &vec![]);
    assert_eq!(listing.len(), 1);
    assert_eq!(listing[0].0, "Custom");
    assert_eq!(listing[0].1.len(), 1);
    assert!(listing[0].1[0].1.is_empty());

    let engines = vec![entry("Arxiv", Some("Academic"), None, "https://arxiv.example/?q={s}")];
    let listing = generate_categories(&engines, &vec![]);
    let names: Vec<&str> = listing.iter().map(|(c, _)| c.as_str()).collect();
    assert_eq!(names, vec!["Custom", "Academic"]);
}

#[test]
fn custom_group_replaces_catalog_entries_there() {
    let engines = vec![entry("Odd", Some("Custom"), None, "https://odd.example/?q={s}")];
    let custom = vec![entry("Mine", Some("Custom"), None, "https://mine.example/?q={s}")];
    let listing = generate_categories(&engines, &custom);
    assert_eq!(listing.len(), 1);
    let links: Vec<&str> = listing[0].1[0].1.iter().map(|(u, _)| u.as_str()).collect();
    assert_eq!(links, vec!["https://mine.example/?q="]);
}
