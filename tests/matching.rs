use std::cell::Cell;

use anime_reflink::cache::Cache;
use anime_reflink::config::Config;
use anime_reflink::data::{Data, RealData};
use anime_reflink::registry::CacheMap;
use anime_reflink::signal::{filter_file_dir, is_marked_dir, signature, Entry};
use anime_reflink::source_anime_map::{FileType, SourceAnimeMap};

fn file(name: &str) -> Entry {
    Entry { name: name.to_string(), is_file: true, is_dir: false }
}

fn dir(name: &str) -> Entry {
    Entry { name: name.to_string(), is_file: false, is_dir: true }
}

/// A listing that answers from a fixed table of paths joined by "/".
fn table(rows: Vec<(&'static str, Vec<Entry>)>) -> impl Fn(&Vec<String>) -> Vec<Entry> {
    move |p: &Vec<String>| {
        let key = p.join("/");
        rows.iter()
            .find(|(k, _)| *k == key)
            .map(|(_, v)| v.clone())
            .unwrap_or_default()
    }
}

fn data_with_targets(targets: &[&str]) -> Data {
    Data {
        data: RealData {
            source_anime_maps: Vec::new(),
            animes: targets.iter().map(|t| t.to_string()).collect(),
        },
        source_map: Vec::new(),
        config: Config::new(vec![]),
    }
}

#[test]
fn season_and_long_dirs_are_walked() {
    assert_eq!(filter_file_dir(&dir("SEASON 2")), Some(("SEASON 2".to_string(), true)));
    assert_eq!(filter_file_dir(&dir("extras")), None);
    assert_eq!(
        filter_file_dir(&dir("A folder name of 21 c")),
        Some(("A folder name of 21 c".to_string(), true))
    );
    assert_eq!(filter_file_dir(&dir("A folder name of 20c")), None);
    assert_eq!(filter_file_dir(&file("ep01.mkv")), Some(("ep01.mkv".to_string(), false)));
    assert_eq!(filter_file_dir(&file("ep01.mp4")), Some(("ep01.mp4".to_string(), false)));
    assert_eq!(filter_file_dir(&file("ep01.avi")), Some(("ep01.avi".to_string(), false)));
    assert_eq!(filter_file_dir(&file("notes.txt")), None);
    assert_eq!(filter_file_dir(&file("season 1.txt")), None);
    assert!(is_marked_dir("SEASON 2", "season 2"));
    assert!(!is_marked_dir("SEASON 2", "SEASON 2"));
}

#[test]
fn signature_keeps_only_signal_names() {
    let entries = vec![file("a.mkv"), file("b.txt"), dir("Season 01"), dir("extras")];
    assert_eq!(signature(&entries), vec!["a.mkv".to_string(), "Season 01".to_string()]);
}

#[test]
fn cache_is_built_once_per_pass() {
    let calls = Cell::new(0usize);
    let list = |p: &Vec<String>| {
        calls.set(calls.get() + 1);
        if p.len() == 1 && p[0] == "Alpha" {
            vec![file("clip.mkv")]
        } else {
            Vec::new()
        }
    };
    let data = data_with_targets(&["Alpha"]);
    let mut reg = CacheMap::default();
    let first = data.fetch_anime_cache("Alpha", &mut reg, &list);
    assert!(first.contains("clip.mkv"));
    assert_eq!(calls.get(), 1);
    let second = data.fetch_anime_cache("Alpha", &mut reg, &list);
    assert!(second.contains("clip.mkv"));
    assert_eq!(calls.get(), 1);
    assert_eq!(reg.caches.len(), 1);
}

#[test]
fn nested_season_folders_are_walked() {
    let list = table(vec![
        ("Alpha", vec![dir("Season 01"), file("clip.mkv"), dir("extras")]),
        ("Alpha/Season 01", vec![file("ep01.mkv"), dir("Season 01 Specials")]),
        ("Alpha/Season 01/Season 01 Specials", vec![file("sp.mkv")]),
        ("Alpha/extras", vec![file("hidden.mkv")]),
    ]);
    let data = data_with_targets(&["Alpha"]);
    let mut reg = CacheMap::default();
    let tree = data.fetch_anime_cache("Alpha", &mut reg, &list);
    assert!(tree.contains("ep01.mkv"));
    assert!(tree.contains("sp.mkv"));
    assert!(!tree.contains("hidden.mkv"));
    assert!(!tree.contains("extras"));
    assert_eq!(
        *tree,
        Cache::from([
            ("clip.mkv", Cache::Leaf),
            (
                "Season 01",
                Cache::from([
                    ("ep01.mkv", Cache::Leaf),
                    ("Season 01 Specials", Cache::from([("sp.mkv", Cache::Leaf)])),
                ])
            ),
        ])
    );
}

#[test]
fn first_built_cache_wins() {
    let nothing = |_: &Vec<String>| Vec::<Entry>::new();
    let data = data_with_targets(&["A", "B"]);
    let source = vec![file("x.mkv")];

    let mut reg = CacheMap::default();
    reg.caches.push(("A".to_string(), Cache::from([("x.mkv", Cache::Leaf)])));
    reg.caches.push(("B".to_string(), Cache::from([("x.mkv", Cache::Leaf)])));
    assert_eq!(data.find_target("src", &source, &mut reg, &nothing), Some("A".to_string()));

    let mut reg = CacheMap::default();
    reg.caches.push(("B".to_string(), Cache::from([("x.mkv", Cache::Leaf)])));
    reg.caches.push(("A".to_string(), Cache::from([("x.mkv", Cache::Leaf)])));
    assert_eq!(data.find_target("src", &source, &mut reg, &nothing), Some("B".to_string()));
    assert_eq!(reg.caches.len(), 2);
}

#[test]
fn season_folder_matches_its_target() {
    let list = table(vec![
        ("Alpha", vec![dir("Season 01"), file("clip.mkv")]),
        ("Beta", vec![file("notes.txt")]),
    ]);
    let data = data_with_targets(&["Beta", "Alpha"]);
    let mut reg = CacheMap::default();
    let source = vec![dir("Season 01"), file("readme.txt")];
    assert_eq!(
        data.find_target("Alpha.S01", &source, &mut reg, &list),
        Some("Alpha".to_string())
    );
    assert_eq!(reg.caches.len(), 2);
}

#[test]
fn no_shared_name_gives_no_target() {
    let list = table(vec![
        ("Alpha", vec![dir("Season 01"), file("clip.mkv")]),
        ("Beta", vec![file("other.mkv")]),
    ]);
    let data = data_with_targets(&["Alpha", "Beta"]);
    let mut reg = CacheMap::default();
    let source = vec![file("unrelated.mkv"), dir("Season 02")];
    assert_eq!(data.find_target("Gamma", &source, &mut reg, &list), None);
    assert_eq!(reg.caches.len(), 2);
}

#[test]
fn own_name_inside_a_new_target_stops_the_builds() {
    let list = table(vec![
        ("Alpha", vec![file("clip.mkv")]),
        ("Beta", vec![dir("Show.S01 - a partial copy")]),
        ("Gamma", vec![file("clip.mkv")]),
    ]);
    let data = data_with_targets(&["Alpha", "Beta", "Gamma"]);
    let mut reg = CacheMap::default();
    let source = vec![file("clip.mkv")];
    assert_eq!(
        data.find_target("Show.S01 - a partial copy", &source, &mut reg, &list),
        Some("Beta".to_string())
    );
    assert_eq!(reg.caches.len(), 2);
}

#[test]
fn own_name_in_a_built_cache_needs_no_listing() {
    let listed = Cell::new(0usize);
    let list_source = |_: &Vec<String>| {
        listed.set(listed.get() + 1);
        vec![file("x.mkv")]
    };
    let nothing = |_: &Vec<String>| Vec::<Entry>::new();
    let data = data_with_targets(&["A"]);
    let mut reg = CacheMap::default();
    reg.caches.push(("A".to_string(), Cache::from([("My Show Season 1", Cache::default())])));
    let found = data.find_exist_anime(&"My Show Season 1".to_string(), &mut reg, &list_source, &nothing);
    assert_eq!(found, Some("A".to_string()));
    assert_eq!(listed.get(), 0);
}

#[test]
fn queue_and_names_for_records() {
    let list_anime = table(vec![("Alpha", vec![dir("Season 01")])]);
    let list_source = table(vec![("Alpha.S01", vec![dir("Season 01")])]);
    let mut data = Data {
        data: RealData {
            source_anime_maps: vec![
                SourceAnimeMap {
                    source: "Alpha.S01".to_string(),
                    anime: String::new(),
                    active: true,
                    file_type: FileType::Dir,
                },
                SourceAnimeMap {
                    source: "done".to_string(),
                    anime: "Kept".to_string(),
                    active: true,
                    file_type: FileType::Dir,
                },
                SourceAnimeMap {
                    source: "off".to_string(),
                    anime: "Off".to_string(),
                    active: false,
                    file_type: FileType::Dir,
                },
                SourceAnimeMap {
                    source: "x.parts".to_string(),
                    anime: "P".to_string(),
                    active: true,
                    file_type: FileType::Other,
                },
                SourceAnimeMap {
                    source: "box".to_string(),
                    anime: String::new(),
                    active: true,
                    file_type: FileType::Nesting(vec![SourceAnimeMap {
                        source: "inner".to_string(),
                        anime: "Inner".to_string(),
                        active: true,
                        file_type: FileType::Dir,
                    }]),
                },
            ],
            animes: vec!["Alpha".to_string()],
        },
        source_map: Vec::new(),
        config: Config::new(vec![]),
    };
    let queue = data.map_animes(&list_source, &list_anime);
    assert_eq!(
        queue,
        vec![
            (0, 0, "Alpha".to_string()),
            (1, 0, "Kept".to_string()),
            (4, 0, "Inner".to_string()),
        ]
    );
    assert_eq!(data.data.source_anime_maps[0].anime, "Alpha");
    assert_eq!(data.data.source_anime_maps[4].anime, "");
    let FileType::Nesting(kids) = &data.data.source_anime_maps[4].file_type else {
        panic!("")
    };
    assert_eq!(kids[0].anime, "Inner");
}

#[test]
fn empty_queue_is_none() {
    let nothing = |_: &Vec<String>| Vec::<Entry>::new();
    let data = data_with_targets(&[]);
    let mut reg = CacheMap::default();
    let maps: Vec<SourceAnimeMap> = Vec::new();
    assert_eq!(data.need_reflink_anime_indexes(&maps, &mut reg, &nothing, &nothing), None);
}

#[test]
fn endless_nesting_stops_at_the_path_limit() {
    let list = |p: &Vec<String>| {
        if p.len() < 10_000 {
            vec![dir("Season 01 of a folder that never ends"), file("ep.mkv")]
        } else {
            Vec::new()
        }
    };
    let data = data_with_targets(&["Deep"]);
    let mut reg = CacheMap::default();
    let tree = data.fetch_anime_cache("Deep", &mut reg, &list);
    assert!(tree.contains("ep.mkv"));
    assert!(tree.contains("Season 01 of a folder that never ends"));
    assert!(!tree.contains("missing.mkv"));
}
