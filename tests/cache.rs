use anime_reflink::cache::Cache;

fn get_cache() -> Cache {
    Cache::from([
        ("a", Cache::Leaf),
        ("b", Cache::Leaf),
        ("c", Cache::from([("c.0", Cache::Leaf), ("c.1", Cache::Leaf)])),
    ])
}

#[test]
fn contains() {
    let mut cache = Cache::default();
    assert!(!cache.contains("a"));

    cache.insert_none("a");
    cache.insert("b", Cache::from([("b.0", Cache::Leaf)]));
    assert!(cache.contains("a"));
    assert!(cache.contains("b"));
    assert!(cache.contains("b.0"));
    assert!(!cache.contains("c"));
}

#[test]
fn contains_set() {
    let cache = Cache::from([
        ("a", Cache::Leaf),
        ("b", Cache::from([("b.0", Cache::Leaf)])),
    ]);

    assert!(cache.contains_set(&vec!["a".to_string()]));
    assert!(cache.contains_set(&vec!["b.0".to_string()]));
    assert!(!cache.contains_set(&vec!["c".to_string()]));
    assert!(cache.contains_set(&vec!["c".to_string(), "b.0".to_string()]));
}

#[test]
fn cache_iter() {
    let cache = get_cache();
    let mut iter = cache.iter();
    let mut sort: Vec<&String> = Vec::new();
    while let Some((k, _)) = iter.next() {
        sort.push(k);
    }
    sort.sort();
    assert_eq!(sort, ["a", "b", "c"]);
    let mut iter = cache.iter();
    let mut cb = None;
    while let Some((k, v)) = iter.next() {
        if k == "c" {
            cb = Some(v);
            break;
        }
    }
    assert_eq!(
        *cb.unwrap(),
        Cache::from([("c.0", Cache::Leaf), ("c.1", Cache::Leaf)])
    );
}

#[test]
fn cache_iter_mut() {
    let mut cache = get_cache();
    let mut iter_mut = cache.iter_mut();
    let item = iter_mut.next().unwrap();
    assert!(["a", "b", "c"].contains(&item.0.as_str()));
    *item.1 = Cache::from([("d", Cache::Leaf)]);
    assert_ne!(cache, get_cache());
}

#[test]
fn contains_key_sees_only_the_top_level() {
    let cache = get_cache();
    assert!(cache.contains_key("c"));
    assert!(!cache.contains_key("c.0"));
    assert!(cache.contains("c.0"));
    assert!(!Cache::Leaf.contains_key("a"));
}

#[test]
fn inserted_name_is_held_and_survives_siblings() {
    let mut cache = Cache::default();
    cache.insert_none("Season 01");
    assert!(cache.contains("Season 01"));
    cache.insert_none("clip.mkv");
    cache.insert("Extras Long Folder Name", Cache::default());
    assert!(cache.contains("Season 01"));
    assert!(cache.contains("clip.mkv"));
}

#[test]
fn empty_name_set_is_never_held() {
    assert!(!get_cache().contains_set(&Vec::new()));
    assert!(!Cache::default().contains_set(&Vec::new()));
    assert!(!Cache::Leaf.contains_set(&Vec::new()));
}

#[test]
fn leaf_holds_nothing() {
    let leaf = Cache::Leaf;
    assert!(!leaf.contains("a"));
    assert!(!leaf.contains(""));
    assert!(!leaf.contains_set(&vec!["a".to_string(), "".to_string()]));
}

#[test]
fn branch_round_trip() {
    let mut cache = Cache::default();
    cache.insert("k", Cache::default());
    assert!(cache.contains("k"));
    assert!(cache.contains_key("k"));
}

#[test]
fn insert_on_a_leaf_does_nothing() {
    let mut leaf = Cache::Leaf;
    leaf.insert_none("a");
    leaf.insert("b", Cache::default());
    assert!(leaf.insert_default("c").is_none());
    assert!(leaf.entry("d").is_none());
    assert_eq!(leaf, Cache::Leaf);
}

#[test]
fn insert_replaces_the_value_of_a_key() {
    let mut cache = Cache::from([("a", Cache::from([("x", Cache::Leaf)]))]);
    assert!(cache.contains("x"));
    cache.insert_none("a");
    assert!(cache.contains("a"));
    assert!(!cache.contains("x"));
    assert_eq!(cache, Cache::from([("a", Cache::Leaf)]));
}

#[test]
fn insert_default_hands_out_the_new_branch() {
    let mut cache = Cache::default();
    {
        let sub = cache.insert_default("Season 01").unwrap();
        assert_eq!(*sub, Cache::default());
        sub.insert_none("ep01.mkv");
    }
    assert!(cache.contains("ep01.mkv"));
    assert_eq!(
        cache,
        Cache::from([("Season 01", Cache::from([("ep01.mkv", Cache::Leaf)]))])
    );
}

#[test]
fn entry_keeps_an_existing_value() {
    let mut cache = Cache::from([("a", Cache::from([("x", Cache::Leaf)]))]);
    {
        let sub = cache.entry("a").unwrap();
        assert!(sub.contains("x"));
        sub.insert_none("y");
    }
    {
        let fresh = cache.entry("b").unwrap();
        assert_eq!(*fresh, Cache::default());
    }
    assert!(cache.contains("x"));
    assert!(cache.contains("y"));
    assert!(cache.contains_key("b"));
}

#[test]
fn from_no_pairs_is_a_leaf_and_last_pair_wins() {
    let empty: [(&str, Cache); 0] = [];
    assert_eq!(Cache::from(empty), Cache::Leaf);
    let cache = Cache::from([("a", Cache::Leaf), ("a", Cache::default())]);
    assert_eq!(cache, Cache::from([("a", Cache::default())]));
    assert_ne!(cache, Cache::from([("a", Cache::Leaf)]));
}

#[test]
fn equality_ignores_entry_order() {
    let one = Cache::from([("a", Cache::Leaf), ("b", Cache::default())]);
    let two = Cache::from([("b", Cache::default()), ("a", Cache::Leaf)]);
    assert_eq!(one, two);
    assert_ne!(one, Cache::from([("a", Cache::Leaf)]));
    assert_ne!(Cache::Leaf, Cache::default());
}

#[test]
fn into_iter_takes_entries_in_order() {
    let cache = Cache::from([("a", Cache::Leaf), ("b", Cache::default())]);
    let mut it = cache.into_iter();
    let (k, v) = it.next().unwrap();
    assert_eq!(k, "a");
    assert_eq!(v, Cache::Leaf);
    let (k, v) = it.next().unwrap();
    assert_eq!(k, "b");
    assert_eq!(v, Cache::default());
    assert!(it.next().is_none());
    assert!(Cache::Leaf.into_iter().next().is_none());
}
