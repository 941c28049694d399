use anime_reflink::cache_box::CacheBox;

fn get_cache() -> CacheBox {
    CacheBox::from([
        ("a", CacheBox::Leaf),
        ("b", CacheBox::Leaf),
        (
            "c",
            CacheBox::from([("c.0", CacheBox::Leaf), ("c.1", CacheBox::Leaf)]),
        ),
    ])
}

#[test]
fn cache_box_iter() {
    let cache = get_cache();
    let mut iter = cache.iter();
    let mut sort: Vec<&String> = Vec::new();
    while let Some((k, _)) = iter.next() {
        sort.push(k);
    }
    sort.sort();
    assert_eq!(sort, ["a", "b", "c"]);
    let mut iter = cache.iter();
    let mut cb = None;
    while let Some((k, v)) = iter.next() {
        if k == "c" {
            cb = Some(v);
            break;
        }
    }
    assert_eq!(
        *cb.unwrap(),
        CacheBox::from([("c.0", CacheBox::Leaf), ("c.1", CacheBox::Leaf)])
    );
}

#[test]
fn cache_box_iter_mut() {
    let mut cache = get_cache();
    let mut iter_mut = cache.iter_mut();
    let item = iter_mut.next().unwrap();
    assert!(["a", "b", "c"].contains(&item.0.as_str()));
    *item.1 = CacheBox::from([("d", CacheBox::Leaf)]);
    assert_ne!(cache, get_cache());
}

#[test]
fn cache_box_contains_nested_names() {
    let cache = get_cache();
    assert!(cache.contains("c.1"));
    assert!(!cache.contains("d"));
    assert!(cache.contains_set(&vec!["x".to_string(), "c.0".to_string()]));
    assert!(!cache.contains_set(&Vec::new()));
}

#[test]
fn cache_box_insert_cache_hands_out_an_empty_branch() {
    let mut cache = CacheBox::from([("a", CacheBox::Leaf)]);
    cache.insert("b");
    assert!(cache.contains("b"));
    let sub = cache.insert_cache("c").unwrap();
    assert_eq!(*sub, CacheBox::Branch(Vec::new()));
    sub.insert("c.0");
    assert!(cache.contains("c"));
    assert!(cache.contains("c.0"));
    let mut leaf = CacheBox::Leaf;
    assert!(leaf.insert_cache("x").is_none());
}
