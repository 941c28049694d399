use anime_reflink::cache::Cache;
use anime_reflink::config::{Action, Config};
use anime_reflink::data::{Data, Pushed, RealData};
use anime_reflink::registry::CacheMap;
use anime_reflink::signal::Entry;
use anime_reflink::source_anime_map::{FileType, SourceAnimeMap, Value};

fn get_real_data() -> RealData {
    RealData {
        source_anime_maps: vec![
            SourceAnimeMap {
                source: "file_source".to_string(),
                anime: "file_anime".to_string(),
                active: true,
                file_type: FileType::File,
            },
            SourceAnimeMap {
                source: "dir_source".to_string(),
                anime: "dir_anime".to_string(),
                active: true,
                file_type: FileType::Dir,
            },
            SourceAnimeMap {
                source: "nesting_source".to_string(),
                anime: "nesting_anime".to_string(),
                active: true,
                file_type: FileType::Nesting(vec![
                    SourceAnimeMap {
                        source: "nesting_file_source".to_string(),
                        anime: "nesting_file_anime".to_string(),
                        active: true,
                        file_type: FileType::File,
                    },
                    SourceAnimeMap {
                        source: "nesting_dir_source".to_string(),
                        anime: "nesting_dir_anime".to_string(),
                        active: true,
                        file_type: FileType::Dir,
                    },
                ]),
            },
        ],
        animes: Vec::new(),
    }
}

const ANIME_4: &str = "君の名は。 [你的名字。]";
const ANIME_4_SUB: [&str; 5] = [
    "SPs",
    "Season 01",
    "[VCB-Studio] Kimi no Na wa [Ma10p_1080p]",
    "[VCB-Studio] Kimi no Na wa [Ma10p_1080p][x265_flac].mkv",
    "readme about WebP.txt",
];

fn anime_4_listing(path: &Vec<String>) -> Vec<Entry> {
    if path.len() == 1 && path[0] == ANIME_4 {
        ANIME_4_SUB
            .iter()
            .map(|n| Entry {
                name: n.to_string(),
                is_file: n.ends_with(".mkv") | n.ends_with(".txt"),
                is_dir: !(n.ends_with(".mkv") | n.ends_with(".txt")),
            })
            .collect()
    } else {
        Vec::new()
    }
}

fn create_data() -> Data {
    Data {
        data: get_real_data(),
        source_map: Vec::new(),
        config: Config::new(vec![]),
    }
}

#[test]
fn fetch_anime_cache() {
    let data = create_data();
    let mut anime_cache = CacheMap::default();
    let set = data.fetch_anime_cache(ANIME_4, &mut anime_cache, &anime_4_listing);
    assert_eq!(
        set,
        &Cache::from([
            (ANIME_4_SUB[3], Cache::Leaf),
            (ANIME_4_SUB[2], Cache::default()),
            (ANIME_4_SUB[1], Cache::default()),
        ]),
        "set is {:?}",
        set
    );
    assert_eq!(
        anime_cache,
        CacheMap {
            caches: vec![(
                ANIME_4.to_string(),
                Cache::from([
                    (ANIME_4_SUB[1], Cache::default()),
                    (ANIME_4_SUB[2], Cache::default()),
                    (ANIME_4_SUB[3], Cache::Leaf),
                ])
            )]
        }
    );
}

#[test]
fn get_map_at_indexes() {
    let real_data = get_real_data();
    assert_eq!(
        real_data.get_map_at_indexes((0, 0)),
        &real_data.source_anime_maps[0]
    );
    let FileType::Nesting(nesting) = &real_data.source_anime_maps[2].file_type else {
        panic!("")
    };
    assert_eq!(real_data.get_map_at_indexes((2, 1)), &nesting[1]);
}

#[test]
fn set_anime_name() {
    let mut real_data = get_real_data();
    real_data.set_anime_name(&vec![(0, 0, "new_anime".to_string())]);
    assert_eq!(
        real_data.source_anime_maps[0].anime,
        "new_anime".to_string()
    );
    real_data.set_anime_name(&vec![(2, 1, "new_nesting_anime".to_string())]);
    let FileType::Nesting(nesting) = &real_data.source_anime_maps[2].file_type else {
        panic!("")
    };
    assert_eq!(nesting[1].anime, "new_nesting_anime".to_string());
}

#[test]
fn set_map_active() {
    let mut real_data = get_real_data();

    real_data.set_map_active(&vec![(0, 0, false)]);
    assert!(!real_data.source_anime_maps[0].active);

    real_data.set_map_active(&vec![(2, 1, false)]);
    let FileType::Nesting(nesting) = &real_data.source_anime_maps[2].file_type else {
        panic!("")
    };
    assert!(!nesting[1].active);

    real_data.set_map_active(&vec![(0, 0, true)]);
    assert!(real_data.source_anime_maps[0].active);
}

#[test]
fn set_anime_name_last_item_wins() {
    let mut real_data = get_real_data();
    real_data.set_anime_name(&vec![
        (1, 0, "first".to_string()),
        (1, 0, "second".to_string()),
    ]);
    assert_eq!(real_data.source_anime_maps[1].anime, "second");
    assert_eq!(real_data.source_anime_maps[0].anime, "file_anime");
    assert_eq!(real_data.source_anime_maps[2].anime, "nesting_anime");
}

#[test]
fn push_new_and_renew_maps() {
    let mut real_data = get_real_data();
    real_data.push_new_map("fresh".to_string(), FileType::Dir);
    let last = real_data.source_anime_maps.last().unwrap();
    assert_eq!(last.source, "fresh");
    assert_eq!(last.anime, "");
    assert!(last.active);
    assert_eq!(last.file_type, FileType::Dir);

    let child = SourceAnimeMap {
        source: "part 1".to_string(),
        anime: String::new(),
        active: true,
        file_type: FileType::Dir,
    };
    real_data.push_renew_map("dir_source".to_string(), FileType::Nesting(vec![child]));
    let FileType::Nesting(kids) = &real_data.source_anime_maps[1].file_type else {
        panic!("")
    };
    assert_eq!(kids.len(), 1);
    assert_eq!(kids[0].source, "part 1");
    assert_eq!(kids[0].anime, "dir_anime");
    assert_eq!(real_data.source_anime_maps[1].anime, "dir_anime");

    real_data.push_renew_map("file_source".to_string(), FileType::Other);
    assert_eq!(real_data.source_anime_maps[0].file_type, FileType::Other);
}

#[test]
fn push_anime_keeps_names_unique() {
    let mut real_data = RealData::default();
    real_data.push_anime("A".to_string());
    real_data.push_anime("B".to_string());
    real_data.push_anime("A".to_string());
    assert_eq!(real_data.animes, vec!["A".to_string(), "B".to_string()]);
}

#[test]
fn map_file_type_by_entry_kind() {
    let data = create_data();
    let none: Vec<Entry> = Vec::new();
    assert_eq!(data.get_map_file_type("ep.mkv", true, false, &none), FileType::File);
    assert_eq!(data.get_map_file_type("ep.mkv.parts", true, false, &none), FileType::Other);
    let mixed = vec![
        Entry { name: "d".to_string(), is_file: false, is_dir: true },
        Entry { name: "f.txt".to_string(), is_file: true, is_dir: false },
    ];
    assert_eq!(data.get_map_file_type("show", false, true, &mixed), FileType::Dir);
    let dirs = vec![
        Entry { name: "S1".to_string(), is_file: false, is_dir: true },
        Entry { name: "S2".to_string(), is_file: false, is_dir: true },
    ];
    let FileType::Nesting(kids) = data.get_map_file_type("show", false, true, &dirs) else {
        panic!("")
    };
    assert_eq!(kids.len(), 2);
    assert_eq!(kids[1].source, "S2");
    assert_eq!(kids[1].anime, "");
    assert!(kids[1].active);
    assert_eq!(kids[1].file_type, FileType::Dir);
    assert_eq!(data.get_map_file_type("empty", false, true, &none), FileType::Nesting(Vec::new()));
}

#[test]
fn push_map_by_action() {
    let maps = get_real_data().source_anime_maps;
    let mut data = Data::from_maps(Config::new(vec![]), maps);
    assert_eq!(data.push_map("dir_source".to_string(), FileType::Other), Pushed::Skipped);
    assert_eq!(data.data.source_anime_maps[1].file_type, FileType::Dir);
    assert_eq!(data.push_map("brand new".to_string(), FileType::File), Pushed::New);
    assert_eq!(data.data.source_anime_maps.len(), 4);

    let maps = get_real_data().source_anime_maps;
    let mut data = Data::from_maps(
        Config::new(vec!["".to_string(), "renew".to_string()]),
        maps,
    );
    assert_eq!(data.config.action, Action::Renew);
    assert_eq!(data.push_map("dir_source".to_string(), FileType::Other), Pushed::Renewed);
    assert_eq!(data.data.source_anime_maps[1].file_type, FileType::Other);
    assert_eq!(data.data.source_anime_maps.len(), 3);
}

#[test]
fn set_anime_on_records() {
    let mut real_data = get_real_data();
    let name = "Target".to_string();
    assert!(real_data.source_anime_maps[0].set_anime(Value::Base(&name)).is_ok());
    assert_eq!(real_data.source_anime_maps[0].anime(), "Target");
    assert!(real_data.source_anime_maps[1].set_anime(Value::Index((1, &name))).is_err());
    assert_eq!(real_data.source_anime_maps[1].anime, "dir_anime");
    assert!(real_data.source_anime_maps[1].set_anime(Value::Index((0, &name))).is_ok());
    assert_eq!(real_data.source_anime_maps[1].anime, "Target");

    let nested = &mut real_data.source_anime_maps[2];
    assert!(nested.set_anime(Value::Index((0, &name))).is_ok());
    assert_eq!(nested.anime, "nesting_anime, Target");
    assert!(nested.set_anime(Value::Index((1, &name))).is_ok());
    assert_eq!(nested.anime, "nesting_anime, Target");
    let FileType::Nesting(kids) = &nested.file_type else { panic!("") };
    assert_eq!(kids[0].anime, "Target");
    assert_eq!(kids[1].anime, "Target");

    let mut bare = SourceAnimeMap {
        source: "s".to_string(),
        anime: String::new(),
        active: true,
        file_type: FileType::Nesting(vec![SourceAnimeMap {
            source: "c".to_string(),
            anime: String::new(),
            active: true,
            file_type: FileType::Dir,
        }]),
    };
    assert!(bare.set_anime(Value::Index((0, &name))).is_ok());
    assert_eq!(bare.anime, "Target");
}

#[test]
fn set_active_on_records() {
    let mut real_data = get_real_data();
    assert!(real_data.source_anime_maps[0].set_active(Value::Base(false)).is_ok());
    assert!(!real_data.source_anime_maps[0].active());
    assert!(real_data.source_anime_maps[0].set_active(Value::Index((2, true))).is_err());
    let nested = &mut real_data.source_anime_maps[2];
    assert!(nested.set_active(Value::Index((0, false))).is_ok());
    assert!(nested.active);
    assert!(nested.set_active(Value::Index((1, false))).is_ok());
    assert!(!nested.active);
    assert!(nested.set_active(Value::Index((1, true))).is_ok());
    assert!(nested.active);
}

#[test]
fn other_records_never_take_part() {
    let map = SourceAnimeMap {
        source: "x.parts".to_string(),
        anime: String::new(),
        active: true,
        file_type: FileType::Other,
    };
    assert!(map.file_type.is_other());
    assert!(!map.active());
    assert!(!FileType::Dir.is_other());
}
