use anime_reflink::config::{Action, Config};

#[test]
fn config() {
    let args: Vec<String> = vec![];
    let config = Config::new(args);
    assert_eq!(config.action.to_string(), Action::Test.to_string());
    assert_eq!(
        config.mapfile_path, ".data/data.yaml",
        "mapfile_path {}",
        config.mapfile_path
    );
    assert_eq!(config.source_path, "X:\\SOURCE");
    assert_eq!(config.anime_path, "X:\\ANIME");

    let args = vec![
        "".to_string(),
        "renew".to_string(),
        ".data/data.1.yaml".to_string(),
        "./SOURCE".to_string(),
        "./ANIME".to_string(),
    ];
    let config = Config::new(args);
    assert_eq!(config.action.to_string(), Action::Renew.to_string());
    assert_eq!(
        config.mapfile_path, ".data/data.1.yaml",
        "mapfile_path {}",
        config.mapfile_path
    );
    assert_eq!(config.source_path, "./SOURCE");
    assert_eq!(config.anime_path, "./ANIME");

    let args = vec!["".to_string(), "reflink".to_string()];
    let config = Config::new(args);
    assert_eq!(config.action.to_string(), Action::Reflink.to_string());
}

#[test]
fn action_from() {
    assert!(matches!(Action::from("test"), Action::Test));
    assert!(matches!(Action::from("renew"), Action::Renew));
    assert!(matches!(Action::from("reflink"), Action::Reflink));
    assert!(matches!(Action::from("nottest"), Action::Test));
}

#[test]
fn action_words() {
    assert_eq!(Action::Test.to_string(), "test");
    assert_eq!(Action::Renew.to_string(), "renew");
    assert_eq!(Action::Reflink.to_string(), "reflink");
}

#[test]
fn config_keeps_later_defaults_when_few_arguments() {
    let args = vec!["prog".to_string(), "renew".to_string(), "map.yaml".to_string()];
    let config = Config::new(args);
    assert_eq!(config.action, Action::Renew);
    assert_eq!(config.mapfile_path, "map.yaml");
    assert_eq!(config.source_path, "X:\\SOURCE");
    assert_eq!(config.anime_path, "X:\\ANIME");
}
