use world_statistics::options::{
    dimension_dir, parse_list, parse_opts, player_data_options, scan_playerdata, ScanError,
    ScanPlayerDataOptions,
};

#[test]
fn list_all_takes_the_defaults() {
    let mut ids = parse_list("all", &["minecraft:chest", "minecraft:barrel", "minecraft:chest"]);
    ids.sort();
    assert_eq!(ids, vec!["minecraft:barrel".to_string(), "minecraft:chest".to_string()]);
}

#[test]
fn list_names_take_the_namespace() {
    let mut ids = parse_list("hopper,chest,hopper", &["minecraft:barrel"]);
    ids.sort();
    assert_eq!(ids, vec!["minecraft:chest".to_string(), "minecraft:hopper".to_string()]);
    assert_eq!(parse_list("", &[]), vec!["minecraft:".to_string()]);
}

#[test]
fn options_keep_the_last_value() {
    let mut opts = parse_opts(Some("chunk_radius=5,inventory,chunk_radius=7,a=b=c"));
    opts.sort();
    assert_eq!(
        opts,
        vec![
            ("a".to_string(), "b=c".to_string()),
            ("chunk_radius".to_string(), "7".to_string()),
            ("inventory".to_string(), String::new()),
        ]
    );
    assert!(parse_opts(None).is_empty());
    assert_eq!(parse_opts(Some("")), vec![(String::new(), String::new())]);
}

#[test]
fn dimension_directories() {
    assert_eq!(dimension_dir("overworld"), Some(String::new()));
    assert_eq!(dimension_dir("nether"), Some("DIM-1".to_string()));
    assert_eq!(dimension_dir("end"), Some("DIM1".to_string()));
    assert_eq!(dimension_dir("moon"), None);
}

#[test]
fn player_data_scan_is_refused() {
    let opts = ScanPlayerDataOptions { inventory: true, ender_chest: false };
    assert_eq!(scan_playerdata(opts), Err(ScanError::PlayerDataUnsupported));
}

#[test]
fn player_data_options_default_to_both() {
    let both = player_data_options(&vec![]);
    assert!(both.inventory && both.ender_chest);
    let one = player_data_options(&parse_opts(Some("ender_chest")));
    assert!(!one.inventory && one.ender_chest);
}
