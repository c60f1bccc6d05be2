use rofi_obsidian::config::{Config, Source};
use rofi_obsidian::vaults::{build_sources, get_known_vaults};

#[test]
fn merge_sorts_and_deduplicates() {
    let lists = vec![
        vec![String::from("~/b"), String::from("~/a")],
        vec![String::from("~/c"), String::from("~/a")],
    ];

    let merged = get_known_vaults(lists);

    assert_eq!(merged, vec!["~/a", "~/b", "~/c"]);
}

#[test]
fn merge_of_nothing_is_empty() {
    assert!(get_known_vaults(vec![]).is_empty());
    assert!(get_known_vaults(vec![vec![], vec![]]).is_empty());
}

#[test]
fn sources_cover_both_locations() {
    let conf = Config::default();

    let sources = build_sources(&conf, String::from("/home/user"), None);

    assert_eq!(
        sources,
        vec![
            String::from(
                "/home/user/.var/app/md.obsidian.Obsidian/config/obsidian/obsidian.json"
            ),
            String::from("/home/user/.config/obsidian/obsidian.json"),
        ]
    );
}

#[test]
fn sources_respect_the_dedicated_directory() {
    let conf = Config::default();

    let sources = build_sources(
        &conf,
        String::from("/home/user"),
        Some(String::from("/xdg")),
    );

    assert_eq!(sources[1], "/xdg/obsidian/obsidian.json");
}

#[test]
fn sources_empty_without_environment() {
    let conf = Config::default();

    let sources = build_sources(&conf, String::new(), None);

    assert!(sources.is_empty());
}

#[test]
fn sources_append_additional_files() {
    let mut conf = Config::default();
    conf.source = Source {
        flatpak: false,
        native: true,
        additional_sources: vec![String::from("/srv/extra.json")],
    };

    let sources = build_sources(&conf, String::from("/home/user"), None);

    assert_eq!(
        sources,
        vec![
            String::from("/home/user/.config/obsidian/obsidian.json"),
            String::from("/srv/extra.json"),
        ]
    );
}
