use rofi_obsidian::args::SubCommand;
use rofi_obsidian::config::{default_icon, Config, DisplayName, Source};

#[test]
fn test_config_default() {
    let conf = Config::default();

    assert_eq!(conf.icon, "obsidian");
}

#[test]
fn default_style_is_vault_name() {
    assert_eq!(DisplayName::default(), DisplayName::VaultName);
    assert_eq!(Config::default().display_name, DisplayName::VaultName);
}

#[test]
fn default_source_searches_both_locations() {
    let source = Source::default();

    assert!(source.flatpak);
    assert!(source.native);
    assert!(source.additional_sources.is_empty());
}

#[test]
fn default_icon_value() {
    assert_eq!(default_icon(), "obsidian");
}

#[test]
fn config_home_prefers_dedicated_variable() {
    let r = Config::get_config_home(
        Some(String::from("/xdg")),
        Some(String::from("/home/user")),
    );

    assert_eq!(r, Some(String::from("/xdg")));
}

#[test]
fn config_home_falls_back_to_home() {
    let r = Config::get_config_home(None, Some(String::from("/home/user")));

    assert_eq!(r, Some(String::from("/home/user/.config")));
}

#[test]
fn config_home_unknown_without_environment() {
    assert_eq!(Config::get_config_home(None, None), None);
}

#[test]
fn config_file_location() {
    let path = Config::get_path(&String::from("/home/user/.config"));

    assert_eq!(path, "/home/user/.config/rofi-obsidian/config.toml");
}

#[test]
fn config_folder_location() {
    let folder = Config::get_path_folder(&String::from("/home/user/.config"));

    assert_eq!(folder, "/home/user/.config/rofi-obsidian");
}

#[test]
fn subcommand_default_and_names() {
    assert!(matches!(SubCommand::default(), SubCommand::Run));
    assert_eq!(SubCommand::Run.as_str(), "run");
    assert_eq!(SubCommand::Config.as_str(), "config");
    assert_eq!(SubCommand::InitConfig.as_str(), "init-config");
}
