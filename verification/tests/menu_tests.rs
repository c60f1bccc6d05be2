use rofi_obsidian::config::{Config, DisplayName};
use rofi_obsidian::display_name::split_path;
use rofi_obsidian::menu::{
    build_menu_line, build_open_uri, effective_icon, effective_style, render_lines, vault_label,
};

#[test]
fn split_is_leaf_first() {
    let comps = split_path(&String::from("~/Documents/personal"));

    assert_eq!(comps, vec!["personal", "Documents", "~"]);
}

#[test]
fn split_keeps_the_root() {
    let comps = split_path(&String::from("/srv/vaults"));

    assert_eq!(comps, vec!["vaults", "srv", "/"]);
}

#[test]
fn split_normalizes_doubled_separators_and_dots() {
    let comps = split_path(&String::from("a//b/./c/"));

    assert_eq!(comps, vec!["c", "b", "a"]);
}

#[test]
fn split_of_empty_string_is_empty() {
    let comps = split_path(&String::from(""));

    assert!(comps.is_empty());
}

#[test]
fn label_is_the_leaf() {
    let label = vault_label(&String::from("~/Documents/personal"));

    assert_eq!(label, "personal");
}

#[test]
fn label_strips_the_extension() {
    let label = vault_label(&String::from("~/Documents/archive.bak"));

    assert_eq!(label, "archive");
}

#[test]
fn label_keeps_a_leading_dot_name() {
    let label = vault_label(&String::from("~/Documents/.hidden"));

    assert_eq!(label, ".hidden");
}

#[test]
fn label_falls_back_on_special_leaves() {
    assert_eq!(vault_label(&String::from("/")), "/");
    assert_eq!(vault_label(&String::from("~/a/..")), "~/a/..");
    assert_eq!(vault_label(&String::from("")), "");
}

#[test]
fn menu_line_layout() {
    let line = build_menu_line(
        &String::from("personal"),
        &String::from("obsidian"),
        &String::from("~/Documents/personal"),
    );

    assert_eq!(
        line,
        "personal\0icon\u{1f}obsidian\u{1f}info\u{1f}~/Documents/personal"
    );
}

#[test]
fn render_unique_lines() {
    let vaults = vec![
        String::from("~/Documents/personal"),
        String::from("~/Documents/work"),
    ];

    let lines = render_lines(&vaults, &DisplayName::Unique, &String::from("obsidian"));

    assert_eq!(
        lines,
        vec![
            String::from("personal\0icon\u{1f}obsidian\u{1f}info\u{1f}~/Documents/personal"),
            String::from("work\0icon\u{1f}obsidian\u{1f}info\u{1f}~/Documents/work"),
        ]
    );
}

#[test]
fn render_path_lines() {
    let vaults = vec![String::from("~/Documents/personal")];

    let lines = render_lines(&vaults, &DisplayName::Path, &String::from("ico"));

    assert_eq!(
        lines,
        vec![String::from(
            "~/Documents/personal\0icon\u{1f}ico\u{1f}info\u{1f}~/Documents/personal"
        )]
    );
}

#[test]
fn render_vault_name_lines() {
    let vaults = vec![
        String::from("~/Documents/personal"),
        String::from("~/Documents/work.bak"),
    ];

    let lines = render_lines(&vaults, &DisplayName::VaultName, &String::from("obsidian"));

    assert_eq!(
        lines,
        vec![
            String::from("personal\0icon\u{1f}obsidian\u{1f}info\u{1f}~/Documents/personal"),
            String::from("work\0icon\u{1f}obsidian\u{1f}info\u{1f}~/Documents/work.bak"),
        ]
    );
}

#[test]
fn open_uri_escapes_the_path() {
    let uri = build_open_uri(&String::from("~/Documents/personal"));

    assert_eq!(uri, "obsidian://open?path=%7E%2FDocuments%2Fpersonal");
}

#[test]
fn open_uri_spells_spaces_as_percent_escapes() {
    let uri = build_open_uri(&String::from("~/My Vault"));

    assert_eq!(uri, "obsidian://open?path=%7E%2FMy%20Vault");
}

#[test]
fn style_override_wins() {
    let conf = Config::default();

    assert_eq!(
        effective_style(&Some(DisplayName::Unique), &conf),
        DisplayName::Unique
    );
    assert_eq!(effective_style(&None, &conf), DisplayName::VaultName);
}

#[test]
fn icon_override_wins() {
    let conf = Config::default();

    assert_eq!(
        effective_icon(&Some(String::from("paper")), &conf),
        "paper"
    );
    assert_eq!(effective_icon(&None, &conf), "obsidian");
}
