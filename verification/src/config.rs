//! The tool's settings as plain values, with the pure path arithmetic around
//! them. Reading and writing the configuration file is I/O and lives outside
//! the library; only the derived locations and the defaults are stated and
//! proved here.

use vstd::prelude::*;
use vstd::string::StringExecFns;

verus! {

/// How a vault is labelled in the launcher menu.
#[derive(Clone, Copy, Debug, PartialEq, Eq, Structural)]
pub enum DisplayName {
    /// The vault's own directory name, without a trailing extension.
    VaultName,
    /// The full path as recorded.
    Path,
    /// The shortest path suffix that is unique within the set.
    Unique,
}

impl Default for DisplayName {
    /// Vault names are the default labelling.
    fn default() -> (r: Self)
        ensures
            r == DisplayName::VaultName,
    {
        DisplayName::VaultName
    }
}

/// Where vault registries are looked for.
#[derive(Debug)]
pub struct Source {
    /// Look under the sandboxed application directory.
    pub flatpak: bool,
    /// Look under the native configuration directory.
    pub native: bool,
    /// Further registry files named by the user.
    pub additional_sources: Vec<String>,
}

impl Default for Source {
    /// Both well-known locations are searched by default; no extra files.
    fn default() -> (r: Self)
        ensures
            r.flatpak,
            r.native,
            r.additional_sources@.len() == 0,
    {
        Source { flatpak: true, native: true, additional_sources: Vec::new() }
    }
}

/// The tool's persisted settings, as plain values.
#[derive(Debug)]
pub struct Config {
    /// The labelling style for menu entries.
    pub display_name: DisplayName,
    /// Where vault registries are looked for.
    pub source: Source,
    /// The icon shown beside each entry.
    pub icon: String,
}

/// The icon used whenever the configuration names none.
pub fn default_icon() -> (r: String)
    ensures
        r@ == "obsidian"@,
{
    "obsidian".to_owned()
}

impl Default for Config {
    /// Fresh settings: vault-name labels, both well-known registry
    /// locations, the stock icon.
    fn default() -> (r: Self)
        ensures
            r.display_name == DisplayName::VaultName,
            r.source.flatpak,
            r.source.native,
            r.source.additional_sources@.len() == 0,
            r.icon@ == "obsidian"@,
    {
        Config { display_name: DisplayName::default(), source: Source::default(), icon: default_icon() }
    }
}

impl Config {
    /// The configuration directory: the dedicated environment value when
    /// set, else the well-known directory under the home directory, else
    /// nothing.
    pub fn get_config_home(xdg_config_home: Option<String>, home: Option<String>) -> (r: Option<
        String,
    >)
        ensures
            xdg_config_home is Some ==> r == xdg_config_home,
            xdg_config_home is None && home is Some ==> r is Some && r->0@ == home->0@
                + "/.config"@,
            xdg_config_home is None && home is None ==> r is None,
    {
        match xdg_config_home {
            Some(xdg) => Some(xdg),
            None => match home {
                Some(h) => Some(h.concat("/.config")),
                None => None,
            },
        }
    }

    /// The configuration file's location under the configuration directory.
    pub fn get_path(config_home: &String) -> (r: String)
        ensures
            r@ == config_home@ + "/rofi-obsidian/config.toml"@,
    {
        config_home.clone().concat("/rofi-obsidian/config.toml")
    }

    /// The tool's own folder under the configuration directory.
    pub fn get_path_folder(config_home: &String) -> (r: String)
        ensures
            r@ == config_home@ + "/rofi-obsidian"@,
    {
        config_home.clone().concat("/rofi-obsidian")
    }
}

} // verus!
