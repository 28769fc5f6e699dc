use toru::args::{ListOptions, Order, OrderBy};
use toru::config::Config;
use toru::error::Error;
use toru::vault::{connect, delete, disconnect, new, Found};

fn options() -> ListOptions {
    ListOptions {
        column: Vec::new(),
        order_by: None,
        order: None,
        tag: Vec::new(),
        exclude_tag: Vec::new(),
        priority: Vec::new(),
        due_before: None,
        due_after: None,
        created_before: None,
        created_after: None,
        include_completed: false,
        no_dependencies: false,
        no_dependents: false,
    }
}

fn config_of(vaults: &[(&str, &str)]) -> Config {
    let mut config = Config::default();
    for (name, path) in vaults {
        config.add(String::from(*name), String::from(*path));
    }
    config
}

fn pairs(config: &Config) -> Vec<(&str, &str)> {
    config.vaults.iter().map(|(n, p)| (n.as_str(), p.as_str())).collect()
}

fn message(error: Error) -> String {
    match error {
        Error::Generic(message) => message,
        Error::Internal(message) => panic!("internal error: {}", message),
    }
}

const VAULT: Found = Found { exists: true, is_dir: true, is_empty: false, has_tasks: true, has_state: true };
const NOTHING: Found = Found { exists: false, is_dir: false, is_empty: false, has_tasks: false, has_state: false };
const EMPTY: Found = Found { exists: true, is_dir: true, is_empty: true, has_tasks: false, has_state: false };
const FILE: Found = Found { exists: true, is_dir: false, is_empty: false, has_tasks: false, has_state: false };

#[test]
fn default_config_edits_with_vim() {
    let config = Config::default();
    assert!(config.vaults.is_empty());
    assert_eq!(config.editor, "vim");
    assert!(config.profiles.is_empty());
}

#[test]
fn current_vault_is_the_first() {
    let config = config_of(&[("work", "/w"), ("home", "/h")]);
    assert_eq!(config.current_vault().unwrap(), &(String::from("work"), String::from("/w")));
    assert_eq!(
        message(Config::default().current_vault().unwrap_err()),
        "The attempted operation requires a vault, none of which have been set up"
    );
}

#[test]
fn names_and_paths_are_found() {
    let config = config_of(&[("work", "/w"), ("home", "/h")]);
    assert!(config.contains_name(&String::from("home")));
    assert!(!config.contains_name(&String::from("/h")));
    assert!(config.contains_path(&String::from("/w")));
    assert!(!config.contains_path(&String::from("work")));
    assert_eq!(config.position(&String::from("home")), Some(1));
    assert_eq!(config.position(&String::from("none")), None);
}

#[test]
fn rename_changes_the_name_alone() {
    colored::control::set_override(false);
    let mut config = config_of(&[("work", "/w"), ("home", "/h"), ("play", "/p")]);
    config.rename_vault(&String::from("home"), String::from("house")).unwrap();
    assert_eq!(pairs(&config), vec![("work", "/w"), ("house", "/h"), ("play", "/p")]);
    assert_eq!(
        message(config.rename_vault(&String::from("work"), String::from("play")).unwrap_err()),
        "A vault named play already exists"
    );
    assert_eq!(
        message(config.rename_vault(&String::from("none"), String::from("some")).unwrap_err()),
        "No vault named none exists"
    );
    assert_eq!(
        message(config.rename_vault(&String::from("work"), String::from("work")).unwrap_err()),
        "A vault named work already exists"
    );
    assert_eq!(pairs(&config), vec![("work", "/w"), ("house", "/h"), ("play", "/p")]);
}

#[test]
fn remove_puts_the_last_vault_in_its_place() {
    colored::control::set_override(false);
    let mut config = config_of(&[("work", "/w"), ("home", "/h"), ("play", "/p")]);
    assert_eq!(config.remove(&String::from("work")).unwrap(), "/w");
    assert_eq!(pairs(&config), vec![("play", "/p"), ("home", "/h")]);
    assert_eq!(
        message(config.remove(&String::from("work")).unwrap_err()),
        "No vault by the name work exists"
    );
    assert_eq!(pairs(&config), vec![("play", "/p"), ("home", "/h")]);
}

#[test]
fn switch_changes_places_with_the_first() {
    colored::control::set_override(false);
    let mut config = config_of(&[("work", "/w"), ("home", "/h"), ("play", "/p")]);
    config.switch(&String::from("play")).unwrap();
    assert_eq!(pairs(&config), vec![("play", "/p"), ("home", "/h"), ("work", "/w")]);
    config.switch(&String::from("play")).unwrap();
    assert_eq!(pairs(&config), vec![("play", "/p"), ("home", "/h"), ("work", "/w")]);
    assert_eq!(
        message(config.switch(&String::from("none")).unwrap_err()),
        "No vault by the name none exists"
    );
}

#[test]
fn vaults_are_listed_in_columns() {
    colored::control::set_override(false);
    let config = config_of(&[("work", "/w"), ("playground", "/p"), ("é", "/e")]);
    assert_eq!(
        config.list_vaults().unwrap(),
        vec!["* work       /w", "  playground /p", "  é         /e"]
    );
    assert_eq!(
        message(Config::default().list_vaults().unwrap_err()),
        "No vaults currently set up, try running: toru vault new <NAME> <PATH>"
    );
}

#[test]
fn profiles_are_kept_by_name() {
    colored::control::set_override(false);
    let mut config = Config::default();
    let mut descending = options();
    descending.order = Some(Order::Desc);
    config.create_profile(String::from("recent"), descending).unwrap();
    let mut by_name = options();
    by_name.order_by = Some(OrderBy::Name);
    config.create_profile(String::from("names"), by_name).unwrap();
    assert_eq!(
        message(config.create_profile(String::from("recent"), options()).unwrap_err()),
        "A profile by the name recent already exists"
    );
    assert_eq!(config.get_profile(&String::from("recent")).unwrap().order, Some(Order::Desc));
    assert_eq!(config.get_profile(&String::from("names")).unwrap().order_by, Some(OrderBy::Name));
    assert_eq!(
        message(config.get_profile(&String::from("none")).unwrap_err()),
        "No profile by the name none exists"
    );
    assert_eq!(config.list_profiles().unwrap(), vec!["recent", "names"]);
    config.delete_profile(&String::from("recent")).unwrap();
    assert_eq!(config.list_profiles().unwrap(), vec!["names"]);
    assert_eq!(
        message(config.delete_profile(&String::from("recent")).unwrap_err()),
        "No profile by the name recent exists"
    );
    config.delete_profile(&String::from("names")).unwrap();
    assert_eq!(
        message(config.list_profiles().unwrap_err()),
        "No profiles currently set up, try running: toru config profile new <NAME> <OPTIONS>"
    );
}

#[test]
fn new_vault_needs_an_empty_place() {
    let mut config = config_of(&[("work", "/w")]);
    assert_eq!(new(String::from("home"), String::from("/h"), &NOTHING, &mut config).unwrap(), true);
    assert_eq!(new(String::from("play"), String::from("/p"), &EMPTY, &mut config).unwrap(), false);
    assert_eq!(pairs(&config), vec![("work", "/w"), ("home", "/h"), ("play", "/p")]);
    assert_eq!(
        message(new(String::from("work"), String::from("/x"), &NOTHING, &mut config).unwrap_err()),
        "A vault named \"work\" already exists"
    );
    assert_eq!(
        message(new(String::from("more"), String::from("/w"), &NOTHING, &mut config).unwrap_err()),
        "A vault at the path \"/w\" already exists"
    );
    assert_eq!(
        message(new(String::from("more"), String::from("/x"), &VAULT, &mut config).unwrap_err()),
        "The specified folder already exists and contains other data, please provide a path to a new or empty folder"
    );
    assert_eq!(
        message(new(String::from("more"), String::from("/x"), &FILE, &mut config).unwrap_err()),
        "The specified path already points to a file, please provide a path to a new or empty folder"
    );
    assert_eq!(config.vaults.len(), 3);
}

#[test]
fn connect_needs_a_vault_at_the_place() {
    colored::control::set_override(false);
    let mut config = config_of(&[("work", "/w")]);
    connect(String::from("home"), String::from("/h"), &VAULT, &mut config).unwrap();
    assert_eq!(pairs(&config), vec![("work", "/w"), ("home", "/h")]);
    assert_eq!(
        message(connect(String::from("home"), String::from("/x"), &VAULT, &mut config).unwrap_err()),
        "A vault named \"home\" already exists"
    );
    assert_eq!(
        message(connect(String::from("more"), String::from("/h"), &VAULT, &mut config).unwrap_err()),
        "A vault at the path \"/h\" is already set up"
    );
    assert_eq!(
        message(connect(String::from("more"), String::from("/a \"b\""), &NOTHING, &mut config).unwrap_err()),
        "The path \"/a \\\"b\\\"\" does not exist"
    );
    assert_eq!(
        message(connect(String::from("more"), String::from("/x"), &FILE, &mut config).unwrap_err()),
        "The specified path points to a file, not a folder"
    );
    assert_eq!(
        message(connect(String::from("more"), String::from("/x"), &EMPTY, &mut config).unwrap_err()),
        "Cannot connect the vault as it is missing the tasks folder"
    );
    let stateless = Found { has_state: false, ..VAULT };
    assert_eq!(
        message(connect(String::from("more"), String::from("/x"), &stateless, &mut config).unwrap_err()),
        "Cannot connect the vault as it is missing the state.toml file"
    );
    assert_eq!(config.vaults.len(), 2);
}

#[test]
fn disconnect_and_delete_forget_the_vault() {
    colored::control::set_override(false);
    let mut config = config_of(&[("work", "/w"), ("home", "/h"), ("play", "/p")]);
    disconnect(&String::from("work"), &mut config).unwrap();
    assert_eq!(pairs(&config), vec![("play", "/p"), ("home", "/h")]);
    assert_eq!(delete(&String::from("home"), &mut config).unwrap(), "/h");
    assert_eq!(pairs(&config), vec![("play", "/p")]);
    assert_eq!(
        message(disconnect(&String::from("work"), &mut config).unwrap_err()),
        "No vault by the name work exists"
    );
    assert_eq!(
        message(delete(&String::from("home"), &mut config).unwrap_err()),
        "No vault by the name home exists"
    );
}
