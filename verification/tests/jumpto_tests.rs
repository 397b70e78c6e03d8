//! End-to-end tests of the bookmark store: the command handlers, the
//! on-disk text, and the config file location.

use jumpto::Config;
use jumpto::ConfigError;
use jumpto::JumpOutcome;
use jumpto::ListOutcome;
use jumpto::RemoveOutcome;
use jumpto::command_add;
use jumpto::command_list;
use jumpto::command_remove;
use jumpto::from_json;
use jumpto::jump_lookup;
use jumpto::path_to_file;
use jumpto::to_json;

fn rows_of(config: &Config) -> Vec<(String, String)> {
    match command_list(config) {
        ListOutcome::Table { rows } => rows,
        ListOutcome::Empty { .. } => Vec::new(),
    }
}

#[test]
fn empty_config_lists_hint() {
    let c = Config::new();
    assert!(c.is_empty());
    match command_list(&c) {
        ListOutcome::Empty { hint, usage } => {
            assert_eq!(hint, "No directories saved!");
            assert_eq!(usage, "Use 'jumpto add <reference name> <path>' to add one");
        }
        ListOutcome::Table { .. } => panic!("empty config must not list a table"),
    }
}

#[test]
fn add_remove_scenario() {
    let mut c = Config::new();
    let out = command_add(&mut c, "home", String::from("/home/user"));
    assert!(!out.overwrote);
    assert_eq!(out.message, "Added new entry under 'home'");
    assert_eq!(c.len(), 1);
    assert_eq!(c.get("home").unwrap(), "/home/user");

    let rows = rows_of(&c);
    assert_eq!(rows, vec![("home".to_string(), "/home/user".to_string())]);

    match command_remove(&mut c, "home") {
        RemoveOutcome::Removed { message } => assert_eq!(message, "Key 'home' removed"),
        RemoveOutcome::NotFound { .. } => panic!("'home' was stored"),
    }
    assert!(c.is_empty());

    match command_remove(&mut c, "home") {
        RemoveOutcome::NotFound { message } => {
            assert_eq!(message, "Did not find 'home' in the config");
        }
        RemoveOutcome::Removed { .. } => panic!("'home' was already removed"),
    }
    assert!(c.is_empty());
}

#[test]
fn add_then_list_includes_pair() {
    let mut c = Config::new();
    command_add(&mut c, "a", String::from("/one"));
    command_add(&mut c, "b", String::from("/two"));
    let rows = rows_of(&c);
    assert!(rows.contains(&("a".to_string(), "/one".to_string())));
    assert!(rows.contains(&("b".to_string(), "/two".to_string())));
}

#[test]
fn add_twice_overwrites() {
    let mut c = Config::new();
    let first = command_add(&mut c, "work", String::from("/old"));
    assert!(!first.overwrote);
    let second = command_add(&mut c, "work", String::from("/new"));
    assert!(second.overwrote);
    assert_eq!(c.len(), 1);
    assert_eq!(c.get("work").unwrap(), "/new");
    let rows = rows_of(&c);
    assert_eq!(rows, vec![("work".to_string(), "/new".to_string())]);
}

#[test]
fn remove_then_list_excludes() {
    let mut c = Config::new();
    command_add(&mut c, "a", String::from("/one"));
    command_add(&mut c, "b", String::from("/two"));
    command_remove(&mut c, "a");
    let rows = rows_of(&c);
    assert!(rows.iter().all(|r| r.0 != "a"));
    assert!(rows.contains(&("b".to_string(), "/two".to_string())));
}

#[test]
fn jump_found() {
    let mut c = Config::new();
    command_add(&mut c, "docs", String::from("/srv/docs"));
    match jump_lookup(&c, "docs") {
        JumpOutcome::Found { path, message } => {
            assert_eq!(path, "/srv/docs");
            assert_eq!(message, "Jumping to /srv/docs");
        }
        JumpOutcome::Unknown { .. } => panic!("'docs' is stored"),
    }
}

#[test]
fn jump_unknown_reports_and_keeps_mapping() {
    let mut c = Config::new();
    command_add(&mut c, "a", String::from("/one"));
    match jump_lookup(&c, "nowhere") {
        JumpOutcome::Unknown { message, hint } => {
            assert_eq!(message, "Unknown jump name 'nowhere'");
            assert_eq!(hint, "You can see the paths you have saved with 'jumpto list'");
        }
        JumpOutcome::Found { .. } => panic!("'nowhere' is not stored"),
    }
    assert_eq!(c.len(), 1);
    assert_eq!(c.get("a").unwrap(), "/one");
}

#[test]
fn to_json_empty() {
    let c = Config::new();
    assert_eq!(to_json(&c), "{}");
}

#[test]
fn to_json_one_entry() {
    let mut c = Config::new();
    c.insert("home", String::from("/home/user"));
    assert_eq!(to_json(&c), "{\"home\":\"/home/user\"}");
}

#[test]
fn to_json_escapes_specials() {
    let mut c = Config::new();
    c.insert("a\"b", String::from("c\\d"));
    c.insert("nl", String::from("x\ny"));
    assert_eq!(
        to_json(&c),
        "{\"a\\u0022b\":\"c\\u005cd\",\"nl\":\"x\\u000ay\"}"
    );
}

#[test]
fn from_json_empty_object() {
    let c = from_json("{}").unwrap();
    assert!(c.is_empty());
}

#[test]
fn from_json_reads_entries_in_order() {
    let c = from_json("{\"a\":\"/one\",\"b\":\"/two\"}").unwrap();
    assert_eq!(c.len(), 2);
    assert_eq!(c.get("a").unwrap(), "/one");
    assert_eq!(c.get("b").unwrap(), "/two");
    assert_eq!(
        rows_of(&c),
        vec![
            ("a".to_string(), "/one".to_string()),
            ("b".to_string(), "/two".to_string()),
        ]
    );
}

#[test]
fn from_json_reads_short_escapes() {
    let c = from_json("{\"a\\n\":\"b\\\"c\\\\d\\/e\\t\"}").unwrap();
    assert_eq!(c.get("a\n").unwrap(), "b\"c\\d/e\t");
}

#[test]
fn from_json_last_duplicate_wins() {
    let c = from_json("{\"a\":\"/one\",\"a\":\"/two\"}").unwrap();
    assert_eq!(c.len(), 1);
    assert_eq!(c.get("a").unwrap(), "/two");
}

#[test]
fn from_json_accepts_whitespace() {
    let c = from_json("{ \"home\" : \"/home/user\" }").unwrap();
    assert_eq!(c.len(), 1);
    assert_eq!(c.get("home").unwrap(), "/home/user");

    let pretty = "{\n  \"a\": \"/one\",\n  \"b\": \"/two\"\n}\n";
    let c2 = from_json(pretty).unwrap();
    assert_eq!(c2.len(), 2);
    assert_eq!(c2.get("a").unwrap(), "/one");
    assert_eq!(c2.get("b").unwrap(), "/two");

    let c3 = from_json(" \t{ }\r\n").unwrap();
    assert!(c3.is_empty());
}

#[test]
fn from_json_accepts_unicode_escapes() {
    let c = from_json("{\"a\":\"\\u0041\\u00e9\"}").unwrap();
    assert_eq!(c.get("a").unwrap(), "A\u{e9}");

    let c2 = from_json("{\"esc\":\"\\u001B\"}").unwrap();
    assert_eq!(c2.get("esc").unwrap(), "\u{1b}");

    let c3 = from_json("{\"s\":\"\\u20AC\"}").unwrap();
    assert_eq!(c3.get("s").unwrap(), "\u{20ac}");
}

#[test]
fn from_json_rejects_malformed() {
    let bad = [
        "",
        "{",
        "}",
        "[]",
        "{\"a\"}",
        "{\"a\":}",
        "{\"a\":1}",
        "{\"a\":\"b\",}",
        "{\"a\":\"b\"",
        "{\"a\":\"b\"}x",
        "{\"a\":\"b\\x\"}",
        "{\"a\":\"b\nc\"}",
        "{\"a\":\"\\uD800\"}",
        "{\"a\":\"\\u12\"}",
    ];
    for text in bad {
        match from_json(text) {
            Err(e) => assert_eq!(e, ConfigError::Parse),
            Ok(_) => panic!("accepted malformed text: {text}"),
        }
    }
}

#[test]
fn save_load_round_trip_is_byte_identical() {
    let mut c = Config::new();
    command_add(&mut c, "home", String::from("/home/user"));
    command_add(&mut c, "odd \"name\"", String::from("/with\\back"));
    command_add(&mut c, "ctl", String::from("a\tb\x1bc"));
    let text = to_json(&c);
    let reloaded = from_json(&text).unwrap();
    assert_eq!(to_json(&reloaded), text);
    let again = from_json(&to_json(&reloaded)).unwrap();
    assert_eq!(to_json(&again), text);
    assert_eq!(rows_of(&reloaded), rows_of(&c));
}

#[test]
fn written_text_is_json_serde_can_read() {
    let mut c = Config::new();
    c.insert("plain", String::from("/a/b"));
    c.insert("q\"uote", String::from("back\\slash"));
    c.insert("ctl", String::from("x\u{1}y\nz"));
    let text = to_json(&c);
    let parsed: std::collections::HashMap<String, String> =
        serde_json::from_str(&text).unwrap();
    assert_eq!(parsed.len(), 3);
    assert_eq!(parsed["plain"], "/a/b");
    assert_eq!(parsed["q\"uote"], "back\\slash");
    assert_eq!(parsed["ctl"], "x\u{1}y\nz");
}

#[test]
fn reads_text_serde_wrote() {
    let mut m = std::collections::HashMap::new();
    m.insert("spot".to_string(), "/var/spot".to_string());
    let text = serde_json::to_string(&m).unwrap();
    let c = from_json(&text).unwrap();
    assert_eq!(c.len(), 1);
    assert_eq!(c.get("spot").unwrap(), "/var/spot");
}

#[test]
fn join_config_name_appends_fixed_name() {
    assert_eq!(
        jumpto::join_config_name(String::from("/home/user")),
        "/home/user/.jumpto.json"
    );
    assert_eq!(jumpto::join_config_name(String::new()), "/.jumpto.json");
}

#[test]
fn config_file_path_ends_with_fixed_name() {
    match path_to_file() {
        Ok(p) => assert!(p.ends_with("/.jumpto.json")),
        Err(e) => assert_eq!(e, ConfigError::Location),
    }
}

#[test]
fn error_messages() {
    assert_eq!(
        ConfigError::Location.message(),
        "Could not determine home directory"
    );
    assert_eq!(ConfigError::Read.message(), "Could not read the config file");
    assert_eq!(ConfigError::Parse.message(), "Could not parse the config file");
    assert_eq!(ConfigError::Write.message(), "Could not write the config file");
}
