use toybox::cfg::table::{config_table_text, get_value, is_settable, parse_config_table, set_value, ConfigTable, ConfigValue};
use toybox::cfg::{first_layer, parse_cli_argument, split_key, Config};

#[test]
fn dotted_keys_split_at_the_first_dot() {
    assert_eq!(split_key("window.size.x"), ("window".to_string(), Some("size.x".to_string())));
    assert_eq!(split_key("fullscreen"), ("fullscreen".to_string(), None));
    assert_eq!(split_key(".x"), ("".to_string(), Some("x".to_string())));
    assert_eq!(split_key("a."), ("a".to_string(), Some("".to_string())));
}

#[test]
fn cli_arguments_are_trimmed_key_value_pairs() {
    assert_eq!(parse_cli_argument("audio.volume = 0.5 "), Some(("audio.volume".to_string(), "0.5".to_string())));
    assert_eq!(parse_cli_argument("a=b=c"), Some(("a".to_string(), "b=c".to_string())));
    assert_eq!(parse_cli_argument("=\t"), Some(("".to_string(), "".to_string())));
    assert_eq!(parse_cli_argument("--verbose"), None);
}

#[test]
fn earlier_config_layers_win() {
    assert_eq!(first_layer(Some(1), Some(2), Some(3)), Some(1));
    assert_eq!(first_layer(None, Some(2), Some(3)), Some(2));
    assert_eq!(first_layer(None, None, Some(3)), Some(3));
    assert_eq!(first_layer::<u8>(None, None, None), None);
}

fn string_at<'t>(table: &'t ConfigTable, key: &str) -> Option<&'t str> {
    match get_value(table, key) {
        Some(ConfigValue::String(s)) => Some(s.as_str()),
        _ => None,
    }
}

#[test]
fn set_value_makes_nested_tables_and_get_value_finds_them() {
    let mut t = ConfigTable::new();
    set_value(&mut t, "window.size.x", ConfigValue::Integer(640));
    set_value(&mut t, "window.title", ConfigValue::String("toy".to_string()));
    set_value(&mut t, "vsync", ConfigValue::Boolean(true));
    assert_eq!(t.entries.len(), 2);
    assert_eq!(t.entries[0].0, "window");
    assert!(matches!(get_value(&t, "window.size.x"), Some(ConfigValue::Integer(640))));
    assert_eq!(string_at(&t, "window.title"), Some("toy"));
    assert!(matches!(get_value(&t, "vsync"), Some(ConfigValue::Boolean(true))));
    assert!(matches!(get_value(&t, "window.size"), Some(ConfigValue::Table(_))));
    assert!(get_value(&t, "window.size.y").is_none());
    assert!(get_value(&t, "audio").is_none());
    // A segment that names a value that is not a table ends the lookup.
    assert!(get_value(&t, "vsync.x").is_none());
}

#[test]
fn set_value_replaces_in_place() {
    let mut t = ConfigTable::new();
    set_value(&mut t, "a", ConfigValue::Integer(1));
    set_value(&mut t, "b", ConfigValue::Integer(2));
    set_value(&mut t, "a", ConfigValue::Integer(3));
    assert_eq!(t.entries.len(), 2);
    assert_eq!(t.entries[0].0, "a");
    assert!(matches!(get_value(&t, "a"), Some(ConfigValue::Integer(3))));
    assert!(matches!(get_value(&t, "b"), Some(ConfigValue::Integer(2))));
}

#[test]
fn values_cannot_be_set_below_a_value_that_is_not_a_table() {
    let mut t = ConfigTable::new();
    set_value(&mut t, "a", ConfigValue::String("x".to_string()));
    assert!(!is_settable(&t, "a.b"));
    assert!(is_settable(&t, "a"));
    assert!(is_settable(&t, "c.d.e"));
    set_value(&mut t, "c.d", ConfigValue::Integer(1));
    assert!(!is_settable(&t, "c.d.e"));
    assert!(is_settable(&t, "c.e.f"));
}

#[test]
fn config_layers_resolve_preview_then_arguments_then_base() {
    let mut config = Config::default();
    set_value(&mut config.base, "name", ConfigValue::String("base".to_string()));
    set_value(&mut config.base, "fullscreen", ConfigValue::Boolean(false));
    set_value(&mut config.arguments, "name", ConfigValue::String("cli".to_string()));
    assert_eq!(config.get_string("name"), Some("cli"));
    set_value(&mut config.preview, "name", ConfigValue::String("preview".to_string()));
    assert_eq!(config.get_string("name"), Some("preview"));
    assert_eq!(config.get_bool("fullscreen"), Some(false));
    assert_eq!(config.get_bool("name"), None);
    assert_eq!(config.get_string("fullscreen"), None);
    assert!(config.get_value("missing").is_none());
    config.revert();
    assert_eq!(config.get_string("name"), Some("cli"));
}

#[test]
fn get_after_set_gives_the_value_set() {
    let mut t = ConfigTable::new();
    set_value(&mut t, "x.y", ConfigValue::Other("1.5".to_string()));
    set_value(&mut t, "x.z", ConfigValue::Integer(-4));
    match get_value(&t, "x.y") {
        Some(ConfigValue::Other(text)) => assert_eq!(text, "1.5"),
        _ => panic!("value not found"),
    }
    assert!(matches!(get_value(&t, "x.z"), Some(ConfigValue::Integer(-4))));
}

#[test]
fn toml_documents_are_read_into_nested_tables() {
    let t = parse_config_table("fullscreen = true\nscale = 1.5\n[window]\ntitle = 'toy'\nwidth = 640\n").unwrap();
    assert!(matches!(get_value(&t, "fullscreen"), Some(ConfigValue::Boolean(true))));
    assert!(matches!(get_value(&t, "window.width"), Some(ConfigValue::Integer(640))));
    assert_eq!(string_at(&t, "window.title"), Some("toy"));
    match get_value(&t, "scale") {
        Some(ConfigValue::Other(text)) => assert_eq!(text, "1.5"),
        _ => panic!("float not kept"),
    }
    assert!(parse_config_table("a = ").is_none());
    assert_eq!(parse_config_table("").unwrap().entries.len(), 0);
}

#[test]
fn tables_written_as_toml_read_back_the_same() {
    let mut t = ConfigTable::new();
    set_value(&mut t, "audio.volume", ConfigValue::Other("0.25".to_string()));
    set_value(&mut t, "name", ConfigValue::String("toy".to_string()));
    let text = config_table_text(&t).unwrap();
    assert!(text.contains("name = \"toy\""));
    let back = parse_config_table(&text).unwrap();
    assert_eq!(string_at(&back, "name"), Some("toy"));
    match get_value(&back, "audio.volume") {
        Some(ConfigValue::Other(text)) => assert_eq!(text, "0.25"),
        _ => panic!("value not read back"),
    }
    let mut bad = ConfigTable::new();
    set_value(&mut bad, "x", ConfigValue::Other("not toml".to_string()));
    assert!(config_table_text(&bad).is_none());
}

#[test]
fn trimming_drops_exactly_the_unicode_white_space() {
    let mut c: u32 = 0;
    while c < 0x3100 {
        if let Some(ch) = char::from_u32(c) {
            if ch != '=' {
                let arg = format!("{ch}k={ch}");
                let (key, value) = parse_cli_argument(&arg).unwrap();
                if ch.is_whitespace() {
                    assert_eq!(key, "k");
                    assert_eq!(value, "");
                } else {
                    assert_eq!(key, format!("{ch}k"));
                    assert_eq!(value, ch.to_string());
                }
            }
        }
        c += 1;
    }
}
