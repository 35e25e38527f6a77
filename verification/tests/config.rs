use aa_engine::config::{
    get_at_dot_path, merge_tables, override_scalar, parse_toml_str, set_at_dot_path, toml_table_wf, toml_value_wf, ConfigError,
    ConfigProvider, TomlValue,
};

fn layer(pairs: Vec<(&str, TomlValue)>) -> Vec<(String, TomlValue)> {
    let mut table = Vec::new();
    for (key, value) in pairs {
        set_at_dot_path(&mut table, key, value);
    }
    table
}

fn text(s: &str) -> TomlValue {
    TomlValue::String(s.to_string())
}

const ENGINE_BASE: &str = "[app]\nwindow_title = \"AA Engine\"\ntarget_fps = 60\n\n[net]\ndefault_port = 7777\n\n[render]\nshadow_quality = \"medium\"\n";

fn open_world_files() -> Vec<(String, String)> {
    vec![
        (
            "examples/open_world_studio/config/engine.toml".to_string(),
            "[app]\nwindow_title = \"AA Open World Studio\"\n\n[render]\nshadow_quality = \"high\"\n".to_string(),
        ),
        ("examples/open_world_studio/config/game.toml".to_string(), "[teams]\nmax_teams = 2\n".to_string()),
    ]
}

fn as_text(v: Option<TomlValue>) -> Option<String> {
    match v {
        Some(TomlValue::String(s)) => Some(s),
        _ => None,
    }
}

fn as_int(v: Option<TomlValue>) -> Option<i64> {
    match v {
        Some(TomlValue::Integer(n)) => Some(n),
        _ => None,
    }
}

#[test]
fn config_merge_order_applies_engine_base_then_project_layers() {
    let provider = ConfigProvider::load("examples/open_world_studio", ENGINE_BASE, open_world_files()).expect("layers parse");

    let title = as_text(provider.get("app.window_title"))
        .expect("project engine.toml should override engine_base app.window_title");
    assert_eq!(title, "AA Open World Studio");

    let shadow = as_text(provider.get("render.shadow_quality")).expect("project render settings should merge");
    assert_eq!(shadow, "high");

    let max_teams = as_int(provider.get("teams.max_teams")).expect("project game.toml should merge teams table");
    assert_eq!(max_teams, 2);

    let default_port =
        as_int(provider.get("net.default_port")).expect("engine_base net defaults should remain when not overridden");
    assert_eq!(default_port, 7777);
}

#[test]
fn cli_override_wins_over_file_layers() {
    let mut provider =
        ConfigProvider::load("examples/open_world_studio", ENGINE_BASE, open_world_files()).expect("layers parse");
    provider
        .apply_cli_override("app.target_fps", "30")
        .expect("cli override should parse");

    let fps = as_int(provider.get("app.target_fps")).expect("cli override should be readable");
    assert_eq!(fps, 30);
}

#[test]
fn override_values_are_classified() {
    assert!(matches!(override_scalar("30"), Some(TomlValue::Integer(30))));
    assert!(matches!(override_scalar("+7"), Some(TomlValue::Integer(7))));
    assert!(matches!(override_scalar("-9223372036854775808"), Some(TomlValue::Integer(i64::MIN))));
    assert!(matches!(override_scalar("9223372036854775808"), Some(TomlValue::Float(ref t)) if t == "9223372036854775808"));
    assert!(matches!(override_scalar("1.5"), Some(TomlValue::Float(ref t)) if t == "1.5"));
    assert!(matches!(override_scalar(".5e-3"), Some(TomlValue::Float(ref t)) if t == ".5e-3"));
    assert!(matches!(override_scalar("-inf"), Some(TomlValue::Float(_))));
    assert!(matches!(override_scalar("NaN"), Some(TomlValue::Float(_))));
    assert!(matches!(override_scalar("true"), Some(TomlValue::Boolean(true))));
    assert!(matches!(override_scalar("false"), Some(TomlValue::Boolean(false))));
    assert!(override_scalar("True").is_none());
    assert!(override_scalar("1e").is_none());
    assert!(override_scalar(".").is_none());
    assert!(override_scalar("").is_none());
    assert!(override_scalar("high").is_none());
}

#[test]
fn override_falls_back_to_the_toml_reading() {
    let mut provider = ConfigProvider::with_engine_defaults("root".to_string(), ENGINE_BASE);
    provider.apply_cli_override("render.shadow_quality", "\"ultra\"").expect("quoted string is TOML");
    assert_eq!(as_text(provider.get("render.shadow_quality")), Some("ultra".to_string()));
    provider.apply_cli_override("render.levels", "[1, 2]").expect("an array is TOML");
    assert!(matches!(provider.get("render.levels"), Some(TomlValue::Array(ref v)) if v.len() == 2));

    let err = provider.apply_cli_override("render.shadow_quality", "high").unwrap_err();
    match &err {
        ConfigError::Parse { key, message } => {
            assert_eq!(key, "render.shadow_quality");
            assert!(!message.is_empty());
            assert_eq!(err.message(), format!("parse error at render.shadow_quality: {message}"));
        }
        other => panic!("expected a parse error, got {other:?}"),
    }
    assert_eq!(as_text(provider.get("render.shadow_quality")), Some("ultra".to_string()));
    assert_eq!(ConfigError::Io("denied".to_string()).message(), "io error: denied");
    assert_eq!(provider.project_root(), "root");
}

#[test]
fn dotted_paths_walk_tables_only() {
    let mut table = layer(vec![("a.b", TomlValue::Integer(1)), ("c", TomlValue::Integer(2))]);
    assert!(matches!(get_at_dot_path(&table, "a.b"), Some(TomlValue::Integer(1))));
    assert!(matches!(get_at_dot_path(&table, "a"), Some(TomlValue::Table(_))));
    assert!(get_at_dot_path(&table, "c.d").is_none());
    assert!(get_at_dot_path(&table, "a.x").is_none());
    set_at_dot_path(&mut table, "c.d", TomlValue::Integer(3));
    assert!(matches!(get_at_dot_path(&table, "c.d"), Some(TomlValue::Integer(3))));
    assert!(matches!(get_at_dot_path(&table, "a.b"), Some(TomlValue::Integer(1))));
}

#[test]
fn merge_combines_tables_and_replaces_values() {
    let mut base = layer(vec![("a.x", TomlValue::Integer(1)), ("a.y", TomlValue::Integer(2)), ("b", TomlValue::Integer(3))]);
    let overlay = layer(vec![("a.y", TomlValue::Integer(20)), ("b.z", TomlValue::Integer(30))]);
    merge_tables(&mut base, overlay);
    assert!(matches!(get_at_dot_path(&base, "a.x"), Some(TomlValue::Integer(1))));
    assert!(matches!(get_at_dot_path(&base, "a.y"), Some(TomlValue::Integer(20))));
    assert!(matches!(get_at_dot_path(&base, "b.z"), Some(TomlValue::Integer(30))));
    let keys: Vec<&str> = base.iter().map(|(k, _)| k.as_str()).collect();
    assert_eq!(keys, vec!["a", "b"]);
}

#[test]
fn well_formed_toml_values() {
    let sorted = layer(vec![("a.x", TomlValue::Integer(1)), ("b", text("t"))]);
    assert!(toml_table_wf(&sorted));
    assert!(toml_value_wf(&TomlValue::Table(layer(vec![("a.x", TomlValue::Integer(1)), ("b", text("t"))]))));
    let unsorted = vec![("b".to_string(), TomlValue::Integer(1)), ("a".to_string(), TomlValue::Integer(2))];
    assert!(!toml_table_wf(&unsorted));
    let repeated = vec![("a".to_string(), TomlValue::Integer(1)), ("a".to_string(), TomlValue::Integer(2))];
    assert!(!toml_table_wf(&repeated));
    let nested = TomlValue::Array(vec![TomlValue::Integer(3), TomlValue::Table(unsorted)]);
    assert!(!toml_value_wf(&nested));
    assert!(toml_value_wf(&TomlValue::Array(vec![TomlValue::Table(sorted)])));
}

#[test]
fn configuration_texts_that_do_not_parse_are_reported() {
    let bad = vec![
        ("p/config/engine.toml".to_string(), "[app]\nwindow_title = \"ok\"\n".to_string()),
        ("p/config/game.toml".to_string(), "[teams\nmax_teams = 2\n".to_string()),
        ("p/config/user.toml".to_string(), "= 3\n".to_string()),
    ];
    match ConfigProvider::load("p", ENGINE_BASE, bad) {
        Err(ConfigError::Parse { key, message }) => {
            assert_eq!(key, "p/config/game.toml");
            assert!(!message.is_empty());
        }
        _ => panic!("expected a parse error for game.toml"),
    }
    assert!(matches!(ConfigProvider::load("p", "[app", vec![]), Err(ConfigError::Parse { ref key, .. }) if key == "engine_base"));
    let fallback = ConfigProvider::load_or_engine_defaults("p", ENGINE_BASE, vec![("x.toml".to_string(), "[".to_string())])
        .expect("engine defaults parse");
    assert_eq!(as_text(fallback.get("app.window_title")), Some("AA Engine".to_string()));
    assert!(ConfigProvider::load_or_engine_defaults("p", "[", vec![]).is_none());
    let table = parse_toml_str("b = 1\na = { y = 2, x = 3 }\n", "t").expect("parses");
    assert!(toml_table_wf(&table));
    assert_eq!(table[0].0, "a");
}
