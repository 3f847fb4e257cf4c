use nimble::env::{
    build_user_env, env_from_yaml_text, inject_env, load_env_file, EnvFile, EnvMap, ScriptEnv,
    TargetOs,
};

fn contents(text: &str) -> EnvFile {
    EnvFile::Contents(text.to_string())
}

fn inline(pairs: &[(&str, &str)]) -> EnvMap {
    let mut m = EnvMap::new();
    for (k, v) in pairs {
        m.insert(k.to_string(), v.to_string());
    }
    m
}

// ── load_env_yaml ───────────────────────────────────────────────────────

#[test]
fn load_env_yaml_missing_file_returns_empty() {
    let result = load_env_file(&EnvFile::Missing, "env.yaml").unwrap();
    assert!(result.is_empty());
}

#[test]
fn load_env_yaml_empty_file_returns_empty() {
    let result = load_env_file(&contents(""), "env.yaml").unwrap();
    assert!(result.is_empty());
}

#[test]
fn load_env_yaml_parses_string_values() {
    let result = load_env_file(
        &contents("MY_EMAIL: alice@example.com\nTEAM: engineering\n"),
        "env.yaml",
    )
    .unwrap();
    assert_eq!(result.get("MY_EMAIL").unwrap(), "alice@example.com");
    assert_eq!(result.get("TEAM").unwrap(), "engineering");
}

#[test]
fn load_env_yaml_coerces_number_to_string() {
    let result = load_env_file(&contents("PORT: 8080\n"), "env.yaml").unwrap();
    assert_eq!(result.get("PORT").unwrap(), "8080");
}

#[test]
fn load_env_yaml_coerces_bool_to_string() {
    let result = load_env_file(&contents("ENABLED: true\n"), "env.yaml").unwrap();
    assert_eq!(result.get("ENABLED").unwrap(), "true");
}

#[test]
fn load_env_yaml_rejects_nimble_prefix() {
    assert!(load_env_file(&contents("NIMBLE_HACK: evil\n"), "env.yaml").is_err());
}

#[test]
fn load_env_yaml_rejects_nested_map() {
    assert!(load_env_file(&contents("NESTED:\n  a: b\n"), "env.yaml").is_err());
}

#[test]
fn env_file_null_value_becomes_empty_string() {
    let result = load_env_file(&contents("EMPTY:\n"), "env.yaml").unwrap();
    assert_eq!(result.get("EMPTY").unwrap(), "");
}

#[test]
fn env_file_whitespace_only_is_empty() {
    let result = env_from_yaml_text("  \n\t\n", "env.yaml").unwrap();
    assert!(result.is_empty());
}

#[test]
fn env_file_unreadable_reports_source() {
    let err = load_env_file(&EnvFile::Unreadable("denied".to_string()), "/cfg/env.yaml").err().unwrap();
    assert_eq!(err, "Could not read /cfg/env.yaml: denied");
}

#[test]
fn env_file_parse_error_reports_source() {
    let err = env_from_yaml_text("{ not: [ valid yaml }", "/cfg/env.yaml").err().unwrap();
    assert!(err.starts_with("Could not parse /cfg/env.yaml: "), "{err}");
}

#[test]
fn env_file_non_mapping_is_parse_error() {
    let err = env_from_yaml_text("- a\n- b\n", "env.yaml").err().unwrap();
    assert!(err.starts_with("Could not parse env.yaml: "), "{err}");
}

#[test]
fn env_file_non_string_key_rejected() {
    let err = env_from_yaml_text("1: one\n", "env.yaml").err().unwrap();
    assert_eq!(err, "Non-string key in env.yaml");
}

#[test]
fn env_file_sequence_value_rejected_with_key() {
    let err = env_from_yaml_text("LIST:\n  - a\n", "env.yaml").err().unwrap();
    assert_eq!(err, "Unsupported value for key \"LIST\" in env.yaml");
}

#[test]
fn env_file_invalid_key_message() {
    let err = env_from_yaml_text("MY-VAR: x\n", "env.yaml").err().unwrap();
    assert_eq!(err, "Key \"MY-VAR\" in env.yaml contains invalid character '-'");
}

// ── build_user_env ──────────────────────────────────────────────────────

#[test]
fn build_user_env_empty_when_no_files() {
    let result = build_user_env(&EnvFile::Missing, "env.yaml", &EnvFile::Missing, "cmd/env.yaml", &EnvMap::new()).unwrap();
    assert!(result.is_empty());
}

#[test]
fn build_user_env_loads_global_env() {
    let result = build_user_env(&contents("TEAM: ops\n"), "env.yaml", &EnvFile::Missing, "cmd/env.yaml", &EnvMap::new()).unwrap();
    assert_eq!(result.get("TEAM").unwrap(), "ops");
}

#[test]
fn build_user_env_sidecar_overrides_global() {
    let result = build_user_env(
        &contents("TEAM: ops\nREGION: us\n"),
        "env.yaml",
        &contents("TEAM: dev\n"),
        "cmd/env.yaml",
        &EnvMap::new(),
    )
    .unwrap();
    assert_eq!(result.get("TEAM").unwrap(), "dev");
    assert_eq!(result.get("REGION").unwrap(), "us");
}

#[test]
fn build_user_env_inline_overrides_sidecar() {
    let result = build_user_env(
        &EnvFile::Missing,
        "env.yaml",
        &contents("TEAM: dev\n"),
        "cmd/env.yaml",
        &inline(&[("TEAM", "override")]),
    )
    .unwrap();
    assert_eq!(result.get("TEAM").unwrap(), "override");
}

#[test]
fn build_user_env_full_precedence_chain() {
    let result = build_user_env(
        &contents("A: global\nB: global\nC: global\n"),
        "env.yaml",
        &contents("B: sidecar\nC: sidecar\n"),
        "cmd/env.yaml",
        &inline(&[("C", "inline")]),
    )
    .unwrap();
    assert_eq!(result.get("A").unwrap(), "global");
    assert_eq!(result.get("B").unwrap(), "sidecar");
    assert_eq!(result.get("C").unwrap(), "inline");
}

#[test]
fn build_user_env_rejects_nimble_in_inline() {
    let r = build_user_env(&EnvFile::Missing, "env.yaml", &EnvFile::Missing, "cmd/env.yaml", &inline(&[("NIMBLE_HACK", "evil")]));
    assert!(r.is_err());
}

#[test]
fn build_user_env_inline_error_names_inline_env() {
    let err = build_user_env(&EnvFile::Missing, "env.yaml", &EnvFile::Missing, "cmd/env.yaml", &inline(&[("NIMBLE_HACK", "evil")]))
        .err().unwrap();
    assert_eq!(err, "Key \"NIMBLE_HACK\" in inline env uses the reserved NIMBLE_ prefix");
}

#[test]
fn build_user_env_global_error_wins() {
    let err = build_user_env(
        &contents("NIMBLE_X: 1\n"),
        "env.yaml",
        &contents("NIMBLE_Y: 1\n"),
        "cmd/env.yaml",
        &EnvMap::new(),
    )
    .err().unwrap();
    assert!(err.contains("NIMBLE_X"), "{err}");
}

// ── env maps ────────────────────────────────────────────────────────────

#[test]
fn env_map_insert_replaces() {
    let mut m = EnvMap::new();
    m.insert("K".to_string(), "1".to_string());
    m.insert("K".to_string(), "2".to_string());
    assert_eq!(m.get("K").unwrap(), "2");
    assert_eq!(m.pairs().len(), 1);
    assert!(m.contains_key("K"));
    assert!(!m.contains_key("k"));
}

// ── inject_env ──────────────────────────────────────────────────────────

fn effective(vars: &[(String, String)], key: &str) -> Option<String> {
    vars.iter().rev().find(|(k, _)| k == key).map(|(_, v)| v.clone())
}

#[test]
fn inject_env_sets_builtins_after_user_vars() {
    let user = inline(&[("MY_VAR", "hello-from-env")]);
    let env = ScriptEnv {
        context: "my-ctx",
        phrase: "search contacts",
        config_dir: "/cfg",
        command_dir: "/cfg/cmd",
        user_env: &user,
    };
    let vars = inject_env(&env, TargetOs::MacOs, "1.2.3");
    assert_eq!(vars.len(), 7);
    assert_eq!(vars[0], ("MY_VAR".to_string(), "hello-from-env".to_string()));
    assert_eq!(effective(&vars, "NIMBLE_CONTEXT").unwrap(), "my-ctx");
    assert_eq!(effective(&vars, "NIMBLE_PHRASE").unwrap(), "search contacts");
    assert_eq!(effective(&vars, "NIMBLE_CONFIG_DIR").unwrap(), "/cfg");
    assert_eq!(effective(&vars, "NIMBLE_COMMAND_DIR").unwrap(), "/cfg/cmd");
    assert_eq!(effective(&vars, "NIMBLE_OS").unwrap(), "macos");
    assert_eq!(effective(&vars, "NIMBLE_VERSION").unwrap(), "1.2.3");
}

#[test]
fn inject_env_builtins_override_user_nimble_prefix() {
    let user = inline(&[("NIMBLE_CONTEXT", "evil")]);
    let env = ScriptEnv { context: "real-context", phrase: "test", config_dir: "/c", command_dir: "/c", user_env: &user };
    let vars = inject_env(&env, TargetOs::Other, "0.1.0");
    assert_eq!(effective(&vars, "NIMBLE_CONTEXT").unwrap(), "real-context");
    assert_eq!(effective(&vars, "NIMBLE_OS").unwrap(), "linux");
}

#[test]
fn inject_env_empty_context_is_empty_string() {
    let user = EnvMap::new();
    let env = ScriptEnv { context: "", phrase: "test", config_dir: "/c", command_dir: "/c", user_env: &user };
    let vars = inject_env(&env, TargetOs::Windows, "0.1.0");
    assert_eq!(effective(&vars, "NIMBLE_CONTEXT").unwrap(), "");
    assert_eq!(effective(&vars, "NIMBLE_OS").unwrap(), "windows");
}
