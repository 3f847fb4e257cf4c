use nimble::env::validate_env_key;

#[test]
fn validate_env_key_accepts_uppercase() {
    assert!(validate_env_key("MY_VAR", "test").is_ok());
}

#[test]
fn validate_env_key_accepts_lowercase() {
    assert!(validate_env_key("my_var", "test").is_ok());
}

#[test]
fn validate_env_key_accepts_mixed_case_with_digits() {
    assert!(validate_env_key("Var_123", "test").is_ok());
}

#[test]
fn validate_env_key_accepts_underscore_start() {
    assert!(validate_env_key("_PRIVATE", "test").is_ok());
}

#[test]
fn validate_env_key_rejects_empty() {
    assert!(validate_env_key("", "test").is_err());
}

#[test]
fn validate_env_key_rejects_nimble_prefix() {
    assert!(validate_env_key("NIMBLE_CONTEXT", "test").is_err());
}

#[test]
fn validate_env_key_rejects_nimble_custom() {
    assert!(validate_env_key("NIMBLE_MY_VAR", "test").is_err());
}

#[test]
fn validate_env_key_rejects_digit_start() {
    assert!(validate_env_key("1VAR", "test").is_err());
}

#[test]
fn validate_env_key_rejects_hyphen() {
    assert!(validate_env_key("MY-VAR", "test").is_err());
}

#[test]
fn validate_env_key_rejects_dot() {
    assert!(validate_env_key("MY.VAR", "test").is_err());
}
