use nimble::commands::{check_script_name, list_file_name};
use nimble::env::{EnvMap, ScriptEnv, TargetOs};
use nimble::paths::{resolve_file_name, FileKind};

const COMMAND_DIR: &str = "/home/u/nimble/commands/team";

fn resolve_with(
    name: &str,
    kind: FileKind,
    user: &[(&str, &str)],
    allow_external_paths: bool,
) -> Result<String, String> {
    let mut user_env = EnvMap::new();
    for (k, v) in user {
        user_env.insert(k.to_string(), v.to_string());
    }
    let env = ScriptEnv {
        context: "",
        phrase: "team emails",
        config_dir: "/home/u/nimble",
        command_dir: COMMAND_DIR,
        user_env: &user_env,
    };
    resolve_file_name(name, kind, &env, TargetOs::Other, "1.2.3", allow_external_paths)
}

fn script(name: &str) -> Result<String, String> {
    resolve_with(name, FileKind::Script, &[], true)
}

fn list(name: &str) -> Result<String, String> {
    resolve_with(name, FileKind::List, &[], true)
}

// ── Plain names ──────────────────────────────────────────────────────────

#[test]
fn load_list_rejects_path_traversal_dotdot() {
    assert!(list("../secret").is_err());
}

#[test]
fn load_list_rejects_path_with_slash() {
    assert!(list("sub/file").is_err());
}

#[test]
fn run_script_rejects_path_traversal_dotdot() {
    assert!(script("../secret.sh").is_err());
}

#[test]
fn run_script_rejects_path_with_slash() {
    assert!(script("sub/file.sh").is_err());
}

#[test]
fn run_script_values_rejects_path_traversal_dotdot() {
    assert!(script("../secret.sh").is_err());
}

#[test]
fn run_script_values_rejects_path_with_slash() {
    assert!(script("sub/file.sh").is_err());
}

#[test]
fn plain_names_resolve_beside_the_command() {
    assert_eq!(script("hello.sh").unwrap(), "hello.sh");
    assert_eq!(list("team-emails").unwrap(), "team-emails.yaml");
    assert_eq!(script("a\\b").err().unwrap(), "Invalid script name: \"a\\\\b\"");
    assert_eq!(list("x..y").err().unwrap(), "Invalid list name: \"x..y\"");
}

#[test]
fn plain_names_ignore_allow_external_paths() {
    assert_eq!(resolve_with("hello.sh", FileKind::Script, &[], false).unwrap(), "hello.sh");
    assert!(resolve_with("../x.sh", FileKind::Script, &[], true).is_err());
}

#[test]
fn list_file_name_appends_extension() {
    assert_eq!(list_file_name("team-emails").unwrap(), "team-emails.yaml");
    assert_eq!(list_file_name("a\\b").err().unwrap(), "Invalid list name: \"a\\\\b\"");
}

#[test]
fn list_name_ending_in_a_dot_stays_one_file_name() {
    let f = list_file_name("notes.").unwrap();
    assert_eq!(f, "notes..yaml");
    assert!(!f.contains('/') && !f.contains('\\'));
    assert!(list_file_name("..").is_err());
}

#[test]
fn script_name_with_single_dots_is_accepted() {
    assert!(check_script_name("hello.world.sh").is_ok());
    assert_eq!(check_script_name("x..sh").err().unwrap(), "Invalid script name: \"x..sh\"");
}

// ── ${VAR} substitution ──────────────────────────────────────────────────

#[test]
fn user_variable_names_an_external_script() {
    let r = resolve_with(
        "${SHARED_SCRIPTS}/contacts.sh",
        FileKind::Script,
        &[("SHARED_SCRIPTS", "/opt/team/scripts")],
        true,
    );
    assert_eq!(r.unwrap(), "/opt/team/scripts/contacts.sh");
}

#[test]
fn builtin_variable_names_a_script_in_the_config_dir() {
    let r = resolve_with("${NIMBLE_CONFIG_DIR}/scripts/utility.sh", FileKind::Script, &[], true);
    assert_eq!(r.unwrap(), "/home/u/nimble/scripts/utility.sh");
}

#[test]
fn builtins_are_looked_up_before_user_variables() {
    let r = resolve_with(
        "${NIMBLE_OS}-${ME}.sh",
        FileKind::Script,
        &[("NIMBLE_OS", "plan9"), ("ME", "bob")],
        true,
    );
    assert_eq!(r.unwrap(), "linux-bob.sh");
}

#[test]
fn list_path_gets_its_extension() {
    let r = resolve_with("${LISTS}/team", FileKind::List, &[("LISTS", "/srv/lists")], true);
    assert_eq!(r.unwrap(), "/srv/lists/team.yaml");
}

#[test]
fn values_are_not_substituted_again() {
    let r = resolve_with("${A}.sh", FileKind::Script, &[("A", "${B}"), ("B", "x")], true);
    assert_eq!(r.unwrap(), "${B}.sh");
}

#[test]
fn undefined_variable_is_an_error() {
    let r = resolve_with("${NOPE}/x.sh", FileKind::Script, &[], true);
    assert_eq!(r.err().unwrap(), "Undefined variable \"NOPE\" in script name \"${NOPE}/x.sh\"");
}

#[test]
fn unterminated_variable_is_an_error() {
    let r = resolve_with("${HOME/x.sh", FileKind::List, &[], true);
    assert_eq!(r.err().unwrap(), "Unterminated ${ in list name \"${HOME/x.sh\"");
}

#[test]
fn external_path_refused_when_not_allowed() {
    let r = resolve_with(
        "${SHARED_SCRIPTS}/contacts.sh",
        FileKind::Script,
        &[("SHARED_SCRIPTS", "/opt/team/scripts")],
        false,
    );
    assert_eq!(
        r.err().unwrap(),
        "The script path \"/opt/team/scripts/contacts.sh\" is outside the command directory"
    );
}

#[test]
fn path_inside_command_dir_allowed_when_external_refused() {
    let r = resolve_with("${NIMBLE_COMMAND_DIR}/tools/run.sh", FileKind::Script, &[], false);
    assert_eq!(r.unwrap(), "/home/u/nimble/commands/team/tools/run.sh");
    let r = resolve_with("${SUB}/run.sh", FileKind::Script, &[("SUB", "tools")], false);
    assert_eq!(r.unwrap(), "tools/run.sh");
}

#[test]
fn parent_component_refused_when_external_refused() {
    let r = resolve_with("${NIMBLE_COMMAND_DIR}/../other.sh", FileKind::Script, &[], false);
    assert!(r.is_err());
    let r = resolve_with("${UP}/other.sh", FileKind::Script, &[("UP", "..")], false);
    assert!(r.is_err());
    let r = resolve_with("${UP}/other.sh", FileKind::Script, &[("UP", "..")], true);
    assert_eq!(r.unwrap(), "../other.sh");
}

#[test]
fn sibling_directory_with_common_prefix_is_outside() {
    let r = resolve_with("${D}/x.sh", FileKind::Script, &[("D", "/home/u/nimble/commands/teamwork")], false);
    assert!(r.is_err());
}
