use nimble::commands::{
    items_from_output, load_commands, script_values,
    trim_output, values_from_output, Action, ArgMode, Command, CommandFile, ItemAction,
    ListItem, OpenUrlConfig, PasteTextConfig, ResultAction, ScriptActionConfig,
    StaticListConfig,
};
use nimble::env::EnvMap;

fn open_url(phrase: &str, title: &str, url: &str) -> Command {
    Command {
        phrase: phrase.to_string(),
        title: title.to_string(),
        enabled: true,
        env: EnvMap::new(),
        action: Action::OpenUrl(OpenUrlConfig { url: url.to_string() }),
        source_dir: String::new(),
    }
}

fn file(path: &str, command: Option<Command>) -> CommandFile {
    let components: Vec<String> = path.split('/').map(|c| c.to_string()).collect();
    let source_dir = components[..components.len() - 1].join("/");
    CommandFile {
        modified: Some(1_000),
        components,
        display: path.to_string(),
        source_dir,
        command,
    }
}

// ── Deduplication ─────────────────────────────────────────────────────────

#[test]
fn duplicate_phrase_emits_warning_and_keeps_first() {
    let files = vec![
        file("b.yaml", Some(open_url("open google", "Second", "https://duckduckgo.com"))),
        file("a.yaml", Some(open_url("open google", "First", "https://www.google.com"))),
    ];
    let result = load_commands(files, false);
    assert_eq!(result.commands.len(), 1, "only one command should survive");
    assert_eq!(result.duplicates.len(), 1, "one duplicate warning expected");
    assert_eq!(result.duplicates[0].phrase, "open google");
    assert_eq!(result.commands[0].title, "First");
    assert_eq!(result.duplicates[0].kept, "a.yaml");
    assert_eq!(result.duplicates[0].ignored, "b.yaml");
}

#[test]
fn duplicate_detection_ignores_case() {
    let files = vec![
        file("a.yaml", Some(open_url("Open Google", "First", "https://www.google.com"))),
        file("b.yaml", Some(open_url("open GOOGLE", "Second", "https://duckduckgo.com"))),
    ];
    let result = load_commands(files, false);
    assert_eq!(result.commands.len(), 1);
    assert_eq!(result.duplicates[0].phrase, "open google");
}

#[test]
fn older_file_wins_over_path_order() {
    let mut newer = file("a.yaml", Some(open_url("open google", "Newer", "https://a")));
    newer.modified = Some(2_000);
    let older = file("b.yaml", Some(open_url("open google", "Older", "https://b")));
    let result = load_commands(vec![newer, older], false);
    assert_eq!(result.commands[0].title, "Older");
    assert_eq!(result.duplicates[0].kept, "b.yaml");
}

#[test]
fn allow_duplicates_true_loads_all_commands() {
    let files = vec![
        file("a.yaml", Some(open_url("open google", "First", "https://www.google.com"))),
        file("b.yaml", Some(open_url("open google", "Second", "https://duckduckgo.com"))),
    ];
    let result = load_commands(files, true);
    assert_eq!(result.commands.len(), 2, "both commands should load when allow_duplicates=true");
    assert!(result.duplicates.is_empty(), "no warnings when allow_duplicates=true");
}

// ── Disabled and unreadable files ─────────────────────────────────────────

#[test]
fn disabled_command_is_skipped() {
    let mut cmd = open_url("hidden cmd", "Hidden", "https://example.com");
    cmd.enabled = false;
    let result = load_commands(vec![file("disabled.yaml", Some(cmd))], true);
    assert!(result.commands.is_empty(), "disabled command must be filtered out");
}

#[test]
fn malformed_yaml_is_skipped_without_panic() {
    let files = vec![
        file("bad.yaml", None),
        file("good.yaml", Some(open_url("open google", "Open Google", "https://www.google.com"))),
    ];
    let result = load_commands(files, true);
    assert_eq!(result.commands.len(), 1, "only the valid command should load");
}

// ── Source directory ──────────────────────────────────────────────────────

#[test]
fn source_dir_is_empty_for_root_commands() {
    let result = load_commands(
        vec![file("open.yaml", Some(open_url("open google", "Open Google", "https://www.google.com")))],
        true,
    );
    assert_eq!(result.commands[0].source_dir, "");
}

#[test]
fn parses_static_list_command_without_item_action() {
    let cmd = Command {
        phrase: "team emails".to_string(),
        title: "Team emails".to_string(),
        enabled: true,
        env: EnvMap::new(),
        action: Action::StaticList(StaticListConfig { list: "team-emails".to_string(), item_action: None }),
        source_dir: String::new(),
    };
    let result = load_commands(vec![file("sub/show.yaml", Some(cmd))], true);
    assert_eq!(result.commands.len(), 1);
    if let Action::StaticList(cfg) = &result.commands[0].action {
        assert_eq!(cfg.list, "team-emails");
        assert!(cfg.item_action.is_none());
    } else {
        panic!("expected StaticList action");
    }
    assert_eq!(result.commands[0].source_dir, "sub");
}

// ── Reserved namespace ────────────────────────────────────────────────────

#[test]
fn reserved_slash_phrase_is_rejected() {
    let result = load_commands(
        vec![file("slash.yaml", Some(open_url("/ctx set foo", "Bad", "https://example.com")))],
        true,
    );
    assert!(result.commands.is_empty(), "/phrase must not load as a command");
    assert_eq!(result.reserved.len(), 1);
    assert_eq!(result.reserved[0].phrase, "/ctx set foo");
    assert_eq!(result.reserved[0].file, "slash.yaml");
}

#[test]
fn reserved_slash_any_suffix_is_rejected() {
    let result = load_commands(
        vec![file("slash2.yaml", Some(open_url("/ctx reset", "Bad", "https://example.com")))],
        true,
    );
    assert!(result.commands.is_empty());
    assert_eq!(result.reserved.len(), 1);
    assert_eq!(result.reserved[0].phrase, "/ctx reset");
}

#[test]
fn phrase_with_slash_not_at_start_is_accepted() {
    let result = load_commands(
        vec![file("no-slash.yaml", Some(open_url("open github/issues", "Not reserved", "https://github.com")))],
        true,
    );
    assert_eq!(result.commands.len(), 1, "slash not at start is not reserved");
    assert!(result.reserved.is_empty());
}

#[test]
fn normal_phrase_is_accepted() {
    let result = load_commands(
        vec![file("open-google.yaml", Some(open_url("open google", "Open Google", "https://www.google.com")))],
        true,
    );
    assert_eq!(result.commands.len(), 1, "normal phrase is not reserved");
    assert!(result.reserved.is_empty());
}

#[test]
fn reserved_vec_empty_without_violations() {
    let result = load_commands(
        vec![file("good.yaml", Some(open_url("open google", "Open Google", "https://www.google.com")))],
        true,
    );
    assert!(result.reserved.is_empty());
}

#[test]
fn commands_keep_their_configuration() {
    let paste = Command {
        phrase: "paste email".to_string(),
        title: "Paste email".to_string(),
        enabled: true,
        env: EnvMap::new(),
        action: Action::PasteText(PasteTextConfig { text: "hello@example.com".to_string() }),
        source_dir: String::new(),
    };
    let script = Command {
        phrase: "paste ts".to_string(),
        title: "Paste timestamp".to_string(),
        enabled: true,
        env: EnvMap::new(),
        action: Action::ScriptAction(ScriptActionConfig {
            script: "ts.sh".to_string(),
            arg: ArgMode::NoArg,
            result_action: ResultAction::PasteText,
            prefix: None,
            suffix: Some("\n".to_string()),
        }),
        source_dir: String::new(),
    };
    let result = load_commands(vec![file("p.yaml", Some(paste)), file("x/s.yaml", Some(script))], false);
    assert_eq!(result.commands.len(), 2);
    assert!(matches!(result.commands[0].action, Action::PasteText(_)));
    if let Action::ScriptAction(cfg) = &result.commands[1].action {
        assert_eq!(cfg.result_action, ResultAction::PasteText);
        assert_eq!(cfg.suffix.as_deref(), Some("\n"));
    } else {
        panic!("expected ScriptAction action");
    }
    assert_eq!(result.commands[1].source_dir, "x");
}

#[test]
fn files_sorted_by_time_then_path_components() {
    // "a/b" sorts before "a-b" component-wise ("a" < "a-b"), though not as plain text.
    let result = load_commands(
        vec![
            file("a-b.yaml", Some(open_url("one", "dash", "https://x"))),
            file("a/b.yaml", Some(open_url("two", "slash", "https://x"))),
        ],
        true,
    );
    assert_eq!(result.commands[0].title, "slash");
    assert_eq!(result.commands[1].title, "dash");
}

#[test]
fn unknown_time_is_read_first() {
    let mut unknown = file("z.yaml", Some(open_url("same", "unknown", "https://x")));
    unknown.modified = None;
    let known = file("a.yaml", Some(open_url("same", "known", "https://x")));
    let result = load_commands(vec![known, unknown], false);
    assert_eq!(result.commands[0].title, "unknown");
}

// ── Co-located names ──────────────────────────────────────────────────────

// ── Script output ─────────────────────────────────────────────────────────

#[test]
fn run_script_plain_text_returns_single_item() {
    let out = trim_output("hello world\n");
    let items = items_from_output(out, None);
    assert_eq!(items.len(), 1);
    assert_eq!(items[0].title, "hello world");
}

#[test]
fn script_items_use_parsed_json() {
    let parsed = vec![
        ListItem { title: "A".to_string(), subtext: None },
        ListItem { title: "B".to_string(), subtext: Some("sub".to_string()) },
    ];
    let items = items_from_output(trim_output("[...]\n"), Some(parsed));
    assert_eq!(items.len(), 2);
    assert_eq!(items[1].subtext.as_deref(), Some("sub"));
}

#[test]
fn empty_script_output_gives_no_items() {
    assert!(items_from_output(trim_output(" \n\t "), None).is_empty());
    assert!(values_from_output(trim_output("\n"), Some(vec!["x".to_string()])).is_empty());
}

#[test]
fn run_script_values_json_array_returns_strings() {
    let values = script_values("[\"alpha\",\"beta\",\"gamma\"]\n");
    assert_eq!(values, vec!["alpha", "beta", "gamma"]);
}

#[test]
fn run_script_values_plain_text_returns_single_value() {
    let values = script_values("hello world\n");
    assert_eq!(values.len(), 1);
    assert_eq!(values[0], "hello world");
}

#[test]
fn script_values_non_string_array_is_plain_text() {
    let values = script_values("  [1, 2]  ");
    assert_eq!(values, vec!["[1, 2]"]);
}

#[test]
fn trim_output_strips_unicode_space() {
    assert_eq!(trim_output("\u{3000} x y \u{a0}\n"), "x y");
}

#[test]
fn item_action_and_arg_mode_compare() {
    assert_eq!(Some(ItemAction::PasteText), Some(ItemAction::PasteText));
    assert_ne!(ArgMode::Required, ArgMode::Optional);
    assert_eq!(nimble::commands::default_arg_mode(), ArgMode::NoArg);
    assert!(nimble::commands::default_true());
}

#[test]
fn kept_commands_follow_time_then_path_of_input_files() {
    let mut late = file("a.yaml", Some(open_url("late", "Late", "https://a")));
    late.modified = Some(3_000);
    let mut early = file("z.yaml", Some(open_url("early", "Early", "https://z")));
    early.modified = Some(500);
    let tie_b = file("b.yaml", Some(open_url("tie b", "TieB", "https://b")));
    let tie_a = file("a2.yaml", Some(open_url("tie a", "TieA", "https://a2")));
    let result = load_commands(vec![late, tie_b, early, tie_a], true);
    let titles: Vec<&str> = result.commands.iter().map(|c| c.title.as_str()).collect();
    assert_eq!(titles, vec!["Early", "TieA", "TieB", "Late"]);
    assert_eq!(result.commands.len() + result.duplicates.len() + result.reserved.len(), 4);
}
