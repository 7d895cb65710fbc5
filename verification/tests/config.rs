use obsidian_todo::config::{
    is_state_id, managed_path, managed_paths_overlap, validate_link_prefix,
    validate_managed_directory, Config, State,
};
use obsidian_todo::documents::TomlFault;

fn issue_codes(config: &Config) -> Vec<String> {
    config
        .validation_issues()
        .into_iter()
        .map(|issue| issue.code)
        .collect()
}

#[test]
fn defaults_match_required_state_order() {
    let config = Config::defaults("Todo".to_owned());
    assert_eq!(
        config
            .states
            .iter()
            .map(|state| state.id.as_str())
            .collect::<Vec<_>>(),
        ["open", "active", "blocked", "done", "cancelled"]
    );
    assert!(config.validation_issues().is_empty());
}

#[test]
fn state_ids_require_lowercase_slug() {
    for valid in ["open", "state-2", "state_2", "0"] {
        assert!(is_state_id(valid), "{valid}");
    }
    for invalid in ["", "Open", "-open", "_open", "open space", "å"] {
        assert!(!is_state_id(invalid), "{invalid}");
    }
}

#[test]
fn config_reports_each_state_and_path_invariant() {
    let mut duplicate = Config::defaults("Todo".to_owned());
    duplicate.states.push(duplicate.states[0].clone());
    assert!(issue_codes(&duplicate).contains(&"duplicate_state_id".to_owned()));

    let mut terminal = Config::defaults("Todo".to_owned());
    for state in &mut terminal.states {
        state.terminal = true;
    }
    assert!(issue_codes(&terminal).contains(&"missing_nonterminal_state".to_owned()));
    assert!(issue_codes(&terminal).contains(&"terminal_default_state".to_owned()));

    let mut malformed = Config::defaults("Todo".to_owned());
    malformed.states[0].id = "Open".to_owned();
    malformed.states[1].name = " \t ".to_owned();
    malformed.default_state = "missing".to_owned();
    malformed.projects_directory = malformed.tasks_directory.clone();
    malformed.obsidian_link_prefix = "../Todo".to_owned();
    let codes = issue_codes(&malformed);
    for code in [
        "invalid_state_id",
        "invalid_state_name",
        "invalid_default_state",
        "managed_paths_not_distinct",
        "invalid_link_prefix",
    ] {
        assert!(
            codes.contains(&code.to_owned()),
            "missing {code}: {codes:?}"
        );
    }
}

#[test]
fn managed_paths_reject_escape_and_metadata_directory() {
    for invalid in [
        "",
        ".",
        "../Tasks",
        "Tasks/../Elsewhere",
        "/Tasks",
        ".todo",
        ".todo/tasks",
        "Tasks//Nested",
        "Tasks/",
        "Tasks\\Nested",
    ] {
        assert!(validate_managed_directory(invalid).is_err(), "{invalid}");
        assert_eq!(
            managed_path(invalid).expect_err("managed path").code(),
            "invalid_managed_path"
        );
    }
    assert!(validate_managed_directory("Areas/Todos").is_ok());
    assert!(managed_paths_overlap("Data", "Data/Projects"));
    assert!(!managed_paths_overlap("Data/Tasks", "Data/Projects"));
}

#[test]
fn every_other_schema_version_is_unsupported() {
    for version in [0, 3] {
        let mut config = Config::defaults("Todo".to_owned());
        config.schema_version = version;
        let source = config.to_toml().expect("serialize");
        let error = Config::parse(&source).expect_err("unsupported schema");
        assert_eq!(error.code(), "unsupported_schema");
        assert_eq!(error.exit_code(), 7);
    }
    let error = Config::parse("schema_version = -1\n").expect_err("negative version");
    assert_eq!(
        error.message(),
        "Schema version -1 is unsupported; supported versions are 1 and 2"
    );
}

#[test]
fn a_later_schema_wins_over_fields_that_are_not_known() {
    let source = Config::defaults("Todo".to_owned())
        .to_toml()
        .expect("serialize")
        .replacen("schema_version = 2", "schema_version = 3", 1)
        + "\nfuture_field = true\n";
    let error = Config::parse(&source).expect_err("future schema");
    assert_eq!(error.code(), "unsupported_schema");
    assert_eq!(error.exit_code(), 7);
}

#[test]
fn unknown_config_keys_are_rejected() {
    let mut source = Config::defaults("Todo".to_owned())
        .to_toml()
        .expect("serialize");
    source.push_str("typo = true\n");
    let error = Config::parse(&source).expect_err("unknown key must fail");
    assert_eq!(error.code(), "invalid_config");
}

#[test]
fn configuration_syntax_errors_include_a_source_location() {
    let error = Config::parse("schema_version = 1\nstates = [").expect_err("invalid configuration");
    assert!(error.line().is_some());
    assert!(error.column().is_some());
}

#[test]
fn the_place_of_a_syntax_error_counts_lines_and_columns() {
    let fault = TomlFault {
        message: "here".to_owned(),
        start: Some(7),
    };
    let error = Config::from_document("a = 1\nb = [", Err(fault)).expect_err("fault");
    assert_eq!((error.line(), error.column()), (Some(2), Some(2)));
    assert_eq!(error.message(), "Invalid configuration: here");
    assert_eq!(error.path(), Some(".todo/config.toml"));
}

#[test]
fn project_paths_cannot_inject_wikilink_control_syntax() {
    let mut config = Config::defaults("Todo".to_owned());
    config.projects_directory = "Pro#jects".to_owned();
    assert!(config
        .validation_issues()
        .iter()
        .any(|issue| issue.field.as_deref() == Some("projects_directory")));
    assert!(validate_link_prefix("Todo\nElsewhere").is_err());
}

#[test]
fn project_links_use_forward_slashes() {
    let mut config = Config::defaults("Area/Todo".to_owned());
    config.projects_directory = "Records/Projects".to_owned();
    assert_eq!(
        config.project_link("work"),
        "[[Area/Todo/Records/Projects/work]]"
    );
}

#[test]
fn links_to_the_table_of_tasks_follow_the_prefix() {
    assert_eq!(
        Config::defaults("Area/Todo".to_owned()).todos_base_link(),
        "[[Area/Todo/todos.base]]"
    );
    assert_eq!(
        Config::defaults(String::new()).todos_base_link(),
        "[[todos.base]]"
    );
}

#[test]
fn written_configurations_come_back() {
    let mut config = Config::defaults("Área/Tödo \"x\"".to_owned());
    config.states.push(State {
        id: "later".to_owned(),
        name: "Lâter \\ on".to_owned(),
        terminal: false,
    });
    config.schema_version = 1;
    let source = config.to_toml().expect("serialize");
    assert_eq!(Config::parse(&source).expect("parse"), config);
    assert!(source.contains("schema_version = 1"));
}

#[test]
fn fields_of_another_type_or_none_are_told() {
    let source = Config::defaults("Todo".to_owned())
        .to_toml()
        .expect("serialize");
    for (from, to, message) in [
        (
            "schema_version = 2",
            "schema_version = \"2\"",
            "invalid type for `schema_version`, expected an integer",
        ),
        (
            "tasks_directory = \"Tasks\"",
            "tasks_directory = 1",
            "invalid type for `tasks_directory`, expected a string",
        ),
        (
            "default_state = \"open\"\n",
            "",
            "missing field `default_state`",
        ),
        (
            "terminal = false",
            "terminal = \"no\"",
            "invalid type for `terminal`, expected a boolean",
        ),
    ] {
        let error = Config::parse(&source.replacen(from, to, 1)).expect_err(message);
        assert_eq!(error.code(), "invalid_config");
        assert_eq!(error.message(), format!("Invalid configuration: {message}"));
    }
}

#[test]
fn inspection_tells_everything_that_is_wrong() {
    let source = Config::defaults("Todo".to_owned())
        .to_toml()
        .expect("serialize")
        .replacen("default_state = \"open\"", "default_state = \"gone\"", 1)
        .replacen("terminal = true", "terminal = true\ncolor = \"red\"", 1);
    let (config, issues) = Config::inspect(&format!("typo = true\n{source}"));
    assert!(config.is_some());
    let found = issues
        .iter()
        .map(|issue| (issue.code.as_str(), issue.field.as_deref()))
        .collect::<Vec<_>>();
    assert_eq!(
        found,
        [
            ("unknown_config_field", Some("typo")),
            ("unknown_config_field", Some("states.color")),
            ("invalid_default_state", Some("default_state")),
        ]
    );
    let (config, issues) = Config::inspect("schema_version = 9\n");
    assert!(config.is_none());
    assert_eq!(issues.len(), 1);
    assert_eq!(issues[0].code, "unsupported_schema");
    let (config, issues) = Config::inspect("schema_version = 2\n");
    assert!(config.is_none());
    assert_eq!(
        issues[0].message,
        "Invalid configuration values: missing field `tasks_directory`"
    );
    let (config, issues) = Config::inspect("schema_version = [");
    assert!(config.is_none());
    assert_eq!(issues[0].code, "invalid_config");
    assert!(issues[0].line.is_some());
}

#[test]
fn a_text_with_too_many_quotes_in_a_row_is_not_written() {
    for (quote, count, fine) in [
        ("'", 255, true),
        ("\"", 255, true),
        ("'", 256, false),
        ("\"", 256, false),
    ] {
        let mut config = Config::defaults(String::new());
        config.states[0].name = quote.repeat(count);
        match config.to_toml() {
            Ok(source) => {
                assert!(fine);
                assert_eq!(Config::parse(&source).expect("read back"), config);
            }
            Err(error) => {
                assert!(!fine);
                assert_eq!(error.code(), "config_serialization_failed");
            }
        }
    }
}

#[test]
fn states_may_be_written_as_lists() {
    let head = "schema_version = 2\ntasks_directory = \"Tasks\"\nprojects_directory = \"Projects\"\nobsidian_link_prefix = \"Todo\"\ndefault_state = \"open\"\n";
    let source = format!(
        "{head}states = [[\"open\", \"Open\", false], {{ id = \"done\", name = \"Done\", terminal = true }}]\n"
    );
    let config = Config::parse(&source).expect("parse");
    assert_eq!(
        config.states,
        vec![
            State {
                id: "open".to_owned(),
                name: "Open".to_owned(),
                terminal: false,
            },
            State {
                id: "done".to_owned(),
                name: "Done".to_owned(),
                terminal: true,
            },
        ]
    );
    for states in [
        "[[\"open\", \"Open\"]]",
        "[[\"open\", \"Open\", false, 1]]",
        "[[\"open\", \"Open\", \"no\"]]",
        "[[1, \"Open\", false]]",
        "[1]",
    ] {
        let error = Config::parse(&format!("{head}states = {states}\n")).expect_err(states);
        assert_eq!(error.code(), "invalid_config");
    }
}

#[test]
fn a_date_stands_for_its_text() {
    let source = Config::defaults("Todo".to_owned())
        .to_toml()
        .expect("serialize")
        .replacen("tasks_directory = \"Tasks\"", "tasks_directory = 2026-01-02", 1);
    assert_eq!(
        Config::parse(&source).expect("parse").tasks_directory,
        "2026-01-02"
    );
    assert!(Config::parse(&source.replacen("2026-01-02", "1.5", 1)).is_err());
}
