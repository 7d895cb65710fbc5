use obsidian_todo::config::Config;
use obsidian_todo::error::ValidationIssue;
use obsidian_todo::schema::Schemas;
use obsidian_todo::upgrade::{
    find_schema, preflight_issues, upgrade, upgraded_config, SchemaFound, UpgradeStatus,
};

fn first() -> (Config, String) {
    let mut config = Config::defaults("Todo".to_owned());
    config.schema_version = 1;
    let source = format!("# keep this comment\n{}", config.to_toml().expect("config"));
    (config, source)
}

#[test]
fn upgrades_go_from_the_first_version_to_the_second() {
    for (found, dry_run, status) in [
        (SchemaFound::First, true, UpgradeStatus::Planned),
        (SchemaFound::Second, true, UpgradeStatus::Planned),
        (SchemaFound::First, false, UpgradeStatus::Upgraded),
        (SchemaFound::Second, false, UpgradeStatus::Resumed),
    ] {
        assert_eq!(
            upgrade(2, 1, found, dry_run, Vec::new()).expect("upgrade"),
            status
        );
    }
    for dry_run in [false, true] {
        let issues = vec![ValidationIssue::error("bad", "Wrong")];
        let status = upgrade(2, 2, SchemaFound::Second, dry_run, issues).expect("current");
        assert_eq!(status.as_str(), "already_current");
    }
}

#[test]
fn other_versions_and_schemas_are_refused() {
    for to in [0, 1, 3] {
        let error = upgrade(to, 2, SchemaFound::Second, false, Vec::new()).expect_err("target");
        assert_eq!(error.code(), "unsupported_schema");
        assert_eq!(error.exit_code(), 7);
    }
    for (version, found) in [(2, SchemaFound::First), (1, SchemaFound::Neither)] {
        let error = upgrade(2, version, found, false, Vec::new()).expect_err("schema");
        assert_eq!(error.code(), "schema_version_mismatch");
    }
}

#[test]
fn every_property_named_parent_blocks_an_upgrade() {
    for parent in [
        "null",
        "\"00000000000000000000000001\"",
        "[old, metadata]",
        "{plugin: value}",
    ] {
        let bytes = format!(
            "---\nname: Collision\nstate: open\nprojects: []\ntags: []\nparent: {parent}\n---\n"
        )
        .into_bytes();
        let records = vec![("Tasks/a.md".to_owned(), bytes)];
        for half_way in [false, true] {
            let found = vec![ValidationIssue::error("schema_version_mismatch", "Other")];
            let given = if half_way { found } else { Vec::new() };
            let issues = preflight_issues(&given, half_way, &records);
            assert_eq!(issues.len(), 1);
            assert_eq!(issues[0].field.as_deref(), Some("parent"));
            assert_eq!(issues[0].path.as_deref(), Some("Tasks/a.md"));
            let error = upgrade(2, 1, SchemaFound::First, true, issues).expect_err("blocked");
            assert_eq!(error.code(), "validation_failed");
            assert_eq!(error.exit_code(), 5);
        }
    }
    let records = vec![(
        "Tasks/a.md".to_owned(),
        b"---\nname: Free\nstate: open\nprojects: []\ntags: []\n---\n".to_vec(),
    )];
    assert!(preflight_issues(&Vec::new(), false, &records).is_empty());
}

#[test]
fn only_the_version_of_a_configuration_is_replaced() {
    let (config, source) = first();
    let replaced = upgraded_config(&source, &config).expect("replace");
    assert_eq!(
        replaced,
        source.replace("schema_version = 1", "schema_version = 2")
    );
    assert_eq!(
        Config::parse(&replaced).expect("config").schema_version,
        2
    );
    let second = Config::defaults("Todo".to_owned());
    let text = second.to_toml().expect("config");
    assert_eq!(
        upgraded_config(&text, &second).expect_err("second").code(),
        "config_upgrade_failed"
    );
    let odd = source.replace("schema_version = 1", "schema_version = 0b1");
    assert_eq!(
        upgraded_config(&odd, &config).expect_err("odd").code(),
        "config_upgrade_failed"
    );
}

#[test]
fn schemas_are_told_apart() {
    let schemas = Schemas {
        first: "{\"a\":1}".to_owned(),
        second: "{\"a\":2}".to_owned(),
    };
    assert_eq!(find_schema(b"{ \"a\": 1 }", &schemas), SchemaFound::First);
    assert_eq!(find_schema(b"{\"a\":2}", &schemas), SchemaFound::Second);
    assert_eq!(find_schema(b"{\"a\":3}", &schemas), SchemaFound::Neither);
    assert_eq!(find_schema(b"{", &schemas), SchemaFound::Neither);
}
