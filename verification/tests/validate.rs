use obsidian_todo::attachments::Entry;
use obsidian_todo::config::Config;
use obsidian_todo::error::{ErrorKind, ValidationIssue};
use obsidian_todo::schema::Schemas;
use obsidian_todo::store::{WalkEntry, WalkKind};
use obsidian_todo::validate::{
    attachments_of, exceeds_limit, load_config_for_validation, read_regular_file, validate_store,
    FileState, LockState, ManagedPlace, MetadataEntry, Place, RootState, Step, StoreFacts,
    ValidationReport, Visit, VALIDATION_TASK_ID,
};

const FIRST: &str = "{\"x-obsidian-todo-schema-version\":1,\"type\":\"object\"}";
const SECOND: &str = "{\"x-obsidian-todo-schema-version\":2,\"type\":\"object\"}";
const ID: &str = "01K4B0ZSBZZV25T1K0D3TA8JHR";

fn schemas() -> Schemas {
    Schemas {
        first: FIRST.to_owned(),
        second: SECOND.to_owned(),
    }
}

fn met(path: &str, kind: WalkKind, depth: usize) -> Step {
    Step::Met(WalkEntry {
        path: path.to_owned(),
        kind,
        depth,
        utf8: true,
    })
}

fn visit(path: &str, kind: WalkKind, depth: usize, bytes: &[u8]) -> Visit {
    Visit {
        step: met(path, kind, depth),
        file: FileState::Bytes(bytes.to_vec()),
        attachments: Vec::new(),
    }
}

fn record(path: &str, bytes: &[u8]) -> Visit {
    visit(path, WalkKind::File, path.matches('/').count(), bytes)
}

fn managed(path: &str) -> ManagedPlace {
    ManagedPlace {
        places: path.split('/').map(|_| Place::Directory).collect(),
        resolved: Ok(format!("/vault/Todo/{path}")),
    }
}

fn facts_for(config: &Config) -> StoreFacts {
    let schema = if config.schema_version == 1 {
        FIRST
    } else {
        SECOND
    };
    StoreFacts {
        root: RootState::At("/vault/Todo".to_owned()),
        metadata: Place::Directory,
        lock: LockState::Taken,
        metadata_entries: Ok(vec![
            MetadataEntry::Named("config.toml".to_owned()),
            MetadataEntry::Named("schema.json".to_owned()),
        ]),
        config: FileState::Bytes(config.to_toml().expect("config").into_bytes()),
        schema: FileState::Bytes(schema.as_bytes().to_vec()),
        entries: vec![
            met(".todo", WalkKind::Directory, 1),
            met(".todo/config.toml", WalkKind::File, 2),
            met("Projects", WalkKind::Directory, 1),
            met("Tasks", WalkKind::Directory, 1),
            met("todos.base", WalkKind::File, 1),
        ],
        tasks_place: managed(&config.tasks_directory),
        projects_place: managed(&config.projects_directory),
        metadata_path: Ok("/vault/Todo/.todo".to_owned()),
        projects: Vec::new(),
        tasks: Vec::new(),
    }
}

fn initialized() -> StoreFacts {
    facts_for(&Config::defaults("Todo".to_owned()))
}

fn report(facts: &StoreFacts) -> ValidationReport {
    validate_store(facts, &schemas())
}

fn has(report: &ValidationReport, code: &str) -> bool {
    report.issues.iter().any(|issue| issue.code == code)
}

fn task_bytes(metadata: &str) -> Vec<u8> {
    format!("---\n{metadata}\nstate: open\nprojects: []\ntags: []\n---\n").into_bytes()
}

#[test]
fn initialized_store_is_valid() {
    let report = report(&initialized());
    assert!(report.valid, "{:?}", report.issues);
    assert_eq!(report.errors, 0);
    assert_eq!(report.warnings, 0, "{:?}", report.issues);
}

#[test]
fn visible_task_subdirectories_are_valid_storage() {
    let mut facts = initialized();
    facts.tasks = vec![
        visit("Tasks/archive", WalkKind::Directory, 1, b""),
        record(
            &format!("Tasks/archive/{ID}.md"),
            b"---\nname: Archived placement\nstate: open\nprojects: []\ntags: []\n---\n",
        ),
    ];
    let report = report(&facts);
    assert!(report.valid, "{:?}", report.issues);
    assert_eq!(report.warnings, 0, "{:?}", report.issues);
    assert_eq!(report.tasks, 1);
}

#[test]
fn case_variant_task_ids_report_duplicate_identity() {
    let bytes = b"---\nname: Task\nstate: open\nprojects: []\ntags: []\n---\n";
    for version in [1, 2] {
        let mut config = Config::defaults("Todo".to_owned());
        config.schema_version = version;
        let mut facts = facts_for(&config);
        facts.tasks = vec![
            visit("Tasks/one", WalkKind::Directory, 1, b""),
            record(&format!("Tasks/one/{ID}.md"), bytes),
            visit("Tasks/two", WalkKind::Directory, 1, b""),
            record(&format!("Tasks/two/{}.md", ID.to_ascii_lowercase()), bytes),
        ];
        let report = report(&facts);
        assert!(has(&report, "duplicate_task_id"));
        assert!(!has(&report, "invalid_task_id"));
        assert_eq!(report.tasks, 2);
    }
}

#[test]
fn schema_must_match_the_authoritative_embedded_shape() {
    let mut facts = initialized();
    facts.schema = FileState::Bytes(b"{\"x-obsidian-todo-schema-version\":1}".to_vec());
    let report = report(&facts);
    assert!(has(&report, "schema_version_mismatch"));
    assert_eq!(
        report
            .into_result()
            .expect_err("incompatible schema")
            .exit_code(),
        7
    );
}

#[test]
fn nested_project_duplicates_are_reported_independently() {
    let mut facts = initialized();
    facts.projects = vec![
        visit("Projects/nested", WalkKind::Directory, 1, b""),
        record("Projects/nested/work.md", b"---\nname: Work\n---\n"),
        record("Projects/work.md", b"---\nname: Work\n---\n"),
    ];
    let report = report(&facts);
    assert!(has(&report, "duplicate_project_slug"));
    assert!(has(&report, "nested_project"));
    assert_eq!(report.projects, 2);
}

#[test]
fn invalid_record_paths_do_not_hide_independent_content_errors() {
    let mut facts = initialized();
    facts.projects = vec![
        visit("Projects/nested", WalkKind::Directory, 1, b""),
        record("Projects/nested/Bad Slug.md", b"not front matter\n"),
    ];
    facts.tasks = vec![record("Tasks/not-an-id.md", b"not front matter\n")];
    let report = report(&facts);
    for code in [
        "nested_project",
        "invalid_project_slug",
        "invalid_task_id",
        "missing_frontmatter",
    ] {
        assert!(has(&report, code), "missing {code}: {:?}", report.issues);
    }
}

#[test]
fn existing_project_paths_satisfy_references_even_when_metadata_is_invalid() {
    let mut facts = initialized();
    facts.projects = vec![record("Projects/work.md", b"---\nplugin: true\n---\n")];
    facts.tasks = vec![record(
        &format!("Tasks/{ID}.md"),
        b"---\nname: Task\nstate: open\nprojects: [\"[[Todo/Projects/work]]\"]\ntags: []\n---\n",
    )];
    let found = report(&facts);
    assert!(has(&found, "missing_property"));
    assert!(!has(&found, "missing_project_reference"));
    facts.projects.clear();
    let found = report(&facts);
    let missing = found
        .issues
        .iter()
        .find(|issue| issue.code == "missing_project_reference")
        .expect("reference");
    assert_eq!(
        missing.suggestion.as_deref(),
        Some("Create project \"work\" or remove this reference")
    );
}

#[test]
fn reports_multiple_independent_errors_sorted_by_path() {
    let mut facts = initialized();
    facts.projects = vec![record("Projects/Bad Slug.md", b"not front matter")];
    facts.tasks = vec![
        record(
            &format!("Tasks/{ID}.md"),
            b"---\nname: \nstate: missing\nprojects: [\"[[Todo/Projects/nope]]\"]\ntags: [\"bad tag\"]\n---\n",
        ),
        record("Tasks/unexpected.bin", b"junk"),
    ];
    let report = report(&facts);
    assert!(!report.valid);
    assert!(report.errors >= 2, "{:?}", report.issues);
    assert_eq!(report.warnings, 1);
    assert!(report
        .issues
        .windows(2)
        .all(|pair| pair[0].path <= pair[1].path));
}

#[test]
fn reports_unexpected_root_and_metadata_entries_as_warnings() {
    let mut facts = initialized();
    facts.entries.push(met("notes.md", WalkKind::File, 1));
    facts.metadata_entries = Ok(vec![
        MetadataEntry::Named("config.toml".to_owned()),
        MetadataEntry::Named("config.toml.bak".to_owned()),
        MetadataEntry::Named("schema.json".to_owned()),
    ]);
    let report = report(&facts);
    assert!(report.valid, "{:?}", report.issues);
    assert_eq!(report.warnings, 2);
    assert!(report
        .issues
        .iter()
        .all(|issue| issue.code == "unexpected_file"));
}

#[test]
fn nested_managed_paths_do_not_hide_unexpected_siblings() {
    let mut config = Config::defaults("Todo".to_owned());
    config.tasks_directory = "Data/Tasks".to_owned();
    config.projects_directory = "Data/Projects".to_owned();
    let mut facts = facts_for(&config);
    facts.entries = vec![
        met(".todo", WalkKind::Directory, 1),
        met("Data", WalkKind::Directory, 1),
        met("Data/Projects", WalkKind::Directory, 2),
        met("Data/Tasks", WalkKind::Directory, 2),
        met("Data/Tasks/a", WalkKind::File, 3),
        met("Data/stray.md", WalkKind::File, 2),
    ];
    let report = report(&facts);
    assert!(report.valid, "{:?}", report.issues);
    assert_eq!(report.warnings, 1);
    assert_eq!(report.issues[0].path.as_deref(), Some("Data/stray.md"));
}

#[test]
fn unknown_config_fields_do_not_hide_other_config_validation() {
    let mut facts = initialized();
    let mut source = Config::defaults("Todo".to_owned()).to_toml().expect("config");
    source.push_str("typo_one = true\ntypo_two = false\n");
    facts.config = FileState::Bytes(source.into_bytes());
    let report = report(&facts);
    assert_eq!(
        report
            .issues
            .iter()
            .filter(|issue| issue.code == "unknown_config_field")
            .count(),
        2
    );
}

#[test]
fn future_schema_is_reported_even_when_v1_fields_are_missing() {
    let mut facts = initialized();
    facts.config = FileState::Bytes(b"schema_version = 3\nfuture_field = true\n".to_vec());
    let report = report(&facts);
    assert!(has(&report, "unsupported_schema"));
    assert_eq!(
        report
            .into_result()
            .expect_err("unsupported schema")
            .exit_code(),
        7
    );
}

#[test]
fn metadata_symlink_is_rejected_without_reading_its_config() {
    let mut facts = initialized();
    facts.metadata = Place::Symlink;
    facts.config = FileState::Bytes(b"schema_version = 2\nfuture_field = true\n".to_vec());
    let report = report(&facts);
    assert_eq!(report.issues.len(), 1);
    assert_eq!(report.issues[0].code, "invalid_metadata_directory");
}

#[test]
fn invalid_managed_path_is_never_scanned_outside_store() {
    let mut config = Config::defaults("Todo".to_owned());
    config.tasks_directory = "/vault/outside".to_owned();
    let mut facts = facts_for(&config);
    facts.tasks = vec![record(
        &format!("outside/{ID}.md"),
        b"---\nname: Outside\nstate: open\nprojects: []\ntags: []\n---\n",
    )];
    let report = report(&facts);
    assert_eq!(report.tasks, 0);
    assert!(has(&report, "invalid_managed_path"));
    assert!(report
        .issues
        .iter()
        .all(|issue| issue.path.as_deref() != Some("/vault/outside")));
}

#[test]
fn normal_scans_ignore_hidden_records_and_validate_warns() {
    let mut facts = initialized();
    facts.tasks = vec![
        record(
            "Tasks/.editor.md",
            b"---\nname: Hidden\nstate: open\nprojects: []\ntags: []\n---\n",
        ),
        visit("Tasks/.trash", WalkKind::Directory, 1, b""),
        record(&format!("Tasks/.trash/{ID}.md"), b"not front matter"),
    ];
    facts.projects = vec![record("Projects/.editor.md", b"---\nname: Hidden\n---\n")];
    let report = report(&facts);
    assert!(report.valid);
    assert_eq!(report.tasks, 0);
    assert_eq!(report.projects, 0);
    assert_eq!(report.warnings, 3);
}

#[test]
fn malformed_physical_targets_and_invalid_filenames_do_not_fabricate_graph_nodes() {
    let parent = "01ARZ3NDEKTSV4RRFFQ69G5FAV";
    let child = "01ARZ3NDEKTSV4RRFFQ69G5FAW";
    let orphan = "01ARZ3NDEKTSV4RRFFQ69G5FAX";
    let missing = "01ARZ3NDEKTSV4RRFFQ69G5FB0";
    let dummy_reference = "01ARZ3NDEKTSV4RRFFQ69G5FAY";
    let invalid_parent = "01ARZ3NDEKTSV4RRFFQ69G5FAZ";
    let mut facts = initialized();
    facts.tasks = vec![record(&format!("Tasks/{parent}.md"), b"not front matter\n")];
    for (id, metadata) in [
        (child, format!("name: Child\nparent: \"{parent}\"")),
        (orphan, format!("parent: \"{missing}\"")),
        (
            "not-an-id",
            format!("name: Bad filename\nparent: \"{VALIDATION_TASK_ID}\""),
        ),
        (
            dummy_reference,
            format!("name: Missing physical target\nparent: \"{VALIDATION_TASK_ID}\""),
        ),
        (invalid_parent, "parent: null".to_owned()),
    ] {
        facts
            .tasks
            .push(record(&format!("Tasks/{id}.md"), &task_bytes(&metadata)));
    }
    let report = report(&facts);
    let graph = report
        .issues
        .iter()
        .filter(|issue| issue.field.as_deref() == Some("parent"))
        .map(|issue| (issue.path.clone().expect("path"), issue.code.as_str()))
        .collect::<Vec<_>>();
    assert_eq!(
        graph,
        vec![
            (format!("Tasks/{orphan}.md"), "missing_parent_reference"),
            (
                format!("Tasks/{dummy_reference}.md"),
                "missing_parent_reference"
            ),
            (format!("Tasks/{invalid_parent}.md"), "invalid_parent_id"),
        ]
    );
    for (id, code) in [
        (parent, "missing_frontmatter"),
        (orphan, "missing_property"),
        (invalid_parent, "missing_property"),
        ("not-an-id", "invalid_task_id"),
    ] {
        assert!(
            report.issues.iter().any(|issue| issue.path.as_deref()
                == Some(format!("Tasks/{id}.md").as_str())
                && issue.code == code),
            "{id}: {:?}",
            report.issues
        );
    }
    assert_eq!(report.tasks, 6);
}

#[test]
fn safely_parsed_edges_preserve_cycles_despite_unrelated_record_errors() {
    let first = "01ARZ3NDEKTSV4RRFFQ69G5FAV";
    let second = "01ARZ3NDEKTSV4RRFFQ69G5FAW";
    let descendant = "01ARZ3NDEKTSV4RRFFQ69G5FAX";
    let mut facts = initialized();
    for (id, parent, name) in [
        (first, second, ""),
        (second, first, "name: Terminal\n"),
        (descendant, second, "name: Descendant\n"),
    ] {
        facts.tasks.push(record(
            &format!("Tasks/{id}.md"),
            format!("---\n{name}state: done\nprojects: []\ntags: []\nparent: \"{parent}\"\n---\n")
                .as_bytes(),
        ));
    }
    let report = report(&facts);
    let cycles = report
        .issues
        .iter()
        .filter(|issue| issue.code == "parent_cycle")
        .map(|issue| issue.path.clone().expect("path"))
        .collect::<Vec<_>>();
    assert_eq!(
        cycles,
        vec![
            format!("Tasks/{first}.md"),
            format!("Tasks/{second}.md"),
        ]
    );
    assert_eq!(report.errors, 3, "{:?}", report.issues);
}

#[test]
fn validation_selects_exact_historical_schema_without_promoting_parent_extras() {
    let mut config = Config::defaults("Todo".to_owned());
    config.schema_version = 1;
    let mut facts = facts_for(&config);
    facts.tasks = vec![record(
        "Tasks/01ARZ3NDEKTSV4RRFFQ69G5FAV.md",
        b"---\nname: Legacy\nstate: open\nprojects: []\ntags: []\nparent: null\n---\n",
    )];
    assert!(report(&facts).valid);
    facts.schema = FileState::Bytes(SECOND.as_bytes().to_vec());
    let intermediate = report(&facts);
    assert_eq!(intermediate.errors, 1, "{:?}", intermediate.issues);
    assert_eq!(intermediate.issues[0].code, "schema_version_mismatch");
    config.schema_version = 2;
    facts.config = FileState::Bytes(config.to_toml().expect("config").into_bytes());
    facts.schema = FileState::Bytes(FIRST.as_bytes().to_vec());
    let reversed = report(&facts);
    assert_eq!(reversed.errors, 2, "{:?}", reversed.issues);
    assert!(has(&reversed, "schema_version_mismatch"));
    assert!(has(&reversed, "invalid_parent_id"));
}

#[test]
fn upgrade_preflight_reuses_validation_under_an_existing_exclusive_lock() {
    let mut facts = initialized();
    facts.lock = LockState::Taken;
    facts.tasks = vec![record(
        "Tasks/01ARZ3NDEKTSV4RRFFQ69G5FAV.md",
        b"---\nname: Orphan\nstate: open\nprojects: []\ntags: []\nparent: \"01ARZ3NDEKTSV4RRFFQ69G5FAW\"\n---\n",
    )];
    let report = report(&facts);
    assert_eq!(report.errors, 1, "{:?}", report.issues);
    assert_eq!(report.issues[0].code, "missing_parent_reference");
}

#[test]
fn malformed_duplicate_identity_suppresses_only_ambiguous_graph_claims() {
    let duplicate = "01ARZ3NDEKTSV4RRFFQ69G5FAV";
    let child = "01ARZ3NDEKTSV4RRFFQ69G5FAW";
    let orphan = "01ARZ3NDEKTSV4RRFFQ69G5FAX";
    let missing = "01ARZ3NDEKTSV4RRFFQ69G5FAY";
    let mut facts = initialized();
    for (path, name, parent) in [
        (format!("Tasks/{duplicate}.md"), "", duplicate),
        (format!("Tasks/{child}.md"), "name: Child\n", duplicate),
        (
            format!("Tasks/{orphan}.md"),
            "name: Independent orphan\n",
            missing,
        ),
        (
            format!("Tasks/nested/{}.md", duplicate.to_ascii_lowercase()),
            "name: Duplicate\n",
            missing,
        ),
    ] {
        facts.tasks.push(record(
            &path,
            format!("---\n{name}state: open\nprojects: []\ntags: []\nparent: \"{parent}\"\n---\n")
                .as_bytes(),
        ));
    }
    let report = report(&facts);
    let mut codes = report
        .issues
        .iter()
        .map(|issue| issue.code.as_str())
        .collect::<Vec<_>>();
    codes.sort_unstable();
    assert_eq!(
        codes,
        [
            "duplicate_task_id",
            "missing_parent_reference",
            "missing_property"
        ]
    );
    let missing_issue = report
        .issues
        .iter()
        .find(|issue| issue.code == "missing_parent_reference")
        .expect("orphan");
    assert_eq!(
        missing_issue.path.as_ref(),
        Some(&format!("Tasks/{orphan}.md"))
    );
}

#[test]
fn unsafe_physical_parent_is_reported_without_following_or_fabricating_absence() {
    let mut facts = initialized();
    facts.tasks = vec![
        visit(
            "Tasks/01ARZ3NDEKTSV4RRFFQ69G5FAV.md",
            WalkKind::Symlink,
            1,
            b"",
        ),
        record(
            "Tasks/01ARZ3NDEKTSV4RRFFQ69G5FAW.md",
            b"---\nname: Child\nstate: open\nprojects: []\ntags: []\nparent: \"01ARZ3NDEKTSV4RRFFQ69G5FAV\"\n---\n",
        ),
    ];
    let report = report(&facts);
    assert_eq!(report.errors, 1, "{:?}", report.issues);
    assert_eq!(report.issues[0].code, "record_symlink");
}

#[test]
fn what_cannot_be_looked_at_is_told() {
    for (change, code) in [
        (
            (|facts: &mut StoreFacts| facts.root = RootState::Failed("gone".to_owned()))
                as fn(&mut StoreFacts),
            "store_not_found",
        ),
        (
            |facts: &mut StoreFacts| facts.root = RootState::NotDirectory,
            "invalid_store_root",
        ),
        (
            |facts: &mut StoreFacts| facts.root = RootState::Unresolved("loop".to_owned()),
            "invalid_store_root",
        ),
        (
            |facts: &mut StoreFacts| facts.metadata = Place::Failed("gone".to_owned()),
            "metadata_directory_missing",
        ),
        (
            |facts: &mut StoreFacts| facts.lock = LockState::Irregular,
            "invalid_store_file",
        ),
        (
            |facts: &mut StoreFacts| {
                facts.lock = LockState::Failed {
                    action: "open the validation lock file".to_owned(),
                    reason: "denied".to_owned(),
                }
            },
            "validation_lock_failed",
        ),
        (
            |facts: &mut StoreFacts| facts.metadata_entries = Err("denied".to_owned()),
            "metadata_scan_failed",
        ),
        (
            |facts: &mut StoreFacts| facts.config = FileState::Irregular,
            "invalid_store_file",
        ),
        (
            |facts: &mut StoreFacts| facts.config = FileState::Bytes(vec![0xff]),
            "invalid_config_utf8",
        ),
        (
            |facts: &mut StoreFacts| facts.schema = FileState::Large,
            "file_too_large",
        ),
        (
            |facts: &mut StoreFacts| facts.schema = FileState::Bytes(b"{".to_vec()),
            "invalid_schema_file",
        ),
        (
            |facts: &mut StoreFacts| facts.tasks_place.places = vec![Place::Symlink],
            "managed_path_symlink",
        ),
        (
            |facts: &mut StoreFacts| facts.tasks_place.places = vec![Place::Other],
            "managed_path_not_directory",
        ),
        (
            |facts: &mut StoreFacts| facts.tasks_place.places = Vec::new(),
            "managed_directory_missing",
        ),
        (
            |facts: &mut StoreFacts| facts.tasks_place.resolved = Ok("/else".to_owned()),
            "managed_path_escape",
        ),
        (
            |facts: &mut StoreFacts| facts.tasks_place.resolved = Err("loop".to_owned()),
            "managed_path_unreadable",
        ),
        (
            |facts: &mut StoreFacts| {
                facts.tasks_place.resolved = Ok("/vault/Todo/.todo/x".to_owned())
            },
            "managed_paths_not_distinct",
        ),
        (
            |facts: &mut StoreFacts| {
                facts.tasks_place.resolved = Ok("/vault/Todo/Projects".to_owned())
            },
            "managed_paths_not_distinct",
        ),
        (
            |facts: &mut StoreFacts| facts.metadata_path = Err("loop".to_owned()),
            "metadata_scan_failed",
        ),
        (
            |facts: &mut StoreFacts| {
                facts.entries = vec![Step::Failed {
                    reason: "denied".to_owned(),
                    depth: 1,
                }]
            },
            "store_scan_failed",
        ),
        (
            |facts: &mut StoreFacts| {
                facts.tasks = vec![Visit {
                    step: Step::Failed {
                        reason: "denied".to_owned(),
                        depth: 1,
                    },
                    file: FileState::Irregular,
                    attachments: Vec::new(),
                }]
            },
            "task_scan_failed",
        ),
    ] {
        let mut facts = initialized();
        change(&mut facts);
        let report = report(&facts);
        assert!(!report.valid, "{code}");
        assert!(has(&report, code), "{code}: {:?}", report.issues);
    }
}

#[test]
fn files_are_read_up_to_a_limit() {
    assert!(exceeds_limit(11, 10));
    assert!(!exceeds_limit(10, 10));
    let file = FileState::Bytes(vec![1, 2, 3]);
    assert_eq!(read_regular_file(&file, "a", 3).expect("bytes"), &[1, 2, 3]);
    let issue = read_regular_file(&file, "a", 2).expect_err("large");
    assert_eq!(issue.message, "File exceeds the 2-byte limit");
    let issue = read_regular_file(
        &FileState::Unreadable {
            action: "open file".to_owned(),
            reason: "denied".to_owned(),
        },
        "a",
        2,
    )
    .expect_err("unreadable");
    assert_eq!(issue.message, "Could not open file: denied");
    let (config, issues) = load_config_for_validation(&FileState::Irregular);
    assert!(config.is_none());
    assert_eq!(issues[0].path.as_deref(), Some(".todo/config.toml"));
}

#[test]
fn attachments_of_tasks_are_looked_at() {
    let config = Config::defaults("Todo".to_owned());
    let path = format!("Tasks/{ID}.md");
    let bytes = b"---\nname: Task\nstate: open\nprojects: []\ntags: []\n---\n[a](../Attachments/x/a.pdf)\n";
    let marks = attachments_of(&path, bytes, &config);
    assert_eq!(marks.len(), 1);
    assert_eq!(marks[0].path, "Attachments/x/a.pdf");
    let mut facts = initialized();
    facts.tasks = vec![record(&path, bytes)];
    let found = report(&facts);
    assert!(found.valid);
    assert_eq!(found.warnings, 1);
    assert_eq!(found.issues[0].code, "attachment_missing");
    facts.tasks[0].attachments = vec![(
        marks[0].path.clone(),
        vec![Entry::Directory, Entry::Directory, Entry::File(3)],
    )];
    assert_eq!(report(&facts).warnings, 0);
    assert!(attachments_of(&path, b"nothing", &config).is_empty());
}

#[test]
fn reports_count_and_order_their_issues() {
    let report = ValidationReport::from_issues(
        vec![
            ValidationIssue::warning("b", "second").at_path("b"),
            ValidationIssue::error("c", "third").at_path("b").at_field("x"),
            ValidationIssue::error("a", "first").at_path("a"),
        ],
        4,
        5,
    );
    assert_eq!((report.errors, report.warnings), (2, 1));
    assert_eq!((report.tasks, report.projects), (4, 5));
    assert!(!report.valid);
    let codes = report
        .issues
        .iter()
        .map(|issue| issue.code.as_str())
        .collect::<Vec<_>>();
    assert_eq!(codes, ["a", "b", "c"]);
    let error = report.into_result().expect_err("errors");
    assert_eq!(error.kind(), ErrorKind::Validation);
    assert_eq!(
        error.message(),
        "Validation failed with 2 error(s) and 1 warning(s)"
    );
    assert!(ValidationReport::from_issues(Vec::new(), 0, 0)
        .into_result()
        .is_ok());
}
