use obsidian_todo::attachments::Entry;
use obsidian_todo::config::Config;
use obsidian_todo::error::Error;
use obsidian_todo::schema::{validate_schema, Schemas};
use obsidian_todo::store::{
    candidates, ensure_distinct, ensure_distinct_ids, ensure_project_file, ensure_real_directory,
    ensure_regular_file, is_hidden_name, project_record, read_config_source, read_project,
    read_task, resolve, validate_record_bytes, validate_relative_record_path, validate_root,
    validate_size, Candidate, FileSnapshot, Store, WalkEntry, WalkKind,
};

const FIRST_ID: &str = "01K4B0ZSBZZV25T1K0D3TA8JHR";
const SECOND_ID: &str = "01K4B0ZSBZZV25T1K0D3TA8JHS";
const DISTINCT_ID: &str = "01J3B0ZSBZZV25T1K0D3TA8JHR";

fn task_record(name: &str) -> Vec<u8> {
    format!("---\nname: {name}\nstate: open\nprojects: []\ntags: []\n---\n").into_bytes()
}

fn file(path: &str, depth: usize) -> WalkEntry {
    WalkEntry {
        path: path.to_owned(),
        kind: WalkKind::File,
        depth,
        utf8: true,
    }
}

fn found(ids: &[&str]) -> Vec<Candidate> {
    ids.iter()
        .map(|id| Candidate {
            id: (*id).to_owned(),
            path: format!("Tasks/{id}.md"),
        })
        .collect()
}

#[test]
fn a_store_knows_where_its_parts_are() {
    let store = Store::new("/vault/Todo".to_owned(), Config::defaults("Todo".to_owned()));
    let paths = store.paths();
    assert_eq!(store.root(), "/vault/Todo");
    assert_eq!(store.config().schema_version, 2);
    assert_eq!(paths.root, "/vault/Todo");
    assert_eq!(paths.config, "/vault/Todo/.todo/config.toml");
    assert_eq!(paths.schema, "/vault/Todo/.todo/schema.json");
    assert_eq!(paths.tasks, "/vault/Todo/Tasks");
    assert_eq!(paths.projects, "/vault/Todo/Projects");
}

#[test]
fn rejects_schema_that_only_claims_the_supported_version() {
    let whole = "{\"x-obsidian-todo-schema-version\":1,\"type\":\"object\"}";
    assert!(validate_schema(whole.as_bytes(), whole, 1).is_ok());
    let spaced = "{ \"type\": \"object\", \"x-obsidian-todo-schema-version\": 1 }";
    assert!(validate_schema(spaced.as_bytes(), whole, 1).is_ok());
    let error = validate_schema(b"{\"x-obsidian-todo-schema-version\":1}", whole, 1)
        .expect_err("incomplete schema must fail");
    assert_eq!(error.code(), "schema_version_mismatch");
    assert_eq!(error.exit_code(), 7);
    assert_eq!(
        validate_schema(whole.as_bytes(), whole, 2)
            .expect_err("version")
            .code(),
        "schema_version_mismatch"
    );
    let error = validate_schema(b"{\n  nope", whole, 1).expect_err("syntax");
    assert_eq!(error.code(), "invalid_schema_file");
    assert_eq!(error.line(), Some(2));
    assert_eq!(
        validate_schema(whole.as_bytes(), "{", 1)
            .expect_err("embedded")
            .code(),
        "invalid_embedded_schema"
    );
}

#[test]
fn schemas_are_picked_by_version() {
    let schemas = Schemas {
        first: "1".to_owned(),
        second: "2".to_owned(),
    };
    assert_eq!(schemas.embedded_schema(1).expect("first"), "1");
    assert_eq!(schemas.embedded_schema(2).expect("second"), "2");
    assert_eq!(
        schemas.embedded_schema(3).expect_err("third").exit_code(),
        7
    );
}

#[test]
fn rejects_managed_directory_symlink() {
    let error = ensure_real_directory("Tasks", &vec![Entry::Symlink])
        .expect_err("symlink must fail");
    assert_eq!(error.code(), "managed_path_symlink");
    assert!(
        ensure_real_directory("Data/Tasks", &vec![Entry::Directory, Entry::Directory]).is_ok()
    );
    assert!(ensure_real_directory("Data/Tasks", &vec![Entry::Directory, Entry::File(1)]).is_err());
    assert!(ensure_real_directory("Tasks", &vec![Entry::Missing]).is_err());
}

#[test]
fn detects_external_change_before_atomic_replacement() {
    let original = b"---\nname: Original\nstate: open\nprojects: []\ntags: []\n---\nbody\n";
    let snapshot = FileSnapshot::new("Tasks/a.md", original);
    assert_eq!(snapshot.path(), "Tasks/a.md");
    assert!(snapshot.ensure_unchanged(original).is_ok());
    let external = b"---\nname: External\nstate: open\nprojects: []\ntags: []\n---\nbody\n";
    let error = snapshot
        .ensure_unchanged(external)
        .expect_err("concurrent edit");
    assert_eq!(error.code(), "concurrent_modification");
    assert_eq!(error.exit_code(), 6);
}

#[test]
fn record_symlinks_are_never_followed() {
    let entry = WalkEntry {
        path: format!("Tasks/{FIRST_ID}.md"),
        kind: WalkKind::Symlink,
        depth: 1,
        utf8: true,
    };
    let error = candidates(&vec![entry], false).expect_err("symlink must fail");
    assert_eq!(error.code(), "record_symlink");
}

#[test]
fn dangling_project_record_symlinks_are_rejected() {
    let record = project_record("work", &Config::defaults("Todo".to_owned())).expect("record");
    assert_eq!(record.path, "Projects/work.md");
    let error = ensure_project_file(&record, &Entry::Symlink).expect_err("symlink must fail");
    assert_eq!(error.code(), "record_symlink");
    assert_eq!(
        ensure_project_file(&record, &Entry::Missing)
            .expect_err("missing")
            .code(),
        "project_not_found"
    );
    assert!(ensure_project_file(&record, &Entry::File(3)).is_ok());
    assert_eq!(
        project_record("No Slug", &Config::defaults(String::new()))
            .expect_err("slug")
            .code(),
        "invalid_project_slug"
    );
}

#[test]
fn lowercase_task_basenames_resolve_case_insensitively() {
    let lowercase = FIRST_ID.to_ascii_lowercase();
    let listed = candidates(&vec![file(&format!("Tasks/{lowercase}.md"), 1)], false)
        .expect("candidates");
    let chosen = resolve(&listed, &FIRST_ID[..6]).expect("resolve task");
    let task = read_task(
        &chosen,
        &task_record("Lowercase"),
        &Config::defaults("Todo".to_owned()),
    )
    .expect("task");
    assert_eq!(task.id, FIRST_ID);
    assert!(task.path.ends_with(&format!("{lowercase}.md")));
}

#[test]
fn resolves_unique_absent_and_ambiguous_task_prefixes() {
    let listed = found(&[FIRST_ID, SECOND_ID, DISTINCT_ID]);
    let unique = resolve(&listed, "01j3b0").expect("case-insensitive unique prefix");
    assert_eq!(unique.id, DISTINCT_ID);
    let absent = resolve(&listed, "01A000").expect_err("absent prefix");
    assert_eq!(absent.code(), "task_not_found");
    let ambiguous = resolve(&listed, "01K4B0").expect_err("ambiguous prefix");
    assert_eq!(ambiguous.code(), "ambiguous_task_id");
    assert_eq!(ambiguous.exit_code(), 4);
    assert!(ensure_distinct_ids(&listed).is_ok());
    let twice = found(&[FIRST_ID, DISTINCT_ID, FIRST_ID]);
    assert_eq!(
        ensure_distinct_ids(&twice).expect_err("twice").code(),
        "duplicate_task_id"
    );
    for id in [FIRST_ID, SECOND_ID] {
        assert_eq!(resolve(&listed, id).expect("whole").id, id);
    }
}

#[test]
fn records_are_listed_by_path() {
    let listed = candidates(
        &vec![
            file(&format!("Tasks/b/{SECOND_ID}.md"), 2),
            file("Tasks/readme.txt", 1),
            file(&format!("Tasks/a/{FIRST_ID}.md"), 2),
        ],
        false,
    )
    .expect("tasks");
    assert_eq!(
        listed
            .iter()
            .map(|candidate| candidate.id.as_str())
            .collect::<Vec<_>>(),
        [FIRST_ID, SECOND_ID]
    );
    let told = |entry: WalkEntry, project: bool| {
        candidates(&vec![entry], project)
            .expect_err("refused")
            .code()
    };
    assert_eq!(told(file("Tasks/nope.md", 1), false), "invalid_task_id");
    assert_eq!(told(file("Projects/a/b.md", 2), true), "nested_project");
    assert_eq!(told(file("Projects/B b.md", 1), true), "invalid_project_slug");
    let mut odd = file("Tasks/x.md", 1);
    odd.utf8 = false;
    assert_eq!(told(odd, false), "invalid_task_path");
    assert!(is_hidden_name(".editor.md"));
    assert!(!is_hidden_name("editor.md"));
}

#[test]
fn errors_in_records_name_the_record() {
    let candidate = Candidate {
        id: FIRST_ID.to_owned(),
        path: format!("Tasks/{FIRST_ID}.md"),
    };
    let config = Config::defaults("Todo".to_owned());
    let error = read_task(&candidate, b"nothing\n", &config).expect_err("record");
    assert_eq!(error.path(), Some(candidate.path.as_str()));
    let project = Candidate {
        id: "work".to_owned(),
        path: "Projects/work.md".to_owned(),
    };
    assert_eq!(
        read_project(&project, b"---\nname: Work\n---\n")
            .expect("project")
            .name,
        "Work"
    );
    let error = read_project(&project, b"---\n---\n").expect_err("record");
    assert_eq!(error.path(), Some("Projects/work.md"));
}

#[test]
fn the_parts_of_a_store_are_checked() {
    let code = |result: Result<(), Error>| result.expect_err("refused").code();
    assert!(validate_root("/r", &Entry::Directory).is_ok());
    assert_eq!(
        code(validate_root("/r", &Entry::Symlink)),
        "invalid_store_root"
    );
    assert!(ensure_regular_file(".todo/config.toml", &Entry::File(3)).is_ok());
    assert_eq!(
        code(ensure_regular_file(".todo/config.toml", &Entry::Missing)),
        "store_not_found"
    );
    assert!(ensure_distinct("/r/Tasks", "/r/Projects", "/r/.todo").is_ok());
    assert_eq!(
        code(ensure_distinct("/r/Tasks", "/r/Tasks/P", "/r/.todo")),
        "managed_paths_not_distinct"
    );
    assert!(validate_size(true, 10, 10, "task", "Tasks/a.md").is_ok());
    assert!(validate_size(true, 11, 10, "task", "Tasks/a.md").is_err());
    assert_eq!(read_config_source(b"a = 1").expect("text"), "a = 1");
    assert_eq!(
        read_config_source(b"\xff").expect_err("bytes").code(),
        "invalid_config_utf8"
    );
    assert!(validate_relative_record_path("Tasks/a.md").is_ok());
    assert_eq!(
        code(validate_relative_record_path("../a.md")),
        "path_escape"
    );
    assert!(validate_record_bytes(true, b"text", "Tasks/a.md").is_ok());
    assert_eq!(
        code(validate_record_bytes(true, b"\xff", "Tasks/a.md")),
        "invalid_utf8"
    );
}
