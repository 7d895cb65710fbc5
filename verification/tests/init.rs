use obsidian_todo::commands::init::{
    initialize, inspect_existing_layout, normalize_absolute, relative_link_prefix, todos_base,
    validate_initialized_layout, InitFacts, InitOptions, LayoutEntry, LayoutFacts, MadeFacts,
    PlaceFacts, VaultFacts,
};
use obsidian_todo::config::Config;
use obsidian_todo::discovery::Look;

const SCHEMA: &str = "{\"x-obsidian-todo-schema-version\":2}";

fn options(store: &str, vault: Option<&str>, adopt: bool, dry_run: bool) -> InitOptions {
    InitOptions {
        store_path: store.to_owned(),
        vault_root: vault.map(|root| root.to_owned()),
        current_directory: "/vault".to_owned(),
        adopt_empty_layout: adopt,
        dry_run,
    }
}

fn empty_layout() -> LayoutFacts {
    LayoutFacts {
        configured: false,
        exists: false,
        entries: Ok(Vec::new()),
    }
}

fn facts(depth: usize) -> InitFacts {
    let mut above = vec![false; depth];
    above.push(true);
    InitFacts {
        current: Ok("/vault".to_owned()),
        vault: VaultFacts {
            look: Look::Directory,
            resolved: Ok("/vault".to_owned()),
            ancestors: vec![
                ("/vault".to_owned(), Look::Directory),
                ("/".to_owned(), Look::Missing),
            ],
        },
        place: PlaceFacts {
            exists: false,
            look: Look::Directory,
            resolved: Ok("/vault".to_owned()),
            above,
        },
        layout: empty_layout(),
    }
}

fn entry(name: &str, empty: bool) -> LayoutEntry {
    LayoutEntry {
        name: name.to_owned(),
        path: format!("/vault/Todo/{name}"),
        directory: Ok(true),
        symlink: false,
        empty: Ok(empty),
    }
}

#[test]
fn dry_run_makes_no_changes() {
    let (plan, _) = initialize(&options("Todo", None, false, true), facts(0)).expect("dry run");
    assert!(plan.dry_run);
    assert_eq!(plan.store_root, "/vault/Todo");
    assert_eq!(plan.obsidian_link_prefix, "Todo");
}

#[test]
fn initializes_only_inside_vault() {
    let (plan, source) = initialize(
        &options("Area/./Todo", Some("/vault"), false, false),
        facts(1),
    )
    .expect("initialize");
    assert_eq!(plan.obsidian_link_prefix, "Area/Todo");
    assert_eq!(
        plan.directories,
        [
            "/vault/Area/Todo/.todo",
            "/vault/Area/Todo/Tasks",
            "/vault/Area/Todo/Projects"
        ]
    );
    assert_eq!(
        plan.files,
        [
            "/vault/Area/Todo/.todo/config.toml",
            "/vault/Area/Todo/.todo/schema.json",
            "/vault/Area/Todo/todos.base"
        ]
    );
    let config = Config::parse(&source).expect("valid config");
    assert_eq!(config.obsidian_link_prefix, "Area/Todo");
    let made = MadeFacts {
        directories: vec![Look::Directory, Look::Directory, Look::Directory],
        config: Ok(source),
        schema: Ok(SCHEMA.as_bytes().to_vec()),
    };
    assert!(validate_initialized_layout(&plan, &config, &made).is_ok());
}

#[test]
fn rejects_store_outside_vault() {
    let mut found = facts(0);
    found.place.resolved = Ok("/elsewhere".to_owned());
    let error = initialize(&options("/elsewhere/outside", Some("vault"), false, false), found)
        .expect_err("outside vault");
    assert_eq!(error.code(), "store_outside_vault");
}

#[test]
fn adopts_only_empty_default_layout() {
    let layout = |entries: Vec<LayoutEntry>| LayoutFacts {
        configured: false,
        exists: true,
        entries: Ok(entries),
    };
    let default = || vec![entry(".todo", true), entry("Tasks", true), entry("Projects", true)];
    assert!(inspect_existing_layout("/vault/Todo", layout(default()), true).is_ok());
    let code = |found: LayoutFacts, adopt: bool| {
        inspect_existing_layout("/vault/Todo", found, adopt)
            .expect_err("refused")
            .code()
    };
    assert_eq!(code(layout(default()), false), "store_not_empty");
    assert_eq!(
        code(layout(vec![entry("notes", true)]), true),
        "store_contains_unmanaged_content"
    );
    assert_eq!(
        code(layout(vec![entry("Tasks", false)]), true),
        "managed_directory_not_empty"
    );
    let mut link = entry("Tasks", true);
    link.symlink = true;
    assert_eq!(
        code(layout(vec![link]), true),
        "store_contains_unmanaged_content"
    );
    let mut configured = layout(default());
    configured.configured = true;
    assert_eq!(code(configured, true), "store_already_initialized");
    assert!(inspect_existing_layout("/vault/Todo", empty_layout(), false).is_ok());
    let error = inspect_existing_layout(
        "/vault/Todo",
        layout(vec![entry("b", true), entry("a", true)]),
        true,
    )
    .expect_err("first by name");
    assert_eq!(error.path(), Some("/vault/Todo/a"));
}

#[test]
fn paths_are_followed_from_the_root() {
    assert_eq!(
        normalize_absolute("/a/./b/../c//d").expect("path"),
        ["a", "c", "d"]
    );
    assert_eq!(
        normalize_absolute("/a/../..").expect_err("above").message(),
        "Path traversal escapes the filesystem root"
    );
    assert!(normalize_absolute("a/b").is_err());
    assert_eq!(
        relative_link_prefix("/vault/Area/Todo", "/vault").expect("prefix"),
        "Area/Todo"
    );
    assert_eq!(relative_link_prefix("/vault", "/vault").expect("prefix"), "");
    assert_eq!(
        relative_link_prefix("/other", "/vault")
            .expect_err("outside")
            .code(),
        "store_outside_vault"
    );
}

#[test]
fn what_is_in_the_way_of_a_store_is_told() {
    let code = |options: InitOptions, facts: InitFacts| {
        initialize(&options, facts).expect_err("refused").code()
    };
    let mut found = facts(0);
    found.vault.ancestors = vec![("/".to_owned(), Look::Missing)];
    assert_eq!(
        code(options("Todo", None, false, false), found),
        "vault_not_found"
    );
    let mut found = facts(0);
    found.vault.look = Look::Symlink;
    assert_eq!(
        code(options("Todo", Some("/v"), false, false), found),
        "invalid_vault_root"
    );
    let mut found = facts(0);
    found.place.above = Vec::new();
    assert_eq!(
        code(options("Todo", None, false, false), found),
        "invalid_store_path"
    );
    let mut found = facts(0);
    found.place.look = Look::File;
    assert_eq!(
        code(options("Todo", None, false, false), found),
        "invalid_store_path"
    );
    let mut found = facts(0);
    found.place.exists = true;
    found.place.look = Look::Symlink;
    assert_eq!(
        code(options("Todo", None, false, false), found),
        "store_path_symlink"
    );
    let mut found = facts(0);
    found.current = Err("gone".to_owned());
    assert_eq!(
        code(options("Todo", None, false, false), found),
        "io_error"
    );
}

#[test]
fn a_store_that_was_made_otherwise_is_told() {
    let (plan, source) = initialize(&options("Todo", None, false, false), facts(0)).expect("plan");
    let config = Config::parse(&source).expect("config");
    let made = |looks: Vec<Look>, source: &str, schema: &str| MadeFacts {
        directories: looks,
        config: Ok(source.to_owned()),
        schema: Ok(schema.as_bytes().to_vec()),
    };
    let all = || vec![Look::Directory, Look::Directory, Look::Directory];
    let code = |facts: MadeFacts| {
        validate_initialized_layout(&plan, &config, &facts)
            .expect_err("refused")
            .code()
    };
    assert_eq!(
        code(made(vec![Look::Directory], &source, SCHEMA)),
        "invalid_initialized_layout"
    );
    let other = source.replacen("\"Todo\"", "\"Other\"", 1);
    assert_eq!(
        code(made(all(), &other, SCHEMA)),
        "initialized_config_mismatch"
    );
    assert_eq!(
        code(made(all(), &source, "{\"x-obsidian-todo-schema-version\":1}")),
        "schema_version_mismatch"
    );
    assert_eq!(code(made(all(), &source, "{")), "invalid_schema_file");
}

#[test]
fn the_table_of_tasks_shows_the_notes_that_link_to_it() {
    assert_eq!(
        todos_base("Todo"),
        r#"filters: "base == link(\"Todo/todos.base\")"
formulas:
  todo: "file.asLink(name)"
properties:
  formula.todo:
    displayName: Todo
  parent:
    displayName: Parent
  due_date:
    displayName: Due
  recurrence_from:
    displayName: Recurrence mode
  last_completed_date:
    displayName: Last completed
views:
  - type: table
    name: Todos
    order:
      - formula.todo
      - state
      - due_date
      - projects
      - tags
      - parent
      - recurrence
      - recurrence_from
      - last_completed_date
"#
    );
    assert!(todos_base("").starts_with("filters: \"base == link(\\\"todos.base\\\")\"\n"));
}
