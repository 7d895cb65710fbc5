use obsidian_todo::config::{Config, State};
use obsidian_todo::frontmatter::{
    parse_document, parse_project, parse_project_link, parse_task, serialize_project,
    serialize_task, FrontMatterDocument, MAX_RECORD_BYTES, MAX_YAML_NODES,
};
use obsidian_todo::model::{Project, Task};
use obsidian_todo::scan::MAX_YAML_DEPTH;
use obsidian_todo::yaml::YamlFault;
use serde_yaml_ng::Value;

const ID: &str = "01K4B0ZSBZZV25T1K0D3TA8JHR";

fn config() -> Config {
    Config::defaults("Todo".to_owned())
}

fn task(source: &str) -> Task {
    parse_task(ID, "Tasks/example.md", source.as_bytes(), &config()).expect("valid task")
}

#[test]
fn accepts_lf_and_crlf_delimiters_and_rejects_malformed_forms() {
    assert_eq!(
        parse_document(b"---\r\nname: test\r\n---\r\nbody\r\n")
            .expect("CRLF")
            .body,
        "body\r\n"
    );
    for malformed in [
        b"name: test\n---\n".as_slice(),
        b"\n---\nname: test\n---\n".as_slice(),
        b"---\nname: test\n".as_slice(),
        b"---\nname: test\n---".as_slice(),
        b"\xef\xbb\xbf---\nname: test\n---\n".as_slice(),
    ] {
        assert!(parse_document(malformed).is_err());
    }
}
#[test]
fn distinguishes_yaml_syntax_from_frontmatter_type_errors() {
    assert!(parse_document(b"---\n# empty properties\n---\n")
        .expect("empty mapping")
        .properties
        .is_empty());
    assert_eq!(
        parse_document(b"---\n- item\n---\n")
            .expect_err("sequence root")
            .code(),
        "invalid_frontmatter_type"
    );
    assert_eq!(
        parse_document(b"---\nvalues: [\n---\n")
            .expect_err("malformed YAML")
            .code(),
        "invalid_yaml_syntax"
    );
}

#[test]
fn crlf_input_serializes_lf_front_matter_and_preserves_body_bytes() {
    let parsed =
        task("---\r\nname: Task\r\nstate: open\r\nprojects: []\r\ntags: []\r\n---\r\nbody\r\n");
    let serialized = String::from_utf8(serialize_task(&parsed, &config()).expect("serialize"))
        .expect("UTF-8");
    assert_eq!(
        serialized,
        "---\nname: \"Task\"\nstate: open\nprojects: []\ntags: []\n---\nbody\r\n"
    );
}

#[test]
fn duplicate_keys_are_rejected_at_every_depth() {
    for source in [
        "---\nname: one\nname: two\n---\n",
        "---\nplugin:\n  nested: one\n  nested: two\n---\n",
    ] {
        let error = parse_document(source.as_bytes()).expect_err("duplicate");
        assert_eq!(error.code(), "duplicate_yaml_key");
    }
}

#[test]
fn tags_anchors_aliases_and_merge_keys_are_rejected() {
    for source in [
        "---\nplugin: !thing value\n---\n",
        "---\nplugin: &anchor value\n---\n",
        "---\nplugin: *anchor\n---\n",
        "---\nplugin:\n  - key: value\n    other: &anchor payload\n    alias: *anchor\n---\n",
        "---\n? &anchor key\n: value\n---\n",
        "---\n'<<': { key: value }\n---\n",
    ] {
        assert!(parse_document(source.as_bytes()).is_err(), "{source}");
    }
    let tagged =
        parse_document(b"---\nplugin: !thing value\n---\n").expect_err("custom YAML tag");
    assert_eq!((tagged.line(), tagged.column()), (Some(2), Some(9)));
    let compact = parse_document(b"---\nplugin: {key:[&anchor value]}\n---\n")
        .expect_err("compact flow anchor");
    assert_eq!(compact.code(), "unsafe_yaml_construct");
}

#[test]
fn block_and_multiline_quoted_scalars_do_not_trigger_token_rejection() {
    let source = b"---\nname: Safe\nliteral: |-\n  !not-a-tag\n  &not-an-anchor\nfolded: >-\n  *not-an-alias\nquoted: \"line one\n  !still-text\"\nplain: first line\n  !still-plain-text\n---\n";
    let project =
        parse_project("safe", "Projects/safe.md", source).expect("safe scalars");
    let serialized = serialize_project(&project).expect("serialize safe scalars");
    let reparsed = parse_project("safe", "Projects/safe.md", &serialized)
        .expect("reparse safe scalars");
    assert_eq!(reparsed.extra_properties, project.extra_properties);
}

#[test]
fn non_finite_yaml_numbers_are_rejected_for_json_compatibility() {
    for number in [".nan", ".inf", "-.inf"] {
        let source = format!("---\nname: Safe\nplugin: {number}\n---\n");
        assert_eq!(
            parse_document(source.as_bytes())
                .expect_err("non-finite number")
                .code(),
            "invalid_yaml_number"
        );
    }
}

#[test]
fn yaml_ambiguous_state_ids_round_trip_as_strings() {
    for state in ["0", "true", "null"] {
        let mut config = config();
        config.states.push(State {
            id: state.to_owned(),
            name: state.to_owned(),
            terminal: false,
        });
        let source = format!(
            "---\nname: Task\nstate: {}\nprojects: []\ntags: []\n---\n",
            serde_json::to_string(state).expect("quote state")
        );
        let task = parse_task(
            ID,
            "Tasks/example.md",
            source.as_bytes(),
            &config,
        )
        .expect("parse");
        let serialized = serialize_task(&task, &config).expect("serialize");
        assert_eq!(
            parse_task(ID, "Tasks/example.md", &serialized, &config)
                .expect("reparse")
                .state,
            state
        );
    }
}

#[test]
fn writers_refuse_new_conflict_markers() {
    let mut parsed = task("---\nname: Task\nstate: open\nprojects: []\ntags: []\n---\n");
    parsed.body = "<<<<<<< ours\ntext\n=======\nother\n>>>>>>> theirs\n".to_owned();
    let error = serialize_task(&parsed, &config()).expect_err("conflicted body");
    assert_eq!(error.code(), "unresolved_conflict");
    assert_eq!(error.exit_code(), 6);

    for marker in ["<<<<<<<", "|||||||", "=======", ">>>>>>>"] {
        let source = format!("---\nname: Safe\n---\n{marker}\n");
        assert_eq!(
            parse_document(source.as_bytes())
                .expect_err("conflict marker")
                .code(),
            "unresolved_conflict"
        );
    }
}

#[test]
fn yaml_depth_and_node_counts_are_bounded() {
    let deeply_nested = format!(
        "---\nplugin: {}null{}\n---\n",
        "[".repeat(MAX_YAML_DEPTH + 1),
        "]".repeat(MAX_YAML_DEPTH + 1)
    );
    assert_eq!(
        parse_document(deeply_nested.as_bytes())
            .expect_err("excessive depth")
            .code(),
        "yaml_too_deep"
    );

    let mut deeply_indented = String::from("---\n");
    for depth in 0..=MAX_YAML_DEPTH {
        deeply_indented.push_str(&"  ".repeat(depth));
        deeply_indented.push_str("key:\n");
    }
    deeply_indented.push_str("---\n");
    assert_eq!(
        parse_document(deeply_indented.as_bytes())
            .expect_err("excessive block depth")
            .code(),
        "yaml_too_deep"
    );

    let mut many_nodes = String::with_capacity(MAX_YAML_NODES * 5 + 32);
    many_nodes.push_str("---\nplugin: [");
    for index in 0..MAX_YAML_NODES {
        if index != 0 {
            many_nodes.push(',');
        }
        many_nodes.push_str("null");
    }
    many_nodes.push_str("]\n---\n");
    assert_eq!(
        parse_document(many_nodes.as_bytes())
            .expect_err("excessive nodes")
            .code(),
        "yaml_too_complex"
    );
}
#[test]
fn project_links_reject_every_noncanonical_form() {
    let valid =
        "---\nname: Task\nstate: open\nprojects: [\"[[Todo/Projects/work]]\"]\ntags: []\n---\n";
    assert_eq!(task(valid).projects, ["work"]);
    for link in [
        "[[Other/Projects/work]]",
        "[[Todo/Projects/work|Work]]",
        "[[Todo/Projects/work#heading]]",
        "[[Todo/Projects/work^block]]",
        "[[Todo/Projects/work.md]]",
        "[[Todo/Projects/Work]]",
        "[[Todo/Projects/nested/work]]",
    ] {
        let source = format!(
            "---\nname: Task\nstate: open\nprojects: [{}]\ntags: []\n---\n",
            serde_json::to_string(link).expect("quote link")
        );
        let error = parse_task(
            ID,
            "Tasks/example.md",
            source.as_bytes(),
            &config(),
        )
        .expect_err("noncanonical link");
        assert_eq!(error.code(), "invalid_project_link", "{link}");
    }
}

#[test]
fn metadata_edit_preserves_body_and_unknown_values() {
    let source = "---\nname: Original\nstate: open\nprojects: []\ntags: []\nplugin-map:\n  enabled: true\n  values: [1, two, null]\nplugin-scalar: 42\n---\nBody with --- inside.\r\n```yaml\r\nstate: fake\r\n```\r\n";
    let mut parsed = task(source);
    let original_extras = parsed.extra_properties.clone();
    let original_body = parsed.body.clone();
    parsed.state = "active".to_owned();
    let serialized = serialize_task(&parsed, &config()).expect("serialize");
    let reparsed =
        parse_task(ID, "Tasks/example.md", &serialized, &config()).expect("reparse");
    assert_eq!(reparsed.extra_properties, original_extras);
    assert_eq!(reparsed.body, original_body);
    assert!(String::from_utf8(serialized)
        .expect("UTF-8")
        .starts_with("---\n"));
}

#[test]
fn writer_orders_core_fields_and_quotes_links_and_recurrence() {
    let source = "---\ntags: [review]\nprojects: [\"[[Todo/Projects/work]]\"]\nstate: open\nname: Review\ndue_date: 2026-09-07\nrecurrence_from: schedule\nrecurrence: FREQ=WEEKLY;BYDAY=MO\n---\nbody\n";
    let serialized =
        String::from_utf8(serialize_task(&task(source), &config()).expect("write"))
            .expect("UTF-8");
    assert!(serialized.starts_with(
        "---\nname: \"Review\"\nstate: open\nprojects:\n  - \"[[Todo/Projects/work]]\"\ntags:\n  - \"review\"\ndue_date: 2026-09-07\nrecurrence: \"FREQ=WEEKLY;INTERVAL=1;BYDAY=MO\"\nrecurrence_from: schedule\n"
    ));
    assert!(!serialized.contains("\nid:"));
    assert!(!serialized.contains("# Review"));
}

#[test]
fn project_round_trip_preserves_unknown_properties() {
    let source = b"---\nname: Work\nstatus: planning\nplugin: {color: blue}\n---\n# Notes\n";
    let project = parse_project("work", "Projects/work.md", source).expect("parse");
    let output = serialize_project(&project).expect("serialize");
    let reparsed =
        parse_project("work", "Projects/work.md", &output).expect("reparse");
    assert_eq!(reparsed.extra_properties, project.extra_properties);
    assert_eq!(reparsed.body, "# Notes\n");
}
#[test]
fn oversized_input_and_serialized_records_are_rejected() {
    let input = vec![b'x'; MAX_RECORD_BYTES + 1];
    assert_eq!(
        parse_document(&input).expect_err("oversized input").code(),
        "record_too_large"
    );

    let mut parsed = task("---\nname: Task\nstate: open\nprojects: []\ntags: []\n---\n");
    parsed.body = "x".repeat(MAX_RECORD_BYTES);
    assert_eq!(
        serialize_task(&parsed, &config())
            .expect_err("oversized output")
            .code(),
        "record_too_large"
    );
}

#[test]
fn v2_reserved_parent_extra_cannot_override_typed_relationship() {
    let mut parsed = task("---\nname: Task\nstate: open\nprojects: []\ntags: []\n---\n");
    parsed
        .extra_properties
        .insert(Value::String("parent".to_owned()), Value::Null);
    let error = serialize_task(&parsed, &config()).expect_err("reserved parent");
    assert_eq!(error.code(), "reserved_extra_property");
    assert_eq!(error.field(), Some("parent"));
    let mut legacy = config();
    legacy.schema_version = 1;
    let bytes = serialize_task(&parsed, &legacy).expect("legacy metadata");
    let reparsed = parse_task(ID, &parsed.path, &bytes, &legacy).expect("legacy");
    assert_eq!(reparsed.extra_properties.get("parent"), Some(&Value::Null));
    assert_eq!(reparsed.parent, None);
    parsed.parent = Some(ID.to_owned());
    assert_eq!(
        serialize_task(&parsed, &legacy)
            .expect_err("no typed v1 relationship")
            .code(),
        "unsupported_schema"
    );
}

#[test]
fn the_parents_of_records_follow_the_schema_version() {
    let source = "---\nname: Task\nstate: open\nprojects: []\ntags: []\nparent: 01k4b0zsbzzv25t1k0d3ta8jhs\nplugin: {a: [1, null]}\n---\nraw\r\nbody  ";
    let parsed = task(source);
    assert_eq!(parsed.parent.as_deref(), Some("01K4B0ZSBZZV25T1K0D3TA8JHS"));
    let bytes = serialize_task(&parsed, &config()).expect("serialize");
    let text = String::from_utf8(bytes.clone()).expect("UTF-8");
    assert!(text.contains("tags: []\nparent: \"01K4B0ZSBZZV25T1K0D3TA8JHS\"\nplugin:"));
    let again = parse_task(ID, "Tasks/example.md", &bytes, &config()).expect("again");
    assert_eq!(again, parsed);
    assert_eq!(again.body, "raw\r\nbody  ");
    let mut first = config();
    first.schema_version = 1;
    let flat = parse_task(ID, "Tasks/example.md", source.as_bytes(), &first).expect("flat");
    assert_eq!(flat.parent, None);
    assert!(flat.extra_properties.get("parent").is_some());
    for value in ["[a]", "null", "12", "short"] {
        let source = format!("---\nname: Task\nstate: open\nprojects: []\ntags: []\nparent: {value}\n---\n");
        let error = parse_task(ID, "Tasks/example.md", source.as_bytes(), &config())
            .expect_err("no parent");
        assert_eq!(error.code(), "invalid_parent_id");
        assert_eq!(error.field(), Some("parent"));
    }
}

#[test]
fn written_tasks_are_read_as_they_were() {
    let source = "---\nname: \"A \\\"quoted\\\" \\\\ näme 任务 # : &x *y !z\"\nstate: active\nprojects: [\"[[Todo/Projects/b]]\", \"[[Todo/Projects/a]]\"]\ntags: [z, '&t', \"*u\"]\nurl: https://example.test/a?b=c#d\ndue_date: 2026-09-07\ndue_time: '09:30'\nrecurrence: FREQ=DAILY\nrecurrence_from: completion\nlast_completed_date: 2026-09-01\n---\n---\nbody\n";
    let parsed = task(source);
    let bytes = serialize_task(&parsed, &config()).expect("serialize");
    let again = parse_task(ID, "Tasks/example.md", &bytes, &config()).expect("again");
    assert_eq!(again.projects, ["a", "b"]);
    assert_eq!(again.tags, ["&t", "*u", "z"]);
    assert_eq!(again.name, parsed.name);
    assert_eq!(again.url, parsed.url);
    assert_eq!(again.due_date, parsed.due_date);
    assert_eq!(again.due_time, parsed.due_time);
    assert_eq!(again.recurrence, parsed.recurrence);
    assert_eq!(again.recurrence_from, parsed.recurrence_from);
    assert_eq!(again.last_completed_date, parsed.last_completed_date);
    assert_eq!(again.body, "---\nbody\n");
    assert_eq!(
        serialize_task(&again, &config()).expect("once more"),
        bytes
    );
}

#[test]
fn required_properties_are_told_by_name() {
    for (source, code, field) in [
        ("state: open\nprojects: []\ntags: []", "missing_property", "name"),
        ("name: a\nprojects: []\ntags: []", "missing_property", "state"),
        ("name: a\nstate: open\ntags: []", "missing_property", "projects"),
        ("name: a\nstate: open\nprojects: []", "missing_property", "tags"),
        ("name: [a]\nstate: open\nprojects: []\ntags: []", "invalid_property_type", "name"),
        ("name: a\nstate: open\nprojects: []\ntags: b", "invalid_property_type", "tags"),
        ("name: a\nstate: open\nprojects: []\ntags: [1]", "invalid_property_type", "tags"),
        ("name: a\nstate: gone\nprojects: []\ntags: []", "unknown_state", "state"),
        ("id: x\nname: a\nstate: open\nprojects: []\ntags: []", "redundant_id_property", "id"),
        (
            "name: a\nstate: open\nprojects: []\ntags: []\ndue_time: '09:00'",
            "due_time_requires_due_date",
            "due_time",
        ),
    ] {
        let error = parse_task(
            ID,
            "Tasks/example.md",
            format!("---\n{source}\n---\n").as_bytes(),
            &config(),
        )
        .expect_err(source);
        assert_eq!((error.code(), error.field()), (code, Some(field)), "{source}");
    }
}

#[test]
fn links_to_projects_lead_back() {
    for slug in ["work", "a-1"] {
        assert_eq!(
            parse_project_link(&config().project_link(slug), &config()).expect("link"),
            slug
        );
    }
}

#[test]
fn the_place_of_a_yaml_fault_counts_the_delimiter() {
    let error = FrontMatterDocument::from_yaml(
        "a: [",
        String::new(),
        Err(YamlFault {
            message: "duplicate entry with key \"a\"".to_owned(),
            place: Some((3, 4)),
        }),
    )
    .expect_err("fault");
    assert_eq!(error.code(), "duplicate_yaml_key");
    assert_eq!((error.line(), error.column()), (Some(4), Some(4)));
    let document = FrontMatterDocument::from_yaml("# none\n", "b".to_owned(), Ok(Value::Null))
        .expect("comments");
    assert!(document.properties.is_empty());
    assert_eq!(document.body, "b");
}

#[test]
fn text_that_is_not_utf8_is_refused() {
    let error = parse_document(b"---\nname: \xff\n---\n").expect_err("bytes");
    assert_eq!(error.code(), "invalid_utf8");
}

#[test]
fn projects_are_written_with_their_name_first() {
    let project = Project {
        slug: "work".to_owned(),
        path: "Projects/work.md".to_owned(),
        name: "Work".to_owned(),
        body: "Notes\n".to_owned(),
        extra_properties: serde_yaml_ng::Mapping::new(),
    };
    assert_eq!(
        serialize_project(&project).expect("serialize"),
        b"---\nname: \"Work\"\n---\nNotes\n"
    );
}

#[test]
fn names_with_odd_characters_are_read_as_they_were() {
    for name in [
        "quote \" and backslash \\",
        "tab\tand bell\u{7} and nul\u{0}",
        "  spaces around  ",
        "# no comment: [not] {a} *list* & more",
        "\u{a0}é 😀 \u{feff}\u{fffd}",
        "~",
    ] {
        let mut written = task("---\nname: Old\nstate: active\nprojects: []\ntags: []\n---\nbody\n");
        written.name = name.to_owned();
        let bytes = serialize_task(&written, &config()).expect("serialize");
        let read = parse_task(ID, "Tasks/example.md", &bytes, &config()).expect("read back");
        assert_eq!(read.name, name);
        assert_eq!(read.body, "body\n");

        let project = Project {
            slug: "work".to_owned(),
            path: "Projects/work.md".to_owned(),
            name: name.to_owned(),
            body: String::new(),
            extra_properties: serde_yaml_ng::Mapping::new(),
        };
        let bytes = serialize_project(&project).expect("serialize");
        let read = parse_project("work", "Projects/work.md", &bytes).expect("read back");
        assert_eq!(read.name, name);
    }
}

#[test]
fn every_property_of_a_task_is_read_as_it_was() {
    let source = "---\nname: \"All\"\nstate: active\nprojects:\n  - \"[[Todo/Projects/home]]\"\n  - \"[[Todo/Projects/work]]\"\ntags:\n  - \"a\"\n  - \"b/c\"\nparent: \"01K4B0ZSBZZV25T1K0D3TA8JHS\"\nurl: \"https://example.com/x\"\ndue_date: 2026-09-09\ndue_time: \"08:30\"\nrecurrence: \"FREQ=WEEKLY;INTERVAL=2;BYDAY=WE\"\nrecurrence_from: schedule\nlast_completed_date: 2026-09-02\n---\nbody\n";
    let read = task(source);
    let bytes = serialize_task(&read, &config()).expect("serialize");
    assert_eq!(String::from_utf8(bytes).expect("UTF-8"), source);
}

#[test]
fn a_property_beside_the_own_is_written_in_single_quotes_and_read_back() {
    for (value, line) in [
        ("[[Todo/todos.base]]", "base: '[[Todo/todos.base]]'\n"),
        ("[it's é ~]", "base: '[it''s é ~]'\n"),
        ("['']", "base: '['''']'\n"),
    ] {
        let mut written =
            task("---\nname: \"A\"\nstate: active\nprojects: []\ntags: []\n---\nbody\n");
        written
            .extra_properties
            .insert(Value::from("base"), Value::from(value));
        let bytes = serialize_task(&written, &config()).expect("serialize");
        let text = String::from_utf8(bytes.clone()).expect("UTF-8");
        assert_eq!(
            text,
            format!("---\nname: \"A\"\nstate: active\nprojects: []\ntags: []\n{line}---\nbody\n")
        );
        let read = parse_task(ID, "Tasks/example.md", &bytes, &config()).expect("read back");
        assert_eq!(read.extra_properties, written.extra_properties);
        assert_eq!(read.body, "body\n");
    }
}

#[test]
fn many_properties_beside_the_own_are_read_back() {
    let source = "---\nname: A\nstate: active\nprojects: []\ntags: []\nplugin: {a: [1, 2.5, null, true], b: \"it's # odd: x\"}\nother: \"line\\nline\"\n---\nbody\n";
    let read = task(source);
    let bytes = serialize_task(&read, &config()).expect("serialize");
    let again = parse_task(ID, "Tasks/example.md", &bytes, &config()).expect("read back");
    assert_eq!(again.extra_properties, read.extra_properties);
    assert_eq!(again.body, read.body);
}

#[test]
fn a_due_date_may_be_null() {
    let read =
        task("---\nname: A\nstate: active\nprojects: []\ntags: []\ndue_date: null\n---\n");
    assert_eq!(read.due_date, None);
    assert!(read.extra_properties.is_empty());
    let refused = parse_task(
        ID,
        "Tasks/example.md",
        b"---\nname: A\nstate: active\nprojects: []\ntags: []\ndue_date: true\n---\n",
        &config(),
    )
    .expect_err("no date");
    assert_eq!(refused.code(), "invalid_property_type");
}

#[test]
fn words_and_bracketed_texts_are_written_on_one_line_each() {
    let mut written = task("---\nname: \"A\"\nstate: active\nprojects: []\ntags: []\n---\n");
    for (key, value) in [
        ("plugin", "some_word-2"),
        ("seen", "2026-01-01"),
        ("base", "[[todos.base]]"),
        ("mode", "yes"),
    ] {
        written
            .extra_properties
            .insert(Value::from(key), Value::from(value));
    }
    let bytes = serialize_task(&written, &config()).expect("serialize");
    assert_eq!(
        String::from_utf8(bytes.clone()).expect("UTF-8"),
        "---\nname: \"A\"\nstate: active\nprojects: []\ntags: []\nplugin: some_word-2\nseen: 2026-01-01\nbase: '[[todos.base]]'\nmode: yes\n---\n"
    );
    let read = parse_task(ID, "Tasks/example.md", &bytes, &config()).expect("read back");
    assert_eq!(read.extra_properties, written.extra_properties);
}

#[test]
fn scalars_and_lists_beside_the_own_are_written_line_by_line_and_read_back() {
    let mut written = task("---\nname: \"A\"\nstate: active\nprojects: []\ntags: []\n---\nbody\n");
    for (key, value) in [
        ("estimate", Value::from(90)),
        ("drift", Value::from(-7)),
        ("ratio", Value::from(2.5)),
        ("pinned", Value::from(true)),
        ("cleared", Value::Null),
        ("my-key", Value::from("two words")),
        ("note", Value::from("b: c")),
        ("word", Value::from("true")),
        ("digits", Value::from("123")),
        ("blank", Value::from("")),
        ("face", Value::from("😀 it's")),
        ("mark", Value::from("# x")),
        ("dash", Value::from("- x")),
        ("wide", Value::from(" x ")),
        ("none", Value::Sequence(vec![])),
        (
            "some",
            Value::Sequence(vec![
                Value::from("a"),
                Value::from("b: c"),
                Value::from(3),
                Value::Null,
            ]),
        ),
    ] {
        written.extra_properties.insert(Value::from(key), value);
    }
    let bytes = serialize_task(&written, &config()).expect("serialize");
    assert_eq!(
        String::from_utf8(bytes.clone()).expect("UTF-8"),
        "---\nname: \"A\"\nstate: active\nprojects: []\ntags: []\nestimate: 90\ndrift: -7\nratio: 2.5\npinned: true\ncleared: null\nmy-key: two words\nnote: 'b: c'\nword: 'true'\ndigits: '123'\nblank: ''\nface: 😀 it's\nmark: '# x'\ndash: '- x'\nwide: ' x '\nnone: []\nsome:\n- a\n- 'b: c'\n- 3\n- null\n---\nbody\n"
    );
    let read = parse_task(ID, "Tasks/example.md", &bytes, &config()).expect("read back");
    assert_eq!(read.extra_properties, written.extra_properties);
    assert_eq!(read.body, "body\n");
}

#[test]
fn nested_values_beside_the_own_are_read_back() {
    let source = "---\nname: A\nstate: active\nprojects: []\ntags: []\nplugin: {view: {columns: [a b, 2], wide: false}, rows: [[1], []]}\n---\nbody\n";
    let read = task(source);
    let bytes = serialize_task(&read, &config()).expect("serialize");
    let again = parse_task(ID, "Tasks/example.md", &bytes, &config()).expect("read back");
    assert_eq!(again.extra_properties, read.extra_properties);
    assert_eq!(again.body, read.body);
}

#[test]
fn a_bare_text_that_the_scan_takes_for_an_anchor_does_not_come_back() {
    let mut written = task("---\nname: \"A\"\nstate: active\nprojects: []\ntags: []\n---\n");
    written
        .extra_properties
        .insert(Value::from("odd"), Value::from(":&x"));
    let bytes = serialize_task(&written, &config()).expect("serialize");
    assert!(String::from_utf8(bytes.clone())
        .expect("UTF-8")
        .contains("odd: :&x\n"));
    assert!(parse_task(ID, "Tasks/example.md", &bytes, &config()).is_err());
}
