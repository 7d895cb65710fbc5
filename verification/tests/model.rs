use obsidian_todo::calendar::{Date, Time};
use obsidian_todo::model::{
    date_from_yaml, normalize_body, normalize_parent_id, parse_time, relative_path_string,
    validate_id_prefix, validate_name, validate_project_slug, validate_tag, validate_tags,
    validate_task_id, validate_unique_projects, Clock, FixedClock,
};
use obsidian_todo::parents::{analyze_parents, ensure_valid_relations, ParentRecord};
use ulid::Ulid;

fn texts(values: &[&str]) -> Vec<String> {
    values.iter().map(|value| (*value).to_owned()).collect()
}

fn record(id: &str, parent: Option<&str>) -> ParentRecord {
    ParentRecord {
        id: id.to_owned(),
        path: format!("Tasks/{id}.md"),
        parent: parent.map(|parent| parent.to_owned()),
    }
}

#[test]
fn names_are_nonempty_single_lines() {
    for invalid in ["", "  \t", "one\ntwo", "one\rtwo"] {
        assert!(validate_name(invalid, "name").is_err(), "{invalid:?}");
    }
    assert!(validate_name("  meaningful  ", "name").is_ok());
    assert!(validate_name("Unicode 任务", "name").is_ok());
}

#[test]
fn validates_tags_without_renaming_unicode_or_case() {
    for valid in ["Finance", "nested/review", "hash#inside", "日本語"] {
        assert!(validate_tag(valid).is_ok(), "{valid}");
    }
    for invalid in ["", "#tag", "two words", "comma,tag", "[[link]]", "line\n"] {
        assert!(validate_tag(invalid).is_err(), "{invalid:?}");
    }
}

#[test]
fn lists_of_tags_and_projects_have_no_repeats() {
    assert!(validate_tags(&texts(&["a", "b", "A"])).is_ok());
    assert_eq!(
        validate_tags(&texts(&["a", "b", "a"]))
            .expect_err("repeat")
            .code(),
        "duplicate_tag"
    );
    assert!(validate_unique_projects(&texts(&["a", "b"])).is_ok());
    assert_eq!(
        validate_unique_projects(&texts(&["a", "b", "a"]))
            .expect_err("repeat")
            .code(),
        "duplicate_project"
    );
}

#[test]
fn validates_slugs_and_ulids() {
    for slug in ["a", "project-2", "0"] {
        assert!(validate_project_slug(slug).is_ok(), "{slug}");
    }
    for slug in ["", "Project", "-project", "with_underscore", "é"] {
        assert!(validate_project_slug(slug).is_err(), "{slug}");
    }
    assert!(validate_task_id("01K4B0ZSBZZV25T1K0D3TA8JHR").is_ok());
    assert!(validate_task_id("01k4b0zsbzzv25t1k0d3ta8jhr").is_ok());
    assert!(validate_task_id("81K4B0ZSBZZV25T1K0D3TA8JHR").is_err());
    assert!(validate_task_id("01K4B0ZSBZZV25T1K0D3TA8JRI").is_err());
}

#[test]
fn prefixes_are_case_insensitive_and_at_least_six_characters() {
    assert_eq!(validate_id_prefix("01k4b0").expect("prefix"), "01K4B0");
    assert!(validate_id_prefix("01K4B").is_err());
    assert!(validate_id_prefix("01K4BI").is_err());
}

#[test]
fn whole_ids_are_prefixes() {
    let id = "01K4B0ZSBZZV25T1K0D3TA8JHR";
    assert_eq!(validate_id_prefix(id).expect("whole"), id);
}

#[test]
fn supplied_bodies_get_lf_and_one_trailing_newline() {
    assert_eq!(normalize_body("one\r\ntwo\r\n\r\n"), "one\ntwo\n");
    assert_eq!(normalize_body(""), "");
}

#[test]
fn normalizing_a_body_again_changes_nothing() {
    for body in ["", "a", "a\r\r\nb", "\n\n", "a\rb\n"] {
        let once = normalize_body(body);
        assert_eq!(normalize_body(&once), once, "{body:?}");
    }
}

#[test]
fn parent_arguments_require_full_unpadded_ulids() {
    assert_eq!(
        normalize_parent_id("01k4b0zsbzzv25t1k0d3ta8jhr").expect("parent"),
        "01K4B0ZSBZZV25T1K0D3TA8JHR"
    );
    for invalid in [
        "",
        "none",
        "01K4B0",
        " 01K4B0ZSBZZV25T1K0D3TA8JHR",
        "01K4B0ZSBZZV25T1K0D3TA8JHR ",
        "[[01K4B0ZSBZZV25T1K0D3TA8JHR]]",
        "Tasks/01K4B0ZSBZZV25T1K0D3TA8JHR.md",
        "81K4B0ZSBZZV25T1K0D3TA8JHR",
        "01K4B0ZSBZZV25T1K0D3TA8JRI",
    ] {
        let error = normalize_parent_id(invalid).expect_err(invalid);
        assert_eq!(error.code(), "invalid_parent_id");
        assert_eq!(error.field(), Some("parent"));
        assert_eq!(error.exit_code(), 5);
    }
}

#[test]
fn parents_that_are_missing_or_in_a_circle_are_told() {
    const A: &str = "00000000000000000000000001";
    const B: &str = "00000000000000000000000002";
    const C: &str = "00000000000000000000000003";
    let told = |records: &[ParentRecord]| {
        analyze_parents(records)
            .into_iter()
            .map(|issue| (issue.code, issue.path.expect("path")))
            .collect::<Vec<_>>()
    };
    assert!(told(&[record(A, None), record(B, Some(A))]).is_empty());
    assert_eq!(
        told(&[record(A, Some(C)), record(B, Some(A))]),
        [(
            "missing_parent_reference".to_owned(),
            format!("Tasks/{A}.md")
        )]
    );
    assert_eq!(
        told(&[record(A, Some(A))]),
        [("self_parent_reference".to_owned(), format!("Tasks/{A}.md"))]
    );
    assert_eq!(
        told(&[record(C, Some(B)), record(A, Some(B)), record(B, Some(A))]),
        [
            ("parent_cycle".to_owned(), format!("Tasks/{A}.md")),
            ("parent_cycle".to_owned(), format!("Tasks/{B}.md")),
        ]
    );
    assert!(ensure_valid_relations(&[record(A, None), record(B, Some(A))]).is_ok());
    assert_eq!(
        ensure_valid_relations(&[record(A, Some(A))])
            .expect_err("circle")
            .code(),
        "self_parent_reference"
    );
}

#[test]
fn deep_parent_walk_reports_only_cycle_members_and_detach_repairs_it() {
    const DEPTH: usize = 30_000;
    let mut records = (0..DEPTH)
        .map(|index| {
            let id = Ulid::from(index as u128).to_string();
            let parent = if index + 1 < DEPTH {
                Some(Ulid::from((index + 1) as u128).to_string())
            } else {
                None
            };
            ParentRecord {
                path: format!("Tasks/{id}.md"),
                id,
                parent,
            }
        })
        .collect::<Vec<_>>();
    assert!(analyze_parents(&records).is_empty());
    records[DEPTH - 1].parent = Some(records[DEPTH / 2].id.clone());
    let issues = analyze_parents(&records);
    assert_eq!(issues.len(), DEPTH / 2);
    for (issue, member) in issues.iter().zip(&records[DEPTH / 2..]) {
        assert_eq!(issue.code, "parent_cycle");
        assert_eq!(issue.path.as_ref(), Some(&member.path));
    }
    records[DEPTH / 2].parent = None;
    assert!(analyze_parents(&records).is_empty());
}

#[test]
fn three_duplicate_paths_never_select_an_arbitrary_parent_edge() {
    let id = "01ARZ3NDEKTSV4RRFFQ69G5FAV";
    let child = "01ARZ3NDEKTSV4RRFFQ69G5FAW";
    let missing = "01ARZ3NDEKTSV4RRFFQ69G5FAX";
    let mut records = vec![
        ParentRecord {
            id: id.to_owned(),
            path: "Tasks/z.md".into(),
            parent: Some(id.to_owned()),
        },
        ParentRecord {
            id: id.to_ascii_lowercase(),
            path: "Tasks/a.md".into(),
            parent: Some(missing.to_owned()),
        },
        ParentRecord {
            id: id.to_owned(),
            path: "Tasks/b.md".into(),
            parent: Some(child.to_owned()),
        },
        ParentRecord {
            id: child.to_owned(),
            path: "Tasks/child.md".into(),
            parent: Some(id.to_owned()),
        },
    ];
    for _ in 0..2 {
        let actual = analyze_parents(&records)
            .into_iter()
            .map(|issue| (issue.code, issue.path))
            .collect::<Vec<_>>();
        assert_eq!(
            actual,
            vec![(
                "duplicate_task_id".to_owned(),
                Some("Tasks/a.md".to_owned()),
            )]
        );
        records.reverse();
    }
}

#[test]
fn times_of_day_have_hours_and_minutes() {
    let time = parse_time("09:05").expect("time");
    assert_eq!((time.hour(), time.minute()), (9, 5));
    assert_eq!(time.to_string(), "09:05");
    for invalid in ["9:05", "24:00", "12:60", "12:00:00", "ab:cd", ""] {
        assert_eq!(
            parse_time(invalid).expect_err(invalid).code(),
            "invalid_due_time"
        );
    }
    assert_eq!(Time::new(24, 0, 0, 0), None);
}

#[test]
fn dates_in_properties_are_texts() {
    let text = serde_yaml_ng::Value::String("2026-09-07".to_owned());
    assert_eq!(
        date_from_yaml(&text, "due_date").expect("date"),
        Date::new(2026, 9, 7).expect("date")
    );
    let number = serde_yaml_ng::Value::from(3);
    assert_eq!(
        date_from_yaml(&number, "due_date")
            .expect_err("number")
            .code(),
        "invalid_property_type"
    );
    let odd = serde_yaml_ng::Value::String("2026-02-30".to_owned());
    assert_eq!(
        date_from_yaml(&odd, "due_date").expect_err("date").code(),
        "invalid_date"
    );
}

#[test]
fn shown_paths_leave_out_dots() {
    assert_eq!(relative_path_string("Tasks/./one//two.md"), "Tasks/one/two.md");
}

#[test]
fn a_fixed_clock_stands_still() {
    let date = Date::new(2026, 2, 28).expect("date");
    assert_eq!(FixedClock::new(date).today(), date);
}

#[test]
fn relations_that_changed_are_told() {
    let record = |id: &str, parent: Option<&str>| obsidian_todo::parents::ParentRecord {
        id: id.to_owned(),
        path: format!("Tasks/{id}.md"),
        parent: parent.map(str::to_owned),
    };
    let before = vec![record("A", None), record("B", Some("A"))];
    let ensure = obsidian_todo::parents::ensure_relations_unchanged;
    assert!(ensure(&before, &before.clone()).is_ok());
    for now in [
        vec![record("A", None)],
        vec![record("A", None), record("B", None)],
        vec![record("A", None), record("B", Some("C"))],
        vec![record("A", None), record("C", Some("A"))],
    ] {
        let error = ensure(&before, &now).expect_err("changed");
        assert_eq!(error.code(), "concurrent_modification");
        assert_eq!(error.exit_code(), 6);
    }
}
