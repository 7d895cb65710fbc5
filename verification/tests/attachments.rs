use obsidian_todo::attachments::{
    append_links, diagnostics, distinct_links, ensure_enabled, inspect, is_image, is_selector,
    links, links_with_prefix, list_with_prefix, markdown_link, safe_metadata, sanitize_filename,
    stage, unlink, unlink_with_prefix, validate_components, validate_opened, validate_selector,
    Entry, MAX_ATTACHMENT_BYTES,
};
use obsidian_todo::config::Config;
use obsidian_todo::url::validate_url;

#[test]
fn generated_unicode_links_roundtrip_and_rebase() {
    let target = "Attachments/id/café [photo].png";
    for task in ["Tasks/task.md", "Tasks/nested/deep/task.md"] {
        let generated = markdown_link(task, target, "café [photo]").expect("link");
        assert!(generated.starts_with("!["));
        assert_eq!(links(&generated, task)[0].path, target);
    }
}

#[test]
fn links_are_found_where_markdown_has_them() {
    let body = "[a](../Attachments/x/a.pdf) `[b](../Attachments/x/b.pdf)` ![[Attachments/x/c.png|C]]\n```\n[d](../Attachments/x/d.pdf)\n```\n[e](<../Attachments/x/e f.pdf>)\n";
    let found = links(body, "Tasks/task.md");
    assert_eq!(
        found.iter().map(|link| link.path.as_str()).collect::<Vec<_>>(),
        [
            "Attachments/x/a.pdf",
            "Attachments/x/c.png",
            "Attachments/x/e f.pdf"
        ]
    );
    assert_eq!(&body[found[0].range.clone()], "[a](../Attachments/x/a.pdf)");
    assert_eq!(found[1].display_name, "C");
    for pair in found.windows(2) {
        assert!(pair[0].range.end <= pair[1].range.start);
    }
    assert_eq!(
        links_with_prefix("[[Area/Todo/Attachments/x/a.pdf]]", "Tasks/t.md", "Area/Todo")[0].path,
        "Attachments/x/a.pdf"
    );
}

#[test]
fn unlinking_leaves_the_rest_of_a_body() {
    let body = "Before [a](../Attachments/x/a.pdf) after [b](../Attachments/x/b.pdf).\n";
    let unlinked = unlink(body, "Tasks/task.md", "Attachments/x/a.pdf");
    assert!(links(&unlinked, "Tasks/task.md")
        .iter()
        .all(|link| link.path == "Attachments/x/b.pdf"));
    assert!(unlinked.starts_with("Before "));
    assert!(unlinked.ends_with("[b](../Attachments/x/b.pdf).\n"));
    assert_eq!(
        unlink_with_prefix(body, "Tasks/task.md", "Attachments/x/none.pdf", ""),
        body
    );
}

#[test]
fn links_are_appended_behind_the_body() {
    let selectors = vec!["Attachments/x/a.pdf".to_owned()];
    assert_eq!(
        append_links("", "Tasks/t.md", &selectors).expect("append"),
        "## Attachments\n\n- [a.pdf](../Attachments/x/a.pdf)\n"
    );
    let appended = append_links("Body\n", "Tasks/t.md", &selectors).expect("append");
    assert!(appended.starts_with("Body\n"));
    assert_eq!(links(&appended, "Tasks/t.md").len(), 1);
}

#[test]
fn selectors_lie_below_the_attachments() {
    assert_eq!(
        validate_selector("Attachments/x/a.pdf").expect("selector"),
        "Attachments/x/a.pdf"
    );
    for invalid in [
        "",
        "Attachments",
        "Attachments/",
        "Attachments/../Tasks/a.md",
        "Tasks/a.md",
        "/Attachments/a",
        "Attachments\\a",
    ] {
        assert!(!is_selector(invalid), "{invalid}");
        assert!(validate_selector(invalid).is_err(), "{invalid}");
    }
}

#[test]
fn names_of_files_are_made_safe() {
    assert_eq!(sanitize_filename("photo.PNG"), "photo.PNG");
    let safe = sanitize_filename("../a/b:c?.pdf");
    assert!(!safe.contains('/') && !safe.contains('?'));
    assert!(!sanitize_filename("").is_empty());
    assert!(is_image("Attachments/x/a.JPeG"));
    assert!(!is_image("Attachments/x/a.pdf"));
}

#[test]
fn what_stands_at_a_path_decides_about_an_attachment() {
    let path = "Attachments/x/a.pdf";
    let there = vec![Entry::Directory, Entry::Directory, Entry::File(7)];
    assert_eq!(safe_metadata(path, &there).expect("there"), Some(7));
    assert_eq!(
        safe_metadata(path, &vec![Entry::Directory, Entry::Missing]).expect("missing"),
        None
    );
    assert_eq!(
        safe_metadata(path, &vec![Entry::Symlink])
            .expect_err("symlink")
            .code(),
        "unsafe_attachment_path"
    );
    let view = inspect(path, "A", &there).expect("view");
    assert_eq!(view.byte_size, Some(7));
    assert_eq!(view.availability, "available");
    let failed = vec![Entry::Failed {
        path: "/r/Attachments".to_owned(),
        reason: "denied".to_owned(),
    }];
    assert_eq!(safe_metadata(path, &failed).expect_err("io").exit_code(), 8);
}

#[test]
fn lists_name_each_attachment_once() {
    let body = "[a](../Attachments/x/a.pdf) [b](../Attachments/x/b.pdf) [A](../Attachments/x/a.pdf)";
    let distinct = distinct_links(body, "Tasks/t.md", "");
    assert_eq!(distinct.len(), 2);
    let listed = list_with_prefix(
        "Tasks/t.md",
        body,
        "",
        &vec![
            vec![Entry::Directory, Entry::Directory, Entry::File(1)],
            vec![Entry::Missing],
        ],
    )
    .expect("list");
    assert_eq!(
        listed
            .iter()
            .map(|view| (view.path.as_str(), view.byte_size))
            .collect::<Vec<_>>(),
        [
            ("Attachments/x/a.pdf", Some(1)),
            ("Attachments/x/b.pdf", None)
        ]
    );
}

#[test]
fn problems_with_attachments_are_warnings() {
    let body = "[a](../Attachments/x/a.pdf) [b](../Attachments/x/b.pdf) ![[a.pdf]]";
    let rows = vec![(
        "Attachments/x/b.pdf".to_owned(),
        vec![
            Entry::Directory,
            Entry::Directory,
            Entry::File(MAX_ATTACHMENT_BYTES + 1),
        ],
    )];
    let issues = diagnostics("Tasks/t.md", body, "", &rows);
    assert!(issues
        .iter()
        .all(|issue| issue.path.as_deref() == Some("Tasks/t.md")));
    let codes = issues
        .iter()
        .map(|issue| issue.code.as_str())
        .collect::<Vec<_>>();
    assert!(codes.contains(&"attachment_missing"), "{codes:?}");
    assert!(codes.contains(&"attachment_too_large"), "{codes:?}");
}

#[test]
fn sources_are_checked_before_they_are_staged() {
    assert!(validate_components("/tmp/a", &vec![Entry::Directory, Entry::File(1)]).is_ok());
    assert_eq!(
        validate_components("/tmp/a", &vec![Entry::Symlink, Entry::File(1)])
            .expect_err("symlink")
            .code(),
        "attachment_source_invalid"
    );
    assert!(validate_opened("/tmp/a", &Entry::File(3)).is_ok());
    assert!(validate_opened("/tmp/a", &Entry::File(MAX_ATTACHMENT_BYTES + 1)).is_err());
    assert!(validate_opened("/tmp/a", &Entry::Directory).is_err());
    let staged = stage(
        "/tmp/a:b.pdf",
        Some("a:b.pdf".to_owned()),
        "01K4B0ZSBZZV25T1K0D3TA8JHR",
        vec![7],
    )
    .expect("stage");
    assert!(staged
        .path
        .starts_with("Attachments/01K4B0ZSBZZV25T1K0D3TA8JHR/"));
    assert_eq!(staged.bytes, [7]);
    assert!(stage("/", None, "x", vec![]).is_err());
}

#[test]
fn attachments_need_a_directory_of_their_own() {
    let mut config = Config::defaults("Todo".to_owned());
    assert!(ensure_enabled(&config).is_ok());
    config.projects_directory = "Attachments".to_owned();
    assert_eq!(
        ensure_enabled(&config).expect_err("overlap").code(),
        "attachments_disabled"
    );
}

#[test]
fn web_links_are_checked() {
    for valid in [
        "https://example.test",
        "http://a.test:8080/x?y=1#z",
        "https://例え.jp/道",
    ] {
        assert!(validate_url(Some(valid)).is_ok(), "{valid}");
    }
    assert!(validate_url(None).is_ok());
    for invalid in [
        "",
        "ftp://example.test",
        "https://",
        "https://example.test:65536",
        "https://example.test/a b",
        "https://example.test/%ZZ",
    ] {
        let error = validate_url(Some(invalid)).expect_err(invalid);
        assert_eq!(error.code(), "invalid_url");
        assert_eq!(error.field(), Some("url"));
    }
}
