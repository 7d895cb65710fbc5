use obsidian_todo::discovery::{
    discover, path_named, DiscoveryOptions, Look, LookFault, NamedRoot, StoreMarks, Surroundings,
};

fn marks(path: &str, store: bool) -> StoreMarks {
    StoreMarks {
        path: path.to_owned(),
        metadata: if store { Look::Directory } else { Look::Missing },
        config: if store { Look::File } else { Look::Missing },
    }
}

fn options(explicit: Option<&str>, environment: Option<&str>) -> DiscoveryOptions {
    DiscoveryOptions {
        explicit_root: explicit.map(|root| root.to_owned()),
        environment_root: environment.map(|root| root.to_owned()),
        current_directory: "/work".to_owned(),
    }
}

fn named(look: Look, marks: StoreMarks) -> NamedRoot {
    NamedRoot {
        look,
        resolved: Ok(marks),
    }
}

fn nothing() -> NamedRoot {
    named(Look::Missing, marks("", false))
}

fn around(ancestors: Vec<StoreMarks>, children: Vec<StoreMarks>) -> Surroundings {
    Surroundings {
        ancestors: Ok(ancestors),
        children: Ok(children),
    }
}

#[test]
fn explicit_root_has_highest_precedence() {
    let options = options(Some("explicit"), Some("/environment"));
    assert_eq!(path_named(&options).as_deref(), Some("/work/explicit"));
    let found = named(Look::Directory, marks("/real/explicit", true));
    let result = discover(
        &options,
        &found,
        around(vec![marks("/work", true)], Vec::new()),
    )
    .expect("discover");
    assert_eq!(result, "/real/explicit");
}

#[test]
fn nearest_ancestor_wins() {
    let result = discover(
        &options(None, None),
        &nothing(),
        around(
            vec![
                marks("/a/nested/deep", false),
                marks("/a/nested", true),
                marks("/a", true),
            ],
            vec![marks("/a/nested/deep/child", true)],
        ),
    )
    .expect("discover");
    assert_eq!(result, "/a/nested");
}

#[test]
fn explicit_root_symlink_is_rejected() {
    let error = discover(
        &options(Some("linked"), None),
        &named(Look::Symlink, marks("/real", true)),
        around(Vec::new(), Vec::new()),
    )
    .expect_err("root symlink");
    assert_eq!(error.code(), "invalid_store_root");
}

#[test]
fn ambiguous_direct_children_are_reported() {
    let error = discover(
        &options(None, None),
        &nothing(),
        around(
            vec![marks("/work", false)],
            vec![
                marks("/work/two", true),
                marks("/work/other", false),
                marks("/work/one", true),
            ],
        ),
    )
    .expect_err("ambiguous");
    assert_eq!(error.code(), "ambiguous_store");
    assert_eq!(error.exit_code(), 4);
    assert_eq!(
        error.message(),
        "Multiple todo stores found: /work/one, /work/two; pass --root"
    );
}

#[test]
fn a_store_that_is_not_there_is_not_found() {
    let code = |options: DiscoveryOptions, found: NamedRoot, around: Surroundings| {
        discover(&options, &found, around)
            .expect_err("refused")
            .code()
    };
    let empty = || around(Vec::new(), Vec::new());
    assert_eq!(
        code(options(None, Some("")), nothing(), empty()),
        "invalid_root"
    );
    assert_eq!(
        code(options(None, Some("/x")), nothing(), empty()),
        "store_not_found"
    );
    assert_eq!(
        code(
            options(Some("/x"), None),
            named(Look::Directory, marks("/x", false)),
            empty()
        ),
        "store_not_found"
    );
    assert_eq!(
        code(
            options(Some("/x"), None),
            named(Look::Failed("denied".to_owned()), marks("/x", false)),
            empty()
        ),
        "io_error"
    );
    assert_eq!(
        code(options(None, None), nothing(), empty()),
        "store_not_found"
    );
    let broken = Surroundings {
        ancestors: Ok(Vec::new()),
        children: Err(LookFault {
            action: "inspect direct child directories".to_owned(),
            path: "/work".to_owned(),
            reason: "denied".to_owned(),
        }),
    };
    assert_eq!(code(options(None, None), nothing(), broken), "io_error");
    assert_eq!(
        discover(
            &options(None, None),
            &nothing(),
            around(Vec::new(), vec![marks("/work/a", false), marks("/work/b", true)])
        )
        .expect("one child"),
        "/work/b"
    );
}
