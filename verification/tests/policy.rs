//! Tests of building a policy from statements, evaluating actions against
//! it, and merging policies.

use actionable::{
    ActionName, ActionNameList, PermissionDenied, Permissions, ResourceName, Statement,
};

#[derive(Debug)]
enum TestActions {
    DoSomething,
    Post(PostActions),
}

#[derive(Debug)]
enum PostActions {
    Read,
    Update,
    Delete,
}

impl TestActions {
    fn name(&self) -> ActionName {
        match self {
            TestActions::DoSomething => ActionName(vec![String::from("DoSomething")]),
            TestActions::Post(post) => {
                let leaf = match post {
                    PostActions::Read => "Read",
                    PostActions::Update => "Update",
                    PostActions::Delete => "Delete",
                };
                ActionName(vec![String::from("Post"), String::from(leaf)])
            }
        }
    }
}

#[test]
fn basics() {
    // Default action is deny
    let statements = vec![
        // Allow Read on all.
        Statement {
            resources: vec![ResourceName::any()],
            actions: Some(ActionNameList::from(
                TestActions::Post(PostActions::Read).name(),
            )),
            configuration: None,
        },
        // Allow all actions for the resource named all-actions-allowed
        Statement {
            resources: vec![ResourceName::named("all-actions-allowed")],
            actions: Some(ActionNameList::All),
            configuration: None,
        },
        // Allow all Post actions for the resource named only-post-actions-allowed
        Statement {
            resources: vec![ResourceName::named("only-post-actions-allowed")],
            actions: Some(ActionNameList::from(ActionName(vec![String::from("Post")]))),
            configuration: None,
        },
    ];
    let permissions = Permissions::from(statements);

    // Check the positive cases:
    assert!(permissions.allowed_to(
        &ResourceName::named("someresource"),
        &TestActions::Post(PostActions::Read).name()
    ));
    assert!(permissions.allowed_to(
        &ResourceName::named("all-actions-allowed"),
        &TestActions::Post(PostActions::Update).name()
    ));
    assert!(permissions.allowed_to(
        &ResourceName::named("all-actions-allowed"),
        &TestActions::DoSomething.name()
    ));
    assert!(permissions.allowed_to(
        &ResourceName::named("only-post-actions-allowed"),
        &TestActions::Post(PostActions::Delete).name()
    ));

    // Test the negatives
    assert!(!permissions.allowed_to(
        &ResourceName::named("someresource"),
        &TestActions::Post(PostActions::Update).name()
    ));
    assert!(!permissions.allowed_to(
        &ResourceName::named("someresource"),
        &TestActions::Post(PostActions::Delete).name()
    ));
    assert!(!permissions.allowed_to(
        &ResourceName::named("only-post-actions-allowed"),
        &TestActions::DoSomething.name()
    ));
}

#[test]
fn multiple_actions() {
    // Default action is deny
    let statements = vec![
        // Allow Read on all.
        Statement {
            resources: vec![ResourceName::any()],
            actions: Some(ActionNameList::List(vec![
                TestActions::Post(PostActions::Read).name(),
                TestActions::Post(PostActions::Delete).name(),
            ])),
            configuration: None,
        },
    ];
    let permissions = Permissions::from(statements);

    // Check the positive cases:
    assert!(permissions.allowed_to(
        &ResourceName::named("someresource"),
        &TestActions::Post(PostActions::Read).name()
    ));
    assert!(permissions.allowed_to(
        &ResourceName::named("someresource"),
        &TestActions::Post(PostActions::Delete).name()
    ));

    // Check another permission
    assert!(!permissions.allowed_to(
        &ResourceName::named("someresource"),
        &TestActions::DoSomething.name()
    ));
}

#[test]
fn allowed_actions_merging_tests() {
    let permissions_a = Permissions::from(vec![
        Statement {
            resources: vec![ResourceName::named("started_with_all")],
            actions: Some(ActionNameList::All),
            configuration: None,
        },
        Statement {
            resources: vec![ResourceName::named("started_with_some")],
            actions: Some(ActionNameList::from(vec![TestActions::DoSomething.name()])),
            configuration: None,
        },
        Statement {
            resources: vec![ResourceName::named("nested").and("started_with_all")],
            actions: Some(ActionNameList::All),
            configuration: None,
        },
        Statement {
            resources: vec![ResourceName::named("nested").and("started_with_some")],
            actions: Some(ActionNameList::from(vec![TestActions::DoSomething.name()])),
            configuration: None,
        },
    ]);
    let permissions_b = Permissions::from(vec![
        Statement {
            resources: vec![ResourceName::named("started_with_none")],
            actions: Some(ActionNameList::All),
            configuration: None,
        },
        Statement {
            resources: vec![ResourceName::named("started_with_some")],
            actions: Some(ActionNameList::All),
            configuration: None,
        },
        Statement {
            resources: vec![ResourceName::named("nested").and("started_with_none")],
            actions: Some(ActionNameList::from(vec![
                TestActions::Post(PostActions::Read).name(),
            ])),
            configuration: None,
        },
        Statement {
            resources: vec![ResourceName::named("nested").and("started_with_some")],
            actions: Some(ActionNameList::from(vec![
                TestActions::Post(PostActions::Read).name(),
            ])),
            configuration: None,
        },
    ]);

    let merged = Permissions::merged(&[permissions_a, permissions_b]);
    // For the top level, on Actions we're only testing transitioning form either
    // None/Some to All
    assert!(merged.allowed_to(
        &ResourceName::named("started_with_all"),
        &TestActions::DoSomething.name()
    ));
    assert!(merged.allowed_to(
        &ResourceName::named("started_with_none"),
        &TestActions::DoSomething.name()
    ));
    assert!(merged.allowed_to(
        &ResourceName::named("started_with_some"),
        &TestActions::DoSomething.name()
    ));
    assert!(merged.allowed_to(
        &ResourceName::named("started_with_some"),
        &TestActions::Post(PostActions::Delete).name()
    ));
    // For the nested level, the transitions will only take permissions to a Some()
    // instead of All.
    assert!(merged.allowed_to(
        &ResourceName::named("nested").and("started_with_none"),
        &TestActions::Post(PostActions::Read).name()
    ));
    assert!(!merged.allowed_to(
        &ResourceName::named("nested").and("started_with_none"),
        &TestActions::DoSomething.name()
    ));

    assert!(merged.allowed_to(
        &ResourceName::named("nested").and("started_with_some"),
        &TestActions::Post(PostActions::Read).name()
    ));
    assert!(merged.allowed_to(
        &ResourceName::named("nested").and("started_with_some"),
        &TestActions::DoSomething.name()
    ));
}

#[test]
fn default_deny() {
    let permissions = Permissions::from(vec![]);
    assert!(!permissions.allowed_to(
        &ResourceName::named("anything"),
        &TestActions::DoSomething.name()
    ));
    assert!(!permissions.allowed_to(&ResourceName::default(), &ActionName::default()));
    assert!(!permissions.allowed_to(
        &ResourceName::named(42u64).and("deep").and("deeper"),
        &TestActions::Post(PostActions::Read).name()
    ));
}

#[test]
fn partial_action_grant_specificity() {
    // Granting the bare one-segment prefix allows everything under it.
    let permissions = Permissions::from(vec![Statement {
        resources: vec![ResourceName::named("x")],
        actions: Some(ActionNameList::from(ActionName(vec![String::from("Post")]))),
        configuration: None,
    }]);
    assert!(permissions.allowed_to(
        &ResourceName::named("x"),
        &TestActions::Post(PostActions::Delete).name()
    ));
    assert!(permissions.allowed_to(
        &ResourceName::named("x"),
        &ActionName(vec![String::from("Post")])
    ));

    // Granting only the full path does not allow siblings or the bare prefix.
    let narrow = Permissions::from(vec![Statement {
        resources: vec![ResourceName::named("x")],
        actions: Some(ActionNameList::from(
            TestActions::Post(PostActions::Read).name(),
        )),
        configuration: None,
    }]);
    assert!(narrow.allowed_to(
        &ResourceName::named("x"),
        &TestActions::Post(PostActions::Read).name()
    ));
    assert!(!narrow.allowed_to(
        &ResourceName::named("x"),
        &TestActions::Post(PostActions::Update).name()
    ));
    assert!(!narrow.allowed_to(
        &ResourceName::named("x"),
        &ActionName(vec![String::from("Post")])
    ));
}

#[test]
fn scenario() {
    let statements = vec![
        Statement {
            resources: vec![ResourceName::any()],
            actions: Some(ActionNameList::from(
                TestActions::Post(PostActions::Read).name(),
            )),
            configuration: None,
        },
        Statement {
            resources: vec![ResourceName::named("X")],
            actions: Some(ActionNameList::All),
            configuration: None,
        },
        Statement {
            resources: vec![ResourceName::named("Y")],
            actions: Some(ActionNameList::from(ActionName(vec![String::from("Post")]))),
            configuration: None,
        },
    ];
    let permissions = Permissions::from(statements);
    assert!(permissions.allowed_to(
        &ResourceName::named("Z"),
        &TestActions::Post(PostActions::Read).name()
    ));
    assert!(permissions.allowed_to(&ResourceName::named("X"), &TestActions::DoSomething.name()));
    assert!(permissions.allowed_to(
        &ResourceName::named("Y"),
        &TestActions::Post(PostActions::Delete).name()
    ));
    assert!(!permissions.allowed_to(
        &ResourceName::named("Z"),
        &TestActions::Post(PostActions::Delete).name()
    ));
    assert!(!permissions.allowed_to(&ResourceName::named("Y"), &TestActions::DoSomething.name()));
}

#[test]
fn merge_idempotent() {
    let build = || {
        Permissions::from(vec![Statement {
            resources: vec![ResourceName::named("a")],
            actions: Some(ActionNameList::from(
                TestActions::Post(PostActions::Read).name(),
            )),
            configuration: None,
        }])
    };
    let merged = Permissions::merged(&[build(), build()]);
    let alone = build();
    for resource in [ResourceName::named("a"), ResourceName::named("b")] {
        for action in [
            TestActions::Post(PostActions::Read).name(),
            TestActions::Post(PostActions::Update).name(),
            TestActions::DoSomething.name(),
        ] {
            assert_eq!(
                merged.allowed_to(&resource, &action),
                alone.allowed_to(&resource, &action)
            );
        }
    }
}

#[test]
fn allow_all_grants_everything() {
    let permissions = Permissions::allow_all();
    assert!(permissions.allowed_to(
        &ResourceName::named("anything"),
        &TestActions::DoSomething.name()
    ));
    assert!(permissions.allowed_to(
        &ResourceName::named(7u64).and(b"bin".as_slice()),
        &TestActions::Post(PostActions::Delete).name()
    ));
}

#[test]
fn check_reports_denied_resource_and_action() {
    let permissions = Permissions::from(vec![Statement {
        resources: vec![ResourceName::named("allowed")],
        actions: Some(ActionNameList::All),
        configuration: None,
    }]);
    assert!(permissions
        .check(
            &ResourceName::named("allowed"),
            &TestActions::DoSomething.name()
        )
        .is_ok());
    let denied: PermissionDenied = permissions
        .check(
            &ResourceName::named("forbidden").and(42u64),
            &TestActions::Post(PostActions::Delete).name()
        )
        .unwrap_err();
    assert_eq!(denied.resource.to_string(), "forbidden.42");
    assert_eq!(denied.action.to_string(), "Post.Delete");
    assert_eq!(
        denied.to_string(),
        "Action 'Post.Delete' was denied on resource 'forbidden.42'"
    );
}

#[test]
fn grant_on_prefix_covers_deeper_resources() {
    let permissions = Permissions::from(vec![Statement {
        resources: vec![ResourceName::named("users")],
        actions: Some(ActionNameList::All),
        configuration: None,
    }]);
    assert!(permissions.allowed_to(
        &ResourceName::named("users").and(42u64),
        &TestActions::DoSomething.name()
    ));
    assert!(!permissions.allowed_to(
        &ResourceName::named("groups").and(42u64),
        &TestActions::DoSomething.name()
    ));
}

#[test]
fn cloned_permissions_answer_alike() {
    let permissions = Permissions::from(vec![Statement {
        resources: vec![ResourceName::named("users").and(42u64)],
        actions: Some(ActionNameList::from(
            TestActions::Post(PostActions::Read).name(),
        )),
        configuration: None,
    }]);
    let copy = permissions.clone();
    for resource in [
        ResourceName::named("users").and(42u64),
        ResourceName::named("users").and(7u64),
    ] {
        for action in [
            TestActions::Post(PostActions::Read).name(),
            TestActions::DoSomething.name(),
        ] {
            assert_eq!(
                permissions.allowed_to(&resource, &action),
                copy.allowed_to(&resource, &action)
            );
        }
    }
    assert!(copy.allowed_to(
        &ResourceName::named("users").and(42u64),
        &TestActions::Post(PostActions::Read).name()
    ));
}

#[test]
fn default_permissions_deny() {
    let permissions = Permissions::default();
    assert!(!permissions.allowed_to(
        &ResourceName::named("anything"),
        &TestActions::DoSomething.name()
    ));
}

#[test]
fn allowing_the_empty_action_name_grants_everything_there() {
    // The unit action resolves to the empty path, and a grant of the empty
    // path allows every action at the statement's resources.
    let statement = Statement::for_resource("open").allowing(&());
    let permissions = Permissions::from(vec![statement]);
    assert!(permissions.allowed_to(
        &ResourceName::named("open"),
        &TestActions::Post(PostActions::Delete).name()
    ));
    assert!(!permissions.allowed_to(
        &ResourceName::named("shut"),
        &TestActions::Post(PostActions::Delete).name()
    ));
}

#[test]
fn cross_variant_resource_lookup() {
    // A resource granted under a string key is found with the equal integer key.
    let key = u64::from_be_bytes(*b"helloooo");
    let permissions = Permissions::from(vec![Statement {
        resources: vec![ResourceName::named("helloooo")],
        actions: Some(ActionNameList::All),
        configuration: None,
    }]);
    assert!(permissions.allowed_to(&ResourceName::named(key), &TestActions::DoSomething.name()));
}
