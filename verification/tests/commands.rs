use hostctl::command::{
    check_apply_target, execute, render_profile, resolve_profile, CmdOutput, Commands,
    HostsError, ProfileCommands,
};
use hostctl::render::{HostEntry, HostsTemplate};
use hostctl::store::Database;

fn rendered(r: Result<CmdOutput, HostsError>) -> String {
    match r {
        Ok(CmdOutput::Rendered(s)) => s,
        other => panic!("expected rendered output, got {:?}", describe(&other)),
    }
}

fn describe(r: &Result<CmdOutput, HostsError>) -> &'static str {
    match r {
        Ok(CmdOutput::Done) => "done",
        Ok(CmdOutput::Profiles(_, _)) => "profiles",
        Ok(CmdOutput::Rendered(_)) => "rendered",
        Ok(CmdOutput::ShowTarget) => "show-target",
        Err(HostsError::NotFound) => "not-found",
        Err(HostsError::TargetMissing) => "target-missing",
    }
}

#[test]
fn render_is_deterministic_on_equal_sorted_input() {
    let make = || HostsTemplate {
        entries: vec![
            HostEntry { host: "a.local".to_string(), address: "10.0.0.1".to_string() },
            HostEntry { host: "b.local".to_string(), address: "10.0.0.2".to_string() },
        ],
        profile: "work".to_string(),
    };
    let once = make().render();
    let twice = make().render();
    assert_eq!(once, twice);
    assert_eq!(
        once,
        "# hostctl profile: work\n10.0.0.1 a.local\n10.0.0.2 b.local\n"
    );
}

#[test]
fn render_of_empty_profile_is_header_only() {
    let template = HostsTemplate { entries: vec![], profile: "work".to_string() };
    assert_eq!(template.render(), "# hostctl profile: work\n");
}

#[test]
fn apply_fails_with_target_missing_whatever_the_content() {
    let r = check_apply_target(false, "10.0.0.1 a.local\n".to_string());
    assert_eq!(r, Err(HostsError::TargetMissing));
    let r = check_apply_target(false, String::new());
    assert_eq!(r, Err(HostsError::TargetMissing));
    let r = check_apply_target(true, "10.0.0.1 a.local\n".to_string());
    assert_eq!(r, Ok("10.0.0.1 a.local\n".to_string()));
}

#[test]
fn apply_and_test_on_unknown_profile_fail_with_not_found() {
    let mut db = Database::new();
    db.add_entry("ghost", "a.local", "10.0.0.1");
    let r = execute(&mut db, Commands::Apply { profile: Some("ghost".to_string()) });
    assert!(matches!(r, Err(HostsError::NotFound)));
    let r = execute(&mut db, Commands::Test { profile: Some("ghost".to_string()) });
    assert!(matches!(r, Err(HostsError::NotFound)));
    // the fallback name is checked like any other
    let r = execute(&mut db, Commands::Apply { profile: None });
    assert!(matches!(r, Err(HostsError::NotFound)));
}

#[test]
fn end_to_end_apply_resolves_active_profile_and_renders_it() {
    let mut db = Database::new();
    assert!(matches!(
        execute(&mut db, Commands::Profile {
            subcommand: ProfileCommands::Add { name: "work".to_string() },
        }),
        Ok(CmdOutput::Done)
    ));
    assert!(matches!(
        execute(&mut db, Commands::Profile {
            subcommand: ProfileCommands::Use { name: "work".to_string() },
        }),
        Ok(CmdOutput::Done)
    ));
    assert!(matches!(
        execute(&mut db, Commands::Add {
            host: "a.local".to_string(),
            address: "10.0.0.1".to_string(),
        }),
        Ok(CmdOutput::Done)
    ));
    let content = rendered(execute(&mut db, Commands::Apply { profile: None }));
    assert!(content.contains("10.0.0.1 a.local\n"));
    let committed = check_apply_target(true, content).unwrap();
    assert_eq!(committed, "# hostctl profile: work\n10.0.0.1 a.local\n");
}

#[test]
fn entry_commands_follow_the_active_profile() {
    let mut db = Database::new();
    // under the initial pointer, entries land in "default"
    execute(&mut db, Commands::Add {
        host: "a.local".to_string(),
        address: "10.0.0.1".to_string(),
    })
    .unwrap();
    assert_eq!(db.get_entries("default").len(), 1);
    db.use_profile("work");
    let r = execute(&mut db, Commands::Remove { host: "a.local".to_string() });
    assert!(matches!(r, Err(HostsError::NotFound)));
    let r = execute(&mut db, Commands::Update {
        host: "a.local".to_string(),
        address: "10.0.0.2".to_string(),
    });
    assert!(matches!(r, Err(HostsError::NotFound)));
    db.use_profile("default");
    let r = execute(&mut db, Commands::Update {
        host: "a.local".to_string(),
        address: "10.0.0.2".to_string(),
    });
    assert!(matches!(r, Ok(CmdOutput::Done)));
    let r = execute(&mut db, Commands::Remove { host: "a.local".to_string() });
    assert!(matches!(r, Ok(CmdOutput::Done)));
    assert_eq!(db.get_entries("default").len(), 0);
}

#[test]
fn profile_list_carries_sorted_names_and_active() {
    let mut db = Database::new();
    db.add_profile("work");
    db.add_profile("home");
    db.use_profile("home");
    match execute(&mut db, Commands::Profile { subcommand: ProfileCommands::List }) {
        Ok(CmdOutput::Profiles(names, active)) => {
            assert_eq!(names, vec!["home", "work"]);
            assert_eq!(active, "home");
        }
        other => panic!("expected a listing, got {}", describe(&other)),
    }
}

#[test]
fn profile_remove_via_execute_reports_and_cascades() {
    let mut db = Database::new();
    db.add_profile("work");
    db.add_entry("work", "a.local", "10.0.0.1");
    let r = execute(&mut db, Commands::Profile {
        subcommand: ProfileCommands::Remove { name: "work".to_string() },
    });
    assert!(matches!(r, Ok(CmdOutput::Done)));
    assert_eq!(db.get_entries("work").len(), 0);
    let r = execute(&mut db, Commands::Profile {
        subcommand: ProfileCommands::Remove { name: "work".to_string() },
    });
    assert!(matches!(r, Err(HostsError::NotFound)));
}

#[test]
fn current_asks_the_caller_to_show_the_target() {
    let mut db = Database::new();
    let r = execute(&mut db, Commands::Current);
    assert!(matches!(r, Ok(CmdOutput::ShowTarget)));
}

#[test]
fn resolution_prefers_explicit_then_active_then_fallback() {
    assert_eq!(
        resolve_profile(Some("lab".to_string()), Some("work".to_string())),
        "lab"
    );
    assert_eq!(resolve_profile(None, Some("work".to_string())), "work");
    assert_eq!(resolve_profile(None, None), "default");
}

#[test]
fn render_profile_renders_sorted_entries_of_the_resolved_profile() {
    let mut db = Database::new();
    db.add_profile("work");
    db.add_entry("work", "b.local", "10.0.0.2");
    db.add_entry("work", "a.local", "10.0.0.1");
    let content = render_profile(&db, Some("work".to_string())).unwrap();
    assert_eq!(
        content,
        "# hostctl profile: work\n10.0.0.1 a.local\n10.0.0.2 b.local\n"
    );
}
