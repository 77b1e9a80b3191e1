use kicodex::discovery::{
    active_changed, descriptor_needs_write, expected_httplib_content, find_registered,
    lock_event_for, on_project_closed, on_project_opened, resolve_description, LockEvent,
};
use kicodex::registry::{PersistedRegistry, ProjectEntry};
use kicodex::scanner::extract_project_dirs_from_args;
use kicodex::watcher::{watch_reload_target, WatchEntry};

#[test]
fn test_extract_project_dirs_from_args() {
    let args = vec![
        vec!["kicad".to_string(), "/home/user/project1/my_board.kicad_pro".to_string()],
        vec!["kicad".to_string(), "/home/user/project2/another.kicad_pro".to_string()],
    ];
    let dirs = extract_project_dirs_from_args(&args);
    assert_eq!(dirs.len(), 2);
    assert_eq!(dirs[0], "/home/user/project1");
    assert_eq!(dirs[1], "/home/user/project2");
}

#[test]
fn test_extract_deduplicates() {
    let args = vec![
        vec!["kicad".to_string(), "/project/board.kicad_pro".to_string()],
        vec!["kicad".to_string(), "/project/board.kicad_pro".to_string()],
    ];
    let dirs = extract_project_dirs_from_args(&args);
    assert_eq!(dirs.len(), 1);
}

#[test]
fn test_extract_ignores_non_kicad_pro() {
    let args = vec![vec!["kicad".to_string(), "/project/schematic.kicad_sch".to_string()]];
    let dirs = extract_project_dirs_from_args(&args);
    assert!(dirs.is_empty());
}

#[test]
fn test_descriptor_content_is_deterministic_json() {
    let a = expected_httplib_content("components", "My parts", "tok-1", 18734);
    let b = expected_httplib_content("components", "My parts", "tok-1", 18734);
    assert_eq!(a, b);
    assert!(a.starts_with("{\n    \"meta\": {\n        \"version\": 1.0\n    },\n"));
    assert!(a.contains("\"name\": \"components\""));
    assert!(a.contains("\"description\": \"My parts\""));
    assert!(a.contains("\"root_url\": \"http://127.0.0.1:18734\""));
    assert!(a.contains("\"token\": \"tok-1\""));
    assert!(a.ends_with("\"\n    }\n}"));
}

#[test]
fn test_descriptor_not_rewritten_when_correct() {
    let expected = expected_httplib_content("lib", "d", "t", 18734);
    // A correct file is left alone; a missing or stale one is written.
    assert!(!descriptor_needs_write(Some(&expected), &expected));
    assert!(descriptor_needs_write(None, &expected));
    let stale = "{\"source\":{\"token\":\"wrong-token\"}}".to_string();
    assert!(descriptor_needs_write(Some(&stale), &expected));
}

#[test]
fn test_resolve_description_fallback() {
    assert_eq!(resolve_description("lib", Some("stated")), "stated");
    assert_eq!(resolve_description("lib", None), "KiCodex HTTP Library for lib");
}

#[test]
fn test_find_registered_matches_project_and_name() {
    let mut persisted = PersistedRegistry::new();
    persisted.upsert(ProjectEntry {
        token: "existing-token".to_string(),
        project_path: Some("/project".to_string()),
        library_path: "/project/libs/components".to_string(),
        name: "components".to_string(),
        description: None,
    });
    let found = find_registered(&persisted, &"/project".to_string(), &"components".to_string());
    assert_eq!(found.unwrap().token, "existing-token");
    assert!(find_registered(&persisted, &"/project".to_string(), &"other".to_string()).is_none());
    assert!(find_registered(&persisted, &"/elsewhere".to_string(), &"components".to_string())
        .is_none());
}

#[test]
fn test_lock_creation_opens_project() {
    let remaining: Vec<String> = Vec::new();
    let r = lock_event_for(&"/proj/x.lck".to_string(), true, &remaining);
    match r {
        Some(LockEvent::ProjectOpened(d)) => assert_eq!(d, "/proj"),
        _ => panic!("expected an open event"),
    }
}

#[test]
fn test_lock_deletion_with_remaining_lock_is_suppressed() {
    let remaining = vec!["y.lck".to_string()];
    let r = lock_event_for(&"/proj/x.lck".to_string(), false, &remaining);
    assert!(r.is_none());
}

#[test]
fn test_last_lock_deletion_closes_project() {
    let remaining = vec!["readme.md".to_string()];
    let r = lock_event_for(&"/proj/y.lck".to_string(), false, &remaining);
    match r {
        Some(LockEvent::ProjectClosed(d)) => assert_eq!(d, "/proj"),
        _ => panic!("expected a close event"),
    }
}

#[test]
fn test_non_lock_files_are_ignored() {
    let remaining: Vec<String> = Vec::new();
    assert!(lock_event_for(&"/proj/x.txt".to_string(), true, &remaining).is_none());
}

#[test]
fn test_active_set_updates() {
    let mut active: Vec<String> = Vec::new();
    on_project_opened(&mut active, "/a".to_string());
    on_project_opened(&mut active, "/b".to_string());
    on_project_opened(&mut active, "/a".to_string());
    assert_eq!(active, vec!["/a".to_string(), "/b".to_string()]);
    on_project_closed(&mut active, &"/a".to_string());
    assert_eq!(active, vec!["/b".to_string()]);
    assert!(active_changed(&active, &vec!["/b".to_string(), "/c".to_string()]));
    assert!(!active_changed(&active, &vec!["/b".to_string()]));
}

#[test]
fn test_watch_reload_targets_content_files_only() {
    let entries = vec![WatchEntry {
        watch_path: "/lib".to_string(),
        token: "tok".to_string(),
        library_path: "/lib".to_string(),
    }];
    let hit = watch_reload_target(&"/lib/data/resistors.csv".to_string(), &entries);
    assert_eq!(hit.unwrap().token, "tok");
    assert!(watch_reload_target(&"/lib/schema.yaml".to_string(), &entries).is_some());
    assert!(watch_reload_target(&"/lib/schema.yml".to_string(), &entries).is_some());
    assert!(watch_reload_target(&"/lib/notes.txt".to_string(), &entries).is_none());
    assert!(watch_reload_target(&"/elsewhere/data.csv".to_string(), &entries).is_none());
}

#[test]
fn test_extract_keeps_first_occurrence_order() {
    let args = vec![
        vec!["kicad".to_string(), "/z/last.kicad_pro".to_string()],
        vec![
            "kicad".to_string(),
            "/a/first.kicad_pro".to_string(),
            "/z/again.kicad_pro".to_string(),
        ],
    ];
    let dirs = extract_project_dirs_from_args(&args);
    assert_eq!(dirs, vec!["/z", "/a"]);
}
