use kicodex::registry::{PersistedRegistry, ProjectEntry};

fn entry(token: &str, project: Option<&str>, lib: &str, name: &str) -> ProjectEntry {
    ProjectEntry {
        token: token.to_string(),
        project_path: project.map(|p| p.to_string()),
        library_path: lib.to_string(),
        name: name.to_string(),
        description: None,
    }
}

#[test]
fn test_persisted_registry_upsert_replaces_same_path() {
    let mut registry = PersistedRegistry::new();
    registry.upsert(entry("token1", Some("/project"), "/project/libs", "Project"));
    registry.upsert(entry("token2", Some("/project"), "/project/libs", "Project Updated"));
    assert_eq!(registry.projects.len(), 1);
    assert_eq!(registry.projects[0].token, "token2");
    assert_eq!(registry.projects[0].name, "Project Updated");
}

#[test]
fn test_persisted_registry_find_by_token() {
    let mut registry = PersistedRegistry::new();
    registry.upsert(entry("abc", Some("/p1"), "/p1/libs", "P1"));
    registry.upsert(entry("def", Some("/p2"), "/p2/libs", "P2"));
    assert_eq!(registry.find_by_token("abc").unwrap().name, "P1");
    assert_eq!(registry.find_by_token("def").unwrap().name, "P2");
    assert!(registry.find_by_token("xyz").is_none());
}

#[test]
fn test_persisted_registry_remove_by_path() {
    let mut registry = PersistedRegistry::new();
    registry.upsert(entry("abc", Some("/p1"), "/p1/libs", "P1"));
    registry.remove_by_path("/p1");
    assert!(registry.projects.is_empty());
}

#[test]
fn test_standalone_upsert_dedup_by_library_path() {
    let mut registry = PersistedRegistry::new();
    registry.upsert(entry("token1", None, "/libs/my-lib", "My Lib"));
    registry.upsert(entry("token2", None, "/libs/my-lib", "My Lib Updated"));
    assert_eq!(registry.projects.len(), 1);
    assert_eq!(registry.projects[0].token, "token2");
}

#[test]
fn test_remove_by_library_path() {
    let mut registry = PersistedRegistry::new();
    registry.upsert(entry("standalone", None, "/libs/my-lib", "My Lib"));
    registry.upsert(entry("attached", Some("/project"), "/libs/my-lib", "My Lib"));
    registry.remove_by_library_path("/libs/my-lib");
    // Only the standalone entry goes; the project-attached one remains.
    assert_eq!(registry.projects.len(), 1);
    assert_eq!(registry.projects[0].token, "attached");
}

#[test]
fn test_distinct_pairs_coexist() {
    let mut registry = PersistedRegistry::new();
    registry.upsert(entry("a", Some("/p1"), "/libs/x", "X"));
    registry.upsert(entry("b", Some("/p2"), "/libs/x", "X"));
    registry.upsert(entry("c", None, "/libs/x", "X"));
    assert_eq!(registry.projects.len(), 3);
}
