use kicodex::library::{load_library, ComponentTypeDef, FileSet, LibraryManifest};
use kicodex::misc::{
    capitalize, csv_template, default_csv_headers, default_schema, resolve_active_projects,
    schema_template,
};
use kicodex::registry::{PersistedRegistry, ProjectEntry, ProjectRegistry};
use kicodex::schema::{SchemaDir, SchemaFile};
use kicodex::text::{parse_usize, u64_to_dec_string};

#[test]
fn test_capitalize_ascii() {
    assert_eq!(capitalize("resistors"), "Resistors");
    assert_eq!(capitalize("Resistors"), "Resistors");
    assert_eq!(capitalize(""), "");
    assert_eq!(capitalize("9volt"), "9volt");
}

#[test]
fn test_templates_are_stable() {
    assert!(schema_template().starts_with("fields:\n  value:"));
    assert_eq!(csv_template(), "id,mpn,value,description,footprint,symbol,datasheet\n");
    assert_eq!(default_csv_headers(), csv_template());
}

#[test]
fn test_default_schema_fields() {
    let raw = default_schema();
    assert!(raw.based_on.is_none());
    assert_eq!(raw.fields.len(), 5);
    assert_eq!(raw.fields.key_at(0), "value");
    assert_eq!(raw.fields.key_at(4), "datasheet");
    let symbol = raw.fields.get(&"symbol".to_string()).unwrap();
    assert_eq!(symbol.field_type.as_deref(), Some("kicad_symbol"));
}

#[test]
fn test_decimal_rendering_and_parsing() {
    assert_eq!(u64_to_dec_string(0), "0");
    assert_eq!(u64_to_dec_string(18734), "18734");
    assert_eq!(u64_to_dec_string(10), "10");
    let v: Vec<char> = "42".chars().collect();
    assert_eq!(parse_usize(&v), Some(42));
    let plus: Vec<char> = "+7".chars().collect();
    assert_eq!(parse_usize(&plus), Some(7));
    let neg: Vec<char> = "-7".chars().collect();
    assert_eq!(parse_usize(&neg), None);
    let empty: Vec<char> = Vec::new();
    assert_eq!(parse_usize(&empty), None);
}

#[test]
fn test_resolve_active_projects_names() {
    let mut persisted = PersistedRegistry::new();
    persisted.upsert(ProjectEntry {
        token: "t".to_string(),
        project_path: Some("/home/u/boards/amp".to_string()),
        library_path: "/home/u/boards/amp/libs".to_string(),
        name: "Amplifier".to_string(),
        description: None,
    });
    let dirs = vec!["/home/u/boards/amp".to_string(), "/home/u/boards/psu".to_string()];
    let active = resolve_active_projects(&dirs, &persisted);
    assert_eq!(active.len(), 2);
    assert_eq!(active[0].name, "Amplifier");
    assert_eq!(active[0].project_path, "/home/u/boards/amp");
    // Unregistered: the directory's own name stands in.
    assert_eq!(active[1].name, "psu");
}

fn library_fixture() -> (LibraryManifest, SchemaDir, FileSet) {
    let manifest = LibraryManifest {
        name: "test-lib".to_string(),
        description: Some("fixture".to_string()),
        templates_path: "schemas".to_string(),
        component_types: vec![ComponentTypeDef {
            file: "resistors.csv".to_string(),
            template: "resistors".to_string(),
            name: "Resistors".to_string(),
        }],
    };
    let mut schemas = SchemaDir::new();
    let mut fields = kicodex::schema::FieldMap::new();
    fields.insert(
        "value".to_string(),
        kicodex::schema::FieldDef {
            display_name: "Value".to_string(),
            required: true,
            visible: true,
            description: None,
            field_type: None,
        },
    );
    schemas.add(
        "resistors".to_string(),
        SchemaFile::Parsed(kicodex::schema::RawSchema {
            based_on: None,
            exclude_from_bom: None,
            exclude_from_board: None,
            exclude_from_sim: None,
            fields,
        }),
    );
    let mut csv_files = FileSet::new();
    csv_files.add("resistors.csv".to_string(), "id,value\n1,10k\n".to_string());
    (manifest, schemas, csv_files)
}

#[test]
fn test_load_library_binds_tables() {
    let (manifest, schemas, csv_files) = library_fixture();
    let (lib, writebacks) = load_library(&manifest, &schemas, &csv_files).unwrap();
    assert_eq!(lib.name, "test-lib");
    assert_eq!(lib.component_types.len(), 1);
    assert_eq!(lib.component_types[0].name, "Resistors");
    assert_eq!(lib.component_types[0].template_name, "resistors");
    assert_eq!(lib.component_types[0].components.len(), 1);
    assert!(writebacks.is_empty());
}

#[test]
fn test_load_library_reports_id_writebacks() {
    let (manifest, schemas, mut csv_files) = library_fixture();
    csv_files.add("resistors.csv".to_string(), "value\n10k\n".to_string());
    let (lib, writebacks) = load_library(&manifest, &schemas, &csv_files).unwrap();
    assert_eq!(lib.component_types[0].components.len(), 1);
    assert_eq!(writebacks.len(), 1);
    assert_eq!(writebacks[0].0, "resistors.csv");
    assert!(writebacks[0].1.starts_with("id,value\n"));
}

#[test]
fn test_load_library_missing_csv_fails() {
    let (manifest, schemas, _) = library_fixture();
    let empty = FileSet::new();
    assert!(load_library(&manifest, &schemas, &empty).is_err());
}

#[test]
fn test_runtime_registry_insert_get_remove() {
    let (manifest, schemas, csv_files) = library_fixture();
    let (lib, _) = load_library(&manifest, &schemas, &csv_files).unwrap();
    let mut registry = ProjectRegistry::new();
    registry.insert("tok", lib);
    assert_eq!(registry.len(), 1);
    assert_eq!(registry.get("tok").unwrap().name, "test-lib");
    assert!(registry.get("other").is_none());
    let tokens = registry.all_tokens();
    assert_eq!(tokens, vec!["tok".to_string()]);
    registry.remove("tok");
    assert_eq!(registry.len(), 0);
    assert!(registry.get("tok").is_none());
}

#[test]
fn test_runtime_registry_reload_replaces() {
    let (manifest, schemas, csv_files) = library_fixture();
    let (lib, _) = load_library(&manifest, &schemas, &csv_files).unwrap();
    let mut registry = ProjectRegistry::new();
    registry.insert("tok", lib);
    let mut csv2 = FileSet::new();
    csv2.add("resistors.csv".to_string(), "id,value\n1,10k\n2,47k\n".to_string());
    let (lib2, _) = load_library(&manifest, &schemas, &csv2).unwrap();
    registry.reload("tok", lib2);
    assert_eq!(registry.len(), 1);
    assert_eq!(registry.get("tok").unwrap().component_types[0].components.len(), 2);
}
