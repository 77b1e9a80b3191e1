use kicodex::kicadlib::{KicadLibraries, LibContent, LibSlot};
use kicodex::library::{LoadedComponentType, LoadedLibrary};
use kicodex::schema::{FieldDef, FieldMap, ResolvedSchema};
use kicodex::store::load_csv_with_ids;
use kicodex::validate::{count_issues, validate_library, Severity};

fn field(display_name: &str, required: bool, field_type: Option<&str>) -> FieldDef {
    FieldDef {
        display_name: display_name.to_string(),
        required,
        visible: false,
        description: None,
        field_type: field_type.map(|t| t.to_string()),
    }
}

fn library_of(csv: &str, fields: Vec<(&str, FieldDef)>) -> LoadedLibrary {
    let mut map = FieldMap::new();
    for (k, fd) in fields {
        map.insert(k.to_string(), fd);
    }
    let template = ResolvedSchema {
        exclude_from_bom: false,
        exclude_from_board: false,
        exclude_from_sim: false,
        fields: map,
    };
    let loaded = load_csv_with_ids(csv).unwrap();
    LoadedLibrary {
        name: "lib".to_string(),
        description: None,
        component_types: vec![LoadedComponentType {
            name: "Parts".to_string(),
            template_name: "parts".to_string(),
            components: loaded.rows,
            template,
        }],
    }
}

#[test]
fn test_validate_clean_library_has_no_issues() {
    let lib = library_of(
        "id,value\n1,10K\n",
        vec![("value", field("Value", true, None))],
    );
    let issues = validate_library(&lib, &Vec::new(), None);
    assert!(issues.is_empty());
}

#[test]
fn test_validate_flags_missing_required_column() {
    let lib = library_of(
        "id,value\n1,10K\n",
        vec![
            ("value", field("Value", true, None)),
            ("footprint", field("Footprint", true, Some("kicad_footprint"))),
        ],
    );
    let issues = validate_library(&lib, &Vec::new(), None);
    assert!(issues
        .iter()
        .any(|i| i.message.contains("required field 'footprint' is missing")));
    let (errors, _) = count_issues(&issues);
    assert!(errors >= 1);
}

#[test]
fn test_validate_flags_empty_required_value() {
    let lib = library_of(
        "id,value\n1,\n",
        vec![("value", field("Value", true, None))],
    );
    let issues = validate_library(&lib, &Vec::new(), None);
    assert!(issues.iter().any(|i| i.message.contains("required field 'Value' is empty")));
}

#[test]
fn test_validate_flags_malformed_reference_and_bad_url() {
    let lib = library_of(
        "id,symbol2,datasheet\n1,DeviceR,ftp://x\n",
        vec![
            ("symbol2", field("Symbol", true, Some("kicad_symbol"))),
            ("datasheet", field("Datasheet", false, Some("url"))),
        ],
    );
    let issues = validate_library(&lib, &Vec::new(), None);
    assert!(issues.iter().any(|i| i.message.contains("invalid reference")));
    assert!(issues.iter().any(|i| i.message.contains("invalid URL")));
}

#[test]
fn test_validate_deep_lookup_reports_missing_entry() {
    let lib = library_of(
        "id,sym\n1,Device:L\n",
        vec![("sym", field("Symbol", true, Some("kicad_symbol")))],
    );
    let kicad = KicadLibraries {
        symbol_libs: vec![LibSlot {
            name: "Device".to_string(),
            content: LibContent::Loaded(vec!["R".to_string()]),
        }],
        footprint_libs: Vec::new(),
    };
    let issues = validate_library(&lib, &Vec::new(), Some(&kicad));
    assert!(issues.iter().any(|i| i.message.contains("'L' not found in library 'Device'")));
    let (_, warnings) = count_issues(&issues);
    assert!(warnings >= 1);
    assert!(issues.iter().all(|i| matches!(i.severity, Severity::Warn)));
}
