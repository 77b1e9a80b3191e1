use kicodex::schema::{
    load_schema, load_template, FieldDef, FieldMap, RawSchema, SchemaDir, SchemaError, SchemaFile,
};

fn field(display_name: &str, required: bool) -> FieldDef {
    FieldDef {
        display_name: display_name.to_string(),
        required,
        visible: false,
        description: None,
        field_type: None,
    }
}

fn raw(based_on: Option<&str>, bom: Option<bool>, keys: Vec<(&str, &str)>) -> RawSchema {
    let mut fields = FieldMap::new();
    for (k, dn) in keys {
        fields.insert(k.to_string(), field(dn, true));
    }
    RawSchema {
        based_on: based_on.map(|b| b.to_string()),
        exclude_from_bom: bom,
        exclude_from_board: None,
        exclude_from_sim: None,
        fields,
    }
}

fn test_dir() -> SchemaDir {
    let mut dir = SchemaDir::new();
    dir.add(
        "_base".to_string(),
        SchemaFile::Parsed(raw(
            None,
            None,
            vec![
                ("mpn", "MPN"),
                ("manufacturer", "Manufacturer"),
                ("description", "Description"),
                ("value", "Name"),
                ("symbol", "Symbol"),
                ("footprint", "Footprint"),
                ("datasheet", "Datasheet"),
            ],
        )),
    );
    dir.add(
        "resistor".to_string(),
        SchemaFile::Parsed(raw(
            Some("_base"),
            None,
            vec![
                ("resistance", "Resistance"),
                ("tolerance", "Tolerance"),
                ("power_rating", "Power Rating"),
                ("package", "Package"),
            ],
        )),
    );
    dir
}

#[test]
fn test_load_base_schema() {
    let dir = test_dir();
    let schema = load_schema(&dir, "_base").unwrap();
    assert_eq!(schema.fields.len(), 7);
    assert!(schema.fields.get(&"mpn".to_string()).is_some());
    assert!(schema.fields.get(&"datasheet".to_string()).is_some());
}

#[test]
fn test_load_inherited_schema() {
    let dir = test_dir();
    let schema = load_schema(&dir, "resistor").unwrap();
    // Seven base fields and four of the resistor's own.
    assert_eq!(schema.fields.len(), 11);
    assert!(schema.fields.get(&"mpn".to_string()).is_some());
    assert!(schema.fields.get(&"resistance".to_string()).is_some());
    assert!(schema.fields.get(&"package".to_string()).is_some());
    // Base fields come first, then the schema's own.
    assert_eq!(schema.fields.key_at(0), "mpn");
    assert_eq!(schema.fields.key_at(7), "resistance");
}

#[test]
fn test_load_inherited_template_old_key() {
    let mut dir = SchemaDir::new();
    dir.add(
        "_base".to_string(),
        SchemaFile::Parsed(raw(None, None, vec![("mpn", "MPN")])),
    );
    dir.add(
        "test".to_string(),
        SchemaFile::Parsed(raw(Some("_base"), None, vec![("extra", "Extra")])),
    );
    let template = load_template(&dir, "test").unwrap();
    assert_eq!(template.fields.len(), 2);
    assert!(template.fields.get(&"mpn".to_string()).is_some());
    assert!(template.fields.get(&"extra".to_string()).is_some());
}

#[test]
fn test_missing_parent_template() {
    let dir = test_dir();
    let result = load_schema(&dir, "nonexistent");
    assert!(result.is_err());
    assert!(matches!(result, Err(SchemaError::MissingParent(_))));
}

#[test]
fn test_child_can_override_parent_bool_to_false() {
    let mut dir = SchemaDir::new();
    dir.add(
        "_base".to_string(),
        SchemaFile::Parsed(raw(None, Some(true), vec![("mpn", "MPN")])),
    );
    dir.add(
        "child".to_string(),
        SchemaFile::Parsed(raw(Some("_base"), Some(false), vec![("extra", "Extra")])),
    );
    let schema = load_schema(&dir, "child").unwrap();
    assert!(!schema.exclude_from_bom, "child should override parent's true to false");
}

#[test]
fn test_child_inherits_parent_bool_when_omitted() {
    let mut dir = SchemaDir::new();
    dir.add(
        "_base".to_string(),
        SchemaFile::Parsed(raw(None, Some(true), vec![("mpn", "MPN")])),
    );
    dir.add(
        "child".to_string(),
        SchemaFile::Parsed(raw(Some("_base"), None, vec![("extra", "Extra")])),
    );
    let schema = load_schema(&dir, "child").unwrap();
    assert!(schema.exclude_from_bom, "child should inherit parent's true when omitted");
}

#[test]
fn test_repeated_key_takes_child_descriptor_at_parent_position() {
    let mut dir = SchemaDir::new();
    dir.add(
        "parent".to_string(),
        SchemaFile::Parsed(raw(None, None, vec![("a", "A"), ("b", "B")])),
    );
    dir.add(
        "child".to_string(),
        SchemaFile::Parsed(raw(Some("parent"), None, vec![("b", "B2"), ("c", "C")])),
    );
    let schema = load_schema(&dir, "child").unwrap();
    assert_eq!(schema.fields.len(), 3);
    assert_eq!(schema.fields.key_at(0), "a");
    assert_eq!(schema.fields.key_at(1), "b");
    assert_eq!(schema.fields.key_at(2), "c");
    assert_eq!(schema.fields.get(&"b".to_string()).unwrap().display_name, "B2");
}

#[test]
fn test_cycle_is_an_error() {
    let mut dir = SchemaDir::new();
    dir.add(
        "a".to_string(),
        SchemaFile::Parsed(raw(Some("b"), None, vec![("x", "X")])),
    );
    dir.add(
        "b".to_string(),
        SchemaFile::Parsed(raw(Some("a"), None, vec![("y", "Y")])),
    );
    assert!(matches!(load_schema(&dir, "a"), Err(SchemaError::Cycle(_))));
}

#[test]
fn test_missing_base_is_its_own_error() {
    let dir = SchemaDir::new();
    assert!(matches!(load_schema(&dir, "_base"), Err(SchemaError::MissingBase(_))));
}

#[test]
fn test_broken_file_surfaces_when_needed() {
    let mut dir = SchemaDir::new();
    dir.add("bad".to_string(), SchemaFile::Broken("boom".to_string()));
    assert!(matches!(load_schema(&dir, "bad"), Err(SchemaError::Yaml(_))));
}
