use kicodex::kicadlib::{
    extract_field, extract_symbol_names, find_matching_paren, parse_lib_table, resolve_env_vars,
    KicadLibraries, LibContent, LibLookup, LibSlot,
};

fn chars(s: &str) -> Vec<char> {
    s.chars().collect()
}

#[test]
fn test_parse_lib_table() {
    let content = r#"(sym_lib_table
  (version 7)
  (lib (name "Device")(type "KiCad")(uri "${KICAD8_SYMBOL_DIR}/Device.kicad_sym")(options "")(descr ""))
  (lib (name "Connector")(type "KiCad")(uri "${KICAD8_SYMBOL_DIR}/Connector.kicad_sym")(options "")(descr ""))
)"#;
    let entries = parse_lib_table(content);
    assert_eq!(entries.len(), 2);
    assert_eq!(entries[0].name, "Device");
    assert_eq!(entries[0].uri, "${KICAD8_SYMBOL_DIR}/Device.kicad_sym");
    assert_eq!(entries[1].name, "Connector");
}

#[test]
fn test_parse_lib_table_fp() {
    let content = r#"(fp_lib_table
  (version 7)
  (lib (name "Resistor_SMD")(type "KiCad")(uri "${KICAD8_FOOTPRINT_DIR}/Resistor_SMD.pretty")(options "")(descr ""))
)"#;
    let entries = parse_lib_table(content);
    assert_eq!(entries.len(), 1);
    assert_eq!(entries[0].name, "Resistor_SMD");
}

#[test]
fn test_extract_symbol_names() {
    let content = r#"(kicad_symbol_lib
  (version 20231120)
  (symbol "Device:R"
    (property "Reference" "R")
    (symbol "Device:R_0_1"
      (polyline (pts (xy 0 0)) )
    )
  )
  (symbol "Device:C"
    (property "Reference" "C")
  )
)"#;
    let names = extract_symbol_names(content);
    assert_eq!(names, vec!["R", "C"]);
}

#[test]
fn test_extract_symbol_names_no_prefix() {
    let content = r#"(kicad_symbol_lib
  (symbol "MyPart"
    (property "Reference" "U")
  )
)"#;
    let names = extract_symbol_names(content);
    assert_eq!(names, vec!["MyPart"]);
}

#[test]
fn test_find_matching_paren() {
    let s = "(lib (name \"Device\")(uri \"path\"))";
    let v = chars(s);
    assert_eq!(find_matching_paren(&v, 0), Some(s.len() - 1));
}

#[test]
fn test_extract_field_quoted() {
    let block = chars(r#"(lib (name "Device")(type "KiCad")(uri "/path/to/lib.kicad_sym"))"#);
    assert_eq!(extract_field(&block, &chars("name")), Some("Device".to_string()));
    assert_eq!(
        extract_field(&block, &chars("uri")),
        Some("/path/to/lib.kicad_sym".to_string())
    );
    assert_eq!(extract_field(&block, &chars("missing")), None);
}

#[test]
fn test_extract_field_unquoted() {
    let block = chars(
        r#"(lib (name Audio_Module)(type Kicad)(uri ${KICAD9_FOOTPRINT_DIR}/Audio_Module.pretty)(options "")(descr ""))"#,
    );
    assert_eq!(extract_field(&block, &chars("name")), Some("Audio_Module".to_string()));
    assert_eq!(
        extract_field(&block, &chars("uri")),
        Some("${KICAD9_FOOTPRINT_DIR}/Audio_Module.pretty".to_string())
    );
}

#[test]
fn test_resolve_env_vars() {
    let vars = vec![("TEST_KICAD_VAR".to_string(), "/test/path".to_string())];
    let result = resolve_env_vars("${TEST_KICAD_VAR}/Device.kicad_sym", &vars);
    assert_eq!(result, "/test/path/Device.kicad_sym");
}

#[test]
fn test_resolve_env_vars_no_vars() {
    let vars: Vec<(String, String)> = Vec::new();
    let result = resolve_env_vars("/some/literal/path.kicad_sym", &vars);
    assert_eq!(result, "/some/literal/path.kicad_sym");
}

fn loaded_table(name: &str, entries: Vec<&str>) -> KicadLibraries {
    KicadLibraries {
        symbol_libs: vec![LibSlot {
            name: name.to_string(),
            content: LibContent::Loaded(entries.into_iter().map(|e| e.to_string()).collect()),
        }],
        footprint_libs: Vec::new(),
    }
}

#[test]
fn test_lookup_found() {
    let libs = loaded_table("Device", vec!["R", "C"]);
    assert_eq!(libs.has_symbol("Device:R"), LibLookup::Found);
}

#[test]
fn test_lookup_entry_not_found() {
    let libs = loaded_table("Device", vec!["R"]);
    assert_eq!(
        libs.has_symbol("Device:L"),
        LibLookup::EntryNotFound("Device".to_string(), "L".to_string())
    );
}

#[test]
fn test_lookup_library_not_found() {
    let libs = KicadLibraries { symbol_libs: Vec::new(), footprint_libs: Vec::new() };
    assert_eq!(
        libs.has_symbol("Missing:R"),
        LibLookup::LibraryNotFound("Missing".to_string())
    );
}

#[test]
fn test_lookup_library_unreadable() {
    let libs = KicadLibraries {
        symbol_libs: vec![LibSlot {
            name: "Broken".to_string(),
            content: LibContent::Unreadable,
        }],
        footprint_libs: Vec::new(),
    };
    assert_eq!(
        libs.has_symbol("Broken:X"),
        LibLookup::LibraryUnreadable("Broken".to_string())
    );
}

#[test]
fn test_pending_library_is_loaded_on_demand() {
    let mut libs = KicadLibraries {
        symbol_libs: vec![LibSlot {
            name: "Device".to_string(),
            content: LibContent::Pending("/somewhere/Device.kicad_sym".to_string()),
        }],
        footprint_libs: Vec::new(),
    };
    let pending = libs.pending_symbol_lib("Device:R");
    assert_eq!(
        pending,
        Some(("Device".to_string(), "/somewhere/Device.kicad_sym".to_string()))
    );
    libs.provide_symbol_lib(&"Device".to_string(), Some(vec!["R".to_string()]));
    assert_eq!(libs.has_symbol("Device:R"), LibLookup::Found);
    assert_eq!(libs.pending_symbol_lib("Device:R"), None);
}

#[test]
fn test_load_first_entry_per_nickname_wins() {
    let libs = KicadLibraries::load(
        vec![
            ("Device".to_string(), "/a/Device.kicad_sym".to_string(), true),
            ("Device".to_string(), "/b/Device.kicad_sym".to_string(), true),
            ("Gone".to_string(), "/a/Gone.kicad_sym".to_string(), false),
        ],
        Vec::new(),
    );
    assert_eq!(libs.symbol_libs.len(), 2);
    assert_eq!(libs.symbol_libs[0].name, "Device");
    match &libs.symbol_libs[0].content {
        LibContent::Pending(p) => assert_eq!(p, "/a/Device.kicad_sym"),
        _ => panic!("first entry should win and be pending"),
    }
    match &libs.symbol_libs[1].content {
        LibContent::Unreadable => {}
        _ => panic!("a missing location is unreadable"),
    }
}

#[test]
fn test_list_symbol_libraries_sorted() {
    let libs = KicadLibraries::load(
        vec![
            ("Zeta".to_string(), "/z.kicad_sym".to_string(), true),
            ("Alpha".to_string(), "/a.kicad_sym".to_string(), true),
            ("Mid".to_string(), "/m.kicad_sym".to_string(), false),
        ],
        Vec::new(),
    );
    assert_eq!(libs.list_symbol_libraries(), vec!["Alpha", "Mid", "Zeta"]);
}

#[test]
fn test_list_footprint_libraries_sorted() {
    let libs = KicadLibraries::load(
        Vec::new(),
        vec![
            ("b".to_string(), "/b.pretty".to_string(), true),
            ("a".to_string(), "/a.pretty".to_string(), true),
        ],
    );
    assert_eq!(libs.list_footprint_libraries(), vec!["a", "b"]);
}

#[test]
fn test_pending_then_provide_loads_symbols() {
    let mut libs = KicadLibraries::load(
        vec![("Device".to_string(), "/a/Device.kicad_sym".to_string(), true)],
        Vec::new(),
    );
    let (name, path) = libs.pending_symbol_lib("Device:R").expect("pending");
    assert_eq!(name, "Device");
    assert_eq!(path, "/a/Device.kicad_sym");
    libs.provide_symbol_lib(&"Device".to_string(), Some(vec!["R".to_string()]));
    assert!(libs.pending_symbol_lib("Device:R").is_none());
    assert_eq!(libs.list_symbols(&"Device".to_string()).unwrap(), vec!["R"]);
}
