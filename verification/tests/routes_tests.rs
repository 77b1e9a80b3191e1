use kicodex::auth::{authorize, AuthOutcome};
use kicodex::registry::ProjectRegistry;
use kicodex::library::{LoadedComponentType, LoadedLibrary};
use kicodex::models::FieldValue;
use kicodex::routes::{
    bool_str, bool_to_kicad, build_part_detail, get_categories, get_part_detail,
    get_parts_by_category, get_root, ApiError,
};
use kicodex::schema::{FieldDef, FieldMap, ResolvedSchema};
use kicodex::store::load_csv_with_ids;

fn field(display_name: &str, visible: bool) -> FieldDef {
    FieldDef {
        display_name: display_name.to_string(),
        required: false,
        visible,
        description: None,
        field_type: None,
    }
}

fn resistor_library() -> LoadedLibrary {
    let mut fields = FieldMap::new();
    fields.insert("value".to_string(), field("Value", true));
    fields.insert("description".to_string(), field("Description", false));
    fields.insert("reference".to_string(), field("reference", false));
    let template = ResolvedSchema {
        exclude_from_bom: false,
        exclude_from_board: false,
        exclude_from_sim: false,
        fields,
    };
    let loaded =
        load_csv_with_ids("id,value,description,reference\n1,10K,RES,R\n").unwrap();
    LoadedLibrary {
        name: "test-lib".to_string(),
        description: None,
        component_types: vec![LoadedComponentType {
            name: "Resistors".to_string(),
            template_name: "resistor".to_string(),
            components: loaded.rows,
            template,
        }],
    }
}

#[test]
fn test_root_handshake_is_two_empty_strings() {
    let r = get_root();
    assert_eq!(r.categories, "");
    assert_eq!(r.parts, "");
}

#[test]
fn test_categories_are_one_based_decimal_strings() {
    let lib = resistor_library();
    let cats = get_categories(&lib);
    assert_eq!(cats.len(), 1);
    assert_eq!(cats[0].id, "1");
    assert_eq!(cats[0].name, "Resistors");
    assert_eq!(cats[0].description, "");
}

#[test]
fn test_parts_by_category_lists_rows() {
    let lib = resistor_library();
    let parts = get_parts_by_category(&lib, "1").unwrap();
    assert_eq!(parts.len(), 1);
    assert_eq!(parts[0].id, "1");
    // No mpn column, so the value column names the part.
    assert_eq!(parts[0].name, "10K");
    assert_eq!(parts[0].description, "RES");
}

#[test]
fn test_category_json_suffix_is_stripped() {
    let lib = resistor_library();
    assert!(get_parts_by_category(&lib, "1.json").is_ok());
}

#[test]
fn test_category_out_of_range_is_not_found() {
    let lib = resistor_library();
    assert!(matches!(get_parts_by_category(&lib, "0"), Err(ApiError::NotFound)));
    assert!(matches!(get_parts_by_category(&lib, "2"), Err(ApiError::NotFound)));
    assert!(matches!(get_parts_by_category(&lib, "-1"), Err(ApiError::NotFound)));
    assert!(matches!(get_parts_by_category(&lib, "x"), Err(ApiError::NotFound)));
}

fn field_of<'a>(fields: &'a [(String, FieldValue)], name: &str) -> &'a FieldValue {
    &fields.iter().find(|(n, _)| n == name).unwrap().1
}

#[test]
fn test_part_detail_visibility_policy() {
    let lib = resistor_library();
    let d = get_part_detail(&lib, "1.json").unwrap();
    assert_eq!(d.id, "1");
    assert_eq!(d.name, "10K");
    assert_eq!(d.symbol_id_str, "");
    assert_eq!(d.exclude_from_bom, "False");
    assert_eq!(d.exclude_from_board, "False");
    assert_eq!(d.exclude_from_sim, "False");
    // Visible by schema: no marker. Hidden: the string False. Visible by
    // default (reference): no marker.
    let value = field_of(&d.fields, "Value");
    assert_eq!(value.value, "10K");
    assert!(value.visible.is_none());
    let description = field_of(&d.fields, "Description");
    assert_eq!(description.value, "RES");
    assert_eq!(description.visible.as_deref(), Some("False"));
    let reference = field_of(&d.fields, "reference");
    assert_eq!(reference.value, "R");
    assert!(reference.visible.is_none());
    // The id column feeds the top level, not the fields mapping.
    assert!(d.fields.iter().all(|(n, _)| n != "id"));
}

#[test]
fn test_part_detail_unknown_id_is_not_found() {
    let lib = resistor_library();
    assert!(matches!(get_part_detail(&lib, "99"), Err(ApiError::NotFound)));
}

#[test]
fn test_detail_excludes_top_level_columns() {
    let mut fields = FieldMap::new();
    fields.insert("value".to_string(), field("Value", true));
    let template = ResolvedSchema {
        exclude_from_bom: false,
        exclude_from_board: true,
        exclude_from_sim: false,
        fields,
    };
    let loaded = load_csv_with_ids(
        "id,symbol,value,exclude_from_bom,exclude_from_board,exclude_from_sim,extra\n7,Device:R,1K,yes,,0,e\n",
    )
    .unwrap();
    let d = build_part_detail(&loaded.rows[0], &template);
    assert_eq!(d.id, "7");
    assert_eq!(d.symbol_id_str, "Device:R");
    // A non-empty cell overrides the schema; an empty one falls back.
    assert_eq!(d.exclude_from_bom, "True");
    assert_eq!(d.exclude_from_board, "True");
    assert_eq!(d.exclude_from_sim, "False");
    let names: Vec<&str> = d.fields.iter().map(|(n, _)| n.as_str()).collect();
    assert_eq!(names, vec!["Value", "extra"]);
}

#[test]
fn test_mpn_preferred_over_value_when_non_empty() {
    let mut fields = FieldMap::new();
    fields.insert("value".to_string(), field("Value", true));
    let template = ResolvedSchema {
        exclude_from_bom: false,
        exclude_from_board: false,
        exclude_from_sim: false,
        fields,
    };
    let loaded = load_csv_with_ids("id,mpn,value\n1,RC0603,10K\n2,,100K\n").unwrap();
    let d1 = build_part_detail(&loaded.rows[0], &template);
    assert_eq!(d1.name, "RC0603");
    let d2 = build_part_detail(&loaded.rows[1], &template);
    assert_eq!(d2.name, "100K");
}

#[test]
fn test_bool_normalization() {
    assert_eq!(bool_to_kicad(true), "True");
    assert_eq!(bool_to_kicad(false), "False");
    assert_eq!(bool_str(&"TRUE".to_string()), "True");
    assert_eq!(bool_str(&"1".to_string()), "True");
    assert_eq!(bool_str(&"Yes".to_string()), "True");
    assert_eq!(bool_str(&"no".to_string()), "False");
    assert_eq!(bool_str(&"".to_string()), "False");
}

#[test]
fn test_single_token_skips_auth() {
    let tokens = vec!["only".to_string()];
    match authorize(&tokens, None) {
        AuthOutcome::Granted(t) => assert_eq!(t, "only"),
        AuthOutcome::Unauthorized => panic!("expected the single token"),
    }
}

#[test]
fn test_multi_token_requires_header() {
    let tokens = vec!["aaa".to_string(), "bbb".to_string()];
    assert!(matches!(authorize(&tokens, None), AuthOutcome::Unauthorized));
    let bad = "Bearer aaa".to_string();
    assert!(matches!(authorize(&tokens, Some(&bad)), AuthOutcome::Unauthorized));
    let unknown = "Token xxx".to_string();
    assert!(matches!(authorize(&tokens, Some(&unknown)), AuthOutcome::Unauthorized));
    let good = "Token aaa".to_string();
    match authorize(&tokens, Some(&good)) {
        AuthOutcome::Granted(t) => assert_eq!(t, "aaa"),
        AuthOutcome::Unauthorized => panic!("expected a grant"),
    }
}

#[test]
fn test_no_tokens_is_unauthorized() {
    let tokens: Vec<String> = Vec::new();
    let h = "Token anything".to_string();
    assert!(matches!(authorize(&tokens, Some(&h)), AuthOutcome::Unauthorized));
}

#[test]
fn test_two_tokens_route_to_distinct_libraries() {
    let mut registry = ProjectRegistry::new();
    let mut lib_a = resistor_library();
    lib_a.component_types[0].name = "Resistors".to_string();
    let mut lib_b = resistor_library();
    lib_b.component_types[0].name = "Capacitors".to_string();
    registry.insert("aaa", lib_a);
    registry.insert("bbb", lib_b);
    let tokens = registry.all_tokens();
    let header_a = "Token aaa".to_string();
    let granted = match authorize(&tokens, Some(&header_a)) {
        AuthOutcome::Granted(t) => t,
        AuthOutcome::Unauthorized => panic!("expected a grant"),
    };
    let cats_a = get_categories(registry.get(&granted).unwrap());
    let header_b = "Token bbb".to_string();
    let granted_b = match authorize(&tokens, Some(&header_b)) {
        AuthOutcome::Granted(t) => t,
        AuthOutcome::Unauthorized => panic!("expected a grant"),
    };
    let cats_b = get_categories(registry.get(&granted_b).unwrap());
    assert_eq!(cats_a[0].name, "Resistors");
    assert_eq!(cats_b[0].name, "Capacitors");
    assert_ne!(cats_a[0].name, cats_b[0].name);
}
