use kicodex::rowmap::CsvRow;
use kicodex::store::{
    append_row, apply_update_fields, delete_row, load_csv_with_ids, remove_columns_row,
    remove_csv_columns, rename_columns_row, rename_csv_columns, update_row, write_csv, CsvError,
};

fn get<'a>(row: &'a CsvRow, key: &str) -> Option<&'a String> {
    row.get(&key.to_string())
}

#[test]
fn test_load_csv_with_existing_ids() {
    let content = "id,mpn,value\n1,RC0603FR-0710KL,10K\n2,RC0603FR-07100KL,100K\n";
    let loaded = load_csv_with_ids(content).unwrap();
    assert_eq!(loaded.rows.len(), 2);
    assert_eq!(get(&loaded.rows[0], "id").unwrap(), "1");
    assert_eq!(get(&loaded.rows[1], "id").unwrap(), "2");
    // Nothing changed, so nothing is written back.
    assert!(loaded.rewritten.is_none());
}

#[test]
fn test_load_csv_assigns_missing_ids() {
    let content = "id,mpn,value\n1,RC0603FR-0710KL,10K\n,RC0603FR-07100KL,100K\n";
    let loaded = load_csv_with_ids(content).unwrap();
    assert_eq!(loaded.rows.len(), 2);
    assert_eq!(get(&loaded.rows[0], "id").unwrap(), "1");
    let auto_id = get(&loaded.rows[1], "id").unwrap().clone();
    assert!(!auto_id.is_empty());
    assert_eq!(auto_id.len(), 36);
    let rewritten = loaded.rewritten.unwrap();
    assert!(rewritten.contains(&format!("{},RC0603FR-07100KL,100K", auto_id)));
}

#[test]
fn test_load_csv_handles_duplicate_ids() {
    let content = "id,mpn,value\n1,RC0603FR-0710KL,10K\n1,RC0603FR-07100KL,100K\n";
    let loaded = load_csv_with_ids(content).unwrap();
    assert_eq!(loaded.rows.len(), 2);
    assert_eq!(get(&loaded.rows[0], "id").unwrap(), "1");
    assert_ne!(get(&loaded.rows[1], "id").unwrap(), "1");
}

#[test]
fn test_load_csv_without_id_column() {
    let content = "mpn,value\nRC0603FR-0710KL,10K\nRC0603FR-07100KL,100K\n";
    let loaded = load_csv_with_ids(content).unwrap();
    assert_eq!(loaded.rows.len(), 2);
    assert!(!get(&loaded.rows[0], "id").unwrap().is_empty());
    assert!(!get(&loaded.rows[1], "id").unwrap().is_empty());
    // The id column is inserted first.
    assert_eq!(loaded.rows[0].key_at(0), "id");
    let rewritten = loaded.rewritten.unwrap();
    assert!(rewritten.starts_with("id,mpn,value"));
}

#[test]
fn test_second_load_rewrites_nothing() {
    let content = "mpn,value\nR1,10K\nR2,100K\n";
    let loaded = load_csv_with_ids(content).unwrap();
    let rewritten = loaded.rewritten.unwrap();
    assert!(rewritten.starts_with("id,mpn,value\n"));
    let again = load_csv_with_ids(&rewritten).unwrap();
    assert!(again.rewritten.is_none());
    assert_eq!(again.rows.len(), 2);
    for (a, b) in loaded.rows.iter().zip(again.rows.iter()) {
        assert_eq!(a.len(), b.len());
        for j in 0..a.len() {
            assert_eq!(a.key_at(j), b.key_at(j));
            assert_eq!(a.val_at(j), b.val_at(j));
        }
    }
}

#[test]
fn test_round_trip_preserves_data() {
    let original = "id,mpn,value,description\n1,RC0603FR-0710KL,10K,\"RES 10K OHM 1% 1/10W 0603\"\n2,RC0603FR-07100KL,100K,\"RES 100K OHM 1% 1/10W 0603\"\n";
    let loaded = load_csv_with_ids(original).unwrap();
    assert_eq!(get(&loaded.rows[0], "description").unwrap(), "RES 10K OHM 1% 1/10W 0603");
    assert_eq!(get(&loaded.rows[1], "description").unwrap(), "RES 100K OHM 1% 1/10W 0603");
    // Writing and loading again keeps every cell and the column order.
    let written = write_csv(&loaded.rows).unwrap();
    let again = load_csv_with_ids(&written).unwrap();
    assert!(again.rewritten.is_none());
    assert_eq!(again.rows.len(), loaded.rows.len());
    for (a, b) in loaded.rows.iter().zip(again.rows.iter()) {
        assert_eq!(a.len(), b.len());
        for j in 0..a.len() {
            assert_eq!(a.key_at(j), b.key_at(j));
            assert_eq!(a.val_at(j), b.val_at(j));
        }
    }
}

#[test]
fn test_empty_csv_yields_empty_table() {
    let content = "id,mpn,value\n";
    let loaded = load_csv_with_ids(content).unwrap();
    assert_eq!(loaded.rows.len(), 0);
    assert!(loaded.rewritten.is_none());
}

#[test]
fn test_no_headers_is_an_error() {
    let r = load_csv_with_ids("");
    assert!(matches!(r, Err(CsvError::NoHeaders)));
}

#[test]
fn test_ragged_record_is_an_error() {
    let r = load_csv_with_ids("id,a,b\n1,x\n");
    assert!(matches!(r, Err(CsvError::Csv(_))));
}

#[test]
fn test_quoted_fields_round_trip() {
    let content = "id,note\n1,\"a, \"\"quoted\"\" line\nwith newline\"\n";
    let loaded = load_csv_with_ids(content).unwrap();
    assert_eq!(get(&loaded.rows[0], "note").unwrap(), "a, \"quoted\" line\nwith newline");
    let written = write_csv(&loaded.rows).unwrap();
    let again = load_csv_with_ids(&written).unwrap();
    assert_eq!(get(&again.rows[0], "note").unwrap(), "a, \"quoted\" line\nwith newline");
}

#[test]
fn test_rename_csv_columns() {
    let content = "id,mpn,value\n1,RC0603FR-0710KL,10K\n2,RC0603FR-07100KL,100K\n";
    let renames = vec![("mpn".to_string(), "manufacturer_pn".to_string())];
    let new_content = rename_csv_columns(content, &renames).unwrap().unwrap();
    let rows = load_csv_with_ids(&new_content).unwrap().rows;
    assert_eq!(rows.len(), 2);
    assert!(get(&rows[0], "manufacturer_pn").is_some());
    assert!(get(&rows[0], "mpn").is_none());
    assert_eq!(get(&rows[0], "manufacturer_pn").unwrap(), "RC0603FR-0710KL");
    assert_eq!(get(&rows[1], "manufacturer_pn").unwrap(), "RC0603FR-07100KL");
    assert_eq!(get(&rows[0], "value").unwrap(), "10K");
}

#[test]
fn test_rename_csv_columns_missing_column() {
    let content = "id,mpn,value\n1,RC0603FR-0710KL,10K\n";
    let renames = vec![("nonexistent".to_string(), "something".to_string())];
    let new_content = rename_csv_columns(content, &renames).unwrap().unwrap();
    let rows = load_csv_with_ids(&new_content).unwrap().rows;
    assert_eq!(get(&rows[0], "mpn").unwrap(), "RC0603FR-0710KL");
}

#[test]
fn test_remove_csv_columns() {
    let content = "id,mpn,value,description\n1,RC0603FR-0710KL,10K,some desc\n2,RC0603FR-07100KL,100K,other desc\n";
    let new_content = remove_csv_columns(content, &vec!["description".to_string()])
        .unwrap()
        .unwrap();
    let rows = load_csv_with_ids(&new_content).unwrap().rows;
    assert_eq!(rows.len(), 2);
    assert!(get(&rows[0], "description").is_none());
    assert_eq!(get(&rows[0], "mpn").unwrap(), "RC0603FR-0710KL");
    assert_eq!(get(&rows[0], "value").unwrap(), "10K");
}

#[test]
fn test_remove_csv_columns_nonexistent() {
    let content = "id,mpn,value\n1,RC0603FR-0710KL,10K\n";
    let new_content = remove_csv_columns(content, &vec!["nonexistent".to_string()])
        .unwrap()
        .unwrap();
    let rows = load_csv_with_ids(&new_content).unwrap().rows;
    assert_eq!(get(&rows[0], "mpn").unwrap(), "RC0603FR-0710KL");
}

#[test]
fn test_empty_edit_lists_do_nothing() {
    let content = "id,a\n1,x\n";
    assert!(rename_csv_columns(content, &Vec::new()).unwrap().is_none());
    assert!(remove_csv_columns(content, &Vec::new()).unwrap().is_none());
}

#[test]
fn test_delete_row_removes_only_that_row() {
    let content = "id,value\n1,10K\n2,100K\n";
    let new_content = delete_row(content, "1").unwrap().unwrap();
    let rows = load_csv_with_ids(&new_content).unwrap().rows;
    assert_eq!(rows.len(), 1);
    assert_eq!(get(&rows[0], "id").unwrap(), "2");
}

#[test]
fn test_delete_last_row_leaves_nothing_to_write() {
    let content = "id,value\n1,10K\n";
    // Deleting the only row leaves an empty table, so the file is kept.
    assert!(delete_row(content, "1").unwrap().is_none());
}

#[test]
fn test_delete_row_unknown_id_is_an_error() {
    let content = "id,value\n1,10K\n";
    assert!(matches!(delete_row(content, "9"), Err(CsvError::Io(_))));
}

#[test]
fn test_update_row_overwrites_fields() {
    let content = "id,value\n1,10K\n2,100K\n";
    let mut fields = CsvRow::new();
    fields.insert("value".to_string(), "47K".to_string());
    let new_content = update_row(content, "2", &fields).unwrap();
    let rows = load_csv_with_ids(&new_content).unwrap().rows;
    assert_eq!(get(&rows[1], "value").unwrap(), "47K");
    assert_eq!(get(&rows[0], "value").unwrap(), "10K");
    // Identifiers never change on update.
    assert_eq!(get(&rows[0], "id").unwrap(), "1");
    assert_eq!(get(&rows[1], "id").unwrap(), "2");
}

#[test]
fn test_remove_columns_row_keeps_order_and_values() {
    let loaded = load_csv_with_ids("id,a,b,c\n1,x,y,z\n").unwrap();
    let cols = vec!["b".to_string()];
    let r = remove_columns_row(&loaded.rows[0], &cols);
    assert_eq!(r.len(), 3);
    assert_eq!(r.key_at(0), "id");
    assert_eq!(r.key_at(1), "a");
    assert_eq!(r.key_at(2), "c");
    assert_eq!(get(&r, "a").unwrap(), "x");
    assert_eq!(get(&r, "c").unwrap(), "z");
    assert!(get(&r, "b").is_none());
}

#[test]
fn test_rename_columns_row_keeps_positions() {
    let loaded = load_csv_with_ids("id,a,b\n1,x,y\n").unwrap();
    let renames = vec![("a".to_string(), "alpha".to_string())];
    let r = rename_columns_row(&loaded.rows[0], &renames);
    assert_eq!(r.key_at(0), "id");
    assert_eq!(r.key_at(1), "alpha");
    assert_eq!(r.key_at(2), "b");
    assert_eq!(get(&r, "alpha").unwrap(), "x");
    assert_eq!(get(&r, "b").unwrap(), "y");
}

#[test]
fn test_apply_update_fields_never_touches_id() {
    let loaded = load_csv_with_ids("id,value\n7,10K\n").unwrap();
    let mut fields = CsvRow::new();
    fields.insert("id".to_string(), "999".to_string());
    fields.insert("value".to_string(), "47K".to_string());
    fields.insert("extra".to_string(), "e".to_string());
    let r = apply_update_fields(&loaded.rows[0], &fields, &"id".to_string());
    assert_eq!(get(&r, "id").unwrap(), "7");
    assert_eq!(get(&r, "value").unwrap(), "47K");
    assert_eq!(get(&r, "extra").unwrap(), "e");
    assert_eq!(r.key_at(0), "id");
    assert_eq!(r.key_at(1), "value");
}

#[test]
fn test_rename_csv_columns_exact_output() {
    let content = "id,mpn,value\n1,x,10K\n2,y,100K\n";
    let renames = vec![("mpn".to_string(), "m".to_string())];
    let actual = rename_csv_columns(content, &renames).unwrap().unwrap();
    let expected = write_csv(&load_csv_with_ids("id,m,value\n1,x,10K\n2,y,100K\n").unwrap().rows)
        .unwrap();
    assert_eq!(actual, expected);
}

#[test]
fn test_remove_csv_columns_exact_output() {
    let content = "id,mpn,value\n1,x,10K\n2,y,100K\n";
    let actual = remove_csv_columns(content, &vec!["mpn".to_string()]).unwrap().unwrap();
    let expected = write_csv(&load_csv_with_ids("id,value\n1,10K\n2,100K\n").unwrap().rows)
        .unwrap();
    assert_eq!(actual, expected);
}

#[test]
fn test_update_row_exact_output() {
    let content = "id,value\n1,10K\n2,100K\n";
    let mut fields = CsvRow::new();
    fields.insert("value".to_string(), "47K".to_string());
    let actual = update_row(content, "2", &fields).unwrap();
    let expected = write_csv(&load_csv_with_ids("id,value\n1,10K\n2,47K\n").unwrap().rows)
        .unwrap();
    assert_eq!(actual, expected);
}

#[test]
fn test_append_row_shapes_record_by_header() {
    let content = "id,value,note\n1,10K,old\n";
    let mut fields = CsvRow::new();
    fields.insert("value".to_string(), "47K".to_string());
    fields.insert("id".to_string(), "ignored".to_string());
    let (new_content, new_id) = append_row(content, &fields).unwrap();
    assert_eq!(new_id.len(), 36);
    let rows = load_csv_with_ids(&new_content).unwrap().rows;
    assert_eq!(rows.len(), 2);
    assert_eq!(get(&rows[1], "id").unwrap(), &new_id);
    assert_eq!(get(&rows[1], "value").unwrap(), "47K");
    // A column no field names stays empty in the new record.
    assert_eq!(get(&rows[1], "note").unwrap(), "");
}
