use janitor::frame::{Cell, Frame, FrameColumn, JanitorError};
use janitor::schema::{
    compare_df_cols_same_schemas, compare_df_cols_schemas, frame_schema_from_dataframe,
    polars_dtype_name, ColumnSchema, FrameSchema,
};

fn schema(name: &str, columns: &[(&str, &str)]) -> FrameSchema {
    FrameSchema {
        name: name.to_string(),
        columns: columns
            .iter()
            .map(|(name, dtype)| ColumnSchema { name: name.to_string(), dtype: dtype.to_string() })
            .collect(),
    }
}

fn message(error: JanitorError) -> String {
    match error {
        JanitorError::Value(message) => message,
        JanitorError::ColumnNotFound(message) => message,
    }
}

fn texts(df: &Frame, index: usize) -> Vec<Option<String>> {
    df.columns()[index]
        .cells
        .iter()
        .map(|cell| match cell {
            Cell::Value(text) => Some(text.clone()),
            Cell::Null => None,
        })
        .collect()
}

#[test]
fn compare_df_cols_reports_matches_and_mismatches() {
    let left = schema("left", &[("id", "Int64"), ("name", "String")]);
    let right = schema("right", &[("id", "Int64"), ("name", "Categorical")]);

    let result = compare_df_cols_schemas(&[left.clone(), right.clone()], "mismatch").unwrap();

    assert!(!compare_df_cols_same_schemas(&[left, right]).unwrap());
    assert_eq!(result.height(), 1);
}

#[test]
fn compare_table_lists_types_per_frame() {
    let left = schema("left", &[("id", "Int64"), ("name", "String")]);
    let right = schema("right", &[("name", "String"), ("extra", "Boolean")]);
    let all = compare_df_cols_schemas(&[left.clone(), right.clone()], "all").unwrap();
    let names: Vec<String> = all.columns().iter().map(|c| c.name.clone()).collect();
    assert_eq!(names, ["column_name", "left", "right"]);
    assert_eq!(
        texts(&all, 0),
        vec![Some("id".to_string()), Some("name".to_string()), Some("extra".to_string())]
    );
    assert_eq!(texts(&all, 1), vec![Some("Int64".to_string()), Some("String".to_string()), None]);
    assert_eq!(texts(&all, 2), vec![None, Some("String".to_string()), Some("Boolean".to_string())]);
    let matching = compare_df_cols_schemas(&[left.clone(), right.clone()], "match").unwrap();
    assert_eq!(texts(&matching, 0), vec![Some("name".to_string())]);
    assert!(!compare_df_cols_same_schemas(&[left.clone(), right]).unwrap());
    assert!(compare_df_cols_same_schemas(&[left.clone(), schema("copy", &[("id", "Int64"), ("name", "String")])]).unwrap());
    assert_eq!(compare_df_cols_schemas(&[left.clone(), left.clone()], "all").map(|_| ()).map_err(message).unwrap_err(), "frame names must be unique: \"left\"");
}

#[test]
fn compare_refuses_bad_arguments() {
    let left = schema("left", &[("id", "Int64")]);
    assert_eq!(
        message(compare_df_cols_schemas(&[left.clone()], "some").unwrap_err()),
        "return_ must be one of: 'all', 'match', 'mismatch'"
    );
    assert_eq!(
        message(compare_df_cols_schemas(&[], "all").unwrap_err()),
        "frames must contain at least one frame"
    );
    assert_eq!(
        message(compare_df_cols_same_schemas(&[left, schema("column_name", &[])]).unwrap_err()),
        "frame names must not include 'column_name'"
    );
}

#[test]
fn dtype_names_follow_polars_classes() {
    assert_eq!(polars_dtype_name("i64"), "Int64");
    assert_eq!(polars_dtype_name("str"), "String");
    assert_eq!(polars_dtype_name("bool"), "Boolean");
    assert_eq!(polars_dtype_name("u32"), "UInt32");
    assert_eq!(polars_dtype_name("f64"), "Float64");
    assert_eq!(polars_dtype_name("null"), "Null");
    assert_eq!(polars_dtype_name("date"), "date");
}

#[test]
fn frame_schema_maps_each_column() {
    let df = Frame::new(
        1,
        vec![
            FrameColumn { name: "a".to_string(), dtype: "i32".to_string(), cells: vec![Cell::Null] },
            FrameColumn { name: "b".to_string(), dtype: "str".to_string(), cells: vec![Cell::Value("x".to_string())] },
        ],
    )
    .unwrap();
    let schema = frame_schema_from_dataframe("df".to_string(), &df);
    assert_eq!(schema.name, "df");
    assert_eq!(schema.columns[0].dtype, "Int32");
    assert_eq!(schema.columns[1].dtype, "String");
}

#[test]
fn identical_schemas_compare_equal() {
    let columns: Vec<(String, String)> = (0..20u8)
        .map(|i| (format!("column_{i}"), ["Int64", "String", "Boolean", "Float64"][i as usize % 4].to_string()))
        .collect();
    let pairs: Vec<(&str, &str)> = columns.iter().map(|(a, b)| (a.as_str(), b.as_str())).collect();
    let left = schema("left", &pairs);
    let right = schema("right", &pairs);
    assert!(compare_df_cols_same_schemas(&[left.clone(), right.clone()]).unwrap());
    assert_eq!(compare_df_cols_schemas(&[left, right], "all").unwrap().height(), 20);
}

#[test]
fn match_and_mismatch_tables_split_the_full_table() {
    let left = schema("left", &[("id", "Int64"), ("name", "String"), ("a", "Boolean")]);
    let right = schema("right", &[("id", "Int64"), ("name", "Categorical"), ("b", "Float64")]);
    let frames = [left.clone(), right.clone()];
    let all = compare_df_cols_schemas(&frames, "all").unwrap().height();
    let matching = compare_df_cols_schemas(&frames, "match").unwrap().height();
    let mismatching = compare_df_cols_schemas(&frames, "mismatch").unwrap().height();
    assert_eq!((all, matching, mismatching), (4, 1, 3));
    assert!(!compare_df_cols_same_schemas(&frames).unwrap());

    let same = [left.clone(), schema("copy", &[("id", "Int64"), ("name", "String"), ("a", "Boolean")])];
    assert_eq!(compare_df_cols_schemas(&same, "mismatch").unwrap().height(), 0);
    assert!(compare_df_cols_same_schemas(&same).unwrap());
}
