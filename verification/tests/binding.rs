use janitor::binding::{
    check_mapping_names, lazy_dupes_check, lazy_remove_empty_axis, name_frames, parse_header_search_column,
    parse_optional_columns, parse_required_columns, parse_row_selector, resolve_header_row,
    selected_columns_py,
    validate_key_columns_py, ArgError, ArgErrorKind, ColumnsArg, PyScalar, RowSelector,
    COLUMN_ERROR, LAZY_AXIS_ERROR, ROW_ERROR,
};
use janitor::frame::{Cell, Frame, FrameColumn, HeaderSearchColumn, JanitorError, AXIS_ERROR};
use janitor::schema::ColumnSchema;

fn strings(values: &[&str]) -> Vec<String> {
    values.iter().map(|value| value.to_string()).collect()
}

fn refusal<T: std::fmt::Debug>(result: Result<T, ArgError>) -> (ArgErrorKind, String) {
    let error = result.unwrap_err();
    (error.kind, error.message)
}

#[test]
fn row_selector_reads_each_kind_of_argument() {
    assert_eq!(parse_row_selector(PyScalar::NoneValue).unwrap(), RowSelector::FindHeader);
    assert_eq!(
        parse_row_selector(PyScalar::Str("find_header".to_string())).unwrap(),
        RowSelector::FindHeader
    );
    assert_eq!(parse_row_selector(PyScalar::Int(3)).unwrap(), RowSelector::Index(3));
    assert_eq!(parse_row_selector(PyScalar::Int(0)).unwrap(), RowSelector::Index(0));
    assert_eq!(
        refusal(parse_row_selector(PyScalar::Str("first".to_string()))),
        (ArgErrorKind::Value, ROW_ERROR.to_string())
    );
    assert_eq!(
        refusal(parse_row_selector(PyScalar::Int(-1))),
        (ArgErrorKind::Value, ROW_ERROR.to_string())
    );
    assert_eq!(
        refusal(parse_row_selector(PyScalar::Bool(true))),
        (ArgErrorKind::Type, ROW_ERROR.to_string())
    );
    assert_eq!(
        refusal(parse_row_selector(PyScalar::Other)),
        (ArgErrorKind::Type, ROW_ERROR.to_string())
    );
    assert_eq!(ROW_ERROR, "row must be a non-negative integer, None, or 'find_header'");
}

#[test]
fn header_search_column_reads_each_kind_of_argument() {
    assert!(parse_header_search_column(PyScalar::NoneValue).unwrap().is_none());
    match parse_header_search_column(PyScalar::Str("label".to_string())).unwrap() {
        Some(HeaderSearchColumn::Name(name)) => assert_eq!(name, "label"),
        other => panic!("unexpected {other:?}"),
    }
    match parse_header_search_column(PyScalar::Int(2)).unwrap() {
        Some(HeaderSearchColumn::Index(index)) => assert_eq!(index, 2),
        other => panic!("unexpected {other:?}"),
    }
    assert_eq!(
        refusal(parse_header_search_column(PyScalar::Int(-4))),
        (ArgErrorKind::Value, COLUMN_ERROR.to_string())
    );
    assert_eq!(
        refusal(parse_header_search_column(PyScalar::Bool(false))),
        (ArgErrorKind::Type, COLUMN_ERROR.to_string())
    );
    assert_eq!(
        refusal(parse_header_search_column(PyScalar::Other)),
        (ArgErrorKind::Type, COLUMN_ERROR.to_string())
    );
}

#[test]
fn required_columns_accept_a_name_or_a_list_of_names() {
    assert_eq!(
        parse_required_columns(ColumnsArg::Single("id".to_string()), "keys").unwrap(),
        strings(&["id"])
    );
    assert_eq!(
        parse_required_columns(
            ColumnsArg::Items(vec![Some("id".to_string()), Some("name".to_string())]),
            "keys"
        )
        .unwrap(),
        strings(&["id", "name"])
    );
}

#[test]
fn required_columns_refuse_other_items_and_empty_lists() {
    assert_eq!(
        refusal(parse_required_columns(ColumnsArg::NotIterable, "keys")),
        (ArgErrorKind::Type, "keys must contain only column names".to_string())
    );
    assert_eq!(
        refusal(parse_required_columns(
            ColumnsArg::Items(vec![Some("id".to_string()), None]),
            "subset"
        )),
        (ArgErrorKind::Type, "subset must contain only column names".to_string())
    );
    assert_eq!(
        refusal(parse_required_columns(ColumnsArg::Items(Vec::new()), "keys")),
        (ArgErrorKind::Value, "keys must contain at least one column".to_string())
    );
}

#[test]
fn optional_columns_pass_none_through() {
    assert_eq!(parse_optional_columns(None, "subset").unwrap(), None);
    assert_eq!(
        parse_optional_columns(Some(ColumnsArg::Single("a".to_string())), "subset").unwrap(),
        Some(strings(&["a"]))
    );
    assert_eq!(
        refusal(parse_optional_columns(Some(ColumnsArg::Items(Vec::new())), "subset")),
        (ArgErrorKind::Value, "subset must contain at least one column".to_string())
    );
}

#[test]
fn selected_columns_default_to_all_and_report_missing_ones() {
    let available = strings(&["a", "b", "c"]);
    assert_eq!(selected_columns_py(&available, None, "subset").unwrap(), available);
    assert_eq!(
        selected_columns_py(&available, Some(strings(&["c", "a"])), "subset").unwrap(),
        strings(&["c", "a"])
    );
    assert_eq!(
        refusal(selected_columns_py(&available, Some(strings(&["x", "b", "y"])), "subset")),
        (
            ArgErrorKind::Value,
            "subset columns are not present in the frame: ['x', 'y']".to_string()
        )
    );
}

#[test]
fn key_columns_must_be_present() {
    let available = strings(&["id", "value"]);
    assert!(validate_key_columns_py(&available, &strings(&["id"])).is_ok());
    assert_eq!(
        refusal(validate_key_columns_py(&available, &strings(&["id", "missing"]))),
        (ArgErrorKind::Value, "keys are not present in the frame: ['missing']".to_string())
    );
}

#[test]
fn lazy_remove_empty_supports_rows_only() {
    assert!(lazy_remove_empty_axis("rows").is_ok());
    assert_eq!(
        refusal(lazy_remove_empty_axis("cols")),
        (ArgErrorKind::NotImplemented, LAZY_AXIS_ERROR.to_string())
    );
    assert_eq!(
        refusal(lazy_remove_empty_axis("both")),
        (ArgErrorKind::NotImplemented, LAZY_AXIS_ERROR.to_string())
    );
    assert_eq!(
        refusal(lazy_remove_empty_axis("diagonal")),
        (ArgErrorKind::Value, AXIS_ERROR.to_string())
    );
    assert_eq!(AXIS_ERROR, "axis must be one of: 'rows', 'cols', 'both'");
}

#[test]
fn lazy_dupes_check_refuses_missing_keys_and_taken_count_names() {
    let columns = strings(&["id", "duplicate_count"]);
    assert!(lazy_dupes_check(&columns, &strings(&["id"]), false, "duplicate_count").is_ok());
    assert!(lazy_dupes_check(&columns, &strings(&["id"]), true, "n").is_ok());
    assert_eq!(
        refusal(lazy_dupes_check(&columns, &strings(&["id"]), true, "duplicate_count")),
        (
            ArgErrorKind::Value,
            "count_name already exists in the frame: \"duplicate_count\"".to_string()
        )
    );
    assert_eq!(
        refusal(lazy_dupes_check(&columns, &strings(&["other"]), true, "duplicate_count")),
        (ArgErrorKind::Value, "keys are not present in the frame: ['other']".to_string())
    );
}

fn columns(pairs: &[(&str, &str)]) -> Vec<ColumnSchema> {
    pairs
        .iter()
        .map(|(name, dtype)| ColumnSchema { name: name.to_string(), dtype: dtype.to_string() })
        .collect()
}

#[test]
fn frames_are_named_by_position_or_by_the_given_names() {
    let frames = vec![columns(&[("a", "i64")]), columns(&[("b", "str")])];
    let named = name_frames(frames.clone(), None).unwrap();
    assert_eq!(named.len(), 2);
    assert_eq!(named[0].name, "frame_1");
    assert_eq!(named[1].name, "frame_2");
    assert_eq!(named[1].columns[0].name, "b");
    assert_eq!(named[1].columns[0].dtype, "str");

    let named = name_frames(frames.clone(), Some(strings(&["left", "right"]))).unwrap();
    assert_eq!(named[0].name, "left");
    assert_eq!(named[1].name, "right");
    assert_eq!(named[0].columns[0].name, "a");
}

#[test]
fn frame_names_must_match_the_number_of_frames() {
    let frames = vec![columns(&[("a", "i64")]), columns(&[("b", "str")])];
    assert_eq!(
        refusal(name_frames(frames.clone(), Some(strings(&["only"])))),
        (ArgErrorKind::Value, "names must contain exactly 2 values".to_string())
    );
    assert_eq!(
        refusal(name_frames(frames, Some(strings(&["x", "y", "z"])))),
        (ArgErrorKind::Value, "names must contain exactly 2 values".to_string())
    );
}

#[test]
fn many_frames_get_two_digit_default_names() {
    let frames: Vec<Vec<ColumnSchema>> = (0..12).map(|_| columns(&[("a", "i64")])).collect();
    let named = name_frames(frames, None).unwrap();
    assert_eq!(named[9].name, "frame_10");
    assert_eq!(named[11].name, "frame_12");
}

#[test]
fn header_row_is_the_given_index_or_the_first_complete_row() {
    let column = |name: &str, cells: &[Option<&str>]| FrameColumn {
        name: name.to_string(),
        dtype: "str".to_string(),
        cells: cells
            .iter()
            .map(|cell| match cell {
                Some(text) => Cell::Value(text.to_string()),
                None => Cell::Null,
            })
            .collect(),
    };
    let df = Frame::new(
        3,
        vec![
            column("a", &[None, Some("Id"), Some("1")]),
            column("b", &[Some("note"), Some("Total"), Some("2")]),
        ],
    )
    .unwrap();
    assert_eq!(resolve_header_row(&df, RowSelector::Index(2)).unwrap(), 2);
    assert_eq!(resolve_header_row(&df, RowSelector::FindHeader).unwrap(), 1);
    let empty = Frame::new(0, Vec::new()).unwrap();
    match resolve_header_row(&empty, RowSelector::FindHeader) {
        Err(JanitorError::Value(message)) => assert_eq!(message, "no header row found"),
        other => panic!("unexpected {other:?}"),
    }
}

#[test]
fn a_mapping_takes_no_names() {
    assert!(check_mapping_names(false).is_ok());
    assert_eq!(
        refusal(check_mapping_names(true)),
        (ArgErrorKind::Value, "names cannot be used when frames is a mapping".to_string())
    );
}
