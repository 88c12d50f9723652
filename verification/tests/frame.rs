use janitor::frame::{
    clean_names_df, dataframe_column_names, find_header_df, get_dupes_df, python_list,
    remove_constant_df, remove_empty_df, row_to_names_df, Cell, Frame, FrameColumn,
    HeaderSearchColumn, JanitorError,
};
use janitor::names::CASE_ERROR;

fn column(name: &str, dtype: &str, cells: &[Option<&str>]) -> FrameColumn {
    FrameColumn {
        name: name.to_string(),
        dtype: dtype.to_string(),
        cells: cells
            .iter()
            .map(|cell| match cell {
                Some(text) => Cell::Value(text.to_string()),
                None => Cell::Null,
            })
            .collect(),
    }
}

fn frame(height: usize, columns: Vec<FrameColumn>) -> Frame {
    Frame::new(height, columns).unwrap()
}

fn names(df: &Frame) -> Vec<String> {
    dataframe_column_names(df)
}

fn texts(df: &Frame, index: usize) -> Vec<Option<String>> {
    df.columns()[index]
        .cells
        .iter()
        .map(|cell| match cell {
            Cell::Value(text) => Some(text.clone()),
            Cell::Null => None,
        })
        .collect()
}

fn value_message(error: JanitorError) -> String {
    match error {
        JanitorError::Value(message) => message,
        JanitorError::ColumnNotFound(message) => panic!("unexpected column error {message}"),
    }
}

fn messy() -> Frame {
    frame(
        4,
        vec![
            column("column_1", "str", &[None, Some("Customer ID"), Some("1"), Some("2")]),
            column(
                "column_2",
                "str",
                &[Some("notes"), Some("Order Total"), Some("10"), Some("20")],
            ),
        ],
    )
}

#[test]
fn clean_names_renames_dataframe_columns() {
    let df = frame(
        2,
        vec![
            column("Customer ID", "i32", &[Some("1"), Some("2")]),
            column("% Complete", "f64", &[Some("0.5"), Some("1.0")]),
        ],
    );

    let result = clean_names_df(df, "snake").unwrap();

    assert_eq!(names(&result), ["customer_id", "percent_complete"]);
}

fn empty_frame() -> Frame {
    frame(
        3,
        vec![
            column("a", "i32", &[None, None, Some("1")]),
            column("b", "i32", &[None, None, None]),
            column("c", "str", &[Some("x"), None, Some("z")]),
        ],
    )
}

#[test]
fn remove_empty_handles_rows_columns_and_both() {
    let df = empty_frame();

    assert_eq!(remove_empty_df(df.copy(), "rows", None).unwrap().height(), 2);
    assert_eq!(names(&remove_empty_df(df.copy(), "cols", None).unwrap()), ["a", "c"]);
    assert_eq!(names(&remove_empty_df(df, "both", None).unwrap()), ["a", "c"]);
}

fn constant_frame() -> Frame {
    frame(
        3,
        vec![
            column("constant", "i32", &[Some("1"), Some("1"), Some("1")]),
            column("with_null", "i32", &[Some("1"), None, Some("1")]),
            column("varied", "i32", &[Some("1"), Some("2"), Some("1")]),
            column("nulls", "i32", &[None, None, None]),
        ],
    )
}

#[test]
fn remove_constant_respects_null_semantics() {
    let df = constant_frame();

    assert_eq!(
        names(&remove_constant_df(df.copy(), None, false).unwrap()),
        ["with_null", "varied"]
    );
    assert_eq!(names(&remove_constant_df(df, None, true).unwrap()), ["varied"]);
}

fn dupes_frame() -> Frame {
    frame(
        6,
        vec![
            column("id", "i32", &[Some("1"), Some("1"), Some("2"), Some("3"), Some("3"), Some("3")]),
            column("value", "str", &[Some("a"), Some("b"), Some("c"), Some("d"), Some("e"), Some("f")]),
        ],
    )
}

#[test]
fn get_dupes_returns_only_duplicate_key_rows() {
    let df = dupes_frame();

    let result = get_dupes_df(df, vec![String::from("id")], true, "duplicate_count").unwrap();

    assert_eq!(result.height(), 5);
    assert!(names(&result).contains(&String::from("duplicate_count")));
}

#[test]
fn find_header_and_row_to_names_handle_messy_spreadsheets() {
    let df = messy();

    let header = find_header_df(&df, None, None).unwrap();
    let result = row_to_names_df(df, header, true, true, "snake").unwrap();

    assert_eq!(header, 1);
    assert_eq!(names(&result), ["customer_id", "order_total"]);
    assert_eq!(result.height(), 2);
}

#[test]
fn find_header_can_search_a_specific_column() {
    let df = frame(
        3,
        vec![
            column("left", "str", &[None, Some("ignore"), Some("wrong")]),
            column("right", "str", &[Some("skip"), Some("Header"), Some("Header")]),
        ],
    );

    assert_eq!(
        find_header_df(
            &df,
            Some(String::from("Header")),
            Some(HeaderSearchColumn::Name(String::from("right")))
        )
        .unwrap(),
        1
    );
}

#[test]
fn frame_new_refuses_bad_shapes() {
    assert!(Frame::new(2, vec![column("a", "i32", &[Some("1")])]).is_err());
    assert!(Frame::new(
        1,
        vec![column("a", "i32", &[Some("1")]), column("a", "i32", &[Some("2")])]
    )
    .is_err());
    let empty = Frame::new(5, vec![]).unwrap();
    assert_eq!(empty.height(), 5);
    assert_eq!(empty.width(), 0);
}

#[test]
fn clean_names_keeps_cells_and_refuses_bad_case() {
    let df = frame(1, vec![column("A", "i64", &[Some("7")]), column("a", "str", &[None])]);
    let result = clean_names_df(df.copy(), "constant").unwrap();
    assert_eq!(names(&result), ["A", "A_2"]);
    assert_eq!(texts(&result, 0), vec![Some(String::from("7"))]);
    assert_eq!(result.columns()[0].dtype, "i64");
    assert_eq!(texts(&result, 1), vec![None]);
    assert_eq!(value_message(clean_names_df(df, "kebab").unwrap_err()), CASE_ERROR);
}

#[test]
fn row_to_names_keeps_or_drops_rows_as_asked() {
    let kept = row_to_names_df(messy(), 1, false, false, "snake").unwrap();
    assert_eq!(kept.height(), 4);
    assert_eq!(names(&kept), ["customer_id", "order_total"]);

    let only_row = row_to_names_df(messy(), 1, true, false, "snake").unwrap();
    assert_eq!(
        texts(&only_row, 1),
        vec![Some(String::from("notes")), Some(String::from("10")), Some(String::from("20"))]
    );

    let above = row_to_names_df(messy(), 1, false, true, "snake").unwrap();
    assert_eq!(
        texts(&above, 1),
        vec![Some(String::from("Order Total")), Some(String::from("10")), Some(String::from("20"))]
    );

    let first = row_to_names_df(messy(), 0, true, true, "camel").unwrap();
    assert_eq!(names(&first), ["x", "notes"]);
    assert_eq!(first.height(), 3);
}

#[test]
fn row_to_names_refuses_rows_outside_the_frame() {
    assert_eq!(
        value_message(row_to_names_df(messy(), 4, true, true, "snake").unwrap_err()),
        "row index 4 is out of bounds for frame with 4 rows"
    );
    assert_eq!(
        value_message(row_to_names_df(messy(), 1, true, true, "title").unwrap_err()),
        CASE_ERROR
    );
}

#[test]
fn find_header_reports_each_failure() {
    let df = messy();
    assert_eq!(
        value_message(find_header_df(&frame(0, vec![]), None, None).unwrap_err()),
        "no header row found"
    );
    assert_eq!(
        value_message(
            find_header_df(&df, Some(String::from("x")), Some(HeaderSearchColumn::Index(9)))
                .unwrap_err()
        ),
        "column index 9 is out of bounds"
    );
    match find_header_df(&df, Some(String::from("x")), Some(HeaderSearchColumn::Name(String::from("nope")))) {
        Err(JanitorError::ColumnNotFound(message)) => assert_eq!(message, "\"nope\" not found"),
        other => panic!("unexpected {other:?}"),
    }
    assert_eq!(
        value_message(find_header_df(&df, Some(String::from("missing")), None).unwrap_err()),
        "no header row found"
    );
    assert_eq!(
        find_header_df(&df, Some(String::from("  Order Total ")), Some(HeaderSearchColumn::Index(1)))
            .unwrap(),
        1
    );
    let blank = frame(2, vec![column("a", "str", &[Some("  "), Some("x")])]);
    assert_eq!(find_header_df(&blank, None, None).unwrap(), 1);
}

#[test]
fn remove_empty_checks_axis_and_subset() {
    assert_eq!(
        value_message(remove_empty_df(empty_frame(), "diagonal", None).unwrap_err()),
        "axis must be one of: 'rows', 'cols', 'both'"
    );
    assert_eq!(
        value_message(remove_empty_df(empty_frame(), "rows", Some(vec![])).unwrap_err()),
        "subset must contain at least one column"
    );
    assert_eq!(
        value_message(
            remove_empty_df(
                empty_frame(),
                "cols",
                Some(vec![String::from("zz"), String::from("a"), String::from("yy")])
            )
            .unwrap_err()
        ),
        "subset columns are not present in the frame: ['zz', 'yy']"
    );
    let by_b = remove_empty_df(empty_frame(), "rows", Some(vec![String::from("b")])).unwrap();
    assert_eq!(by_b.height(), 0);
    let by_c = remove_empty_df(empty_frame(), "rows", Some(vec![String::from("c")])).unwrap();
    assert_eq!(texts(&by_c, 2), vec![Some(String::from("x")), Some(String::from("z"))]);
}

#[test]
fn remove_constant_with_subset() {
    let result =
        remove_constant_df(constant_frame(), Some(vec![String::from("constant")]), false).unwrap();
    assert_eq!(names(&result), ["with_null", "varied", "nulls"]);
}

#[test]
fn get_dupes_counts_groups_and_checks_arguments() {
    let result = get_dupes_df(dupes_frame(), vec![String::from("id")], true, "n").unwrap();
    assert_eq!(names(&result), ["id", "value", "n"]);
    assert_eq!(result.columns()[2].dtype, "u32");
    assert_eq!(
        texts(&result, 2),
        ["2", "2", "3", "3", "3"].iter().map(|t| Some(t.to_string())).collect::<Vec<_>>()
    );
    let plain = get_dupes_df(dupes_frame(), vec![String::from("id")], false, "n").unwrap();
    assert_eq!(names(&plain), ["id", "value"]);
    let replaced = get_dupes_df(dupes_frame(), vec![String::from("id")], false, "value").unwrap();
    assert_eq!(texts(&replaced, 1)[4], Some(String::from("3")));

    assert_eq!(
        value_message(get_dupes_df(dupes_frame(), vec![], true, "n").unwrap_err()),
        "keys must contain at least one column"
    );
    assert_eq!(
        value_message(get_dupes_df(dupes_frame(), vec![String::from("k")], true, "n").unwrap_err()),
        "keys are not present in the frame: ['k']"
    );
    assert_eq!(
        value_message(get_dupes_df(dupes_frame(), vec![String::from("id")], true, "value").unwrap_err()),
        "count_name already exists in the frame: \"value\""
    );
}

#[test]
fn get_dupes_groups_missing_keys_together() {
    let df = frame(
        4,
        vec![column("k", "i64", &[None, Some("1"), None, Some("2")]), column("v", "i64", &[Some("1"), Some("2"), Some("3"), Some("4")])],
    );
    let result = get_dupes_df(df, vec![String::from("k")], true, "duplicate_count").unwrap();
    assert_eq!(texts(&result, 1), vec![Some(String::from("1")), Some(String::from("3"))]);
}

#[test]
fn python_list_quotes_each_name() {
    assert_eq!(python_list(&vec![]), "[]");
    assert_eq!(python_list(&vec![String::from("a")]), "['a']");
    assert_eq!(python_list(&vec![String::from("a"), String::from("b c")]), "['a', 'b c']");
}

fn same_frame(left: &Frame, right: &Frame) -> bool {
    left.height() == right.height()
        && names(left) == names(right)
        && (0..left.width()).all(|index| texts(left, index) == texts(right, index))
        && left
            .columns()
            .iter()
            .zip(right.columns())
            .all(|(a, b)| a.dtype == b.dtype)
}

#[test]
fn removing_again_changes_nothing() {
    for ignore_nulls in [false, true] {
        let once = remove_constant_df(constant_frame(), None, ignore_nulls).unwrap();
        let twice = remove_constant_df(once.copy(), None, ignore_nulls).unwrap();
        assert!(same_frame(&once, &twice));
    }
    for axis in ["rows", "cols", "both"] {
        let once = remove_empty_df(empty_frame(), axis, None).unwrap();
        let twice = remove_empty_df(once.copy(), axis, None).unwrap();
        assert!(same_frame(&once, &twice));
    }
    let rows = remove_empty_df(empty_frame(), "rows", None).unwrap();
    assert_eq!(texts(&rows, 0), vec![None, Some("1".to_string())]);
    assert_eq!(texts(&rows, 2), vec![Some("x".to_string()), Some("z".to_string())]);
}

#[test]
fn a_frame_without_columns_keeps_its_rows() {
    let df = frame(3, Vec::new());
    assert_eq!(remove_empty_df(df, "rows", None).unwrap().height(), 3);
}

#[test]
fn cells_are_compared_by_their_text() {
    let df = frame(
        2,
        vec![
            column("zeros", "f64", &[Some("0.0"), Some("-0.0")]),
            column("same", "f64", &[Some("1.5"), Some("1.5")]),
        ],
    );
    assert_eq!(names(&remove_constant_df(df, None, false).unwrap()), ["zeros"]);
}
