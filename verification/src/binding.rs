//! The rules of the Python-facing functions, on plain values: how an
//! argument is read (a row selector, a header search column, a list of
//! column names, frame names) and which arguments are refused, with which
//! kind of Python exception and message.

use crate::frame::{
    find_header_df, first_row_result, is_value_err, row_complete, Frame, JanitorError,
    NO_HEADER_ERROR, contains_name, copy_strings, missing_columns, missing_names, option_views, python_list,
    python_list_spec, HeaderSearchColumn,
};
use crate::names::string_views;
use crate::schema::{ColumnSchema, FrameSchema};
use crate::text::{debug_quoted, debug_str, decimal, push_decimal, push_str, str_equal, string_of};
use vstd::prelude::*;

verus! {

/// The kind of Python exception an argument is refused with.
#[derive(Debug, Clone, Copy, PartialEq, Eq)]
pub enum ArgErrorKind {
    Type,
    Value,
    NotImplemented,
}

/// A refused argument: the exception kind and its message.
#[derive(Debug)]
pub struct ArgError {
    pub kind: ArgErrorKind,
    pub message: String,
}

/// `r` is a refusal of the kind `kind` with the message `message`.
pub open spec fn is_arg_err<T>(r: Result<T, ArgError>, kind: ArgErrorKind, message: Seq<char>) -> bool {
    r is Err && r->Err_0.kind == kind && r->Err_0.message@ == message
}

fn arg_error(kind: ArgErrorKind, message: &str) -> (r: ArgError)
    ensures
        r.kind == kind,
        r.message@ == message@,
{
    ArgError { kind, message: string_of(message) }
}

/// A Python scalar argument, as far as the rules look at it: absent or
/// `None`, a string, a bool, an integer that fits in `i64`, or anything else.
#[derive(Debug, Clone)]
pub enum PyScalar {
    NoneValue,
    Str(String),
    Bool(bool),
    Int(i64),
    Other,
}

// ---------------------------------------------------------------------------
// Row selector
// ---------------------------------------------------------------------------

/// Which row `row_to_names` promotes: the header row it finds, or a given one.
#[derive(Debug, Clone, Copy, PartialEq, Eq)]
pub enum RowSelector {
    FindHeader,
    Index(usize),
}

pub const ROW_ERROR: &'static str = "row must be a non-negative integer, None, or 'find_header'";

/// The row selector an argument gives: none or `'find_header'` to find the
/// header, a non-negative integer for that row. Another string, or an
/// integer that is negative or too large for a position, is a value error;
/// a bool or another object a type error.
pub fn parse_row_selector(value: PyScalar) -> (r: Result<RowSelector, ArgError>)
    ensures
        match value {
            PyScalar::NoneValue => r == Ok::<RowSelector, ArgError>(RowSelector::FindHeader),
            PyScalar::Str(s) => if s@ == "find_header"@ {
                r == Ok::<RowSelector, ArgError>(RowSelector::FindHeader)
            } else {
                is_arg_err(r, ArgErrorKind::Value, ROW_ERROR@)
            },
            PyScalar::Bool(_) => is_arg_err(r, ArgErrorKind::Type, ROW_ERROR@),
            PyScalar::Int(i) => if 0 <= i <= usize::MAX {
                r == Ok::<RowSelector, ArgError>(RowSelector::Index(i as usize))
            } else {
                is_arg_err(r, ArgErrorKind::Value, ROW_ERROR@)
            },
            PyScalar::Other => is_arg_err(r, ArgErrorKind::Type, ROW_ERROR@),
        },
{
    match value {
        PyScalar::NoneValue => Ok(RowSelector::FindHeader),
        PyScalar::Str(s) => {
            if str_equal(s.as_str(), "find_header") {
                Ok(RowSelector::FindHeader)
            } else {
                Err(arg_error(ArgErrorKind::Value, ROW_ERROR))
            }
        },
        PyScalar::Bool(_) => Err(arg_error(ArgErrorKind::Type, ROW_ERROR)),
        PyScalar::Int(i) => {
            if i >= 0 && (i as u64) <= (usize::MAX as u64) {
                Ok(RowSelector::Index(i as usize))
            } else {
                Err(arg_error(ArgErrorKind::Value, ROW_ERROR))
            }
        },
        PyScalar::Other => Err(arg_error(ArgErrorKind::Type, ROW_ERROR)),
    }
}

/// The row that `row_to_names` promotes: the given index, or the first row
/// with no missing cell, found as `find_header_df` finds it without a value
/// (refused when the frame is empty or no row is complete).
pub fn resolve_header_row(df: &Frame, row: RowSelector) -> (r: Result<usize, JanitorError>)
    ensures
        row matches RowSelector::Index(i) ==> r == Ok::<usize, JanitorError>(i),
        row is FindHeader && (df@.height == 0 || df@.width() == 0) ==> is_value_err(r, NO_HEADER_ERROR@),
        row is FindHeader && df@.height > 0 && df@.width() > 0 ==> first_row_result(
            r,
            df@.height,
            |k: int| row_complete(df@, k),
        ),
{
    match row {
        RowSelector::Index(index) => Ok(index),
        RowSelector::FindHeader => find_header_df(df, None, None),
    }
}

pub const COLUMN_ERROR: &'static str = "column must be a column name, a non-negative column index, or None";

/// The column `find_header` searches, from its argument: none, a column
/// name, or a non-negative position. A negative integer is a value error; a
/// bool or another object a type error.
pub fn parse_header_search_column(value: PyScalar) -> (r: Result<Option<HeaderSearchColumn>, ArgError>)
    ensures
        match value {
            PyScalar::NoneValue => r is Ok && r->Ok_0 is None,
            PyScalar::Str(s) => r is Ok && (r->Ok_0 matches Some(HeaderSearchColumn::Name(n)) && n@ == s@),
            PyScalar::Bool(_) => is_arg_err(r, ArgErrorKind::Type, COLUMN_ERROR@),
            PyScalar::Int(i) => if 0 <= i <= usize::MAX {
                r is Ok && (r->Ok_0 matches Some(HeaderSearchColumn::Index(k)) && k == i)
            } else {
                is_arg_err(r, ArgErrorKind::Value, COLUMN_ERROR@)
            },
            PyScalar::Other => is_arg_err(r, ArgErrorKind::Type, COLUMN_ERROR@),
        },
{
    match value {
        PyScalar::NoneValue => Ok(None),
        PyScalar::Str(s) => Ok(Some(HeaderSearchColumn::Name(s))),
        PyScalar::Bool(_) => Err(arg_error(ArgErrorKind::Type, COLUMN_ERROR)),
        PyScalar::Int(i) => {
            if i >= 0 && (i as u64) <= (usize::MAX as u64) {
                Ok(Some(HeaderSearchColumn::Index(i as usize)))
            } else {
                Err(arg_error(ArgErrorKind::Value, COLUMN_ERROR))
            }
        },
        PyScalar::Other => Err(arg_error(ArgErrorKind::Type, COLUMN_ERROR)),
    }
}

// ---------------------------------------------------------------------------
// Lists of column names
// ---------------------------------------------------------------------------

/// A column-list argument, as far as the rules look at it: a single string,
/// the items of an iterable (each a string, or `None` for an item that is
/// not one), or an object that is not iterable.
#[derive(Debug, Clone)]
pub enum ColumnsArg {
    Single(String),
    Items(Vec<Option<String>>),
    NotIterable,
}

pub open spec fn only_names_message(label: Seq<char>) -> Seq<char> {
    label + " must contain only column names"@
}

pub open spec fn at_least_one_message(label: Seq<char>) -> Seq<char> {
    label + " must contain at least one column"@
}

pub open spec fn item_views(items: Seq<Option<String>>) -> Seq<Option<Seq<char>>> {
    items.map_values(|o: Option<String>| match o {
        Some(s) => Some(s@),
        None => None,
    })
}

/// The column names a list argument gives: one string is one name; an
/// iterable gives its items, which must all be strings and at least one.
pub fn parse_required_columns(value: ColumnsArg, label: &str) -> (r: Result<Vec<String>, ArgError>)
    ensures
        match value {
            ColumnsArg::Single(s) => r is Ok && string_views(r->Ok_0@) == seq![s@],
            ColumnsArg::NotIterable => is_arg_err(r, ArgErrorKind::Type, only_names_message(label@)),
            ColumnsArg::Items(items) => if exists|k: int| 0 <= k < items.len() && #[trigger] items@[k] is None {
                is_arg_err(r, ArgErrorKind::Type, only_names_message(label@))
            } else if items.len() == 0 {
                is_arg_err(r, ArgErrorKind::Value, at_least_one_message(label@))
            } else {
                r is Ok && item_views(items@) == string_views(r->Ok_0@).map_values(
                    |s: Seq<char>| Some(s),
                )
            },
        },
{
    match value {
        ColumnsArg::Single(s) => {
            let mut out: Vec<String> = Vec::new();
            out.push(s);
            proof {
                assert(string_views(out@) =~= seq![out@[0]@]);
            }
            Ok(out)
        },
        ColumnsArg::NotIterable => {
            let mut message = string_of(label);
            push_str(&mut message, " must contain only column names");
            Err(ArgError { kind: ArgErrorKind::Type, message })
        },
        ColumnsArg::Items(items) => names_of_items(items, label),
    }
}

fn names_of_items(items: Vec<Option<String>>, label: &str) -> (r: Result<Vec<String>, ArgError>)
    ensures
        if exists|k: int| 0 <= k < items.len() && #[trigger] items@[k] is None {
            is_arg_err(r, ArgErrorKind::Type, only_names_message(label@))
        } else if items.len() == 0 {
            is_arg_err(r, ArgErrorKind::Value, at_least_one_message(label@))
        } else {
            r is Ok && item_views(items@) == string_views(r->Ok_0@).map_values(|s: Seq<char>| Some(s))
        },
{
    let ghost all = items@;
    let mut out: Vec<String> = Vec::new();
    let n = items.len();
    let mut i: usize = 0;
    while i < n
        invariant
            n == items.len(),
            all == items@,
            i <= n,
            out.len() == i,
            forall|k: int| 0 <= k < i ==> (#[trigger] all[k] matches Some(s) && s@ == out@[k]@),
        decreases n - i,
    {
        match &items[i] {
            Some(s) => {
                out.push(s.clone());
            },
            None => {
                proof {
                    assert(items@[i as int] is None);
                }
                let mut message = string_of(label);
                push_str(&mut message, " must contain only column names");
                return Err(ArgError { kind: ArgErrorKind::Type, message });
            },
        }
        i = i + 1;
    }
    proof {
        assert forall|k: int| 0 <= k < items.len() implies !(#[trigger] items@[k] is None) by {
            assert(all[k] matches Some(s));
        }
    }
    if n == 0 {
        let mut message = string_of(label);
        push_str(&mut message, " must contain at least one column");
        return Err(ArgError { kind: ArgErrorKind::Value, message });
    }
    proof {
        assert(item_views(all) =~= string_views(out@).map_values(|s: Seq<char>| Some(s)));
    }
    Ok(out)
}

/// An optional column-list argument: absent or `None` gives no list.
pub fn parse_optional_columns(value: Option<ColumnsArg>, label: &str) -> (r: Result<
    Option<Vec<String>>,
    ArgError,
>)
    ensures
        value is None ==> r is Ok && r->Ok_0 is None,
        value matches Some(v) ==> match v {
            ColumnsArg::Single(s) => r is Ok && (r->Ok_0 matches Some(o) && string_views(o@) == seq![s@]),
            ColumnsArg::NotIterable => is_arg_err(r, ArgErrorKind::Type, only_names_message(label@)),
            ColumnsArg::Items(items) => if exists|k: int| 0 <= k < items.len() && #[trigger] items@[k] is None {
                is_arg_err(r, ArgErrorKind::Type, only_names_message(label@))
            } else if items.len() == 0 {
                is_arg_err(r, ArgErrorKind::Value, at_least_one_message(label@))
            } else {
                r is Ok && (r->Ok_0 matches Some(o) && item_views(items@) == string_views(o@).map_values(
                    |s: Seq<char>| Some(s),
                ))
            },
        },
{
    match value {
        None => Ok(None),
        Some(v) => match parse_required_columns(v, label) {
            Ok(columns) => Ok(Some(columns)),
            Err(e) => Err(e),
        },
    }
}

pub open spec fn not_present_message(label: Seq<char>, missing: Seq<Seq<char>>) -> Seq<char> {
    label + " columns are not present in the frame: "@ + python_list_spec(missing)
}

/// The columns of a lazy frame that a subset selects (all of them without
/// one); a value error names the selected columns the frame lacks.
pub fn selected_columns_py(available: &Vec<String>, subset: Option<Vec<String>>, label: &str) -> (r: Result<
    Vec<String>,
    ArgError,
>)
    ensures
        ({
            let selected = match subset {
                Some(s) => string_views(s@),
                None => string_views(available@),
            };
            let missing = missing_names(string_views(available@), selected);
            &&& missing.len() > 0 ==> is_arg_err(r, ArgErrorKind::Value, not_present_message(label@, missing))
            &&& missing.len() == 0 ==> r is Ok && string_views(r->Ok_0@) == selected
        }),
{
    let selected = match subset {
        Some(s) => s,
        None => copy_strings(available),
    };
    let missing = missing_columns(available, &selected);
    if missing.len() == 0 {
        Ok(selected)
    } else {
        let mut message = string_of(label);
        push_str(&mut message, " columns are not present in the frame: ");
        let list = python_list(&missing);
        push_str(&mut message, list.as_str());
        Err(ArgError { kind: ArgErrorKind::Value, message })
    }
}

/// Refuses, with a value error, keys that are not columns of a lazy frame.
pub fn validate_key_columns_py(available: &Vec<String>, keys: &Vec<String>) -> (r: Result<(), ArgError>)
    ensures
        ({
            let missing = missing_names(string_views(available@), string_views(keys@));
            &&& missing.len() > 0 ==> is_arg_err(
                r,
                ArgErrorKind::Value,
                "keys are not present in the frame: "@ + python_list_spec(missing),
            )
            &&& missing.len() == 0 ==> r is Ok
        }),
{
    let missing = missing_columns(available, keys);
    if missing.len() == 0 {
        Ok(())
    } else {
        let mut message = string_of("keys are not present in the frame: ");
        let list = python_list(&missing);
        push_str(&mut message, list.as_str());
        Err(ArgError { kind: ArgErrorKind::Value, message })
    }
}

// ---------------------------------------------------------------------------
// Lazy frames
// ---------------------------------------------------------------------------

pub const LAZY_AXIS_ERROR: &'static str = "remove_empty(..., axis='cols' or 'both') is data-dependent and is only supported for eager DataFrame";

/// Which axes `remove_empty` takes for a lazy frame: only `rows`; `cols`
/// and `both` are not implemented, anything else is a value error.
pub fn lazy_remove_empty_axis(axis: &str) -> (r: Result<(), ArgError>)
    ensures
        axis@ == "rows"@ ==> r is Ok,
        axis@ == "cols"@ || axis@ == "both"@ ==> is_arg_err(r, ArgErrorKind::NotImplemented, LAZY_AXIS_ERROR@),
        axis@ != "rows"@ && axis@ != "cols"@ && axis@ != "both"@ ==> is_arg_err(
            r,
            ArgErrorKind::Value,
            crate::frame::AXIS_ERROR@,
        ),
{
    proof {
        reveal_strlit("rows");
        reveal_strlit("cols");
        reveal_strlit("both");
        assert("rows"@[0] != "cols"@[0]);
        assert("rows"@[0] != "both"@[0]);
    }
    if str_equal(axis, "rows") {
        Ok(())
    } else if str_equal(axis, "cols") || str_equal(axis, "both") {
        Err(arg_error(ArgErrorKind::NotImplemented, LAZY_AXIS_ERROR))
    } else {
        Err(arg_error(ArgErrorKind::Value, crate::frame::AXIS_ERROR))
    }
}

/// Refuses the arguments of `get_dupes` on a lazy frame: keys that are
/// not columns, or, with the count, a count name that is already a column.
pub fn lazy_dupes_check(
    columns: &Vec<String>,
    keys: &Vec<String>,
    include_count: bool,
    count_name: &str,
) -> (r: Result<(), ArgError>)
    ensures
        ({
            let missing = missing_names(string_views(columns@), string_views(keys@));
            &&& missing.len() > 0 ==> is_arg_err(
                r,
                ArgErrorKind::Value,
                "keys are not present in the frame: "@ + python_list_spec(missing),
            )
            &&& missing.len() == 0 && include_count && string_views(columns@).contains(count_name@)
                ==> is_arg_err(
                r,
                ArgErrorKind::Value,
                "count_name already exists in the frame: "@ + debug_str(count_name@),
            )
            &&& missing.len() == 0 && !(include_count && string_views(columns@).contains(count_name@))
                ==> r is Ok
        }),
{
    match validate_key_columns_py(columns, keys) {
        Ok(()) => {},
        Err(e) => {
            return Err(e);
        },
    }
    if include_count && contains_name(columns, count_name) {
        let mut message = string_of("count_name already exists in the frame: ");
        let quoted = debug_quoted(count_name);
        push_str(&mut message, quoted.as_str());
        return Err(ArgError { kind: ArgErrorKind::Value, message });
    }
    Ok(())
}

// ---------------------------------------------------------------------------
// Frame names for a comparison
// ---------------------------------------------------------------------------

pub const MAPPING_NAMES_ERROR: &'static str = "names cannot be used when frames is a mapping";

/// Frames given as a mapping take their names from its keys, so names given
/// as well are refused with a value error.
pub fn check_mapping_names(names_given: bool) -> (r: Result<(), ArgError>)
    ensures
        names_given ==> is_arg_err(r, ArgErrorKind::Value, MAPPING_NAMES_ERROR@),
        !names_given ==> r is Ok,
{
    if names_given {
        Err(arg_error(ArgErrorKind::Value, MAPPING_NAMES_ERROR))
    } else {
        Ok(())
    }
}

/// The default name of the frame at position `index`: `frame_1`, `frame_2`, ...
pub open spec fn default_frame_name(index: nat) -> Seq<char> {
    "frame_"@ + decimal(index + 1)
}

/// The name of the frame at `index`: the given name at that position, or
/// the default one.
pub open spec fn frame_name_at(names: Option<Seq<Seq<char>>>, index: nat) -> Seq<char> {
    match names {
        Some(n) => if index < n.len() {
            n[index as int]
        } else {
            default_frame_name(index)
        },
        None => default_frame_name(index),
    }
}

pub open spec fn names_count_message(count: nat) -> Seq<char> {
    "names must contain exactly "@ + decimal(count) + " values"@
}

pub open spec fn column_schema_views(columns: Seq<ColumnSchema>) -> Seq<(Seq<char>, Seq<char>)> {
    columns.map_values(|c: ColumnSchema| c@)
}

/// Names the schemas of an iterable of frames, in order: by the given names,
/// else `frame_1`, `frame_2`, ...; given names must be exactly as many as
/// the frames (a value error otherwise).
pub fn name_frames(columns: Vec<Vec<ColumnSchema>>, names: Option<Vec<String>>) -> (r: Result<
    Vec<FrameSchema>,
    ArgError,
>)
    ensures
        names matches Some(n) && n.len() != columns.len() ==> is_arg_err(
            r,
            ArgErrorKind::Value,
            names_count_message(columns.len() as nat),
        ),
        !(names matches Some(n) && n.len() != columns.len()) ==> r is Ok && r->Ok_0.len() == columns.len()
            && forall|i: int|
            0 <= i < columns.len() ==> (#[trigger] r->Ok_0@[i])@.name == frame_name_at(
                option_views(names),
                i as nat,
            ) && r->Ok_0@[i]@.columns == column_schema_views(columns@[i]@),
{
    let ghost given = option_views(names);
    let count = columns.len();
    let mut schemas: Vec<FrameSchema> = Vec::new();
    let mut index: usize = 0;
    let ghost all = columns@;
    let mut rest = columns;
    while index < count
        invariant
            count == all.len(),
            given == option_views(names),
            index <= count,
            schemas.len() == index,
            rest@.len() == count - index,
            forall|k: int| 0 <= k < rest@.len() ==> rest@[k] == all[k + index],
            forall|i: int|
                0 <= i < index ==> (#[trigger] schemas@[i])@.name == frame_name_at(given, i as nat)
                    && schemas@[i]@.columns == column_schema_views(all[i]@),
        decreases count - index,
    {
        let name = match &names {
            Some(n) => {
                if index < n.len() {
                    n[index].clone()
                } else {
                    let mut d = string_of("frame_");
                    push_decimal(&mut d, (index + 1) as u128);
                    d
                }
            },
            None => {
                let mut d = string_of("frame_");
                push_decimal(&mut d, (index + 1) as u128);
                d
            },
        };
        let cols = rest.remove(0);
        proof {
            assert(cols == all[index as int]);
        }
        schemas.push(FrameSchema { name, columns: cols });
        index = index + 1;
    }
    match &names {
        Some(n) => {
            if n.len() != count {
                let mut message = string_of("names must contain exactly ");
                push_decimal(&mut message, count as u128);
                push_str(&mut message, " values");
                return Err(ArgError { kind: ArgErrorKind::Value, message });
            }
        },
        None => {},
    }
    Ok(schemas)
}

} // verus!
