//! Comparing the column schemas of several frames: which columns they share
//! with the same data type, and a table of each column's type per frame.

use crate::frame::{
    is_value_err, names_where, row_range, ColumnModel, Frame, FrameColumn, FrameModel,
    JanitorError, Cell,
};
use crate::names::string_views;
use crate::text::{debug_quoted, debug_str, push_str, str_equal, string_of};
use vstd::prelude::*;

verus! {

/// A column's name and the name of its data type.
#[derive(Debug, Clone)]
pub struct ColumnSchema {
    pub name: String,
    pub dtype: String,
}

/// A frame's name and its columns.
#[derive(Debug, Clone)]
pub struct FrameSchema {
    pub name: String,
    pub columns: Vec<ColumnSchema>,
}

impl View for ColumnSchema {
    type V = (Seq<char>, Seq<char>);

    open spec fn view(&self) -> (Seq<char>, Seq<char>) {
        (self.name@, self.dtype@)
    }
}

pub struct SchemaModel {
    pub name: Seq<char>,
    pub columns: Seq<(Seq<char>, Seq<char>)>,
}

impl View for FrameSchema {
    type V = SchemaModel;

    open spec fn view(&self) -> SchemaModel {
        SchemaModel { name: self.name@, columns: self.columns@.map_values(|c: ColumnSchema| c@) }
    }
}

pub open spec fn schema_views(schemas: Seq<FrameSchema>) -> Seq<SchemaModel> {
    schemas.map_values(|s: FrameSchema| s@)
}

// ---------------------------------------------------------------------------
// Data type names
// ---------------------------------------------------------------------------

/// The name under which a data type is reported, from its display name:
/// the short polars names become the class names (`i64` is `Int64`), any
/// other name is kept.
pub open spec fn dtype_name_spec(display: Seq<char>) -> Seq<char> {
    if display == "bool"@ {
        "Boolean"@
    } else if display == "str"@ {
        "String"@
    } else if display == "i8"@ {
        "Int8"@
    } else if display == "i16"@ {
        "Int16"@
    } else if display == "i32"@ {
        "Int32"@
    } else if display == "i64"@ {
        "Int64"@
    } else if display == "i128"@ {
        "Int128"@
    } else if display == "u8"@ {
        "UInt8"@
    } else if display == "u16"@ {
        "UInt16"@
    } else if display == "u32"@ {
        "UInt32"@
    } else if display == "u64"@ {
        "UInt64"@
    } else if display == "u128"@ {
        "UInt128"@
    } else if display == "f32"@ {
        "Float32"@
    } else if display == "f64"@ {
        "Float64"@
    } else if display == "null"@ {
        "Null"@
    } else {
        display
    }
}

/// The reported name of a data type, from its display name.
pub fn polars_dtype_name(display: &str) -> (r: String)
    ensures
        r@ == dtype_name_spec(display@),
{
    if str_equal(display, "bool") {
        string_of("Boolean")
    } else if str_equal(display, "str") {
        string_of("String")
    } else if str_equal(display, "i8") {
        string_of("Int8")
    } else if str_equal(display, "i16") {
        string_of("Int16")
    } else if str_equal(display, "i32") {
        string_of("Int32")
    } else if str_equal(display, "i64") {
        string_of("Int64")
    } else if str_equal(display, "i128") {
        string_of("Int128")
    } else if str_equal(display, "u8") {
        string_of("UInt8")
    } else if str_equal(display, "u16") {
        string_of("UInt16")
    } else if str_equal(display, "u32") {
        string_of("UInt32")
    } else if str_equal(display, "u64") {
        string_of("UInt64")
    } else if str_equal(display, "u128") {
        string_of("UInt128")
    } else if str_equal(display, "f32") {
        string_of("Float32")
    } else if str_equal(display, "f64") {
        string_of("Float64")
    } else if str_equal(display, "null") {
        string_of("Null")
    } else {
        string_of(display)
    }
}

/// The schema of a frame under a name: each column's name and reported type.
pub fn frame_schema_from_dataframe(name: String, df: &Frame) -> (r: FrameSchema)
    ensures
        r@.name == name@,
        r@.columns == df@.columns.map_values(
            |c: ColumnModel| (c.name, dtype_name_spec(c.dtype)),
        ),
{
    let columns = df.columns();
    let ghost target = df@.columns.map_values(|c: ColumnModel| (c.name, dtype_name_spec(c.dtype)));
    let mut out: Vec<ColumnSchema> = Vec::new();
    let n = columns.len();
    let mut i: usize = 0;
    while i < n
        invariant
            n == columns.len(),
            crate::frame::column_views(columns@) == df@.columns,
            target == df@.columns.map_values(|c: ColumnModel| (c.name, dtype_name_spec(c.dtype))),
            i <= n,
            out.len() == i,
            out@.map_values(|c: ColumnSchema| c@) == target.take(i as int),
        decreases n - i,
    {
        let ghost before = out@.map_values(|c: ColumnSchema| c@);
        let column = &columns[i];
        out.push(
            ColumnSchema {
                name: column.name.clone(),
                dtype: polars_dtype_name(column.dtype.as_str()),
            },
        );
        proof {
            assert(df@.columns[i as int] == columns@[i as int]@);
            assert(out@.map_values(|c: ColumnSchema| c@) =~= before.push(target[i as int]));
            assert(out@.map_values(|c: ColumnSchema| c@) =~= target.take(i + 1));
        }
        i = i + 1;
    }
    proof {
        assert(target.take(n as int) =~= target);
    }
    FrameSchema { name, columns: out }
}

// ---------------------------------------------------------------------------
// Checks
// ---------------------------------------------------------------------------

#[derive(Debug, Clone, Copy, PartialEq, Eq)]
pub enum CompareReturn {
    All,
    Match,
    Mismatch,
}

pub const COMPARE_RETURN_ERROR: &'static str = "return_ must be one of: 'all', 'match', 'mismatch'";

pub open spec fn compare_return_of(kind: Seq<char>) -> Option<CompareReturn> {
    if kind == "all"@ {
        Some(CompareReturn::All)
    } else if kind == "match"@ {
        Some(CompareReturn::Match)
    } else if kind == "mismatch"@ {
        Some(CompareReturn::Mismatch)
    } else {
        None
    }
}

fn validate_compare_return(kind: &str) -> (r: Result<CompareReturn, JanitorError>)
    ensures
        match compare_return_of(kind@) {
            Some(k) => r == Ok::<CompareReturn, JanitorError>(k),
            None => is_value_err(r, COMPARE_RETURN_ERROR@),
        },
{
    if str_equal(kind, "all") {
        Ok(CompareReturn::All)
    } else if str_equal(kind, "match") {
        Ok(CompareReturn::Match)
    } else if str_equal(kind, "mismatch") {
        Ok(CompareReturn::Mismatch)
    } else {
        Err(JanitorError::Value(string_of(COMPARE_RETURN_ERROR)))
    }
}

pub const NO_FRAMES_ERROR: &'static str = "frames must contain at least one frame";

pub const RESERVED_NAME_ERROR: &'static str = "frame names must not include 'column_name'";

/// The name of the output column that lists the compared columns.
pub const COLUMN_NAME: &'static str = "column_name";

/// The frame name at position `i` is refused: it is the reserved name or
/// repeats an earlier one.
pub open spec fn bad_frame_name(names: Seq<Seq<char>>, i: int) -> bool {
    names[i] == COLUMN_NAME@ || names.take(i).contains(names[i])
}

/// The first refused frame name among the first `n`, if any.
pub open spec fn first_bad_frame_name(names: Seq<Seq<char>>, n: nat) -> Option<int>
    decreases n,
{
    if n == 0 {
        None
    } else if first_bad_frame_name(names, (n - 1) as nat) is Some {
        first_bad_frame_name(names, (n - 1) as nat)
    } else if bad_frame_name(names, n - 1) {
        Some(n - 1)
    } else {
        None
    }
}

/// The message the frame names are refused with, if they are: none at
/// all, or the first name that is reserved or repeated.
pub open spec fn schemas_error(names: Seq<Seq<char>>) -> Option<Seq<char>> {
    if names.len() == 0 {
        Some(NO_FRAMES_ERROR@)
    } else if first_bad_frame_name(names, names.len()) is Some {
        let i = first_bad_frame_name(names, names.len())->Some_0;
        if names[i] == COLUMN_NAME@ {
            Some(RESERVED_NAME_ERROR@)
        } else {
            Some("frame names must be unique: "@ + debug_str(names[i]))
        }
    } else {
        None
    }
}

pub open spec fn frame_names(schemas: Seq<SchemaModel>) -> Seq<Seq<char>> {
    schemas.map_values(|s: SchemaModel| s.name)
}

proof fn lemma_no_bad_names_distinct(names: Seq<Seq<char>>)
    requires
        first_bad_frame_name(names, names.len()) is None,
    ensures
        names.no_duplicates(),
        !names.contains(COLUMN_NAME@),
{
    lemma_no_bad_prefix(names, names.len());
}

proof fn lemma_no_bad_prefix(names: Seq<Seq<char>>, n: nat)
    requires
        n <= names.len(),
        first_bad_frame_name(names, n) is None,
    ensures
        forall|i: int| 0 <= i < n ==> !bad_frame_name(names, i),
        forall|a: int, b: int| 0 <= a < n && 0 <= b < n && a != b ==> names[a] != names[b],
        forall|i: int| 0 <= i < n ==> names[i] != COLUMN_NAME@,
    decreases n,
{
    if n > 0 {
        lemma_no_bad_prefix(names, (n - 1) as nat);
        assert(!bad_frame_name(names, n - 1));
        assert forall|a: int, b: int| 0 <= a < n && 0 <= b < n && a != b implies names[a] != names[b] by {
            if b == n - 1 {
                assert(names.take(n - 1)[a] == names[a]);
            } else if a == n - 1 {
                assert(names.take(n - 1)[b] == names[b]);
            }
        }
    }
}

fn validate_schemas(schemas: &[FrameSchema]) -> (r: Result<(), JanitorError>)
    ensures
        match schemas_error(frame_names(schema_views(schemas@))) {
            Some(message) => is_value_err(r, message),
            None => r is Ok,
        },
{
    let ghost names = frame_names(schema_views(schemas@));
    if schemas.len() == 0 {
        return Err(JanitorError::Value(string_of(NO_FRAMES_ERROR)));
    }
    let mut seen: Vec<String> = Vec::new();
    let n = schemas.len();
    let mut i: usize = 0;
    while i < n
        invariant
            n == schemas@.len(),
            names == frame_names(schema_views(schemas@)),
            i <= n,
            string_views(seen@) == names.take(i as int),
            first_bad_frame_name(names, i as nat) is None,
        decreases n - i,
    {
        let name = &schemas[i].name;
        proof {
            assert(names[i as int] == name@);
        }
        if str_equal(name.as_str(), COLUMN_NAME) {
            proof {
                assert(bad_frame_name(names, i as int));
                lemma_first_bad_stays(names, (i + 1) as nat, names.len());
            }
            return Err(JanitorError::Value(string_of(RESERVED_NAME_ERROR)));
        }
        if crate::frame::contains_name(&seen, name.as_str()) {
            proof {
                assert(bad_frame_name(names, i as int));
                lemma_first_bad_stays(names, (i + 1) as nat, names.len());
            }
            let mut message = string_of("frame names must be unique: ");
            let quoted = debug_quoted(name.as_str());
            push_str(&mut message, quoted.as_str());
            return Err(JanitorError::Value(message));
        }
        let ghost before = string_views(seen@);
        seen.push(name.clone());
        proof {
            assert(string_views(seen@) =~= before.push(name@));
            assert(names.take(i + 1) =~= names.take(i as int).push(names[i as int]));
        }
        i = i + 1;
    }
    Ok(())
}

proof fn lemma_first_bad_stays(names: Seq<Seq<char>>, n: nat, m: nat)
    requires
        n <= m,
        first_bad_frame_name(names, n) is Some,
    ensures
        first_bad_frame_name(names, m) == first_bad_frame_name(names, n),
    decreases m - n,
{
    if m > n {
        lemma_first_bad_stays(names, n, (m - 1) as nat);
    }
}

// ---------------------------------------------------------------------------
// The compared columns
// ---------------------------------------------------------------------------

/// The names of all columns of all schemas, schema by schema.
pub open spec fn all_column_names(schemas: Seq<SchemaModel>) -> Seq<Seq<char>>
    decreases schemas.len(),
{
    if schemas.len() == 0 {
        Seq::empty()
    } else {
        all_column_names(schemas.drop_last()) + schemas.last().columns.map_values(
            |c: (Seq<char>, Seq<char>)| c.0,
        )
    }
}

/// `names` with every name after its first occurrence left out.
pub open spec fn first_occurrences(names: Seq<Seq<char>>) -> Seq<Seq<char>>
    decreases names.len(),
{
    if names.len() == 0 {
        Seq::empty()
    } else {
        let prev = first_occurrences(names.drop_last());
        if prev.contains(names.last()) {
            prev
        } else {
            prev.push(names.last())
        }
    }
}

/// Every column name of the schemas once, in the order first met.
pub open spec fn compared_names(schemas: Seq<SchemaModel>) -> Seq<Seq<char>> {
    first_occurrences(all_column_names(schemas))
}

fn push_first_occurrences(seen: &mut Vec<String>, columns: &Vec<ColumnSchema>, Ghost(prefix): Ghost<Seq<Seq<char>>>)
    requires
        string_views(old(seen)@) == first_occurrences(prefix),
    ensures
        string_views(final(seen)@) == first_occurrences(
            prefix + columns@.map_values(|c: ColumnSchema| c@).map_values(|c: (Seq<char>, Seq<char>)| c.0),
        ),
{
    let ghost names = columns@.map_values(|c: ColumnSchema| c@).map_values(|c: (Seq<char>, Seq<char>)| c.0);
    let n = columns.len();
    let mut i: usize = 0;
    while i < n
        invariant
            n == columns.len(),
            names == columns@.map_values(|c: ColumnSchema| c@).map_values(|c: (Seq<char>, Seq<char>)| c.0),
            i <= n,
            string_views(seen@) == first_occurrences(prefix + names.take(i as int)),
        decreases n - i,
    {
        let name = &columns[i].name;
        proof {
            let all = prefix + names.take(i + 1);
            assert(all.drop_last() =~= prefix + names.take(i as int));
            assert(all.last() == name@);
        }
        if !crate::frame::contains_name(seen, name.as_str()) {
            let ghost before = string_views(seen@);
            seen.push(name.clone());
            proof {
                assert(string_views(seen@) =~= before.push(name@));
            }
        }
        i = i + 1;
    }
    proof {
        assert(names.take(n as int) =~= names);
    }
}

/// Every column name of the schemas once, in the order first met.
fn compared_column_names(schemas: &[FrameSchema]) -> (r: Vec<String>)
    ensures
        string_views(r@) == compared_names(schema_views(schemas@)),
{
    let ghost views = schema_views(schemas@);
    let mut seen: Vec<String> = Vec::new();
    let n = schemas.len();
    let mut i: usize = 0;
    proof {
        assert(string_views(seen@) =~= first_occurrences(all_column_names(views.take(0))));
    }
    while i < n
        invariant
            n == schemas@.len(),
            views == schema_views(schemas@),
            i <= n,
            string_views(seen@) == first_occurrences(all_column_names(views.take(i as int))),
        decreases n - i,
    {
        proof {
            assert(views.take(i + 1).drop_last() =~= views.take(i as int));
            assert(views.take(i + 1).last() == schemas@[i as int]@);
        }
        push_first_occurrences(&mut seen, &schemas[i].columns, Ghost(all_column_names(views.take(i as int))));
        i = i + 1;
    }
    proof {
        assert(views.take(n as int) =~= views);
    }
    seen
}

/// The type of the first column called `name`, if any.
pub open spec fn first_dtype(columns: Seq<(Seq<char>, Seq<char>)>, name: Seq<char>) -> Option<Seq<char>>
    decreases columns.len(),
{
    if columns.len() == 0 {
        None
    } else if columns[0].0 == name {
        Some(columns[0].1)
    } else {
        first_dtype(columns.drop_first(), name)
    }
}

/// The type of the last column called `name`, if any.
pub open spec fn last_dtype(columns: Seq<(Seq<char>, Seq<char>)>, name: Seq<char>) -> Option<Seq<char>>
    decreases columns.len(),
{
    if columns.len() == 0 {
        None
    } else if columns.last().0 == name {
        Some(columns.last().1)
    } else {
        last_dtype(columns.drop_last(), name)
    }
}

/// Every schema has a column called `name`, and all of them (the first of
/// each name) have the same type.
pub open spec fn column_matches(schemas: Seq<SchemaModel>, name: Seq<char>) -> bool {
    forall|i: int|
        0 <= i < schemas.len() ==> (#[trigger] first_dtype(schemas[i].columns, name)) is Some
            && first_dtype(schemas[i].columns, name) == first_dtype(schemas[0].columns, name)
}

fn find_first_dtype<'a>(columns: &'a Vec<ColumnSchema>, name: &str) -> (r: Option<&'a String>)
    ensures
        match r {
            Some(d) => first_dtype(columns@.map_values(|c: ColumnSchema| c@), name@) == Some(d@),
            None => first_dtype(columns@.map_values(|c: ColumnSchema| c@), name@) is None,
        },
{
    let ghost views = columns@.map_values(|c: ColumnSchema| c@);
    let n = columns.len();
    let mut i: usize = 0;
    proof {
        assert(views.skip(0) =~= views);
    }
    while i < n
        invariant
            n == columns.len(),
            views == columns@.map_values(|c: ColumnSchema| c@),
            i <= n,
            first_dtype(views, name@) == first_dtype(views.skip(i as int), name@),
        decreases n - i,
    {
        proof {
            assert(views.skip(i as int)[0] == columns@[i as int]@);
            assert(views.skip(i as int).drop_first() =~= views.skip(i + 1));
        }
        if str_equal(columns[i].name.as_str(), name) {
            return Some(&columns[i].dtype);
        }
        i = i + 1;
    }
    proof {
        assert(views.skip(n as int).len() == 0);
    }
    None
}

fn find_last_dtype<'a>(columns: &'a Vec<ColumnSchema>, name: &str) -> (r: Option<&'a String>)
    ensures
        match r {
            Some(d) => last_dtype(columns@.map_values(|c: ColumnSchema| c@), name@) == Some(d@),
            None => last_dtype(columns@.map_values(|c: ColumnSchema| c@), name@) is None,
        },
{
    let ghost views = columns@.map_values(|c: ColumnSchema| c@);
    let mut j: usize = columns.len();
    proof {
        assert(views.take(j as int) =~= views);
    }
    while j > 0
        invariant
            j <= columns.len(),
            views == columns@.map_values(|c: ColumnSchema| c@),
            last_dtype(views, name@) == last_dtype(views.take(j as int), name@),
        decreases j,
    {
        proof {
            assert(views.take(j as int).last() == columns@[j - 1]@);
            assert(views.take(j as int).drop_last() =~= views.take(j - 1));
        }
        if str_equal(columns[j - 1].name.as_str(), name) {
            return Some(&columns[j - 1].dtype);
        }
        j = j - 1;
    }
    None
}

fn schema_column_matches(schemas: &[FrameSchema], column: &str) -> (r: bool)
    ensures
        r == column_matches(schema_views(schemas@), column@),
{
    let ghost views = schema_views(schemas@);
    let mut dtype: Option<&String> = None;
    let n = schemas.len();
    let mut i: usize = 0;
    while i < n
        invariant
            n == schemas@.len(),
            views == schema_views(schemas@),
            i <= n,
            i == 0 <==> dtype is None,
            dtype matches Some(d) ==> first_dtype(views[0].columns, column@) == Some(d@),
            forall|k: int|
                0 <= k < i ==> (#[trigger] first_dtype(views[k].columns, column@)) is Some
                    && first_dtype(views[k].columns, column@) == first_dtype(views[0].columns, column@),
        decreases n - i,
    {
        proof {
            assert(views[i as int].columns == schemas@[i as int].columns@.map_values(|c: ColumnSchema| c@));
        }
        let current = match find_first_dtype(&schemas[i].columns, column) {
            Some(d) => d,
            None => {
                return false;
            },
        };
        match dtype {
            Some(expected) => {
                if *expected != *current {
                    return false;
                }
            },
            None => {
                dtype = Some(current);
            },
        }
        i = i + 1;
    }
    true
}

// ---------------------------------------------------------------------------
// The comparison
// ---------------------------------------------------------------------------

pub open spec fn wanted(schemas: Seq<SchemaModel>, kind: CompareReturn, name: Seq<char>) -> bool {
    match kind {
        CompareReturn::All => true,
        CompareReturn::Match => column_matches(schemas, name),
        CompareReturn::Mismatch => !column_matches(schemas, name),
    }
}

/// The compared columns that the return kind asks for.
pub open spec fn compared_rows(schemas: Seq<SchemaModel>, kind: CompareReturn) -> Seq<Seq<char>> {
    names_where(compared_names(schemas), |n: Seq<char>| wanted(schemas, kind, n))
}

/// The display name of the type of a column of strings.
pub const STRING_DTYPE: &'static str = "str";

/// The comparison table: a column listing the compared columns, then, per
/// frame, a column with each compared column's type in that frame (missing
/// where the frame has no such column).
pub open spec fn compare_frame(schemas: Seq<SchemaModel>, kind: CompareReturn) -> FrameModel {
    let rows = compared_rows(schemas, kind);
    FrameModel {
        height: rows.len(),
        columns: seq![
            ColumnModel {
                name: COLUMN_NAME@,
                dtype: STRING_DTYPE@,
                cells: rows.map_values(|c: Seq<char>| Some(c)),
            },
        ] + schemas.map_values(
            |s: SchemaModel|
                ColumnModel {
                    name: s.name,
                    dtype: STRING_DTYPE@,
                    cells: rows.map_values(|c: Seq<char>| last_dtype(s.columns, c)),
                },
        ),
    }
}

fn dtype_column(schema: &FrameSchema, rows: &Vec<String>) -> (r: FrameColumn)
    ensures
        r@ == (ColumnModel {
            name: schema@.name,
            dtype: STRING_DTYPE@,
            cells: string_views(rows@).map_values(|c: Seq<char>| last_dtype(schema@.columns, c)),
        }),
{
    let ghost target = string_views(rows@).map_values(|c: Seq<char>| last_dtype(schema@.columns, c));
    let mut cells: Vec<Cell> = Vec::new();
    let n = rows.len();
    let mut i: usize = 0;
    while i < n
        invariant
            n == rows.len(),
            target == string_views(rows@).map_values(|c: Seq<char>| last_dtype(schema@.columns, c)),
            i <= n,
            cells@.map_values(|c: Cell| c@) == target.take(i as int),
        decreases n - i,
    {
        let ghost before = cells@.map_values(|c: Cell| c@);
        let cell = match find_last_dtype(&schema.columns, rows[i].as_str()) {
            Some(d) => Cell::Value(d.clone()),
            None => Cell::Null,
        };
        cells.push(cell);
        proof {
            assert(cells@.map_values(|c: Cell| c@) =~= before.push(target[i as int]));
            assert(cells@.map_values(|c: Cell| c@) =~= target.take(i + 1));
        }
        i = i + 1;
    }
    proof {
        assert(target.take(n as int) =~= target);
    }
    FrameColumn { name: schema.name.clone(), dtype: string_of(STRING_DTYPE), cells }
}

/// The comparison table of the schemas' columns: all compared columns, those
/// that every frame has with the same type (`match`), or the others
/// (`mismatch`). Refused for another return kind, no frames, or frame names
/// that repeat or use the reserved `column_name`.
pub fn compare_df_cols_schemas(schemas: &[FrameSchema], return_kind: &str) -> (r: Result<
    Frame,
    JanitorError,
>)
    ensures
        compare_return_of(return_kind@) is None ==> is_value_err(r, COMPARE_RETURN_ERROR@),
        compare_return_of(return_kind@) matches Some(kind) ==> match schemas_error(
            frame_names(schema_views(schemas@)),
        ) {
            Some(message) => is_value_err(r, message),
            None => r is Ok && r->Ok_0@ == compare_frame(schema_views(schemas@), kind),
        },
{
    let kind = match validate_compare_return(return_kind) {
        Ok(k) => k,
        Err(e) => {
            return Err(e);
        },
    };
    match validate_schemas(schemas) {
        Ok(()) => {},
        Err(e) => {
            return Err(e);
        },
    }
    let ghost views = schema_views(schemas@);
    let compared = compared_column_names(schemas);
    let ghost p = |n: Seq<char>| wanted(views, kind, n);
    let mut rows: Vec<String> = Vec::new();
    let n = compared.len();
    let mut i: usize = 0;
    while i < n
        invariant
            n == compared.len(),
            views == schema_views(schemas@),
            p == (|x: Seq<char>| wanted(views, kind, x)),
            string_views(compared@) == compared_names(views),
            i <= n,
            string_views(rows@) == names_where(string_views(compared@).take(i as int), p),
        decreases n - i,
    {
        let keep = match kind {
            CompareReturn::All => true,
            CompareReturn::Match => schema_column_matches(schemas, compared[i].as_str()),
            CompareReturn::Mismatch => !schema_column_matches(schemas, compared[i].as_str()),
        };
        proof {
            let t = string_views(compared@).take(i + 1);
            assert(t.drop_last() =~= string_views(compared@).take(i as int));
            assert(t.last() == compared@[i as int]@);
            assert(p(compared@[i as int]@) == keep);
        }
        if keep {
            let ghost before = string_views(rows@);
            rows.push(compared[i].clone());
            proof {
                assert(string_views(rows@) =~= before.push(compared@[i as int]@));
            }
        }
        i = i + 1;
    }
    proof {
        assert(string_views(compared@).take(n as int) =~= string_views(compared@));
    }
    let ghost target = compare_frame(views, kind);
    let mut name_cells: Vec<Cell> = Vec::new();
    let h = rows.len();
    let mut k: usize = 0;
    while k < h
        invariant
            h == rows.len(),
            k <= h,
            name_cells@.map_values(|c: Cell| c@) == string_views(rows@).map_values(|c: Seq<char>| Some(c)).take(
                k as int,
            ),
        decreases h - k,
    {
        let ghost before = name_cells@.map_values(|c: Cell| c@);
        name_cells.push(Cell::Value(rows[k].clone()));
        proof {
            assert(name_cells@.map_values(|c: Cell| c@) =~= before.push(Some(rows@[k as int]@)));
            assert(name_cells@.map_values(|c: Cell| c@) =~= string_views(rows@).map_values(
                |c: Seq<char>| Some(c),
            ).take(k + 1));
        }
        k = k + 1;
    }
    proof {
        assert(string_views(rows@).map_values(|c: Seq<char>| Some(c)).take(h as int) =~= string_views(
            rows@,
        ).map_values(|c: Seq<char>| Some(c)));
    }
    let mut columns: Vec<FrameColumn> = Vec::new();
    columns.push(FrameColumn { name: string_of(COLUMN_NAME), dtype: string_of(STRING_DTYPE), cells: name_cells });
    let s = schemas.len();
    let mut j: usize = 0;
    while j < s
        invariant
            s == schemas@.len(),
            views == schema_views(schemas@),
            target == compare_frame(views, kind),
            string_views(rows@) == compared_rows(views, kind),
            j <= s,
            columns.len() == j + 1,
            crate::frame::column_views(columns@) == target.columns.take(j + 1),
        decreases s - j,
    {
        let ghost before = crate::frame::column_views(columns@);
        columns.push(dtype_column(&schemas[j], &rows));
        proof {
            assert(crate::frame::column_views(columns@) =~= before.push(target.columns[j + 1]));
            assert(crate::frame::column_views(columns@) =~= target.columns.take(j + 2));
        }
        j = j + 1;
    }
    proof {
        assert(target.columns.take(s + 1) =~= target.columns);
        lemma_no_bad_names_distinct(frame_names(views));
        assert(target.names() =~= seq![COLUMN_NAME@] + frame_names(views));
        assert forall|a: int, b: int|
            0 <= a < target.names().len() && 0 <= b < target.names().len() && a != b implies target.names()[a]
            != target.names()[b] by {
            if a == 0 {
                assert(target.names()[b] == frame_names(views)[b - 1]);
            } else if b == 0 {
                assert(target.names()[a] == frame_names(views)[a - 1]);
            } else {
                assert(target.names()[a] == frame_names(views)[a - 1]);
                assert(target.names()[b] == frame_names(views)[b - 1]);
            }
        }
    }
    match Frame::new(h, columns) {
        Ok(frame) => Ok(frame),
        Err(e) => Err(e),
    }
}

/// Whether every frame has every compared column, each with the same type
/// in all frames. Refused for no frames or frame names that repeat or use
/// the reserved `column_name`.
pub fn compare_df_cols_same_schemas(schemas: &[FrameSchema]) -> (r: Result<bool, JanitorError>)
    ensures
        match schemas_error(frame_names(schema_views(schemas@))) {
            Some(message) => is_value_err(r, message),
            None => r is Ok && r->Ok_0 == forall|i: int|
                0 <= i < compared_names(schema_views(schemas@)).len() ==> column_matches(
                    schema_views(schemas@),
                    #[trigger] compared_names(schema_views(schemas@))[i],
                ),
        },
{
    match validate_schemas(schemas) {
        Ok(()) => {},
        Err(e) => {
            return Err(e);
        },
    }
    let ghost views = schema_views(schemas@);
    let compared = compared_column_names(schemas);
    let n = compared.len();
    let mut i: usize = 0;
    while i < n
        invariant
            n == compared.len(),
            views == schema_views(schemas@),
            string_views(compared@) == compared_names(views),
            schemas_error(frame_names(views)) is None,
            i <= n,
            forall|k: int| 0 <= k < i ==> column_matches(views, #[trigger] compared_names(views)[k]),
        decreases n - i,
    {
        proof {
            assert(compared_names(views)[i as int] == compared@[i as int]@);
        }
        if !schema_column_matches(schemas, compared[i].as_str()) {
            proof {
                assert(string_views(compared@).len() == compared@.len());
                assert(0 <= i < compared_names(views).len());
                assert(!column_matches(views, compared_names(views)[i as int]));
                assert(!(forall|k: int|
                    0 <= k < compared_names(views).len() ==> column_matches(
                        views,
                        #[trigger] compared_names(views)[k],
                    )));
            }
            return Ok(false);
        }
        i = i + 1;
    }
    Ok(true)
}

} // verus!
