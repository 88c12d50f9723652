//! Frames and the janitor operations on them: cleaning column names,
//! promoting a row to the header, finding the header row, removing empty or
//! constant rows and columns, and finding rows with duplicate keys.
//!
//! A frame holds what these operations read of a data frame: the height,
//! and for each column its name, its data type's display name and, for each
//! row, either a missing value or the value's text.

use crate::names::{case_style_of, clean_names_spec, make_clean_names, string_views, CASE_ERROR};
use crate::text::{
    chars_equal, chars_of, debug_quoted, debug_str, decimal, join, push_decimal,
    push_str, string_of, trim, trim_chars,
};
use vstd::prelude::*;

verus! {

/// A cell: missing, or the text of a value.
#[derive(Debug, Clone)]
pub enum Cell {
    Null,
    Value(String),
}

impl View for Cell {
    type V = Option<Seq<char>>;

    open spec fn view(&self) -> Option<Seq<char>> {
        match self {
            Cell::Null => None,
            Cell::Value(s) => Some(s@),
        }
    }
}

/// A column: its name, the display name of its data type, and its cells.
#[derive(Debug, Clone)]
pub struct FrameColumn {
    pub name: String,
    pub dtype: String,
    pub cells: Vec<Cell>,
}

pub struct ColumnModel {
    pub name: Seq<char>,
    pub dtype: Seq<char>,
    pub cells: Seq<Option<Seq<char>>>,
}

impl View for FrameColumn {
    type V = ColumnModel;

    open spec fn view(&self) -> ColumnModel {
        ColumnModel {
            name: self.name@,
            dtype: self.dtype@,
            cells: self.cells@.map_values(|c: Cell| c@),
        }
    }
}

pub struct FrameModel {
    pub height: nat,
    pub columns: Seq<ColumnModel>,
}

/// A frame of named columns of equal height, the names pairwise distinct.
#[derive(Debug)]
pub struct Frame {
    height: usize,
    columns: Vec<FrameColumn>,
}

pub open spec fn column_views(columns: Seq<FrameColumn>) -> Seq<ColumnModel> {
    columns.map_values(|c: FrameColumn| c@)
}

impl View for Frame {
    type V = FrameModel;

    closed spec fn view(&self) -> FrameModel {
        FrameModel { height: self.height as nat, columns: column_views(self.columns@) }
    }
}

impl FrameModel {
    pub open spec fn width(self) -> nat {
        self.columns.len()
    }

    pub open spec fn names(self) -> Seq<Seq<char>> {
        self.columns.map_values(|c: ColumnModel| c.name)
    }

    pub open spec fn has_column(self, name: Seq<char>) -> bool {
        self.names().contains(name)
    }

    /// Every column has `height` cells and the names are pairwise distinct.
    pub open spec fn wf(self) -> bool {
        &&& forall|i: int| 0 <= i < self.columns.len() ==> #[trigger] self.columns[i].cells.len() == self.height
        &&& self.names().no_duplicates()
    }

    /// The cell of column `c` in row `r`.
    pub open spec fn cell(self, c: int, r: int) -> Option<Seq<char>> {
        self.columns[c].cells[r]
    }
}

/// An error of a frame operation: a message for a refused argument, or the
/// message for a column that is not in the frame.
#[derive(Debug)]
pub enum JanitorError {
    Value(String),
    ColumnNotFound(String),
}

impl JanitorError {
    fn value(message: &str) -> (r: JanitorError)
        ensures
            is_value_error(r, message@),
    {
        JanitorError::Value(string_of(message))
    }

    /// The error's message.
    pub fn message(&self) -> (r: &str)
        ensures
            r@ == error_message(*self),
    {
        match self {
            JanitorError::Value(m) => m.as_str(),
            JanitorError::ColumnNotFound(m) => m.as_str(),
        }
    }
}

pub open spec fn error_message(e: JanitorError) -> Seq<char> {
    match e {
        JanitorError::Value(m) => m@,
        JanitorError::ColumnNotFound(m) => m@,
    }
}

/// `e` refuses an argument with the message `message`.
pub open spec fn is_value_error(e: JanitorError, message: Seq<char>) -> bool {
    e matches JanitorError::Value(m) && m@ == message
}

pub open spec fn is_value_err<T>(r: Result<T, JanitorError>, message: Seq<char>) -> bool {
    r is Err && is_value_error(r->Err_0, message)
}

fn copy_cell(cell: &Cell) -> (r: Cell)
    ensures
        r@ == cell@,
{
    match cell {
        Cell::Null => Cell::Null,
        Cell::Value(s) => Cell::Value(s.clone()),
    }
}

fn copy_cells(cells: &Vec<Cell>) -> (r: Vec<Cell>)
    ensures
        r@.map_values(|c: Cell| c@) == cells@.map_values(|c: Cell| c@),
{
    let mut out: Vec<Cell> = Vec::new();
    let n = cells.len();
    let mut i: usize = 0;
    while i < n
        invariant
            n == cells.len(),
            i <= n,
            out@.map_values(|c: Cell| c@) == cells@.take(i as int).map_values(|c: Cell| c@),
        decreases n - i,
    {
        out.push(copy_cell(&cells[i]));
        proof {
            assert(cells@.take(i + 1).map_values(|c: Cell| c@) =~= cells@.take(i as int).map_values(
                |c: Cell| c@,
            ).push(cells@[i as int]@));
            assert(out@.map_values(|c: Cell| c@) =~= cells@.take(i + 1).map_values(|c: Cell| c@));
        }
        i = i + 1;
    }
    proof {
        assert(cells@.take(n as int) =~= cells@);
    }
    out
}

fn copy_column(column: &FrameColumn) -> (r: FrameColumn)
    ensures
        r@ == column@,
{
    FrameColumn {
        name: column.name.clone(),
        dtype: column.dtype.clone(),
        cells: copy_cells(&column.cells),
    }
}

/// Whether `name` is among `names`.
pub fn contains_name(names: &Vec<String>, name: &str) -> (r: bool)
    ensures
        r == string_views(names@).contains(name@),
{
    let target = chars_of(name);
    let n = names.len();
    let mut i: usize = 0;
    while i < n
        invariant
            n == names.len(),
            i <= n,
            target@ == name@,
            forall|k: int| 0 <= k < i ==> names@[k]@ != name@,
        decreases n - i,
    {
        let candidate = chars_of(names[i].as_str());
        if chars_equal(&candidate, &target) {
            proof {
                assert(string_views(names@)[i as int] == name@);
            }
            return true;
        }
        i = i + 1;
    }
    proof {
        if string_views(names@).contains(name@) {
            let k = choose|k: int| 0 <= k < n && string_views(names@)[k] == name@;
        }
    }
    false
}

fn names_distinct(names: &Vec<String>) -> (r: bool)
    ensures
        r == string_views(names@).no_duplicates(),
{
    let n = names.len();
    let mut i: usize = 0;
    while i < n
        invariant
            n == names.len(),
            i <= n,
            forall|a: int, b: int| 0 <= a < i && 0 <= b < n && a != b ==> names@[a]@ != names@[b]@,
        decreases n - i,
    {
        let mut j: usize = 0;
        while j < n
            invariant
                n == names.len(),
                i < n,
                j <= n,
                forall|b: int| 0 <= b < j && b != i ==> names@[i as int]@ != names@[b]@,
            decreases n - j,
        {
            if j != i && names[i] == names[j] {
                proof {
                    let v = string_views(names@);
                    assert(v[i as int] == v[j as int]);
                }
                return false;
            }
            j = j + 1;
        }
        i = i + 1;
    }
    true
}

impl Frame {
    /// A frame of the given height and columns; refused when a column does
    /// not have `height` cells or two columns share a name.
    pub fn new(height: usize, columns: Vec<FrameColumn>) -> (r: Result<Frame, JanitorError>)
        ensures
            (FrameModel { height: height as nat, columns: column_views(columns@) }).wf() ==> r is Ok
                && r->Ok_0@ == (FrameModel { height: height as nat, columns: column_views(columns@) }),
            !(FrameModel { height: height as nat, columns: column_views(columns@) }).wf() ==> r is Err,
    {
        let ghost m = FrameModel { height: height as nat, columns: column_views(columns@) };
        let n = columns.len();
        let mut names: Vec<String> = Vec::new();
        let mut i: usize = 0;
        while i < n
            invariant
                n == columns.len(),
                m == (FrameModel { height: height as nat, columns: column_views(columns@) }),
                i <= n,
                string_views(names@) == m.names().take(i as int),
                forall|k: int| 0 <= k < i ==> #[trigger] m.columns[k].cells.len() == height,
            decreases n - i,
        {
            if columns[i].cells.len() != height {
                proof {
                    assert(m.columns[i as int].cells.len() != height);
                }
                return Err(JanitorError::value("every column of a frame must have the frame's height"));
            }
            let ghost before = string_views(names@);
            names.push(columns[i].name.clone());
            proof {
                assert(m.columns[i as int] == columns@[i as int]@);
                assert(m.names()[i as int] == columns@[i as int].name@);
                assert(m.names().take(i + 1) =~= m.names().take(i as int).push(m.names()[i as int]));
                assert(string_views(names@) =~= before.push(columns@[i as int].name@));
            }
            i = i + 1;
        }
        proof {
            assert(m.names().take(n as int) =~= m.names());
        }
        if !names_distinct(&names) {
            return Err(JanitorError::value("the columns of a frame must have distinct names"));
        }
        Ok(Frame { height, columns })
    }

    #[verifier::type_invariant]
    spec fn inv(&self) -> bool {
        self@.wf()
    }

    /// A copy of the frame.
    pub fn copy(&self) -> (r: Frame)
        ensures
            r@ == self@,
    {
        proof {
            use_type_invariant(self);
        }
        let n = self.columns.len();
        let mut columns: Vec<FrameColumn> = Vec::new();
        let mut i: usize = 0;
        while i < n
            invariant
                n == self.columns.len(),
                i <= n,
                column_views(columns@) == column_views(self.columns@).take(i as int),
            decreases n - i,
        {
            let ghost before = column_views(columns@);
            columns.push(copy_column(&self.columns[i]));
            proof {
                assert(column_views(columns@) =~= before.push(self.columns@[i as int]@));
                assert(column_views(self.columns@).take(i + 1) =~= column_views(self.columns@).take(
                    i as int,
                ).push(self.columns@[i as int]@));
            }
            i = i + 1;
        }
        proof {
            assert(column_views(self.columns@).take(n as int) =~= column_views(self.columns@));
        }
        Frame { height: self.height, columns }
    }

    /// The number of rows.
    pub fn height(&self) -> (r: usize)
        ensures
            r == self@.height,
    {
        self.height
    }

    /// The number of columns.
    pub fn width(&self) -> (r: usize)
        ensures
            r == self@.width(),
    {
        self.columns.len()
    }

    /// The columns.
    pub fn columns(&self) -> (r: &Vec<FrameColumn>)
        ensures
            column_views(r@) == self@.columns,
    {
        &self.columns
    }
}

/// The column names of a frame, in order.
pub fn dataframe_column_names(df: &Frame) -> (r: Vec<String>)
    ensures
        string_views(r@) == df@.names(),
{
    let columns = df.columns();
    let n = columns.len();
    let mut names: Vec<String> = Vec::new();
    let mut i: usize = 0;
    while i < n
        invariant
            n == columns.len(),
            column_views(columns@) == df@.columns,
            i <= n,
            string_views(names@) == df@.names().take(i as int),
        decreases n - i,
    {
        let ghost before = string_views(names@);
        names.push(columns[i].name.clone());
        proof {
            assert(df@.columns[i as int] == columns@[i as int]@);
            assert(df@.names()[i as int] == columns@[i as int].name@);
            assert(df@.names().take(i + 1) =~= df@.names().take(i as int).push(df@.names()[i as int]));
            assert(string_views(names@) =~= before.push(columns@[i as int].name@));
        }
        i = i + 1;
    }
    proof {
        assert(df@.names().take(n as int) =~= df@.names());
    }
    names
}


// ---------------------------------------------------------------------------
// Frames built from other frames
// ---------------------------------------------------------------------------

/// The frame with its columns renamed to `names`, in order.
pub open spec fn renamed(m: FrameModel, names: Seq<Seq<char>>) -> FrameModel {
    FrameModel {
        height: m.height,
        columns: Seq::new(
            m.columns.len(),
            |i: int| ColumnModel { name: names[i], dtype: m.columns[i].dtype, cells: m.columns[i].cells },
        ),
    }
}

/// The column with the cells of the rows `rows`, in that order.
pub open spec fn column_rows(c: ColumnModel, rows: Seq<int>) -> ColumnModel {
    ColumnModel { name: c.name, dtype: c.dtype, cells: rows.map_values(|r: int| c.cells[r]) }
}

/// The frame with the rows `rows`, in that order.
pub open spec fn select_rows(m: FrameModel, rows: Seq<int>) -> FrameModel {
    FrameModel { height: rows.len(), columns: m.columns.map_values(|c: ColumnModel| column_rows(c, rows)) }
}

/// The rows `lo..hi`.
pub open spec fn row_range(lo: int, hi: int) -> Seq<int> {
    Seq::new(if hi > lo { (hi - lo) as nat } else { 0 }, |i: int| lo + i)
}

/// The rows below `height` where `p` holds, in order.
pub open spec fn rows_where(height: nat, p: spec_fn(int) -> bool) -> Seq<int>
    decreases height,
{
    if height == 0 {
        Seq::empty()
    } else {
        let prev = rows_where((height - 1) as nat, p);
        if p(height - 1) {
            prev.push(height - 1)
        } else {
            prev
        }
    }
}

/// The columns whose names are not in `drop`, in order.
pub open spec fn columns_without(columns: Seq<ColumnModel>, drop: Seq<Seq<char>>) -> Seq<ColumnModel>
    decreases columns.len(),
{
    if columns.len() == 0 {
        Seq::empty()
    } else {
        let prev = columns_without(columns.drop_last(), drop);
        if drop.contains(columns.last().name) {
            prev
        } else {
            prev.push(columns.last())
        }
    }
}

/// The frame without the columns named in `drop`.
pub open spec fn drop_named(m: FrameModel, drop: Seq<Seq<char>>) -> FrameModel {
    FrameModel { height: m.height, columns: columns_without(m.columns, drop) }
}

/// The names among `names` that `p` accepts, in order.
pub open spec fn names_where(names: Seq<Seq<char>>, p: spec_fn(Seq<char>) -> bool) -> Seq<Seq<char>>
    decreases names.len(),
{
    if names.len() == 0 {
        Seq::empty()
    } else {
        let prev = names_where(names.drop_last(), p);
        if p(names.last()) {
            prev.push(names.last())
        } else {
            prev
        }
    }
}

/// The position of the column called `name`.
pub open spec fn column_index(m: FrameModel, name: Seq<char>) -> int {
    choose|i: int| 0 <= i < m.columns.len() && m.columns[i].name == name
}

proof fn lemma_column_index(m: FrameModel, name: Seq<char>)
    requires
        m.has_column(name),
    ensures
        0 <= column_index(m, name) < m.columns.len(),
        m.columns[column_index(m, name)].name == name,
{
    let k = choose|k: int| 0 <= k < m.names().len() && m.names()[k] == name;
    assert(m.columns[k].name == name);
}

/// `values` written as a Python list of strings: `['a', 'b']`.
pub open spec fn python_list_spec(values: Seq<Seq<char>>) -> Seq<char> {
    seq!['['] + join(values.map_values(|v: Seq<char>| seq!['\''] + v + seq!['\'']), seq![',', ' ']) + seq![']']
}

fn rename_columns_df(df: Frame, cleaned: Vec<String>) -> (r: Frame)
    requires
        cleaned.len() == df@.width(),
        string_views(cleaned@).no_duplicates(),
    ensures
        r@ == renamed(df@, string_views(cleaned@)),
{
    proof {
        use_type_invariant(&df);
    }
    let ghost m = df@;
    let height = df.height;
    let old_columns = df.columns;
    let n = old_columns.len();
    let mut columns: Vec<FrameColumn> = Vec::new();
    let mut i: usize = 0;
    while i < n
        invariant
            n == old_columns.len(),
            n == cleaned.len(),
            m.columns == column_views(old_columns@),
            i <= n,
            columns.len() == i,
            column_views(columns@) == renamed(m, string_views(cleaned@)).columns.take(i as int),
        decreases n - i,
    {
        let column = &old_columns[i];
        let ghost before = column_views(columns@);
        columns.push(
            FrameColumn {
                name: cleaned[i].clone(),
                dtype: column.dtype.clone(),
                cells: copy_cells(&column.cells),
            },
        );
        proof {
            let target = renamed(m, string_views(cleaned@)).columns;
            assert(m.columns[i as int] == old_columns@[i as int]@);
            assert(columns@[i as int]@ == target[i as int]);
            assert(column_views(columns@) =~= before.push(columns@[i as int]@));
            assert(column_views(columns@) =~= target.take(i + 1));
        }
        i = i + 1;
    }
    proof {
        let target = renamed(m, string_views(cleaned@));
        assert(target.columns.take(n as int) =~= target.columns);
        assert(target.names() =~= string_views(cleaned@));
    }
    Frame { height, columns }
}

fn take_cells(cells: &Vec<Cell>, rows: &Vec<usize>) -> (r: Vec<Cell>)
    requires
        forall|k: int| 0 <= k < rows.len() ==> #[trigger] rows@[k] < cells.len(),
    ensures
        r@.map_values(|c: Cell| c@) == rows@.map_values(|x: usize| x as int).map_values(
            |x: int| cells@.map_values(|c: Cell| c@)[x],
        ),
{
    let ghost views = cells@.map_values(|c: Cell| c@);
    let ghost target = rows@.map_values(|x: usize| x as int).map_values(|x: int| views[x]);
    let mut out: Vec<Cell> = Vec::new();
    let n = rows.len();
    let mut i: usize = 0;
    while i < n
        invariant
            n == rows.len(),
            views == cells@.map_values(|c: Cell| c@),
            target == rows@.map_values(|x: usize| x as int).map_values(|x: int| views[x]),
            forall|k: int| 0 <= k < rows.len() ==> #[trigger] rows@[k] < cells.len(),
            i <= n,
            out@.map_values(|c: Cell| c@) == target.take(i as int),
        decreases n - i,
    {
        let ghost before = out@.map_values(|c: Cell| c@);
        out.push(copy_cell(&cells[rows[i]]));
        proof {
            assert(target[i as int] == views[rows@[i as int] as int]);
            assert(out@.map_values(|c: Cell| c@) =~= before.push(views[rows@[i as int] as int]));
            assert(out@.map_values(|c: Cell| c@) =~= target.take(i + 1));
        }
        i = i + 1;
    }
    proof {
        assert(target.take(n as int) =~= target);
    }
    out
}

pub open spec fn row_indices(rows: Seq<usize>) -> Seq<int> {
    rows.map_values(|x: usize| x as int)
}

/// The frame with the rows `rows`, in that order.
fn take_rows(df: &Frame, rows: &Vec<usize>) -> (r: Frame)
    requires
        forall|k: int| 0 <= k < rows.len() ==> #[trigger] rows@[k] < df@.height,
        rows.len() <= usize::MAX,
    ensures
        r@ == select_rows(df@, row_indices(rows@)),
{
    proof {
        use_type_invariant(df);
    }
    let ghost m = df@;
    let ghost target = select_rows(m, row_indices(rows@));
    let n = df.columns.len();
    let mut columns: Vec<FrameColumn> = Vec::new();
    let mut i: usize = 0;
    while i < n
        invariant
            n == df.columns.len(),
            m == df@,
            m.wf(),
            target == select_rows(m, row_indices(rows@)),
            forall|k: int| 0 <= k < rows.len() ==> #[trigger] rows@[k] < m.height,
            i <= n,
            columns.len() == i,
            column_views(columns@) == target.columns.take(i as int),
        decreases n - i,
    {
        let column = &df.columns[i];
        proof {
            assert(m.columns[i as int] == column@);
            assert(column@.cells.len() == column.cells@.len());
            assert(m.columns[i as int].cells.len() == m.height);
        }
        let cells = take_cells(&column.cells, rows);
        let ghost before = column_views(columns@);
        columns.push(FrameColumn { name: column.name.clone(), dtype: column.dtype.clone(), cells });
        proof {
            assert(columns@[i as int]@.cells =~= column_rows(column@, row_indices(rows@)).cells);
            assert(target.columns[i as int] == column_rows(column@, row_indices(rows@)));
            assert(column_views(columns@) =~= before.push(columns@[i as int]@));
            assert(column_views(columns@) =~= target.columns.take(i + 1));
        }
        i = i + 1;
    }
    proof {
        assert(target.columns.take(n as int) =~= target.columns);
        assert(target.names() =~= m.names());
        assert forall|k: int| 0 <= k < target.columns.len() implies #[trigger] target.columns[k].cells.len()
            == target.height by {}
    }
    Frame { height: rows.len(), columns }
}

pub(crate) proof fn lemma_columns_without(columns: Seq<ColumnModel>, drop: Seq<Seq<char>>)
    ensures
        forall|k: int|
            0 <= k < columns_without(columns, drop).len() ==> columns.contains(
                #[trigger] columns_without(columns, drop)[k],
            ),
        columns_without(columns, drop).map_values(|c: ColumnModel| c.name) == names_where(
            columns.map_values(|c: ColumnModel| c.name),
            |n: Seq<char>| !drop.contains(n),
        ),
    decreases columns.len(),
{
    if columns.len() > 0 {
        lemma_columns_without(columns.drop_last(), drop);
        assert(columns.map_values(|c: ColumnModel| c.name).drop_last() =~= columns.drop_last().map_values(
            |c: ColumnModel| c.name,
        ));
        let r = columns_without(columns, drop);
        let p = columns_without(columns.drop_last(), drop);
        assert forall|k: int| 0 <= k < r.len() implies columns.contains(#[trigger] r[k]) by {
            if k < p.len() {
                assert(r[k] == p[k]);
                assert(columns.drop_last().contains(p[k]));
                let j = choose|j: int| 0 <= j < columns.drop_last().len() && columns.drop_last()[j] == p[k];
                assert(columns[j] == p[k]);
            } else {
                assert(r[k] == columns[columns.len() - 1]);
            }
        }
        assert(r.map_values(|c: ColumnModel| c.name) =~= names_where(
            columns.map_values(|c: ColumnModel| c.name),
            |n: Seq<char>| !drop.contains(n),
        ));
    }
}

pub(crate) proof fn lemma_names_where_distinct(names: Seq<Seq<char>>, p: spec_fn(Seq<char>) -> bool)
    requires
        names.no_duplicates(),
    ensures
        names_where(names, p).no_duplicates(),
        forall|k: int| 0 <= k < names_where(names, p).len() ==> names.contains(#[trigger] names_where(names, p)[k]),
    decreases names.len(),
{
    if names.len() > 0 {
        let d = names.drop_last();
        lemma_names_where_distinct(d, p);
        let r = names_where(names, p);
        let q = names_where(d, p);
        assert forall|k: int| 0 <= k < r.len() implies names.contains(#[trigger] r[k]) by {
            if k < q.len() {
                assert(d.contains(q[k]));
                let j = choose|j: int| 0 <= j < d.len() && d[j] == q[k];
                assert(names[j] == q[k]);
            } else {
                assert(r[k] == names[names.len() - 1]);
            }
        }
        if p(names.last()) {
            assert forall|a: int, b: int| 0 <= a < r.len() && 0 <= b < r.len() && a != b implies r[a] != r[b] by {
                if a == r.len() - 1 && b < q.len() {
                    assert(d.contains(q[b]));
                    let j = choose|j: int| 0 <= j < d.len() && d[j] == q[b];
                    assert(names[j] == d[j]);
                } else if b == r.len() - 1 && a < q.len() {
                    assert(d.contains(q[a]));
                    let j = choose|j: int| 0 <= j < d.len() && d[j] == q[a];
                    assert(names[j] == d[j]);
                }
            }
        }
    }
}

/// The frame without the columns named in `drop_columns`.
fn drop_columns_df(df: Frame, drop_columns: &Vec<String>) -> (r: Frame)
    ensures
        r@ == drop_named(df@, string_views(drop_columns@)),
{
    proof {
        use_type_invariant(&df);
    }
    let ghost m = df@;
    let ghost drop = string_views(drop_columns@);
    let height = df.height;
    let old_columns = df.columns;
    let n = old_columns.len();
    let mut columns: Vec<FrameColumn> = Vec::new();
    let mut i: usize = 0;
    while i < n
        invariant
            n == old_columns.len(),
            m.columns == column_views(old_columns@),
            drop == string_views(drop_columns@),
            i <= n,
            column_views(columns@) == columns_without(m.columns.take(i as int), drop),
        decreases n - i,
    {
        let column = &old_columns[i];
        proof {
            assert(m.columns.take(i + 1).drop_last() =~= m.columns.take(i as int));
            assert(m.columns.take(i + 1).last() == column@);
        }
        if !contains_name(drop_columns, column.name.as_str()) {
            let ghost before = column_views(columns@);
            columns.push(copy_column(column));
            proof {
                assert(column_views(columns@) =~= before.push(column@));
            }
        }
        i = i + 1;
    }
    proof {
        assert(m.columns.take(n as int) =~= m.columns);
        let r = drop_named(m, drop);
        lemma_columns_without(m.columns, drop);
        lemma_names_where_distinct(m.names(), |x: Seq<char>| !drop.contains(x));
        assert(r.names() =~= columns_without(m.columns, drop).map_values(|c: ColumnModel| c.name));
        assert forall|k: int| 0 <= k < r.columns.len() implies #[trigger] r.columns[k].cells.len() == r.height by {
            assert(m.columns.contains(r.columns[k]));
        }
        lemma_columns_without_len(m.columns, drop);
    }
    Frame { height, columns }
}

proof fn lemma_columns_without_len(columns: Seq<ColumnModel>, drop: Seq<Seq<char>>)
    ensures
        columns_without(columns, drop).len() <= columns.len(),
    decreases columns.len(),
{
    if columns.len() > 0 {
        lemma_columns_without_len(columns.drop_last(), drop);
    }
}


// ---------------------------------------------------------------------------
// Argument checks
// ---------------------------------------------------------------------------

/// `values` written as a Python list of strings.
pub fn python_list(values: &Vec<String>) -> (r: String)
    ensures
        r@ == python_list_spec(string_views(values@)),
{
    let ghost quoted = string_views(values@).map_values(|v: Seq<char>| seq!['\''] + v + seq!['\'']);
    let mut inner = String::new();
    let n = values.len();
    let mut i: usize = 0;
    while i < n
        invariant
            n == values.len(),
            quoted == string_views(values@).map_values(|v: Seq<char>| seq!['\''] + v + seq!['\'']),
            i <= n,
            inner@ == join(quoted.take(i as int), seq![',', ' ']),
        decreases n - i,
    {
        let ghost before = inner@;
        if i > 0 {
            crate::text::push_char(&mut inner, ',');
            crate::text::push_char(&mut inner, ' ');
        }
        crate::text::push_char(&mut inner, '\'');
        push_str(&mut inner, values[i].as_str());
        crate::text::push_char(&mut inner, '\'');
        proof {
            let t = quoted.take(i + 1);
            assert(t.drop_last() =~= quoted.take(i as int));
            assert(t.last() == seq!['\''] + values@[i as int]@ + seq!['\'']);
            if i == 0 {
                assert(inner@ =~= t[0]);
            } else {
                assert(inner@ =~= before + seq![',', ' '] + t.last());
            }
        }
        i = i + 1;
    }
    proof {
        assert(quoted.take(n as int) =~= quoted);
    }
    let mut out = String::new();
    crate::text::push_char(&mut out, '[');
    push_str(&mut out, inner.as_str());
    crate::text::push_char(&mut out, ']');
    proof {
        assert(out@ =~= python_list_spec(string_views(values@)));
    }
    out
}

pub open spec fn option_views(o: Option<Vec<String>>) -> Option<Seq<Seq<char>>> {
    match o {
        Some(v) => Some(string_views(v@)),
        None => None,
    }
}

/// The columns a selection names: the subset, or all available columns.
pub open spec fn selection(available: Seq<Seq<char>>, subset: Option<Seq<Seq<char>>>) -> Seq<Seq<char>> {
    match subset {
        Some(s) => s,
        None => available,
    }
}

/// The selected names that are not available, in order.
pub open spec fn missing_names(available: Seq<Seq<char>>, selected: Seq<Seq<char>>) -> Seq<Seq<char>> {
    names_where(selected, |x: Seq<char>| !available.contains(x))
}

/// The message a selection is refused with, if it is refused: an empty
/// subset, or names that are not available.
pub open spec fn selection_error(
    label: Seq<char>,
    available: Seq<Seq<char>>,
    subset: Option<Seq<Seq<char>>>,
) -> Option<Seq<char>> {
    if subset matches Some(s) && s.len() == 0 {
        Some(label + " must contain at least one column"@)
    } else if missing_names(available, selection(available, subset)).len() > 0 {
        Some(
            label + " columns are not present in the frame: "@ + python_list_spec(
                missing_names(available, selection(available, subset)),
            ),
        )
    } else {
        None
    }
}

/// The names among `names` that are not among `available`.
pub(crate) fn missing_columns(available: &Vec<String>, names: &Vec<String>) -> (r: Vec<String>)
    ensures
        string_views(r@) == missing_names(string_views(available@), string_views(names@)),
{
    let ghost avail = string_views(available@);
    let ghost all = string_views(names@);
    let mut missing: Vec<String> = Vec::new();
    let n = names.len();
    let mut i: usize = 0;
    while i < n
        invariant
            n == names.len(),
            avail == string_views(available@),
            all == string_views(names@),
            i <= n,
            string_views(missing@) == missing_names(avail, all.take(i as int)),
        decreases n - i,
    {
        proof {
            assert(all.take(i + 1).drop_last() =~= all.take(i as int));
            assert(all.take(i + 1).last() == names@[i as int]@);
        }
        if !contains_name(available, names[i].as_str()) {
            let ghost before = string_views(missing@);
            missing.push(names[i].clone());
            proof {
                assert(string_views(missing@) =~= before.push(names@[i as int]@));
            }
        }
        i = i + 1;
    }
    proof {
        assert(all.take(n as int) =~= all);
    }
    missing
}

pub(crate) fn copy_strings(values: &Vec<String>) -> (r: Vec<String>)
    ensures
        string_views(r@) == string_views(values@),
{
    let mut out: Vec<String> = Vec::new();
    let n = values.len();
    let mut i: usize = 0;
    while i < n
        invariant
            n == values.len(),
            i <= n,
            string_views(out@) == string_views(values@).take(i as int),
        decreases n - i,
    {
        let ghost before = string_views(out@);
        out.push(values[i].clone());
        proof {
            assert(string_views(out@) =~= before.push(values@[i as int]@));
            assert(string_views(values@).take(i + 1) =~= string_views(values@).take(i as int).push(
                values@[i as int]@,
            ));
        }
        i = i + 1;
    }
    proof {
        assert(string_views(values@).take(n as int) =~= string_views(values@));
    }
    out
}

/// The columns that `subset` selects among `available` (all of them when
/// there is no subset); refused when the subset is empty or names columns
/// that are not available.
fn selected_columns(available: &Vec<String>, subset: Option<Vec<String>>, label: &str) -> (r: Result<
    Vec<String>,
    JanitorError,
>)
    ensures
        match selection_error(label@, string_views(available@), option_views(subset)) {
            Some(message) => is_value_err(r, message),
            None => r is Ok && string_views(r->Ok_0@) == selection(
                string_views(available@),
                option_views(subset),
            ),
        },
{
    let selected = match subset {
        Some(columns) => {
            if columns.len() == 0 {
                let mut message = string_of(label);
                push_str(&mut message, " must contain at least one column");
                return Err(JanitorError::Value(message));
            }
            columns
        },
        None => copy_strings(available),
    };
    let missing = missing_columns(available, &selected);
    if missing.len() > 0 {
        let mut message = string_of(label);
        push_str(&mut message, " columns are not present in the frame: ");
        let list = python_list(&missing);
        push_str(&mut message, list.as_str());
        return Err(JanitorError::Value(message));
    }
    Ok(selected)
}

pub const AXIS_ERROR: &'static str = "axis must be one of: 'rows', 'cols', 'both'";

#[derive(Debug, Clone, Copy, PartialEq, Eq)]
pub enum Axis {
    Rows,
    Cols,
    Both,
}

pub open spec fn axis_of(axis: Seq<char>) -> Option<Axis> {
    if axis == seq!['r', 'o', 'w', 's'] {
        Some(Axis::Rows)
    } else if axis == seq!['c', 'o', 'l', 's'] {
        Some(Axis::Cols)
    } else if axis == seq!['b', 'o', 't', 'h'] {
        Some(Axis::Both)
    } else {
        None
    }
}

/// The axis that `axis` names; refused unless it is `rows`, `cols` or `both`.
fn validate_axis(axis: &str) -> (r: Result<Axis, JanitorError>)
    ensures
        match axis_of(axis@) {
            Some(a) => r == Ok::<Axis, JanitorError>(a),
            None => is_value_err(r, AXIS_ERROR@),
        },
{
    proof {
        reveal_strlit("rows");
        reveal_strlit("cols");
        reveal_strlit("both");
        assert("rows"@ =~= seq!['r', 'o', 'w', 's']);
        assert("cols"@ =~= seq!['c', 'o', 'l', 's']);
        assert("both"@ =~= seq!['b', 'o', 't', 'h']);
    }
    if crate::text::str_equal(axis, "rows") {
        Ok(Axis::Rows)
    } else if crate::text::str_equal(axis, "cols") {
        Ok(Axis::Cols)
    } else if crate::text::str_equal(axis, "both") {
        Ok(Axis::Both)
    } else {
        Err(JanitorError::value(AXIS_ERROR))
    }
}

pub const KEYS_EMPTY_ERROR: &'static str = "keys must contain at least one column";

/// Refuses an empty list of keys.
fn validate_keys(keys: &Vec<String>) -> (r: Result<(), JanitorError>)
    ensures
        keys.len() == 0 ==> is_value_err(r, KEYS_EMPTY_ERROR@),
        keys.len() > 0 ==> r is Ok,
{
    if keys.len() == 0 {
        Err(JanitorError::value(KEYS_EMPTY_ERROR))
    } else {
        Ok(())
    }
}

/// The message for keys that are not columns of the frame.
pub open spec fn missing_keys_message(missing: Seq<Seq<char>>) -> Seq<char> {
    "keys are not present in the frame: "@ + python_list_spec(missing)
}

/// Refuses keys that are not among `available`.
fn validate_key_columns(available: &Vec<String>, keys: &Vec<String>) -> (r: Result<(), JanitorError>)
    ensures
        ({
            let missing = missing_names(string_views(available@), string_views(keys@));
            &&& missing.len() > 0 ==> is_value_err(r, missing_keys_message(missing))
            &&& missing.len() == 0 ==> r is Ok
        }),
{
    let missing = missing_columns(available, keys);
    if missing.len() == 0 {
        Ok(())
    } else {
        let mut message = string_of("keys are not present in the frame: ");
        let list = python_list(&missing);
        push_str(&mut message, list.as_str());
        Err(JanitorError::Value(message))
    }
}


// ---------------------------------------------------------------------------
// Column names
// ---------------------------------------------------------------------------

/// The frame with its column names cleaned in the case style `case`.
pub fn clean_names_df(df: Frame, case: &str) -> (r: Result<Frame, JanitorError>)
    ensures
        case_style_of(case@) is None ==> is_value_err(r, CASE_ERROR@),
        case_style_of(case@) matches Some(style) ==> r is Ok && r->Ok_0@ == renamed(
            df@,
            clean_names_spec(df@.names(), style),
        ),
{
    proof {
        use_type_invariant(&df);
    }
    let names = dataframe_column_names(&df);
    proof {
        assert(string_views(names@).len() == df@.names().len());
    }
    match make_clean_names(names.as_slice(), case) {
        Ok(cleaned) => {
            proof {
                let style = case_style_of(case@)->Some_0;
                crate::name_laws::law_clean_names_distinct_nonempty(df@.names(), style);
            }
            Ok(rename_columns_df(df, cleaned))
        },
        Err(error) => Err(JanitorError::value(error.message())),
    }
}

/// The text a cell gives as a header: nothing for a missing value, the
/// value's text trimmed otherwise.
pub open spec fn header_text(cell: Option<Seq<char>>) -> Seq<char> {
    match cell {
        Some(t) => trim(t),
        None => Seq::empty(),
    }
}

/// Whether a cell counts as missing in a header: no value, or only white space.
pub open spec fn is_missing(cell: Option<Seq<char>>) -> bool {
    match cell {
        Some(t) => trim(t).len() == 0,
        None => true,
    }
}

/// The header texts of row `r`.
pub open spec fn header_row(m: FrameModel, r: int) -> Seq<Seq<char>> {
    m.columns.map_values(|c: ColumnModel| header_text(c.cells[r]))
}

fn any_value_to_header_string(cell: &Cell) -> (r: Vec<char>)
    ensures
        r@ == header_text(cell@),
{
    match cell {
        Cell::Null => Vec::new(),
        Cell::Value(text) => {
            let chars = chars_of(text.as_str());
            trim_chars(&chars)
        },
    }
}

fn any_value_is_missing(cell: &Cell) -> (r: bool)
    ensures
        r == is_missing(cell@),
{
    match cell {
        Cell::Null => true,
        Cell::Value(text) => {
            let chars = chars_of(text.as_str());
            trim_chars(&chars).len() == 0
        },
    }
}

pub open spec fn row_index_message(row: nat, height: nat) -> Seq<char> {
    "row index "@ + decimal(row) + " is out of bounds for frame with "@ + decimal(height) + " rows"@
}

fn validate_row_index(df: &Frame, row_index: usize) -> (r: Result<(), JanitorError>)
    ensures
        row_index < df@.height ==> r is Ok,
        row_index >= df@.height ==> is_value_err(r, row_index_message(row_index as nat, df@.height)),
{
    if row_index < df.height() {
        Ok(())
    } else {
        let mut message = string_of("row index ");
        push_decimal(&mut message, row_index as u128);
        push_str(&mut message, " is out of bounds for frame with ");
        push_decimal(&mut message, df.height() as u128);
        push_str(&mut message, " rows");
        Err(JanitorError::Value(message))
    }
}

/// The rows kept after the header row `row`: those below it when the rows
/// above go (and the row itself unless it stays), else all but the row.
pub open spec fn header_kept_rows(height: nat, row: nat, remove_row: bool, remove_rows_above: bool) -> Seq<
    int,
> {
    if remove_rows_above {
        row_range(row + if remove_row { 1int } else { 0int }, height as int)
    } else if remove_row {
        row_range(0, row as int) + row_range(row as int + 1, height as int)
    } else {
        row_range(0, height as int)
    }
}

pub open spec fn drop_header_rows_spec(m: FrameModel, row: nat, remove_row: bool, remove_rows_above: bool) -> FrameModel {
    if !remove_row && !remove_rows_above {
        m
    } else {
        select_rows(m, header_kept_rows(m.height, row, remove_row, remove_rows_above))
    }
}

fn push_range(rows: &mut Vec<usize>, lo: usize, hi: usize)
    requires
        lo <= hi,
    ensures
        row_indices(final(rows)@) == row_indices(old(rows)@) + row_range(lo as int, hi as int),
        final(rows)@.len() == old(rows)@.len() + (hi - lo),
        forall|k: int| 0 <= k < final(rows)@.len() ==> #[trigger] final(rows)@[k] < hi || (k < old(rows)@.len()
            && final(rows)@[k] == old(rows)@[k]),
{
    let ghost start = row_indices(rows@);
    let mut x = lo;
    while x < hi
        invariant
            lo <= x <= hi,
            rows@.len() == old(rows)@.len() + (x - lo),
            row_indices(rows@) == start + row_range(lo as int, x as int),
            start == row_indices(old(rows)@),
            forall|k: int| 0 <= k < rows@.len() ==> #[trigger] rows@[k] < hi || (k < old(rows)@.len()
                && rows@[k] == old(rows)@[k]),
        decreases hi - x,
    {
        let ghost before = row_indices(rows@);
        rows.push(x);
        proof {
            assert(row_indices(rows@) =~= before.push(x as int));
            assert(row_range(lo as int, x + 1) =~= row_range(lo as int, x as int).push(x as int));
        }
        x = x + 1;
    }
}

fn drop_header_rows(df: Frame, row_index: usize, remove_row: bool, remove_rows_above: bool) -> (r: Frame)
    requires
        row_index < df@.height,
    ensures
        r@ == drop_header_rows_spec(df@, row_index as nat, remove_row, remove_rows_above),
{
    if !remove_row && !remove_rows_above {
        return df;
    }
    let height = df.height();
    let mut rows: Vec<usize> = Vec::new();
    if remove_rows_above {
        let offset = row_index + if remove_row {
            1
        } else {
            0
        };
        push_range(&mut rows, offset, height);
    } else {
        push_range(&mut rows, 0, row_index);
        push_range(&mut rows, row_index + 1, height);
    }
    proof {
        assert(row_indices(rows@) =~= header_kept_rows(df@.height, row_index as nat, remove_row, remove_rows_above));
    }
    take_rows(&df, &rows)
}

/// The frame with the header texts of row `row_index` as its (cleaned)
/// column names; then, as asked, without that row and without the rows
/// above it. Refused when the row is not in the frame or the case style is
/// unknown.
pub fn row_to_names_df(
    df: Frame,
    row_index: usize,
    remove_row: bool,
    remove_rows_above: bool,
    case: &str,
) -> (r: Result<Frame, JanitorError>)
    ensures
        row_index >= df@.height ==> is_value_err(r, row_index_message(row_index as nat, df@.height)),
        row_index < df@.height && case_style_of(case@) is None ==> is_value_err(r, CASE_ERROR@),
        row_index < df@.height ==> (case_style_of(case@) matches Some(style) ==> r is Ok
            && r->Ok_0@ == drop_header_rows_spec(
            renamed(df@, clean_names_spec(header_row(df@, row_index as int), style)),
            row_index as nat,
            remove_row,
            remove_rows_above,
        )),
{
    proof {
        use_type_invariant(&df);
    }
    match validate_row_index(&df, row_index) {
        Ok(()) => {},
        Err(error) => {
            return Err(error);
        },
    }
    let ghost m = df@;
    let mut names: Vec<String> = Vec::new();
    let columns = df.columns();
    let n = columns.len();
    let mut i: usize = 0;
    while i < n
        invariant
            n == columns.len(),
            column_views(columns@) == m.columns,
            m.wf(),
            row_index < m.height,
            i <= n,
            names.len() == i,
            string_views(names@) == header_row(m, row_index as int).take(i as int),
        decreases n - i,
    {
        proof {
            assert(m.columns[i as int] == columns@[i as int]@);
            assert(m.columns[i as int].cells.len() == m.height);
        }
        let text = any_value_to_header_string(&columns[i].cells[row_index]);
        let ghost before = string_views(names@);
        names.push(crate::text::string_from_chars(&text));
        proof {
            assert(m.columns[i as int].cells[row_index as int] == columns@[i as int].cells@[row_index as int]@);
            assert(header_row(m, row_index as int)[i as int] == text@);
            assert(string_views(names@) =~= before.push(text@));
            assert(string_views(names@) =~= header_row(m, row_index as int).take(i + 1));
        }
        i = i + 1;
    }
    proof {
        assert(header_row(m, row_index as int).take(n as int) =~= header_row(m, row_index as int));
    }
    let cleaned = match make_clean_names(names.as_slice(), case) {
        Ok(cleaned) => cleaned,
        Err(error) => {
            return Err(JanitorError::value(error.message()));
        },
    };
    proof {
        let style = case_style_of(case@)->Some_0;
        crate::name_laws::law_clean_names_distinct_nonempty(header_row(m, row_index as int), style);
    }
    let renamed_df = rename_columns_df(df, cleaned);
    Ok(drop_header_rows(renamed_df, row_index, remove_row, remove_rows_above))
}


// ---------------------------------------------------------------------------
// Finding the header row
// ---------------------------------------------------------------------------

/// The column to search for a header value: by name or by position.
#[derive(Debug, Clone)]
pub enum HeaderSearchColumn {
    Name(String),
    Index(usize),
}

pub const NO_HEADER_ERROR: &'static str = "no header row found";

/// No cell of row `r` is missing.
pub open spec fn row_complete(m: FrameModel, r: int) -> bool {
    forall|c: int| 0 <= c < m.columns.len() ==> !is_missing(#[trigger] m.cell(c, r))
}

/// The cell of column `c` in row `r` is present and its header text is `value`.
pub open spec fn row_has_value(m: FrameModel, c: int, r: int, value: Seq<char>) -> bool {
    !is_missing(m.cell(c, r)) && header_text(m.cell(c, r)) == value
}

/// `r` is the first row below `height` where `p` holds, or, when there is
/// none, the refusal for a missing header.
pub open spec fn first_row_result(r: Result<usize, JanitorError>, height: nat, p: spec_fn(int) -> bool) -> bool {
    if exists|k: int| 0 <= k < height && #[trigger] p(k) {
        &&& r is Ok
        &&& r->Ok_0 < height
        &&& p(r->Ok_0 as int)
        &&& forall|k: int| 0 <= k < r->Ok_0 ==> !#[trigger] p(k)
    } else {
        is_value_err(r, NO_HEADER_ERROR@)
    }
}

pub open spec fn column_index_message(index: nat) -> Seq<char> {
    "column index "@ + decimal(index) + " is out of bounds"@
}

/// `e` reports that no column is called `name`, with the message that
/// polars gives for it.
pub open spec fn is_column_not_found(e: JanitorError, name: Seq<char>) -> bool {
    e matches JanitorError::ColumnNotFound(m) && m@ == debug_str(name) + " not found"@
}

proof fn lemma_column_index_unique(m: FrameModel, i: int)
    requires
        m.wf(),
        0 <= i < m.columns.len(),
    ensures
        column_index(m, m.columns[i].name) == i,
{
    let name = m.columns[i].name;
    assert(m.names()[i] == name);
    lemma_column_index(m, name);
    let k = column_index(m, name);
    assert(m.names()[k] == name);
}

/// The position of the column called `name`, if there is one.
fn position_of(df: &Frame, name: &str) -> (r: Option<usize>)
    ensures
        r is None <==> !df@.has_column(name@),
        r matches Some(i) ==> i < df@.width() && i == column_index(df@, name@),
{
    proof {
        use_type_invariant(df);
    }
    let columns = df.columns();
    let target = chars_of(name);
    let n = columns.len();
    let mut i: usize = 0;
    while i < n
        invariant
            n == columns.len(),
            column_views(columns@) == df@.columns,
            df@.wf(),
            target@ == name@,
            i <= n,
            forall|k: int| 0 <= k < i ==> df@.names()[k] != name@,
        decreases n - i,
    {
        let candidate = chars_of(columns[i].name.as_str());
        proof {
            assert(df@.columns[i as int] == columns@[i as int]@);
            assert(df@.names()[i as int] == columns@[i as int].name@);
        }
        if chars_equal(&candidate, &target) {
            proof {
                lemma_column_index_unique(df@, i as int);
                assert(df@.names().contains(name@));
            }
            return Some(i);
        }
        i = i + 1;
    }
    None
}

fn find_first_complete_row(df: &Frame) -> (r: Result<usize, JanitorError>)
    ensures
        first_row_result(r, df@.height, |k: int| row_complete(df@, k)),
{
    proof {
        use_type_invariant(df);
    }
    let ghost m = df@;
    let ghost p = |k: int| row_complete(m, k);
    let columns = df.columns();
    let height = df.height();
    let width = columns.len();
    let mut row: usize = 0;
    while row < height
        invariant
            m == df@,
            height == m.height,
            width == columns.len(),
            column_views(columns@) == m.columns,
            m.wf(),
            row <= height,
            forall|k: int| 0 <= k < row ==> !#[trigger] row_complete(m, k),
        decreases height - row,
    {
        let mut complete = true;
        let mut c: usize = 0;
        while c < width
            invariant
                height == m.height,
                width == columns.len(),
                column_views(columns@) == m.columns,
                m.wf(),
                row < height,
                c <= width,
                complete ==> forall|j: int| 0 <= j < c ==> !is_missing(#[trigger] m.cell(j, row as int)),
                !complete ==> !row_complete(m, row as int),
            decreases width - c,
        {
            proof {
                assert(m.columns[c as int] == columns@[c as int]@);
                assert(m.columns[c as int].cells.len() == m.height);
                assert(m.cell(c as int, row as int) == columns@[c as int].cells@[row as int]@);
            }
            if any_value_is_missing(&columns[c].cells[row]) {
                complete = false;
            }
            c = c + 1;
        }
        if complete {
            proof {
                let p = |k: int| row_complete(df@, k);
                assert(p(row as int));
                assert(forall|k: int| 0 <= k < row ==> !#[trigger] p(k));
            }
            return Ok(row);
        }
        row = row + 1;
    }
    Err(JanitorError::value(NO_HEADER_ERROR))
}

fn find_header_in_column(df: &Frame, value: &Vec<char>, c: usize) -> (r: Result<usize, JanitorError>)
    requires
        c < df@.width(),
    ensures
        first_row_result(r, df@.height, |k: int| row_has_value(df@, c as int, k, value@)),
{
    proof {
        use_type_invariant(df);
    }
    let ghost m = df@;
    let columns = df.columns();
    let cells = &columns[c].cells;
    proof {
        assert(m.columns[c as int] == columns@[c as int]@);
        assert(m.columns[c as int].cells.len() == m.height);
    }
    let height = df.height();
    let mut row: usize = 0;
    while row < height
        invariant
            m == df@,
            height == m.height,
            cells.len() == height,
            forall|k: int| 0 <= k < height ==> #[trigger] m.cell(c as int, k) == cells@[k]@,
            row <= height,
            forall|k: int| 0 <= k < row ==> !#[trigger] row_has_value(m, c as int, k, value@),
        decreases height - row,
    {
        if !any_value_is_missing(&cells[row]) {
            let text = any_value_to_header_string(&cells[row]);
            if chars_equal(&text, value) {
                proof {
                    let p = |k: int| row_has_value(df@, c as int, k, value@);
                    assert(p(row as int));
                    assert(forall|k: int| 0 <= k < row ==> !#[trigger] p(k));
                }
                return Ok(row);
            }
        }
        row = row + 1;
    }
    Err(JanitorError::value(NO_HEADER_ERROR))
}

/// The position of the column to search for a header value: the named
/// column, the column at the given position, or the first column.
fn resolve_header_search_column(df: &Frame, column: Option<HeaderSearchColumn>) -> (r: Result<
    usize,
    JanitorError,
>)
    requires
        df@.width() > 0,
    ensures
        match column {
            None => r == Ok::<usize, JanitorError>(0),
            Some(HeaderSearchColumn::Index(i)) => if i < df@.width() {
                r == Ok::<usize, JanitorError>(i)
            } else {
                is_value_err(r, column_index_message(i as nat))
            },
            Some(HeaderSearchColumn::Name(name)) => if df@.has_column(name@) {
                r is Ok && r->Ok_0 == column_index(df@, name@)
            } else {
                r is Err && is_column_not_found(r->Err_0, name@)
            },
        },
        r matches Ok(i) ==> i < df@.width(),
{
    match column {
        Some(HeaderSearchColumn::Name(name)) => match position_of(df, name.as_str()) {
            Some(i) => Ok(i),
            None => {
                let mut message = debug_quoted(name.as_str());
                push_str(&mut message, " not found");
                Err(JanitorError::ColumnNotFound(message))
            },
        },
        Some(HeaderSearchColumn::Index(index)) => {
            if index < df.width() {
                Ok(index)
            } else {
                let mut message = string_of("column index ");
                push_decimal(&mut message, index as u128);
                push_str(&mut message, " is out of bounds");
                Err(JanitorError::Value(message))
            }
        },
        None => Ok(0),
    }
}

/// The row that holds the header: with a value, the first row whose cell in
/// the searched column has that (trimmed) value as its header text; without
/// one, the first row with no missing cell. Refused when the frame is empty
/// or no row qualifies.
pub fn find_header_df(df: &Frame, value: Option<String>, column: Option<HeaderSearchColumn>) -> (r:
    Result<usize, JanitorError>)
    ensures
        df@.height == 0 || df@.width() == 0 ==> is_value_err(r, NO_HEADER_ERROR@),
        df@.height > 0 && df@.width() > 0 ==> match value {
            None => first_row_result(r, df@.height, |k: int| row_complete(df@, k)),
            Some(v) => match column {
                None => first_row_result(r, df@.height, |k: int| row_has_value(df@, 0, k, trim(v@))),
                Some(HeaderSearchColumn::Index(i)) => if i < df@.width() {
                    first_row_result(r, df@.height, |k: int| row_has_value(df@, i as int, k, trim(v@)))
                } else {
                    is_value_err(r, column_index_message(i as nat))
                },
                Some(HeaderSearchColumn::Name(name)) => if df@.has_column(name@) {
                    first_row_result(
                        r,
                        df@.height,
                        |k: int| row_has_value(df@, column_index(df@, name@), k, trim(v@)),
                    )
                } else {
                    r is Err && is_column_not_found(r->Err_0, name@)
                },
            },
        },
{
    if df.height() == 0 || df.width() == 0 {
        return Err(JanitorError::value(NO_HEADER_ERROR));
    }
    match value {
        Some(v) => {
            let chars = chars_of(v.as_str());
            let trimmed = trim_chars(&chars);
            let c = match resolve_header_search_column(df, column) {
                Ok(c) => c,
                Err(error) => {
                    return Err(error);
                },
            };
            find_header_in_column(df, &trimmed, c)
        },
        None => find_first_complete_row(df),
    }
}


// ---------------------------------------------------------------------------
// Removing empty and constant rows and columns
// ---------------------------------------------------------------------------

/// The column called `name`.
pub open spec fn column_of(m: FrameModel, name: Seq<char>) -> ColumnModel {
    m.columns[column_index(m, name)]
}

/// Some selected column has a value in row `r`.
pub open spec fn row_has_any(m: FrameModel, selected: Seq<Seq<char>>, r: int) -> bool {
    exists|s: int| 0 <= s < selected.len() && (#[trigger] column_of(m, selected[s])).cells[r] is Some
}

/// The frame without the rows where every selected column is missing.
pub open spec fn remove_empty_rows_spec(m: FrameModel, selected: Seq<Seq<char>>) -> FrameModel {
    if selected.len() == 0 {
        m
    } else {
        select_rows(m, rows_where(m.height, |r: int| row_has_any(m, selected, r)))
    }
}

/// Every cell of the column called `name` is missing.
pub open spec fn column_all_null(m: FrameModel, name: Seq<char>) -> bool {
    forall|r: int| 0 <= r < m.height ==> (#[trigger] column_of(m, name).cells[r]) is None
}

/// The frame without the selected columns whose cells are all missing.
pub open spec fn remove_empty_cols_spec(m: FrameModel, selected: Seq<Seq<char>>) -> FrameModel {
    drop_named(m, names_where(selected, |s: Seq<char>| column_all_null(m, s)))
}

pub open spec fn remove_empty_spec(m: FrameModel, axis: Axis, selected: Seq<Seq<char>>) -> FrameModel {
    match axis {
        Axis::Rows => remove_empty_rows_spec(m, selected),
        Axis::Cols => remove_empty_cols_spec(m, selected),
        Axis::Both => remove_empty_cols_spec(remove_empty_rows_spec(m, selected), selected),
    }
}

/// A cell that takes part in the count of distinct values.
pub open spec fn counted(cell: Option<Seq<char>>, ignore_nulls: bool) -> bool {
    !ignore_nulls || cell is Some
}

/// The column called `name` has at most one distinct value (missing values
/// count as a value unless they are ignored).
pub open spec fn column_constant(m: FrameModel, name: Seq<char>, ignore_nulls: bool) -> bool {
    cells_constant(column_of(m, name).cells, ignore_nulls)
}

/// All counted cells are equal.
pub open spec fn cells_constant(cells: Seq<Option<Seq<char>>>, ignore_nulls: bool) -> bool {
    forall|i: int, j: int|
        0 <= i < cells.len() && 0 <= j < cells.len() && counted(#[trigger] cells[i], ignore_nulls)
            && counted(#[trigger] cells[j], ignore_nulls) ==> cells[i] == cells[j]
}

pub open spec fn remove_constant_spec(m: FrameModel, selected: Seq<Seq<char>>, ignore_nulls: bool) -> FrameModel {
    drop_named(m, names_where(selected, |s: Seq<char>| column_constant(m, s, ignore_nulls)))
}

/// The positions of the columns called `names`, all of which exist.
fn positions_of(df: &Frame, names: &Vec<String>) -> (r: Vec<usize>)
    requires
        forall|k: int| 0 <= k < names.len() ==> df@.has_column(#[trigger] names@[k]@),
    ensures
        r.len() == names.len(),
        forall|k: int|
            0 <= k < names.len() ==> #[trigger] r@[k] < df@.width() && r@[k] == column_index(
                df@,
                names@[k]@,
            ),
{
    let n = names.len();
    let mut out: Vec<usize> = Vec::new();
    let mut i: usize = 0;
    while i < n
        invariant
            n == names.len(),
            forall|k: int| 0 <= k < names.len() ==> df@.has_column(#[trigger] names@[k]@),
            i <= n,
            out.len() == i,
            forall|k: int|
                0 <= k < i ==> #[trigger] out@[k] < df@.width() && out@[k] == column_index(
                    df@,
                    names@[k]@,
                ),
        decreases n - i,
    {
        let p = position_of(df, names[i].as_str());
        match p {
            Some(x) => out.push(x),
            None => {
                proof {
                    assert(df@.has_column(names@[i as int]@));
                }
                out.push(0);
            },
        }
        i = i + 1;
    }
    out
}

proof fn lemma_selection_present(m: FrameModel, selected: Seq<Seq<char>>)
    requires
        missing_names(m.names(), selected).len() == 0,
    ensures
        forall|k: int| 0 <= k < selected.len() ==> m.has_column(#[trigger] selected[k]),
    decreases selected.len(),
{
    if selected.len() > 0 {
        let d = selected.drop_last();
        if missing_names(m.names(), d).len() > 0 {
            assert(missing_names(m.names(), selected).len() > 0);
        }
        lemma_selection_present(m, d);
        assert forall|k: int| 0 <= k < selected.len() implies m.has_column(#[trigger] selected[k]) by {
            if k < d.len() {
                assert(d[k] == selected[k]);
            }
        }
    }
}

proof fn lemma_select_rows_names(m: FrameModel, rows: Seq<int>)
    requires
        m.wf(),
        forall|k: int| 0 <= k < rows.len() ==> 0 <= #[trigger] rows[k] < m.height,
        rows.len() <= usize::MAX,
    ensures
        select_rows(m, rows).names() == m.names(),
        select_rows(m, rows).wf(),
        forall|name: Seq<char>| m.has_column(name) ==> column_index(select_rows(m, rows), name) == column_index(m, name),
{
    let t = select_rows(m, rows);
    assert(t.names() =~= m.names());
    assert forall|name: Seq<char>| m.has_column(name) implies column_index(t, name) == column_index(m, name) by {
        lemma_column_index(m, name);
        lemma_column_index_unique(t, column_index(m, name));
    }
}

/// The frame without the rows where every selected column is missing.
fn remove_empty_rows_df(df: Frame, subset: Option<Vec<String>>) -> (r: Result<Frame, JanitorError>)
    ensures
        match selection_error("subset"@, df@.names(), option_views(subset)) {
            Some(message) => is_value_err(r, message),
            None => r is Ok && r->Ok_0@ == remove_empty_rows_spec(
                df@,
                selection(df@.names(), option_views(subset)),
            ),
        },
{
    proof {
        use_type_invariant(&df);
    }
    let ghost m = df@;
    let available = dataframe_column_names(&df);
    let columns = match selected_columns(&available, subset, "subset") {
        Ok(c) => c,
        Err(e) => {
            return Err(e);
        },
    };
    if columns.len() == 0 {
        return Ok(df);
    }
    let ghost sel = string_views(columns@);
    proof {
        lemma_selection_present(m, sel);
        assert forall|k: int| 0 <= k < columns.len() implies m.has_column(#[trigger] columns@[k]@) by {
            assert(sel[k] == columns@[k]@);
        }
    }
    let positions = positions_of(&df, &columns);
    let ghost p = |r: int| row_has_any(m, sel, r);
    let frame_columns = df.columns();
    let height = df.height();
    let mut rows: Vec<usize> = Vec::new();
    let mut r: usize = 0;
    while r < height
        invariant
            m == df@,
            m.wf(),
            height == m.height,
            column_views(frame_columns@) == m.columns,
            sel == string_views(columns@),
            positions.len() == columns.len(),
            forall|k: int|
                0 <= k < columns.len() ==> #[trigger] positions@[k] < m.width() && positions@[k]
                    == column_index(m, columns@[k]@),
            r <= height,
            rows@.len() <= r,
            forall|k: int| 0 <= k < rows@.len() ==> #[trigger] rows@[k] < r,
            row_indices(rows@) == rows_where(r as nat, p),
            p == (|x: int| row_has_any(m, sel, x)),
        decreases height - r,
    {
        let mut any = false;
        let mut k: usize = 0;
        while k < positions.len()
            invariant
                m == df@,
                m.wf(),
                height == m.height,
                r < height,
                column_views(frame_columns@) == m.columns,
                sel == string_views(columns@),
                positions.len() == columns.len(),
                forall|j: int|
                    0 <= j < columns.len() ==> #[trigger] positions@[j] < m.width() && positions@[j]
                        == column_index(m, columns@[j]@),
                k <= positions.len(),
                any == exists|j: int| 0 <= j < k && (#[trigger] column_of(m, sel[j])).cells[r as int] is Some,
            decreases positions.len() - k,
        {
            let c = positions[k];
            proof {
                assert(m.columns[c as int] == frame_columns@[c as int]@);
                assert(m.columns[c as int].cells.len() == m.height);
                assert(sel[k as int] == columns@[k as int]@);
                assert(column_of(m, sel[k as int]) == m.columns[c as int]);
                assert(m.columns[c as int].cells[r as int] == frame_columns@[c as int].cells@[r as int]@);
            }
            match &frame_columns[c].cells[r] {
                Cell::Null => {},
                Cell::Value(_) => {
                    any = true;
                },
            }
            k = k + 1;
        }
        if any {
            let ghost before = row_indices(rows@);
            rows.push(r);
            proof {
                assert(row_indices(rows@) =~= before.push(r as int));
            }
        }
        proof {
            assert(sel.len() == columns.len());
            assert(p(r as int) == row_has_any(m, sel, r as int));
            assert(p(r as int) == any);
            assert(rows_where((r + 1) as nat, p) == if p(r as int) {
                rows_where(r as nat, p).push(r as int)
            } else {
                rows_where(r as nat, p)
            });
        }
        r = r + 1;
    }
    proof {
        lemma_rows_where_bounds(height as nat, p);
    }
    Ok(take_rows(&df, &rows))
}

proof fn lemma_rows_where_bounds(height: nat, p: spec_fn(int) -> bool)
    ensures
        rows_where(height, p).len() <= height,
        forall|k: int| 0 <= k < rows_where(height, p).len() ==> 0 <= #[trigger] rows_where(height, p)[k] < height,
        forall|k: int| 0 <= k < rows_where(height, p).len() ==> p(#[trigger] rows_where(height, p)[k]),
    decreases height,
{
    if height > 0 {
        lemma_rows_where_bounds((height - 1) as nat, p);
    }
}

/// The selected columns whose cells are all missing.
fn null_columns(df: &Frame, columns: &Vec<String>) -> (r: Vec<String>)
    requires
        forall|k: int| 0 <= k < columns.len() ==> df@.has_column(#[trigger] columns@[k]@),
    ensures
        string_views(r@) == names_where(string_views(columns@), |s: Seq<char>| column_all_null(df@, s)),
{
    proof {
        use_type_invariant(df);
    }
    let ghost m = df@;
    let ghost sel = string_views(columns@);
    let positions = positions_of(df, columns);
    let frame_columns = df.columns();
    let height = df.height();
    let mut out: Vec<String> = Vec::new();
    let n = columns.len();
    let mut i: usize = 0;
    while i < n
        invariant
            m == df@,
            m.wf(),
            height == m.height,
            n == columns.len(),
            column_views(frame_columns@) == m.columns,
            sel == string_views(columns@),
            positions.len() == columns.len(),
            forall|j: int|
                0 <= j < columns.len() ==> #[trigger] positions@[j] < m.width() && positions@[j]
                    == column_index(m, columns@[j]@),
            i <= n,
            string_views(out@) == names_where(sel.take(i as int), |s: Seq<char>| column_all_null(m, s)),
        decreases n - i,
    {
        let c = positions[i];
        let cells = &frame_columns[c].cells;
        proof {
            assert(m.columns[c as int] == frame_columns@[c as int]@);
            assert(sel[i as int] == columns@[i as int]@);
            assert(column_of(m, sel[i as int]) == m.columns[c as int]);
            assert(m.columns[c as int].cells.len() == m.height);
            assert forall|q: int| 0 <= q < height implies #[trigger] column_of(m, sel[i as int]).cells[q]
                == cells@[q]@ by {
                assert(m.columns[c as int].cells[q] == frame_columns@[c as int].cells@[q]@);
            }
        }
        let mut all_null = true;
        let mut r: usize = 0;
        while r < height
            invariant
                cells.len() == height,
                height == m.height,
                forall|q: int| 0 <= q < height ==> #[trigger] column_of(m, sel[i as int]).cells[q] == cells@[q]@,
                r <= height,
                all_null == forall|q: int| 0 <= q < r ==> (#[trigger] column_of(m, sel[i as int]).cells[q]) is None,
            decreases height - r,
        {
            proof {
                assert(column_of(m, sel[i as int]).cells[r as int] == cells@[r as int]@);
            }
            match &cells[r] {
                Cell::Null => {},
                Cell::Value(_) => {
                    all_null = false;
                },
            }
            r = r + 1;
        }
        proof {
            assert(sel.take(i + 1).drop_last() =~= sel.take(i as int));
            assert(sel.take(i + 1).last() == columns@[i as int]@);
        }
        if all_null {
            let ghost before = string_views(out@);
            out.push(columns[i].clone());
            proof {
                assert(string_views(out@) =~= before.push(columns@[i as int]@));
            }
        }
        i = i + 1;
    }
    proof {
        assert(sel.take(n as int) =~= sel);
    }
    out
}

/// The frame without the selected columns whose cells are all missing.
fn remove_empty_cols_df(df: Frame, subset: Option<Vec<String>>) -> (r: Result<Frame, JanitorError>)
    ensures
        match selection_error("subset"@, df@.names(), option_views(subset)) {
            Some(message) => is_value_err(r, message),
            None => r is Ok && r->Ok_0@ == remove_empty_cols_spec(
                df@,
                selection(df@.names(), option_views(subset)),
            ),
        },
{
    let available = dataframe_column_names(&df);
    let columns = match selected_columns(&available, subset, "subset") {
        Ok(c) => c,
        Err(e) => {
            return Err(e);
        },
    };
    proof {
        let sel = string_views(columns@);
        lemma_selection_present(df@, sel);
        assert forall|k: int| 0 <= k < columns.len() implies df@.has_column(#[trigger] columns@[k]@) by {
            assert(sel[k] == columns@[k]@);
        }
    }
    let drop = null_columns(&df, &columns);
    Ok(drop_columns_df(df, &drop))
}

fn copy_subset(subset: &Option<Vec<String>>) -> (r: Option<Vec<String>>)
    ensures
        option_views(r) == option_views(*subset),
{
    match subset {
        Some(v) => Some(copy_strings(v)),
        None => None,
    }
}

/// The frame without its empty rows (`rows`), its empty columns (`cols`),
/// or both, judged on the selected columns. Refused for another axis, an
/// empty subset, or a subset naming columns that are not in the frame.
pub fn remove_empty_df(df: Frame, axis: &str, subset: Option<Vec<String>>) -> (r: Result<Frame, JanitorError>)
    ensures
        axis_of(axis@) is None ==> is_value_err(r, AXIS_ERROR@),
        axis_of(axis@) matches Some(a) ==> match selection_error(
            "subset"@,
            df@.names(),
            option_views(subset),
        ) {
            Some(message) => is_value_err(r, message),
            None => r is Ok && r->Ok_0@ == remove_empty_spec(
                df@,
                a,
                selection(df@.names(), option_views(subset)),
            ),
        },
{
    let axis = match validate_axis(axis) {
        Ok(a) => a,
        Err(e) => {
            return Err(e);
        },
    };
    match axis {
        Axis::Rows => remove_empty_rows_df(df, subset),
        Axis::Cols => remove_empty_cols_df(df, subset),
        Axis::Both => {
            proof {
                use_type_invariant(&df);
            }
            let ghost m = df@;
            let again = copy_subset(&subset);
            let rows_removed = match remove_empty_rows_df(df, subset) {
                Ok(f) => f,
                Err(e) => {
                    return Err(e);
                },
            };
            proof {
                let sel = selection(m.names(), option_views(again));
                if sel.len() > 0 {
                    let p = |r: int| row_has_any(m, sel, r);
                    lemma_rows_where_bounds(m.height, p);
                    lemma_select_rows_names(m, rows_where(m.height, p));
                }
            }
            remove_empty_cols_df(rows_removed, again)
        },
    }
}


fn cells_equal(a: &Cell, b: &Cell) -> (r: bool)
    ensures
        r == (a@ == b@),
{
    match (a, b) {
        (Cell::Null, Cell::Null) => true,
        (Cell::Value(x), Cell::Value(y)) => *x == *y,
        _ => false,
    }
}

fn is_counted(cell: &Cell, ignore_nulls: bool) -> (r: bool)
    ensures
        r == counted(cell@, ignore_nulls),
{
    match cell {
        Cell::Null => !ignore_nulls,
        Cell::Value(_) => true,
    }
}

/// Whether the counted cells have at most one distinct value.
fn cells_are_constant(cells: &Vec<Cell>, ignore_nulls: bool) -> (r: bool)
    ensures
        r == cells_constant(cells@.map_values(|c: Cell| c@), ignore_nulls),
{
    let ghost v = cells@.map_values(|c: Cell| c@);
    let n = cells.len();
    let mut first: Option<usize> = None;
    let mut i: usize = 0;
    while i < n
        invariant
            n == cells.len(),
            v == cells@.map_values(|c: Cell| c@),
            i <= n,
            first is None ==> forall|j: int| 0 <= j < i ==> !counted(#[trigger] v[j], ignore_nulls),
            first matches Some(f) ==> f < i && counted(v[f as int], ignore_nulls) && forall|j: int|
                0 <= j < i && counted(#[trigger] v[j], ignore_nulls) ==> v[j] == v[f as int],
        decreases n - i,
    {
        if is_counted(&cells[i], ignore_nulls) {
            match first {
                None => {
                    first = Some(i);
                },
                Some(f) => {
                    if !cells_equal(&cells[f], &cells[i]) {
                        proof {
                            assert(counted(v[f as int], ignore_nulls) && counted(v[i as int], ignore_nulls));
                            assert(v[f as int] != v[i as int]);
                        }
                        return false;
                    }
                },
            }
        }
        i = i + 1;
    }
    true
}

/// The selected columns that are constant.
fn constant_columns(df: &Frame, columns: &Vec<String>, ignore_nulls: bool) -> (r: Vec<String>)
    requires
        forall|k: int| 0 <= k < columns.len() ==> df@.has_column(#[trigger] columns@[k]@),
    ensures
        string_views(r@) == names_where(
            string_views(columns@),
            |s: Seq<char>| column_constant(df@, s, ignore_nulls),
        ),
{
    proof {
        use_type_invariant(df);
    }
    let ghost m = df@;
    let ghost sel = string_views(columns@);
    let positions = positions_of(df, columns);
    let frame_columns = df.columns();
    let mut out: Vec<String> = Vec::new();
    let n = columns.len();
    let mut i: usize = 0;
    while i < n
        invariant
            m == df@,
            n == columns.len(),
            column_views(frame_columns@) == m.columns,
            sel == string_views(columns@),
            positions.len() == columns.len(),
            forall|j: int|
                0 <= j < columns.len() ==> #[trigger] positions@[j] < m.width() && positions@[j]
                    == column_index(m, columns@[j]@),
            i <= n,
            string_views(out@) == names_where(
                sel.take(i as int),
                |s: Seq<char>| column_constant(m, s, ignore_nulls),
            ),
        decreases n - i,
    {
        let c = positions[i];
        proof {
            assert(m.columns[c as int] == frame_columns@[c as int]@);
            assert(sel[i as int] == columns@[i as int]@);
            assert(column_of(m, sel[i as int]) == m.columns[c as int]);
            assert(sel.take(i + 1).drop_last() =~= sel.take(i as int));
            assert(sel.take(i + 1).last() == columns@[i as int]@);
        }
        if cells_are_constant(&frame_columns[c].cells, ignore_nulls) {
            let ghost before = string_views(out@);
            out.push(columns[i].clone());
            proof {
                assert(string_views(out@) =~= before.push(columns@[i as int]@));
            }
        }
        i = i + 1;
    }
    proof {
        assert(sel.take(n as int) =~= sel);
    }
    out
}

/// The frame without the selected columns that hold at most one distinct
/// value (missing values counting as a value unless `ignore_nulls`).
/// Refused for an empty subset or one naming columns not in the frame.
pub fn remove_constant_df(df: Frame, subset: Option<Vec<String>>, ignore_nulls: bool) -> (r: Result<
    Frame,
    JanitorError,
>)
    ensures
        match selection_error("subset"@, df@.names(), option_views(subset)) {
            Some(message) => is_value_err(r, message),
            None => r is Ok && r->Ok_0@ == remove_constant_spec(
                df@,
                selection(df@.names(), option_views(subset)),
                ignore_nulls,
            ),
        },
{
    let available = dataframe_column_names(&df);
    let columns = match selected_columns(&available, subset, "subset") {
        Ok(c) => c,
        Err(e) => {
            return Err(e);
        },
    };
    proof {
        let sel = string_views(columns@);
        lemma_selection_present(df@, sel);
        assert forall|k: int| 0 <= k < columns.len() implies df@.has_column(#[trigger] columns@[k]@) by {
            assert(sel[k] == columns@[k]@);
        }
    }
    let drop = constant_columns(&df, &columns, ignore_nulls);
    Ok(drop_columns_df(df, &drop))
}


// ---------------------------------------------------------------------------
// Rows with duplicate keys
// ---------------------------------------------------------------------------

/// The data type display name of a row count.
pub const COUNT_DTYPE: &'static str = "u32";

/// The cells of the key columns in row `r`.
pub open spec fn key_of(m: FrameModel, keys: Seq<Seq<char>>, r: int) -> Seq<Option<Seq<char>>> {
    keys.map_values(|k: Seq<char>| column_of(m, k).cells[r])
}

/// The number of rows whose key equals the key of row `r`.
pub open spec fn group_count(m: FrameModel, keys: Seq<Seq<char>>, r: int) -> nat {
    rows_where(m.height, |q: int| key_of(m, keys, q) == key_of(m, keys, r)).len()
}

/// The rows whose key occurs more than once, in order.
pub open spec fn dupe_rows(m: FrameModel, keys: Seq<Seq<char>>) -> Seq<int> {
    rows_where(m.height, |r: int| group_count(m, keys, r) > 1)
}

/// The column of group sizes for the duplicate rows.
pub open spec fn count_column(m: FrameModel, keys: Seq<Seq<char>>, count_name: Seq<char>) -> ColumnModel {
    ColumnModel {
        name: count_name,
        dtype: COUNT_DTYPE@,
        cells: dupe_rows(m, keys).map_values(|r: int| Some(decimal(group_count(m, keys, r)))),
    }
}

/// The duplicate rows with the group sizes: in a column of their own at the
/// end, or, without the count, only in place of a column that already has
/// the count's name.
pub open spec fn get_dupes_spec(
    m: FrameModel,
    keys: Seq<Seq<char>>,
    include_count: bool,
    count_name: Seq<char>,
) -> FrameModel {
    let kept = select_rows(m, dupe_rows(m, keys));
    let counts = count_column(m, keys, count_name);
    if include_count {
        FrameModel { height: kept.height, columns: kept.columns.push(counts) }
    } else {
        FrameModel {
            height: kept.height,
            columns: kept.columns.map_values(
                |c: ColumnModel| if c.name == count_name { counts } else { c },
            ),
        }
    }
}

pub open spec fn count_name_message(count_name: Seq<char>) -> Seq<char> {
    "count_name already exists in the frame: "@ + debug_str(count_name)
}

/// Whether rows `a` and `b` have equal keys.
fn keys_equal(
    df: &Frame,
    positions: &Vec<usize>,
    a: usize,
    b: usize,
    Ghost(keys): Ghost<Seq<Seq<char>>>,
) -> (r: bool)
    requires
        a < df@.height,
        b < df@.height,
        positions.len() == keys.len(),
        forall|k: int|
            0 <= k < keys.len() ==> #[trigger] positions@[k] < df@.width() && positions@[k] == column_index(
                df@,
                keys[k],
            ),
    ensures
        r == (key_of(df@, keys, a as int) == key_of(df@, keys, b as int)),
{
    proof {
        use_type_invariant(df);
    }
    let ghost m = df@;
    let columns = df.columns();
    let n = positions.len();
    let mut k: usize = 0;
    while k < n
        invariant
            m == df@,
            m.wf(),
            column_views(columns@) == m.columns,
            n == positions.len(),
            n == keys.len(),
            a < m.height,
            b < m.height,
            forall|j: int|
                0 <= j < keys.len() ==> #[trigger] positions@[j] < m.width() && positions@[j]
                    == column_index(m, keys[j]),
            k <= n,
            forall|j: int| 0 <= j < k ==> key_of(m, keys, a as int)[j] == key_of(m, keys, b as int)[j],
        decreases n - k,
    {
        let c = positions[k];
        proof {
            assert(m.columns[c as int] == columns@[c as int]@);
            assert(m.columns[c as int].cells.len() == m.height);
            assert(column_of(m, keys[k as int]) == m.columns[c as int]);
            assert(key_of(m, keys, a as int)[k as int] == columns@[c as int].cells@[a as int]@);
            assert(key_of(m, keys, b as int)[k as int] == columns@[c as int].cells@[b as int]@);
        }
        if !cells_equal(&columns[c].cells[a], &columns[c].cells[b]) {
            return false;
        }
        k = k + 1;
    }
    proof {
        assert(key_of(m, keys, a as int) =~= key_of(m, keys, b as int));
    }
    true
}

/// The number of rows whose key equals the key of row `r`.
fn count_group(df: &Frame, positions: &Vec<usize>, r: usize, Ghost(keys): Ghost<Seq<Seq<char>>>) -> (c: usize)
    requires
        r < df@.height,
        positions.len() == keys.len(),
        forall|k: int|
            0 <= k < keys.len() ==> #[trigger] positions@[k] < df@.width() && positions@[k] == column_index(
                df@,
                keys[k],
            ),
    ensures
        c == group_count(df@, keys, r as int),
{
    let ghost p = |q: int| key_of(df@, keys, q) == key_of(df@, keys, r as int);
    let height = df.height();
    let mut count: usize = 0;
    let mut q: usize = 0;
    while q < height
        invariant
            height == df@.height,
            r < height,
            positions.len() == keys.len(),
            forall|k: int|
                0 <= k < keys.len() ==> #[trigger] positions@[k] < df@.width() && positions@[k]
                    == column_index(df@, keys[k]),
            p == (|x: int| key_of(df@, keys, x) == key_of(df@, keys, r as int)),
            q <= height,
            count == rows_where(q as nat, p).len(),
            count <= q,
        decreases height - q,
    {
        if keys_equal(df, positions, q, r, Ghost(keys)) {
            count = count + 1;
        }
        proof {
            assert(p(q as int) == (key_of(df@, keys, q as int) == key_of(df@, keys, r as int)));
        }
        q = q + 1;
    }
    count
}

/// The rows of `df` whose key (the cells of the columns `keys`) occurs more
/// than once, in their order, with the size of each row's group in a column
/// `count_name` of type `u32`: appended when `include_count`, otherwise
/// only replacing a column of that name if there is one. Refused for no
/// keys, keys that are not columns, or, with the count, a count name that
/// is already a column.
pub fn get_dupes_df(df: Frame, keys: Vec<String>, include_count: bool, count_name: &str) -> (r: Result<
    Frame,
    JanitorError,
>)
    ensures
        keys.len() == 0 ==> is_value_err(r, KEYS_EMPTY_ERROR@),
        ({
            let missing = missing_names(df@.names(), string_views(keys@));
            &&& keys.len() > 0 && missing.len() > 0 ==> is_value_err(r, missing_keys_message(missing))
            &&& keys.len() > 0 && missing.len() == 0 && include_count && df@.has_column(count_name@)
                ==> is_value_err(r, count_name_message(count_name@))
            &&& keys.len() > 0 && missing.len() == 0 && !(include_count && df@.has_column(count_name@))
                ==> r is Ok && r->Ok_0@ == get_dupes_spec(
                df@,
                string_views(keys@),
                include_count,
                count_name@,
            )
        }),
{
    proof {
        use_type_invariant(&df);
    }
    let ghost m = df@;
    let columns = dataframe_column_names(&df);
    match validate_keys(&keys) {
        Ok(()) => {},
        Err(e) => {
            return Err(e);
        },
    }
    match validate_key_columns(&columns, &keys) {
        Ok(()) => {},
        Err(e) => {
            return Err(e);
        },
    }
    if include_count && contains_name(&columns, count_name) {
        let mut message = string_of("count_name already exists in the frame: ");
        let quoted = debug_quoted(count_name);
        push_str(&mut message, quoted.as_str());
        return Err(JanitorError::Value(message));
    }
    let ghost ks = string_views(keys@);
    proof {
        lemma_selection_present(m, ks);
        assert forall|k: int| 0 <= k < keys.len() implies m.has_column(#[trigger] keys@[k]@) by {
            assert(ks[k] == keys@[k]@);
        }
    }
    let positions = positions_of(&df, &keys);
    proof {
        assert forall|k: int| 0 <= k < ks.len() implies #[trigger] positions@[k] < m.width()
            && positions@[k] == column_index(m, ks[k]) by {
            assert(ks[k] == keys@[k]@);
        }
    }
    let ghost p = |x: int| group_count(m, ks, x) > 1;
    let height = df.height();
    let mut rows: Vec<usize> = Vec::new();
    let mut counts: Vec<usize> = Vec::new();
    let mut r: usize = 0;
    while r < height
        invariant
            m == df@,
            height == m.height,
            positions.len() == ks.len(),
            forall|k: int|
                0 <= k < ks.len() ==> #[trigger] positions@[k] < m.width() && positions@[k]
                    == column_index(m, ks[k]),
            p == (|x: int| group_count(m, ks, x) > 1),
            r <= height,
            rows.len() == counts.len(),
            rows@.len() <= r,
            forall|k: int| 0 <= k < rows@.len() ==> #[trigger] rows@[k] < r,
            row_indices(rows@) == rows_where(r as nat, p),
            forall|k: int| 0 <= k < counts@.len() ==> #[trigger] counts@[k] == group_count(m, ks, rows@[k] as int),
        decreases height - r,
    {
        let c = count_group(&df, &positions, r, Ghost(ks));
        if c > 1 {
            let ghost before = row_indices(rows@);
            rows.push(r);
            counts.push(c);
            proof {
                assert(row_indices(rows@) =~= before.push(r as int));
            }
        }
        proof {
            assert(p(r as int) == (group_count(m, ks, r as int) > 1));
        }
        r = r + 1;
    }
    proof {
        lemma_rows_where_bounds(height as nat, p);
        assert(rows_where(height as nat, p) == dupe_rows(m, ks));
    }
    let kept = take_rows(&df, &rows);
    let mut cells: Vec<Cell> = Vec::new();
    let n = counts.len();
    let mut i: usize = 0;
    while i < n
        invariant
            n == counts.len(),
            n == rows.len(),
            row_indices(rows@) == dupe_rows(m, ks),
            forall|k: int| 0 <= k < counts@.len() ==> #[trigger] counts@[k] == group_count(m, ks, rows@[k] as int),
            i <= n,
            cells@.map_values(|c: Cell| c@) == count_column(m, ks, count_name@).cells.take(i as int),
        decreases n - i,
    {
        let mut text = String::new();
        push_decimal(&mut text, counts[i] as u128);
        let ghost before = cells@.map_values(|c: Cell| c@);
        cells.push(Cell::Value(text));
        proof {
            let target = count_column(m, ks, count_name@).cells;
            assert(target[i as int] == Some(decimal(group_count(m, ks, rows@[i as int] as int))));
            assert(cells@.map_values(|c: Cell| c@) =~= before.push(Some(decimal(counts@[i as int] as nat))));
            assert(cells@.map_values(|c: Cell| c@) =~= target.take(i + 1));
        }
        i = i + 1;
    }
    proof {
        let target = count_column(m, ks, count_name@).cells;
        assert(target.take(n as int) =~= target);
    }
    let count_col = FrameColumn { name: string_of(count_name), dtype: string_of(COUNT_DTYPE), cells };
    let ghost kept_model = kept@;
    proof {
        assert(kept_model == select_rows(m, dupe_rows(m, ks)));
    }
    let ghost counts_model = count_column(m, ks, count_name@);
    proof {
        use_type_invariant(&kept);
        lemma_select_rows_names(m, dupe_rows(m, ks));
        assert(count_col@ == counts_model);
    }
    let Frame { height: kept_height, columns: mut kept_columns } = kept;
    if include_count {
        let ghost before = column_views(kept_columns@);
        kept_columns.push(count_col);
        proof {
            assert(column_views(kept_columns@) =~= before.push(counts_model));
            let t = get_dupes_spec(m, ks, include_count, count_name@);
            assert(t.columns =~= column_views(kept_columns@));
            assert(!kept_model.has_column(count_name@));
            assert(t.names() =~= kept_model.names().push(count_name@));
            assert forall|k: int| 0 <= k < t.columns.len() implies #[trigger] t.columns[k].cells.len() == t.height by {
                if k < kept_model.columns.len() {
                    assert(t.columns[k] == kept_model.columns[k]);
                }
            }
        }
        Ok(Frame { height: kept_height, columns: kept_columns })
    } else {
        let ghost t = get_dupes_spec(m, ks, include_count, count_name@);
        let mut columns_out: Vec<FrameColumn> = Vec::new();
        let mut count_col = Some(count_col);
        let w = kept_columns.len();
        let mut j: usize = 0;
        while j < w
            invariant
                w == kept_columns.len(),
                column_views(kept_columns@) == kept_model.columns,
                t == get_dupes_spec(m, ks, include_count, count_name@),
                kept_model == select_rows(m, dupe_rows(m, ks)),
                !include_count,
                kept_model.wf(),
                j <= w,
                columns_out.len() == j,
                column_views(columns_out@) == t.columns.take(j as int),
                count_col is Some ==> count_col->Some_0@ == counts_model,
                count_col is None ==> exists|q: int| 0 <= q < j && kept_model.columns[q].name == count_name@,
                counts_model == count_column(m, ks, count_name@),
            decreases w - j,
        {
            let ghost before = column_views(columns_out@);
            proof {
                assert(kept_model.columns[j as int] == kept_columns@[j as int]@);
            }
            if str_eq_string(&kept_columns[j].name, count_name) {
                proof {
                    assert(t.columns[j as int] == counts_model);
                }
                match count_col.take() {
                    Some(col) => {
                        columns_out.push(col);
                        proof {
                            assert(columns_out@[j as int]@ == counts_model);
                        }
                    },
                    None => {
                        proof {
                            let q = choose|q: int| 0 <= q < j && kept_model.columns[q].name == count_name@;
                            assert(kept_model.names()[q] == kept_model.names()[j as int]);
                            assert(false);
                        }
                        columns_out.push(copy_column(&kept_columns[j]));
                    },
                }
            } else {
                proof {
                    assert(t.columns[j as int] == kept_model.columns[j as int]);
                }
                columns_out.push(copy_column(&kept_columns[j]));
            }
            proof {
                assert(column_views(columns_out@) =~= before.push(t.columns[j as int]));
                assert(column_views(columns_out@) =~= t.columns.take(j + 1));
            }
            j = j + 1;
        }
        proof {
            assert(t.columns.take(w as int) =~= t.columns);
            assert(t.names() =~= kept_model.names());
            assert forall|k: int| 0 <= k < t.columns.len() implies #[trigger] t.columns[k].cells.len() == t.height by {
                assert(kept_model.columns[k].cells.len() == kept_model.height);
            }
        }
        Ok(Frame { height: kept_height, columns: columns_out })
    }
}

fn str_eq_string(a: &String, b: &str) -> (r: bool)
    ensures
        r == (a@ == b@),
{
    crate::text::str_equal(a.as_str(), b)
}

} // verus!
