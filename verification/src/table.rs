//! A table: one header and the rows stored under it, by key.

use vstd::prelude::*;
use vstd::string::StringExecFns;
use crate::definitions::{
    header_view, row_view, ColumnConstraint, ColumnDef, ColumnSpec, LiteralValue, TableDef, Value,
};
use crate::error::Error;
use crate::order::key_order;
use crate::store::RowStore;

pub use crate::store::{PkType, TableRow};

verus! {

/// The columns of a table, in order.
pub type TableHeader = Vec<ColumnDef>;

/// Position of the first column called `name`: `i` is it.
pub open spec fn first_column_at(header: Seq<ColumnSpec>, name: Seq<char>, i: int) -> bool {
    &&& 0 <= i < header.len()
    &&& header[i].name == name
    &&& forall|j: int| 0 <= j < i ==> header[j].name != name
}

/// Some column is called `name`.
pub open spec fn has_column(header: Seq<ColumnSpec>, name: Seq<char>) -> bool {
    exists|i: int| 0 <= i < header.len() && header[i].name == name
}

/// Position of the first column called `name`, if there is one.
pub open spec fn column_index(header: Seq<ColumnSpec>, name: Seq<char>) -> Option<int> {
    if has_column(header, name) {
        Some(choose|i: int| first_column_at(header, name, i))
    } else {
        None
    }
}

/// The first column called `name` is the only position that
/// `column_index` can give.
pub proof fn lemma_column_index(header: Seq<ColumnSpec>, name: Seq<char>, i: int)
    requires
        first_column_at(header, name, i),
    ensures
        column_index(header, name) == Some(i),
{
    let j = choose|j: int| first_column_at(header, name, j);
    assert(first_column_at(header, name, j));
    if j < i {
        assert(header[j].name != name);
    }
    if i < j {
        assert(header[i].name != name);
    }
}

/// Where `column_index` gives a position, it is that of the first column
/// called `name`.
pub proof fn lemma_column_index_some(header: Seq<ColumnSpec>, name: Seq<char>)
    requires
        has_column(header, name),
    ensures
        column_index(header, name) is Some,
        first_column_at(header, name, column_index(header, name)->0),
{
    let w = choose|i: int| 0 <= i < header.len() && header[i].name == name;
    lemma_first_column_exists(header, name, w);
}

proof fn lemma_first_column_exists(header: Seq<ColumnSpec>, name: Seq<char>, w: int)
    requires
        0 <= w < header.len(),
        header[w].name == name,
    ensures
        exists|i: int| first_column_at(header, name, i),
    decreases w,
{
    if exists|j: int| 0 <= j < w && header[j].name == name {
        let j = choose|j: int| 0 <= j < w && header[j].name == name;
        lemma_first_column_exists(header, name, j);
    } else {
        assert(first_column_at(header, name, w));
    }
}

/// The column carries a `PrimaryKey` constraint.
pub open spec fn declares_key(column: ColumnSpec) -> bool {
    column.constraints.contains(ColumnConstraint::PrimaryKey)
}

/// The primary-key column that a header declares: the last column with a
/// `PrimaryKey` constraint.
pub open spec fn primary_key(header: Seq<ColumnSpec>) -> Option<int>
    decreases header.len(),
{
    if header.len() == 0 {
        None
    } else if declares_key(header.last()) {
        Some(header.len() - 1)
    } else {
        primary_key(header.drop_last())
    }
}

/// The primary key that a header declares is one of its columns.
pub proof fn lemma_primary_key_in_header(header: Seq<ColumnSpec>)
    ensures
        primary_key(header) matches Some(i) ==> 0 <= i < header.len() && declares_key(header[i]),
    decreases header.len(),
{
    if header.len() > 0 && !declares_key(header.last()) {
        lemma_primary_key_in_header(header.drop_last());
    }
}

/// Mathematical content of a [`Table`].
pub struct TableView {
    pub name: Seq<char>,
    pub header: Seq<ColumnSpec>,
    pub rows: Map<PkType, Seq<Value>>,
    /// Position of the primary-key column in the header.
    pub pk: Option<int>,
    /// High-water mark of the keys: no key ever stored was above it.
    pub max_pk: PkType,
}

impl TableView {
    /// The invariant of a table: every row has one cell for each column, no
    /// key is above the high-water mark, and the primary-key column, if
    /// any, is a column of the header.
    pub open spec fn well_formed(self) -> bool {
        &&& self.rows.dom().finite()
        &&& forall|k: PkType| #[trigger]
            self.rows.contains_key(k) ==> self.rows[k].len() == self.header.len() && k
                <= self.max_pk
        &&& self.pk matches Some(i) ==> 0 <= i < self.header.len()
    }

    /// An empty table without a name and without a primary key.
    pub open spec fn result_table(header: Seq<ColumnSpec>) -> TableView {
        TableView {
            name: Seq::empty(),
            header: header,
            rows: Map::empty(),
            pk: None,
            max_pk: 0,
        }
    }

    /// The empty table that a `CREATE TABLE` describes.
    pub open spec fn from_def(def: TableDef) -> TableView {
        TableView {
            name: def.table_name@,
            header: header_view(def.columns@),
            rows: Map::empty(),
            pk: primary_key(header_view(def.columns@)),
            max_pk: 0,
        }
    }

    /// The table after its header was scanned for a primary key: where no
    /// column declares one, the primary key stays what it was.
    pub open spec fn process_constraints(self) -> TableView {
        TableView {
            pk: match primary_key(self.header) {
                Some(i) => Some(i),
                None => self.pk,
            },
            ..self
        }
    }

    /// The table without its rows.
    pub open spec fn clear(self) -> TableView {
        TableView { rows: Map::empty(), ..self }
    }

    /// The key under which `row` is stored, or why it is refused.
    ///
    /// With a primary key the key is the integer in the row's primary-key
    /// cell; a cell that holds anything but a non-negative integer is
    /// refused. Without one the key is the next surrogate, one above the
    /// high-water mark.
    pub open spec fn storage_key(self, row: Seq<Value>) -> Result<PkType, Error> {
        if row.len() != self.header.len() {
            Err(Error::SchemaWidthMismatch)
        } else {
            match self.pk {
                Some(i) => match row[i] {
                    Value::Integer(v) => if v >= 0 {
                        Ok(v as PkType)
                    } else {
                        Err(Error::InvalidPrimaryKey)
                    },
                    _ => Err(Error::InvalidPrimaryKey),
                },
                None => if self.max_pk < PkType::MAX {
                    Ok((self.max_pk + 1) as PkType)
                } else {
                    Err(Error::KeyOverflow)
                },
            }
        }
    }

    /// The table with `row` stored at `key`, in place of the row that was
    /// there.
    pub open spec fn store(self, key: PkType, row: Seq<Value>) -> TableView {
        TableView {
            rows: self.rows.insert(key, row),
            max_pk: if key > self.max_pk {
                key
            } else {
                self.max_pk
            },
            ..self
        }
    }

    /// The table with `row` stored under its key, or why the row is refused.
    pub open spec fn push_row(self, row: Seq<Value>) -> Result<TableView, Error> {
        match self.storage_key(row) {
            Ok(key) => Ok(self.store(key, row)),
            Err(e) => Err(e),
        }
    }

    /// The row that a list of column names and a list of values describe
    /// before any key is made up: `Null` everywhere but at the named
    /// columns, which hold the values; of two values for one column the
    /// later one stays.
    pub open spec fn scatter(self, names: Seq<Seq<char>>, values: Seq<Value>) -> Result<
        Seq<Value>,
        Error,
    >
        decreases names.len(),
    {
        if names.len() == 0 {
            Ok(Seq::new(self.header.len(), |i: int| Value::Null))
        } else {
            match self.scatter(names.drop_last(), values.drop_last()) {
                Err(e) => Err(e),
                Ok(row) => match column_index(self.header, names.last()) {
                    None => Err(Error::UnknownColumn),
                    Some(i) => Ok(row.update(i, values.last())),
                },
            }
        }
    }

    /// The full-width row for the named columns and their values. Where the
    /// table has a primary key and the row leaves it `Null`, the cell gets
    /// the next surrogate: one above the high-water mark.
    pub open spec fn complete_row(self, names: Seq<Seq<char>>, values: Seq<Value>) -> Result<
        Seq<Value>,
        Error,
    > {
        if names.len() != values.len() {
            Err(Error::SchemaWidthMismatch)
        } else {
            match self.scatter(names, values) {
                Err(e) => Err(e),
                Ok(row) => match self.pk {
                    Some(i) => if row[i] is Null {
                        if self.max_pk < i64::MAX {
                            Ok(row.update(i, Value::Integer((self.max_pk + 1) as i64)))
                        } else {
                            Err(Error::KeyOverflow)
                        }
                    } else {
                        Ok(row)
                    },
                    None => Ok(row),
                },
            }
        }
    }

    /// The table after one incoming row of an `INSERT`.
    pub open spec fn insert_row(self, values: Seq<Value>, names: Option<Seq<Seq<char>>>) -> Result<
        TableView,
        Error,
    > {
        match names {
            Some(names) => match self.complete_row(names, values) {
                Ok(row) => self.push_row(row),
                Err(e) => Err(e),
            },
            None => self.push_row(values),
        }
    }

    /// The table after the incoming rows of an `INSERT`, taken in order, and
    /// the error that stopped it, if any: the rows before the refused one
    /// are stored, the refused one and those after it are not.
    pub open spec fn insert(self, rows: Seq<Seq<Value>>, names: Option<Seq<Seq<char>>>) -> (
        TableView,
        Option<Error>,
    )
        decreases rows.len(),
    {
        if rows.len() == 0 {
            (self, None)
        } else {
            let (before, failed) = self.insert(rows.drop_last(), names);
            if failed is Some {
                (before, failed)
            } else {
                match before.insert_row(rows.last(), names) {
                    Ok(after) => (after, None),
                    Err(e) => (before, Some(e)),
                }
            }
        }
    }

    /// The table with one more column at the end of the header and `Null`
    /// in that column of every row.
    pub open spec fn add_column(self, column: ColumnSpec) -> TableView {
        TableView {
            header: self.header.push(column),
            rows: self.rows.map_values(|row: Seq<Value>| row.push(Value::Null)),
            ..self
        }
    }

    /// The table with more columns at the end of the header, in order.
    pub open spec fn add_columns(self, columns: Seq<ColumnSpec>) -> TableView
        decreases columns.len(),
    {
        if columns.len() == 0 {
            self
        } else {
            self.add_columns(columns.drop_last()).add_column(columns.last())
        }
    }

    /// The table with the row at `key` replaced by `row`.
    pub open spec fn replace_row(self, key: PkType, row: Seq<Value>) -> TableView {
        TableView { rows: self.rows.insert(key, row), ..self }
    }

    /// The table without the rows at `keys`.
    pub open spec fn remove_rows(self, keys: Set<PkType>) -> TableView {
        TableView { rows: self.rows.remove_keys(keys), ..self }
    }

    /// The rows in ascending key order.
    pub open spec fn ordered_rows(self) -> Seq<Seq<Value>> {
        key_order(self.rows.dom()).map_values(|k: PkType| self.rows[k])
    }
}

/// Content of a row store: the content of each row, by key.
pub open spec fn rows_view(stored: Map<PkType, TableRow>) -> Map<PkType, Seq<Value>> {
    Map::new(|k: PkType| stored.contains_key(k), |k: PkType| row_view(stored[k]@))
}

/// A row store and its content have the same keys.
pub proof fn lemma_rows_view_dom(stored: Map<PkType, TableRow>)
    ensures
        rows_view(stored).dom() == stored.dom(),
{
    assert(rows_view(stored).dom() =~= stored.dom());
}

/// Content of a list of rows.
pub open spec fn rows_seq_view(rows: Seq<TableRow>) -> Seq<Seq<Value>> {
    rows.map_values(|row: TableRow| row_view(row@))
}

/// Content of a list of names.
pub open spec fn names_view(names: Seq<String>) -> Seq<Seq<char>> {
    names.map_values(|name: String| name@)
}

/// Content of an optional list of names.
pub open spec fn opt_names_view(names: Option<Vec<String>>) -> Option<Seq<Seq<char>>> {
    match names {
        Some(names) => Some(names_view(names@)),
        None => None,
    }
}

/// A copy of `row`.
pub fn clone_row(row: &TableRow) -> (copy: TableRow)
    ensures
        row_view(copy@) == row_view(row@),
{
    let mut copy: TableRow = Vec::new();
    let mut i: usize = 0;
    while i < row.len()
        invariant
            i <= row@.len(),
            copy@.len() == i,
            forall|j: int| 0 <= j < i ==> copy@[j]@ == row@[j]@,
        decreases row@.len() - i,
    {
        copy.push(row[i].clone());
        i += 1;
    }
    assert(row_view(copy@) =~= row_view(row@));
    copy
}

/// A copy of `header`.
pub fn clone_header(header: &TableHeader) -> (copy: TableHeader)
    ensures
        header_view(copy@) == header_view(header@),
{
    let mut copy: TableHeader = Vec::new();
    let mut i: usize = 0;
    while i < header.len()
        invariant
            i <= header@.len(),
            copy@.len() == i,
            forall|j: int| 0 <= j < i ==> copy@[j]@ == header@[j]@,
        decreases header@.len() - i,
    {
        copy.push(header[i].clone());
        i += 1;
    }
    assert(header_view(copy@) =~= header_view(header@));
    copy
}

/// Position of the first column of `header` called `name`.
pub fn find_column(header: &TableHeader, name: &String) -> (r: Option<usize>)
    ensures
        match r {
            Some(i) => i < header@.len() && column_index(header_view(header@), name@) == Some(
                i as int,
            ),
            None => column_index(header_view(header@), name@) is None,
        },
{
    let mut i: usize = 0;
    while i < header.len()
        invariant
            i <= header@.len(),
            forall|j: int| 0 <= j < i ==> header_view(header@)[j].name != name@,
        decreases header@.len() - i,
    {
        if header[i].name == *name {
            proof {
                lemma_column_index(header_view(header@), name@, i as int);
            }
            return Some(i);
        }
        i += 1;
    }
    None
}

/// Once a name of the list is unknown, the rest of the list does not matter.
pub proof fn lemma_scatter_stops(
    table: TableView,
    names: Seq<Seq<char>>,
    values: Seq<Value>,
    n: int,
)
    requires
        0 <= n <= names.len(),
        names.len() == values.len(),
        table.scatter(names.take(n), values.take(n)) is Err,
    ensures
        table.scatter(names, values) == table.scatter(names.take(n), values.take(n)),
    decreases names.len() - n,
{
    if n == names.len() {
        assert(names.take(n) =~= names);
        assert(values.take(n) =~= values);
    } else {
        assert(names.take(n + 1).drop_last() =~= names.take(n));
        assert(values.take(n + 1).drop_last() =~= values.take(n));
        lemma_scatter_stops(table, names, values, n + 1);
    }
}

/// Once a row is refused, the rows after it do not matter.
pub proof fn lemma_insert_stops(
    table: TableView,
    rows: Seq<Seq<Value>>,
    names: Option<Seq<Seq<char>>>,
    n: int,
)
    requires
        0 <= n <= rows.len(),
        table.insert(rows.take(n), names).1 is Some,
    ensures
        table.insert(rows, names) == table.insert(rows.take(n), names),
    decreases rows.len() - n,
{
    if n == rows.len() {
        assert(rows.take(n) =~= rows);
    } else {
        assert(rows.take(n + 1).drop_last() =~= rows.take(n));
        lemma_insert_stops(table, rows, names, n + 1);
    }
}

/// Storing one list of rows after another is storing the two lists as one.
pub proof fn lemma_insert_concat(
    table: TableView,
    a: Seq<Seq<Value>>,
    b: Seq<Seq<Value>>,
    names: Option<Seq<Seq<char>>>,
)
    ensures
        table.insert(a + b, names) == if table.insert(a, names).1 is Some {
            table.insert(a, names)
        } else {
            table.insert(a, names).0.insert(b, names)
        },
    decreases b.len(),
{
    if b.len() == 0 {
        assert(a + b =~= a);
    } else {
        assert((a + b).drop_last() =~= a + b.drop_last());
        assert((a + b).last() == b.last());
        lemma_insert_concat(table, a, b.drop_last(), names);
    }
}

/// Storing rows changes neither the header nor the name nor the primary
/// key of a table.
pub proof fn lemma_insert_keeps_header(
    table: TableView,
    rows: Seq<Seq<Value>>,
    names: Option<Seq<Seq<char>>>,
)
    ensures
        table.insert(rows, names).0.header == table.header,
        table.insert(rows, names).0.name == table.name,
        table.insert(rows, names).0.pk == table.pk,
    decreases rows.len(),
{
    if rows.len() > 0 {
        lemma_insert_keeps_header(table, rows.drop_last(), names);
    }
}

/// Storing a list of one row is storing that row.
pub proof fn lemma_insert_one(table: TableView, row: Seq<Value>, names: Option<Seq<Seq<char>>>)
    ensures
        table.insert(seq![row], names) == match table.insert_row(row, names) {
            Ok(after) => (after, None::<Error>),
            Err(e) => (table, Some(e)),
        },
{
    let rows = seq![row];
    assert(rows.drop_last() =~= Seq::<Seq<Value>>::empty());
    assert(rows.last() == row);
    assert(table.insert(rows.drop_last(), names) == (table, None::<Error>));
}

/// The row at position `i` of the key order is the row of the key at that
/// position.
pub proof fn lemma_ordered_row(table: TableView, i: int)
    requires
        0 <= i < key_order(table.rows.dom()).len(),
    ensures
        table.ordered_rows().len() == key_order(table.rows.dom()).len(),
        table.rows.contains_key(key_order(table.rows.dom())[i]),
        table.ordered_rows()[i] == table.rows[key_order(table.rows.dom())[i]],
{
    crate::order::lemma_key_order(table.rows.dom());
    let keys = key_order(table.rows.dom());
    assert(keys.contains(keys[i]));
}

/// Whether `column` carries a `PrimaryKey` constraint.
pub fn declares_primary_key(column: &ColumnDef) -> (r: bool)
    ensures
        r == declares_key(column@),
{
    let mut i: usize = 0;
    while i < column.column_constraints.len()
        invariant
            i <= column.column_constraints@.len(),
            forall|j: int| 0 <= j < i ==> column.column_constraints@[j] != ColumnConstraint::PrimaryKey,
        decreases column.column_constraints@.len() - i,
    {
        match column.column_constraints[i] {
            ColumnConstraint::PrimaryKey => {
                return true;
            },
        }
    }
    false
}

/// A row of `width` cells, each `Null`.
pub fn null_row(width: usize) -> (row: TableRow)
    ensures
        row@.len() == width,
        row_view(row@) == Seq::new(width as nat, |i: int| Value::Null),
{
    let mut row: TableRow = Vec::new();
    let mut i: usize = 0;
    while i < width
        invariant
            i <= width,
            row@.len() == i,
            forall|j: int| 0 <= j < i ==> row@[j]@ == Value::Null,
        decreases width - i,
    {
        row.push(LiteralValue::Null);
        i += 1;
    }
    assert(row_view(row@) =~= Seq::new(width as nat, |i: int| Value::Null));
    row
}

/// A table of the catalog, or the result of a `SELECT`.
pub struct Table {
    name: String,
    header: TableHeader,
    data: RowStore,
    pk: Option<usize>,
    max_pk: PkType,
}

impl View for Table {
    type V = TableView;

    closed spec fn view(&self) -> TableView {
        TableView {
            name: self.name@,
            header: header_view(self.header@),
            rows: rows_view(self.data@),
            pk: match self.pk {
                Some(i) => Some(i as int),
                None => None,
            },
            max_pk: self.max_pk,
        }
    }
}

impl Table {
    /// The invariant of a table, see [`TableView::well_formed`].
    pub open spec fn wf(&self) -> bool {
        self@.well_formed()
    }

    /// The rows as they are stored, by key.
    pub closed spec fn stored(&self) -> Map<PkType, TableRow> {
        self.data@
    }

    /// The header as it is stored.
    pub closed spec fn columns(&self) -> TableHeader {
        self.header
    }

    /// The view is the content of what is stored.
    pub proof fn lemma_view(&self)
        ensures
            self@.rows == rows_view(self.stored()),
            self@.header == header_view(self.columns()@),
    {
    }

    /// An empty table without a name and without a primary key, to hold the
    /// rows of a result.
    pub fn new_result_table(header: TableHeader) -> (table: Table)
        ensures
            table@ == TableView::result_table(header_view(header@)),
            table.columns() == header,
            table.wf(),
    {
        let table = Table {
            name: String::new(),
            header: header,
            data: RowStore::new(),
            pk: None,
            max_pk: 0,
        };
        proof {
            table.data.lemma_finite();
            assert(table@.rows =~= Map::<PkType, Seq<Value>>::empty());
        }
        table
    }

    /// The name that the table was created with.
    pub fn name(&self) -> (name: &String)
        ensures
            name@ == self@.name,
    {
        &self.name
    }

    /// The columns, in order.
    pub fn header(&self) -> (header: &TableHeader)
        ensures
            *header == self.columns(),
            header_view(header@) == self@.header,
    {
        &self.header
    }

    /// Position of the primary-key column in the header.
    pub fn pk(&self) -> (pk: Option<usize>)
        ensures
            match pk {
                Some(i) => self@.pk == Some(i as int),
                None => self@.pk is None,
            },
    {
        self.pk
    }

    /// High-water mark of the keys.
    pub fn max_pk(&self) -> (max_pk: PkType)
        ensures
            max_pk == self@.max_pk,
    {
        self.max_pk
    }

    /// Number of rows.
    pub fn len(&self) -> (n: usize)
        ensures
            n == self@.rows.dom().len(),
    {
        proof {
            lemma_rows_view_dom(self.data@);
        }
        self.data.len()
    }

    /// The keys of the rows, ascending.
    pub fn keys(&self) -> (keys: Vec<PkType>)
        ensures
            keys@ == key_order(self@.rows.dom()),
    {
        proof {
            lemma_rows_view_dom(self.data@);
        }
        self.data.keys()
    }

    /// The row stored under `key`.
    pub fn get_row(&self, key: PkType) -> (r: Option<&TableRow>)
        ensures
            match r {
                Some(row) => self@.rows.contains_key(key) && row_view(row@) == self@.rows[key]
                    && *row == self.stored()[key],
                None => !self@.rows.contains_key(key),
            },
    {
        self.data.get(key)
    }

    /// Copies of the rows, in ascending key order.
    pub fn rows(&self) -> (rows: Vec<TableRow>)
        ensures
            rows_seq_view(rows@) == self@.ordered_rows(),
    {
        let keys = self.keys();
        let mut rows: Vec<TableRow> = Vec::new();
        let mut i: usize = 0;
        while i < keys.len()
            invariant
                i <= keys@.len(),
                keys@ == key_order(self@.rows.dom()),
                rows@.len() == i,
                forall|j: int| 0 <= j < i ==> row_view((#[trigger] rows@[j])@) == self@.rows[keys@[j]],
            decreases keys@.len() - i,
        {
            proof {
                lemma_ordered_row(self@, i as int);
            }
            match self.get_row(keys[i]) {
                Some(row) => {
                    rows.push(clone_row(row));
                },
                None => {},
            }
            i += 1;
        }
        proof {
            if keys@.len() > 0 {
                lemma_ordered_row(self@, 0);
            }
            assert(rows_seq_view(rows@) =~= self@.ordered_rows());
        }
        rows
    }

    /// The empty table that `table_def` describes. Its primary key is the
    /// last column that declares one.
    pub fn new(table_def: TableDef) -> (table: Table)
        ensures
            table@ == TableView::from_def(table_def),
            table.wf(),
    {
        let mut table = Table {
            name: table_def.table_name,
            header: table_def.columns,
            data: RowStore::new(),
            pk: None,
            max_pk: 0,
        };
        proof {
            table.data.lemma_finite();
            assert(table@.rows =~= Map::<PkType, Seq<Value>>::empty());
        }
        table.process_constraints();
        proof {
            lemma_primary_key_in_header(table@.header);
        }
        table
    }

    /// Scans the header for `PrimaryKey` constraints: the last column that
    /// declares one becomes the primary key. The rows stay under the keys
    /// they have.
    pub fn process_constraints(&mut self)
        ensures
            final(self)@ == old(self)@.process_constraints(),
            final(self).stored() == old(self).stored(),
            final(self).columns() == old(self).columns(),
            old(self).wf() ==> final(self).wf(),
    {
        proof {
            lemma_primary_key_in_header(old(self)@.header);
        }
        let mut i: usize = 0;
        while i < self.header.len()
            invariant
                i <= self.header@.len(),
                self.header == old(self).header,
                self.data == old(self).data,
                self.name == old(self).name,
                self.max_pk == old(self).max_pk,
                self@.pk == match primary_key(header_view(self.header@).take(i as int)) {
                    Some(j) => Some(j),
                    None => old(self)@.pk,
                },
            decreases self.header@.len() - i,
        {
            proof {
                let upto = header_view(self.header@).take(i + 1);
                assert(upto.drop_last() =~= header_view(self.header@).take(i as int));
                assert(upto.last() == self.header@[i as int]@);
            }
            if declares_primary_key(&self.header[i]) {
                self.pk = Some(i);
            }
            i += 1;
        }
        assert(header_view(self.header@).take(i as int) =~= header_view(self.header@));
    }

    /// The definition of the first column called `name`.
    pub fn get_column_def_by_name(&self, name: &String) -> (r: Option<&ColumnDef>)
        ensures
            match r {
                Some(def) => column_index(self@.header, name@) matches Some(i) && def@
                    == self@.header[i],
                None => column_index(self@.header, name@) is None,
            },
    {
        match find_column(&self.header, name) {
            Some(i) => Some(&self.header[i]),
            None => None,
        }
    }

    /// The position of the first column called `name`.
    pub fn get_column_index(&self, name: &String) -> (r: Option<usize>)
        ensures
            match r {
                Some(i) => i < self@.header.len() && column_index(self@.header, name@) == Some(
                    i as int,
                ),
                None => column_index(self@.header, name@) is None,
            },
    {
        find_column(&self.header, name)
    }

    /// Whether a row is stored under `pk`.
    pub fn has_row(&self, pk: PkType) -> (r: bool)
        ensures
            r == self@.rows.contains_key(pk),
    {
        self.data.contains_key(pk)
    }

    /// Removes all rows. The header, the primary key and the high-water
    /// mark of the keys stay.
    pub fn clear(&mut self)
        ensures
            final(self)@ == old(self)@.clear(),
            final(self).columns() == old(self).columns(),
            old(self).wf() ==> final(self).wf(),
    {
        self.data.clear();
        proof {
            self.data.lemma_finite();
            assert(self@.rows =~= Map::<PkType, Seq<Value>>::empty());
        }
    }

    /// Appends `column_def` to the header and `Null` to every row.
    pub fn add_column(&mut self, column_def: ColumnDef)
        requires
            old(self).wf(),
        ensures
            final(self)@ == old(self)@.add_column(column_def@),
            final(self).wf(),
    {
        let ghost before = self.data@;
        self.header.push(column_def);
        assert(header_view(self.header@) =~= old(self)@.header.push(column_def@));
        let keys = self.data.keys();
        proof {
            crate::order::lemma_key_order(before.dom());
        }
        let mut i: usize = 0;
        while i < keys.len()
            invariant
                i <= keys@.len(),
                crate::order::lists_keys(keys@, before.dom()),
                self.data@.dom() == before.dom(),
                forall|j: int|
                    0 <= j < i ==> row_view(#[trigger] self.data@[keys@[j]]@) == row_view(
                        before[keys@[j]]@,
                    ).push(Value::Null),
                forall|j: int| i <= j < keys@.len() ==> #[trigger] self.data@[keys@[j]] == before[keys@[j]],
                self.header@ == old(self).header@.push(column_def),
                self.name == old(self).name,
                self.pk == old(self).pk,
                self.max_pk == old(self).max_pk,
            decreases keys@.len() - i,
        {
            let key = keys[i];
            let ghost during = self.data@;
            assert(keys@.contains(keys@[i as int]));
            match self.data.remove(key) {
                Some(mut row) => {
                    row.push(LiteralValue::Null);
                    assert(row_view(row@) =~= row_view(before[key]@).push(Value::Null));
                    self.data.insert(key, row);
                },
                None => {},
            }
            assert(self.data@.dom() =~= before.dom());
            assert forall|j: int| 0 <= j < i implies row_view(#[trigger] self.data@[keys@[j]]@)
                == row_view(before[keys@[j]]@).push(Value::Null) by {
                assert(keys@[j] < keys@[i as int]);
                assert(self.data@[keys@[j]] == during[keys@[j]]);
            }
            assert forall|j: int| i + 1 <= j < keys@.len() implies #[trigger] self.data@[keys@[j]]
                == before[keys@[j]] by {
                assert(keys@[i as int] < keys@[j]);
                assert(self.data@[keys@[j]] == during[keys@[j]]);
            }
            i += 1;
        }
        proof {
            let target = old(self)@.add_column(column_def@);
            assert forall|k: PkType| self@.rows.contains_key(k) implies #[trigger] self@.rows[k]
                == target.rows[k] by {
                assert(keys@.contains(k));
                let j = choose|j: int| 0 <= j < keys@.len() && keys@[j] == k;
                assert(row_view(self.data@[keys@[j]]@) == row_view(before[keys@[j]]@).push(
                    Value::Null,
                ));
            }
            assert(self@.rows =~= target.rows);
            self.data.lemma_finite();
        }
    }

    /// Appends the columns to the header, in order.
    pub fn add_columns(&mut self, column_defs: Vec<ColumnDef>)
        requires
            old(self).wf(),
        ensures
            final(self)@ == old(self)@.add_columns(header_view(column_defs@)),
            final(self).wf(),
    {
        let ghost all = header_view(column_defs@);
        assert(column_defs@.len() == column_defs.len());
        let mut n: usize = 0;
        for def in it: column_defs
            invariant
                n == it.index(),
                it.seq() == column_defs@,
                all == header_view(column_defs@),
                column_defs@.len() <= usize::MAX,
                self.wf(),
                self@ == old(self)@.add_columns(all.take(n as int)),
        {
            proof {
                assert(all.take(n + 1).drop_last() =~= all.take(n as int));
                assert(all.take(n + 1).last() == def@);
            }
            self.add_column(def);
            n += 1;
        }
        assert(all.take(n as int) =~= all);
    }

    /// The full-width row for the named columns and their values; where
    /// the table has a primary key and the row leaves it `Null`, the cell
    /// gets the next surrogate key.
    pub fn complete_row(&self, names: &Vec<String>, values: &TableRow) -> (r: Result<
        TableRow,
        Error,
    >)
        requires
            self.wf(),
        ensures
            match r {
                Ok(row) => self@.complete_row(names_view(names@), row_view(values@)) == Ok::<
                    Seq<Value>,
                    Error,
                >(row_view(row@)),
                Err(e) => self@.complete_row(names_view(names@), row_view(values@)) == Err::<
                    Seq<Value>,
                    Error,
                >(e),
            },
    {
        if names.len() != values.len() {
            return Err(Error::SchemaWidthMismatch);
        }
        let ghost all_names = names_view(names@);
        let ghost all_values = row_view(values@);
        let mut row = null_row(self.header.len());
        let mut n: usize = 0;
        while n < names.len()
            invariant
                n <= names@.len(),
                names@.len() == values@.len(),
                all_names == names_view(names@),
                all_values == row_view(values@),
                row@.len() == self@.header.len(),
                self@.header.len() == self.header@.len(),
                self@.scatter(all_names.take(n as int), all_values.take(n as int)) == Ok::<
                    Seq<Value>,
                    Error,
                >(row_view(row@)),
            decreases names@.len() - n,
        {
            proof {
                assert(all_names.take(n + 1).drop_last() =~= all_names.take(n as int));
                assert(all_values.take(n + 1).drop_last() =~= all_values.take(n as int));
                assert(all_names.take(n + 1).last() == names@[n as int]@);
                assert(all_values.take(n + 1).last() == values@[n as int]@);
            }
            match find_column(&self.header, &names[n]) {
                Some(i) => {
                    let ghost before = row_view(row@);
                    row[i] = values[n].clone();
                    assert(row_view(row@) =~= before.update(i as int, values@[n as int]@));
                },
                None => {
                    proof {
                        lemma_scatter_stops(self@, all_names, all_values, n + 1);
                    }
                    return Err(Error::UnknownColumn);
                },
            }
            n += 1;
        }
        proof {
            assert(all_names.take(n as int) =~= all_names);
            assert(all_values.take(n as int) =~= all_values);
        }
        match self.pk {
            Some(i) => {
                if row[i].is_null() {
                    if self.max_pk >= i64::MAX as PkType {
                        return Err(Error::KeyOverflow);
                    }
                    let ghost before = row_view(row@);
                    row[i] = LiteralValue::Integer((self.max_pk + 1) as i64);
                    assert(row_view(row@) =~= before.update(
                        i as int,
                        Value::Integer((self.max_pk + 1) as i64),
                    ));
                }
            },
            None => {},
        }
        Ok(row)
    }

    /// Stores the incoming rows in order. With column names, each row is
    /// first completed as [`Table::complete_row`] says; without, it is
    /// stored as it is. The first row that is refused ends the call: the
    /// rows before it are stored, those after it are not looked at.
    pub fn insert(&mut self, column_data: Vec<TableRow>, specified_columns: &Option<Vec<String>>) -> (r:
        Result<(), Error>)
        requires
            old(self).wf(),
        ensures
            final(self).wf(),
            final(self)@ == old(self)@.insert(
                rows_seq_view(column_data@),
                opt_names_view(*specified_columns),
            ).0,
            match r {
                Ok(()) => old(self)@.insert(
                    rows_seq_view(column_data@),
                    opt_names_view(*specified_columns),
                ).1 is None,
                Err(e) => old(self)@.insert(
                    rows_seq_view(column_data@),
                    opt_names_view(*specified_columns),
                ).1 == Some(e),
            },
    {
        let ghost all = rows_seq_view(column_data@);
        let ghost names = opt_names_view(*specified_columns);
        assert(column_data@.len() == column_data.len());
        let mut n: usize = 0;
        for values in it: column_data
            invariant
                n == it.index(),
                it.seq() == column_data@,
                all == rows_seq_view(column_data@),
                names == opt_names_view(*specified_columns),
                column_data@.len() <= usize::MAX,
                self.wf(),
                old(self)@.insert(all.take(n as int), names) == (self@, None::<Error>),
        {
            proof {
                assert(all.take(n + 1).drop_last() =~= all.take(n as int));
                assert(all.take(n + 1).last() == row_view(values@));
            }
            let completed = match specified_columns {
                Some(column_names) => self.complete_row(column_names, &values),
                None => Ok(values),
            };
            let stored = match completed {
                Ok(row) => self.push_row(row),
                Err(e) => Err(e),
            };
            match stored {
                Ok(()) => {},
                Err(e) => {
                    proof {
                        lemma_insert_stops(old(self)@, all, names, n + 1);
                    }
                    return Err(e);
                },
            }
            n += 1;
        }
        assert(all.take(n as int) =~= all);
        Ok(())
    }

    /// Puts `row` in place of the row stored under `key`, and says whether
    /// it did: it does not where no row is stored under `key` or `row` has
    /// not one cell for each column.
    pub fn replace_row(&mut self, key: PkType, row: TableRow) -> (replaced: bool)
        requires
            old(self).wf(),
        ensures
            final(self).wf(),
            final(self).columns() == old(self).columns(),
            replaced == (old(self)@.rows.contains_key(key) && row@.len() == old(self)@.header.len()),
            final(self)@ == if replaced {
                old(self)@.replace_row(key, row_view(row@))
            } else {
                old(self)@
            },
    {
        if row.len() != self.header.len() || !self.data.contains_key(key) {
            return false;
        }
        assert(old(self)@.rows.contains_key(key));
        self.data.insert(key, row);
        proof {
            self.data.lemma_finite();
            assert(self@.rows =~= old(self)@.rows.insert(key, row_view(row@)));
        }
        true
    }

    /// Removes the rows stored under `keys`.
    pub fn remove_rows(&mut self, keys: &Vec<PkType>)
        requires
            old(self).wf(),
        ensures
            final(self).wf(),
            final(self).columns() == old(self).columns(),
            final(self)@ == old(self)@.remove_rows(keys@.to_set()),
            final(self).stored() == old(self).stored().remove_keys(keys@.to_set()),
    {
        let ghost before = self.data@;
        let mut d: usize = 0;
        while d < keys.len()
            invariant
                d <= keys@.len(),
                self.header == old(self).header,
                self.name == old(self).name,
                self.pk == old(self).pk,
                self.max_pk == old(self).max_pk,
                self.data@ == before.remove_keys(keys@.take(d as int).to_set()),
            decreases keys@.len() - d,
        {
            self.data.remove(keys[d]);
            proof {
                let gone = keys@.take(d as int);
                let more = keys@.take(d + 1);
                assert(more =~= gone.push(keys@[d as int]));
                assert(more.to_set() =~= gone.to_set().insert(keys@[d as int])) by {
                    assert forall|k: PkType| more.to_set().contains(k) <==> gone.to_set().insert(
                        keys@[d as int],
                    ).contains(k) by {
                        if gone.contains(k) {
                            let x = choose|x: int| 0 <= x < gone.len() && gone[x] == k;
                            assert(more[x] == k);
                        }
                        if more.contains(k) {
                            let x = choose|x: int| 0 <= x < more.len() && more[x] == k;
                            if x < gone.len() {
                                assert(gone[x] == k);
                            }
                        }
                        if k == keys@[d as int] {
                            assert(more[d as int] == k);
                        }
                    }
                }
                assert(self.data@ =~= before.remove_keys(more.to_set()));
            }
            d += 1;
        }
        proof {
            assert(keys@.take(d as int) =~= keys@);
            self.data.lemma_finite();
            lemma_rows_view_dom(self.data@);
            assert(self@.rows =~= old(self)@.rows.remove_keys(keys@.to_set()));
        }
    }

    /// Removes every row of which `f` says `true`. `f` is asked about every
    /// row before the first one is removed.
    pub fn delete_where<F: Fn(&TableRow) -> bool>(&mut self, f: F)
        requires
            old(self).wf(),
            forall|k: PkType| #[trigger]
                old(self).stored().contains_key(k) ==> f.requires((&old(self).stored()[k],)),
        ensures
            final(self).wf(),
            final(self).columns() == old(self).columns(),
            final(self)@.name == old(self)@.name,
            final(self)@.header == old(self)@.header,
            final(self)@.pk == old(self)@.pk,
            final(self)@.max_pk == old(self)@.max_pk,
            forall|k: PkType| #[trigger]
                final(self).stored().contains_key(k) ==> old(self).stored().contains_key(k)
                    && final(self).stored()[k] == old(self).stored()[k] && f.ensures(
                    (&old(self).stored()[k],),
                    false,
                ),
            forall|k: PkType|
                old(self).stored().contains_key(k) && !(#[trigger] final(self).stored().contains_key(
                    k,
                )) ==> f.ensures((&old(self).stored()[k],), true),
    {
        let ghost before = self.data@;
        let keys = self.data.keys();
        proof {
            crate::order::lemma_key_order(before.dom());
            assert(before == old(self).stored());
            assert forall|k: PkType| #[trigger] before.contains_key(k) implies f.requires(
                (&before[k],),
            ) by {
                assert(old(self).stored().contains_key(k));
            }
        }
        let mut doomed: Vec<PkType> = Vec::new();
        let mut i: usize = 0;
        while i < keys.len()
            invariant
                i <= keys@.len(),
                crate::order::lists_keys(keys@, before.dom()),
                self.data@ == before,
                forall|k: PkType| #[trigger] before.contains_key(k) ==> f.requires((&before[k],)),
                forall|j: int|
                    0 <= j < i ==> f.ensures(
                        (&before[#[trigger] keys@[j]],),
                        doomed@.contains(keys@[j]),
                    ),
                forall|d: int| 0 <= d < doomed@.len() ==> before.contains_key(#[trigger] doomed@[d]),
                forall|d: int|
                    0 <= d < doomed@.len() ==> exists|j: int|
                        0 <= j < i && keys@[j] == #[trigger] doomed@[d],
            decreases keys@.len() - i,
        {
            let key = keys[i];
            assert(keys@.contains(keys@[i as int]));
            let ghost marked = doomed@;
            match self.data.get(key) {
                Some(row) => {
                    if f(row) {
                        doomed.push(key);
                        assert(doomed@[marked.len() as int] == key);
                        assert(doomed@.contains(key));
                    } else {
                        assert(!doomed@.contains(key)) by {
                            if doomed@.contains(key) {
                                let d = choose|d: int| 0 <= d < doomed@.len() && doomed@[d] == key;
                                let j = choose|j: int| 0 <= j < i && keys@[j] == doomed@[d];
                                assert(keys@[j] < keys@[i as int]);
                            }
                        }
                    }
                },
                None => {},
            }
            assert forall|j: int| 0 <= j < i implies f.ensures(
                (&before[#[trigger] keys@[j]],),
                doomed@.contains(keys@[j]),
            ) by {
                assert(keys@[j] < keys@[i as int]);
                if marked.contains(keys@[j]) {
                    let d = choose|d: int| 0 <= d < marked.len() && marked[d] == keys@[j];
                    assert(doomed@[d] == keys@[j]);
                }
                if doomed@.contains(keys@[j]) {
                    let d = choose|d: int| 0 <= d < doomed@.len() && doomed@[d] == keys@[j];
                    assert(d < marked.len());
                    assert(marked[d] == keys@[j]);
                }
            }
            assert forall|d: int| 0 <= d < doomed@.len() implies exists|j: int|
                0 <= j < i + 1 && keys@[j] == #[trigger] doomed@[d] by {
                if d < marked.len() {
                    assert(marked[d] == doomed@[d]);
                    let j = choose|j: int| 0 <= j < i && keys@[j] == marked[d];
                    assert(0 <= j < i + 1 && keys@[j] == doomed@[d]);
                } else {
                    assert(keys@[i as int] == doomed@[d]);
                }
            }
            i += 1;
        }
        self.remove_rows(&doomed);
        proof {
            assert forall|k: PkType| #[trigger]
                self.data@.contains_key(k) implies f.ensures((&before[k],), false) by {
                assert(keys@.contains(k));
                let j = choose|j: int| 0 <= j < keys@.len() && keys@[j] == k;
                assert(f.ensures((&before[keys@[j]],), doomed@.contains(keys@[j])));
            }
            assert forall|k: PkType|
                before.contains_key(k) && !(#[trigger] self.data@.contains_key(k)) implies f.ensures(
                (&before[k],),
                true,
            ) by {
                assert(keys@.contains(k));
                let j = choose|j: int| 0 <= j < keys@.len() && keys@[j] == k;
                assert(f.ensures((&before[keys@[j]],), doomed@.contains(keys@[j])));
            }
        }
    }

    /// Whether every row has one cell for each column of the header.
    pub fn assert_size(&self) -> (ok: bool)
        ensures
            ok == (forall|k: PkType| #[trigger]
                self@.rows.contains_key(k) ==> self@.rows[k].len() == self@.header.len()),
            self.wf() ==> ok,
    {
        let header_size = self.header.len();
        let keys = self.data.keys();
        proof {
            crate::order::lemma_key_order(self.data@.dom());
        }
        let mut i: usize = 0;
        while i < keys.len()
            invariant
                i <= keys@.len(),
                header_size == self.header@.len(),
                crate::order::lists_keys(keys@, self.data@.dom()),
                forall|j: int| 0 <= j < i ==> (#[trigger] self.data@[keys@[j]])@.len() == header_size,
            decreases keys@.len() - i,
        {
            assert(keys@.contains(keys@[i as int]));
            match self.data.get(keys[i]) {
                Some(row) => {
                    if row.len() != header_size {
                        assert(self@.rows.contains_key(keys@[i as int]));
                        return false;
                    }
                },
                None => {},
            }
            i += 1;
        }
        assert forall|k: PkType| #[trigger] self@.rows.contains_key(k) implies self@.rows[k].len()
            == self@.header.len() by {
            assert(keys@.contains(k));
            let j = choose|j: int| 0 <= j < keys@.len() && keys@[j] == k;
            assert(self.data@[keys@[j]]@.len() == header_size);
        }
        true
    }

    /// Stores `row`, under the key of its primary-key cell or under the next
    /// surrogate key; a row already stored under that key is replaced. A
    /// row that is refused leaves the table as it was.
    pub fn push_row(&mut self, row: TableRow) -> (r: Result<(), Error>)
        requires
            old(self).wf(),
        ensures
            final(self).wf(),
            match r {
                Ok(()) => old(self)@.push_row(row_view(row@)) == Ok::<TableView, Error>(
                    final(self)@,
                ),
                Err(e) => old(self)@.push_row(row_view(row@)) == Err::<TableView, Error>(e)
                    && *final(self) == *old(self),
            },
            r is Ok ==> final(self).stored() == old(self).stored().insert(
                old(self)@.storage_key(row_view(row@))->Ok_0,
                row,
            ),
            final(self).columns() == old(self).columns(),
    {
        if row.len() != self.header.len() {
            return Err(Error::SchemaWidthMismatch);
        }
        let key: PkType = match self.pk {
            Some(i) => match &row[i] {
                LiteralValue::Integer(v) => {
                    if *v < 0 {
                        return Err(Error::InvalidPrimaryKey);
                    }
                    *v as PkType
                },
                _ => {
                    return Err(Error::InvalidPrimaryKey);
                },
            },
            None => {
                if self.max_pk == PkType::MAX {
                    return Err(Error::KeyOverflow);
                }
                self.max_pk + 1
            },
        };
        if key > self.max_pk {
            self.max_pk = key;
        }
        self.data.insert(key, row);
        proof {
            self.data.lemma_finite();
            assert(self@.rows =~= old(self)@.rows.insert(key, row_view(row@)));
        }
        Ok(())
    }
}

/// The text of a header: each column name, followed by a bar between
/// blanks.
pub open spec fn header_text(header: Seq<ColumnSpec>) -> Seq<char>
    decreases header.len(),
{
    if header.len() == 0 {
        Seq::empty()
    } else {
        header_text(header.drop_last()) + header.last().name + " | "@
    }
}

/// A header, to be written out as one line.
pub struct HeaderFormat<'a>(pub &'a TableHeader);

impl<'a> HeaderFormat<'a> {
    /// The header as text.
    pub fn to_string(&self) -> (text: String)
        ensures
            text@ == header_text(header_view(self.0@)),
    {
        let ghost columns = header_view(self.0@);
        let mut text = String::new();
        let mut i: usize = 0;
        while i < self.0.len()
            invariant
                i <= self.0@.len(),
                columns == header_view(self.0@),
                text@ == header_text(columns.take(i as int)),
            decreases self.0@.len() - i,
        {
            proof {
                assert(columns.take(i + 1).drop_last() =~= columns.take(i as int));
                assert(columns.take(i + 1).last() == self.0@[i as int]@);
            }
            text.append(self.0[i].name.as_str());
            text.append(" | ");
            i += 1;
        }
        assert(columns.take(i as int) =~= columns);
        text
    }
}

/// The cell of `row` that stands `offset` cells after the position of the
/// first column of `head` called `name`; without an offset, at that
/// position.
pub open spec fn column_cell(
    name: Seq<char>,
    row: Seq<Value>,
    head: Seq<ColumnSpec>,
    offset: Option<usize>,
) -> Result<Value, Error> {
    match column_index(head, name) {
        None => Err(Error::UnknownColumn),
        Some(i) => {
            let at = i + match offset {
                Some(x) => x as int,
                None => 0,
            };
            if at < row.len() {
                Ok(row[at])
            } else {
                Err(Error::SchemaWidthMismatch)
            }
        },
    }
}

/// A copy of the cell of `row` under the first column of `head` called
/// `name`, `offset` cells further on where an offset is given.
pub fn get_column(name: &String, row: &TableRow, head: &TableHeader, offset: Option<usize>) -> (r:
    Result<LiteralValue, Error>)
    ensures
        match r {
            Ok(cell) => column_cell(name@, row_view(row@), header_view(head@), offset) == Ok::<
                Value,
                Error,
            >(cell@),
            Err(e) => column_cell(name@, row_view(row@), header_view(head@), offset) == Err::<
                Value,
                Error,
            >(e),
        },
{
    let x: usize = match offset {
        Some(x) => x,
        None => 0,
    };
    match find_column(head, name) {
        Some(i) => {
            let width = row.len();
            if x < width && i < width - x {
                assert(row_view(row@)[i + x] == row@[i + x]@);
                Ok(row[i + x].clone())
            } else {
                assert(row_view(row@).len() == width);
                Err(Error::SchemaWidthMismatch)
            }
        },
        None => Err(Error::UnknownColumn),
    }
}

} // verus!
