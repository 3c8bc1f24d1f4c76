//! Catalog structures: the schemas of tables, columns and indexes.
//!
//! The catalog keeps its tables and indexes in vectors whose names are
//! distinct, so that each name stands for one schema, as a map would.
use vstd::prelude::*;
use crate::text::str_eq;

verus! {

/// The system catalog: all table and index schemas.
#[derive(Debug, Clone)]
pub struct Catalog {
    /// Table schemas, with distinct names
    pub tables: Vec<TableSchema>,
    /// Index schemas, with distinct names
    pub indexes: Vec<IndexSchema>,
}

/// Whether the names of a sequence of tables are distinct.
pub open spec fn tables_distinct(ts: Seq<TableSchema>) -> bool {
    forall|i: int, j: int| 0 <= i < ts.len() && 0 <= j < ts.len() && i != j ==> ts[i].name@ != ts[j].name@
}

/// Whether the names of a sequence of indexes are distinct.
pub open spec fn indexes_distinct(xs: Seq<IndexSchema>) -> bool {
    forall|i: int, j: int| 0 <= i < xs.len() && 0 <= j < xs.len() && i != j ==> xs[i].name@ != xs[j].name@
}

/// Whether a table of that name is in the sequence.
pub open spec fn has_table(ts: Seq<TableSchema>, name: Seq<char>) -> bool {
    exists|i: int| 0 <= i < ts.len() && ts[i].name@ == name
}

/// Whether an index of that name is in the sequence.
pub open spec fn has_index(xs: Seq<IndexSchema>, name: Seq<char>) -> bool {
    exists|i: int| 0 <= i < xs.len() && xs[i].name@ == name
}

impl Catalog {
    /// The catalog's invariant: no two tables and no two indexes share a name.
    pub open spec fn wf(&self) -> bool {
        tables_distinct(self.tables@) && indexes_distinct(self.indexes@)
    }

    /// Create a new empty catalog
    pub fn new() -> (c: Self)
        ensures
            c.wf(),
            c.tables@.len() == 0,
            c.indexes@.len() == 0,
    {
        Catalog { tables: Vec::new(), indexes: Vec::new() }
    }

    /// Position of the table with that name, if any.
    fn table_position(&self, name: &str) -> (r: Option<usize>)
        ensures
            match r {
                Some(i) => i < self.tables@.len() && self.tables@[i as int].name@ == name@,
                None => !has_table(self.tables@, name@),
            },
    {
        let mut i: usize = 0;
        while i < self.tables.len()
            invariant
                i <= self.tables@.len(),
                forall|j: int| 0 <= j < i ==> self.tables@[j].name@ != name@,
            decreases self.tables@.len() - i,
        {
            if str_eq(self.tables[i].name.as_str(), name) {
                return Some(i);
            }
            i = i + 1;
        }
        None
    }

    /// Position of the index with that name, if any.
    fn index_position(&self, name: &str) -> (r: Option<usize>)
        ensures
            match r {
                Some(i) => i < self.indexes@.len() && self.indexes@[i as int].name@ == name@,
                None => !has_index(self.indexes@, name@),
            },
    {
        let mut i: usize = 0;
        while i < self.indexes.len()
            invariant
                i <= self.indexes@.len(),
                forall|j: int| 0 <= j < i ==> self.indexes@[j].name@ != name@,
            decreases self.indexes@.len() - i,
        {
            if str_eq(self.indexes[i].name.as_str(), name) {
                return Some(i);
            }
            i = i + 1;
        }
        None
    }

    /// Add a table to the catalog, replacing a table of the same name
    pub fn add_table(&mut self, table: TableSchema)
        requires
            old(self).wf(),
        ensures
            final(self).wf(),
            final(self).indexes@ == old(self).indexes@,
            has_table(old(self).tables@, table.name@) ==> exists|i: int|
                0 <= i < old(self).tables@.len() && old(self).tables@[i].name@ == table.name@
                    && final(self).tables@ == old(self).tables@.update(i, table),
            !has_table(old(self).tables@, table.name@) ==> final(self).tables@ == old(self).tables@.push(table),
    {
        match self.table_position(table.name.as_str()) {
            Some(i) => {
                self.tables.set(i, table);
            },
            None => {
                self.tables.push(table);
            },
        }
    }

    /// Get a table schema by name
    pub fn get_table(&self, name: &str) -> (r: Option<&TableSchema>)
        ensures
            match r {
                Some(t) => exists|i: int| 0 <= i < self.tables@.len() && self.tables@[i] == *t && t.name@ == name@,
                None => !has_table(self.tables@, name@),
            },
    {
        match self.table_position(name) {
            Some(i) => Some(&self.tables[i]),
            None => None,
        }
    }

    /// Get a table schema by name, for changing it
    pub fn get_table_mut(&mut self, name: &str) -> (r: Option<&mut TableSchema>)
        ensures
            final(self).indexes@ == old(self).indexes@,
            match r {
                Some(t) => exists|i: int|
                    0 <= i < old(self).tables@.len() && old(self).tables@[i] == *t && t.name@ == name@
                        && final(self).tables@ == old(self).tables@.update(i, *final(t)),
                None => !has_table(old(self).tables@, name@) && final(self).tables@ == old(self).tables@,
            },
    {
        match self.table_position(name) {
            Some(i) => Some(&mut self.tables[i]),
            None => None,
        }
    }

    /// Remove a table by name, giving it back
    pub fn remove_table(&mut self, name: &str) -> (r: Option<TableSchema>)
        requires
            old(self).wf(),
        ensures
            final(self).wf(),
            final(self).indexes@ == old(self).indexes@,
            match r {
                Some(t) => exists|i: int|
                    0 <= i < old(self).tables@.len() && old(self).tables@[i] == t && t.name@ == name@
                        && final(self).tables@ == old(self).tables@.remove(i),
                None => !has_table(old(self).tables@, name@) && final(self).tables@ == old(self).tables@,
            },
    {
        match self.table_position(name) {
            Some(i) => {
                let t = self.tables.remove(i);
                proof {
                    assert forall|a: int, b: int|
                        0 <= a < self.tables@.len() && 0 <= b < self.tables@.len() && a != b implies self.tables@[a].name@
                        != self.tables@[b].name@ by {
                        let a0 = if a < i { a } else { a + 1 };
                        let b0 = if b < i { b } else { b + 1 };
                        assert(self.tables@[a] == old(self).tables@[a0]);
                        assert(self.tables@[b] == old(self).tables@[b0]);
                    }
                }
                Some(t)
            },
            None => None,
        }
    }

    /// Add an index to the catalog, replacing an index of the same name
    pub fn add_index(&mut self, index: IndexSchema)
        requires
            old(self).wf(),
        ensures
            final(self).wf(),
            final(self).tables@ == old(self).tables@,
            has_index(old(self).indexes@, index.name@) ==> exists|i: int|
                0 <= i < old(self).indexes@.len() && old(self).indexes@[i].name@ == index.name@
                    && final(self).indexes@ == old(self).indexes@.update(i, index),
            !has_index(old(self).indexes@, index.name@) ==> final(self).indexes@ == old(self).indexes@.push(index),
    {
        match self.index_position(index.name.as_str()) {
            Some(i) => {
                self.indexes.set(i, index);
            },
            None => {
                self.indexes.push(index);
            },
        }
    }

    /// Get an index schema by name
    pub fn get_index(&self, name: &str) -> (r: Option<&IndexSchema>)
        ensures
            match r {
                Some(x) => exists|i: int| 0 <= i < self.indexes@.len() && self.indexes@[i] == *x && x.name@ == name@,
                None => !has_index(self.indexes@, name@),
            },
    {
        match self.index_position(name) {
            Some(i) => Some(&self.indexes[i]),
            None => None,
        }
    }

    /// Remove an index by name, giving it back
    pub fn remove_index(&mut self, name: &str) -> (r: Option<IndexSchema>)
        requires
            old(self).wf(),
        ensures
            final(self).wf(),
            final(self).tables@ == old(self).tables@,
            match r {
                Some(x) => exists|i: int|
                    0 <= i < old(self).indexes@.len() && old(self).indexes@[i] == x && x.name@ == name@
                        && final(self).indexes@ == old(self).indexes@.remove(i),
                None => !has_index(old(self).indexes@, name@) && final(self).indexes@ == old(self).indexes@,
            },
    {
        match self.index_position(name) {
            Some(i) => {
                let x = self.indexes.remove(i);
                proof {
                    assert forall|a: int, b: int|
                        0 <= a < self.indexes@.len() && 0 <= b < self.indexes@.len() && a != b implies self.indexes@[a].name@
                        != self.indexes@[b].name@ by {
                        let a0 = if a < i { a } else { a + 1 };
                        let b0 = if b < i { b } else { b + 1 };
                        assert(self.indexes@[a] == old(self).indexes@[a0]);
                        assert(self.indexes@[b] == old(self).indexes@[b0]);
                    }
                }
                Some(x)
            },
            None => None,
        }
    }

    /// The names of all tables, in the order they are kept
    pub fn table_names(&self) -> (r: Vec<String>)
        ensures
            r@.len() == self.tables@.len(),
            forall|i: int| 0 <= i < r@.len() ==> r@[i]@ == self.tables@[i].name@,
    {
        let mut r: Vec<String> = Vec::new();
        let mut i: usize = 0;
        while i < self.tables.len()
            invariant
                i <= self.tables@.len(),
                r@.len() == i,
                forall|j: int| 0 <= j < i ==> r@[j]@ == self.tables@[j].name@,
            decreases self.tables@.len() - i,
        {
            r.push(self.tables[i].name.clone());
            i = i + 1;
        }
        r
    }
}

impl Default for Catalog {
    fn default() -> (c: Self)
        ensures
            c.wf(),
            c.tables@.len() == 0,
            c.indexes@.len() == 0,
    {
        Self::new()
    }
}

/// Schema of a table
#[derive(Debug, Clone)]
pub struct TableSchema {
    /// Table name
    pub name: String,
    /// Root page of the table's B+Tree
    pub root_page: u32,
    /// Column definitions
    pub columns: Vec<ColumnSchema>,
    /// Position of the primary key column, if any
    pub primary_key: Option<usize>,
}

impl TableSchema {
    /// Create a new table schema with no columns
    pub fn new(name: String, root_page: u32) -> (t: Self)
        ensures
            t.name == name,
            t.root_page == root_page,
            t.columns@.len() == 0,
            t.primary_key is None,
    {
        TableSchema { name, root_page, columns: Vec::new(), primary_key: None }
    }

    /// Add a column; a primary key column becomes the table's primary key
    pub fn add_column(&mut self, column: ColumnSchema)
        ensures
            final(self).columns@ == old(self).columns@.push(column),
            final(self).name == old(self).name,
            final(self).root_page == old(self).root_page,
            final(self).primary_key == if column.primary_key {
                Some(old(self).columns@.len() as usize)
            } else {
                old(self).primary_key
            },
    {
        if column.primary_key {
            self.primary_key = Some(self.columns.len());
        }
        self.columns.push(column);
    }

    /// Position of the first column with that name, if any
    pub fn get_column_index(&self, name: &str) -> (r: Option<usize>)
        ensures
            match r {
                Some(i) => i < self.columns@.len() && self.columns@[i as int].name@ == name@
                    && forall|j: int| 0 <= j < i ==> self.columns@[j].name@ != name@,
                None => forall|j: int| 0 <= j < self.columns@.len() ==> self.columns@[j].name@ != name@,
            },
    {
        let mut i: usize = 0;
        while i < self.columns.len()
            invariant
                i <= self.columns@.len(),
                forall|j: int| 0 <= j < i ==> self.columns@[j].name@ != name@,
            decreases self.columns@.len() - i,
        {
            if str_eq(self.columns[i].name.as_str(), name) {
                return Some(i);
            }
            i = i + 1;
        }
        None
    }

    /// The first column with that name, if any
    pub fn get_column(&self, name: &str) -> (r: Option<&ColumnSchema>)
        ensures
            match r {
                Some(c) => exists|i: int|
                    0 <= i < self.columns@.len() && self.columns@[i] == *c && c.name@ == name@
                        && forall|j: int| 0 <= j < i ==> self.columns@[j].name@ != name@,
                None => forall|j: int| 0 <= j < self.columns@.len() ==> self.columns@[j].name@ != name@,
            },
    {
        match self.get_column_index(name) {
            Some(i) => Some(&self.columns[i]),
            None => None,
        }
    }

    /// The column at a position, if there is one
    pub fn get_column_by_index(&self, index: usize) -> (r: Option<&ColumnSchema>)
        ensures
            match r {
                Some(c) => index < self.columns@.len() && *c == self.columns@[index as int],
                None => index >= self.columns@.len(),
            },
    {
        if index < self.columns.len() {
            Some(&self.columns[index])
        } else {
            None
        }
    }
}

/// Schema of a column
#[derive(Debug, Clone)]
pub struct ColumnSchema {
    /// Column name
    pub name: String,
    /// Data type
    pub data_type: ColumnType,
    /// Whether NULL is allowed
    pub nullable: bool,
    /// Whether this column is the primary key
    pub primary_key: bool,
    /// Whether values must be unique
    pub unique: bool,
    /// Default value, as written
    pub default_value: Option<String>,
}

impl ColumnSchema {
    /// Create a new nullable column without constraints
    pub fn new(name: String, data_type: ColumnType) -> (c: Self)
        ensures
            c.name == name,
            c.data_type == data_type,
            c.nullable,
            !c.primary_key,
            !c.unique,
            c.default_value is None,
    {
        ColumnSchema { name, data_type, nullable: true, primary_key: false, unique: false, default_value: None }
    }

    /// Mark as primary key, which implies NOT NULL
    pub fn with_primary_key(self) -> (c: Self)
        ensures
            c == (ColumnSchema { primary_key: true, nullable: false, ..self }),
    {
        let mut c = self;
        c.primary_key = true;
        c.nullable = false;
        c
    }

    /// Mark as NOT NULL
    pub fn with_not_null(self) -> (c: Self)
        ensures
            c == (ColumnSchema { nullable: false, ..self }),
    {
        let mut c = self;
        c.nullable = false;
        c
    }

    /// Mark as UNIQUE
    pub fn with_unique(self) -> (c: Self)
        ensures
            c == (ColumnSchema { unique: true, ..self }),
    {
        let mut c = self;
        c.unique = true;
        c
    }

    /// Set the default value
    pub fn with_default(self, value: String) -> (c: Self)
        ensures
            c == (ColumnSchema { default_value: Some(value), ..self }),
    {
        let mut c = self;
        c.default_value = Some(value);
        c
    }
}

/// Column data types
#[derive(Debug, Clone, Copy, PartialEq, Eq, Structural)]
pub enum ColumnType {
    /// Integer
    Integer,
    /// Real
    Real,
    /// Text
    Text,
    /// Blob
    Blob,
}

/// The SQL name of a column type.
pub open spec fn column_type_name(t: ColumnType) -> Seq<char> {
    match t {
        ColumnType::Integer => "INTEGER"@,
        ColumnType::Real => "REAL"@,
        ColumnType::Text => "TEXT"@,
        ColumnType::Blob => "BLOB"@,
    }
}

impl ColumnType {
    /// The SQL name of the type, as it is displayed
    pub fn sql_name(&self) -> (s: &'static str)
        ensures
            s@ == column_type_name(*self),
    {
        match self {
            ColumnType::Integer => "INTEGER",
            ColumnType::Real => "REAL",
            ColumnType::Text => "TEXT",
            ColumnType::Blob => "BLOB",
        }
    }
}

/// Schema of an index
#[derive(Debug, Clone)]
pub struct IndexSchema {
    /// Index name
    pub name: String,
    /// Indexed table
    pub table_name: String,
    /// Root page of the index B+Tree
    pub root_page: u32,
    /// Indexed columns
    pub columns: Vec<String>,
    /// Whether keys are unique
    pub unique: bool,
}

impl IndexSchema {
    /// Create a new index schema with no columns
    pub fn new(name: String, table_name: String, root_page: u32) -> (x: Self)
        ensures
            x.name == name,
            x.table_name == table_name,
            x.root_page == root_page,
            x.columns@.len() == 0,
            !x.unique,
    {
        IndexSchema { name, table_name, root_page, columns: Vec::new(), unique: false }
    }

    /// Add an indexed column
    pub fn add_column(&mut self, column: String)
        ensures
            final(self).columns@ == old(self).columns@.push(column),
            final(self).name == old(self).name,
            final(self).table_name == old(self).table_name,
            final(self).root_page == old(self).root_page,
            final(self).unique == old(self).unique,
    {
        self.columns.push(column);
    }
}

} // verus!
