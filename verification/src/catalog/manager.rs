//! Catalog manager: the catalog a database works with, and whether it has
//! changed since it was last saved.
use vstd::prelude::*;
use crate::catalog::schema::{Catalog, ColumnSchema, ColumnType, TableSchema, has_table};
use crate::error::{Error, ErrorView, Result};
use crate::planner::logical::{ColumnSpec, ColumnSpecView, DataType, LogicalPlan, LogicalPlanView};
use crate::sql::ast::opt_str_view;
use crate::storage::page::PageType;
use crate::storage::pager::Pager;
use crate::text::{push_str, string_of};

verus! {

/// Catalog manager - handles catalog persistence
pub struct CatalogManager {
    /// In-memory catalog
    catalog: Catalog,
    /// Whether the catalog has been modified since it was saved
    dirty: bool,
}

/// The message for dropping a table that does not exist.
pub open spec fn no_such_table(name: Seq<char>) -> Seq<char> {
    "Table '"@ + name + "' does not exist"@
}

/// The message for creating a table that exists.
pub open spec fn table_exists(name: Seq<char>) -> Seq<char> {
    "Table '"@ + name + "' already exists"@
}

/// `'` + name + text, as a message.
pub fn quoted_message(name: &str, rest: &str) -> (m: String)
    ensures
        m@ == "Table '"@ + name@ + rest@,
{
    let mut m = crate::text::string_of("Table '");
    push_str(&mut m, name);
    push_str(&mut m, rest);
    m
}


/// The column type of a planned column.
pub open spec fn column_type_of(t: DataType) -> ColumnType {
    match t {
        DataType::Integer => ColumnType::Integer,
        DataType::Real => ColumnType::Real,
        DataType::Text => ColumnType::Text,
        DataType::Blob => ColumnType::Blob,
    }
}

/// Whether a column schema is the one CREATE TABLE makes of a column
/// specification: a column is nullable unless it is NOT NULL or a primary
/// key.
pub open spec fn column_matches(c: ColumnSchema, s: ColumnSpecView) -> bool {
    &&& c.name@ == s.name
    &&& c.data_type == column_type_of(s.data_type)
    &&& c.primary_key == s.primary_key
    &&& c.nullable == !(s.not_null || s.primary_key)
    &&& c.unique == s.unique
    &&& opt_str_view(c.default_value) == s.default
}

/// The position of the last primary key column among the first `n`.
pub open spec fn last_primary_key(cols: Seq<ColumnSpecView>, n: nat) -> Option<usize>
    decreases n,
{
    if n == 0 {
        None
    } else if cols[n - 1].primary_key {
        Some((n - 1) as usize)
    } else {
        last_primary_key(cols, (n - 1) as nat)
    }
}

/// Whether a table schema is the one CREATE TABLE makes.
pub open spec fn table_matches(t: TableSchema, name: Seq<char>, root: u32, cols: Seq<ColumnSpecView>) -> bool {
    &&& t.name@ == name
    &&& t.root_page == root
    &&& t.columns@.len() == cols.len()
    &&& forall|i: int| 0 <= i < cols.len() ==> column_matches(#[trigger] t.columns@[i], cols[i])
    &&& t.primary_key == last_primary_key(cols, cols.len())
}

/// The column schema of a column specification.
fn column_of_spec(col_spec: &ColumnSpec) -> (c: ColumnSchema)
    ensures
        column_matches(c, col_spec@),
{
    let data_type = match col_spec.data_type {
        DataType::Integer => ColumnType::Integer,
        DataType::Real => ColumnType::Real,
        DataType::Text => ColumnType::Text,
        DataType::Blob => ColumnType::Blob,
    };
    let mut column = ColumnSchema::new(col_spec.name.clone(), data_type);
    if col_spec.primary_key {
        column = column.with_primary_key();
    } else if col_spec.not_null {
        column = column.with_not_null();
    }
    if col_spec.unique {
        column = column.with_unique();
    }
    match &col_spec.default {
        Some(d) => {
            column = column.with_default(d.clone());
        },
        None => {},
    }
    column
}

impl CatalogManager {
    /// The managed catalog.
    pub closed spec fn spec_catalog(&self) -> Catalog {
        self.catalog
    }

    /// Whether there are unsaved changes.
    pub closed spec fn is_dirty(&self) -> bool {
        self.dirty
    }

    /// The manager's invariant: its catalog's names are distinct.
    pub closed spec fn wf(&self) -> bool {
        self.catalog.wf()
    }

    /// A well-formed manager holds a well-formed catalog.
    pub proof fn lemma_wf_catalog(&self)
        requires
            self.wf(),
        ensures
            self.spec_catalog().wf(),
    {
    }

    /// Create a new catalog manager with an empty catalog
    pub fn new() -> (m: Self)
        ensures
            m.wf(),
            m.spec_catalog().tables@.len() == 0,
            m.spec_catalog().indexes@.len() == 0,
            !m.is_dirty(),
    {
        CatalogManager { catalog: Catalog::new(), dirty: false }
    }

    /// Get the catalog
    pub fn catalog(&self) -> (c: &Catalog)
        ensures
            *c == self.spec_catalog(),
    {
        &self.catalog
    }

    /// Get the catalog for changing it; the catalog counts as changed
    pub fn catalog_mut(&mut self) -> (c: &mut Catalog)
        ensures
            *c == old(self).spec_catalog(),
            final(self).spec_catalog() == *final(c),
            final(self).is_dirty(),
            final(self).wf() == final(c).wf(),
    {
        self.dirty = true;
        &mut self.catalog
    }

    /// Load the catalog: the catalog starts empty and unchanged
    pub fn load(&mut self, _pager: &mut Pager) -> (r: Result<()>)
        ensures
            r is Ok,
            final(self).wf(),
            final(self).spec_catalog().tables@.len() == 0,
            final(self).spec_catalog().indexes@.len() == 0,
            !final(self).is_dirty(),
            *final(_pager) == *old(_pager),
    {
        self.catalog = Catalog::new();
        self.dirty = false;
        Ok(())
    }

    /// Save the catalog: it counts as saved afterwards
    pub fn save(&mut self, _pager: &mut Pager) -> (r: Result<()>)
        ensures
            r is Ok,
            final(self).spec_catalog() == old(self).spec_catalog(),
            !final(self).is_dirty(),
            *final(_pager) == *old(_pager),
    {
        if !self.dirty {
            return Ok(());
        }
        self.dirty = false;
        Ok(())
    }

    /// Execute CREATE TABLE: a new leaf page becomes the table's root, the
    /// table is added to the catalog and the catalog is saved
    pub fn create_table(&mut self, plan: &LogicalPlan, pager: &mut Pager) -> (r: Result<()>)
        requires
            old(self).wf(),
            old(pager).wf(),
            old(pager).psize() >= 64,
            old(pager).can_grow(),
        ensures
            final(self).wf(),
            final(pager).wf(),
            final(pager).psize() == old(pager).psize(),
            final(pager).in_txn() == old(pager).in_txn(),
            final(self).spec_catalog().indexes@ == old(self).spec_catalog().indexes@,
            match plan@ {
                LogicalPlanView::CreateTable { table, columns } => if has_table(old(self).spec_catalog().tables@, table) {
                    &&& r matches Err(e) && e@ == ErrorView::Internal(table_exists(table))
                    &&& final(self).spec_catalog() == old(self).spec_catalog()
                    &&& *final(pager) == *old(pager)
                } else {
                    &&& !old(pager).in_txn() ==> r is Ok
                    &&& r is Ok ==> {
                        &&& !final(self).is_dirty()
                        &&& final(pager).hdr().page_count == old(pager).hdr().page_count + 1
                        &&& final(self).spec_catalog().tables@.len() == old(self).spec_catalog().tables@.len() + 1
                        &&& final(self).spec_catalog().tables@.drop_last() == old(self).spec_catalog().tables@
                        &&& table_matches(final(self).spec_catalog().tables@.last(), table,
                            (old(pager).hdr().page_count + 1) as u32, columns)
                        &&& forall|i: int| 0 <= i < final(self).spec_catalog().tables@.len()
                            && #[trigger] final(self).spec_catalog().tables@[i].name@ == table
                            ==> table_matches(final(self).spec_catalog().tables@[i], table,
                                (old(pager).hdr().page_count + 1) as u32, columns)
                    }
                    &&& r is Err ==> final(self).spec_catalog() == old(self).spec_catalog()
                },
                _ => {
                    &&& r matches Err(e) && e@ == ErrorView::Internal("Expected CREATE TABLE plan"@)
                    &&& final(self).spec_catalog() == old(self).spec_catalog()
                    &&& *final(pager) == *old(pager)
                },
            },
    {
        match plan {
            LogicalPlan::CreateTable { table, columns } => {
                match self.catalog.get_table(table.as_str()) {
                    Some(_) => {
                        return Err(Error::Internal(quoted_message(table.as_str(), "' already exists")));
                    },
                    None => {},
                }
                let root_page = match Self::initialize_table_btree(pager) {
                    Ok(id) => id,
                    Err(e) => { return Err(e); },
                };
                let mut table_schema = TableSchema::new(table.clone(), root_page);
                let ghost cv = columns@.map_values(|c: ColumnSpec| c@);
                let mut i: usize = 0;
                while i < columns.len()
                    invariant
                        i <= columns@.len(),
                        cv == columns@.map_values(|c: ColumnSpec| c@),
                        table_schema.name@ == table@,
                        table_schema.root_page == root_page,
                        table_schema.columns@.len() == i,
                        forall|j: int| 0 <= j < i ==> column_matches(#[trigger] table_schema.columns@[j], cv[j]),
                        table_schema.primary_key == last_primary_key(cv, i as nat),
                    decreases columns.len() - i,
                {
                    let column = column_of_spec(&columns[i]);
                    table_schema.add_column(column);
                    i = i + 1;
                }
                self.catalog.add_table(table_schema);
                self.dirty = true;
                match self.save(pager) {
                    Ok(()) => {},
                    Err(e) => { return Err(e); },
                }
                Ok(())
            },
            _ => Err(Error::Internal(string_of("Expected CREATE TABLE plan"))),
        }
    }

    /// Allocate a new leaf page for a table's B+Tree and write it; its id
    fn initialize_table_btree(pager: &mut Pager) -> (r: Result<u32>)
        requires
            old(pager).wf(),
            old(pager).psize() >= 64,
            old(pager).can_grow(),
        ensures
            final(pager).wf(),
            final(pager).psize() == old(pager).psize(),
            final(pager).in_txn() == old(pager).in_txn(),
            r matches Ok(id) ==> id == old(pager).hdr().page_count + 1
                && final(pager).hdr().page_count == old(pager).hdr().page_count + 1,
            !old(pager).in_txn() ==> r is Ok,
    {
        let page = match pager.allocate_page(PageType::Leaf) {
            Ok(p) => p,
            Err(e) => { return Err(e); },
        };
        let page_id = page.id;
        proof {
            let pc = old(pager).hdr().page_count as int;
            let ps = pager.psize() as int;
            assert((page_id as int) * ps + ps <= usize::MAX) by (nonlinear_arith)
                requires
                    page_id as int == pc + 1,
                    (pc + 3) * ps <= usize::MAX,
                    ps >= 0;
        }
        match pager.write_page(page) {
            Ok(()) => {},
            Err(e) => { return Err(e); },
        }
        Ok(page_id)
    }

    /// Get table schema
    pub fn get_table(&self, name: &str) -> (r: Option<&TableSchema>)
        ensures
            match r {
                Some(t) => exists|i: int|
                    0 <= i < self.spec_catalog().tables@.len() && self.spec_catalog().tables@[i] == *t && t.name@
                        == name@,
                None => !has_table(self.spec_catalog().tables@, name@),
            },
    {
        let r = self.catalog.get_table(name);
        proof {
            if r is Some {
                let i = choose|i: int|
                    0 <= i < self.catalog.tables@.len() && self.catalog.tables@[i] == *r->Some_0 && r->Some_0.name@ == name@;
                assert(self.spec_catalog().tables@[i] == *r->Some_0);
            }
        }
        r
    }

    /// List all tables
    pub fn list_tables(&self) -> (r: Vec<String>)
        ensures
            r@.len() == self.spec_catalog().tables@.len(),
            forall|i: int| 0 <= i < r@.len() ==> r@[i]@ == self.spec_catalog().tables@[i].name@,
    {
        self.catalog.table_names()
    }

    /// Drop a table
    pub fn drop_table(&mut self, name: &str) -> (r: Result<()>)
        requires
            old(self).wf(),
        ensures
            final(self).wf(),
            final(self).spec_catalog().indexes@ == old(self).spec_catalog().indexes@,
            has_table(old(self).spec_catalog().tables@, name@) ==> {
                &&& r is Ok
                &&& final(self).is_dirty()
                &&& exists|i: int|
                    0 <= i < old(self).spec_catalog().tables@.len() && old(self).spec_catalog().tables@[i].name@ == name@
                        && final(self).spec_catalog().tables@ == old(self).spec_catalog().tables@.remove(i)
                &&& !has_table(final(self).spec_catalog().tables@, name@)
            },
            !has_table(old(self).spec_catalog().tables@, name@) ==> {
                &&& r matches Err(e) && e@ == ErrorView::Internal(no_such_table(name@))
                &&& final(self).spec_catalog().tables@ == old(self).spec_catalog().tables@
                &&& final(self).is_dirty() == old(self).is_dirty()
            },
    {
        match self.catalog.remove_table(name) {
            None => {
                return Err(Error::Internal(quoted_message(name, "' does not exist")));
            },
            Some(_) => {},
        }
        self.dirty = true;
        Ok(())
    }
}

impl Default for CatalogManager {
    fn default() -> (m: Self)
        ensures
            m.wf(),
            m.spec_catalog().tables@.len() == 0,
            m.spec_catalog().indexes@.len() == 0,
            !m.is_dirty(),
    {
        Self::new()
    }
}

} // verus!
