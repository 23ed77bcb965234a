//! A dataspace: a named logical grouping of tables, with unique table
//! names. Creation of a table under a taken name is rejected unchanged.

use vstd::prelude::*;
use crate::dbms::DBMSError;
use crate::rows::Row;
use crate::rows::RowV;
use crate::tables::Table;
use crate::tables::TableError;
use crate::tables::name_in;
use crate::tables::names_distinct;
use crate::tables::row_conforms;
use crate::tables::row_data;

verus! {

/// One table under its name.
#[derive(Debug)]
pub struct TableEntry {
    pub name: String,
    pub table: Table,
}

/// A named logical grouping of tables.
#[derive(Debug)]
pub struct DataSpace {
    pub tables: Vec<TableEntry>,
}

/// The first entry with the given name at or after `from`.
pub open spec fn table_pos_from(tables: Seq<TableEntry>, name: Seq<char>, from: int) -> Option<int>
    decreases tables.len() - from,
{
    if from < 0 || from >= tables.len() {
        None
    } else if tables[from].name@ == name {
        Some(from)
    } else {
        table_pos_from(tables, name, from + 1)
    }
}

/// The first entry with the given name, if any.
pub open spec fn table_pos(tables: Seq<TableEntry>, name: Seq<char>) -> Option<int> {
    table_pos_from(tables, name, 0)
}

/// The entries after a table was added at the end, everything else kept.
pub open spec fn added_table(
    pre: Seq<TableEntry>,
    post: Seq<TableEntry>,
    name: Seq<char>,
    table: Table,
) -> bool {
    &&& post.len() == pre.len() + 1
    &&& post.last().name@ == name
    &&& post.last().table == table
    &&& (forall|i: int| 0 <= i < pre.len() ==> #[trigger] post[i] == pre[i])
}

/// The entries after one row was appended to the table at `j`: its name
/// and schema kept, its rows extended by `row`, all other entries kept.
pub open spec fn inserted_row(
    pre: Seq<TableEntry>,
    post: Seq<TableEntry>,
    j: int,
    row: RowV,
) -> bool {
    &&& post.len() == pre.len()
    &&& post[j].name == pre[j].name
    &&& post[j].table.rows.deep_view() == pre[j].table.rows.deep_view().push(row)
    &&& post[j].table.column_types == pre[j].table.column_types
    &&& post[j].table.column_names == pre[j].table.column_names
    &&& (forall|k: int| 0 <= k < pre.len() && k != j ==> #[trigger] post[k] == pre[k])
}

impl DataSpace {
    pub open spec fn table_names(&self) -> Seq<Seq<char>> {
        self.tables@.map_values(|e: TableEntry| e.name@)
    }

    /// The dataspace invariant: unique table names, every table well
    /// formed.
    pub open spec fn wf(&self) -> bool {
        &&& names_distinct(self.table_names())
        &&& (forall|i: int| 0 <= i < self.tables@.len() ==> (#[trigger] self.tables@[i]).table.wf())
    }

    pub open spec fn has_table(&self, name: Seq<char>) -> bool {
        name_in(self.table_names(), name)
    }

    /// An empty dataspace.
    pub fn new() -> (d: DataSpace)
        ensures
            d.wf(),
            d.tables@.len() == 0,
    {
        DataSpace { tables: Vec::new() }
    }

    /// The table-list file's lines: the table names in catalog order.
    pub fn table_name_lines(&self) -> (r: Vec<String>)
        ensures
            r.deep_view() == self.table_names(),
    {
        let mut r: Vec<String> = Vec::new();
        let n = self.tables.len();
        let mut i: usize = 0;
        while i < n
            invariant
                i <= n,
                n == self.tables@.len(),
                r.deep_view() =~= self.table_names().subrange(0, i as int),
            decreases n - i,
        {
            let ghost old_r = r.deep_view();
            r.push(self.tables[i].name.clone());
            proof {
                assert(r.deep_view() =~= old_r.push(self.tables@[i as int].name@));
                assert(self.table_names()[i as int] == self.tables@[i as int].name@);
                assert(old_r.push(self.table_names()[i as int]) =~= self.table_names().subrange(
                    0,
                    i + 1,
                ));
            }
            i = i + 1;
        }
        proof {
            assert(self.table_names().subrange(0, n as int) =~= self.table_names());
        }
        r
    }

    /// The position of the table with the given name, if any.
    fn find_table(&self, name: &String) -> (r: Option<usize>)
        ensures
            r matches Some(j) ==> table_pos(self.tables@, name@) == Some(j as int) && j
                < self.tables@.len(),
            r is None ==> table_pos(self.tables@, name@) is None,
    {
        let n = self.tables.len();
        let mut i: usize = 0;
        while i < n
            invariant
                i <= n,
                n == self.tables@.len(),
                table_pos(self.tables@, name@) == table_pos_from(self.tables@, name@, i as int),
            decreases n - i,
        {
            if self.tables[i].name == *name {
                return Some(i);
            }
            i = i + 1;
        }
        None
    }

    /// Adds a table under a name; a taken name is rejected with
    /// `AlreadyExists` and the existing entry is kept unchanged.
    pub fn create_table(&mut self, name: String, table: Table) -> (r: Result<(), DBMSError>)
        requires
            old(self).wf(),
            table.wf(),
        ensures
            final(self).wf(),
            old(self).has_table(name@) ==> (r matches Err(DBMSError::AlreadyExists)
                && *final(self) == *old(self)),
            !old(self).has_table(name@) ==> (r matches Ok(_)
                && added_table(old(self).tables@, final(self).tables@, name@, table)),
    {
        match self.find_table(&name) {
            Some(j) => {
                proof {
                    lemma_table_pos_found(self.tables@, name@, j as int);
                    assert(self.has_table(name@));
                }
                Err(DBMSError::AlreadyExists)
            },
            None => {
                proof {
                    lemma_table_pos_missing(self.tables@, name@, 0);
                    assert(!self.has_table(name@));
                }
                let ghost old_tables = self.tables@;
                let entry = TableEntry { name, table };
                self.tables.push(entry);
                proof {
                    assert forall|a: int, b: int|
                        0 <= a < b < self.table_names().len() implies self.table_names()[a]
                        != self.table_names()[b] by {
                        if b < old_tables.len() {
                            assert(old(self).table_names()[a] == self.table_names()[a]);
                            assert(old(self).table_names()[b] == self.table_names()[b]);
                        } else {
                            assert(self.table_names()[b] == self.tables@[b].name@);
                            assert(self.table_names()[a] == old_tables[a].name@);
                            assert(old(self).table_names()[a] == old_tables[a].name@);
                            if self.table_names()[a] == self.table_names()[b] {
                                assert(name_in(old(self).table_names(), self.tables@[b].name@));
                            }
                        }
                    }
                    assert forall|i: int| 0 <= i < self.tables@.len() implies (
                    #[trigger] self.tables@[i]).table.wf() by {
                        if i < old_tables.len() {
                            assert(self.tables@[i] == old(self).tables@[i]);
                            assert(old(self).tables@[i].table.wf());
                        }
                    }
                }
                Ok(())
            },
        }
    }

    /// Inserts a row into the named table, enforcing its schema.
    pub fn insert_into(&mut self, table_name: &String, fields: Vec<Vec<u8>>) -> (r: Result<
        Row,
        DBMSError,
    >)
        requires
            old(self).wf(),
        ensures
            final(self).wf(),
            (match table_pos(old(self).tables@, table_name@) {
                None => (r matches Err(DBMSError::TableDoesNotExist))
                    && final(self).tables@ == old(self).tables@,
                Some(j) => (if fields@.len() != old(self).tables@[j].table.column_types@.len() {
                    (r matches Err(DBMSError::TableError(TableError::SchemaMismatch)))
                        && final(self).tables@ == old(self).tables@
                } else {
                    r matches Ok(row) && row_data(row@) == fields.deep_view()
                        && row_conforms(row@, old(self).tables@[j].table.column_types@)
                        && inserted_row(old(self).tables@, final(self).tables@, j, row@)
                }),
            }),
    {
        let j = match self.find_table(table_name) {
            Some(j) => j,
            None => {
                return Err(DBMSError::TableDoesNotExist);
            },
        };
        proof {
            lemma_table_pos_found(self.tables@, table_name@, j as int);
        }
        let ghost old_tables = self.tables@;
        let mut entry = self.tables.remove(j);
        let res = entry.table.insert(fields);
        self.tables.insert(j, entry);
        proof {
            if res is Err {
                assert(self.tables@ =~= old_tables);
            } else {
                assert(self.tables@ =~= old_tables.update(j as int, self.tables@[j as int]));
                assert(inserted_row(old_tables, self.tables@, j as int, res->Ok_0@));
            }
            assert(self.table_names() =~= old(self).table_names());
            assert forall|i: int| 0 <= i < self.tables@.len() implies (
            #[trigger] self.tables@[i]).table.wf() by {
                if i != j {
                    assert(self.tables@[i] == old(self).tables@[i]);
                    assert(old(self).tables@[i].table.wf());
                }
            }
        }
        match res {
            Ok(row) => Ok(row),
            Err(_) => Err(DBMSError::TableError(TableError::SchemaMismatch)),
        }
    }
}

impl DataSpace {
    /// The first row with the given identifier in the named table, or
    /// `None` when the table or the row is absent.
    pub fn select_by_row_id(&self, table_name: &String, id: String) -> (r: Option<Row>)
        ensures
            (match table_pos(self.tables@, table_name@) {
                None => r is None,
                Some(j) => {
                    let rows = self.tables@[j].table.rows.deep_view();
                    &&& (r matches Some(row) ==> crate::tables::select_spec(rows, id@) == Some(
                        row@,
                    ))
                    &&& (r is None ==> crate::tables::select_spec(rows, id@) is None)
                },
            }),
    {
        match self.find_table(table_name) {
            Some(j) => {
                proof {
                    lemma_table_pos_found(self.tables@, table_name@, j as int);
                    assert(self.tables@[j as int].table.rows.deep_view() == self.tables@[
                        table_pos(self.tables@, table_name@)->Some_0].table.rows.deep_view());
                }
                self.tables[j].table.select_by_rowid(id)
            },
            None => None,
        }
    }

    /// Accounts one written row line against the named table's current
    /// page, rolling to a new page when needed; returns the page the line
    /// belongs on.
    pub fn record_row_write(&mut self, table_name: &String, line_bytes: u64) -> (r: Result<
        u128,
        DBMSError,
    >)
        requires
            old(self).wf(),
        ensures
            final(self).wf(),
            (match table_pos(old(self).tables@, table_name@) {
                None => (r matches Err(DBMSError::TableDoesNotExist))
                    && final(self).tables@ == old(self).tables@,
                Some(j) => (r matches Ok(page) && crate::tables::page_rolled(
                    old(self).tables@[j].table,
                    final(self).tables@[j].table,
                    line_bytes,
                    page,
                ) && final(self).tables@.len() == old(self).tables@.len()
                    && final(self).tables@[j].name == old(self).tables@[j].name
                    && (forall|k: int|
                        0 <= k < old(self).tables@.len() && k != j
                            ==> #[trigger] final(self).tables@[k] == old(self).tables@[k])),
            }),
    {
        let j = match self.find_table(table_name) {
            Some(j) => j,
            None => {
                return Err(DBMSError::TableDoesNotExist);
            },
        };
        proof {
            lemma_table_pos_found(self.tables@, table_name@, j as int);
        }
        let ghost old_tables = self.tables@;
        let mut entry = self.tables.remove(j);
        let page = entry.table.record_page_write(line_bytes);
        self.tables.insert(j, entry);
        proof {
            assert(self.tables@ =~= old_tables.update(j as int, self.tables@[j as int]));
            assert(self.table_names() =~= old(self).table_names());
            assert(self.tables@[j as int].table.wf()) by {
                let pre_t = old_tables[j as int].table;
                let post_t = self.tables@[j as int].table;
                assert(crate::tables::page_rolled(pre_t, post_t, line_bytes, page));
                assert(pre_t.wf());
                crate::tables::lemma_wf_ignores_pages(pre_t, post_t);
            }
            assert forall|i: int| 0 <= i < self.tables@.len() implies (
            #[trigger] self.tables@[i]).table.wf() by {
                if i != j {
                    assert(self.tables@[i] == old(self).tables@[i]);
                    assert(old(self).tables@[i].table.wf());
                }
            }
        }
        Ok(page)
    }
}

/// Two catalogs with the same names at every position agree on where a
/// name stands.
pub proof fn lemma_table_pos_same_names(
    a: Seq<TableEntry>,
    b: Seq<TableEntry>,
    name: Seq<char>,
    from: int,
)
    requires
        a.len() == b.len(),
        forall|i: int| 0 <= i < a.len() ==> (#[trigger] a[i]).name@ == b[i].name@,
        0 <= from,
    ensures
        table_pos_from(a, name, from) == table_pos_from(b, name, from),
    decreases a.len() - from,
{
    if from < a.len() {
        lemma_table_pos_same_names(a, b, name, from + 1);
    }
}

/// A hit of the scan is a name the dataspace holds.
pub proof fn lemma_table_pos_found(tables: Seq<TableEntry>, name: Seq<char>, j: int)
    requires
        table_pos(tables, name) == Some(j),
    ensures
        0 <= j < tables.len() && tables[j].name@ == name,
        name_in(tables.map_values(|e: TableEntry| e.name@), name),
{
    lemma_table_pos_from_found(tables, name, 0, j);
    assert(tables.map_values(|e: TableEntry| e.name@)[j] == name);
}

proof fn lemma_table_pos_from_found(tables: Seq<TableEntry>, name: Seq<char>, from: int, j: int)
    requires
        table_pos_from(tables, name, from) == Some(j),
        0 <= from,
    ensures
        from <= j < tables.len() && tables[j].name@ == name,
    decreases tables.len() - from,
{
    if from < tables.len() && tables[from].name@ != name {
        lemma_table_pos_from_found(tables, name, from + 1, j);
    }
}

/// A miss of the scan means no entry carries the name.
pub proof fn lemma_table_pos_missing(tables: Seq<TableEntry>, name: Seq<char>, from: int)
    requires
        table_pos_from(tables, name, from) is None,
        0 <= from <= tables.len(),
    ensures
        forall|j: int| from <= j < tables.len() ==> (#[trigger] tables[j]).name@ != name,
        from == 0 ==> !name_in(tables.map_values(|e: TableEntry| e.name@), name),
    decreases tables.len() - from,
{
    if from < tables.len() {
        lemma_table_pos_missing(tables, name, from + 1);
    }
    if from == 0 {
        let names = tables.map_values(|e: TableEntry| e.name@);
        assert forall|p: int| 0 <= p < names.len() implies names[p] != name by {
            assert(tables[p].name@ != name);
        }
    }
}

} // verus!
