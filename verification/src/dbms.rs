//! The DBMS: the root of the catalog. It owns the data directory path and
//! the dataspaces, with unique names, and routes insertions through the
//! catalog to the right table.

use vstd::prelude::*;
use vstd::string::StringExecFns;
use crate::dataspace::DataSpace;
use crate::dataspace::inserted_row;
use crate::dataspace::table_pos;
use crate::rows::Row;
use crate::rows::RowV;
use crate::strutil::dec_chars;
use crate::strutil::u128_to_string;
use crate::tables::TableError;
use crate::tables::name_in;
use crate::tables::names_distinct;
use crate::tables::row_conforms;
use crate::tables::row_data;

verus! {

pub type DataSpaceName = String;

/// How a catalog or storage operation can fail.
#[derive(Debug)]
pub enum DBMSError {
    DataSpaceDoesNotExist,
    TableDoesNotExist,
    TableError(TableError),
    /// A table metadata page is malformed; the reason is human-readable.
    TableLoadError(String),
    /// A file could not be read; the reason is human-readable.
    FileReadError(String),
    CorruptedIndex,
    /// The dataspace or table name is already taken.
    AlreadyExists,
}

/// One dataspace under its name.
#[derive(Debug)]
pub struct DataSpaceEntry {
    pub name: DataSpaceName,
    pub dataspace: DataSpace,
}

/// The same catalog, entry by entry: names equal and table lists equal.
pub open spec fn catalog_same(pre: Seq<DataSpaceEntry>, post: Seq<DataSpaceEntry>) -> bool {
    &&& post.len() == pre.len()
    &&& (forall|k: int|
        0 <= k < pre.len() ==> (#[trigger] post[k]).name == pre[k].name
            && post[k].dataspace.tables@ == pre[k].dataspace.tables@)
}

/// The dataspaces after an update confined to the entry at `d`: its name
/// and every other entry kept.
pub open spec fn ds_updated(pre: Seq<DataSpaceEntry>, post: Seq<DataSpaceEntry>, d: int) -> bool {
    &&& post.len() == pre.len()
    &&& post[d].name == pre[d].name
    &&& (forall|k: int| 0 <= k < pre.len() && k != d ==> #[trigger] post[k] == pre[k])
}

/// The dataspaces after `ds` was added at the end under `name`,
/// everything else kept.
pub open spec fn added_dataspace(
    pre: Seq<DataSpaceEntry>,
    post: Seq<DataSpaceEntry>,
    name: Seq<char>,
    ds: DataSpace,
) -> bool {
    &&& post.len() == pre.len() + 1
    &&& post.last().name@ == name
    &&& post.last().dataspace == ds
    &&& (forall|i: int| 0 <= i < pre.len() ==> #[trigger] post[i] == pre[i])
}

/// The root of the catalog: the storage directory and the dataspaces.
#[derive(Debug)]
pub struct DBMS {
    pub data_directory: String,
    pub dataspaces: Vec<DataSpaceEntry>,
}

/// The first entry with the given name at or after `from`.
pub open spec fn ds_pos_from(spaces: Seq<DataSpaceEntry>, name: Seq<char>, from: int) -> Option<
    int,
>
    decreases spaces.len() - from,
{
    if from < 0 || from >= spaces.len() {
        None
    } else if spaces[from].name@ == name {
        Some(from)
    } else {
        ds_pos_from(spaces, name, from + 1)
    }
}

/// The first entry with the given name, if any.
pub open spec fn ds_pos(spaces: Seq<DataSpaceEntry>, name: Seq<char>) -> Option<int> {
    ds_pos_from(spaces, name, 0)
}

/// Path of the DBMS info file under the data directory.
pub open spec fn info_path_spec(dir: Seq<char>) -> Seq<char> {
    dir + "/info.mike_db"@
}

/// Path of a dataspace's table-list file.
pub open spec fn tables_path_spec(dir: Seq<char>, ds: Seq<char>) -> Seq<char> {
    dir + "/"@ + ds + ".tables"@
}

/// Path of one page file of a table; page 0 is the metadata page.
pub open spec fn table_page_path_spec(dir: Seq<char>, ds: Seq<char>, t: Seq<char>, page: u128) -> Seq<char> {
    dir + "/"@ + ds + "."@ + t + "."@ + dec_chars(page as nat) + ".table"@
}

/// Path of a table's index-definition file.
pub open spec fn indexes_path_spec(dir: Seq<char>, ds: Seq<char>, t: Seq<char>) -> Seq<char> {
    dir + "/"@ + ds + "."@ + t + ".indexes"@
}

impl DBMS {
    pub open spec fn ds_names(&self) -> Seq<Seq<char>> {
        self.dataspaces@.map_values(|e: DataSpaceEntry| e.name@)
    }

    /// The catalog invariant: unique dataspace names, every dataspace
    /// well formed.
    pub open spec fn wf(&self) -> bool {
        &&& names_distinct(self.ds_names())
        &&& (forall|i: int|
            0 <= i < self.dataspaces@.len() ==> (#[trigger] self.dataspaces@[i]).dataspace.wf())
    }

    pub open spec fn has_dataspace(&self, name: Seq<char>) -> bool {
        name_in(self.ds_names(), name)
    }

    /// An empty catalog rooted at the given data directory.
    pub fn new(data_directory: String) -> (d: DBMS)
        ensures
            d.wf(),
            d.data_directory == data_directory,
            d.dataspaces@.len() == 0,
    {
        DBMS { data_directory, dataspaces: Vec::new() }
    }

    /// The storage root as a path string.
    pub fn data_path(&self) -> (r: String)
        ensures
            r@ == self.data_directory@,
    {
        self.data_directory.clone()
    }

    /// Path of the info file listing the dataspace names.
    pub fn info_file_path(&self) -> (r: String)
        ensures
            r@ == info_path_spec(self.data_directory@),
    {
        let mut r = self.data_directory.clone();
        r.append("/info.mike_db");
        proof {
            reveal_strlit("/info.mike_db");
        }
        r
    }

    /// Path of a dataspace's table-list file.
    pub fn dataspace_tables_path(&self, dataspace: &String) -> (r: String)
        ensures
            r@ == tables_path_spec(self.data_directory@, dataspace@),
    {
        let mut r = self.data_directory.clone();
        r.append("/");
        r.append(dataspace.as_str());
        r.append(".tables");
        proof {
            reveal_strlit("/");
            reveal_strlit(".tables");
        }
        r
    }

    /// Path of one page file of a table.
    pub fn table_file_path(&self, dataspace: &String, table_name: &String, table_page: u128) -> (r:
        String)
        ensures
            r@ == table_page_path_spec(
                self.data_directory@,
                dataspace@,
                table_name@,
                table_page,
            ),
    {
        let mut r = self.data_directory.clone();
        r.append("/");
        r.append(dataspace.as_str());
        r.append(".");
        r.append(table_name.as_str());
        r.append(".");
        let digits = u128_to_string(table_page);
        r.append(digits.as_str());
        r.append(".table");
        proof {
            reveal_strlit("/");
            reveal_strlit(".");
            reveal_strlit(".table");
        }
        r
    }

    /// Path of a table's index-definition file.
    pub fn table_indexes_path(&self, dataspace: &String, table_name: &String) -> (r: String)
        ensures
            r@ == indexes_path_spec(self.data_directory@, dataspace@, table_name@),
    {
        let mut r = self.data_directory.clone();
        r.append("/");
        r.append(dataspace.as_str());
        r.append(".");
        r.append(table_name.as_str());
        r.append(".indexes");
        proof {
            reveal_strlit("/");
            reveal_strlit(".");
            reveal_strlit(".indexes");
        }
        r
    }

    /// The info file's lines: the dataspace names in catalog order.
    pub fn ds_name_lines(&self) -> (r: Vec<String>)
        ensures
            r.deep_view() == self.ds_names(),
    {
        let mut r: Vec<String> = Vec::new();
        let n = self.dataspaces.len();
        let mut i: usize = 0;
        while i < n
            invariant
                i <= n,
                n == self.dataspaces@.len(),
                r.deep_view() =~= self.ds_names().subrange(0, i as int),
            decreases n - i,
        {
            let ghost old_r = r.deep_view();
            r.push(self.dataspaces[i].name.clone());
            proof {
                assert(r.deep_view() =~= old_r.push(self.dataspaces@[i as int].name@));
                assert(self.ds_names()[i as int] == self.dataspaces@[i as int].name@);
                assert(old_r.push(self.ds_names()[i as int]) =~= self.ds_names().subrange(
                    0,
                    i + 1,
                ));
            }
            i = i + 1;
        }
        proof {
            assert(self.ds_names().subrange(0, n as int) =~= self.ds_names());
        }
        r
    }

    /// The position of the dataspace with the given name, if any.
    pub(crate) fn find_dataspace(&self, name: &String) -> (r: Option<usize>)
        ensures
            r matches Some(j) ==> ds_pos(self.dataspaces@, name@) == Some(j as int) && j
                < self.dataspaces@.len(),
            r is None ==> ds_pos(self.dataspaces@, name@) is None,
    {
        let n = self.dataspaces.len();
        let mut i: usize = 0;
        while i < n
            invariant
                i <= n,
                n == self.dataspaces@.len(),
                ds_pos(self.dataspaces@, name@) == ds_pos_from(self.dataspaces@, name@, i as int),
            decreases n - i,
        {
            if self.dataspaces[i].name == *name {
                return Some(i);
            }
            i = i + 1;
        }
        None
    }

    /// Adds an empty dataspace under a name; a taken name is rejected with
    /// `AlreadyExists` and the existing entry is kept unchanged.
    pub fn create_dataspace(&mut self, name: String) -> (r: Result<(), DBMSError>)
        requires
            old(self).wf(),
        ensures
            final(self).wf(),
            final(self).data_directory == old(self).data_directory,
            old(self).has_dataspace(name@) ==> (r matches Err(DBMSError::AlreadyExists)
                && *final(self) == *old(self)),
            !old(self).has_dataspace(name@) ==> (r matches Ok(_)
                && final(self).dataspaces@.len() == old(self).dataspaces@.len() + 1
                && final(self).dataspaces@.last().name@ == name@
                && final(self).dataspaces@.last().dataspace.tables@.len() == 0
                && (forall|i: int|
                    0 <= i < old(self).dataspaces@.len() ==> #[trigger] final(self).dataspaces@[i]
                        == old(self).dataspaces@[i])),
    {
        self.add_dataspace(name, DataSpace::new())
    }

    /// Adds a dataspace under a name; a taken name is rejected with
    /// `AlreadyExists` and the existing entry is kept unchanged.
    pub fn add_dataspace(&mut self, name: String, ds: DataSpace) -> (r: Result<(), DBMSError>)
        requires
            old(self).wf(),
            ds.wf(),
        ensures
            final(self).wf(),
            final(self).data_directory == old(self).data_directory,
            old(self).has_dataspace(name@) ==> (r matches Err(DBMSError::AlreadyExists)
                && *final(self) == *old(self)),
            !old(self).has_dataspace(name@) ==> (r matches Ok(_)
                && added_dataspace(old(self).dataspaces@, final(self).dataspaces@, name@, ds)),
    {
        match self.find_dataspace(&name) {
            Some(_) => {
                proof {
                    lemma_ds_pos_found(self.dataspaces@, name@);
                }
                Err(DBMSError::AlreadyExists)
            },
            None => {
                proof {
                    lemma_ds_pos_missing(self.dataspaces@, name@, 0);
                }
                let ghost old_spaces = self.dataspaces@;
                let entry = DataSpaceEntry { name, dataspace: ds };
                self.dataspaces.push(entry);
                proof {
                    assert forall|a: int, b: int|
                        0 <= a < b < self.ds_names().len() implies self.ds_names()[a]
                        != self.ds_names()[b] by {
                        if b < old_spaces.len() {
                            assert(old(self).ds_names()[a] == self.ds_names()[a]);
                            assert(old(self).ds_names()[b] == self.ds_names()[b]);
                        } else {
                            assert(self.ds_names()[b] == self.dataspaces@[b].name@);
                            assert(self.ds_names()[a] == old_spaces[a].name@);
                            assert(old(self).ds_names()[a] == old_spaces[a].name@);
                            if self.ds_names()[a] == self.ds_names()[b] {
                                assert(name_in(old(self).ds_names(), self.dataspaces@[b].name@));
                            }
                        }
                    }
                    assert forall|i: int| 0 <= i < self.dataspaces@.len() implies (
                    #[trigger] self.dataspaces@[i]).dataspace.wf() by {
                        if i < old_spaces.len() {
                            assert(self.dataspaces@[i] == old(self).dataspaces@[i]);
                            assert(old(self).dataspaces@[i].dataspace.wf());
                        }
                    }
                }
                Ok(())
            },
        }
    }

    /// The first row with the given identifier in the named table of the
    /// named dataspace, or `None` when any link of the chain is absent.
    pub fn select_by_row_id(&self, table_name: &String, dataspace_name: &String, id: String) -> (r:
        Option<Row>)
        ensures
            (match ds_pos(self.dataspaces@, dataspace_name@) {
                None => r is None,
                Some(d) => (match table_pos(
                    self.dataspaces@[d].dataspace.tables@,
                    table_name@,
                ) {
                    None => r is None,
                    Some(j) => {
                        let rows =
                            self.dataspaces@[d].dataspace.tables@[j].table.rows.deep_view();
                        &&& (r matches Some(row) ==> crate::tables::select_spec(rows, id@)
                            == Some(row@))
                        &&& (r is None ==> crate::tables::select_spec(rows, id@) is None)
                    },
                }),
            }),
    {
        match self.find_dataspace(dataspace_name) {
            Some(d) => {
                proof {
                    lemma_ds_pos_found(self.dataspaces@, dataspace_name@);
                }
                self.dataspaces[d].dataspace.select_by_row_id(table_name, id)
            },
            None => None,
        }
    }

    /// Inserts a row through the catalog: the dataspace is looked up, then
    /// the table, then the row is validated against the table's schema and
    /// appended; the lookup chain fails fast with a distinguishing error.
    pub fn insert_into_table(
        &mut self,
        table_name: String,
        dataspace_name: String,
        fields: Vec<Vec<u8>>,
    ) -> (r: Result<Row, DBMSError>)
        requires
            old(self).wf(),
        ensures
            final(self).wf(),
            final(self).data_directory == old(self).data_directory,
            (match ds_pos(old(self).dataspaces@, dataspace_name@) {
                None => (r matches Err(DBMSError::DataSpaceDoesNotExist))
                    && catalog_same(old(self).dataspaces@, final(self).dataspaces@),
                Some(d) => ({
                    let pre_tables = old(self).dataspaces@[d].dataspace.tables@;
                    let post_tables = final(self).dataspaces@[d].dataspace.tables@;
                    match table_pos(pre_tables, table_name@) {
                        None => (r matches Err(DBMSError::TableDoesNotExist))
                            && catalog_same(old(self).dataspaces@, final(self).dataspaces@),
                        Some(j) => (if fields@.len() != pre_tables[j].table.column_types@.len() {
                            (r matches Err(DBMSError::TableError(TableError::SchemaMismatch)))
                                && catalog_same(old(self).dataspaces@, final(self).dataspaces@)
                        } else {
                            (r matches Ok(row)
                                && row_data(row@) == fields.deep_view()
                                && row_conforms(row@, pre_tables[j].table.column_types@)
                                && inserted_row(pre_tables, post_tables, j, row@))
                                && ds_updated(old(self).dataspaces@, final(self).dataspaces@, d)
                        }),
                    }
                }),
            }),
    {
        let d = match self.find_dataspace(&dataspace_name) {
            Some(d) => d,
            None => {
                return Err(DBMSError::DataSpaceDoesNotExist);
            },
        };
        proof {
            lemma_ds_pos_found(self.dataspaces@, dataspace_name@);
        }
        let ghost old_spaces = self.dataspaces@;
        let mut entry = self.dataspaces.remove(d);
        let res = entry.dataspace.insert_into(&table_name, fields);
        self.dataspaces.insert(d, entry);
        proof {
            assert(self.dataspaces@ =~= old_spaces.update(d as int, self.dataspaces@[d as int]));
            assert(self.ds_names() =~= old(self).ds_names());
            assert forall|i: int| 0 <= i < self.dataspaces@.len() implies (
            #[trigger] self.dataspaces@[i]).dataspace.wf() by {
                if i != d {
                    assert(self.dataspaces@[i] == old(self).dataspaces@[i]);
                    assert(old(self).dataspaces@[i].dataspace.wf());
                }
            }
        }
        match res {
            Ok(row) => {
                proof {
                    let pre_tables = old(self).dataspaces@[d as int].dataspace.tables@;
                    let post_tables = self.dataspaces@[d as int].dataspace.tables@;
                    let j = table_pos(pre_tables, table_name@)->Some_0;
                    assert(row_data(row@) == fields.deep_view() && row_conforms(
                        row@,
                        pre_tables[j].table.column_types@,
                    ) && inserted_row(pre_tables, post_tables, j, row@));
                }
                Ok(row)
            },
            Err(e) => {
                proof {
                    assert(catalog_same(old(self).dataspaces@, self.dataspaces@));
                }
                Err(e)
            },
        }
    }
}

/// A hit of the scan is a dataspace the catalog holds.
pub proof fn lemma_ds_pos_found(spaces: Seq<DataSpaceEntry>, name: Seq<char>)
    requires
        (ds_pos(spaces, name) is Some),
    ensures
        ({
            let j = ds_pos(spaces, name)->Some_0;
            0 <= j < spaces.len() && spaces[j].name@ == name
        }),
        name_in(spaces.map_values(|e: DataSpaceEntry| e.name@), name),
{
    lemma_ds_pos_from_found(spaces, name, 0);
    let j = ds_pos(spaces, name)->Some_0;
    assert(spaces.map_values(|e: DataSpaceEntry| e.name@)[j] == name);
}

proof fn lemma_ds_pos_from_found(spaces: Seq<DataSpaceEntry>, name: Seq<char>, from: int)
    requires
        (ds_pos_from(spaces, name, from) is Some),
        0 <= from,
    ensures
        ({
            let j = ds_pos_from(spaces, name, from)->Some_0;
            from <= j < spaces.len() && spaces[j].name@ == name
        }),
    decreases spaces.len() - from,
{
    if from < spaces.len() && spaces[from].name@ != name {
        lemma_ds_pos_from_found(spaces, name, from + 1);
    }
}

/// A miss of the scan means no dataspace carries the name.
pub proof fn lemma_ds_pos_missing(spaces: Seq<DataSpaceEntry>, name: Seq<char>, from: int)
    requires
        ds_pos_from(spaces, name, from) is None,
        0 <= from <= spaces.len(),
    ensures
        forall|j: int| from <= j < spaces.len() ==> (#[trigger] spaces[j]).name@ != name,
        from == 0 ==> !name_in(spaces.map_values(|e: DataSpaceEntry| e.name@), name),
    decreases spaces.len() - from,
{
    if from < spaces.len() {
        lemma_ds_pos_missing(spaces, name, from + 1);
    }
    if from == 0 {
        let names = spaces.map_values(|e: DataSpaceEntry| e.name@);
        assert forall|p: int| 0 <= p < names.len() implies names[p] != name by {
            assert(spaces[p].name@ != name);
        }
    }
}

} // verus!
