//! The storage driver. All file contents pass through the `FileSystem`
//! abstraction — read lines from a named resource, write lines to one —
//! so the load and save logic here is verified against what any store
//! hands back. `MemStore` is a verified in-memory store; an embedding
//! process supplies one over real files.

use vstd::prelude::*;
use vstd::string::StrSliceExecFns;
use vstd::string::StringExecFns;
use crate::codec::encode_fields;
use crate::codec::encode_fields_spec;
use crate::codec::lemma_decode_encode_line;
use crate::dataspace::DataSpace;
use crate::dataspace::lemma_table_pos_found;
use crate::dataspace::lemma_table_pos_same_names;
use crate::dataspace::table_pos;
use crate::dbms::DBMS;
use crate::dbms::DBMSError;
use crate::dbms::catalog_same;
use crate::dbms::ds_pos;
use crate::dbms::ds_updated;
use crate::dbms::lemma_ds_pos_found;
use crate::rows::Row;
use crate::rows::RowV;
use crate::strutil::split_commas;
use crate::strutil::split_line;
use crate::tables::Table;
use crate::tables::cols_resolvable;
use crate::tables::render_metadata_lines;
use crate::tables::row_conforms;
use crate::tables::row_data;
use crate::tables::rows_data_of_lines;
use crate::tables::pages_rows_data;
use crate::tables::table_rows_data;
use crate::tables::PAGE_SIZE_LIMIT;

verus! {

/// The injected storage abstraction: line-oriented named resources. The
/// embedding process implements it over real files; `MemStore` implements
/// it over in-memory buffers. No behaviour is assumed of an
/// implementation: every caller here is verified for whatever it returns.
pub trait FileSystem {
    /// All lines of the named resource, or a readable reason.
    fn read_lines(&mut self, name: &String) -> (r: Result<Vec<String>, String>);

    /// Replaces the named resource with the given lines in full. An
    /// implementation over real files should write to a temporary name
    /// and rename into place.
    fn write_lines(&mut self, name: &String, lines: &Vec<String>) -> (r: Result<(), String>);

    /// Appends one line to the named resource, creating it when absent.
    fn append_line(&mut self, name: &String, line: &String) -> (r: Result<(), String>);
}

/// An in-memory store: named line buffers. It backs tests and any
/// embedding that does not touch a real file system.
#[derive(Debug)]
pub struct MemStore {
    pub files: Vec<(String, Vec<String>)>,
}

impl MemStore {
    pub fn new() -> (s: MemStore)
        ensures
            s.files@.len() == 0,
    {
        MemStore { files: Vec::new() }
    }

    fn find(&self, name: &String) -> (r: Option<usize>)
        ensures
            r matches Some(j) ==> j < self.files@.len(),
    {
        let n = self.files.len();
        let mut i: usize = 0;
        while i < n
            invariant
                i <= n,
                n == self.files@.len(),
            decreases n - i,
        {
            if self.files[i].0 == *name {
                return Some(i);
            }
            i = i + 1;
        }
        None
    }

    /// Creates or replaces the named buffer.
    pub fn put(&mut self, name: String, lines: Vec<String>) {
        match self.find(&name) {
            Some(j) => {
                let _ = self.files.remove(j);
                self.files.push((name, lines));
            },
            None => {
                self.files.push((name, lines));
            },
        }
    }

}

impl FileSystem for MemStore {
    fn read_lines(&mut self, name: &String) -> (r: Result<Vec<String>, String>) {
        match self.find(name) {
            Some(j) => {
                let mut out: Vec<String> = Vec::new();
                let n = self.files[j].1.len();
                let mut i: usize = 0;
                while i < n
                    invariant
                        i <= n,
                        j < self.files@.len(),
                        n == self.files@[j as int].1@.len(),
                    decreases n - i,
                {
                    out.push(self.files[j].1[i].clone());
                    i = i + 1;
                }
                Ok(out)
            },
            None => Err("no such resource".to_owned()),
        }
    }

    fn write_lines(&mut self, name: &String, lines: &Vec<String>) -> (r: Result<(), String>) {
        let mut copy: Vec<String> = Vec::new();
        let n = lines.len();
        let mut i: usize = 0;
        while i < n
            invariant
                i <= n,
                n == lines@.len(),
            decreases n - i,
        {
            copy.push(lines[i].clone());
            i = i + 1;
        }
        self.put(name.clone(), copy);
        Ok(())
    }

    fn append_line(&mut self, name: &String, line: &String) -> (r: Result<(), String>) {
        match self.find(name) {
            Some(j) => {
                let mut entry = self.files.remove(j);
                entry.1.push(line.clone());
                self.files.insert(j, entry);
            },
            None => {
                let mut lines: Vec<String> = Vec::new();
                lines.push(line.clone());
                self.files.push((name.clone(), lines));
            },
        }
        Ok(())
    }
}

/// The bookkeeping cost of one stored line: its characters plus the line
/// terminator. Stored lines are ASCII, so this is their byte count.
pub open spec fn line_cost(s: Seq<char>) -> int {
    s.len() as int + 1
}

/// The cost of a line, saturating at `u64::MAX`.
pub fn line_cost_exec(line: &String) -> (r: u64)
    ensures
        r as int == (if line_cost(line@) <= u64::MAX {
            line_cost(line@)
        } else {
            u64::MAX as int
        }),
{
    let l = line.as_str().unicode_len();
    if l as u64 == u64::MAX {
        u64::MAX
    } else {
        l as u64 + 1
    }
}

/// The bookkeeping cost of a page: the summed cost of its lines.
pub open spec fn page_cost(lines: Seq<Seq<char>>) -> int
    decreases lines.len(),
{
    if lines.len() == 0 {
        0
    } else {
        page_cost(lines.drop_last()) + line_cost(lines.last())
    }
}

proof fn lemma_page_cost_nonneg(lines: Seq<Seq<char>>)
    ensures
        page_cost(lines) >= 0,
    decreases lines.len(),
{
    if lines.len() > 0 {
        lemma_page_cost_nonneg(lines.drop_last());
    }
}

/// The cost of a whole page, saturating at `u64::MAX`.
fn page_cost_exec(lines: &Vec<String>) -> (r: u64)
    ensures
        r as int == (if page_cost(lines.deep_view()) <= u64::MAX {
            page_cost(lines.deep_view())
        } else {
            u64::MAX as int
        }),
{
    let mut sum: u64 = 0;
    let n = lines.len();
    let mut i: usize = 0;
    proof {
        assert(lines.deep_view().subrange(0, 0) =~= Seq::<Seq<char>>::empty());
    }
    while i < n
        invariant
            i <= n,
            n == lines@.len(),
            sum as int == (if page_cost(lines.deep_view().subrange(0, i as int)) <= u64::MAX {
                page_cost(lines.deep_view().subrange(0, i as int))
            } else {
                u64::MAX as int
            }),
        decreases n - i,
    {
        let ghost pre = lines.deep_view().subrange(0, i as int);
        let ghost ext = lines.deep_view().subrange(0, i + 1);
        proof {
            assert(ext.drop_last() =~= pre);
            assert(ext.last() == lines.deep_view()[i as int]);
            assert(lines.deep_view()[i as int] == lines@[i as int]@);
            lemma_page_cost_nonneg(pre);
        }
        let c = line_cost_exec(&lines[i]);
        sum = if sum > u64::MAX - c {
            u64::MAX
        } else {
            sum + c
        };
        i = i + 1;
    }
    proof {
        assert(lines.deep_view().subrange(0, n as int) =~= lines.deep_view());
    }
    sum
}

/// Encodes one row as its stored line: hex-encoded field values joined
/// with commas.
pub fn encode_row_line(row: &Row) -> (r: String)
    ensures
        r@ == encode_fields_spec(row_data(row@)),
{
    let mut data: Vec<Vec<u8>> = Vec::new();
    let n = row.fields.len();
    let mut i: usize = 0;
    while i < n
        invariant
            i <= n,
            n == row.fields@.len(),
            data.deep_view() =~= row_data(row@).subrange(0, i as int),
        decreases n - i,
    {
        let bytes = row.fields[i].data.clone();
        let ghost old_data = data.deep_view();
        proof {
            assert(bytes@ =~= row.fields@[i as int].data@);
            assert(bytes.deep_view() =~= bytes@);
            assert(row_data(row@)[i as int] == row@.fields[i as int].data);
        }
        data.push(bytes);
        proof {
            assert(data.deep_view() =~= old_data.push(row_data(row@)[i as int]));
            assert(old_data.push(row_data(row@)[i as int]) =~= row_data(row@).subrange(0, i + 1));
        }
        i = i + 1;
    }
    proof {
        assert(row_data(row@).subrange(0, n as int) =~= row_data(row@));
    }
    encode_fields(&data)
}

/// Partitions the rows into data pages: rows are encoded in order and a
/// new page starts whenever the current one would grow past
/// `PAGE_SIZE_LIMIT`. Decoding the pages yields exactly the rows' field
/// byte values again.
pub fn rows_to_page_lines(rows: &Vec<Row>, Ghost(arity): Ghost<int>) -> (pages: Vec<Vec<String>>)
    requires
        arity >= 1,
        forall|i: int|
            0 <= i < rows@.len() ==> (#[trigger] rows.deep_view()[i]).fields.len() == arity,
    ensures
        pages_rows_data(arity, pages.deep_view()) == table_rows_data(rows.deep_view()),
{
    let mut pages: Vec<Vec<String>> = Vec::new();
    let mut cur: Vec<String> = Vec::new();
    let mut cur_bytes: u64 = 0;
    let n = rows.len();
    let mut i: usize = 0;
    proof {
        assert(pages_rows_data(arity, pages.deep_view()) =~= Seq::<Seq<Seq<u8>>>::empty());
        assert(rows_data_of_lines(arity, cur.deep_view()) =~= Seq::<Seq<Seq<u8>>>::empty());
        assert(table_rows_data(rows.deep_view().subrange(0, 0)) =~= Seq::<Seq<Seq<u8>>>::empty());
    }
    while i < n
        invariant
            i <= n,
            n == rows@.len(),
            arity >= 1,
            forall|k: int|
                0 <= k < rows@.len() ==> (#[trigger] rows.deep_view()[k]).fields.len() == arity,
            pages_rows_data(arity, pages.deep_view()) + rows_data_of_lines(
                arity,
                cur.deep_view(),
            ) == table_rows_data(rows.deep_view().subrange(0, i as int)),
        decreases n - i,
    {
        let line = encode_row_line(&rows[i]);
        let cost = line_cost_exec(&line);
        let ghost row_v = rows.deep_view()[i as int];
        proof {
            assert(rows.deep_view()[i as int] == rows@[i as int]@);
            assert(row_data(row_v).len() == arity);
            lemma_decode_encode_line(row_data(row_v));
        }
        if cur.len() > 0 && (cost > PAGE_SIZE_LIMIT || cur_bytes > PAGE_SIZE_LIMIT - cost) {
            let ghost old_pages = pages.deep_view();
            let ghost cur_v = cur.deep_view();
            let full = cur;
            pages.push(full);
            cur = Vec::new();
            cur_bytes = 0;
            proof {
                assert(pages.deep_view() =~= old_pages.push(cur_v));
                assert(pages.deep_view().drop_last() =~= old_pages);
                assert(pages_rows_data(arity, pages.deep_view()) == pages_rows_data(
                    arity,
                    old_pages,
                ) + rows_data_of_lines(arity, cur_v));
                assert(rows_data_of_lines(arity, cur.deep_view()) =~= Seq::<
                    Seq<Seq<u8>>,
                >::empty());
            }
        }
        let ghost cur_pre = cur.deep_view();
        let ghost line_v = line@;
        cur.push(line);
        cur_bytes = if cur_bytes > u64::MAX - cost {
            u64::MAX
        } else {
            cur_bytes + cost
        };
        proof {
            assert(cur.deep_view() =~= cur_pre.push(line_v));
            assert(cur.deep_view().drop_last() =~= cur_pre);
            assert(cur.deep_view().last() == line_v);
            assert(rows_data_of_lines(arity, cur.deep_view()) == rows_data_of_lines(
                arity,
                cur_pre,
            ).push(row_data(row_v)));
            let pre_sub = rows.deep_view().subrange(0, i as int);
            assert(pre_sub.push(row_v) =~= rows.deep_view().subrange(0, i + 1));
            assert(table_rows_data(pre_sub.push(row_v)) =~= table_rows_data(pre_sub).push(
                row_data(row_v),
            ));
            assert(pages_rows_data(arity, pages.deep_view()) + rows_data_of_lines(
                arity,
                cur_pre,
            ).push(row_data(row_v)) =~= (pages_rows_data(arity, pages.deep_view())
                + rows_data_of_lines(arity, cur_pre)).push(row_data(row_v)));
        }
        i = i + 1;
    }
    proof {
        assert(rows.deep_view().subrange(0, n as int) =~= rows.deep_view());
    }
    if cur.len() > 0 {
        let ghost old_pages = pages.deep_view();
        let ghost cur_v = cur.deep_view();
        pages.push(cur);
        proof {
            assert(pages.deep_view() =~= old_pages.push(cur_v));
            assert(pages.deep_view().drop_last() =~= old_pages);
        }
    } else {
        proof {
            assert(rows_data_of_lines(arity, cur.deep_view()) =~= Seq::<Seq<Seq<u8>>>::empty());
            assert(pages_rows_data(arity, pages.deep_view()) + Seq::<Seq<Seq<u8>>>::empty()
                =~= pages_rows_data(arity, pages.deep_view()));
        }
    }
    pages
}

/// The index of the first colon at or after `from`, or the length when
/// there is none.
pub open spec fn colon_at(s: Seq<char>, from: int) -> int
    decreases s.len() - from,
{
    if from < 0 || from >= s.len() {
        s.len() as int
    } else if s[from] == ':' {
        from
    } else {
        colon_at(s, from + 1)
    }
}

/// The part of an index definition line before its first colon, or the
/// whole line when it has none.
fn colon_prefix(line: &str) -> (r: String)
    ensures
        r@ == line@.subrange(0, colon_at(line@, 0)),
{
    let n = line.unicode_len();
    let mut i: usize = 0;
    while i < n
        invariant
            i <= n,
            n == line@.len(),
            colon_at(line@, 0) == colon_at(line@, i as int),
        decreases n - i,
    {
        if line.get_char(i) == ':' {
            return line.substring_char(0, i).to_owned();
        }
        i = i + 1;
    }
    let r = line.substring_char(0, n).to_owned();
    proof {
        assert(colon_at(line@, n as int) == n);
    }
    r
}

impl DBMS {
    /// Reads the info file and reconstructs every listed dataspace. A
    /// failure to read the info file is fatal for the load and returned;
    /// a dataspace that fails to load, and a name listed twice, are
    /// skipped. Entries already in the catalog are kept in place; loaded
    /// dataspaces only join after them.
    pub fn load_from_disk<S: FileSystem>(&mut self, src: &mut S) -> (r: Result<(), DBMSError>)
        requires
            old(self).wf(),
        ensures
            final(self).wf(),
            final(self).data_directory == old(self).data_directory,
            final(self).dataspaces@.len() >= old(self).dataspaces@.len(),
            forall|i: int|
                0 <= i < old(self).dataspaces@.len() ==> #[trigger] final(self).dataspaces@[i]
                    == old(self).dataspaces@[i],
            r matches Err(e) ==> (e matches DBMSError::FileReadError(_)),
    {
        let ghost orig_spaces = self.dataspaces@;
        let path = self.info_file_path();
        let names = match src.read_lines(&path) {
            Ok(l) => l,
            Err(e) => {
                return Err(DBMSError::FileReadError(e));
            },
        };
        let ghost dir_vec = self.data_directory;
        let n = names.len();
        let mut i: usize = 0;
        while i < n
            invariant
                i <= n,
                n == names@.len(),
                self.wf(),
                self.data_directory == dir_vec,
                self.dataspaces@.len() >= orig_spaces.len(),
                forall|k: int|
                    0 <= k < orig_spaces.len() ==> #[trigger] self.dataspaces@[k]
                        == orig_spaces[k],
            decreases n - i,
        {
            let ds_name = names[i].clone();
            let ghost pre_spaces = self.dataspaces@;
            match self.load_dataspace(src, &ds_name) {
                Ok(ds) => {
                    let _ = self.add_dataspace(ds_name, ds);
                    proof {
                        assert forall|k: int| 0 <= k < orig_spaces.len() implies #[trigger] self
                            .dataspaces@[k] == orig_spaces[k] by {
                            assert(self.dataspaces@[k] == pre_spaces[k]);
                        }
                    }
                },
                Err(_) => {},
            }
            i = i + 1;
        }
        Ok(())
    }

    /// Reads a dataspace's table list and loads each named table with its
    /// rows and indexes; a table that fails to load is skipped rather
    /// than aborting the whole load, and a name listed twice is loaded
    /// once.
    pub fn load_dataspace<S: FileSystem>(&self, src: &mut S, dataspace_name: &String) -> (r:
        Result<DataSpace, DBMSError>)
        ensures
            r matches Ok(ds) ==> ds.wf(),
            r matches Err(e) ==> (e matches DBMSError::FileReadError(_)),
    {
        let path = self.dataspace_tables_path(dataspace_name);
        let table_names = match src.read_lines(&path) {
            Ok(l) => l,
            Err(e) => {
                return Err(DBMSError::FileReadError(e));
            },
        };
        let mut ds = DataSpace::new();
        let n = table_names.len();
        let mut i: usize = 0;
        while i < n
            invariant
                i <= n,
                n == table_names@.len(),
                ds.wf(),
            decreases n - i,
        {
            let tname = table_names[i].clone();
            match self.load_table(src, dataspace_name, &tname) {
                Ok(mut table) => {
                    self.load_table_rows(src, dataspace_name, &tname, &mut table);
                    self.load_table_indexes(src, dataspace_name, &tname, &mut table);
                    let _ = ds.create_table(tname, table);
                },
                Err(_) => {},
            }
            i = i + 1;
        }
        Ok(ds)
    }

    /// Loads a table's schema from its metadata page (page 0). The rows
    /// are loaded separately from the data pages.
    pub fn load_table<S: FileSystem>(
        &self,
        src: &mut S,
        dataspace: &String,
        table_name: &String,
    ) -> (r: Result<Table, DBMSError>)
        ensures
            r matches Ok(t) ==> (t.wf() && t.rows@.len() == 0 && t.indexes@.len() == 0
                && t.current_page_size_bytes == 0 && (exists|mlines: Seq<Seq<char>>|
                #[trigger] crate::tables::metadata_parse(mlines) matches Ok(s) && t.page_count
                    == s.page_count && t.column_types@ == s.types && t.column_names.deep_view()
                    == s.names)),
            r matches Err(e) ==> (e matches DBMSError::FileReadError(_) || e matches
                DBMSError::TableLoadError(_)),
    {
        let path = self.table_file_path(dataspace, table_name, 0);
        let lines = match src.read_lines(&path) {
            Ok(l) => l,
            Err(e) => {
                return Err(DBMSError::FileReadError(e));
            },
        };
        let r = match Table::from_metadata_lines(&lines) {
            Ok(t) => {
                proof {
                    assert(crate::tables::metadata_parse(lines.deep_view()) matches Ok(s)
                        && t.page_count == s.page_count && t.column_types@ == s.types
                        && t.column_names.deep_view() == s.names);
                }
                Ok(t)
            },
            Err(DBMSError::TableLoadError(reason)) => {
                let mut msg = path;
                msg.append(": ");
                msg.append(reason.as_str());
                Err(DBMSError::TableLoadError(msg))
            },
            Err(other) => Err(other),
        };
        r
    }

    /// Reads data pages 1 through the table's page count and loads their
    /// rows; a page that cannot be read is skipped, so one bad page does
    /// not prevent the rest of the table from loading. What was loaded is
    /// exactly the row data of the pages that were read, in page order.
    pub fn load_table_rows<S: FileSystem>(
        &self,
        src: &mut S,
        dataspace: &String,
        table_name: &String,
        table: &mut Table,
    )
        requires
            old(table).wf(),
        ensures
            final(table).wf(),
            final(table).column_types == old(table).column_types,
            final(table).column_names == old(table).column_names,
            final(table).page_count == old(table).page_count,
            final(table).indexes@.len() == old(table).indexes@.len(),
            (exists|pages: Seq<Seq<Seq<char>>>|
                table_rows_data(final(table).rows.deep_view()) == table_rows_data(
                    old(table).rows.deep_view(),
                ) + pages_rows_data(old(table).column_types@.len() as int, pages)),
    {
        let ghost arity = table.column_types@.len() as int;
        let ghost base = table_rows_data(table.rows.deep_view());
        let ghost types_vec = table.column_types;
        let ghost names_vec = table.column_names;
        let ghost nidx = table.indexes@.len();
        let ghost mut pages_g: Seq<Seq<Seq<char>>> = Seq::empty();
        let pc = table.page_count;
        let mut done: u128 = 0;
        proof {
            assert(pages_rows_data(arity, pages_g) =~= Seq::<Seq<Seq<u8>>>::empty());
            assert(base + pages_rows_data(arity, pages_g) =~= base);
        }
        while done < pc
            invariant
                done <= pc,
                table.wf(),
                table.column_types == types_vec,
                table.column_names == names_vec,
                table.page_count == pc,
                table.indexes@.len() == nidx,
                arity == table.column_types@.len() as int,
                table_rows_data(table.rows.deep_view()) == base + pages_rows_data(
                    arity,
                    pages_g,
                ),
            decreases pc - done,
        {
            let page = done + 1;
            let path = self.table_file_path(dataspace, table_name, page);
            match src.read_lines(&path) {
                Ok(lines) => {
                    let ghost pre_rows = table_rows_data(table.rows.deep_view());
                    table.load_page_lines(&lines);
                    let ghost mid_table = *table;
                    table.current_page_size_bytes = page_cost_exec(&lines);
                    proof {
                        crate::tables::lemma_wf_ignores_pages(mid_table, *table);
                        let ghost old_pages = pages_g;
                        pages_g = pages_g.push(lines.deep_view());
                        assert(pages_g.drop_last() =~= old_pages);
                        assert(pages_g.last() == lines.deep_view());
                        assert(base + (pages_rows_data(arity, old_pages) + rows_data_of_lines(
                            arity,
                            lines.deep_view(),
                        )) =~= (base + pages_rows_data(arity, old_pages)) + rows_data_of_lines(
                            arity,
                            lines.deep_view(),
                        ));
                    }
                },
                Err(_) => {},
            }
            done = done + 1;
        }
        proof {
            assert(table_rows_data(table.rows.deep_view()) == table_rows_data(
                old(table).rows.deep_view(),
            ) + pages_rows_data(old(table).column_types@.len() as int, pages_g));
        }
    }

    /// Reads the optional index file and creates one index per definition
    /// line; a missing file simply means the table has no secondary
    /// indexes, and a bad definition is skipped while the rest still
    /// load.
    pub fn load_table_indexes<S: FileSystem>(
        &self,
        src: &mut S,
        dataspace: &String,
        table_name: &String,
        table: &mut Table,
    )
        requires
            old(table).wf(),
        ensures
            final(table).wf(),
            final(table).column_types == old(table).column_types,
            final(table).column_names == old(table).column_names,
            final(table).rows == old(table).rows,
            final(table).page_count == old(table).page_count,
            final(table).current_page_size_bytes == old(table).current_page_size_bytes,
    {
        let path = self.table_indexes_path(dataspace, table_name);
        let lines = match src.read_lines(&path) {
            Ok(l) => l,
            Err(_) => {
                return;
            },
        };
        let ghost types_vec = table.column_types;
        let ghost names_vec = table.column_names;
        let ghost rows_vec = table.rows;
        let ghost pc_g = table.page_count;
        let ghost cps_g = table.current_page_size_bytes;
        let n = lines.len();
        let mut i: usize = 0;
        while i < n
            invariant
                i <= n,
                n == lines@.len(),
                table.wf(),
                table.column_types == types_vec,
                table.column_names == names_vec,
                table.rows == rows_vec,
                table.page_count == pc_g,
                table.current_page_size_bytes == cps_g,
            decreases n - i,
        {
            let _ = self.load_table_index(lines[i].clone(), table);
            i = i + 1;
        }
    }

    /// Parses one index definition line — column names before a colon —
    /// and creates that index, filled from the table's existing rows. A
    /// definition naming an unknown column is rejected with
    /// `CorruptedIndex` and leaves the table unchanged.
    pub fn load_table_index(&self, index_data: String, table: &mut Table) -> (r: Result<
        (),
        DBMSError,
    >)
        requires
            old(table).wf(),
        ensures
            final(table).wf(),
            final(table).column_types == old(table).column_types,
            final(table).column_names == old(table).column_names,
            final(table).rows == old(table).rows,
            final(table).page_count == old(table).page_count,
            final(table).current_page_size_bytes == old(table).current_page_size_bytes,
            ({
                let cols = split_commas(index_data@.subrange(0, colon_at(index_data@, 0)));
                if cols_resolvable(old(table).names_v(), cols) {
                    r matches Ok(_) && final(table).indexes@.len() == old(table).indexes@.len() + 1
                        && final(table).indexes.deep_view().last().columns == cols
                } else {
                    (r matches Err(DBMSError::CorruptedIndex)) && final(table).indexes == old(
                        table,
                    ).indexes
                }
            }),
    {
        let prefix = colon_prefix(index_data.as_str());
        let columns = split_line(prefix.as_str());
        match table.add_index(columns) {
            Ok(_) => Ok(()),
            Err(_) => Err(DBMSError::CorruptedIndex),
        }
    }

    /// Inserts a row through the catalog and appends its encoded line to
    /// the target table's current data page, rolling to a new page when
    /// the size threshold would be exceeded. The catalog lookup fails
    /// fast as `insert_into_table` does; once the row is appended in
    /// memory, a store failure is reported but the row stays.
    pub fn insert_into_table_on_disk<S: FileSystem>(
        &mut self,
        src: &mut S,
        table_name: &String,
        dataspace_name: &String,
        fields: Vec<Vec<u8>>,
    ) -> (r: Result<Row, DBMSError>)
        requires
            old(self).wf(),
        ensures
            final(self).wf(),
            final(self).data_directory == old(self).data_directory,
            (match ds_pos(old(self).dataspaces@, dataspace_name@) {
                None => (r matches Err(DBMSError::DataSpaceDoesNotExist))
                    && catalog_same(old(self).dataspaces@, final(self).dataspaces@),
                Some(d) => ({
                    let pre_tables = old(self).dataspaces@[d].dataspace.tables@;
                    let post_tables = final(self).dataspaces@[d].dataspace.tables@;
                    match table_pos(pre_tables, table_name@) {
                        None => (r matches Err(DBMSError::TableDoesNotExist))
                            && catalog_same(old(self).dataspaces@, final(self).dataspaces@),
                        Some(j) => (if fields@.len() != pre_tables[j].table.column_types@.len() {
                            (r matches Err(DBMSError::TableError(
                                crate::tables::TableError::SchemaMismatch,
                            ))) && catalog_same(old(self).dataspaces@, final(self).dataspaces@)
                        } else {
                            ds_updated(old(self).dataspaces@, final(self).dataspaces@, d)
                                && (exists|row: RowV|
                                row_data(row) == fields.deep_view()
                                    && row_conforms(row, pre_tables[j].table.column_types@)
                                    && post_tables[j].table.rows.deep_view()
                                        == pre_tables[j].table.rows.deep_view().push(row))
                                && (r matches Ok(row) ==> (row_data(row@) == fields.deep_view()
                                    && row_conforms(row@, pre_tables[j].table.column_types@)
                                    && post_tables[j].table.rows.deep_view()
                                        == pre_tables[j].table.rows.deep_view().push(row@)))
                                && ((r matches Ok(_)) || (r matches Err(
                                DBMSError::FileReadError(_),
                            )))
                        }),
                    }
                }),
            }),
    {
        let d = match self.find_dataspace(dataspace_name) {
            Some(d) => d,
            None => {
                return Err(DBMSError::DataSpaceDoesNotExist);
            },
        };
        proof {
            lemma_ds_pos_found(self.dataspaces@, dataspace_name@);
        }
        let ghost old_spaces = self.dataspaces@;
        let mut entry = self.dataspaces.remove(d);
        let ghost pre_tables = entry.dataspace.tables@;
        let res = entry.dataspace.insert_into(table_name, fields);
        let ghost res_is_ok = res is Ok;
        let ghost row_v = res->Ok_0@;
        let out: Result<Row, DBMSError> = match res {
            Ok(row) => {
                proof {
                    let j = table_pos(pre_tables, table_name@)->Some_0;
                    lemma_table_pos_found(pre_tables, table_name@, j);
                    lemma_table_pos_same_names(pre_tables, entry.dataspace.tables@, table_name@, 0);
                }
                let line = encode_row_line(&row);
                let nbytes = line_cost_exec(&line);
                match entry.dataspace.record_row_write(table_name, nbytes) {
                    Ok(page) => {
                        let path = self.table_file_path(dataspace_name, table_name, page);
                        match src.append_line(&path, &line) {
                            Ok(_) => Ok(row),
                            Err(e) => Err(DBMSError::FileReadError(e)),
                        }
                    },
                    Err(e) => Err(e),
                }
            },
            Err(e) => Err(e),
        };
        self.dataspaces.insert(d, entry);
        proof {
            assert(self.dataspaces@ =~= old_spaces.update(d as int, self.dataspaces@[d as int]));
            assert(self.ds_names() =~= old(self).ds_names());
            assert forall|i: int| 0 <= i < self.dataspaces@.len() implies (
            #[trigger] self.dataspaces@[i]).dataspace.wf() by {
                if i != d {
                    assert(self.dataspaces@[i] == old(self).dataspaces@[i]);
                    assert(old(self).dataspaces@[i].dataspace.wf());
                }
            }
            if res_is_ok {
                let j = table_pos(pre_tables, table_name@)->Some_0;
                let post_tables = self.dataspaces@[d as int].dataspace.tables@;
                assert(row_data(row_v) == fields.deep_view() && row_conforms(
                    row_v,
                    pre_tables[j].table.column_types@,
                ) && post_tables[j].table.rows.deep_view()
                    == pre_tables[j].table.rows.deep_view().push(row_v));
                if out is Ok {
                    assert(out->Ok_0@ == row_v);
                }
            } else {
                assert(catalog_same(old(self).dataspaces@, self.dataspaces@));
            }
        }
        out
    }

    /// Writes the whole catalog back through the store: the info file,
    /// each dataspace's table list, and each table's data pages followed
    /// by its metadata page, so a metadata page never advertises more
    /// pages than were written. Writing stops at the first failure. A
    /// table with no columns has no on-disk form and is skipped.
    pub fn save_to_disk<S: FileSystem>(&self, src: &mut S) -> (r: Result<(), DBMSError>)
        requires
            self.wf(),
        ensures
            r matches Err(e) ==> (e matches DBMSError::FileReadError(_)),
    {
        let info = self.ds_name_lines();
        let info_path = self.info_file_path();
        match src.write_lines(&info_path, &info) {
            Ok(_) => {},
            Err(e) => {
                return Err(DBMSError::FileReadError(e));
            },
        }
        let nds = self.dataspaces.len();
        let mut d: usize = 0;
        while d < nds
            invariant
                d <= nds,
                nds == self.dataspaces@.len(),
                self.wf(),
            decreases nds - d,
        {
            let table_list = self.dataspaces[d].dataspace.table_name_lines();
            let list_path = self.dataspace_tables_path(&self.dataspaces[d].name);
            match src.write_lines(&list_path, &table_list) {
                Ok(_) => {},
                Err(e) => {
                    return Err(DBMSError::FileReadError(e));
                },
            }
            let nt = self.dataspaces[d].dataspace.tables.len();
            let mut t: usize = 0;
            while t < nt
                invariant
                    t <= nt,
                    d < self.dataspaces@.len(),
                    nt == self.dataspaces@[d as int].dataspace.tables@.len(),
                    self.wf(),
                decreases nt - t,
            {
                proof {
                    assert(self.dataspaces@[d as int].dataspace.wf());
                    assert(self.dataspaces@[d as int].dataspace.tables@[t as int].table.wf());
                }
                if self.dataspaces[d].dataspace.tables[t].table.column_types.len() >= 1 {
                    let r = self.save_table(
                        src,
                        &self.dataspaces[d].name,
                        &self.dataspaces[d].dataspace.tables[t].name,
                        &self.dataspaces[d].dataspace.tables[t].table,
                    );
                    match r {
                        Ok(_) => {},
                        Err(e) => {
                            return Err(e);
                        },
                    }
                }
                t = t + 1;
            }
            d = d + 1;
        }
        Ok(())
    }

    /// Writes one table: its rows re-encoded and partitioned into data
    /// pages, then its metadata page carrying the count of pages just
    /// written.
    pub fn save_table<S: FileSystem>(
        &self,
        src: &mut S,
        dataspace: &String,
        table_name: &String,
        table: &Table,
    ) -> (r: Result<(), DBMSError>)
        requires
            table.wf(),
            table.column_types@.len() >= 1,
        ensures
            r matches Err(e) ==> (e matches DBMSError::FileReadError(_)),
    {
        let ghost arity = table.column_types@.len() as int;
        proof {
            assert forall|i: int| 0 <= i < table.rows@.len() implies (
            #[trigger] table.rows.deep_view()[i]).fields.len() == arity by {
                assert(row_conforms(table.rows_v()[i], table.column_types@));
            }
        }
        let pages = rows_to_page_lines(&table.rows, Ghost(arity));
        let np = pages.len();
        let mut k: usize = 0;
        while k < np
            invariant
                k <= np,
                np == pages@.len(),
            decreases np - k,
        {
            let page_no = (k as u128) + 1;
            let path = self.table_file_path(dataspace, table_name, page_no);
            match src.write_lines(&path, &pages[k]) {
                Ok(_) => {},
                Err(e) => {
                    return Err(DBMSError::FileReadError(e));
                },
            }
            k = k + 1;
        }
        let meta = render_metadata_lines(np as u128, &table.column_types, &table.column_names);
        let meta_path = self.table_file_path(dataspace, table_name, 0);
        match src.write_lines(&meta_path, &meta) {
            Ok(_) => Ok(()),
            Err(e) => Err(DBMSError::FileReadError(e)),
        }
    }
}

} // verus!
