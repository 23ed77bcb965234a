//! Tables: an ordered schema (column types and names), the materialized
//! rows, secondary indexes, and page bookkeeping. Insertion enforces the
//! schema and maintains every index.

use vstd::prelude::*;
use vstd::string::StrSliceExecFns;
use vstd::string::StringExecFns;
use crate::codec::decode_line;
use crate::codec::decode_line_spec;
use crate::dbms::DBMSError;
use crate::fields::Field;
use crate::fields::FieldType;
use crate::fields::FieldV;
use crate::fields::field_type_of_name;
use crate::fields::name_of_field_type;
use crate::index::Index;
use crate::index::IndexV;
use crate::index::find_index;
use crate::index::find_index_spec;
use crate::index::find_entry;
use crate::index::index_add_row;
use crate::index::index_wf;
use crate::index::key_positions;
use crate::index::key_rows;
use crate::index::lemma_key_positions_empty;
use crate::index::lemma_key_positions_range;
use crate::index::pos_ints;
use crate::index::project;
use crate::rows::Row;
use crate::rows::RowV;
use crate::strutil::all_dec_digits;
use crate::strutil::dec_chars;
use crate::strutil::dec_val;
use crate::strutil::join_commas;
use crate::strutil::join_line;
use crate::strutil::lemma_dec_chars_val;
use crate::strutil::lemma_split_join;
use crate::strutil::no_comma;
use crate::strutil::parse_u128;
use crate::strutil::is_space;
use crate::strutil::lemma_trim_identity;
use crate::strutil::split_commas;
use crate::strutil::split_line;
use crate::strutil::trim;
use crate::strutil::trim_spec;
use crate::strutil::u128_to_string;

verus! {

/// How an insertion or a schema parse can fail.
#[derive(Debug)]
pub enum TableError {
    /// The row's shape does not match the table's schema.
    SchemaMismatch,
    /// The carried metadata token denotes no known field type.
    UnknownFieldType(String),
}

/// One table: schema, rows, indexes and page bookkeeping.
#[derive(Debug)]
pub struct Table {
    pub column_types: Vec<FieldType>,
    pub column_names: Vec<String>,
    pub indexes: Vec<Index>,
    pub rows: Vec<Row>,
    /// How many page files exist on disk; 0 when the metadata page has not
    /// yet been created.
    pub page_count: u128,
    /// Bytes written to the currently open data page.
    pub current_page_size_bytes: u64,
}

/// The field byte values of a row, in order.
pub open spec fn row_data(r: RowV) -> Seq<Seq<u8>> {
    r.fields.map_values(|f: FieldV| f.data)
}

/// Whether a row has one field per column, each of the column's type.
pub open spec fn row_conforms(r: RowV, types: Seq<FieldType>) -> bool {
    &&& r.fields.len() == types.len()
    &&& forall|i: int| 0 <= i < types.len() ==> (#[trigger] r.fields[i]).field_type == types[i]
}

/// Whether the names are pairwise different.
pub open spec fn names_distinct(names: Seq<Seq<char>>) -> bool {
    forall|i: int, j: int| 0 <= i < j < names.len() ==> names[i] != names[j]
}

impl Table {
    pub open spec fn rows_v(&self) -> Seq<RowV> {
        self.rows.deep_view()
    }

    pub open spec fn names_v(&self) -> Seq<Seq<char>> {
        self.column_names.deep_view()
    }

    /// The table invariant: parallel schema lists, unique column names,
    /// every row conforming to the schema, every index consistent.
    pub open spec fn wf(&self) -> bool {
        &&& self.column_types@.len() == self.column_names@.len()
        &&& names_distinct(self.names_v())
        &&& (forall|i: int|
            0 <= i < self.rows_v().len() ==> row_conforms(
                #[trigger] self.rows_v()[i],
                self.column_types@,
            ))
        &&& (forall|i: int|
            0 <= i < self.indexes@.len() ==> index_wf(
                #[trigger] self.indexes.deep_view()[i],
                self.names_v(),
                self.rows_v(),
            ))
    }

    /// A fresh or disk-sourced table with no rows yet.
    pub fn new(column_types: Vec<FieldType>, column_names: Vec<String>, page_count: u128) -> (t:
        Table)
        requires
            column_types@.len() == column_names@.len(),
            names_distinct(column_names.deep_view()),
        ensures
            t.wf(),
            t.column_types == column_types,
            t.column_names == column_names,
            t.page_count == page_count,
            t.rows@.len() == 0,
            t.indexes@.len() == 0,
            t.current_page_size_bytes == 0,
    {
        Table {
            column_types,
            column_names,
            indexes: Vec::new(),
            rows: Vec::new(),
            page_count,
            current_page_size_bytes: 0,
        }
    }

    /// Appends a row built from the given field byte values, or rejects it
    /// without any change when its shape does not match the schema. Every
    /// index is updated with the new row before returning.
    pub fn insert(&mut self, fields: Vec<Vec<u8>>) -> (r: Result<Row, TableError>)
        requires
            old(self).wf(),
        ensures
            final(self).wf(),
            final(self).column_types == old(self).column_types,
            final(self).column_names == old(self).column_names,
            final(self).page_count == old(self).page_count,
            final(self).current_page_size_bytes == old(self).current_page_size_bytes,
            fields@.len() != old(self).column_types@.len() ==> (r matches Err(
                TableError::SchemaMismatch,
            ) && *final(self) == *old(self)),
            fields@.len() == old(self).column_types@.len() ==> (r matches Ok(row) && {
                &&& row_conforms(row@, old(self).column_types@)
                &&& row_data(row@) == fields.deep_view()
                &&& row@.id.len() == 36
                &&& final(self).rows.deep_view() == old(self).rows.deep_view().push(row@)
                &&& final(self).indexes@.len() == old(self).indexes@.len()
                &&& (forall|i: int|
                    0 <= i < old(self).indexes@.len()
                        ==> (#[trigger] final(self).indexes.deep_view()[i]).columns
                            == old(self).indexes.deep_view()[i].columns
                        && final(self).indexes.deep_view()[i].positions
                            == old(self).indexes.deep_view()[i].positions)
            }),
    {
        if fields.len() != self.column_types.len() {
            return Err(TableError::SchemaMismatch);
        }
        let n = fields.len();
        let mut row_fields: Vec<Field> = Vec::new();
        let mut i: usize = 0;
        while i < n
            invariant
                i <= n,
                n == fields@.len(),
                n == self.column_types@.len(),
                row_fields.deep_view().len() == i,
                forall|k: int|
                    0 <= k < i ==> (#[trigger] row_fields.deep_view()[k]).field_type
                        == self.column_types@[k] && row_fields.deep_view()[k].data
                        == fields.deep_view()[k],
            decreases n - i,
        {
            let data = fields[i].clone();
            proof {
                assert(data@ =~= fields@[i as int]@);
                assert(fields.deep_view()[i as int] == fields@[i as int]@);
            }
            let f = Field::new(self.column_types[i], data);
            let ghost old_rf = row_fields.deep_view();
            row_fields.push(f);
            proof {
                assert(row_fields.deep_view() =~= old_rf.push(f@));
            }
            i = i + 1;
        }
        let row = Row::new(row_fields);
        let ghost rows_pre = self.rows.deep_view();
        let ghost names = self.column_names.deep_view();
        let newpos = self.rows.len();
        let row_copy = row.clone();
        self.rows.push(row);
        let ghost row_v = row_copy@;
        proof {
            assert(self.rows.deep_view() =~= rows_pre.push(row_v));
            assert(row_conforms(row_v, self.column_types@));
            assert(row_data(row_v) =~= fields.deep_view());
        }
        let ghost old_indexes = self.indexes.deep_view();
        let ghost rows_post = self.rows.deep_view();
        let ghost types_vec = self.column_types;
        let ghost names_vec = self.column_names;
        let ghost pc_g = self.page_count;
        let ghost cps_g = self.current_page_size_bytes;
        let mut updated: Vec<Index> = Vec::new();
        proof {
            assert(self.indexes.deep_view() =~= old_indexes.subrange(0, old_indexes.len() as int));
        }
        while self.indexes.len() > 0
            invariant
                self.column_types == types_vec,
                self.column_names == names_vec,
                self.column_names.deep_view() == names,
                self.rows.deep_view() == rows_post,
                self.page_count == pc_g,
                self.current_page_size_bytes == cps_g,
                updated@.len() + self.indexes@.len() == old_indexes.len(),
                self.indexes.deep_view() =~= old_indexes.subrange(
                    updated@.len() as int,
                    old_indexes.len() as int,
                ),
                forall|k: int|
                    0 <= k < old_indexes.len() ==> index_wf(
                        #[trigger] old_indexes[k],
                        names,
                        rows_pre,
                    ),
                forall|k: int|
                    0 <= k < updated@.len() ==> index_wf(
                        #[trigger] updated.deep_view()[k],
                        names,
                        rows_post,
                    ) && updated.deep_view()[k].columns == old_indexes[k].columns
                        && updated.deep_view()[k].positions == old_indexes[k].positions,
                newpos == rows_pre.len(),
                rows_post == rows_pre.push(row_v),
                row_copy@ == row_v,
                row_v.fields.len() == names.len(),
            decreases self.indexes@.len(),
        {
            let ghost done = updated@.len() as int;
            let ghost pre_deep = self.indexes.deep_view();
            let ghost pre_vec = self.indexes@;
            proof {
                assert(pre_deep[0] == old_indexes[done]);
                assert(pre_deep[0] == pre_vec[0]@);
                assert(row_copy.fields@.len() == row_copy@.fields.len());
            }
            let idx = self.indexes.remove(0);
            let idx2 = index_add_row(idx, &row_copy, newpos, Ghost(names), Ghost(rows_pre));
            let ghost old_updated = updated.deep_view();
            updated.push(idx2);
            proof {
                assert(updated.deep_view() =~= old_updated.push(idx2@));
                assert forall|m: int| 0 <= m < self.indexes@.len() implies #[trigger] self
                    .indexes.deep_view()[m] == old_indexes[done + 1 + m] by {
                    assert(self.indexes@[m] == pre_vec[m + 1]);
                    assert(self.indexes.deep_view()[m] == self.indexes@[m]@);
                    assert(pre_deep[m + 1] == pre_vec[m + 1]@);
                }
                assert(self.indexes.deep_view() =~= old_indexes.subrange(
                    done + 1,
                    old_indexes.len() as int,
                ));
            }
        }
        self.indexes = updated;
        proof {
            assert(self.rows.deep_view() == rows_post);
            assert(self.column_types@ == old(self).column_types@);
            assert forall|k: int| 0 <= k < self.rows_v().len() implies row_conforms(
                #[trigger] self.rows_v()[k],
                self.column_types@,
            ) by {
                if k < rows_pre.len() {
                    assert(rows_post[k] == rows_pre[k]);
                    assert(rows_pre[k] == old(self).rows_v()[k]);
                    assert(row_conforms(old(self).rows_v()[k], old(self).column_types@));
                } else {
                    assert(rows_post[k] == row_v);
                }
            }
        }
        Ok(row_copy)
    }

    /// The first row carrying the identifier, scanning in insertion order.
    pub fn select_by_rowid(&self, id: String) -> (r: Option<Row>)
        ensures
            r matches Some(row) ==> select_spec(self.rows.deep_view(), id@) == Some(row@),
            r is None ==> select_spec(self.rows.deep_view(), id@) is None,
    {
        let n = self.rows.len();
        let mut i: usize = 0;
        proof {
            assert(self.rows.deep_view().subrange(0, n as int) =~= self.rows.deep_view());
        }
        while i < n
            invariant
                i <= n,
                n == self.rows@.len(),
                select_spec(self.rows.deep_view(), id@) == select_spec(
                    self.rows.deep_view().subrange(i as int, n as int),
                    id@,
                ),
            decreases n - i,
        {
            let ghost suff = self.rows.deep_view().subrange(i as int, n as int);
            proof {
                assert(suff[0] == self.rows.deep_view()[i as int]);
                assert(self.rows.deep_view()[i as int] == self.rows@[i as int]@);
            }
            if self.rows[i].id == id {
                let row = self.rows[i].clone();
                return Some(row);
            }
            proof {
                assert(suff.drop_first() =~= self.rows.deep_view().subrange(i + 1, n as int));
            }
            i = i + 1;
        }
        proof {
            assert(self.rows.deep_view().subrange(n as int, n as int) =~= Seq::<RowV>::empty());
        }
        None
    }

    /// Parses a comma-delimited list of metadata type names, each token
    /// trimmed of surrounding white space; an unrecognized token is
    /// returned in the error.
    pub fn parse_field_types(field_type_string: String) -> (r: Result<Vec<FieldType>, TableError>)
        ensures
            r matches Ok(v) ==> parse_types_spec(field_type_string@) == Some(v@),
            r matches Err(e) ==> (parse_types_spec(field_type_string@) is None && (
            e matches TableError::UnknownFieldType(tok) && tok@ == first_unknown_type(
                split_commas(field_type_string@),
                0,
            ))),
    {
        let parts = split_line(field_type_string.as_str());
        let ghost sparts = split_commas(field_type_string@);
        let mut out: Vec<FieldType> = Vec::new();
        let n = parts.len();
        let mut i: usize = 0;
        while i < n
            invariant
                i <= n,
                n == parts@.len(),
                sparts == split_commas(field_type_string@),
                parts.deep_view() == sparts,
                forall|j: int|
                    0 <= j < i ==> field_type_of_name(trim_spec(#[trigger] sparts[j])) is Some,
                first_unknown_type(sparts, 0) == first_unknown_type(sparts, i as int),
                out@.len() == i,
                forall|j: int|
                    0 <= j < i ==> #[trigger] out@[j] == field_type_of_name(
                        trim_spec(sparts[j]),
                    )->Some_0,
            decreases n - i,
        {
            proof {
                assert(parts@[i as int]@ == parts.deep_view()[i as int]);
            }
            let token = trim(parts[i].as_str());
            match FieldType::from_str(token.as_str()) {
                Ok(t) => {
                    out.push(t);
                },
                Err(_) => {
                    proof {
                        assert(field_type_of_name(trim_spec(sparts[i as int])) is None);
                        assert(first_unknown_type(sparts, i as int) == trim_spec(
                            sparts[i as int],
                        ));
                        assert(!(forall|j: int|
                            0 <= j < split_commas(field_type_string@).len()
                                ==> field_type_of_name(
                                trim_spec(#[trigger] split_commas(field_type_string@)[j]),
                            ) is Some)) by {
                            assert(split_commas(field_type_string@)[i as int]
                                == sparts[i as int]);
                        }
                    }
                    return Err(TableError::UnknownFieldType(token));
                },
            }
            i = i + 1;
        }
        proof {
            assert(out@ =~= sparts.map_values(
                |p: Seq<char>| field_type_of_name(trim_spec(p))->Some_0,
            ));
        }
        Ok(out)
    }

    /// The rows whose fields at the named columns equal the key tuple,
    /// through the first index over exactly those columns; `None` when no
    /// such index is maintained.
    pub fn lookup_index(&self, column_names: &Vec<String>, key: &Vec<Vec<u8>>) -> (r: Option<
        Vec<Row>,
    >)
        requires
            self.wf(),
        ensures
            (match find_index_spec(self.indexes.deep_view(), column_names.deep_view()) {
                Some(i) => r matches Some(out) && out.deep_view() == key_rows(
                    self.rows.deep_view(),
                    self.indexes.deep_view()[i].positions,
                    key.deep_view(),
                ),
                None => r is None,
            }),
    {
        let ghost rows_v = self.rows.deep_view();
        let i = match find_index(&self.indexes, column_names) {
            Some(i) => i,
            None => {
                return None;
            },
        };
        let idx = &self.indexes[i];
        let ghost idx_v = self.indexes.deep_view()[i as int];
        proof {
            assert(idx_v == self.indexes@[i as int]@);
            assert(index_wf(idx_v, self.names_v(), rows_v));
        }
        let mut out: Vec<Row> = Vec::new();
        match find_entry(&idx.entries, key) {
            None => {
                proof {
                    assert forall|p: int| 0 <= p < rows_v.len() implies project(
                        (#[trigger] rows_v[p]).fields,
                        idx_v.positions,
                    ) != key.deep_view() by {
                        if project(rows_v[p].fields, idx_v.positions) == key.deep_view() {
                            let w = choose|e: int|
                                0 <= e < idx_v.entries.len() && idx_v.entries[e].key == project(
                                    rows_v[p].fields,
                                    idx_v.positions,
                                );
                            assert(idx_v.entries[w].key == key.deep_view());
                        }
                    }
                    lemma_key_positions_empty(rows_v, idx_v.positions, key.deep_view());
                    assert(out.deep_view() =~= key_rows(rows_v, idx_v.positions, key.deep_view()));
                }
                Some(out)
            },
            Some(j) => {
                let entry = &idx.entries[j];
                let ghost entry_v = idx_v.entries[j as int];
                proof {
                    assert(entry_v == idx.entries@[j as int]@);
                    assert(pos_ints(entry_v.row_positions) == key_positions(
                        rows_v,
                        idx_v.positions,
                        entry_v.key,
                    ));
                    lemma_key_positions_range(rows_v, idx_v.positions, key.deep_view());
                }
                let m = entry.row_positions.len();
                let mut k: usize = 0;
                while k < m
                    invariant
                        k <= m,
                        m == entry.row_positions@.len(),
                        entry_v == entry@,
                        rows_v == self.rows.deep_view(),
                        pos_ints(entry_v.row_positions) == key_positions(
                            rows_v,
                            idx_v.positions,
                            key.deep_view(),
                        ),
                        forall|q: int|
                            0 <= q < key_positions(rows_v, idx_v.positions, key.deep_view()).len()
                                ==> 0 <= #[trigger] key_positions(
                                rows_v,
                                idx_v.positions,
                                key.deep_view(),
                            )[q] < rows_v.len(),
                        out.deep_view().len() == k,
                        forall|q: int|
                            0 <= q < k ==> #[trigger] out.deep_view()[q] == rows_v[key_positions(
                                rows_v,
                                idx_v.positions,
                                key.deep_view(),
                            )[q]],
                    decreases m - k,
                {
                    let p = entry.row_positions[k];
                    proof {
                        assert(pos_ints(entry_v.row_positions)[k as int] == p as int);
                        assert(0 <= p < rows_v.len());
                        assert(rows_v[p as int] == self.rows@[p as int]@);
                    }
                    let ghost old_out = out.deep_view();
                    out.push(self.rows[p].clone());
                    proof {
                        assert(out.deep_view() =~= old_out.push(rows_v[p as int]));
                    }
                    k = k + 1;
                }
                proof {
                    assert(out.deep_view() =~= key_rows(rows_v, idx_v.positions, key.deep_view()));
                }
                Some(out)
            },
        }
    }
}

/// Whether a name occurs among the column names.
pub open spec fn name_in(names: Seq<Seq<char>>, name: Seq<char>) -> bool {
    exists|p: int| 0 <= p < names.len() && names[p] == name
}

/// Whether every asked-for column occurs among the table's columns.
pub open spec fn cols_resolvable(names: Seq<Seq<char>>, cols: Seq<Seq<char>>) -> bool {
    forall|i: int| 0 <= i < cols.len() ==> name_in(names, #[trigger] cols[i])
}

/// Finds the first column with the given name.
fn find_name(names: &Vec<String>, target: &String) -> (r: Option<usize>)
    ensures
        r matches Some(p) ==> p < names@.len() && names.deep_view()[p as int] == target@,
        r is None ==> forall|p: int| 0 <= p < names@.len() ==> names.deep_view()[p] != target@,
{
    let n = names.len();
    let mut i: usize = 0;
    while i < n
        invariant
            i <= n,
            n == names@.len(),
            forall|p: int| 0 <= p < i ==> names.deep_view()[p] != target@,
        decreases n - i,
    {
        proof {
            assert(names.deep_view()[i as int] == names@[i as int]@);
        }
        if names[i] == *target {
            return Some(i);
        }
        i = i + 1;
    }
    None
}

/// Resolves column names to their positions in the schema.
fn resolve_positions(names: &Vec<String>, columns: &Vec<String>) -> (r: Option<Vec<usize>>)
    ensures
        r matches Some(ps) ==> (ps@.len() == columns@.len() && forall|i: int|
            0 <= i < ps@.len() ==> (#[trigger] ps@[i]) < names@.len()
                && names.deep_view()[ps@[i] as int] == columns.deep_view()[i]),
        r is None ==> !cols_resolvable(names.deep_view(), columns.deep_view()),
{
    let n = columns.len();
    let mut ps: Vec<usize> = Vec::new();
    let mut i: usize = 0;
    while i < n
        invariant
            i <= n,
            n == columns@.len(),
            ps@.len() == i,
            forall|k: int|
                0 <= k < i ==> (#[trigger] ps@[k]) < names@.len()
                    && names.deep_view()[ps@[k] as int] == columns.deep_view()[k],
        decreases n - i,
    {
        proof {
            assert(columns.deep_view()[i as int] == columns@[i as int]@);
        }
        match find_name(names, &columns[i]) {
            Some(p) => {
                ps.push(p);
            },
            None => {
                proof {
                    assert(!name_in(names.deep_view(), columns.deep_view()[i as int])) by {
                        assert(forall|p: int|
                            0 <= p < names.deep_view().len() ==> names.deep_view()[p]
                                != columns.deep_view()[i as int]);
                    }
                }
                return None;
            },
        }
        i = i + 1;
    }
    Some(ps)
}

/// Whether the column names are pairwise different.
pub fn names_unique(names: &Vec<String>) -> (r: bool)
    ensures
        r == names_distinct(names.deep_view()),
{
    let n = names.len();
    let mut i: usize = 0;
    while i < n
        invariant
            i <= n,
            n == names@.len(),
            forall|a: int, b: int| 0 <= a < b < i ==> names.deep_view()[a] != names.deep_view()[b],
        decreases n - i,
    {
        let mut j: usize = 0;
        while j < i
            invariant
                j <= i,
                i < n,
                n == names@.len(),
                forall|a: int| 0 <= a < j ==> names.deep_view()[a] != names.deep_view()[i as int],
            decreases i - j,
        {
            proof {
                assert(names.deep_view()[j as int] == names@[j as int]@);
                assert(names.deep_view()[i as int] == names@[i as int]@);
            }
            if names[j] == names[i] {
                proof {
                    assert(names.deep_view()[j as int] == names.deep_view()[i as int]);
                }
                return false;
            }
            j = j + 1;
        }
        i = i + 1;
    }
    true
}

impl Table {
    /// Creates a secondary index over the named columns and fills it from
    /// the existing rows; fails without change when a name is not one of
    /// the table's columns.
    pub fn add_index(&mut self, columns: Vec<String>) -> (r: Result<(), ()>)
        requires
            old(self).wf(),
        ensures
            final(self).wf(),
            final(self).column_types == old(self).column_types,
            final(self).column_names == old(self).column_names,
            final(self).rows == old(self).rows,
            final(self).page_count == old(self).page_count,
            final(self).current_page_size_bytes == old(self).current_page_size_bytes,
            r matches Ok(_) ==> (cols_resolvable(old(self).names_v(), columns.deep_view())
                && final(self).indexes@.len() == old(self).indexes@.len() + 1
                && final(self).indexes.deep_view().last().columns == columns.deep_view()
                && (forall|i: int|
                0 <= i < old(self).indexes@.len() ==> #[trigger] final(self).indexes.deep_view()[i]
                    == old(self).indexes.deep_view()[i])),
            r is Err ==> (*final(self) == *old(self) && !cols_resolvable(
                old(self).names_v(),
                columns.deep_view(),
            )),
    {
        let positions = match resolve_positions(&self.column_names, &columns) {
            Some(ps) => ps,
            None => {
                return Err(());
            },
        };
        let ghost cols_v = columns.deep_view();
        let ghost ps_v = positions@;
        let ghost names = self.column_names.deep_view();
        let ghost types = self.column_types@;
        let ghost rows_v = self.rows.deep_view();
        let mut idx = Index { columns, positions, entries: Vec::new() };
        proof {
            assert(idx.entries.deep_view() =~= Seq::<crate::index::IndexEntryV>::empty());
            assert(rows_v.subrange(0, 0) =~= Seq::<RowV>::empty());
            assert(index_wf(idx@, names, rows_v.subrange(0, 0)));
        }
        let nrows = self.rows.len();
        let mut p: usize = 0;
        while p < nrows
            invariant
                p <= nrows,
                nrows == self.rows@.len(),
                self.wf(),
                names == self.column_names.deep_view(),
                types == self.column_types@,
                rows_v == self.rows.deep_view(),
                index_wf(idx@, names, rows_v.subrange(0, p as int)),
                idx@.columns == cols_v,
                idx@.positions == ps_v,
            decreases nrows - p,
        {
            proof {
                assert(rows_v[p as int] == self.rows@[p as int]@);
                assert(rows_v[p as int] == self.rows_v()[p as int]);
                assert(row_conforms(self.rows_v()[p as int], self.column_types@));
                assert(row_conforms(rows_v[p as int], types));
                assert(self.rows@[p as int].fields@.len() == rows_v[p as int].fields.len());
                assert forall|m: int| 0 <= m < idx.positions@.len() implies (
                #[trigger] idx.positions@[m]) < self.rows@[p as int].fields@.len() by {
                    assert(idx@.positions[m] < names.len());
                }
            }
            let row_ref = &self.rows[p];
            idx = index_add_row(
                idx,
                row_ref,
                p,
                Ghost(names),
                Ghost(rows_v.subrange(0, p as int)),
            );
            proof {
                assert(rows_v.subrange(0, p as int).push(rows_v[p as int]) =~= rows_v.subrange(
                    0,
                    p + 1,
                ));
            }
            p = p + 1;
        }
        proof {
            assert(rows_v.subrange(0, nrows as int) =~= rows_v);
        }
        let ghost idx_v = idx@;
        let ghost old_idxs = self.indexes.deep_view();
        self.indexes.push(idx);
        proof {
            assert(self.indexes.deep_view() =~= old_idxs.push(idx_v));
            assert forall|i: int| 0 <= i < self.indexes@.len() implies index_wf(
                #[trigger] self.indexes.deep_view()[i],
                self.names_v(),
                self.rows_v(),
            ) by {
                if i < old_idxs.len() {
                    assert(self.indexes.deep_view()[i] == old_idxs[i]);
                    assert(index_wf(old(self).indexes.deep_view()[i], names, rows_v));
                }
            }
            assert(names.len() == self.column_names@.len());
            assert forall|i: int| 0 <= i < cols_v.len() implies name_in(
                names,
                #[trigger] cols_v[i],
            ) by {
                let w = ps_v[i] as int;
                assert(0 <= w < names.len());
                assert(names[w] == cols_v[i]);
            }
            assert(cols_resolvable(names, cols_v));
            assert(self.column_types@.len() == self.column_names@.len());
            assert(names_distinct(self.names_v()));
            assert(self.rows == old(self).rows);
            assert forall|i: int| 0 <= i < self.rows_v().len() implies row_conforms(
                #[trigger] self.rows_v()[i],
                self.column_types@,
            ) by {
                assert(self.rows_v()[i] == old(self).rows_v()[i]);
                assert(row_conforms(old(self).rows_v()[i], old(self).column_types@));
                assert(self.column_types@ == old(self).column_types@);
            }
            assert(self.wf());
            assert(self.indexes@.len() == old(self).indexes@.len() + 1);
            assert(self.indexes.deep_view().last() == idx_v);
            assert(idx_v.columns == cols_v);
            assert(forall|i: int|
                0 <= i < old(self).indexes@.len() ==> #[trigger] self.indexes.deep_view()[i]
                    == old(self).indexes.deep_view()[i]);
        }
        Ok(())
    }
}

/// The first row with the given identifier, in insertion order.
pub open spec fn select_spec(rows: Seq<RowV>, id: Seq<char>) -> Option<RowV>
    decreases rows.len(),
{
    if rows.len() == 0 {
        None
    } else if rows[0].id == id {
        Some(rows[0])
    } else {
        select_spec(rows.drop_first(), id)
    }
}

/// The field types a comma-delimited metadata type line denotes, each
/// token trimmed of surrounding white space; `None` when any token is
/// unrecognized.
pub open spec fn parse_types_spec(s: Seq<char>) -> Option<Seq<FieldType>> {
    let parts = split_commas(s);
    if forall|i: int|
        0 <= i < parts.len() ==> field_type_of_name(trim_spec(#[trigger] parts[i])) is Some {
        Some(parts.map_values(|p: Seq<char>| field_type_of_name(trim_spec(p))->Some_0))
    } else {
        None
    }
}

/// The first trimmed token at or after `from` that names no known field
/// type; empty when every token is recognized.
pub open spec fn first_unknown_type(parts: Seq<Seq<char>>, from: int) -> Seq<char>
    decreases parts.len() - from,
{
    if from < 0 || from >= parts.len() {
        Seq::empty()
    } else if field_type_of_name(trim_spec(parts[from])) is None {
        trim_spec(parts[from])
    } else {
        first_unknown_type(parts, from + 1)
    }
}

/// Bytes a data page may hold before insertion rolls to a new page.
pub const PAGE_SIZE_LIMIT: u64 = 4096;

/// The schema read off a metadata page.
pub struct SchemaV {
    pub page_count: u128,
    pub types: Seq<FieldType>,
    pub names: Seq<Seq<char>>,
}

/// What a metadata page (line 1: page count, line 2: type names, line 3:
/// column names) denotes, or the reason it is rejected.
pub open spec fn metadata_parse(lines: Seq<Seq<char>>) -> Result<SchemaV, Seq<char>> {
    if lines.len() < 1 {
        Err("Missing page count."@)
    } else if !(lines[0].len() >= 1 && all_dec_digits(lines[0]) && dec_val(lines[0])
        <= u128::MAX) {
        Err("Invalid page count."@)
    } else if lines.len() < 2 {
        Err("Missing field type data"@)
    } else if parse_types_spec(lines[1]) is None {
        Err("Invalid field type: "@ + first_unknown_type(split_commas(lines[1]), 0))
    } else if lines.len() < 3 {
        Err("Missing field name data"@)
    } else if split_commas(lines[2]).len() != parse_types_spec(lines[1])->Some_0.len() {
        Err("Column name count mismatch"@)
    } else if !names_distinct(split_commas(lines[2])) {
        Err("Duplicate column name"@)
    } else {
        Ok(
            SchemaV {
                page_count: dec_val(lines[0]) as u128,
                types: parse_types_spec(lines[1])->Some_0,
                names: split_commas(lines[2]),
            },
        )
    }
}

/// The three lines of a table's metadata page.
pub open spec fn metadata_lines_spec(pc: u128, types: Seq<FieldType>, names: Seq<Seq<char>>) -> Seq<
    Seq<char>,
> {
    seq![
        dec_chars(pc as nat),
        join_commas(types.map_values(|t: FieldType| name_of_field_type(t))),
        join_commas(names),
    ]
}

/// The field byte values of the rows that load from a page's lines, in
/// order: a line that does not decode, or whose field count does not match
/// the schema, is skipped.
pub open spec fn rows_data_of_lines(arity: int, lines: Seq<Seq<char>>) -> Seq<Seq<Seq<u8>>>
    decreases lines.len(),
{
    if lines.len() == 0 {
        Seq::empty()
    } else {
        let pre = rows_data_of_lines(arity, lines.drop_last());
        match decode_line_spec(lines.last()) {
            Some(f) => if f.len() == arity {
                pre.push(f)
            } else {
                pre
            },
            None => pre,
        }
    }
}

/// The field byte values of all rows, in order.
pub open spec fn table_rows_data(rows: Seq<RowV>) -> Seq<Seq<Seq<u8>>> {
    rows.map_values(|r: RowV| row_data(r))
}

/// The row data that loads from a sequence of data pages, in page order.
pub open spec fn pages_rows_data(arity: int, pages: Seq<Seq<Seq<char>>>) -> Seq<Seq<Seq<u8>>>
    decreases pages.len(),
{
    if pages.len() == 0 {
        Seq::empty()
    } else {
        pages_rows_data(arity, pages.drop_last()) + rows_data_of_lines(arity, pages.last())
    }
}

/// Whether a table is what loading the given metadata page and data pages
/// produces: the schema the metadata page denotes, and exactly the row
/// data of the pages (row identifiers are freshly drawn on every load).
pub open spec fn loaded_from(t: Table, mlines: Seq<Seq<char>>, pages: Seq<Seq<Seq<char>>>) -> bool {
    &&& (metadata_parse(mlines) matches Ok(s) && t.page_count == s.page_count && t.column_types@
        == s.types && t.column_names.deep_view() == s.names && table_rows_data(t.rows.deep_view())
        == pages_rows_data(s.types.len() as int, pages))
}

/// Loading the same on-disk table twice yields the same schema and the
/// same row data; only the freshly drawn row identifiers differ.
pub proof fn lemma_load_idempotent(
    t1: Table,
    t2: Table,
    mlines: Seq<Seq<char>>,
    pages: Seq<Seq<Seq<char>>>,
)
    requires
        loaded_from(t1, mlines, pages),
        loaded_from(t2, mlines, pages),
    ensures
        t1.page_count == t2.page_count,
        t1.column_types@ == t2.column_types@,
        t1.column_names.deep_view() == t2.column_names.deep_view(),
        table_rows_data(t1.rows.deep_view()) == table_rows_data(t2.rows.deep_view()),
{
}

impl Table {
    /// Builds a table from its metadata page: line 1 the page count, line
    /// 2 the comma-delimited type names, line 3 the comma-delimited column
    /// names. A malformed page is rejected with the reason.
    pub fn from_metadata_lines(lines: &Vec<String>) -> (r: Result<Table, DBMSError>)
        ensures
            r matches Ok(t) ==> (metadata_parse(lines.deep_view()) matches Ok(s) && t.wf()
                && t.page_count == s.page_count && t.column_types@ == s.types
                && t.column_names.deep_view() == s.names && t.rows@.len() == 0
                && t.indexes@.len() == 0 && t.current_page_size_bytes == 0),
            r matches Err(e) ==> (metadata_parse(lines.deep_view()) matches Err(m) && (
            e matches DBMSError::TableLoadError(msg) && msg@ == m)),
    {
        if lines.len() < 1 {
            return Err(DBMSError::TableLoadError("Missing page count.".to_owned()));
        }
        proof {
            assert(lines.deep_view()[0] == lines@[0]@);
        }
        let page_count = match parse_u128(lines[0].as_str()) {
            Some(v) => v,
            None => {
                return Err(DBMSError::TableLoadError("Invalid page count.".to_owned()));
            },
        };
        if lines.len() < 2 {
            return Err(DBMSError::TableLoadError("Missing field type data".to_owned()));
        }
        proof {
            assert(lines.deep_view()[1] == lines@[1]@);
        }
        let types = match Table::parse_field_types(lines[1].clone()) {
            Ok(ts) => ts,
            Err(TableError::UnknownFieldType(tok)) => {
                let mut msg = "Invalid field type: ".to_owned();
                msg.append(tok.as_str());
                return Err(DBMSError::TableLoadError(msg));
            },
            Err(_) => {
                return Err(DBMSError::TableLoadError("Invalid field type: ".to_owned()));
            },
        };
        if lines.len() < 3 {
            return Err(DBMSError::TableLoadError("Missing field name data".to_owned()));
        }
        proof {
            assert(lines.deep_view()[2] == lines@[2]@);
        }
        let names = split_line(lines[2].as_str());
        if names.len() != types.len() {
            return Err(DBMSError::TableLoadError("Column name count mismatch".to_owned()));
        }
        if !names_unique(&names) {
            return Err(DBMSError::TableLoadError("Duplicate column name".to_owned()));
        }
        Ok(Table::new(types, names, page_count))
    }

    /// The three lines of this table's metadata page.
    pub fn metadata_lines(&self) -> (r: Vec<String>)
        ensures
            r.deep_view() == metadata_lines_spec(
                self.page_count,
                self.column_types@,
                self.column_names.deep_view(),
            ),
    {
        render_metadata_lines(self.page_count, &self.column_types, &self.column_names)
    }

    /// Decodes each line of a data page and inserts the rows that conform
    /// to the schema; a line that does not decode, or whose field count
    /// does not match, is skipped and loading continues.
    pub fn load_page_lines(&mut self, lines: &Vec<String>)
        requires
            old(self).wf(),
        ensures
            final(self).wf(),
            final(self).column_types == old(self).column_types,
            final(self).column_names == old(self).column_names,
            final(self).page_count == old(self).page_count,
            final(self).current_page_size_bytes == old(self).current_page_size_bytes,
            final(self).indexes@.len() == old(self).indexes@.len(),
            table_rows_data(final(self).rows.deep_view()) == table_rows_data(
                old(self).rows.deep_view(),
            ) + rows_data_of_lines(old(self).column_types@.len() as int, lines.deep_view()),
    {
        let ghost arity = self.column_types@.len() as int;
        let ghost base = table_rows_data(self.rows.deep_view());
        let ghost types_vec = self.column_types;
        let ghost names_vec = self.column_names;
        let ghost pc_g = self.page_count;
        let ghost cps_g = self.current_page_size_bytes;
        let ghost nidx = self.indexes@.len();
        let n = lines.len();
        let mut i: usize = 0;
        proof {
            assert(rows_data_of_lines(arity, lines.deep_view().subrange(0, 0)) =~= Seq::<
                Seq<Seq<u8>>,
            >::empty());
            assert(base + rows_data_of_lines(arity, lines.deep_view().subrange(0, 0)) =~= base);
        }
        while i < n
            invariant
                i <= n,
                n == lines@.len(),
                self.wf(),
                self.column_types == types_vec,
                self.column_names == names_vec,
                self.page_count == pc_g,
                self.current_page_size_bytes == cps_g,
                self.indexes@.len() == nidx,
                arity == self.column_types@.len() as int,
                table_rows_data(self.rows.deep_view()) == base + rows_data_of_lines(
                    arity,
                    lines.deep_view().subrange(0, i as int),
                ),
            decreases n - i,
        {
            let ghost pre_lines = lines.deep_view().subrange(0, i as int);
            let ghost ext_lines = lines.deep_view().subrange(0, i + 1);
            proof {
                assert(ext_lines.drop_last() =~= pre_lines);
                assert(ext_lines.last() == lines.deep_view()[i as int]);
                assert(lines.deep_view()[i as int] == lines@[i as int]@);
            }
            match decode_line(lines[i].as_str()) {
                Some(fields) => {
                    let ghost fields_v = fields.deep_view();
                    let ghost rows_pre = self.rows.deep_view();
                    let res = self.insert(fields);
                    proof {
                        if fields_v.len() == arity {
                            let row_v = res->Ok_0@;
                            assert(table_rows_data(self.rows.deep_view()) =~= table_rows_data(
                                rows_pre,
                            ).push(row_data(row_v)));
                            assert(base + rows_data_of_lines(arity, pre_lines).push(fields_v)
                                =~= (base + rows_data_of_lines(arity, pre_lines)).push(fields_v));
                        }
                    }
                },
                None => {},
            }
            i = i + 1;
        }
        proof {
            assert(lines.deep_view().subrange(0, n as int) =~= lines.deep_view());
        }
    }

    /// Accounts for one encoded row line of `line_bytes` bytes appended to
    /// the table's current page: when the page is not yet open or the line
    /// would push it over `PAGE_SIZE_LIMIT`, the table rolls to a new page
    /// first. Returns the page the line belongs on.
    pub fn record_page_write(&mut self, line_bytes: u64) -> (page: u128)
        ensures
            page_rolled(*old(self), *final(self), line_bytes, page),
    {
        if self.page_count == 0 {
            self.page_count = 1;
            self.current_page_size_bytes = line_bytes;
            return 1;
        }
        let exceeds = line_bytes > PAGE_SIZE_LIMIT || self.current_page_size_bytes
            > PAGE_SIZE_LIMIT - line_bytes;
        if exceeds && self.page_count < u128::MAX {
            self.page_count = self.page_count + 1;
            self.current_page_size_bytes = line_bytes;
            self.page_count
        } else {
            self.current_page_size_bytes = if self.current_page_size_bytes > u64::MAX
                - line_bytes {
                u64::MAX
            } else {
                self.current_page_size_bytes + line_bytes
            };
            self.page_count
        }
    }
}

/// How page bookkeeping changes when one line of `line_bytes` bytes is
/// appended: an unopened table opens page 1; a page that would overflow
/// `PAGE_SIZE_LIMIT` is closed and a new one opened; otherwise the line
/// is accounted to the current page, saturating at the counters' limits.
pub open spec fn page_rolled(pre: Table, post: Table, line_bytes: u64, page: u128) -> bool {
    &&& post.column_types == pre.column_types
    &&& post.column_names == pre.column_names
    &&& post.rows == pre.rows
    &&& post.indexes == pre.indexes
    &&& (if pre.page_count == 0 {
        post.page_count == 1 && post.current_page_size_bytes == line_bytes && page == 1
    } else if pre.current_page_size_bytes + line_bytes > PAGE_SIZE_LIMIT && pre.page_count
        < u128::MAX {
        post.page_count == pre.page_count + 1 && post.current_page_size_bytes == line_bytes
            && page == post.page_count
    } else {
        post.page_count == pre.page_count && page == pre.page_count
            && post.current_page_size_bytes == (if pre.current_page_size_bytes + line_bytes
            <= u64::MAX {
            pre.current_page_size_bytes + line_bytes
        } else {
            u64::MAX as int
        })
    })
}

/// Renders a metadata page: the page count, the type names and the column
/// names.
pub fn render_metadata_lines(
    page_count: u128,
    column_types: &Vec<FieldType>,
    column_names: &Vec<String>,
) -> (r: Vec<String>)
    ensures
        r.deep_view() == metadata_lines_spec(
            page_count,
            column_types@,
            column_names.deep_view(),
        ),
{
    let mut r: Vec<String> = Vec::new();
    r.push(u128_to_string(page_count));
    let mut type_names: Vec<String> = Vec::new();
    let n = column_types.len();
    let mut i: usize = 0;
    while i < n
        invariant
            i <= n,
            n == column_types@.len(),
            type_names.deep_view() =~= column_types@.subrange(0, i as int).map_values(
                |t: FieldType| name_of_field_type(t),
            ),
        decreases n - i,
    {
        let ghost old_tn = type_names.deep_view();
        type_names.push(column_types[i].name().to_owned());
        proof {
            assert(type_names.deep_view() =~= old_tn.push(
                name_of_field_type(column_types@[i as int]),
            ));
            assert(old_tn.push(name_of_field_type(column_types@[i as int]))
                =~= column_types@.subrange(0, i + 1).map_values(
                |t: FieldType| name_of_field_type(t),
            ));
        }
        i = i + 1;
    }
    proof {
        assert(column_types@.subrange(0, n as int) =~= column_types@);
    }
    r.push(join_line(&type_names));
    r.push(join_line(column_names));
    proof {
        assert(r.deep_view() =~= metadata_lines_spec(
            page_count,
            column_types@,
            column_names.deep_view(),
        ));
    }
    r
}

/// Well-formedness does not depend on the page bookkeeping fields.
pub proof fn lemma_wf_ignores_pages(a: Table, b: Table)
    requires
        a.wf(),
        b.column_types == a.column_types,
        b.column_names == a.column_names,
        b.rows == a.rows,
        b.indexes == a.indexes,
    ensures
        b.wf(),
{
    assert(names_distinct(b.names_v())) by {
        assert(b.names_v() == a.names_v());
    }
    assert forall|i: int| 0 <= i < b.rows_v().len() implies row_conforms(
        #[trigger] b.rows_v()[i],
        b.column_types@,
    ) by {
        assert(b.rows_v() == a.rows_v());
        assert(row_conforms(a.rows_v()[i], a.column_types@));
    }
    assert forall|i: int| 0 <= i < b.indexes@.len() implies index_wf(
        #[trigger] b.indexes.deep_view()[i],
        b.names_v(),
        b.rows_v(),
    ) by {
        assert(b.indexes.deep_view() == a.indexes.deep_view());
        assert(index_wf(a.indexes.deep_view()[i], a.names_v(), a.rows_v()));
    }
}

/// A table's metadata page parses back to exactly the schema it was
/// written from, for any table with at least one column and comma-free,
/// pairwise distinct column names.
pub proof fn lemma_metadata_roundtrip(pc: u128, types: Seq<FieldType>, names: Seq<Seq<char>>)
    requires
        types.len() == names.len(),
        types.len() >= 1,
        names_distinct(names),
        forall|i: int| 0 <= i < names.len() ==> no_comma(#[trigger] names[i]),
    ensures
        metadata_parse(metadata_lines_spec(pc, types, names)) == Ok::<SchemaV, Seq<char>>(
            SchemaV { page_count: pc, types, names },
        ),
{
    let lines = metadata_lines_spec(pc, types, names);
    lemma_dec_chars_val(pc as nat);
    assert(lines[0] == dec_chars(pc as nat));
    let tnames = types.map_values(|t: FieldType| name_of_field_type(t));
    assert forall|i: int| 0 <= i < tnames.len() implies no_comma(#[trigger] tnames[i]) by {
        lemma_type_name_no_comma(types[i]);
    }
    lemma_split_join(tnames);
    assert(lines[1] == join_commas(tnames));
    assert forall|i: int|
        0 <= i < split_commas(lines[1]).len() implies field_type_of_name(
        trim_spec(#[trigger] split_commas(lines[1])[i]),
    ) is Some by {
        assert(split_commas(lines[1])[i] == tnames[i]);
        lemma_type_name_untrimmed(types[i]);
        lemma_type_name_parses(types[i]);
    }
    assert(parse_types_spec(lines[1]) is Some);
    assert forall|i: int|
        0 <= i < types.len() implies #[trigger] parse_types_spec(lines[1])->Some_0[i]
        == types[i] by {
        lemma_type_name_untrimmed(types[i]);
        lemma_type_name_parses(types[i]);
    }
    assert(parse_types_spec(lines[1])->Some_0 =~= types);
    lemma_split_join(names);
    assert(lines[2] == join_commas(names));
    assert(split_commas(lines[2]) == names);
}

/// Saving and reloading restores a table: for any well-formed table with
/// at least one column and comma-free names, a table loaded back from the
/// rendered metadata page and from data pages holding exactly the saved
/// row data agrees with the original on schema and row data.
pub proof fn lemma_save_load_roundtrip(t: Table, pages: Seq<Seq<Seq<char>>>, t2: Table)
    requires
        t.wf(),
        t.column_types@.len() >= 1,
        forall|i: int|
            0 <= i < t.column_names.deep_view().len() ==> no_comma(
                #[trigger] t.column_names.deep_view()[i],
            ),
        pages_rows_data(t.column_types@.len() as int, pages) == table_rows_data(
            t.rows.deep_view(),
        ),
        loaded_from(
            t2,
            metadata_lines_spec(
                pages.len() as u128,
                t.column_types@,
                t.column_names.deep_view(),
            ),
            pages,
        ),
    ensures
        t2.column_types@ == t.column_types@,
        t2.column_names.deep_view() == t.column_names.deep_view(),
        t2.page_count == pages.len() as u128,
        table_rows_data(t2.rows.deep_view()) == table_rows_data(t.rows.deep_view()),
{
    lemma_metadata_roundtrip(
        pages.len() as u128,
        t.column_types@,
        t.column_names.deep_view(),
    );
}

/// Metadata type names hold no comma.
proof fn lemma_type_name_no_comma(t: FieldType)
    ensures
        no_comma(name_of_field_type(t)),
{
    reveal_strlit("String");
    reveal_strlit("Integer");
    match t {
        FieldType::String => {
            assert(name_of_field_type(t) == "String"@);
            assert forall|i: int|
                0 <= i < "String"@.len() implies #[trigger] "String"@[i] != ',' by {
                assert("String"@.len() == 6);
            }
        },
        FieldType::Integer => {
            assert(name_of_field_type(t) == "Integer"@);
            assert forall|i: int|
                0 <= i < "Integer"@.len() implies #[trigger] "Integer"@[i] != ',' by {
                assert("Integer"@.len() == 7);
            }
        },
    }
}

/// Metadata type names hold no white space, so trimming keeps them.
proof fn lemma_type_name_untrimmed(t: FieldType)
    ensures
        trim_spec(name_of_field_type(t)) == name_of_field_type(t),
{
    reveal_strlit("String");
    reveal_strlit("Integer");
    match t {
        FieldType::String => {
            assert forall|i: int|
                0 <= i < "String"@.len() implies !is_space(#[trigger] "String"@[i]) by {
                assert("String"@.len() == 6);
            }
            lemma_trim_identity("String"@);
        },
        FieldType::Integer => {
            assert forall|i: int|
                0 <= i < "Integer"@.len() implies !is_space(#[trigger] "Integer"@[i]) by {
                assert("Integer"@.len() == 7);
            }
            lemma_trim_identity("Integer"@);
        },
    }
}

/// Metadata type names parse back to the type they were written from.
proof fn lemma_type_name_parses(t: FieldType)
    ensures
        field_type_of_name(name_of_field_type(t)) == Some(t),
{
    reveal_strlit("String");
    reveal_strlit("Integer");
    assert("String"@.len() != "Integer"@.len());
}

/// Inserting a row and selecting its identifier finds that row, provided
/// no earlier row carries the same identifier.
pub proof fn lemma_insert_then_select(rows: Seq<RowV>, r: RowV)
    requires
        forall|i: int| 0 <= i < rows.len() ==> (#[trigger] rows[i]).id != r.id,
    ensures
        select_spec(rows.push(r), r.id) == Some(r),
    decreases rows.len(),
{
    if rows.len() == 0 {
        assert(rows.push(r)[0] == r);
    } else {
        assert(rows.push(r)[0] == rows[0]);
        assert(forall|i: int|
            0 <= i < rows.drop_first().len() ==> (#[trigger] rows.drop_first()[i]).id != r.id);
        lemma_insert_then_select(rows.drop_first(), r);
        assert(rows.push(r).drop_first() =~= rows.drop_first().push(r));
    }
}

} // verus!

