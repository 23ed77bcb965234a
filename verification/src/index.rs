//! Secondary indexes: a mapping from a tuple of column values to the rows
//! whose fields at the indexed columns equal that tuple. An index stores
//! row positions; its contents are pinned, entry by entry, to the spec
//! function `key_positions`, so lookups are exactly the matching rows.

use vstd::prelude::*;
use crate::fields::Field;
use crate::fields::FieldV;
use crate::rows::Row;
use crate::rows::RowV;

verus! {

/// Mathematical model of one index entry.
pub struct IndexEntryV {
    pub key: Seq<Seq<u8>>,
    pub row_positions: Seq<usize>,
}

/// One value tuple and the positions of the rows that carry it.
#[derive(Debug)]
pub struct IndexEntry {
    pub key: Vec<Vec<u8>>,
    pub row_positions: Vec<usize>,
}

impl View for IndexEntry {
    type V = IndexEntryV;

    open spec fn view(&self) -> IndexEntryV {
        IndexEntryV { key: self.key.deep_view(), row_positions: self.row_positions@ }
    }
}

impl DeepView for IndexEntry {
    type V = IndexEntryV;

    open spec fn deep_view(&self) -> IndexEntryV {
        self@
    }
}

/// Mathematical model of an index.
pub struct IndexV {
    pub columns: Seq<Seq<char>>,
    pub positions: Seq<usize>,
    pub entries: Seq<IndexEntryV>,
}

/// A non-unique secondary index over an ordered set of columns.
#[derive(Debug)]
pub struct Index {
    pub columns: Vec<String>,
    pub positions: Vec<usize>,
    pub entries: Vec<IndexEntry>,
}

impl View for Index {
    type V = IndexV;

    open spec fn view(&self) -> IndexV {
        IndexV {
            columns: self.columns.deep_view(),
            positions: self.positions@,
            entries: self.entries.deep_view(),
        }
    }
}

impl DeepView for Index {
    type V = IndexV;

    open spec fn deep_view(&self) -> IndexV {
        self@
    }
}

/// The field byte values of a row at the given column positions.
pub open spec fn project(fields: Seq<FieldV>, positions: Seq<usize>) -> Seq<Seq<u8>> {
    positions.map_values(|p: usize| fields[p as int].data)
}

pub open spec fn pos_ints(s: Seq<usize>) -> Seq<int> {
    s.map_values(|p: usize| p as int)
}

/// The positions, in insertion order, of the rows whose projection at
/// `positions` equals `key`.
pub open spec fn key_positions(rows: Seq<RowV>, positions: Seq<usize>, key: Seq<Seq<u8>>) -> Seq<
    int,
>
    decreases rows.len(),
{
    if rows.len() == 0 {
        Seq::empty()
    } else {
        let pre = key_positions(rows.drop_last(), positions, key);
        if project(rows.last().fields, positions) == key {
            pre.push(rows.len() - 1)
        } else {
            pre
        }
    }
}

/// The rows carrying `key` at the indexed columns, in insertion order.
pub open spec fn key_rows(rows: Seq<RowV>, positions: Seq<usize>, key: Seq<Seq<u8>>) -> Seq<RowV> {
    key_positions(rows, positions, key).map_values(|p: int| rows[p])
}

pub open spec fn has_entry_for(entries: Seq<IndexEntryV>, key: Seq<Seq<u8>>) -> bool {
    exists|e: int| 0 <= e < entries.len() && entries[e].key == key
}

/// Consistency of one index with the table's columns and rows: positions
/// name the indexed columns, entry keys are distinct, every entry lists
/// exactly the matching row positions, and every row is represented.
pub open spec fn index_wf(idx: IndexV, column_names: Seq<Seq<char>>, rows: Seq<RowV>) -> bool {
    &&& idx.positions.len() == idx.columns.len()
    &&& (forall|i: int|
        0 <= i < idx.positions.len() ==> (#[trigger] idx.positions[i]) < column_names.len()
            && column_names[idx.positions[i] as int] == idx.columns[i])
    &&& (forall|a: int, b: int|
        0 <= a < b < idx.entries.len() ==> (#[trigger] idx.entries[a]).key != (
        #[trigger] idx.entries[b]).key)
    &&& (forall|e: int|
        0 <= e < idx.entries.len() ==> pos_ints((#[trigger] idx.entries[e]).row_positions)
            == key_positions(rows, idx.positions, idx.entries[e].key))
    &&& (forall|p: int|
        0 <= p < rows.len() ==> has_entry_for(
            idx.entries,
            project((#[trigger] rows[p]).fields, idx.positions),
        ))
}

/// A key no row carries indexes no positions.
pub proof fn lemma_key_positions_empty(rows: Seq<RowV>, positions: Seq<usize>, key: Seq<Seq<u8>>)
    requires
        forall|p: int| 0 <= p < rows.len() ==> project((#[trigger] rows[p]).fields, positions) != key,
    ensures
        key_positions(rows, positions, key) == Seq::<int>::empty(),
    decreases rows.len(),
{
    if rows.len() > 0 {
        assert(rows.drop_last() =~= rows.subrange(0, rows.len() - 1));
        lemma_key_positions_empty(rows.drop_last(), positions, key);
    }
}

/// Indexed positions lie within the rows.
pub proof fn lemma_key_positions_range(rows: Seq<RowV>, positions: Seq<usize>, key: Seq<Seq<u8>>)
    ensures
        forall|k: int|
            0 <= k < key_positions(rows, positions, key).len() ==> 0 <= #[trigger] key_positions(
                rows,
                positions,
                key,
            )[k] < rows.len(),
    decreases rows.len(),
{
    if rows.len() > 0 {
        lemma_key_positions_range(rows.drop_last(), positions, key);
        let pre = key_positions(rows.drop_last(), positions, key);
        let cur = key_positions(rows, positions, key);
        assert forall|k: int| 0 <= k < cur.len() implies 0 <= #[trigger] cur[k] < rows.len() by {
            if k < pre.len() {
                assert(cur[k] == pre[k]);
                assert(0 <= pre[k] < rows.drop_last().len());
            }
        }
    }
}

/// Appending a row extends exactly the positions of its own key.
pub proof fn lemma_key_positions_push(
    rows: Seq<RowV>,
    positions: Seq<usize>,
    key: Seq<Seq<u8>>,
    r: RowV,
)
    ensures
        key_positions(rows.push(r), positions, key) == (if project(r.fields, positions) == key {
            key_positions(rows, positions, key).push(rows.len() as int)
        } else {
            key_positions(rows, positions, key)
        }),
{
    assert(rows.push(r).drop_last() =~= rows);
    assert(rows.push(r).last() == r);
}

fn bytes_equal(a: &Vec<u8>, b: &Vec<u8>) -> (r: bool)
    ensures
        r == (a@ == b@),
{
    if a.len() != b.len() {
        return false;
    }
    let n = a.len();
    let mut i: usize = 0;
    while i < n
        invariant
            i <= n,
            n == a@.len(),
            n == b@.len(),
            forall|j: int| 0 <= j < i ==> a@[j] == b@[j],
        decreases n - i,
    {
        if a[i] != b[i] {
            return false;
        }
        i = i + 1;
    }
    proof {
        assert(a@ =~= b@);
    }
    true
}

fn key_equal(a: &Vec<Vec<u8>>, b: &Vec<Vec<u8>>) -> (r: bool)
    ensures
        r == (a.deep_view() == b.deep_view()),
{
    if a.len() != b.len() {
        proof {
            assert(a.deep_view().len() == a@.len());
            assert(b.deep_view().len() == b@.len());
        }
        return false;
    }
    let n = a.len();
    let mut i: usize = 0;
    while i < n
        invariant
            i <= n,
            n == a@.len(),
            n == b@.len(),
            forall|j: int| 0 <= j < i ==> a.deep_view()[j] == b.deep_view()[j],
        decreases n - i,
    {
        if !bytes_equal(&a[i], &b[i]) {
            proof {
                assert(a.deep_view()[i as int] == a@[i as int]@);
                assert(b.deep_view()[i as int] == b@[i as int]@);
            }
            return false;
        }
        proof {
            assert(a.deep_view()[i as int] == a@[i as int]@);
            assert(b.deep_view()[i as int] == b@[i as int]@);
        }
        i = i + 1;
    }
    proof {
        assert(a.deep_view() =~= b.deep_view());
    }
    true
}

/// Whether two column-name lists are the same names in the same order.
pub fn names_equal(a: &Vec<String>, b: &Vec<String>) -> (r: bool)
    ensures
        r == (a.deep_view() == b.deep_view()),
{
    if a.len() != b.len() {
        proof {
            assert(a.deep_view().len() == a@.len());
            assert(b.deep_view().len() == b@.len());
        }
        return false;
    }
    let n = a.len();
    let mut i: usize = 0;
    while i < n
        invariant
            i <= n,
            n == a@.len(),
            n == b@.len(),
            forall|j: int| 0 <= j < i ==> a.deep_view()[j] == b.deep_view()[j],
        decreases n - i,
    {
        if !(a[i] == b[i]) {
            proof {
                assert(a.deep_view()[i as int] == a@[i as int]@);
                assert(b.deep_view()[i as int] == b@[i as int]@);
            }
            return false;
        }
        proof {
            assert(a.deep_view()[i as int] == a@[i as int]@);
            assert(b.deep_view()[i as int] == b@[i as int]@);
        }
        i = i + 1;
    }
    proof {
        assert(a.deep_view() =~= b.deep_view());
    }
    true
}

/// The field byte values of a row at the given positions.
pub fn project_fields(fields: &Vec<Field>, positions: &Vec<usize>) -> (r: Vec<Vec<u8>>)
    requires
        forall|i: int| 0 <= i < positions@.len() ==> (#[trigger] positions@[i]) < fields@.len(),
    ensures
        r.deep_view() == project(fields.deep_view(), positions@),
{
    let mut r: Vec<Vec<u8>> = Vec::new();
    let n = positions.len();
    let mut i: usize = 0;
    while i < n
        invariant
            i <= n,
            n == positions@.len(),
            forall|k: int| 0 <= k < positions@.len() ==> (#[trigger] positions@[k]) < fields@.len(),
            r.deep_view() =~= project(fields.deep_view(), positions@.subrange(0, i as int)),
        decreases n - i,
    {
        let p = positions[i];
        let data = fields[p].data.clone();
        let ghost old_r = r.deep_view();
        proof {
            assert(data@ =~= fields@[p as int].data@);
            assert(data.deep_view() =~= data@);
            assert(fields.deep_view()[p as int] == fields@[p as int]@);
        }
        r.push(data);
        proof {
            assert(r.deep_view() =~= old_r.push(fields.deep_view()[p as int].data));
            assert(old_r.push(fields.deep_view()[p as int].data) =~= project(
                fields.deep_view(),
                positions@.subrange(0, i + 1),
            ));
        }
        i = i + 1;
    }
    proof {
        assert(positions@.subrange(0, n as int) =~= positions@);
    }
    r
}

/// The position of the first entry carrying `key`, if any.
pub(crate) fn find_entry(entries: &Vec<IndexEntry>, key: &Vec<Vec<u8>>) -> (r: Option<usize>)
    ensures
        r matches Some(j) ==> j < entries@.len() && entries.deep_view()[j as int].key
            == key.deep_view(),
        r is None ==> forall|j: int|
            0 <= j < entries@.len() ==> (#[trigger] entries.deep_view()[j]).key != key.deep_view(),
{
    let n = entries.len();
    let mut i: usize = 0;
    while i < n
        invariant
            i <= n,
            n == entries@.len(),
            forall|j: int|
                0 <= j < i ==> (#[trigger] entries.deep_view()[j]).key != key.deep_view(),
        decreases n - i,
    {
        if key_equal(&entries[i].key, key) {
            proof {
                assert(entries.deep_view()[i as int] == entries@[i as int]@);
            }
            return Some(i);
        }
        proof {
            assert(entries.deep_view()[i as int] == entries@[i as int]@);
        }
        i = i + 1;
    }
    None
}

/// Registers the row just appended at position `newpos` in the index.
pub fn index_add_row(
    idx: Index,
    row: &Row,
    newpos: usize,
    Ghost(column_names): Ghost<Seq<Seq<char>>>,
    Ghost(rows_pre): Ghost<Seq<RowV>>,
) -> (r: Index)
    requires
        index_wf(idx@, column_names, rows_pre),
        newpos == rows_pre.len(),
        forall|i: int| 0 <= i < idx.positions@.len() ==> (#[trigger] idx.positions@[i])
            < row.fields@.len(),
    ensures
        index_wf(r@, column_names, rows_pre.push(row@)),
        r@.columns == idx@.columns,
        r@.positions == idx@.positions,
{
    let ghost rows_post = rows_pre.push(row@);
    let ghost positions = idx.positions@;
    let key = project_fields(&row.fields, &idx.positions);
    let ghost projkey = project(row@.fields, positions);
    proof {
        assert(row.fields.deep_view() =~= row@.fields);
        assert(key.deep_view() == projkey);
        assert forall|k: Seq<Seq<u8>>|
            key_positions(rows_post, positions, k) == (if projkey == k {
                key_positions(rows_pre, positions, k).push(rows_pre.len() as int)
            } else {
                key_positions(rows_pre, positions, k)
            }) by {
            lemma_key_positions_push(rows_pre, positions, k, row@);
        }
    }
    let ghost old_idx = idx@;
    let mut idx = idx;
    let ghost old_entries = idx.entries.deep_view();
    proof {
        assert(index_wf(old_idx, column_names, rows_pre));
        assert(old_idx.entries == old_entries);
    }
    match find_entry(&idx.entries, &key) {
        Some(j) => {
            let mut e = idx.entries.remove(j);
            let ghost old_poss = e.row_positions@;
            e.row_positions.push(newpos);
            proof {
                assert(pos_ints(e.row_positions@) =~= pos_ints(old_poss).push(newpos as int));
            }
            idx.entries.insert(j, e);
            proof {
                assert(idx.entries.deep_view() =~= old_entries.update(
                    j as int,
                    IndexEntryV {
                        key: old_entries[j as int].key,
                        row_positions: old_poss.push(newpos),
                    },
                ));
                let new_entries = idx.entries.deep_view();
                assert(old_entries[j as int].key == projkey);
                assert forall|e2: int| 0 <= e2 < new_entries.len() implies pos_ints(
                    (#[trigger] new_entries[e2]).row_positions,
                ) == key_positions(rows_post, positions, new_entries[e2].key) by {
                    if e2 == j {
                        assert(new_entries[e2].key == projkey);
                        assert(pos_ints(old_entries[j as int].row_positions) == key_positions(
                            rows_pre,
                            positions,
                            projkey,
                        ));
                    } else {
                        assert(new_entries[e2] == old_entries[e2]);
                        if e2 < j {
                            assert(old_idx.entries[e2].key != old_idx.entries[j as int].key);
                        } else {
                            assert(old_idx.entries[j as int].key != old_idx.entries[e2].key);
                        }
                        assert(new_entries[e2].key != projkey);
                        assert(pos_ints(old_entries[e2].row_positions) == key_positions(
                            rows_pre,
                            positions,
                            old_entries[e2].key,
                        ));
                    }
                }
                assert forall|p: int| 0 <= p < rows_post.len() implies has_entry_for(
                    new_entries,
                    project((#[trigger] rows_post[p]).fields, positions),
                ) by {
                    if p < rows_pre.len() {
                        assert(rows_post[p] == rows_pre[p]);
                        let w = choose|e2: int|
                            0 <= e2 < old_entries.len() && old_entries[e2].key == project(
                                rows_pre[p].fields,
                                positions,
                            );
                        assert(new_entries[w].key == old_entries[w].key);
                    } else {
                        assert(rows_post[p] == row@);
                        assert(new_entries[j as int].key == projkey);
                    }
                }
            }
        },
        None => {
            proof {
                assert forall|p: int| 0 <= p < rows_pre.len() implies project(
                    (#[trigger] rows_pre[p]).fields,
                    positions,
                ) != projkey by {
                    if project(rows_pre[p].fields, positions) == projkey {
                        let w = choose|e2: int|
                            0 <= e2 < old_entries.len() && old_entries[e2].key == project(
                                rows_pre[p].fields,
                                positions,
                            );
                        assert(old_entries[w].key == projkey);
                    }
                }
                lemma_key_positions_empty(rows_pre, positions, projkey);
            }
            let mut poss: Vec<usize> = Vec::new();
            poss.push(newpos);
            proof {
                assert(pos_ints(poss@) =~= Seq::<int>::empty().push(newpos as int));
            }
            let entry = IndexEntry { key, row_positions: poss };
            let ghost entry_v = entry@;
            idx.entries.push(entry);
            proof {
                assert(idx.entries.deep_view() =~= old_entries.push(entry_v));
                let new_entries = idx.entries.deep_view();
                assert forall|e2: int| 0 <= e2 < new_entries.len() implies pos_ints(
                    (#[trigger] new_entries[e2]).row_positions,
                ) == key_positions(rows_post, positions, new_entries[e2].key) by {
                    if e2 < old_entries.len() {
                        assert(new_entries[e2] == old_entries[e2]);
                        assert(new_entries[e2].key != projkey);
                    } else {
                        assert(new_entries[e2] == entry_v);
                        assert(key_positions(rows_post, positions, projkey) =~= Seq::<
                            int,
                        >::empty().push(rows_pre.len() as int));
                    }
                }
                assert forall|p: int| 0 <= p < rows_post.len() implies has_entry_for(
                    new_entries,
                    project((#[trigger] rows_post[p]).fields, positions),
                ) by {
                    if p < rows_pre.len() {
                        assert(rows_post[p] == rows_pre[p]);
                        let w = choose|e2: int|
                            0 <= e2 < old_entries.len() && old_entries[e2].key == project(
                                rows_pre[p].fields,
                                positions,
                            );
                        assert(new_entries[w].key == old_entries[w].key);
                    } else {
                        assert(rows_post[p] == row@);
                        assert(new_entries[old_entries.len() as int].key == projkey);
                    }
                }
            }
        },
    }
    idx
}

/// The first matching index at or after position `from`.
pub open spec fn find_index_spec_from(indexes: Seq<IndexV>, cols: Seq<Seq<char>>, from: int) -> Option<int>
    decreases indexes.len() - from,
{
    if from < 0 || from >= indexes.len() {
        None
    } else if indexes[from].columns == cols {
        Some(from)
    } else {
        find_index_spec_from(indexes, cols, from + 1)
    }
}

/// The first index over exactly the given columns, if any.
pub open spec fn find_index_spec(indexes: Seq<IndexV>, cols: Seq<Seq<char>>) -> Option<int> {
    find_index_spec_from(indexes, cols, 0)
}

/// Finds the first index over exactly the given columns.
pub fn find_index(indexes: &Vec<Index>, cols: &Vec<String>) -> (r: Option<usize>)
    ensures
        r matches Some(i) ==> find_index_spec(indexes.deep_view(), cols.deep_view()) == Some(
            i as int,
        ) && i < indexes@.len(),
        r is None ==> find_index_spec(indexes.deep_view(), cols.deep_view()) is None,
{
    let n = indexes.len();
    let mut i: usize = 0;
    while i < n
        invariant
            i <= n,
            n == indexes@.len(),
            find_index_spec(indexes.deep_view(), cols.deep_view())
                == find_index_spec_from(indexes.deep_view(), cols.deep_view(), i as int),
        decreases n - i,
    {
        proof {
            assert(indexes.deep_view()[i as int] == indexes@[i as int]@);
        }
        if names_equal(&indexes[i].columns, cols) {
            return Some(i);
        }
        i = i + 1;
    }
    None
}

} // verus!
