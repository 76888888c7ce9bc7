//! Rows and the tables that hold them.

use vstd::prelude::*;
use vstd::string::*;

use crate::engine::catalog;
use crate::engine::index::{IndexData, IndexV};
use crate::engine::types::{duplicate_all, Duplicate, Val, Value};
use crate::model;
use crate::names;
use crate::names::NameMap;

verus! {

broadcast use crate::model::group_views;

/// A row: its number within the table and its values.
#[derive(Debug)]
pub struct Row {
    pub id: u64,
    pub values: Vec<Value>,
}

/// What a `Row` stands for.
#[verifier::ext_equal]
pub struct RowV {
    pub id: u64,
    pub values: Seq<Val>,
}

impl View for Row {
    type V = RowV;

    open spec fn view(&self) -> RowV {
        RowV { id: self.id, values: model::views(self.values@) }
    }
}

impl Duplicate for Row {
    fn duplicate(&self) -> (r: Self) {
        Row { id: self.id, values: duplicate_all(self.values.as_slice()) }
    }
}

impl Clone for Row {
    fn clone(&self) -> (r: Self)
        ensures
            r@ == self@,
    {
        self.duplicate()
    }
}

// ---------------------------------------------------------------------------
// The rows of one table
// ---------------------------------------------------------------------------

/// The rows are in ascending order of their numbers, and no number occurs twice.
pub open spec fn sorted(rows: Seq<RowV>) -> bool {
    forall|i: int, j: int|
        0 <= i < j < rows.len() ==> (#[trigger] rows[i]).id < (#[trigger] rows[j]).id
}

/// How many of the rows, counted from the front, come before a number.
pub open spec fn place(rows: Seq<RowV>, id: u64) -> int
    decreases rows.len(),
{
    if rows.len() == 0 || rows.last().id < id {
        rows.len() as int
    } else {
        place(rows.drop_last(), id)
    }
}

pub open spec fn has_row(rows: Seq<RowV>, id: u64) -> bool {
    place(rows, id) < rows.len() && rows[place(rows, id)].id == id
}

/// The row of a number.
pub open spec fn row_at(rows: Seq<RowV>, id: u64) -> Option<RowV> {
    if has_row(rows, id) {
        Some(rows[place(rows, id)])
    } else {
        None
    }
}

/// The rows with one more, in place of any of the same number.
pub open spec fn row_put(rows: Seq<RowV>, row: RowV) -> Seq<RowV> {
    if has_row(rows, row.id) {
        rows.update(place(rows, row.id), row)
    } else {
        rows.insert(place(rows, row.id), row)
    }
}

/// The rows without the one of a number.
pub open spec fn row_removed(rows: Seq<RowV>, id: u64) -> Seq<RowV> {
    if has_row(rows, id) {
        rows.remove(place(rows, id))
    } else {
        rows
    }
}

/// The rows in which the one of a number has other values.
pub open spec fn row_changed(rows: Seq<RowV>, id: u64, values: Seq<Val>) -> Seq<RowV> {
    if has_row(rows, id) {
        rows.update(place(rows, id), RowV { id, values })
    } else {
        rows
    }
}

pub proof fn lemma_place_is(rows: Seq<RowV>, id: u64, p: int)
    requires
        0 <= p <= rows.len(),
        forall|i: int| 0 <= i < p ==> (#[trigger] rows[i]).id < id,
        forall|i: int| p <= i < rows.len() ==> (#[trigger] rows[i]).id >= id,
    ensures
        place(rows, id) == p,
    decreases rows.len(),
{
    if p < rows.len() {
        assert(rows.last() == rows[rows.len() - 1]);
        lemma_place_is(rows.drop_last(), id, p);
    } else if rows.len() > 0 {
        assert(rows.last() == rows[rows.len() - 1]);
    }
}

pub proof fn lemma_place(rows: Seq<RowV>, id: u64)
    requires
        sorted(rows),
    ensures
        0 <= place(rows, id) <= rows.len(),
        forall|i: int| 0 <= i < place(rows, id) ==> (#[trigger] rows[i]).id < id,
        forall|i: int| place(rows, id) <= i < rows.len() ==> (#[trigger] rows[i]).id >= id,
    decreases rows.len(),
{
    if rows.len() > 0 {
        assert(rows.last() == rows[rows.len() - 1]);
        if rows.last().id >= id {
            assert(sorted(rows.drop_last()));
            lemma_place(rows.drop_last(), id);
            assert forall|i: int| 0 <= i < place(rows, id) implies (#[trigger] rows[i]).id < id by {
                assert(rows.drop_last()[i] == rows[i]);
            }
            assert forall|i: int| place(rows, id) <= i < rows.len() implies (#[trigger] rows[i]).id
                >= id by {
                if i < rows.len() - 1 {
                    assert(rows.drop_last()[i] == rows[i]);
                }
            }
        }
    }
}

/// Putting, removing and changing rows keep the order.
pub proof fn row_operations_keep_order(rows: Seq<RowV>, row: RowV)
    requires
        sorted(rows),
    ensures
        sorted(row_put(rows, row)),
        sorted(row_removed(rows, row.id)),
        sorted(row_changed(rows, row.id, row.values)),
{
    lemma_place(rows, row.id);
    let p = place(rows, row.id);
    let put = row_put(rows, row);
    assert forall|i: int, j: int| 0 <= i < j < put.len() implies (#[trigger] put[i]).id < (
    #[trigger] put[j]).id by {
        if has_row(rows, row.id) {
            if i != p {
                assert(put[i] == rows[i]);
            }
            if j != p {
                assert(put[j] == rows[j]);
            }
        } else {
            if i < p {
                assert(put[i] == rows[i]);
            } else if i > p {
                assert(put[i] == rows[i - 1]);
            }
            if j < p {
                assert(put[j] == rows[j]);
            } else if j > p {
                assert(put[j] == rows[j - 1]);
            }
            if i == p {
                assert(rows[j - 1].id >= row.id);
                assert(rows[p].id >= row.id && rows[p].id != row.id);
            }
        }
    }
}

/// A row that was put is found again, and the others as before.
pub proof fn put_row_is_found(rows: Seq<RowV>, row: RowV, id: u64)
    requires
        sorted(rows),
    ensures
        row_at(row_put(rows, row), id) == (if id == row.id {
            Some(row)
        } else {
            row_at(rows, id)
        }),
{
    row_operations_keep_order(rows, row);
    lemma_found_iff(rows, id);
    lemma_found_iff(row_put(rows, row), id);
    lemma_place(rows, row.id);
    lemma_place(rows, id);
    let p = place(rows, row.id);
    let put = row_put(rows, row);
    assert(put[p] == row);
    if id == row.id {
        lemma_found(put, p);
    } else {
        match row_at(rows, id) {
            Some(r) => {
                let q = place(rows, id);
                let moved = if has_row(rows, row.id) || q < p {
                    q
                } else {
                    q + 1
                };
                assert(put[moved] == rows[q]);
                lemma_found(put, moved);
            },
            None => {
                if has_row(put, id) {
                    let q = place(put, id);
                    lemma_place(put, id);
                    assert(q != p);
                    let former = if has_row(rows, row.id) || q < p {
                        q
                    } else {
                        q - 1
                    };
                    assert(rows[former] == put[q]);
                }
            },
        }
    }
}

/// A row that was removed is not found any more, and the others are as before.
pub proof fn removed_row_is_gone(rows: Seq<RowV>, gone: u64, id: u64)
    requires
        sorted(rows),
    ensures
        row_at(row_removed(rows, gone), id) == (if id == gone {
            None
        } else {
            row_at(rows, id)
        }),
{
    row_operations_keep_order(rows, RowV { id: gone, values: Seq::empty() });
    let left = row_removed(rows, gone);
    let p = place(rows, gone);
    lemma_place(rows, gone);
    lemma_found_iff(rows, id);
    lemma_found_iff(left, id);
    if has_row(rows, gone) {
        if has_row(left, id) {
            lemma_place(left, id);
            let q = place(left, id);
            let former = if q < p {
                q
            } else {
                q + 1
            };
            assert(rows[former] == left[q]);
            lemma_found(rows, former);
            assert(former != p);
        }
        if has_row(rows, id) && id != gone {
            lemma_place(rows, id);
            let q = place(rows, id);
            let now = if q < p {
                q
            } else {
                q - 1
            };
            assert(left[now] == rows[q]);
            lemma_found(left, now);
        }
    }
}

pub proof fn lemma_found(rows: Seq<RowV>, i: int)
    requires
        sorted(rows),
        0 <= i < rows.len(),
    ensures
        place(rows, rows[i].id) == i,
        row_at(rows, rows[i].id) == Some(rows[i]),
{
    lemma_place_is(rows, rows[i].id, i);
}

pub proof fn lemma_found_iff(rows: Seq<RowV>, id: u64)
    requires
        sorted(rows),
    ensures
        has_row(rows, id) <==> exists|i: int| 0 <= i < rows.len() && (#[trigger] rows[i]).id == id,
{
    lemma_place(rows, id);
    if exists|i: int| 0 <= i < rows.len() && (#[trigger] rows[i]).id == id {
        let i = choose|i: int| 0 <= i < rows.len() && (#[trigger] rows[i]).id == id;
        lemma_found(rows, i);
    }
}

/// The rows of a table, in the order of their numbers.
pub struct RowTable {
    rows: Vec<Row>,
}

impl View for RowTable {
    type V = Seq<RowV>;

    closed spec fn view(&self) -> Seq<RowV> {
        model::views(self.rows@)
    }
}

impl RowTable {
    #[verifier::type_invariant]
    spec fn wf(self) -> bool {
        sorted(model::views(self.rows@))
    }

    /// A table without rows.
    pub fn new() -> (r: Self)
        ensures
            r@ == Seq::<RowV>::empty(),
    {
        RowTable { rows: Vec::new() }
    }

    /// The rows.
    pub fn rows(&self) -> (r: &Vec<Row>)
        ensures
            model::views(r@) == self@,
            sorted(self@),
    {
        proof {
            use_type_invariant(self);
        }
        &self.rows
    }

    /// A copy of the table.
    pub fn copy(&self) -> (r: Self)
        ensures
            r@ == self@,
    {
        proof {
            use_type_invariant(self);
        }
        RowTable { rows: duplicate_all(self.rows.as_slice()) }
    }

    fn find(&self, id: u64) -> (r: usize)
        ensures
            r == place(self@, id),
            r <= self@.len(),
    {
        proof {
            use_type_invariant(self);
        }
        let ghost v = self@;
        let mut low: usize = 0;
        let mut high: usize = self.rows.len();
        while low < high
            invariant
                v == self@,
                v == model::views(self.rows@),
                sorted(v),
                low <= high <= v.len(),
                forall|i: int| 0 <= i < low ==> (#[trigger] v[i]).id < id,
                forall|i: int| high <= i < v.len() ==> (#[trigger] v[i]).id >= id,
            decreases high - low,
        {
            let mid: usize = low + (high - low) / 2;
            assert(self.rows@[mid as int]@ == v[mid as int]);
            if self.rows[mid].id < id {
                low = mid + 1;
            } else {
                high = mid;
            }
        }
        proof {
            lemma_place_is(v, id, low as int);
        }
        low
    }

    /// The row of a number.
    pub fn get(&self, id: u64) -> (r: Option<&Row>)
        ensures
            match r {
                Some(row) => row_at(self@, id) == Some(row@),
                None => row_at(self@, id) is None,
            },
    {
        let p: usize = self.find(id);
        if p < self.rows.len() && self.rows[p].id == id {
            assert(self.rows@[p as int]@ == self@[p as int]);
            Some(&self.rows[p])
        } else {
            proof {
                if p < self.rows.len() {
                    assert(self.rows@[p as int]@ == self@[p as int]);
                }
            }
            None
        }
    }

    /// Puts a row, in place of any of the same number.
    pub fn put(&mut self, row: Row)
        ensures
            final(self)@ == row_put(old(self)@, row@),
    {
        proof {
            use_type_invariant(&*self);
            row_operations_keep_order(self@, row@);
        }
        let p: usize = self.find(row.id);
        let mut rows: Vec<Row> = Vec::new();
        std::mem::swap(&mut rows, &mut self.rows);
        if p < rows.len() && rows[p].id == row.id {
            rows.set(p, row);
        } else {
            rows.insert(p, row);
        }
        assert(model::views(rows@) =~= row_put(old(self)@, row@));
        self.rows = rows;
    }

    /// Removes the row of a number.
    pub fn remove(&mut self, id: u64)
        ensures
            final(self)@ == row_removed(old(self)@, id),
    {
        proof {
            use_type_invariant(&*self);
            row_operations_keep_order(self@, RowV { id, values: Seq::empty() });
        }
        let p: usize = self.find(id);
        let mut rows: Vec<Row> = Vec::new();
        std::mem::swap(&mut rows, &mut self.rows);
        if p < rows.len() && rows[p].id == id {
            let _ = rows.remove(p);
        }
        assert(model::views(rows@) =~= row_removed(old(self)@, id));
        self.rows = rows;
    }

    /// Gives the row of a number other values.
    pub fn change(&mut self, id: u64, values: Vec<Value>)
        ensures
            final(self)@ == row_changed(old(self)@, id, model::views(values@)),
    {
        proof {
            use_type_invariant(&*self);
            row_operations_keep_order(self@, RowV { id, values: model::views(values@) });
        }
        let p: usize = self.find(id);
        let mut rows: Vec<Row> = Vec::new();
        std::mem::swap(&mut rows, &mut self.rows);
        if p < rows.len() && rows[p].id == id {
            rows.set(p, Row { id, values });
        }
        assert(model::views(rows@) =~= row_changed(old(self)@, id, model::views(values@)));
        self.rows = rows;
    }
}

// ---------------------------------------------------------------------------
// All tables
// ---------------------------------------------------------------------------

/// The stored tables, the next row number of each, and the contents of the
/// indexes. Tables go by their name in lower case, an index by that of its table,
/// a colon and its own name in lower case.
pub struct Storage {
    pub tables: NameMap<RowTable>,
    pub next_ids: NameMap<u64>,
    pub index_data: NameMap<IndexData>,
}

/// What a `Storage` stands for.
#[verifier::ext_equal]
pub struct StorageV {
    pub tables: Map<Seq<char>, Seq<RowV>>,
    pub next_ids: Map<Seq<char>, u64>,
    pub index_data: Map<Seq<char>, IndexV>,
}

impl View for Storage {
    type V = StorageV;

    open spec fn view(&self) -> StorageV {
        StorageV {
            tables: self.tables@,
            next_ids: self.next_ids@,
            index_data: self.index_data@,
        }
    }
}

/// The rows of a table; none where it is not stored.
pub open spec fn rows_of(s: StorageV, table: Seq<char>) -> Seq<RowV> {
    if s.tables.contains_key(catalog::normal(table)) {
        s.tables[catalog::normal(table)]
    } else {
        Seq::empty()
    }
}

/// The number that the next row without one gets.
pub open spec fn next_id(s: StorageV, table: Seq<char>) -> u64 {
    if s.next_ids.contains_key(catalog::normal(table)) {
        s.next_ids[catalog::normal(table)]
    } else {
        1
    }
}

/// Rows on their way into a table: the table so far, the next free number, and
/// the numbers that were given.
#[verifier::ext_equal]
pub struct Filling {
    pub rows: Seq<RowV>,
    pub next: nat,
    pub ids: Seq<u64>,
}

/// One more row: it gets the next number unless it has one, and the next number
/// stays above all numbers.
pub open spec fn filled_one(f: Filling, row: RowV) -> Filling {
    if row.id == 0 {
        let id = f.next as u64;
        Filling {
            rows: row_put(f.rows, RowV { id, values: row.values }),
            next: f.next + 1,
            ids: f.ids.push(id),
        }
    } else {
        Filling {
            rows: row_put(f.rows, row),
            next: if row.id >= f.next {
                row.id as nat + 1
            } else {
                f.next
            },
            ids: f.ids.push(row.id),
        }
    }
}

pub open spec fn filled(f: Filling, rows: Seq<RowV>) -> Filling
    decreases rows.len(),
{
    if rows.len() == 0 {
        f
    } else {
        filled_one(filled(f, rows.drop_last()), rows.last())
    }
}

/// The rows of a table after others were inserted.
pub open spec fn insertion(s: StorageV, table: Seq<char>, rows: Seq<RowV>) -> Filling {
    filled(
        Filling { rows: rows_of(s, table), next: next_id(s, table) as nat, ids: Seq::empty() },
        rows,
    )
}

/// The row numbers that the insertion needs can be had.
pub open spec fn can_insert(s: StorageV, table: Seq<char>, rows: Seq<RowV>) -> bool {
    insertion(s, table, rows).next <= u64::MAX
}

/// The storage after rows were inserted into a table.
pub open spec fn rows_inserted(s: StorageV, table: Seq<char>, rows: Seq<RowV>) -> StorageV {
    let f = insertion(s, table, rows);
    StorageV {
        tables: s.tables.insert(catalog::normal(table), f.rows),
        next_ids: s.next_ids.insert(catalog::normal(table), f.next as u64),
        ..s
    }
}

/// The storage without a table and its indexes.
pub open spec fn table_cleared(s: StorageV, table: Seq<char>) -> StorageV {
    let t = catalog::normal(table);
    StorageV {
        tables: s.tables.remove(t),
        next_ids: s.next_ids.remove(t),
        index_data: names::unprefixed(s.index_data, t + ":"@),
    }
}

proof fn lemma_filling_grows(f: Filling, rows: Seq<RowV>, n: int)
    requires
        0 <= n <= rows.len(),
    ensures
        filled(f, rows.take(n)).next <= filled(f, rows).next,
        f.next <= filled(f, rows).next,
    decreases rows.len(),
{
    if rows.len() > 0 {
        lemma_filling_grows(f, rows.drop_last(), if n < rows.len() { n } else { n - 1 });
        if n < rows.len() {
            assert(rows.take(n) =~= rows.drop_last().take(n));
        } else {
            assert(rows.take(n) =~= rows);
        }
    } else {
        assert(rows.take(n) =~= rows);
    }
}

impl Storage {
    /// Nothing is stored.
    pub fn new() -> (r: Self)
        ensures
            r@ == (StorageV {
                tables: Map::empty(),
                next_ids: Map::empty(),
                index_data: Map::empty(),
            }),
    {
        Storage { tables: NameMap::new(), next_ids: NameMap::new(), index_data: NameMap::new() }
    }

    fn next_of(&self, table: &str) -> (r: u64)
        ensures
            r == next_id(self@, table@),
    {
        match self.next_ids.get(table.to_lowercase().as_str()) {
            Some(n) => *n,
            None => 1,
        }
    }

    /// Whether the row numbers that an insertion needs can be had.
    pub fn can_insert_rows(&self, table_name: &str, rows: &Vec<Row>) -> (r: bool)
        ensures
            r == can_insert(self@, table_name@, model::views(rows@)),
    {
        let ghost v = model::views(rows@);
        let ghost start = Filling {
            rows: rows_of(self@, table_name@),
            next: next_id(self@, table_name@) as nat,
            ids: Seq::empty(),
        };
        let mut next: u64 = self.next_of(table_name);
        let mut i: usize = 0;
        while i < rows.len()
            invariant
                v == model::views(rows@),
                i <= rows.len(),
                next == filled(start, v.take(i as int)).next,
                insertion(self@, table_name@, v) == filled(start, v),
            decreases rows.len() - i,
        {
            proof {
                assert(v.take(i + 1).drop_last() =~= v.take(i as int));
                assert(v.take(i + 1).last() == rows@[i as int]@);
                lemma_filling_grows(start, v, i + 1);
            }
            let id: u64 = rows[i].id;
            if id == 0 {
                if next == u64::MAX {
                    return false;
                }
                next = next + 1;
            } else if id >= next {
                if id == u64::MAX {
                    return false;
                }
                next = id + 1;
            }
            i = i + 1;
        }
        assert(v.take(v.len() as int) =~= v);
        true
    }

    /// Inserts rows into a table and returns their numbers. A row of number zero
    /// gets the next free one.
    pub fn insert_rows(&mut self, table_name: &str, rows: Vec<Row>) -> (r: Vec<u64>)
        requires
            can_insert(old(self)@, table_name@, model::views(rows@)),
        ensures
            final(self)@ == rows_inserted(old(self)@, table_name@, model::views(rows@)),
            r@ == insertion(old(self)@, table_name@, model::views(rows@)).ids,
    {
        let ghost v = model::views(rows@);
        let ghost start = Filling {
            rows: rows_of(self@, table_name@),
            next: next_id(self@, table_name@) as nat,
            ids: Seq::empty(),
        };
        let tn = table_name.to_lowercase();
        let mut next: u64 = self.next_of(table_name);
        let mut table: RowTable = match self.tables.take(tn.as_str()) {
            Some(t) => t,
            None => RowTable::new(),
        };
        let mut ids: Vec<u64> = Vec::new();
        let count: usize = rows.len();
        let mut i: usize = 0;
        while i < count
            invariant
                v == model::views(rows@),
                count == rows.len(),
                i <= count,
                filled(start, v).next <= u64::MAX,
                filled(start, v.take(i as int)) == (Filling {
                    rows: table@,
                    next: next as nat,
                    ids: ids@,
                }),
            decreases count - i,
        {
            proof {
                assert(v.take(i + 1).drop_last() =~= v.take(i as int));
                assert(v.take(i + 1).last() == rows@[i as int]@);
                lemma_filling_grows(start, v, i + 1);
            }
            let mut row = rows[i].duplicate();
            if row.id == 0 {
                row.id = next;
                next = next + 1;
            } else if row.id >= next {
                next = row.id + 1;
            }
            ids.push(row.id);
            table.put(row);
            i = i + 1;
        }
        assert(v.take(v.len() as int) =~= v);
        self.tables.insert(tn.clone(), table);
        self.next_ids.insert(tn, next);
        assert(self@ =~= rows_inserted(old(self)@, table_name@, v));
        ids
    }

    /// The rows of a table, in the order of their numbers.
    pub fn get_rows(&self, table_name: &str) -> (r: Vec<&Row>)
        ensures
            model::views(r@) == rows_of(self@, table_name@),
    {
        let mut out: Vec<&Row> = Vec::new();
        match self.tables.get(table_name.to_lowercase().as_str()) {
            None => {},
            Some(t) => {
                let rows = t.rows();
                let mut i: usize = 0;
                while i < rows.len()
                    invariant
                        i <= rows.len(),
                        model::views(out@) == model::views(rows@).take(i as int),
                    decreases rows.len() - i,
                {
                    out.push(&rows[i]);
                    i = i + 1;
                    assert(model::views(out@) =~= model::views(rows@).take(i as int));
                }
                assert(model::views(rows@).take(rows@.len() as int) =~= model::views(rows@));
            },
        }
        out
    }

    /// The rows of a table, to be changed in place.
    pub fn get_table_mut(&mut self, table_name: &str) -> (r: Option<&mut RowTable>)
        ensures
            ({
                let t = catalog::normal(table_name@);
                match r {
                    Some(rows) => old(self)@.tables.contains_key(t) && (*rows)@ == old(
                        self,
                    )@.tables[t] && final(self)@ == (StorageV {
                        tables: old(self)@.tables.insert(t, (*final(rows))@),
                        ..old(self)@
                    }),
                    None => !old(self)@.tables.contains_key(t) && final(self)@ == old(self)@,
                }
            }),
    {
        self.tables.get_mut(table_name.to_lowercase().as_str())
    }

    /// A row of a table.
    pub fn get_row(&self, table_name: &str, row_id: u64) -> (r: Option<&Row>)
        ensures
            match r {
                Some(row) => row_at(rows_of(self@, table_name@), row_id) == Some(row@),
                None => row_at(rows_of(self@, table_name@), row_id) is None,
            },
    {
        match self.tables.get(table_name.to_lowercase().as_str()) {
            None => None,
            Some(t) => t.get(row_id),
        }
    }

    /// Removes a table with its indexes.
    pub fn clear_table(&mut self, table_name: &str)
        ensures
            final(self)@ == table_cleared(old(self)@, table_name@),
    {
        let tn = table_name.to_lowercase();
        let mut prefix = tn.clone();
        prefix.append(":");
        self.index_data.remove_prefix(prefix.as_str());
        let _ = self.tables.take(tn.as_str());
        let _ = self.next_ids.take(tn.as_str());
        assert(self@ =~= table_cleared(old(self)@, table_name@));
    }
}

} // verus!
