//! Keeping the contents of the indexes in step with the rows.

use vstd::prelude::*;

use crate::engine::catalog;
use crate::engine::catalog::{Catalog, CatalogV, DatabaseV};
use crate::engine::eval;
use crate::engine::eval::value_in_column;
use crate::engine::index;
use crate::engine::index::{IndexData, IndexDef, IndexDefV, IndexType, IndexV};
use crate::engine::query;
use crate::engine::query::stored_index_name;
use crate::engine::storage;
use crate::engine::storage::{Row, RowV, Storage, StorageV};
use crate::engine::types::{Column, ColumnV, Val, Value};
use crate::model;
use crate::names;
use crate::names::NameMap;

verus! {

broadcast use crate::model::group_views;

/// The key of a row in an index: the values of the index columns, NULL where the
/// row has none.
pub open spec fn row_key(values: Seq<Val>, def: IndexDefV, columns: Seq<ColumnV>) -> Seq<Val> {
    Seq::new(def.columns.len(), |i: int| eval::column_value(columns, values, def.columns[i]))
}

pub open spec fn fresh_index(kind: IndexType) -> IndexV {
    IndexV { kind, map: Map::empty() }
}

/// The contents of the indexes after a row was entered into one of them.
pub open spec fn entered_in(
    data: Map<Seq<char>, IndexV>,
    table: Seq<char>,
    def: IndexDefV,
    columns: Seq<ColumnV>,
    row: RowV,
) -> Map<Seq<char>, IndexV> {
    let name = query::index_key(table, def.name);
    let before = if data.contains_key(name) {
        data[name]
    } else {
        fresh_index(def.index_type)
    };
    data.insert(name, index::entered(before, row_key(row.values, def, columns), row.id))
}

/// The contents of the indexes after a row was removed from one of them.
pub open spec fn removed_from(
    data: Map<Seq<char>, IndexV>,
    table: Seq<char>,
    def: IndexDefV,
    columns: Seq<ColumnV>,
    row: RowV,
) -> Map<Seq<char>, IndexV> {
    let name = query::index_key(table, def.name);
    if data.contains_key(name) {
        data.insert(
            name,
            index::removed(data[name], row_key(row.values, def, columns), row.id),
        )
    } else {
        data
    }
}

/// A row was entered into all indexes of its table.
pub open spec fn row_entered(
    data: Map<Seq<char>, IndexV>,
    table: Seq<char>,
    defs: Seq<IndexDefV>,
    columns: Seq<ColumnV>,
    row: RowV,
) -> Map<Seq<char>, IndexV>
    decreases defs.len(),
{
    if defs.len() == 0 {
        data
    } else {
        entered_in(
            row_entered(data, table, defs.drop_last(), columns, row),
            table,
            defs.last(),
            columns,
            row,
        )
    }
}

/// A row was removed from all indexes of its table.
pub open spec fn row_left(
    data: Map<Seq<char>, IndexV>,
    table: Seq<char>,
    defs: Seq<IndexDefV>,
    columns: Seq<ColumnV>,
    row: RowV,
) -> Map<Seq<char>, IndexV>
    decreases defs.len(),
{
    if defs.len() == 0 {
        data
    } else {
        removed_from(
            row_left(data, table, defs.drop_last(), columns, row),
            table,
            defs.last(),
            columns,
            row,
        )
    }
}

/// Rows were entered, one after the other.
pub open spec fn rows_entered(
    data: Map<Seq<char>, IndexV>,
    table: Seq<char>,
    defs: Seq<IndexDefV>,
    columns: Seq<ColumnV>,
    rows: Seq<RowV>,
) -> Map<Seq<char>, IndexV>
    decreases rows.len(),
{
    if rows.len() == 0 {
        data
    } else {
        row_entered(
            rows_entered(data, table, defs, columns, rows.drop_last()),
            table,
            defs,
            columns,
            rows.last(),
        )
    }
}

/// Rows were removed, one after the other.
pub open spec fn rows_left(
    data: Map<Seq<char>, IndexV>,
    table: Seq<char>,
    defs: Seq<IndexDefV>,
    columns: Seq<ColumnV>,
    rows: Seq<RowV>,
) -> Map<Seq<char>, IndexV>
    decreases rows.len(),
{
    if rows.len() == 0 {
        data
    } else {
        row_left(
            rows_left(data, table, defs, columns, rows.drop_last()),
            table,
            defs,
            columns,
            rows.last(),
        )
    }
}

/// An index that was built from rows. Where it must be unique and a key occurs
/// twice, that key is the error.
pub open spec fn index_built(
    rows: Seq<RowV>,
    kind: IndexType,
    def: IndexDefV,
    unique: bool,
    columns: Seq<ColumnV>,
) -> Result<IndexV, Seq<Val>>
    decreases rows.len(),
{
    if rows.len() == 0 {
        Ok(fresh_index(kind))
    } else {
        match index_built(rows.drop_last(), kind, def, unique, columns) {
            Err(key) => Err(key),
            Ok(before) => {
                let key = row_key(rows.last().values, def, columns);
                if unique && index::ids_at(before.map, key).len() > 0 {
                    Err(key)
                } else {
                    Ok(index::entered(before, key, rows.last().id))
                }
            },
        }
    }
}

/// An index built without regard to whether keys occur twice.
pub open spec fn index_of_rows(rows: Seq<RowV>, def: IndexDefV, columns: Seq<ColumnV>) -> IndexV {
    index_built(rows, def.index_type, def, false, columns)->Ok_0
}

// ---------------------------------------------------------------------------
// Rebuilding
// ---------------------------------------------------------------------------

pub open spec fn table_rebuilt(
    data: Map<Seq<char>, IndexV>,
    s: StorageV,
    table: Seq<char>,
    columns: Seq<ColumnV>,
    defs: Seq<IndexDefV>,
) -> Map<Seq<char>, IndexV>
    decreases defs.len(),
{
    if defs.len() == 0 {
        data
    } else {
        table_rebuilt(data, s, table, columns, defs.drop_last()).insert(
            query::index_key(table, defs.last().name),
            index_of_rows(storage::rows_of(s, table), defs.last(), columns),
        )
    }
}

/// The contents of the indexes after those of the listed tables were rebuilt.
pub open spec fn tables_rebuilt(
    data: Map<Seq<char>, IndexV>,
    s: StorageV,
    d: DatabaseV,
    tables: Seq<Seq<char>>,
) -> Map<Seq<char>, IndexV>
    decreases tables.len(),
{
    if tables.len() == 0 {
        data
    } else {
        let before = tables_rebuilt(data, s, d, tables.drop_last());
        let table = tables.last();
        table_rebuilt(
            before,
            s,
            table,
            d.tables[table].columns,
            if d.indexes.contains_key(table) {
                d.indexes[table]
            } else {
                Seq::empty()
            },
        )
    }
}

/// The contents of the indexes after those of the listed databases were rebuilt.
pub open spec fn databases_rebuilt(
    data: Map<Seq<char>, IndexV>,
    s: StorageV,
    c: CatalogV,
    databases: Seq<Seq<char>>,
) -> Map<Seq<char>, IndexV>
    decreases databases.len(),
{
    if databases.len() == 0 {
        data
    } else {
        let before = databases_rebuilt(data, s, c, databases.drop_last());
        if catalog::has_database(c, databases.last()) {
            let d = catalog::database(c, databases.last());
            tables_rebuilt(before, s, d, names::listing(d.tables))
        } else {
            before
        }
    }
}

/// The contents of all indexes, rebuilt from the rows.
pub open spec fn indexes_rebuilt(c: CatalogV, s: StorageV) -> Map<Seq<char>, IndexV> {
    databases_rebuilt(s.index_data, s, c, names::listing(c.databases))
}

// ---------------------------------------------------------------------------
// The work
// ---------------------------------------------------------------------------

/// The key of a row in an index.
pub fn get_index_key(values: &Vec<Value>, def: &IndexDef, columns: &Vec<Column>) -> (r: Vec<Value>)
    ensures
        model::views(r@) == row_key(model::views(values@), def@, model::views(columns@)),
{
    let ghost want = row_key(model::views(values@), def@, model::views(columns@));
    let mut key: Vec<Value> = Vec::new();
    let mut i: usize = 0;
    while i < def.columns.len()
        invariant
            want == row_key(model::views(values@), def@, model::views(columns@)),
            i <= def.columns.len(),
            model::views(key@) == want.take(i as int),
        decreases def.columns.len() - i,
    {
        key.push(
            value_in_column(columns.as_slice(), values.as_slice(), def.columns[i].as_str()),
        );
        i = i + 1;
        assert(model::views(key@) =~= want.take(i as int));
    }
    assert(want.take(want.len() as int) =~= want);
    key
}

/// Enters a row into all indexes of its table.
pub fn insert_into_indexes(
    data: &mut NameMap<IndexData>,
    table_name: &str,
    indexes: &Vec<IndexDef>,
    columns: &Vec<Column>,
    row: &Row,
)
    ensures
        final(data)@ == row_entered(
            old(data)@,
            table_name@,
            model::views(indexes@),
            model::views(columns@),
            row@,
        ),
{
    let ghost defs = model::views(indexes@);
    let ghost cols = model::views(columns@);
    let mut i: usize = 0;
    while i < indexes.len()
        invariant
            defs == model::views(indexes@),
            cols == model::views(columns@),
            i <= indexes.len(),
            data@ == row_entered(old(data)@, table_name@, defs.take(i as int), cols, row@),
        decreases indexes.len() - i,
    {
        let ghost next = defs.take(i + 1);
        proof {
            assert(next.drop_last() =~= defs.take(i as int));
            assert(next.last() == indexes@[i as int]@);
        }
        let def = &indexes[i];
        let key = get_index_key(&row.values, def, columns);
        let name = stored_index_name(table_name, def.name.as_str());
        let ghost before = data@;
        let mut contents = match data.take(name.as_str()) {
            Some(d) => d,
            None => IndexData::new(def.index_type),
        };
        contents.insert(key.as_slice(), row.id);
        data.insert(name, contents);
        assert(data@ =~= entered_in(before, table_name@, def@, cols, row@));
        i = i + 1;
    }
    assert(defs.take(defs.len() as int) =~= defs);
}

/// Removes a row from all indexes of its table.
pub fn delete_from_indexes(
    data: &mut NameMap<IndexData>,
    table_name: &str,
    indexes: &Vec<IndexDef>,
    columns: &Vec<Column>,
    row: &Row,
)
    ensures
        final(data)@ == row_left(
            old(data)@,
            table_name@,
            model::views(indexes@),
            model::views(columns@),
            row@,
        ),
{
    let ghost defs = model::views(indexes@);
    let ghost cols = model::views(columns@);
    let mut i: usize = 0;
    while i < indexes.len()
        invariant
            defs == model::views(indexes@),
            cols == model::views(columns@),
            i <= indexes.len(),
            data@ == row_left(old(data)@, table_name@, defs.take(i as int), cols, row@),
        decreases indexes.len() - i,
    {
        let ghost next = defs.take(i + 1);
        proof {
            assert(next.drop_last() =~= defs.take(i as int));
            assert(next.last() == indexes@[i as int]@);
        }
        let def = &indexes[i];
        let key = get_index_key(&row.values, def, columns);
        let name = stored_index_name(table_name, def.name.as_str());
        let ghost before = data@;
        match data.take(name.as_str()) {
            Some(d) => {
                let mut contents = d;
                contents.delete(key.as_slice(), row.id);
                data.insert(name, contents);
            },
            None => {},
        }
        assert(data@ =~= removed_from(before, table_name@, def@, cols, row@));
        i = i + 1;
    }
    assert(defs.take(defs.len() as int) =~= defs);
}

/// Enters rows into all indexes of their table.
pub fn insert_all_into_indexes(
    data: &mut NameMap<IndexData>,
    table_name: &str,
    indexes: &Vec<IndexDef>,
    columns: &Vec<Column>,
    rows: &Vec<Row>,
)
    ensures
        final(data)@ == rows_entered(
            old(data)@,
            table_name@,
            model::views(indexes@),
            model::views(columns@),
            model::views(rows@),
        ),
{
    let ghost defs = model::views(indexes@);
    let ghost cols = model::views(columns@);
    let ghost v = model::views(rows@);
    let mut i: usize = 0;
    while i < rows.len()
        invariant
            defs == model::views(indexes@),
            cols == model::views(columns@),
            v == model::views(rows@),
            i <= rows.len(),
            data@ == rows_entered(old(data)@, table_name@, defs, cols, v.take(i as int)),
        decreases rows.len() - i,
    {
        let ghost next = v.take(i + 1);
        proof {
            assert(next.drop_last() =~= v.take(i as int));
            assert(next.last() == rows@[i as int]@);
        }
        insert_into_indexes(data, table_name, indexes, columns, &rows[i]);
        i = i + 1;
    }
    assert(v.take(v.len() as int) =~= v);
}

/// Removes rows from all indexes of their table.
pub fn delete_all_from_indexes(
    data: &mut NameMap<IndexData>,
    table_name: &str,
    indexes: &Vec<IndexDef>,
    columns: &Vec<Column>,
    rows: &Vec<Row>,
)
    ensures
        final(data)@ == rows_left(
            old(data)@,
            table_name@,
            model::views(indexes@),
            model::views(columns@),
            model::views(rows@),
        ),
{
    let ghost defs = model::views(indexes@);
    let ghost cols = model::views(columns@);
    let ghost v = model::views(rows@);
    let mut i: usize = 0;
    while i < rows.len()
        invariant
            defs == model::views(indexes@),
            cols == model::views(columns@),
            v == model::views(rows@),
            i <= rows.len(),
            data@ == rows_left(old(data)@, table_name@, defs, cols, v.take(i as int)),
        decreases rows.len() - i,
    {
        let ghost next = v.take(i + 1);
        proof {
            assert(next.drop_last() =~= v.take(i as int));
            assert(next.last() == rows@[i as int]@);
        }
        delete_from_indexes(data, table_name, indexes, columns, &rows[i]);
        i = i + 1;
    }
    assert(v.take(v.len() as int) =~= v);
}

/// Builds an index from rows. Where it must be unique and a key occurs twice,
/// that key is the error.
pub fn build_index(rows: &Vec<&Row>, def: &IndexDef, unique: bool, columns: &Vec<Column>) -> (r:
    Result<IndexData, Vec<Value>>)
    ensures
        match r {
            Ok(data) => index_built(
                model::views(rows@),
                def@.index_type,
                def@,
                unique,
                model::views(columns@),
            ) == Ok::<IndexV, Seq<Val>>(data@),
            Err(key) => index_built(
                model::views(rows@),
                def@.index_type,
                def@,
                unique,
                model::views(columns@),
            ) == Err::<IndexV, Seq<Val>>(model::views(key@)),
        },
{
    let ghost v = model::views(rows@);
    let ghost cols = model::views(columns@);
    let ghost kind = def@.index_type;
    let mut data = IndexData::new(def.index_type);
    let mut i: usize = 0;
    while i < rows.len()
        invariant
            v == model::views(rows@),
            cols == model::views(columns@),
            kind == def@.index_type,
            i <= rows.len(),
            index_built(v.take(i as int), kind, def@, unique, cols) == Ok::<IndexV, Seq<Val>>(
                data@,
            ),
        decreases rows.len() - i,
    {
        let ghost next = v.take(i + 1);
        proof {
            assert(next.drop_last() =~= v.take(i as int));
            assert(next.last() == rows@[i as int]@);
        }
        let key = get_index_key(&rows[i].values, def, columns);
        if unique {
            let existing = data.lookup_eq(key.as_slice());
            if existing.len() > 0 {
                proof {
                    lemma_built_error(v, kind, def@, unique, cols, i + 1);
                }
                return Err(key);
            }
        }
        data.insert(key.as_slice(), rows[i].id);
        i = i + 1;
    }
    assert(v.take(v.len() as int) =~= v);
    Ok(data)
}

/// The first key that occurs twice is the error, whatever follows.
proof fn lemma_built_error(
    rows: Seq<RowV>,
    kind: IndexType,
    def: IndexDefV,
    unique: bool,
    columns: Seq<ColumnV>,
    i: int,
)
    requires
        0 <= i <= rows.len(),
        index_built(rows.take(i), kind, def, unique, columns) is Err,
    ensures
        index_built(rows, kind, def, unique, columns) == index_built(
            rows.take(i),
            kind,
            def,
            unique,
            columns,
        ),
    decreases rows.len() - i,
{
    if i < rows.len() {
        assert(rows.take(i + 1).drop_last() =~= rows.take(i));
        lemma_built_error(rows, kind, def, unique, columns, i + 1);
    } else {
        assert(rows.take(i) =~= rows);
    }
}

/// Without uniqueness an index can always be built.
pub proof fn index_can_be_built(
    rows: Seq<RowV>,
    kind: IndexType,
    def: IndexDefV,
    columns: Seq<ColumnV>,
)
    ensures
        index_built(rows, kind, def, false, columns) is Ok,
    decreases rows.len(),
{
    if rows.len() > 0 {
        index_can_be_built(rows.drop_last(), kind, def, columns);
    }
}

fn rebuild_table(
    store: &mut Storage,
    table_name: &str,
    columns: &Vec<Column>,
    indexes: &Vec<IndexDef>,
)
    ensures
        final(store)@ == (StorageV {
            index_data: table_rebuilt(
                old(store)@.index_data,
                old(store)@,
                table_name@,
                model::views(columns@),
                model::views(indexes@),
            ),
            ..old(store)@
        }),
{
    let ghost defs = model::views(indexes@);
    let ghost cols = model::views(columns@);
    let mut i: usize = 0;
    while i < indexes.len()
        invariant
            defs == model::views(indexes@),
            cols == model::views(columns@),
            i <= indexes.len(),
            store@.tables == old(store)@.tables,
            store@.next_ids == old(store)@.next_ids,
            store@.index_data == table_rebuilt(
                old(store)@.index_data,
                old(store)@,
                table_name@,
                cols,
                defs.take(i as int),
            ),
        decreases indexes.len() - i,
    {
        let ghost next = defs.take(i + 1);
        proof {
            assert(next.drop_last() =~= defs.take(i as int));
            assert(next.last() == indexes@[i as int]@);
            index_can_be_built(
                storage::rows_of(store@, table_name@),
                indexes@[i as int]@.index_type,
                indexes@[i as int]@,
                cols,
            );
        }
        let def = &indexes[i];
        let built = build_index(&store.get_rows(table_name), def, false, columns);
        match built {
            Ok(data) => {
                store.index_data.insert(
                    stored_index_name(table_name, def.name.as_str()),
                    data,
                );
            },
            Err(_) => {},
        }
        i = i + 1;
    }
    assert(defs.take(defs.len() as int) =~= defs);
    assert(store@ =~= (StorageV {
        index_data: table_rebuilt(
            old(store)@.index_data,
            old(store)@,
            table_name@,
            cols,
            defs,
        ),
        ..old(store)@
    }));
}

/// Rebuilds the contents of all indexes from the rows.
pub fn rebuild_all(definitions: &Catalog, store: &mut Storage)
    ensures
        final(store)@ == (StorageV {
            index_data: indexes_rebuilt(definitions@, old(store)@),
            ..old(store)@
        }),
{
    let ghost list = names::listing(definitions@.databases);
    let count: usize = definitions.databases.len();
    let mut i: usize = 0;
    while i < count
        invariant
            list == names::listing(definitions@.databases),
            count == list.len(),
            i <= count,
            store@ == (StorageV {
                index_data: databases_rebuilt(
                    old(store)@.index_data,
                    old(store)@,
                    definitions@,
                    list.take(i as int),
                ),
                ..old(store)@
            }),
        decreases count - i,
    {
        let ghost next = list.take(i + 1);
        proof {
            assert(next.drop_last() =~= list.take(i as int));
            assert(next.last() == list[i as int]);
        }
        let ghost before = store@.index_data;
        match definitions.get_database(definitions.databases.name_at(i).as_str()) {
            None => {},
            Some(d) => {
                let ghost tables = names::listing(d@.tables);
                let n: usize = d.tables.len();
                let mut j: usize = 0;
                while j < n
                    invariant
                        tables == names::listing(d@.tables),
                        n == tables.len(),
                        j <= n,
                        store@ == (StorageV {
                            index_data: tables_rebuilt(
                                before,
                                old(store)@,
                                d@,
                                tables.take(j as int),
                            ),
                            ..old(store)@
                        }),
                    decreases n - j,
                {
                    let ghost following = tables.take(j + 1);
                    proof {
                        assert(following.drop_last() =~= tables.take(j as int));
                        assert(following.last() == tables[j as int]);
                    }
                    let name = d.tables.name_at(j);
                    let table = d.tables.value_at(j);
                    let ghost former = store@;
                    match d.indexes.get(name.as_str()) {
                        Some(indexes) => {
                            proof {
                                lemma_rebuilt_rows(
                                    former.index_data,
                                    former,
                                    old(store)@,
                                    name@,
                                    table@.columns,
                                    indexes@,
                                );
                            }
                            rebuild_table(store, name.as_str(), &table.columns, &indexes.items);
                        },
                        None => {},
                    }
                    j = j + 1;
                }
                assert(tables.take(tables.len() as int) =~= tables);
            },
        }
        i = i + 1;
    }
    assert(list.take(list.len() as int) =~= list);
}

/// Rebuilding depends on the rows alone, not on the former contents.
proof fn lemma_rebuilt_rows(
    data: Map<Seq<char>, IndexV>,
    a: StorageV,
    b: StorageV,
    table: Seq<char>,
    columns: Seq<ColumnV>,
    defs: Seq<IndexDefV>,
)
    requires
        a.tables == b.tables,
    ensures
        table_rebuilt(data, a, table, columns, defs) == table_rebuilt(
            data,
            b,
            table,
            columns,
            defs,
        ),
    decreases defs.len(),
{
    if defs.len() > 0 {
        lemma_rebuilt_rows(data, a, b, table, columns, defs.drop_last());
    }
}

} // verus!
