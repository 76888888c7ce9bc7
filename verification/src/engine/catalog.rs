//! The catalog: databases, their tables and the indexes on them.

use vstd::prelude::*;
use vstd::string::*;

use crate::engine::index::{IndexDef, IndexDefV};
use crate::engine::types::{duplicate_all, Column, ColumnV, Duplicate};
use crate::model;
use crate::names::NameMap;
use crate::text;
use crate::text::equal_ignoring_case;

verus! {

broadcast use crate::model::group_views;

/// The definition of a table.
#[derive(Debug)]
pub struct TableDef {
    pub name: String,
    pub columns: Vec<Column>,
}

/// What a `TableDef` stands for.
#[verifier::ext_equal]
pub struct TableV {
    pub name: Seq<char>,
    pub columns: Seq<ColumnV>,
}

impl View for TableDef {
    type V = TableV;

    open spec fn view(&self) -> TableV {
        TableV { name: self.name@, columns: model::views(self.columns@) }
    }
}

impl Duplicate for TableDef {
    fn duplicate(&self) -> (r: Self) {
        TableDef { name: self.name.clone(), columns: duplicate_all(self.columns.as_slice()) }
    }
}

impl Clone for TableDef {
    fn clone(&self) -> (r: Self)
        ensures
            r@ == self@,
    {
        self.duplicate()
    }
}

/// The indexes on a table, in the order of their creation.
pub struct IndexList {
    pub items: Vec<IndexDef>,
}

impl View for IndexList {
    type V = Seq<IndexDefV>;

    open spec fn view(&self) -> Seq<IndexDefV> {
        model::views(self.items@)
    }
}

/// A database: its tables and their indexes, by table name in lower case.
pub struct DatabaseDef {
    pub name: String,
    pub tables: NameMap<TableDef>,
    pub indexes: NameMap<IndexList>,
}

/// What a `DatabaseDef` stands for.
#[verifier::ext_equal]
pub struct DatabaseV {
    pub name: Seq<char>,
    pub tables: Map<Seq<char>, TableV>,
    pub indexes: Map<Seq<char>, Seq<IndexDefV>>,
}

impl View for DatabaseDef {
    type V = DatabaseV;

    open spec fn view(&self) -> DatabaseV {
        DatabaseV { name: self.name@, tables: self.tables@, indexes: self.indexes@ }
    }
}

/// The catalog: databases by name in lower case, and the next automatic number
/// of each table.
pub struct Catalog {
    pub databases: NameMap<DatabaseDef>,
    pub sequences: NameMap<u64>,
}

/// What a `Catalog` stands for.
#[verifier::ext_equal]
pub struct CatalogV {
    pub databases: Map<Seq<char>, DatabaseV>,
    pub sequences: Map<Seq<char>, u64>,
}

impl View for Catalog {
    type V = CatalogV;

    open spec fn view(&self) -> CatalogV {
        CatalogV { databases: self.databases@, sequences: self.sequences@ }
    }
}

// ---------------------------------------------------------------------------
// The model of the operations
// ---------------------------------------------------------------------------

/// Names are kept and compared in lower case.
pub open spec fn normal(name: Seq<char>) -> Seq<char> {
    text::lowercase(name)
}

pub open spec fn empty_database(name: Seq<char>) -> DatabaseV {
    DatabaseV { name, tables: Map::empty(), indexes: Map::empty() }
}

pub open spec fn has_database(c: CatalogV, db: Seq<char>) -> bool {
    c.databases.contains_key(normal(db))
}

pub open spec fn database(c: CatalogV, db: Seq<char>) -> DatabaseV {
    c.databases[normal(db)]
}

pub open spec fn with_database(c: CatalogV, db: Seq<char>, d: DatabaseV) -> CatalogV {
    CatalogV { databases: c.databases.insert(normal(db), d), ..c }
}

pub open spec fn has_table(c: CatalogV, db: Seq<char>, table: Seq<char>) -> bool {
    has_database(c, db) && database(c, db).tables.contains_key(normal(table))
}

pub open spec fn unknown_database(db: Seq<char>) -> Seq<char> {
    "Unknown database: "@ + db
}

pub open spec fn unknown_table(table: Seq<char>) -> Seq<char> {
    "Unknown table: "@ + table
}

/// The definition of a table, or why there is none.
pub open spec fn table_of(c: CatalogV, db: Seq<char>, table: Seq<char>) -> Result<
    TableV,
    Seq<char>,
> {
    if !has_database(c, db) {
        Err(unknown_database(db))
    } else if !has_table(c, db, table) {
        Err(unknown_table(table))
    } else {
        Ok(database(c, db).tables[normal(table)])
    }
}

/// The catalog with one more table, or why it cannot be had.
pub open spec fn table_created(
    c: CatalogV,
    db: Seq<char>,
    table: Seq<char>,
    columns: Seq<ColumnV>,
) -> Result<CatalogV, Seq<char>> {
    if !has_database(c, db) {
        Err(unknown_database(db))
    } else if has_table(c, db, table) {
        Err("Table '"@ + table + "' already exists"@)
    } else {
        let d = database(c, db);
        let t = normal(table);
        Ok(
            CatalogV {
                databases: c.databases.insert(
                    normal(db),
                    DatabaseV {
                        name: d.name,
                        tables: d.tables.insert(t, TableV { name: table, columns }),
                        indexes: if d.indexes.contains_key(t) {
                            d.indexes
                        } else {
                            d.indexes.insert(t, Seq::empty())
                        },
                    },
                ),
                sequences: c.sequences.insert(t, 1),
            },
        )
    }
}

/// The catalog with one table less, or why it cannot be had.
pub open spec fn table_dropped(c: CatalogV, db: Seq<char>, table: Seq<char>) -> Result<
    CatalogV,
    Seq<char>,
> {
    match table_of(c, db, table) {
        Err(e) => Err(e),
        Ok(_) => {
            let d = database(c, db);
            let t = normal(table);
            Ok(
                CatalogV {
                    databases: c.databases.insert(
                        normal(db),
                        DatabaseV {
                            name: d.name,
                            tables: d.tables.remove(t),
                            indexes: d.indexes.remove(t),
                        },
                    ),
                    sequences: c.sequences.remove(t),
                },
            )
        },
    }
}

/// The indexes on a table; none where the table is unknown.
pub open spec fn indexes_of(c: CatalogV, db: Seq<char>, table: Seq<char>) -> Seq<IndexDefV> {
    if has_database(c, db) && database(c, db).indexes.contains_key(normal(table)) {
        database(c, db).indexes[normal(table)]
    } else {
        Seq::empty()
    }
}

pub open spec fn is_named(name: Seq<char>) -> spec_fn(IndexDefV) -> bool {
    |d: IndexDefV| text::same_name(d.name, name)
}

/// The place of the first index of a name.
pub open spec fn index_place(list: Seq<IndexDefV>, name: Seq<char>) -> Option<int> {
    model::first(list, is_named(name))
}

/// The catalog with one more index, or why it cannot be had.
pub open spec fn index_created(c: CatalogV, db: Seq<char>, def: IndexDefV) -> Result<
    CatalogV,
    Seq<char>,
> {
    if !has_database(c, db) {
        Err(unknown_database(db))
    } else if !has_table(c, db, def.table_name) {
        Err(unknown_table(def.table_name))
    } else if index_place(indexes_of(c, db, def.table_name), def.name) is Some {
        Err("Index '"@ + def.name + "' already exists"@)
    } else {
        let d = database(c, db);
        let list = indexes_of(c, db, def.table_name).push(def);
        Ok(
            with_database(
                c,
                db,
                DatabaseV { indexes: d.indexes.insert(normal(def.table_name), list), ..d },
            ),
        )
    }
}

/// The catalog with one index less and that index, or why it cannot be had.
pub open spec fn index_dropped(
    c: CatalogV,
    db: Seq<char>,
    name: Seq<char>,
    table: Seq<char>,
) -> Result<(CatalogV, IndexDefV), Seq<char>> {
    if !has_database(c, db) {
        Err(unknown_database(db))
    } else if !database(c, db).indexes.contains_key(normal(table)) {
        Err("No indexes on table '"@ + table + "'"@)
    } else {
        let d = database(c, db);
        let list = d.indexes[normal(table)];
        match index_place(list, name) {
            None => Err("Unknown index: "@ + name),
            Some(i) => Ok(
                (
                    with_database(
                        c,
                        db,
                        DatabaseV {
                            indexes: d.indexes.insert(normal(table), list.remove(i)),
                            ..d
                        },
                    ),
                    list[i],
                ),
            ),
        }
    }
}

/// The next automatic number of a table.
pub open spec fn next_number(c: CatalogV, table: Seq<char>) -> u64 {
    if c.sequences.contains_key(normal(table)) {
        c.sequences[normal(table)]
    } else {
        1
    }
}

/// The catalog after `count` automatic numbers of a table were given out.
pub open spec fn numbers_given(c: CatalogV, table: Seq<char>, count: u64) -> CatalogV {
    CatalogV {
        sequences: c.sequences.insert(
            normal(table),
            (next_number(c, table) + count) as u64,
        ),
        ..c
    }
}

// ---------------------------------------------------------------------------
// The operations
// ---------------------------------------------------------------------------

/// Joins a text that stands in front of a name.
pub fn message(before: &str, name: &str, behind: &str) -> (r: String)
    ensures
        r@ == before@ + name@ + behind@,
{
    let mut out = before.to_string();
    out.append(name);
    out.append(behind);
    out
}

fn unknown_database_text(db: &str) -> (r: String)
    ensures
        r@ == unknown_database(db@),
{
    let mut out = "Unknown database: ".to_string();
    out.append(db);
    out
}

fn unknown_table_text(table: &str) -> (r: String)
    ensures
        r@ == unknown_table(table@),
{
    let mut out = "Unknown table: ".to_string();
    out.append(table);
    out
}

/// Finds the first index of a name, in any case.
pub fn find_index(list: &Vec<IndexDef>, name: &str) -> (r: Option<usize>)
    ensures
        match r {
            Some(i) => index_place(model::views(list@), name@) == Some(i as int) && i < list.len(),
            None => index_place(model::views(list@), name@) is None,
        },
{
    let ghost v = model::views(list@);
    let ghost p = is_named(name@);
    let mut i: usize = 0;
    while i < list.len()
        invariant
            v == model::views(list@),
            p == is_named(name@),
            i <= list.len(),
            forall|j: int| 0 <= j < i ==> !p(#[trigger] v[j]),
        decreases list.len() - i,
    {
        if equal_ignoring_case(list[i].name.as_str(), name) {
            proof {
                assert(p(v[i as int]));
                model::lemma_first_is(v, p, i as int);
            }
            return Some(i);
        }
        assert(!p(v[i as int]));
        i = i + 1;
    }
    proof {
        model::lemma_first_none(v, p);
    }
    None
}

impl DatabaseDef {
    /// A database without tables.
    pub fn new(name: &str) -> (r: Self)
        ensures
            r@ == empty_database(name@),
    {
        DatabaseDef {
            name: name.to_string(),
            tables: NameMap::new(),
            indexes: NameMap::new(),
        }
    }
}

impl Catalog {
    /// A catalog with the one database `srrdb`.
    pub fn new() -> (r: Self)
        ensures
            r@ == (CatalogV {
                databases: Map::empty().insert(normal("srrdb"@), empty_database("srrdb"@)),
                sequences: Map::empty(),
            }),
    {
        let mut databases: NameMap<DatabaseDef> = NameMap::new();
        databases.insert("srrdb".to_lowercase(), DatabaseDef::new("srrdb"));
        Catalog { databases, sequences: NameMap::new() }
    }

    /// The database of a name.
    pub fn get_database(&self, name: &str) -> (r: Option<&DatabaseDef>)
        ensures
            match r {
                Some(d) => has_database(self@, name@) && d@ == database(self@, name@),
                None => !has_database(self@, name@),
            },
    {
        self.databases.get(name.to_lowercase().as_str())
    }

    /// The database of a name, to be changed in place.
    pub fn get_database_mut(&mut self, name: &str) -> (r: Option<&mut DatabaseDef>)
        ensures
            match r {
                Some(d) => has_database(old(self)@, name@) && (*d)@ == database(
                    old(self)@,
                    name@,
                ) && final(self)@ == with_database(old(self)@, name@, (*final(d))@),
                None => !has_database(old(self)@, name@) && final(self)@ == old(self)@,
            },
    {
        self.databases.get_mut(name.to_lowercase().as_str())
    }

    /// Adds a database, unless there is one of the name.
    pub fn create_database(&mut self, name: &str)
        ensures
            final(self)@ == (if has_database(old(self)@, name@) {
                old(self)@
            } else {
                with_database(old(self)@, name@, empty_database(name@))
            }),
    {
        let key = name.to_lowercase();
        if !self.databases.contains(key.as_str()) {
            self.databases.insert(key, DatabaseDef::new(name));
        }
    }

    /// Whether there is a database of the name.
    pub fn database_exists(&self, name: &str) -> (r: bool)
        ensures
            r == has_database(self@, name@),
    {
        self.databases.contains(name.to_lowercase().as_str())
    }

    /// Removes a database and hands it out.
    pub fn remove_database(&mut self, name: &str) -> (r: Option<DatabaseDef>)
        ensures
            final(self)@ == (CatalogV {
                databases: old(self)@.databases.remove(normal(name@)),
                ..old(self)@
            }),
            match r {
                Some(d) => has_database(old(self)@, name@) && d@ == database(old(self)@, name@),
                None => !has_database(old(self)@, name@),
            },
    {
        self.databases.take(name.to_lowercase().as_str())
    }

    /// Adds a table to a database, with automatic numbers from one.
    pub fn create_table(
        &mut self,
        db_name: &str,
        table_name: &str,
        columns: Vec<Column>,
    ) -> (r: Result<(), String>)
        ensures
            match r {
                Ok(_) => table_created(old(self)@, db_name@, table_name@, model::views(columns@))
                    == Ok::<CatalogV, Seq<char>>(final(self)@),
                Err(e) => table_created(old(self)@, db_name@, table_name@, model::views(columns@))
                    == Err::<CatalogV, Seq<char>>(e@) && final(self)@ == old(self)@,
            },
    {
        let tn = table_name.to_lowercase();
        let dn = db_name.to_lowercase();
        let exists: bool = match self.databases.get(dn.as_str()) {
            None => {
                return Err(unknown_database_text(db_name));
            },
            Some(d) => d.tables.contains(tn.as_str()),
        };
        if exists {
            return Err(message("Table '", table_name, "' already exists"));
        }
        match self.databases.take(dn.as_str()) {
            None => Err(unknown_database_text(db_name)),
            Some(d) => {
                let mut d = d;
                d.tables.insert(tn.clone(), TableDef { name: table_name.to_string(), columns });
                if !d.indexes.contains(tn.as_str()) {
                    d.indexes.insert(tn.clone(), IndexList { items: Vec::new() });
                }
                self.databases.insert(dn, d);
                self.sequences.insert(tn, 1);
                assert(self@.databases =~= table_created(
                    old(self)@,
                    db_name@,
                    table_name@,
                    model::views(columns@),
                )->Ok_0.databases);
                Ok(())
            },
        }
    }

    /// Removes a table of a database, with its indexes and numbers.
    pub fn drop_table(&mut self, db_name: &str, table_name: &str) -> (r: Result<(), String>)
        ensures
            match r {
                Ok(_) => table_dropped(old(self)@, db_name@, table_name@) == Ok::<
                    CatalogV,
                    Seq<char>,
                >(final(self)@),
                Err(e) => table_dropped(old(self)@, db_name@, table_name@) == Err::<
                    CatalogV,
                    Seq<char>,
                >(e@) && final(self)@ == old(self)@,
            },
    {
        let tn = table_name.to_lowercase();
        let dn = db_name.to_lowercase();
        let exists: bool = match self.databases.get(dn.as_str()) {
            None => {
                return Err(unknown_database_text(db_name));
            },
            Some(d) => d.tables.contains(tn.as_str()),
        };
        if !exists {
            return Err(unknown_table_text(table_name));
        }
        match self.databases.take(dn.as_str()) {
            None => Err(unknown_database_text(db_name)),
            Some(d) => {
                let mut d = d;
                let _ = d.tables.take(tn.as_str());
                let _ = d.indexes.take(tn.as_str());
                self.databases.insert(dn, d);
                let _ = self.sequences.take(tn.as_str());
                assert(self@.databases =~= table_dropped(
                    old(self)@,
                    db_name@,
                    table_name@,
                )->Ok_0.databases);
                Ok(())
            },
        }
    }

    /// The definition of a table.
    pub fn get_table(&self, db_name: &str, table_name: &str) -> (r: Result<&TableDef, String>)
        ensures
            match r {
                Ok(t) => table_of(self@, db_name@, table_name@) == Ok::<TableV, Seq<char>>(t@),
                Err(e) => table_of(self@, db_name@, table_name@) == Err::<TableV, Seq<char>>(e@),
            },
    {
        match self.databases.get(db_name.to_lowercase().as_str()) {
            None => Err(unknown_database_text(db_name)),
            Some(d) => match d.tables.get(table_name.to_lowercase().as_str()) {
                None => Err(unknown_table_text(table_name)),
                Some(t) => Ok(t),
            },
        }
    }

    /// The next automatic number of a table.
    pub fn coming_row_id(&self, table_name: &str) -> (r: u64)
        ensures
            r == next_number(self@, table_name@),
    {
        match self.sequences.get(table_name.to_lowercase().as_str()) {
            Some(n) => *n,
            None => 1,
        }
    }

    /// Gives out `count` automatic numbers of a table and returns the first.
    pub fn next_row_id(&mut self, table_name: &str, count: u64) -> (r: u64)
        requires
            next_number(old(self)@, table_name@) + count <= u64::MAX,
        ensures
            r == next_number(old(self)@, table_name@),
            final(self)@ == numbers_given(old(self)@, table_name@, count),
    {
        let current: u64 = self.coming_row_id(table_name);
        self.sequences.insert(table_name.to_lowercase(), current + count);
        current
    }

    /// Whether a database has a table of the name.
    pub fn table_exists(&self, db_name: &str, table_name: &str) -> (r: bool)
        ensures
            r == has_table(self@, db_name@, table_name@),
    {
        match self.databases.get(db_name.to_lowercase().as_str()) {
            None => false,
            Some(d) => d.tables.contains(table_name.to_lowercase().as_str()),
        }
    }

    /// Adds an index to its table.
    pub fn create_index(&mut self, db_name: &str, index_def: IndexDef) -> (r: Result<(), String>)
        ensures
            match r {
                Ok(_) => index_created(old(self)@, db_name@, index_def@) == Ok::<
                    CatalogV,
                    Seq<char>,
                >(final(self)@),
                Err(e) => index_created(old(self)@, db_name@, index_def@) == Err::<
                    CatalogV,
                    Seq<char>,
                >(e@) && final(self)@ == old(self)@,
            },
    {
        let tn = index_def.table_name.as_str().to_lowercase();
        let dn = db_name.to_lowercase();
        match self.databases.get(dn.as_str()) {
            None => {
                return Err(unknown_database_text(db_name));
            },
            Some(d) => {
                if !d.tables.contains(tn.as_str()) {
                    return Err(unknown_table_text(index_def.table_name.as_str()));
                }
                match d.indexes.get(tn.as_str()) {
                    Some(list) => {
                        if let Some(_) = find_index(&list.items, index_def.name.as_str()) {
                            return Err(
                                message("Index '", index_def.name.as_str(), "' already exists"),
                            );
                        }
                    },
                    None => {
                        proof {
                            model::lemma_first_none(
                                Seq::<IndexDefV>::empty(),
                                is_named(index_def.name@),
                            );
                        }
                    },
                }
            },
        }
        match self.databases.take(dn.as_str()) {
            None => Err(unknown_database_text(db_name)),
            Some(d) => {
                let mut d = d;
                let mut list = match d.indexes.take(tn.as_str()) {
                    Some(list) => list,
                    None => IndexList { items: Vec::new() },
                };
                list.items.push(index_def);
                d.indexes.insert(tn, list);
                self.databases.insert(dn, d);
                proof {
                    let want = index_created(old(self)@, db_name@, index_def@)->Ok_0;
                    assert(d@.indexes =~= want.databases[normal(db_name@)].indexes);
                    assert(self@.databases =~= want.databases);
                }
                Ok(())
            },
        }
    }

    /// Removes the index of a name from a table and hands it out.
    pub fn drop_index(&mut self, db_name: &str, index_name: &str, table_name: &str) -> (r: Result<
        IndexDef,
        String,
    >)
        ensures
            match r {
                Ok(d) => index_dropped(old(self)@, db_name@, index_name@, table_name@) == Ok::<
                    (CatalogV, IndexDefV),
                    Seq<char>,
                >((final(self)@, d@)),
                Err(e) => index_dropped(old(self)@, db_name@, index_name@, table_name@) == Err::<
                    (CatalogV, IndexDefV),
                    Seq<char>,
                >(e@) && final(self)@ == old(self)@,
            },
    {
        let tn = table_name.to_lowercase();
        let dn = db_name.to_lowercase();
        let at: usize = match self.databases.get(dn.as_str()) {
            None => {
                return Err(unknown_database_text(db_name));
            },
            Some(d) => match d.indexes.get(tn.as_str()) {
                None => {
                    return Err(message("No indexes on table '", table_name, "'"));
                },
                Some(list) => match find_index(&list.items, index_name) {
                    None => {
                        let mut out = "Unknown index: ".to_string();
                        out.append(index_name);
                        return Err(out);
                    },
                    Some(i) => i,
                },
            },
        };
        let ghost listed = database(self@, db_name@).indexes[normal(table_name@)];
        match self.databases.take(dn.as_str()) {
            None => Err(unknown_database_text(db_name)),
            Some(d) => {
                let mut d = d;
                match d.indexes.take(tn.as_str()) {
                    None => Err(message("No indexes on table '", table_name, "'")),
                    Some(list) => {
                        let mut list = list;
                        assert(list@ == listed && at < listed.len());
                        let def = list.items.remove(at);
                        d.indexes.insert(tn, list);
                        self.databases.insert(dn, d);
                        proof {
                            let want = index_dropped(
                                old(self)@,
                                db_name@,
                                index_name@,
                                table_name@,
                            )->Ok_0.0;
                            assert(d@.indexes =~= want.databases[normal(db_name@)].indexes);
                            assert(self@.databases =~= want.databases);
                        }
                        Ok(def)
                    },
                }
            },
        }
    }

    /// The indexes on a table.
    pub fn get_table_indexes(&self, db_name: &str, table_name: &str) -> (r: Vec<IndexDef>)
        ensures
            model::views(r@) == indexes_of(self@, db_name@, table_name@),
    {
        match self.databases.get(db_name.to_lowercase().as_str()) {
            None => Vec::new(),
            Some(d) => match d.indexes.get(table_name.to_lowercase().as_str()) {
                None => Vec::new(),
                Some(list) => duplicate_all(list.items.as_slice()),
            },
        }
    }

    /// The index of a name on a table.
    pub fn get_index(&self, db_name: &str, table_name: &str, index_name: &str) -> (r: Option<
        IndexDef,
    >)
        ensures
            match index_place(indexes_of(self@, db_name@, table_name@), index_name@) {
                Some(i) => r is Some && r->0@ == indexes_of(self@, db_name@, table_name@)[i],
                None => r is None,
            },
    {
        let list = self.get_table_indexes(db_name, table_name);
        match find_index(&list, index_name) {
            Some(i) => Some(list[i].duplicate()),
            None => None,
        }
    }
}

} // verus!
