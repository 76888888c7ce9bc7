//! Where the database is kept on disk, and in which form.

use vstd::prelude::*;
use vstd::string::*;

use crate::engine::catalog::{Catalog, CatalogV};
use crate::engine::codec;
use crate::engine::codec::{decode_list, encode_list, Coded};
use crate::engine::storage::{Row, RowV};
use crate::model;
use crate::text;

verus! {

broadcast use crate::model::group_views;

/// A path below a directory. An absolute path stays as it is; a slash is put
/// between the two unless the directory ends in one or is empty.
pub open spec fn joined(dir: Seq<char>, name: Seq<char>) -> Seq<char> {
    if name.len() > 0 && name[0] == '/' {
        name
    } else if dir.len() == 0 || dir.last() == '/' {
        dir + name
    } else {
        dir + "/"@ + name
    }
}

/// A path below a directory.
pub fn join_path(dir: &str, name: &str) -> (r: String)
    ensures
        r@ == joined(dir@, name@),
{
    let cs = text::chars_of(dir);
    let ns = text::chars_of(name);
    if ns.len() > 0 && ns[0] == '/' {
        return name.to_string();
    }
    let mut out = dir.to_string();
    if cs.len() > 0 && cs[cs.len() - 1] != '/' {
        out.append("/");
    }
    out.append(name);
    out
}

/// The directory that holds a database.
pub struct Persistence {
    data_dir: String,
}

impl View for Persistence {
    type V = Seq<char>;

    closed spec fn view(&self) -> Seq<char> {
        self.data_dir@
    }
}

/// The path of the catalog.
pub open spec fn catalog_file(dir: Seq<char>) -> Seq<char> {
    joined(dir, "catalog.srrdb"@)
}

/// The directory of the tables.
pub open spec fn tables_dir(dir: Seq<char>) -> Seq<char> {
    joined(dir, "tables"@)
}

/// The path of a table.
pub open spec fn table_file(dir: Seq<char>, table: Seq<char>) -> Seq<char> {
    joined(tables_dir(dir), table + ".srrdb"@)
}

impl Persistence {
    /// The database in a directory.
    pub fn new(data_dir: String) -> (r: Self)
        ensures
            r@ == data_dir@,
    {
        Persistence { data_dir }
    }

    /// The directory.
    pub fn data_dir(&self) -> (r: &str)
        ensures
            r@ == self@,
    {
        self.data_dir.as_str()
    }

    /// The path of the catalog.
    pub fn catalog_path(&self) -> (r: String)
        ensures
            r@ == catalog_file(self@),
    {
        join_path(self.data_dir.as_str(), "catalog.srrdb")
    }

    /// The directory of the tables.
    pub fn tables_path(&self) -> (r: String)
        ensures
            r@ == tables_dir(self@),
    {
        join_path(self.data_dir.as_str(), "tables")
    }

    /// The path of a table.
    pub fn table_path(&self, table_name: &str) -> (r: String)
        ensures
            r@ == table_file(self@, table_name@),
    {
        let mut file = table_name.to_string();
        file.append(".srrdb");
        join_path(self.tables_path().as_str(), file.as_str())
    }
}

/// The bytes of a catalog on disk.
pub fn catalog_bytes(definitions: &Catalog) -> (r: Vec<u8>)
    ensures
        r@ == Catalog::enc(definitions@),
{
    let mut out: Vec<u8> = Vec::new();
    definitions.encode(&mut out);
    assert(out@ =~= Catalog::enc(definitions@));
    out
}

/// The catalog that bytes from disk start with.
pub fn catalog_of(bytes: &[u8]) -> (r: Option<Catalog>)
    ensures
        match r {
            Some(c) => Catalog::dec(bytes@) matches Some((v, _)) && v == c@,
            None => Catalog::dec(bytes@) is None,
        },
{
    assert(bytes@.skip(0) =~= bytes@);
    match Catalog::decode(bytes, 0) {
        Some((c, _)) => Some(c),
        None => None,
    }
}

/// The bytes of the rows of a table on disk.
pub fn table_bytes(rows: &Vec<Row>) -> (r: Vec<u8>)
    ensures
        r@ == codec::enc_list::<Row>(model::views(rows@)),
{
    let mut out: Vec<u8> = Vec::new();
    encode_list(rows, &mut out);
    assert(out@ =~= codec::enc_list::<Row>(model::views(rows@)));
    out
}

/// The rows of a table that bytes from disk start with.
pub fn rows_in(bytes: &[u8]) -> (r: Option<Vec<Row>>)
    ensures
        match r {
            Some(rows) => codec::dec_list::<Row>(bytes@) matches Some((v, _)) && v == model::views(
                rows@,
            ),
            None => codec::dec_list::<Row>(bytes@) is None,
        },
{
    assert(bytes@.skip(0) =~= bytes@);
    match decode_list::<Row>(bytes, 0) {
        Some((rows, _)) => Some(rows),
        None => None,
    }
}

/// A catalog that was saved is loaded again.
pub proof fn saved_catalog_is_loaded(c: CatalogV)
    requires
        Catalog::fits(c),
    ensures
        Catalog::dec(Catalog::enc(c)) == Some((c, Seq::<u8>::empty())),
{
    Catalog::round_trip(c, Seq::empty());
    assert(Catalog::enc(c) + Seq::<u8>::empty() =~= Catalog::enc(c));
}

/// Rows that were saved are loaded again.
pub proof fn saved_rows_are_loaded(rows: Seq<RowV>)
    requires
        codec::list_fits::<Row>(rows),
    ensures
        codec::dec_list::<Row>(codec::enc_list::<Row>(rows)) == Some((rows, Seq::<u8>::empty())),
{
    codec::list_round_trip::<Row>(rows, Seq::empty());
    assert(codec::enc_list::<Row>(rows) + Seq::<u8>::empty() =~= codec::enc_list::<Row>(rows));
}

/// The catalog and the tables are kept below the directory, each table in a file of its
/// name.
pub proof fn files_stand_below_the_directory(dir: Seq<char>, table: Seq<char>)
    requires
        dir.len() > 0,
        dir.last() != '/',
        table.len() > 0,
        table[0] != '/',
    ensures
        catalog_file(dir) == dir + "/catalog.srrdb"@,
        table_file(dir, table) == dir + "/tables/"@ + table + ".srrdb"@,
        catalog_file(dir + "/"@) == catalog_file(dir),
        table_file(dir + "/"@, table) == table_file(dir, table),
{
    reveal_strlit("/");
    reveal_strlit("catalog.srrdb");
    reveal_strlit("/catalog.srrdb");
    reveal_strlit("tables");
    reveal_strlit("/tables/");
    reveal_strlit(".srrdb");
    assert((dir + "/"@).last() == '/');
    assert("tables"@[0] != '/' && "catalog.srrdb"@[0] != '/');
    assert(catalog_file(dir) =~= dir + "/catalog.srrdb"@);
    assert(catalog_file(dir + "/"@) =~= catalog_file(dir));
    assert(tables_dir(dir) =~= dir + "/"@ + "tables"@);
    assert(tables_dir(dir + "/"@) =~= tables_dir(dir));
    assert(tables_dir(dir).last() == 's');
    assert((table + ".srrdb"@)[0] == table[0]);
    assert(table_file(dir, table) =~= dir + "/tables/"@ + table + ".srrdb"@);
}

} // verus!
