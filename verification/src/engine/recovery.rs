//! The state after a restart: what the log holds, and what the files hold where the
//! log does not start with a checkpoint.

use vstd::prelude::*;

use crate::engine::catalog;
use crate::engine::catalog::{Catalog, CatalogV};
use crate::engine::codec;
use crate::engine::executor::{ExecV, Executor, SaveAction, SaveV};
use crate::engine::persistence::rows_in;
use crate::engine::storage;
use crate::engine::storage::{Row, RowV, Storage, StorageV};
use crate::engine::wal;
use crate::engine::wal::{replay, replay_checkpoint, ReplayV, WalV};
use crate::le;
use crate::model;
use crate::names;
use crate::sql::ast::{DropKind, SqlStatement};
use crate::text;
use crate::text::same_text;

verus! {

broadcast use crate::model::group_views;

// ---------------------------------------------------------------------------
// Files
// ---------------------------------------------------------------------------

/// The tables of some databases, in the order of the databases.
pub open spec fn tables_of(c: CatalogV, databases: Seq<Seq<char>>) -> Seq<Seq<char>>
    decreases databases.len(),
{
    if databases.len() == 0 {
        Seq::empty()
    } else {
        tables_of(c, databases.drop_last()) + names::listing(
            c.databases[databases.last()].tables,
        )
    }
}

/// All tables of a catalog, by database and name.
pub open spec fn all_tables(c: CatalogV) -> Seq<Seq<char>> {
    tables_of(c, names::listing(c.databases))
}

/// The storage with the rows in the file of a table. A file that is missing or
/// holds no rows adds nothing.
pub open spec fn file_loaded(s: StorageV, table: Seq<char>, file: Option<Seq<u8>>) -> StorageV {
    match file {
        None => s,
        Some(bytes) => match codec::dec_list::<Row>(bytes) {
            None => s,
            Some((rows, _)) => if storage::can_insert(s, table, rows) {
                storage::rows_inserted(s, table, rows)
            } else {
                s
            },
        },
    }
}

/// The storage with the rows in the files of some tables.
pub open spec fn files_loaded(tables: Seq<Seq<char>>, files: Seq<Option<Seq<u8>>>) -> StorageV
    decreases tables.len(),
{
    if tables.len() == 0 {
        wal::nothing_stored()
    } else {
        file_loaded(
            files_loaded(tables.drop_last(), files),
            tables.last(),
            files[tables.len() - 1],
        )
    }
}

/// The contents of files.
pub open spec fn contents(files: Seq<Option<Vec<u8>>>) -> Seq<Option<Seq<u8>>> {
    Seq::new(files.len(), |i: int| model::view_opt(files[i]))
}

/// All tables of a catalog, by database and name: the files to read.
pub fn tables_to_load(definitions: &Catalog) -> (r: Vec<String>)
    ensures
        model::views(r@) == all_tables(definitions@),
{
    let databases = &definitions.databases;
    let count: usize = databases.len();
    let ghost list = names::listing(databases@);
    let mut out: Vec<String> = Vec::new();
    let mut i: usize = 0;
    while i < count
        invariant
            databases@ == definitions@.databases,
            list == names::listing(databases@),
            count == list.len(),
            i <= count,
            model::views(out@) == tables_of(definitions@, list.take(i as int)),
        decreases count - i,
    {
        let ghost next = list.take(i + 1);
        let ghost before = model::views(out@);
        proof {
            assert(next.drop_last() =~= list.take(i as int));
            assert(next.last() == list[i as int]);
        }
        let tables = &databases.value_at(i).tables;
        let n: usize = tables.len();
        let ghost found = names::listing(tables@);
        let mut j: usize = 0;
        assert(before + found.take(0) =~= before);
        while j < n
            invariant
                found == names::listing(tables@),
                n == found.len(),
                j <= n,
                model::views(out@) == before + found.take(j as int),
            decreases n - j,
        {
            out.push(tables.name_at(j).clone());
            j = j + 1;
            assert(model::views(out@) =~= before + found.take(j as int));
        }
        assert(found.take(found.len() as int) =~= found);
        i = i + 1;
    }
    assert(list.take(list.len() as int) =~= list);
    out
}

/// The storage with the rows in the files of some tables.
pub fn load_tables(tables: &Vec<String>, files: &Vec<Option<Vec<u8>>>) -> (r: Storage)
    requires
        files@.len() == tables@.len(),
    ensures
        r@ == files_loaded(model::views(tables@), contents(files@)),
{
    let ghost list = model::views(tables@);
    let ghost data = contents(files@);
    let mut store = Storage::new();
    let mut i: usize = 0;
    while i < tables.len()
        invariant
            files@.len() == tables@.len(),
            list == model::views(tables@),
            data == contents(files@),
            i <= tables.len(),
            store@ == files_loaded(list.take(i as int), data),
        decreases tables.len() - i,
    {
        let ghost next = list.take(i + 1);
        proof {
            assert(next.drop_last() =~= list.take(i as int));
            assert(next.last() == tables@[i as int]@);
            assert(data[i as int] == model::view_opt(files@[i as int]));
        }
        if let Some(bytes) = &files[i] {
            if let Some(rows) = rows_in(bytes.as_slice()) {
                if store.can_insert_rows(tables[i].as_str(), &rows) {
                    store.insert_rows(tables[i].as_str(), rows);
                }
            }
        }
        i = i + 1;
    }
    assert(list.take(list.len() as int) =~= list);
    store
}

// ---------------------------------------------------------------------------
// The log
// ---------------------------------------------------------------------------

/// What follows the first frame of a log.
pub open spec fn behind_first(bytes: Seq<u8>) -> Seq<u8> {
    if wal::frame_length(bytes) <= bytes.len() {
        bytes.skip(wal::frame_length(bytes) as int)
    } else {
        Seq::empty()
    }
}

/// The state after a restart. A checkpoint at the start of the log gives the state
/// that the rest of the log is replayed on; without one, the log is replayed on the
/// state in the files.
pub open spec fn recovered(bytes: Seq<u8>, c: CatalogV, s: StorageV) -> ReplayV {
    match wal::checkpoint_read(bytes) {
        Ok((c2, s2)) => wal::replayed(
            ReplayV { catalog: c2, storage: s2, count: 0 },
            behind_first(bytes),
        ),
        Err(_) => wal::replayed(ReplayV { catalog: c, storage: s, count: 0 }, bytes),
    }
}

/// Whether a log starts with a checkpoint, so that no file needs to be read.
pub fn has_checkpoint(bytes: &[u8]) -> (r: bool)
    ensures
        r == wal::checkpoint_read(bytes@) is Ok,
{
    match replay_checkpoint(bytes) {
        Ok(_) => true,
        Err(_) => false,
    }
}

/// The state after a restart, and how many entries of the log were replayed.
pub fn recover(bytes: &[u8], definitions: Catalog, store: Storage) -> (r: (Catalog, Storage, u64))
    ensures
        recovered(bytes@, definitions@, store@) == (ReplayV {
            catalog: r.0@,
            storage: r.1@,
            count: r.2 as nat,
        }),
{
    match replay_checkpoint(bytes) {
        Ok((c, s)) => {
            let mut definitions = c;
            let mut store = s;
            let length: u64 = le::read_le(bytes, 2, 4);
            if length <= bytes.len() as u64 {
                let rest = vstd::slice::slice_subrange(bytes, length as usize, bytes.len());
                assert(rest@ =~= behind_first(bytes@));
                let count: u64 = replay(rest, &mut definitions, &mut store);
                (definitions, store, count)
            } else {
                assert(!wal::starts_with_frame(Seq::<u8>::empty()));
                (definitions, store, 0)
            }
        },
        Err(_) => {
            let mut definitions = definitions;
            let mut store = store;
            let count: u64 = replay(bytes, &mut definitions, &mut store);
            (definitions, store, count)
        },
    }
}

// ---------------------------------------------------------------------------
// Checkpoints
// ---------------------------------------------------------------------------

/// Writing every file: the catalog and all stored tables.
pub open spec fn every_file(s: StorageV) -> Seq<SaveV> {
    let list = names::listing(s.tables);
    seq![SaveV::Catalog] + Seq::new(list.len(), |i: int| SaveV::Table(list[i]))
}

/// The state after a checkpoint: the log is open and has nothing to append, and
/// every file is to be written, where there is a data directory.
pub open spec fn checkpointed(x: ExecV) -> ExecV {
    ExecV {
        wal: WalV { open: true, pending: Seq::empty(), ..x.wal },
        saves: if x.dir is Some {
            x.saves + every_file(x.storage)
        } else {
            x.saves
        },
        ..x
    }
}

/// Takes a checkpoint, and returns the bytes that the log starts anew with.
pub fn take_checkpoint(executor: &mut Executor) -> (r: Vec<u8>)
    ensures
        final(executor)@ == checkpointed(old(executor)@),
        r@ == wal::checkpoint_bytes(old(executor)@.catalog, old(executor)@.storage),
{
    let bytes = executor.wal.truncate(&executor.catalog, &executor.storage);
    let persistent: bool = match &executor.persistence {
        Some(_) => true,
        None => false,
    };
    if persistent {
        let ghost before = model::views(executor.saves@);
        let count: usize = executor.storage.tables.len();
        let ghost list = names::listing(executor.storage.tables@);
        let ghost all = every_file(executor@.storage);
        executor.saves.push(SaveAction::Catalog);
        let mut i: usize = 0;
        assert(model::views(executor.saves@) =~= before + all.take(1));
        while i < count
            invariant
                list == names::listing(executor.storage.tables@),
                count == list.len(),
                i <= count,
                all == every_file(executor@.storage),
                before == old(executor)@.saves,
                executor@ == (ExecV {
                    wal: WalV { open: true, pending: Seq::empty(), ..old(executor)@.wal },
                    saves: before + all.take(i + 1),
                    ..old(executor)@
                }),
            decreases count - i,
        {
            let name = executor.storage.tables.name_at(i).clone();
            executor.saves.push(SaveAction::Table(name));
            i = i + 1;
            assert(model::views(executor.saves@) =~= before + all.take(i + 1));
        }
        assert(all.take(all.len() as int) =~= all);
    }
    bytes
}

/// The log cannot replay a statement: it knows no databases, and its tables belong
/// to the database `srrdb`.
pub open spec fn is_beyond_log(db: Seq<char>, statement: SqlStatement) -> bool {
    match statement {
        SqlStatement::CreateDatabase { .. } => true,
        SqlStatement::Drop { kind: DropKind::Database, .. } => true,
        SqlStatement::Drop { kind: DropKind::Table, .. } => catalog::normal(db)
            != catalog::normal("srrdb"@),
        SqlStatement::CreateTable { .. } => catalog::normal(db) != catalog::normal("srrdb"@),
        _ => false,
    }
}

/// Whether a checkpoint must follow a statement, because the log cannot replay it.
pub fn needs_checkpoint(db: &str, statement: &SqlStatement) -> (r: bool)
    ensures
        r == is_beyond_log(db@, *statement),
{
    let elsewhere: bool = !same_text(
        db.to_lowercase().as_str(),
        "srrdb".to_lowercase().as_str(),
    );
    match statement {
        SqlStatement::CreateDatabase { .. } => true,
        SqlStatement::Drop { kind, .. } => match kind {
            DropKind::Database => true,
            DropKind::Table => elsewhere,
            _ => false,
        },
        SqlStatement::CreateTable { .. } => elsewhere,
        _ => false,
    }
}

/// The files that were written for tables of different names give their rows back, each
/// under its table, and the numbers of new rows go on behind them.
pub proof fn written_files_are_loaded(
    tables: Seq<Seq<char>>,
    files: Seq<Option<Seq<u8>>>,
    rows: Seq<Seq<RowV>>,
    i: int,
)
    requires
        files.len() == tables.len(),
        rows.len() == tables.len(),
        forall|j: int, k: int|
            0 <= j < k < tables.len() ==> text::lowercase(#[trigger] tables[j]) != text::lowercase(
                #[trigger] tables[k],
            ),
        forall|j: int|
            0 <= j < tables.len() ==> {
                &&& #[trigger] files[j] == Some(codec::enc_list::<Row>(rows[j]))
                &&& codec::list_fits::<Row>(rows[j])
                &&& storage::sorted(rows[j])
                &&& forall|k: int| 0 <= k < rows[j].len() ==> 0 < (#[trigger] rows[j][k]).id
                    < u64::MAX
            },
        0 <= i < tables.len(),
    ensures
        storage::rows_of(files_loaded(tables, files), tables[i]) == rows[i],
        storage::next_id(files_loaded(tables, files), tables[i]) == (if rows[i].len() == 0 {
            1
        } else {
            rows[i].last().id as int + 1
        }),
{
    lemma_files_loaded(tables, files, rows, tables[i]);
}

proof fn lemma_files_loaded(
    tables: Seq<Seq<char>>,
    files: Seq<Option<Seq<u8>>>,
    rows: Seq<Seq<RowV>>,
    name: Seq<char>,
)
    requires
        files.len() >= tables.len(),
        rows.len() >= tables.len(),
        forall|j: int, k: int|
            0 <= j < k < tables.len() ==> text::lowercase(#[trigger] tables[j]) != text::lowercase(
                #[trigger] tables[k],
            ),
        forall|j: int|
            0 <= j < tables.len() ==> {
                &&& #[trigger] files[j] == Some(codec::enc_list::<Row>(rows[j]))
                &&& codec::list_fits::<Row>(rows[j])
                &&& storage::sorted(rows[j])
                &&& forall|k: int| 0 <= k < rows[j].len() ==> 0 < (#[trigger] rows[j][k]).id
                    < u64::MAX
            },
    ensures
        forall|j: int|
            0 <= j < tables.len() && text::lowercase(#[trigger] tables[j]) == text::lowercase(name)
                ==> storage::rows_of(files_loaded(tables, files), name) == rows[j]
                && storage::next_id(files_loaded(tables, files), name) == (if rows[j].len() == 0 {
                1
            } else {
                rows[j].last().id as int + 1
            }),
        (forall|j: int|
            0 <= j < tables.len() ==> text::lowercase(#[trigger] tables[j]) != text::lowercase(
                name,
            )) ==> storage::rows_of(files_loaded(tables, files), name).len() == 0
            && storage::next_id(files_loaded(tables, files), name) == 1,
    decreases tables.len(),
{
    if tables.len() > 0 {
        let before = tables.drop_last();
        let last = tables.len() - 1;
        assert forall|j: int, k: int| 0 <= j < k < before.len() implies text::lowercase(
            #[trigger] before[j],
        ) != text::lowercase(#[trigger] before[k]) by {
            assert(before[j] == tables[j] && before[k] == tables[k]);
        }
        lemma_files_loaded(before, files, rows, name);
        lemma_files_loaded(before, files, rows, tables[last]);
        assert forall|j: int| 0 <= j < before.len() implies text::lowercase(#[trigger] before[j])
            != text::lowercase(tables[last]) by {
            assert(before[j] == tables[j]);
        }
        assert(files[last] == Some(codec::enc_list::<Row>(rows[last])));
        crate::engine::persistence::saved_rows_are_loaded(rows[last]);
        wal::ordered_rows_fill_a_table(rows[last]);
        let s = files_loaded(before, files);
        assert(storage::rows_of(s, tables[last]) =~= Seq::empty());
        assert(storage::insertion(s, tables[last], rows[last]) == wal::fresh_filling(rows[last]));
        assert forall|j: int|
            0 <= j < tables.len() && text::lowercase(#[trigger] tables[j]) == text::lowercase(
                name,
            ) implies storage::rows_of(files_loaded(tables, files), name) == rows[j]
            && storage::next_id(files_loaded(tables, files), name) == (if rows[j].len() == 0 {
            1
        } else {
            rows[j].last().id as int + 1
        }) by {
            if j < last {
                assert(before[j] == tables[j]);
            }
        }
        if forall|j: int|
            0 <= j < tables.len() ==> text::lowercase(#[trigger] tables[j]) != text::lowercase(
                name,
            ) {
            assert forall|j: int| 0 <= j < before.len() implies text::lowercase(
                #[trigger] before[j],
            ) != text::lowercase(name) by {
                assert(before[j] == tables[j]);
            }
            assert(tables[last] == tables.last());
        }
    }
}

/// A checkpoint leaves the definitions and the rows as they are, and queues the catalog and
/// each table that holds rows to be written where there is a data directory.
pub proof fn checkpoint_writes_everything(x: ExecV, table: Seq<char>)
    requires
        x.dir is Some,
        names::lists(x.storage.tables, names::listing(x.storage.tables)),
    ensures
        ({
            let y = checkpointed(x);
            &&& y.catalog == x.catalog && y.storage == x.storage && y.numbers == x.numbers
            &&& y.wal.pending.len() == 0
            &&& y.saves.take(x.saves.len() as int) == x.saves
            &&& y.saves.skip(x.saves.len() as int).contains(SaveV::Catalog)
            &&& y.saves.skip(x.saves.len() as int).contains(SaveV::Table(table))
                <==> x.storage.tables.contains_key(table)
        }),
{
    let y = checkpointed(x);
    let list = names::listing(x.storage.tables);
    let new = y.saves.skip(x.saves.len() as int);
    assert(y.saves.take(x.saves.len() as int) =~= x.saves);
    assert(new =~= every_file(x.storage));
    assert(new[0] == SaveV::Catalog);
    if x.storage.tables.contains_key(table) {
        assert(list.contains(table));
        let i = choose|i: int| 0 <= i < list.len() && list[i] == table;
        assert(new[i + 1] == SaveV::Table(table));
    }
    if new.contains(SaveV::Table(table)) {
        let i = choose|i: int| 0 <= i < new.len() && new[i] == SaveV::Table(table);
        assert(list[i - 1] == table);
        assert(list.contains(table));
    }
}

} // verus!
