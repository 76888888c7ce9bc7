//! The write-ahead log: the changes since the last checkpoint, one frame each.

use vstd::prelude::*;
use vstd::string::*;

use crate::engine::catalog;
use crate::engine::catalog::{Catalog, CatalogV};
use crate::engine::codec;
use crate::engine::codec::{decode_list, encode_list, Coded};
use crate::engine::index::{IndexDef, IndexDefV};
use crate::engine::query;
use crate::engine::query::stored_index_name;
use crate::engine::storage;
use crate::engine::storage::{Row, RowV, Storage, StorageV};
use crate::engine::types::{duplicate_all, Column, ColumnV, Duplicate};
use crate::le;
use crate::model;
use crate::names;

verus! {

broadcast use crate::model::group_views;

/// The first byte of a frame.
pub const MAGIC_FIRST: u8 = 0x53;

/// The second byte of a frame.
pub const MAGIC_SECOND: u8 = 0x44;

/// The bytes in front of what a frame holds: two that mark it, four for its
/// length and one for its kind.
pub const ENTRY_HEADER_SIZE: usize = 7;

/// The kind of an entry.
#[derive(Debug, Clone, Copy, PartialEq, Eq, Structural)]
pub enum WalEntryType {
    CreateTable,
    DropTable,
    InsertRows,
    TableSnapshot,
    CreateIndex,
    DropIndex,
    Checkpoint,
}

/// The number of a kind in a frame.
pub open spec fn kind_code(t: WalEntryType) -> u8 {
    match t {
        WalEntryType::CreateTable => 1,
        WalEntryType::DropTable => 2,
        WalEntryType::InsertRows => 3,
        WalEntryType::TableSnapshot => 4,
        WalEntryType::CreateIndex => 5,
        WalEntryType::DropIndex => 6,
        WalEntryType::Checkpoint => 255,
    }
}

impl WalEntryType {
    /// The number of the kind in a frame.
    pub fn code(&self) -> (r: u8)
        ensures
            r == kind_code(*self),
    {
        match self {
            WalEntryType::CreateTable => 1,
            WalEntryType::DropTable => 2,
            WalEntryType::InsertRows => 3,
            WalEntryType::TableSnapshot => 4,
            WalEntryType::CreateIndex => 5,
            WalEntryType::DropIndex => 6,
            WalEntryType::Checkpoint => 255,
        }
    }
}

/// A change.
#[derive(Debug)]
pub enum WalEntry {
    CreateTable { table_name: String, columns: Vec<Column> },
    DropTable { table_name: String },
    InsertRows { table_name: String, rows: Vec<Row> },
    TableSnapshot { table_name: String, rows: Vec<Row> },
    CreateIndex { db_name: String, index_def: IndexDef },
    DropIndex { db_name: String, index_name: String, table_name: String },
    Checkpoint,
}

/// What a `WalEntry` stands for.
#[verifier::ext_equal]
pub enum EntryV {
    CreateTable { table_name: Seq<char>, columns: Seq<ColumnV> },
    DropTable { table_name: Seq<char> },
    InsertRows { table_name: Seq<char>, rows: Seq<RowV> },
    TableSnapshot { table_name: Seq<char>, rows: Seq<RowV> },
    CreateIndex { db_name: Seq<char>, index_def: IndexDefV },
    DropIndex { db_name: Seq<char>, index_name: Seq<char>, table_name: Seq<char> },
    Checkpoint,
}

impl View for WalEntry {
    type V = EntryV;

    open spec fn view(&self) -> EntryV {
        match self {
            WalEntry::CreateTable { table_name, columns } => EntryV::CreateTable {
                table_name: table_name@,
                columns: model::views(columns@),
            },
            WalEntry::DropTable { table_name } => EntryV::DropTable { table_name: table_name@ },
            WalEntry::InsertRows { table_name, rows } => EntryV::InsertRows {
                table_name: table_name@,
                rows: model::views(rows@),
            },
            WalEntry::TableSnapshot { table_name, rows } => EntryV::TableSnapshot {
                table_name: table_name@,
                rows: model::views(rows@),
            },
            WalEntry::CreateIndex { db_name, index_def } => EntryV::CreateIndex {
                db_name: db_name@,
                index_def: index_def@,
            },
            WalEntry::DropIndex { db_name, index_name, table_name } => EntryV::DropIndex {
                db_name: db_name@,
                index_name: index_name@,
                table_name: table_name@,
            },
            WalEntry::Checkpoint => EntryV::Checkpoint,
        }
    }
}

// ---------------------------------------------------------------------------
// Frames
// ---------------------------------------------------------------------------

pub open spec fn magic() -> Seq<u8> {
    seq![MAGIC_FIRST, MAGIC_SECOND]
}

/// A frame: its mark, its length with all that belongs to it, its kind, and what
/// it holds.
pub open spec fn frame(kind: u8, payload: Seq<u8>) -> Seq<u8> {
    magic() + le::le(7 + payload.len(), 4) + seq![kind] + payload
}

pub open spec fn entry_kind(e: EntryV) -> u8 {
    match e {
        EntryV::CreateTable { .. } => 1,
        EntryV::DropTable { .. } => 2,
        EntryV::InsertRows { .. } => 3,
        EntryV::TableSnapshot { .. } => 4,
        EntryV::CreateIndex { .. } => 5,
        EntryV::DropIndex { .. } => 6,
        EntryV::Checkpoint => 255,
    }
}

/// What the frame of an entry holds.
pub open spec fn entry_payload(e: EntryV) -> Seq<u8> {
    match e {
        EntryV::CreateTable { table_name, columns } => String::enc(table_name) + codec::enc_list::<
            Column,
        >(columns),
        EntryV::DropTable { table_name } => String::enc(table_name),
        EntryV::InsertRows { table_name, rows } => String::enc(table_name) + codec::enc_list::<Row>(
            rows,
        ),
        EntryV::TableSnapshot { table_name, rows } => String::enc(table_name) + codec::enc_list::<
            Row,
        >(rows),
        EntryV::CreateIndex { db_name, index_def } => String::enc(db_name) + IndexDef::enc(
            index_def,
        ),
        EntryV::DropIndex { db_name, index_name, table_name } => String::enc(db_name)
            + String::enc(index_name) + String::enc(table_name),
        EntryV::Checkpoint => Seq::empty(),
    }
}

/// The bytes of an entry in the log.
pub open spec fn entry_bytes(e: EntryV) -> Seq<u8> {
    frame(entry_kind(e), entry_payload(e))
}

/// The length of the entry in the log fits the four bytes that it is written in.
pub open spec fn entry_fits(e: EntryV) -> bool {
    entry_bytes(e).len() < 0x1_0000_0000
}

/// The lengths in what the frame of an entry holds fit the width that they are written
/// in.
spec fn lengths_fit(e: EntryV) -> bool {
    match e {
        EntryV::CreateTable { table_name, columns } => String::fits(table_name)
            && codec::list_fits::<Column>(columns),
        EntryV::DropTable { table_name } => String::fits(table_name),
        EntryV::InsertRows { table_name, rows } => String::fits(table_name) && codec::list_fits::<
            Row,
        >(rows),
        EntryV::TableSnapshot { table_name, rows } => String::fits(table_name)
            && codec::list_fits::<Row>(rows),
        EntryV::CreateIndex { db_name, index_def } => String::fits(db_name) && IndexDef::fits(
            index_def,
        ),
        EntryV::DropIndex { db_name, index_name, table_name } => String::fits(db_name)
            && String::fits(index_name) && String::fits(table_name),
        EntryV::Checkpoint => true,
    }
}

proof fn lemma_frame_length(kind: u8, payload: Seq<u8>)
    ensures
        frame(kind, payload).len() == 7 + payload.len(),
{
    le::lemma_le_len(7 + payload.len(), 4);
}

proof fn lemma_lengths_fit(e: EntryV)
    requires
        entry_fits(e),
    ensures
        lengths_fit(e),
        7 + entry_payload(e).len() < 0x1_0000_0000,
{
    lemma_frame_length(entry_kind(e), entry_payload(e));
    match e {
        EntryV::CreateTable { table_name, columns } => {
            String::fits_by_length(table_name);
            codec::list_fits_by_length::<Column>(columns);
        },
        EntryV::DropTable { table_name } => {
            String::fits_by_length(table_name);
        },
        EntryV::InsertRows { table_name, rows } => {
            String::fits_by_length(table_name);
            codec::list_fits_by_length::<Row>(rows);
        },
        EntryV::TableSnapshot { table_name, rows } => {
            String::fits_by_length(table_name);
            codec::list_fits_by_length::<Row>(rows);
        },
        EntryV::CreateIndex { db_name, index_def } => {
            String::fits_by_length(db_name);
            IndexDef::fits_by_length(index_def);
        },
        EntryV::DropIndex { db_name, index_name, table_name } => {
            String::fits_by_length(db_name);
            String::fits_by_length(index_name);
            String::fits_by_length(table_name);
        },
        EntryV::Checkpoint => {},
    }
}

/// What can be read from a frame.
pub enum ReadV {
    Entry(EntryV),
    /// The kind is not known; the frame is passed over.
    Unknown,
    /// What the frame holds is no entry of its kind.
    Malformed,
}

pub open spec fn read_named_rows(payload: Seq<u8>) -> Option<(Seq<char>, Seq<RowV>)> {
    match String::dec(payload) {
        None => None,
        Some((name, rest)) => match codec::dec_list::<Row>(rest) {
            None => None,
            Some((rows, _)) => Some((name, rows)),
        },
    }
}

/// The entry that a frame of a kind holds. What follows it in the frame is left.
pub open spec fn read_entry(kind: u8, payload: Seq<u8>) -> ReadV {
    if kind == 1 {
        match String::dec(payload) {
            None => ReadV::Malformed,
            Some((table_name, rest)) => match codec::dec_list::<Column>(rest) {
                None => ReadV::Malformed,
                Some((columns, _)) => ReadV::Entry(EntryV::CreateTable { table_name, columns }),
            },
        }
    } else if kind == 2 {
        match String::dec(payload) {
            None => ReadV::Malformed,
            Some((table_name, _)) => ReadV::Entry(EntryV::DropTable { table_name }),
        }
    } else if kind == 3 {
        match read_named_rows(payload) {
            None => ReadV::Malformed,
            Some((table_name, rows)) => ReadV::Entry(EntryV::InsertRows { table_name, rows }),
        }
    } else if kind == 4 {
        match read_named_rows(payload) {
            None => ReadV::Malformed,
            Some((table_name, rows)) => ReadV::Entry(EntryV::TableSnapshot { table_name, rows }),
        }
    } else if kind == 5 {
        match String::dec(payload) {
            None => ReadV::Malformed,
            Some((db_name, rest)) => match IndexDef::dec(rest) {
                None => ReadV::Malformed,
                Some((index_def, _)) => ReadV::Entry(EntryV::CreateIndex { db_name, index_def }),
            },
        }
    } else if kind == 6 {
        match String::dec(payload) {
            None => ReadV::Malformed,
            Some((db_name, r0)) => match String::dec(r0) {
                None => ReadV::Malformed,
                Some((index_name, r1)) => match String::dec(r1) {
                    None => ReadV::Malformed,
                    Some((table_name, _)) => ReadV::Entry(
                        EntryV::DropIndex { db_name, index_name, table_name },
                    ),
                },
            },
        }
    } else if kind == 255 {
        ReadV::Entry(EntryV::Checkpoint)
    } else {
        ReadV::Unknown
    }
}

/// The bytes of an entry start with the mark and with their length, and behind the
/// front they give the entry back.
pub proof fn entry_round_trip(e: EntryV)
    requires
        entry_bytes(e).len() < 0x1_0000_0000,
    ensures
        ({
            let b = entry_bytes(e);
            &&& b.len() >= 7
            &&& b.take(2) == magic()
            &&& b.subrange(2, 6) == le::le(b.len(), 4)
            &&& le::le_value(b.subrange(2, 6)) == b.len()
            &&& read_entry(b[6], b.skip(7)) == ReadV::Entry(e)
        }),
{
    lemma_payload_round_trip(e);
    lemma_frame_length(entry_kind(e), entry_payload(e));
    let b = entry_bytes(e);
    le::lemma_le_len(b.len(), 4);
    le::lemma_bounds();
    le::le_round_trip(b.len(), 4);
    assert(b.take(2) =~= magic());
    assert(b.subrange(2, 6) =~= le::le(b.len(), 4));
    assert(b.skip(7) =~= entry_payload(e));
}

proof fn lemma_payload_round_trip(e: EntryV)
    requires
        entry_fits(e),
    ensures
        read_entry(entry_kind(e), entry_payload(e)) == ReadV::Entry(e),
        7 + entry_payload(e).len() < 0x1_0000_0000,
{
    lemma_lengths_fit(e);
    let none = Seq::<u8>::empty();
    match e {
        EntryV::CreateTable { table_name, columns } => {
            String::round_trip(table_name, codec::enc_list::<Column>(columns));
            codec::list_round_trip::<Column>(columns, none);
            assert(codec::enc_list::<Column>(columns) + none =~= codec::enc_list::<Column>(
                columns,
            ));
        },
        EntryV::DropTable { table_name } => {
            String::round_trip(table_name, none);
            assert(String::enc(table_name) + none =~= String::enc(table_name));
        },
        EntryV::InsertRows { table_name, rows } => {
            lemma_named_rows(table_name, rows);
        },
        EntryV::TableSnapshot { table_name, rows } => {
            lemma_named_rows(table_name, rows);
        },
        EntryV::CreateIndex { db_name, index_def } => {
            String::round_trip(db_name, IndexDef::enc(index_def));
            IndexDef::round_trip(index_def, none);
            assert(IndexDef::enc(index_def) + none =~= IndexDef::enc(index_def));
        },
        EntryV::DropIndex { db_name, index_name, table_name } => {
            let last = String::enc(table_name);
            String::round_trip(table_name, none);
            assert(last + none =~= last);
            String::round_trip(index_name, last);
            String::round_trip(db_name, String::enc(index_name) + last);
            assert(String::enc(db_name) + String::enc(index_name) + last =~= String::enc(db_name)
                + (String::enc(index_name) + last));
        },
        EntryV::Checkpoint => {},
    }
}

proof fn lemma_named_rows(name: Seq<char>, rows: Seq<RowV>)
    requires
        String::fits(name),
        codec::list_fits::<Row>(rows),
    ensures
        read_named_rows(String::enc(name) + codec::enc_list::<Row>(rows)) == Some((name, rows)),
{
    let none = Seq::<u8>::empty();
    String::round_trip(name, codec::enc_list::<Row>(rows));
    codec::list_round_trip::<Row>(rows, none);
    assert(codec::enc_list::<Row>(rows) + none =~= codec::enc_list::<Row>(rows));
}

fn push_frame(out: &mut Vec<u8>, kind: u8, payload: &Vec<u8>)
    ensures
        final(out)@ == old(out)@ + frame(kind, payload@),
{
    out.push(MAGIC_FIRST);
    out.push(MAGIC_SECOND);
    let length: u128 = payload.len() as u128 + 7;
    let low: u64 = (length % 0x1_0000_0000) as u64;
    proof {
        lemma_le_low(length as nat);
    }
    le::push_le(out, low, 4);
    out.push(kind);
    out.extend_from_slice(payload.as_slice());
    assert(out@ =~= old(out)@ + frame(kind, payload@));
}

/// Four bytes hold a number up to multiples of their bound.
proof fn lemma_le_low(x: nat)
    ensures
        le::le(x, 4) == le::le(x % 0x1_0000_0000, 4),
{
    reveal_with_fuel(le::le, 5);
    let y = x % 0x1_0000_0000;
    assert(x % 256 == y % 256);
    assert((x / 256) % 256 == (y / 256) % 256);
    assert((x / 256 / 256) % 256 == (y / 256 / 256) % 256);
    assert((x / 256 / 256 / 256) % 256 == (y / 256 / 256 / 256) % 256);
    assert(le::le(x, 4) =~= le::le(y, 4));
}

impl WalEntry {
    /// The number of the kind of the entry.
    fn kind(&self) -> (r: u8)
        ensures
            r == entry_kind(self@),
    {
        match self {
            WalEntry::CreateTable { .. } => WalEntryType::CreateTable.code(),
            WalEntry::DropTable { .. } => WalEntryType::DropTable.code(),
            WalEntry::InsertRows { .. } => WalEntryType::InsertRows.code(),
            WalEntry::TableSnapshot { .. } => WalEntryType::TableSnapshot.code(),
            WalEntry::CreateIndex { .. } => WalEntryType::CreateIndex.code(),
            WalEntry::DropIndex { .. } => WalEntryType::DropIndex.code(),
            WalEntry::Checkpoint => WalEntryType::Checkpoint.code(),
        }
    }

    fn payload(&self) -> (r: Vec<u8>)
        ensures
            r@ == entry_payload(self@),
    {
        let mut out: Vec<u8> = Vec::new();
        match self {
            WalEntry::CreateTable { table_name, columns } => {
                table_name.encode(&mut out);
                encode_list(columns, &mut out);
            },
            WalEntry::DropTable { table_name } => {
                table_name.encode(&mut out);
            },
            WalEntry::InsertRows { table_name, rows } => {
                table_name.encode(&mut out);
                encode_list(rows, &mut out);
            },
            WalEntry::TableSnapshot { table_name, rows } => {
                table_name.encode(&mut out);
                encode_list(rows, &mut out);
            },
            WalEntry::CreateIndex { db_name, index_def } => {
                db_name.encode(&mut out);
                index_def.encode(&mut out);
            },
            WalEntry::DropIndex { db_name, index_name, table_name } => {
                db_name.encode(&mut out);
                index_name.encode(&mut out);
                table_name.encode(&mut out);
            },
            WalEntry::Checkpoint => {},
        }
        assert(out@ =~= entry_payload(self@));
        out
    }

    /// The bytes of the entry in the log.
    pub fn serialize(&self) -> (r: Vec<u8>)
        ensures
            r@ == entry_bytes(self@),
    {
        let payload = self.payload();
        let mut out: Vec<u8> = Vec::new();
        push_frame(&mut out, self.kind(), &payload);
        assert(out@ =~= entry_bytes(self@));
        out
    }

    /// The entry that a frame of a kind holds: `Ok(None)` where the kind is not
    /// known, an error where it holds no entry of its kind.
    pub fn deserialize(entry_type: u8, payload: &[u8]) -> (r: Result<Option<WalEntry>, ()>)
        ensures
            match r {
                Ok(Some(e)) => read_entry(entry_type, payload@) == ReadV::Entry(e@),
                Ok(None) => read_entry(entry_type, payload@) is Unknown,
                Err(_) => read_entry(entry_type, payload@) is Malformed,
            },
    {
        assert(payload@.skip(0) =~= payload@);
        if entry_type == 255 {
            return Ok(Some(WalEntry::Checkpoint));
        }
        if entry_type == 0 || entry_type > 6 {
            return Ok(None);
        }
        let (first, at) = match String::decode(payload, 0) {
            None => {
                return Err(());
            },
            Some(found) => found,
        };
        if entry_type == 1 {
            match decode_list::<Column>(payload, at) {
                None => Err(()),
                Some((columns, _)) => Ok(
                    Some(WalEntry::CreateTable { table_name: first, columns }),
                ),
            }
        } else if entry_type == 2 {
            Ok(Some(WalEntry::DropTable { table_name: first }))
        } else if entry_type == 3 {
            match decode_list::<Row>(payload, at) {
                None => Err(()),
                Some((rows, _)) => Ok(Some(WalEntry::InsertRows { table_name: first, rows })),
            }
        } else if entry_type == 4 {
            match decode_list::<Row>(payload, at) {
                None => Err(()),
                Some((rows, _)) => Ok(Some(WalEntry::TableSnapshot { table_name: first, rows })),
            }
        } else if entry_type == 5 {
            match IndexDef::decode(payload, at) {
                None => Err(()),
                Some((index_def, _)) => Ok(
                    Some(WalEntry::CreateIndex { db_name: first, index_def }),
                ),
            }
        } else {
            let (index_name, next) = match String::decode(payload, at) {
                None => {
                    return Err(());
                },
                Some(found) => found,
            };
            match String::decode(payload, next) {
                None => Err(()),
                Some((table_name, _)) => Ok(
                    Some(WalEntry::DropIndex { db_name: first, index_name, table_name }),
                ),
            }
        }
    }
}

// ---------------------------------------------------------------------------
// Replaying
// ---------------------------------------------------------------------------

/// A state that entries are applied to, and how many were.
#[verifier::ext_equal]
pub struct ReplayV {
    pub catalog: CatalogV,
    pub storage: StorageV,
    pub count: nat,
}

/// The storage without the contents of an index.
pub open spec fn without_index(s: StorageV, table: Seq<char>, index: Seq<char>) -> StorageV {
    StorageV { index_data: s.index_data.remove(query::index_key(table, index)), ..s }
}

/// The state after an entry, or nothing where the entry does not apply. Tables
/// belong to the database `srrdb`.
pub open spec fn applied(c: CatalogV, s: StorageV, e: EntryV) -> Option<(CatalogV, StorageV)> {
    match e {
        EntryV::CreateTable { table_name, columns } => match catalog::table_created(
            c,
            "srrdb"@,
            table_name,
            columns,
        ) {
            Ok(d) => Some((d, s)),
            Err(_) => None,
        },
        EntryV::DropTable { table_name } => match catalog::table_dropped(
            c,
            "srrdb"@,
            table_name,
        ) {
            Ok(d) => Some((d, storage::table_cleared(s, table_name))),
            Err(_) => None,
        },
        EntryV::InsertRows { table_name, rows } => if storage::can_insert(s, table_name, rows) {
            Some((c, storage::rows_inserted(s, table_name, rows)))
        } else {
            None
        },
        EntryV::TableSnapshot { table_name, rows } => {
            let cleared = storage::table_cleared(s, table_name);
            if rows.len() == 0 {
                Some((c, cleared))
            } else if storage::can_insert(cleared, table_name, rows) {
                Some((c, storage::rows_inserted(cleared, table_name, rows)))
            } else {
                None
            }
        },
        EntryV::CreateIndex { db_name, index_def } => match catalog::index_created(
            c,
            db_name,
            index_def,
        ) {
            Ok(d) => Some((d, s)),
            Err(_) => None,
        },
        EntryV::DropIndex { db_name, index_name, table_name } => match catalog::index_dropped(
            c,
            db_name,
            index_name,
            table_name,
        ) {
            Ok((d, _)) => Some((d, without_index(s, table_name, index_name))),
            Err(_) => None,
        },
        EntryV::Checkpoint => Some((c, s)),
    }
}

/// The state after an entry of the log: one that does not apply is not counted
/// and changes nothing.
pub open spec fn step(r: ReplayV, e: EntryV) -> ReplayV {
    match applied(r.catalog, r.storage, e) {
        Some((c, s)) => ReplayV { catalog: c, storage: s, count: r.count + 1 },
        None => r,
    }
}

/// The bytes start with a whole frame.
pub open spec fn starts_with_frame(bytes: Seq<u8>) -> bool {
    &&& bytes.len() >= 7
    &&& bytes.take(2) == magic()
    &&& 7 <= frame_length(bytes) <= bytes.len()
}

pub open spec fn frame_length(bytes: Seq<u8>) -> nat {
    le::le_value(bytes.subrange(2, 6))
}

/// The state after the frames of a log. Reading ends where no whole frame
/// follows, or where one holds no entry of its kind.
pub open spec fn replayed(r: ReplayV, bytes: Seq<u8>) -> ReplayV
    decreases bytes.len(),
{
    if !starts_with_frame(bytes) {
        r
    } else {
        let n = frame_length(bytes) as int;
        match read_entry(bytes[6], bytes.subrange(7, n)) {
            ReadV::Entry(e) => replayed(step(r, e), bytes.skip(n)),
            ReadV::Unknown => replayed(ReplayV { count: r.count + 1, ..r }, bytes.skip(n)),
            ReadV::Malformed => r,
        }
    }
}

/// The state after entries.
pub open spec fn stepped(r: ReplayV, entries: Seq<EntryV>) -> ReplayV
    decreases entries.len(),
{
    if entries.len() == 0 {
        r
    } else {
        stepped(step(r, entries[0]), entries.drop_first())
    }
}

/// The bytes of entries, one after the other.
pub open spec fn log_bytes(entries: Seq<EntryV>) -> Seq<u8>
    decreases entries.len(),
{
    if entries.len() == 0 {
        Seq::empty()
    } else {
        entry_bytes(entries[0]) + log_bytes(entries.drop_first())
    }
}

/// A frame is read back from the front of bytes.
proof fn lemma_frame_read(kind: u8, payload: Seq<u8>, rest: Seq<u8>)
    requires
        7 + payload.len() < 0x1_0000_0000,
    ensures
        starts_with_frame(frame(kind, payload) + rest),
        frame_length(frame(kind, payload) + rest) == 7 + payload.len(),
        (frame(kind, payload) + rest)[6] == kind,
        (frame(kind, payload) + rest).subrange(7, 7 + payload.len() as int) == payload,
        (frame(kind, payload) + rest).skip(7 + payload.len() as int) == rest,
{
    let all = frame(kind, payload) + rest;
    le::lemma_bounds();
    le::le_round_trip(7 + payload.len(), 4);
    assert(all.take(2) =~= magic());
    assert(all.subrange(2, 6) =~= le::le(7 + payload.len(), 4));
    assert(all.subrange(7, 7 + payload.len() as int) =~= payload);
    assert(all.skip(7 + payload.len() as int) =~= rest);
}

/// The frame of an entry at the front of bytes is a step.
proof fn lemma_frame_replayed(r: ReplayV, kind: u8, payload: Seq<u8>, e: EntryV, more: Seq<u8>)
    requires
        7 + payload.len() < 0x1_0000_0000,
        read_entry(kind, payload) == ReadV::Entry(e),
    ensures
        replayed(r, frame(kind, payload) + more) == replayed(step(r, e), more),
{
    lemma_frame_read(kind, payload, more);
}

/// Three parts can be grouped.
proof fn lemma_three_parts(a: Seq<u8>, b: Seq<u8>, c: Seq<u8>)
    ensures
        a + b + c == a + (b + c),
{
    assert(a + b + c =~= a + (b + c));
}

/// Replaying the bytes of entries is applying the entries, whatever follows
/// them is replayed afterwards.
pub proof fn log_is_replayed(r: ReplayV, entries: Seq<EntryV>, rest: Seq<u8>)
    requires
        forall|i: int| 0 <= i < entries.len() ==> entry_fits(#[trigger] entries[i]),
    ensures
        replayed(r, log_bytes(entries) + rest) == replayed(stepped(r, entries), rest),
    decreases entries.len(),
{
    if entries.len() == 0 {
        assert(log_bytes(entries) + rest =~= rest);
    } else {
        let e = entries[0];
        let tail = entries.drop_first();
        assert(entry_fits(e));
        assert forall|i: int| 0 <= i < tail.len() implies entry_fits(#[trigger] tail[i]) by {
            assert(entry_fits(entries[i + 1]));
        }
        let more = log_bytes(tail) + rest;
        lemma_payload_round_trip(e);
        lemma_frame_replayed(r, entry_kind(e), entry_payload(e), e, more);
        lemma_three_parts(entry_bytes(e), log_bytes(tail), rest);
        log_is_replayed(step(r, e), tail, rest);
    }
}

/// A log that was cut within an entry gives the entries before it.
pub proof fn cut_log_is_replayed(r: ReplayV, entries: Seq<EntryV>, e: EntryV, n: int)
    requires
        forall|i: int| 0 <= i < entries.len() ==> entry_fits(#[trigger] entries[i]),
        entry_fits(e),
        0 <= n < entry_bytes(e).len(),
    ensures
        replayed(r, log_bytes(entries) + entry_bytes(e).take(n)) == stepped(r, entries),
{
    let cut = entry_bytes(e).take(n);
    log_is_replayed(r, entries, cut);
    if starts_with_frame(cut) {
        let none = Seq::<u8>::empty();
        lemma_lengths_fit(e);
        lemma_frame_read(entry_kind(e), entry_payload(e), none);
        assert(entry_bytes(e) + none =~= entry_bytes(e));
        assert(cut.subrange(2, 6) =~= entry_bytes(e).subrange(2, 6));
    }
}

/// Applies an entry; one that does not apply changes nothing.
pub fn apply_entry(definitions: &mut Catalog, store: &mut Storage, entry: &WalEntry) -> (r: bool)
    ensures
        match applied(old(definitions)@, old(store)@, entry@) {
            Some((c, s)) => r && final(definitions)@ == c && final(store)@ == s,
            None => !r && final(definitions)@ == old(definitions)@ && final(store)@ == old(
                store,
            )@,
        },
{
    match entry {
        WalEntry::CreateTable { table_name, columns } => {
            match definitions.create_table(
                "srrdb",
                table_name.as_str(),
                duplicate_all(columns.as_slice()),
            ) {
                Ok(_) => true,
                Err(_) => false,
            }
        },
        WalEntry::DropTable { table_name } => {
            match definitions.drop_table("srrdb", table_name.as_str()) {
                Ok(_) => {
                    store.clear_table(table_name.as_str());
                    true
                },
                Err(_) => false,
            }
        },
        WalEntry::InsertRows { table_name, rows } => {
            if store.can_insert_rows(table_name.as_str(), rows) {
                let _ = store.insert_rows(
                    table_name.as_str(),
                    duplicate_all(rows.as_slice()),
                );
                true
            } else {
                false
            }
        },
        WalEntry::TableSnapshot { table_name, rows } => {
            if rows.len() > 0 && !fresh_rows_fit(rows) {
                proof {
                    lemma_fresh(store@, table_name@, model::views(rows@));
                }
                return false;
            }
            store.clear_table(table_name.as_str());
            if rows.len() > 0 {
                proof {
                    lemma_fresh(old(store)@, table_name@, model::views(rows@));
                }
                let _ = store.insert_rows(
                    table_name.as_str(),
                    duplicate_all(rows.as_slice()),
                );
            }
            true
        },
        WalEntry::CreateIndex { db_name, index_def } => {
            match definitions.create_index(db_name.as_str(), index_def.duplicate()) {
                Ok(_) => true,
                Err(_) => false,
            }
        },
        WalEntry::DropIndex { db_name, index_name, table_name } => {
            match definitions.drop_index(
                db_name.as_str(),
                index_name.as_str(),
                table_name.as_str(),
            ) {
                Ok(_) => {
                    let name = stored_index_name(table_name.as_str(), index_name.as_str());
                    let _ = store.index_data.take(name.as_str());
                    assert(store@ =~= without_index(old(store)@, table_name@, index_name@));
                    true
                },
                Err(_) => false,
            }
        },
        WalEntry::Checkpoint => true,
    }
}

/// Rows on their way into a table without rows.
pub open spec fn fresh_filling(rows: Seq<RowV>) -> storage::Filling {
    storage::filled(
        storage::Filling { rows: Seq::empty(), next: 1, ids: Seq::empty() },
        rows,
    )
}

/// After it was cleared, a table takes rows as a new one does.
proof fn lemma_fresh(s: StorageV, table: Seq<char>, rows: Seq<RowV>)
    ensures
        storage::insertion(storage::table_cleared(s, table), table, rows) == fresh_filling(rows),
{
    let cleared = storage::table_cleared(s, table);
    assert(storage::rows_of(cleared, table) =~= Seq::empty());
}

fn fresh_rows_fit(rows: &Vec<Row>) -> (r: bool)
    ensures
        r == (fresh_filling(model::views(rows@)).next <= u64::MAX),
{
    let store = Storage::new();
    proof {
        assert(storage::rows_of(store@, ""@) =~= Seq::empty());
    }
    store.can_insert_rows("", rows)
}

/// Replays the frames of a log and tells how many entries were applied or passed
/// over.
pub fn replay(bytes: &[u8], definitions: &mut Catalog, store: &mut Storage) -> (r: u64)
    ensures
        replayed(
            ReplayV { catalog: old(definitions)@, storage: old(store)@, count: 0 },
            bytes@,
        ) == (ReplayV {
            catalog: final(definitions)@,
            storage: final(store)@,
            count: r as nat,
        }),
{
    let ghost all = replayed(
        ReplayV { catalog: definitions@, storage: store@, count: 0 },
        bytes@,
    );
    let mut count: u64 = 0;
    let mut pos: usize = 0;
    assert(bytes@.skip(0) =~= bytes@);
    loop
        invariant
            pos <= bytes.len(),
            count <= pos,
            all == replayed(
                ReplayV { catalog: definitions@, storage: store@, count: count as nat },
                bytes@.skip(pos as int),
            ),
        ensures
            all == (ReplayV { catalog: definitions@, storage: store@, count: count as nat }),
        decreases bytes.len() - pos,
    {
        let ghost rest = bytes@.skip(pos as int);
        if bytes.len() - pos < ENTRY_HEADER_SIZE {
            break;
        }
        assert(rest.take(2) =~= seq![bytes@[pos as int], bytes@[pos + 1]]);
        if bytes[pos] != MAGIC_FIRST || bytes[pos + 1] != MAGIC_SECOND {
            proof {
                if rest.take(2) == magic() {
                    assert(rest.take(2)[0] == magic()[0]);
                    assert(rest.take(2)[1] == magic()[1]);
                }
            }
            break;
        }
        let length: u64 = le::read_le(bytes, pos + 2, 4);
        assert(bytes@.subrange(pos + 2, pos + 6) =~= rest.subrange(2, 6));
        if length < 7 || length > (bytes.len() - pos) as u64 {
            break;
        }
        let end: usize = pos + length as usize;
        let kind: u8 = bytes[pos + 6];
        let payload = vstd::slice::slice_subrange(bytes, pos + 7, end);
        assert(payload@ =~= rest.subrange(7, length as int));
        assert(rest.skip(length as int) =~= bytes@.skip(end as int));
        match WalEntry::deserialize(kind, payload) {
            Ok(Some(entry)) => {
                if apply_entry(definitions, store, &entry) {
                    count = count + 1;
                }
            },
            Ok(None) => {
                count = count + 1;
            },
            Err(_) => {
                break;
            },
        }
        pos = end;
    }
    count
}

// ---------------------------------------------------------------------------
// Checkpoints
// ---------------------------------------------------------------------------

/// The bytes of tables: each name with its rows.
pub open spec fn enc_tables(list: Seq<Seq<char>>, tables: Map<Seq<char>, Seq<RowV>>) -> Seq<u8>
    decreases list.len(),
{
    if list.len() == 0 {
        Seq::empty()
    } else {
        String::enc(list[0]) + codec::enc_list::<Row>(tables[list[0]]) + enc_tables(
            list.drop_first(),
            tables,
        )
    }
}

/// What the frame of a checkpoint holds: the catalog, the number of tables, and
/// each table.
pub open spec fn checkpoint_payload(c: CatalogV, s: StorageV) -> Seq<u8> {
    Catalog::enc(c) + le::le(names::listing(s.tables).len(), 8) + enc_tables(
        names::listing(s.tables),
        s.tables,
    )
}

/// The bytes of a log that holds a whole state.
pub open spec fn checkpoint_bytes(c: CatalogV, s: StorageV) -> Seq<u8> {
    frame(255, checkpoint_payload(c, s))
}

/// Why a log does not start with a checkpoint.
#[derive(Debug, Clone, Copy, PartialEq, Eq, Structural)]
pub enum CheckpointError {
    /// It does not start with a frame.
    Invalid,
    /// The frame is of another kind.
    NotCheckpoint,
    /// The frame holds no state.
    Malformed,
}

/// The storage after up to `n` tables were read. Where the bytes end between two
/// parts, reading ends without an error.
pub open spec fn tables_read(n: nat, bytes: Seq<u8>, s: StorageV) -> Result<
    StorageV,
    CheckpointError,
>
    decreases n,
{
    if n == 0 || bytes.len() == 0 {
        Ok(s)
    } else {
        match String::dec(bytes) {
            None => Err(CheckpointError::Malformed),
            Some((name, after_name)) => if after_name.len() == 0 {
                Ok(s)
            } else {
                match codec::dec_list::<Row>(after_name) {
                    None => Err(CheckpointError::Malformed),
                    Some((rows, rest)) => if storage::can_insert(s, name, rows) {
                        tables_read(
                            (n - 1) as nat,
                            rest,
                            storage::rows_inserted(s, name, rows),
                        )
                    } else {
                        Err(CheckpointError::Malformed)
                    },
                }
            },
        }
    }
}

pub open spec fn nothing_stored() -> StorageV {
    StorageV { tables: Map::empty(), next_ids: Map::empty(), index_data: Map::empty() }
}

/// The state that the frame of a checkpoint holds.
pub open spec fn state_read(payload: Seq<u8>) -> Result<(CatalogV, StorageV), CheckpointError> {
    match Catalog::dec(payload) {
        None => Err(CheckpointError::Malformed),
        Some((c, _)) => if Catalog::enc(c).len() >= payload.len() {
            Ok((c, nothing_stored()))
        } else {
            match codec::dec_le(payload.skip(Catalog::enc(c).len() as int), 8) {
                None => Err(CheckpointError::Malformed),
                Some((n, rest)) => match tables_read(n, rest, nothing_stored()) {
                    Ok(s) => Ok((c, s)),
                    Err(e) => Err(e),
                },
            }
        },
    }
}

/// What the first frame of a log holds, as far as the log goes.
pub open spec fn first_payload(bytes: Seq<u8>) -> Seq<u8> {
    let n = frame_length(bytes);
    bytes.subrange(
        7,
        if n < bytes.len() {
            n as int
        } else {
            bytes.len() as int
        },
    )
}

/// The state that a log starts with.
pub open spec fn checkpoint_read(bytes: Seq<u8>) -> Result<(CatalogV, StorageV), CheckpointError> {
    if bytes.len() < 7 || bytes.take(2) != magic() {
        Err(CheckpointError::Invalid)
    } else if bytes[6] != 255 {
        Err(CheckpointError::NotCheckpoint)
    } else if frame_length(bytes) < 7 {
        Err(CheckpointError::Malformed)
    } else {
        state_read(first_payload(bytes))
    }
}

/// The bytes of a log that holds a whole state.
pub fn build_checkpoint_data(definitions: &Catalog, store: &Storage) -> (r: Vec<u8>)
    ensures
        r@ == checkpoint_bytes(definitions@, store@),
{
    let ghost tables = store@.tables;
    let ghost list = names::listing(tables);
    let mut payload: Vec<u8> = Vec::new();
    definitions.encode(&mut payload);
    let count: usize = store.tables.len();
    let n: u64 = count as u64;
    n.encode(&mut payload);
    let ghost start = payload@;
    assert(list.skip(0) =~= list);
    let mut i: usize = 0;
    while i < count
        invariant
            tables == store@.tables,
            list == names::listing(tables),
            count == list.len(),
            i <= count,
            payload@ + enc_tables(list.skip(i as int), tables) == start + enc_tables(list, tables),
        decreases count - i,
    {
        let ghost before = payload@;
        proof {
            assert(list.skip(i as int).drop_first() =~= list.skip(i + 1));
            assert(list.skip(i as int)[0] == list[i as int]);
        }
        store.tables.name_at(i).encode(&mut payload);
        encode_list(store.tables.value_at(i).rows(), &mut payload);
        i = i + 1;
        assert(payload@ + enc_tables(list.skip(i as int), tables) =~= before + enc_tables(
            list.skip(i - 1),
            tables,
        ));
    }
    assert(list.skip(i as int) =~= Seq::empty());
    assert(payload@ =~= checkpoint_payload(definitions@, store@));
    let mut out: Vec<u8> = Vec::new();
    push_frame(&mut out, WalEntryType::Checkpoint.code(), &payload);
    assert(out@ =~= checkpoint_bytes(definitions@, store@));
    out
}

fn read_tables(bytes: &[u8], start: usize, count: u64) -> (r: Result<Storage, CheckpointError>)
    requires
        start <= bytes.len(),
    ensures
        match r {
            Ok(s) => tables_read(count as nat, bytes@.skip(start as int), nothing_stored()) == Ok::<
                StorageV,
                CheckpointError,
            >(s@),
            Err(e) => tables_read(count as nat, bytes@.skip(start as int), nothing_stored())
                == Err::<StorageV, CheckpointError>(e),
        },
{
    let ghost all = tables_read(count as nat, bytes@.skip(start as int), nothing_stored());
    let mut store = Storage::new();
    let mut pos: usize = start;
    let mut left: u64 = count;
    while left > 0 && pos < bytes.len()
        invariant
            pos <= bytes.len(),
            all == tables_read(count as nat, bytes@.skip(start as int), nothing_stored()),
            all == tables_read(left as nat, bytes@.skip(pos as int), store@),
        ensures
            all == Ok::<StorageV, CheckpointError>(store@),
        decreases left,
    {
        let (name, at) = match String::decode(bytes, pos) {
            None => {
                return Err(CheckpointError::Malformed);
            },
            Some(found) => found,
        };
        if at >= bytes.len() {
            return Ok(store);
        }
        let (rows, next) = match decode_list::<Row>(bytes, at) {
            None => {
                return Err(CheckpointError::Malformed);
            },
            Some(found) => found,
        };
        if !store.can_insert_rows(name.as_str(), &rows) {
            return Err(CheckpointError::Malformed);
        }
        let _ = store.insert_rows(name.as_str(), rows);
        pos = next;
        left = left - 1;
    }
    Ok(store)
}

fn read_state(payload: &[u8]) -> (r: Result<(Catalog, Storage), CheckpointError>)
    ensures
        match r {
            Ok(t) => state_read(payload@) == Ok::<(CatalogV, StorageV), CheckpointError>(
                (t.0@, t.1@),
            ),
            Err(e) => state_read(payload@) == Err::<(CatalogV, StorageV), CheckpointError>(e),
        },
{
    assert(payload@.skip(0) =~= payload@);
    let definitions = match Catalog::decode(payload, 0) {
        None => {
            return Err(CheckpointError::Malformed);
        },
        Some((c, _)) => c,
    };
    let mut encoded: Vec<u8> = Vec::new();
    definitions.encode(&mut encoded);
    assert(encoded@ =~= Catalog::enc(definitions@));
    let size: usize = encoded.len();
    if size >= payload.len() {
        return Ok((definitions, Storage::new()));
    }
    let (count, at) = match u64::decode(payload, size) {
        None => {
            return Err(CheckpointError::Malformed);
        },
        Some(found) => found,
    };
    proof {
        le::lemma_bounds();
        le::le_value_round_trip(payload@.skip(size as int).take(8));
    }
    match read_tables(payload, at, count) {
        Ok(store) => Ok((definitions, store)),
        Err(e) => Err(e),
    }
}

/// The state that a log starts with.
pub fn replay_checkpoint(data: &[u8]) -> (r: Result<(Catalog, Storage), CheckpointError>)
    ensures
        match r {
            Ok(t) => checkpoint_read(data@) == Ok::<(CatalogV, StorageV), CheckpointError>(
                (t.0@, t.1@),
            ),
            Err(e) => checkpoint_read(data@) == Err::<(CatalogV, StorageV), CheckpointError>(e),
        },
{
    if data.len() < ENTRY_HEADER_SIZE {
        return Err(CheckpointError::Invalid);
    }
    assert(data@.take(2) =~= seq![data@[0], data@[1]]);
    if data[0] != MAGIC_FIRST || data[1] != MAGIC_SECOND {
        proof {
            if data@.take(2) == magic() {
                assert(data@.take(2)[0] == magic()[0]);
                assert(data@.take(2)[1] == magic()[1]);
            }
        }
        return Err(CheckpointError::Invalid);
    }
    if data[6] != WalEntryType::Checkpoint.code() {
        return Err(CheckpointError::NotCheckpoint);
    }
    let length: u64 = le::read_le(data, 2, 4);
    if length < 7 {
        return Err(CheckpointError::Malformed);
    }
    let end: usize = if length < data.len() as u64 {
        length as usize
    } else {
        data.len()
    };
    let payload = vstd::slice::slice_subrange(data, 7, end);
    assert(payload@ =~= first_payload(data@));
    read_state(payload)
}

/// Rows with numbers in ascending order fill a new table as they are.
pub proof fn ordered_rows_fill_a_table(rows: Seq<RowV>)
    requires
        storage::sorted(rows),
        forall|i: int| 0 <= i < rows.len() ==> 0 < (#[trigger] rows[i]).id < u64::MAX,
    ensures
        fresh_filling(rows).rows == rows,
        fresh_filling(rows).next == (if rows.len() == 0 {
            1
        } else {
            rows.last().id as nat + 1
        }),
    decreases rows.len(),
{
    if rows.len() > 0 {
        let before = rows.drop_last();
        let last = rows.last();
        assert forall|i: int| 0 <= i < before.len() implies 0 < (#[trigger] before[i]).id < u64::MAX by {
            assert(before[i] == rows[i]);
        }
        assert(storage::sorted(before)) by {
            assert forall|i: int, j: int| 0 <= i < j < before.len() implies (#[trigger] before[i]).id
                < (#[trigger] before[j]).id by {
                assert(rows[i].id < rows[j].id);
            }
        }
        ordered_rows_fill_a_table(before);
        assert(rows[rows.len() - 1] == last);
        assert(0 < last.id < u64::MAX);
        assert forall|i: int| 0 <= i < before.len() implies (#[trigger] before[i]).id < last.id by {
            assert(rows[i].id < rows[rows.len() - 1].id);
        }
        storage::lemma_place_is(before, last.id, before.len() as int);
        assert(storage::row_put(before, last) =~= rows);
        if before.len() > 0 {
            assert(before.last() == before[before.len() - 1]);
        }
    }
}

/// A stored table comes back from a checkpoint as it was: its name is in lower
/// case, and its rows are in order and have numbers.
pub open spec fn is_kept(tables: Map<Seq<char>, Seq<RowV>>, name: Seq<char>) -> bool {
    &&& catalog::normal(name) == name
    &&& storage::sorted(tables[name])
    &&& forall|i: int|
        0 <= i < tables[name].len() ==> 0 < (#[trigger] tables[name][i]).id < u64::MAX
}

/// The lengths in a table can be written in 64 bits.
spec fn table_fits(tables: Map<Seq<char>, Seq<RowV>>, name: Seq<char>) -> bool {
    String::fits(name) && codec::list_fits::<Row>(tables[name])
}

/// The next row number of a table lies above all its rows.
pub open spec fn next_is_above(s: StorageV, name: Seq<char>) -> bool {
    &&& s.next_ids.contains_key(name)
    &&& forall|i: int| 0 <= i < s.tables[name].len() ==> (#[trigger] s.tables[name][i]).id
        < s.next_ids[name]
}

/// Tables whose bytes can be counted fit.
proof fn lemma_tables_fit(list: Seq<Seq<char>>, tables: Map<Seq<char>, Seq<RowV>>)
    requires
        enc_tables(list, tables).len() <= u64::MAX,
    ensures
        list.len() <= enc_tables(list, tables).len(),
        forall|i: int| 0 <= i < list.len() ==> table_fits(tables, #[trigger] list[i]),
    decreases list.len(),
{
    if list.len() > 0 {
        let tail = list.drop_first();
        String::fits_by_length(list[0]);
        codec::list_fits_by_length::<Row>(tables[list[0]]);
        lemma_tables_fit(tail, tables);
        assert forall|i: int| 0 <= i < list.len() implies table_fits(tables, #[trigger] list[i]) by {
            if i > 0 {
                assert(tail[i - 1] == list[i]);
            }
        }
    }
}

/// One table is read back.
proof fn lemma_table_read(
    n: nat,
    tables: Map<Seq<char>, Seq<RowV>>,
    name: Seq<char>,
    done: StorageV,
    more: Seq<u8>,
)
    requires
        n > 0,
        is_kept(tables, name),
        table_fits(tables, name),
        forall|t: Seq<char>| #[trigger] done.tables.contains_key(t) ==> next_is_above(done, t),
        !done.tables.contains_key(name),
        !done.next_ids.contains_key(name),
    ensures
        ({
            let next = storage::rows_inserted(done, name, tables[name]);
            &&& tables_read(
                n,
                String::enc(name) + (codec::enc_list::<Row>(tables[name]) + more),
                done,
            ) == tables_read((n - 1) as nat, more, next)
            &&& next.tables == done.tables.insert(name, tables[name])
            &&& next.index_data == done.index_data
            &&& forall|t: Seq<char>| #[trigger] next.tables.contains_key(t) ==> next_is_above(next, t)
        }),
{
    let rows = tables[name];
    let next = storage::rows_inserted(done, name, rows);
    let after = codec::enc_list::<Row>(rows) + more;
    le::lemma_le_len(vstd::utf8::encode_utf8(name).len(), 8);
    le::lemma_le_len(rows.len(), 8);
    String::round_trip(name, after);
    codec::list_round_trip::<Row>(rows, more);
    ordered_rows_fill_a_table(rows);
    assert(storage::rows_of(done, name) == Seq::<RowV>::empty());
    assert(storage::insertion(done, name, rows) == fresh_filling(rows));
    assert forall|t: Seq<char>| #[trigger] next.tables.contains_key(t) implies next_is_above(
        next,
        t,
    ) by {
        if t == name {
            assert forall|i: int| 0 <= i < rows.len() implies (#[trigger] rows[i]).id
                < next.next_ids[name] by {
                if i < rows.len() - 1 {
                    assert(rows[i].id < rows[rows.len() - 1].id);
                }
            }
        } else {
            assert(done.tables.contains_key(t));
            assert(next_is_above(done, t));
        }
    }
}

proof fn lemma_tail_ascends(list: Seq<Seq<char>>)
    requires
        names::ascending(list),
        list.len() > 0,
    ensures
        names::ascending(list.drop_first()),
        forall|i: int|
            0 <= i < list.drop_first().len() ==> #[trigger] list.drop_first()[i] != list[0],
{
    let tail = list.drop_first();
    assert forall|i: int| 0 <= i < tail.len() implies #[trigger] tail[i] != list[0] by {
        assert(crate::text::text_order(list[0], list[i + 1]) == crate::order::Order::Less);
        crate::text::text_order_flips(list[0], list[i + 1]);
    }
    assert forall|i: int, j: int| 0 <= i < j < tail.len() implies crate::text::text_order(
        #[trigger] tail[i],
        #[trigger] tail[j],
    ) == crate::order::Order::Less by {
        assert(crate::text::text_order(list[i + 1], list[j + 1]) == crate::order::Order::Less);
    }
}

proof fn lemma_tables_read(
    list: Seq<Seq<char>>,
    tables: Map<Seq<char>, Seq<RowV>>,
    done: StorageV,
    rest: Seq<u8>,
)
    requires
        names::ascending(list),
        forall|i: int|
            0 <= i < list.len() ==> is_kept(tables, #[trigger] list[i]) && table_fits(
                tables,
                list[i],
            ),
        forall|t: Seq<char>| #[trigger] done.tables.contains_key(t) ==> next_is_above(done, t),
        forall|i: int|
            0 <= i < list.len() ==> !done.tables.contains_key(#[trigger] list[i])
                && !done.next_ids.contains_key(list[i]),
    ensures
        tables_read(list.len(), enc_tables(list, tables) + rest, done) matches Ok(s) && s.tables
            == codec::with_names(done.tables, list, tables) && s.index_data == done.index_data && (
        forall|t: Seq<char>| #[trigger] s.tables.contains_key(t) ==> next_is_above(s, t)),
    decreases list.len(),
{
    if list.len() == 0 {
        assert(codec::with_names(done.tables, list, tables) =~= done.tables);
    } else {
        let name = list[0];
        let tail = list.drop_first();
        let more = enc_tables(tail, tables) + rest;
        assert(is_kept(tables, list[0]));
        lemma_table_read(list.len(), tables, name, done, more);
        assert(enc_tables(list, tables) + rest =~= String::enc(name) + (codec::enc_list::<Row>(
            tables[name],
        ) + more));
        let next = storage::rows_inserted(done, name, tables[name]);
        lemma_tail_ascends(list);
        assert forall|i: int| 0 <= i < tail.len() implies is_kept(tables, #[trigger] tail[i])
            && table_fits(tables, tail[i]) by {
            assert(is_kept(tables, list[i + 1]));
        }
        assert forall|i: int| 0 <= i < tail.len() implies !next.tables.contains_key(
            #[trigger] tail[i],
        ) && !next.next_ids.contains_key(tail[i]) by {
            assert(!done.tables.contains_key(list[i + 1]));
            assert(catalog::normal(name) == name);
        }
        lemma_tables_read(tail, tables, next, rest);
        codec::lemma_with_names_step(done.tables, list, tables);
    }
}

proof fn lemma_state_read(c: CatalogV, s: StorageV)
    requires
        Catalog::listed(c),
        names::lists(s.tables, names::listing(s.tables)),
        forall|name: Seq<char>| #[trigger] s.tables.contains_key(name) ==> is_kept(s.tables, name),
        checkpoint_payload(c, s).len() <= u64::MAX,
    ensures
        state_read(checkpoint_payload(c, s)) matches Ok((c2, s2)) && c2 == c && s2.tables
            == s.tables && s2.index_data == nothing_stored().index_data && (forall|t: Seq<char>|
            #[trigger] s2.tables.contains_key(t) ==> next_is_above(s2, t)),
{
    Catalog::fits_by_length(c);
    lemma_tables_fit(names::listing(s.tables), s.tables);
    let list = names::listing(s.tables);
    let tables = enc_tables(list, s.tables);
    let behind = le::le(list.len(), 8) + tables;
    let payload = checkpoint_payload(c, s);
    let size = Catalog::enc(c).len() as int;
    assert(payload == Catalog::enc(c) + behind) by {
        assert(payload =~= Catalog::enc(c) + behind);
    }
    assert(Catalog::dec(payload) == Some((c, behind))) by {
        Catalog::round_trip(c, behind);
    }
    assert(size < payload.len() && payload.skip(size) == behind) by {
        le::lemma_le_len(list.len(), 8);
        assert(payload.skip(size) =~= behind);
    }
    assert(codec::dec_le(behind, 8) == Some((list.len(), tables))) by {
        le::lemma_bounds();
        codec::lemma_dec_le(list.len(), 8, tables);
    }
    assert forall|i: int| 0 <= i < list.len() implies is_kept(s.tables, #[trigger] list[i])
        && table_fits(s.tables, list[i]) by {
        assert(list.contains(list[i]));
        assert(s.tables.contains_key(list[i]));
    }
    lemma_tables_read(list, s.tables, nothing_stored(), Seq::empty());
    assert(tables + Seq::<u8>::empty() =~= tables);
    assert(codec::with_names(Map::empty(), list, s.tables) =~= s.tables);
}

/// A checkpoint of less than 4 GiB gives back the state that it was made of: the
/// catalog and the rows of all tables, whatever follows it in the log. The next row
/// number of each table lies above all its rows.
pub proof fn checkpoint_restores_state(c: CatalogV, s: StorageV, rest: Seq<u8>)
    requires
        Catalog::listed(c),
        names::lists(s.tables, names::listing(s.tables)),
        forall|name: Seq<char>| #[trigger] s.tables.contains_key(name) ==> is_kept(s.tables, name),
        checkpoint_bytes(c, s).len() < 0x1_0000_0000,
    ensures
        checkpoint_read(checkpoint_bytes(c, s) + rest) matches Ok((c2, s2)) && c2 == c && s2.tables
            == s.tables && s2.index_data == nothing_stored().index_data && (forall|t: Seq<char>|
            #[trigger] s2.tables.contains_key(t) ==> next_is_above(s2, t)),
        frame_length(checkpoint_bytes(c, s) + rest) == checkpoint_bytes(c, s).len(),
{
    let payload = checkpoint_payload(c, s);
    lemma_frame_length(255, payload);
    lemma_frame_read(255, payload, rest);
    assert(first_payload(checkpoint_bytes(c, s) + rest) == payload);
    le::lemma_le_len(7 + payload.len(), 4);
    lemma_state_read(c, s);
}

/// What follows a checkpoint in the log does not matter to it.
pub proof fn checkpoint_is_read_whole(c: CatalogV, s: StorageV, rest: Seq<u8>)
    requires
        checkpoint_bytes(c, s).len() < 0x1_0000_0000,
    ensures
        checkpoint_read(checkpoint_bytes(c, s) + rest) == checkpoint_read(checkpoint_bytes(c, s)),
{
    let payload = checkpoint_payload(c, s);
    let none = Seq::<u8>::empty();
    lemma_frame_length(255, payload);
    lemma_frame_read(255, payload, rest);
    lemma_frame_read(255, payload, none);
    le::lemma_le_len(7 + payload.len(), 4);
    assert(checkpoint_bytes(c, s) + none =~= checkpoint_bytes(c, s));
    assert(first_payload(checkpoint_bytes(c, s) + rest) == payload);
    assert(first_payload(checkpoint_bytes(c, s)) == payload);
}

// ---------------------------------------------------------------------------
// The log file
// ---------------------------------------------------------------------------

/// The log: the path of its file, whether the file is open, and the bytes that
/// are still to be appended to it.
pub struct Wal {
    path: String,
    open: bool,
    pending: Vec<u8>,
}

/// What a `Wal` stands for.
#[verifier::ext_equal]
pub struct WalV {
    pub path: Seq<char>,
    pub open: bool,
    pub pending: Seq<u8>,
}

impl View for Wal {
    type V = WalV;

    closed spec fn view(&self) -> WalV {
        WalV { path: self.path@, open: self.open, pending: self.pending@ }
    }
}

/// The log after an entry was appended. To a closed log nothing is appended.
pub open spec fn logged(w: WalV, e: EntryV) -> WalV {
    if w.open {
        WalV { pending: w.pending + entry_bytes(e), ..w }
    } else {
        w
    }
}

/// The log of a data directory, not yet open.
pub open spec fn closed_log(dir: Seq<char>) -> WalV {
    WalV {
        path: crate::engine::persistence::joined(dir, "srrdb.wal"@),
        open: false,
        pending: Seq::empty(),
    }
}

impl Wal {
    /// The log of a data directory, not yet open.
    pub fn new(data_dir: &str) -> (r: Self)
        ensures
            r@ == closed_log(data_dir@),
    {
        Wal {
            path: crate::engine::persistence::join_path(data_dir, "srrdb.wal"),
            open: false,
            pending: Vec::new(),
        }
    }

    /// The path of the file.
    pub fn path(&self) -> (r: &str)
        ensures
            r@ == self@.path,
    {
        self.path.as_str()
    }

    /// Whether the file is open.
    pub fn is_open(&self) -> (r: bool)
        ensures
            r == self@.open,
    {
        self.open
    }

    /// Notes that the file is open.
    pub fn open(&mut self)
        ensures
            final(self)@ == (WalV { open: true, ..old(self)@ }),
    {
        self.open = true;
    }

    /// Appends an entry, where the file is open.
    pub fn append(&mut self, entry: &WalEntry)
        ensures
            final(self)@ == logged(old(self)@, entry@),
    {
        if self.open {
            let bytes = entry.serialize();
            self.pending.extend_from_slice(bytes.as_slice());
            assert(self.pending@ =~= old(self).pending@ + bytes@);
        }
    }

    /// Appends an entry and then starts the log anew with a checkpoint, which is
    /// returned.
    pub fn append_sync(&mut self, entry: &WalEntry, definitions: &Catalog, store: &Storage) -> (r:
        Vec<u8>)
        ensures
            final(self)@ == (WalV { open: true, pending: Seq::empty(), ..old(self)@ }),
            r@ == checkpoint_bytes(definitions@, store@),
    {
        self.append(entry);
        self.truncate(definitions, store)
    }

    /// Starts the log anew with a checkpoint: the returned bytes are the new
    /// contents of the file, which is then open.
    pub fn truncate(&mut self, definitions: &Catalog, store: &Storage) -> (r: Vec<u8>)
        ensures
            final(self)@ == (WalV { open: true, pending: Seq::empty(), ..old(self)@ }),
            r@ == checkpoint_bytes(definitions@, store@),
    {
        self.pending = Vec::new();
        self.open = true;
        assert(self@ =~= (WalV { open: true, pending: Seq::empty(), ..old(self)@ }));
        build_checkpoint_data(definitions, store)
    }

    /// Hands out the bytes that are to be appended to the file.
    pub fn take_pending(&mut self) -> (r: Vec<u8>)
        ensures
            r@ == old(self)@.pending,
            final(self)@ == (WalV { pending: Seq::empty(), ..old(self)@ }),
    {
        let mut bytes: Vec<u8> = Vec::new();
        std::mem::swap(&mut bytes, &mut self.pending);
        assert(self@ =~= (WalV { pending: Seq::empty(), ..old(self)@ }));
        bytes
    }

    /// Replays the contents of the file.
    pub fn replay(&self, bytes: &[u8], definitions: &mut Catalog, store: &mut Storage) -> (r: u64)
        ensures
            replayed(
                ReplayV { catalog: old(definitions)@, storage: old(store)@, count: 0 },
                bytes@,
            ) == (ReplayV {
                catalog: final(definitions)@,
                storage: final(store)@,
                count: r as nat,
            }),
    {
        replay(bytes, definitions, store)
    }
}

} // verus!
