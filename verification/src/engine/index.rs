//! Secondary indexes: which rows hold which key.

use vstd::prelude::*;

use crate::engine::types;
use crate::engine::types::{duplicate_all, order_keys, Duplicate, Val, Value};
use crate::float;
use crate::model;
use crate::order;
use crate::order::Order;
use crate::text;

verus! {

broadcast use crate::model::group_views;

/// The kind of an index. Only an ordered one answers range questions.
#[derive(Debug, Clone, Copy, PartialEq, Eq, Structural)]
pub enum IndexType {
    BTree,
    Hash,
}

impl IndexType {
    /// The name of the kind in SQL.
    pub fn to_string(&self) -> (r: String)
        ensures
            r@ == (match *self {
                IndexType::BTree => "BTREE"@,
                IndexType::Hash => "HASH"@,
            }),
    {
        match self {
            IndexType::BTree => "BTREE".to_string(),
            IndexType::Hash => "HASH".to_string(),
        }
    }
}

/// The definition of an index.
#[derive(Debug)]
pub struct IndexDef {
    pub name: String,
    pub index_type: IndexType,
    pub table_name: String,
    pub columns: Vec<String>,
    pub unique: bool,
}

/// What an `IndexDef` stands for.
#[verifier::ext_equal]
pub struct IndexDefV {
    pub name: Seq<char>,
    pub index_type: IndexType,
    pub table_name: Seq<char>,
    pub columns: Seq<Seq<char>>,
    pub unique: bool,
}

impl View for IndexDef {
    type V = IndexDefV;

    open spec fn view(&self) -> IndexDefV {
        IndexDefV {
            name: self.name@,
            index_type: self.index_type,
            table_name: self.table_name@,
            columns: model::views(self.columns@),
            unique: self.unique,
        }
    }
}

impl Duplicate for IndexDef {
    fn duplicate(&self) -> (r: Self) {
        IndexDef {
            name: self.name.clone(),
            index_type: self.index_type,
            table_name: self.table_name.clone(),
            columns: duplicate_all(self.columns.as_slice()),
            unique: self.unique,
        }
    }
}

impl Clone for IndexDef {
    fn clone(&self) -> (r: Self)
        ensures
            r@ == self@,
    {
        self.duplicate()
    }
}

/// One key of an index and the rows that hold it.
#[derive(Debug)]
struct IndexEntry {
    key: Vec<Value>,
    ids: Vec<u64>,
}

/// The contents of an index: for each key the rows that hold it, in the order in
/// which they were entered.
#[derive(Debug)]
pub struct IndexData {
    kind: IndexType,
    entries: Vec<IndexEntry>,
}

/// What an `IndexData` stands for.
#[verifier::ext_equal]
pub struct IndexV {
    pub kind: IndexType,
    pub map: Map<Seq<Val>, Seq<u64>>,
}

/// The rows under a key.
pub open spec fn ids_at(map: Map<Seq<Val>, Seq<u64>>, key: Seq<Val>) -> Seq<u64> {
    if map.contains_key(key) {
        map[key]
    } else {
        Seq::empty()
    }
}

/// The key holds something that is not a number, which equals nothing.
pub open spec fn has_nan(key: Seq<Val>) -> bool {
    exists|i: int| 0 <= i < key.len() && is_nan(#[trigger] key[i])
}

pub open spec fn is_nan(v: Val) -> bool {
    match v {
        Val::Float(bits) => float::is_nan(bits as u64, float::SINGLE),
        Val::Double(bits) => float::is_nan(bits, float::DOUBLE),
        _ => false,
    }
}

/// An index of the kind can find the key again.
pub open spec fn can_find(kind: IndexType, key: Seq<Val>) -> bool {
    kind == IndexType::BTree || !has_nan(key)
}

/// The index after a row was entered under a key. A key that an index cannot
/// find again leaves no trace.
pub open spec fn entered(index: IndexV, key: Seq<Val>, id: u64) -> IndexV {
    if can_find(index.kind, key) {
        IndexV { map: index.map.insert(key, ids_at(index.map, key).push(id)), ..index }
    } else {
        index
    }
}

/// The row numbers without one of them.
pub open spec fn without(ids: Seq<u64>, id: u64) -> Seq<u64>
    decreases ids.len(),
{
    if ids.len() == 0 {
        ids
    } else if ids.last() == id {
        without(ids.drop_last(), id)
    } else {
        without(ids.drop_last(), id).push(ids.last())
    }
}

/// The index after a row was removed from under a key. A key without rows is
/// forgotten.
pub open spec fn removed(index: IndexV, key: Seq<Val>, id: u64) -> IndexV {
    if !index.map.contains_key(key) {
        index
    } else if without(index.map[key], id).len() == 0 {
        IndexV { map: index.map.remove(key), ..index }
    } else {
        IndexV { map: index.map.insert(key, without(index.map[key], id)), ..index }
    }
}

/// The keys are in strictly ascending order.
pub open spec fn ascending(keys: Seq<Seq<Val>>) -> bool {
    forall|i: int, j: int|
        0 <= i < j < keys.len() ==> types::key_order(#[trigger] keys[i], #[trigger] keys[j])
            == Order::Less
}

/// The rows under the keys, one key after the other.
pub open spec fn listed(map: Map<Seq<Val>, Seq<u64>>, keys: Seq<Seq<Val>>) -> Seq<u64>
    decreases keys.len(),
{
    if keys.len() == 0 {
        Seq::empty()
    } else {
        listed(map, keys.drop_last()) + ids_at(map, keys.last())
    }
}

/// `keys` are the keys of the index that satisfy `wanted`, in ascending order.
pub open spec fn selects(
    map: Map<Seq<Val>, Seq<u64>>,
    wanted: spec_fn(Seq<Val>) -> bool,
    keys: Seq<Seq<Val>>,
) -> bool {
    &&& ascending(keys)
    &&& forall|k: Seq<Val>| #[trigger] keys.contains(k) <==> map.contains_key(k) && wanted(k)
}

/// The key lies between two bounds, both of which belong to the range.
pub open spec fn within(low: Option<Seq<Val>>, high: Option<Seq<Val>>) -> spec_fn(
    Seq<Val>,
) -> bool {
    |k: Seq<Val>|
        (match low {
            Some(l) => types::key_order(l, k) != Order::Greater,
            None => true,
        }) && (match high {
            Some(h) => types::key_order(k, h) != Order::Greater,
            None => true,
        })
}

/// The key lies from `start` up to, and not at, `end`.
pub open spec fn from_to(start: Seq<Val>, end: Seq<Val>) -> spec_fn(Seq<Val>) -> bool {
    |k: Seq<Val>|
        types::key_order(start, k) != Order::Greater && types::key_order(k, end) == Order::Less
}

spec fn key_at(s: Seq<IndexEntry>, i: int) -> Seq<Val> {
    model::views(s[i].key@)
}

spec fn keys_of(s: Seq<IndexEntry>) -> Seq<Seq<Val>> {
    Seq::new(s.len(), |i: int| key_at(s, i))
}

spec fn holds(s: Seq<IndexEntry>, i: int, k: Seq<Val>) -> bool {
    0 <= i < s.len() && key_at(s, i) == k
}

spec fn as_map(s: Seq<IndexEntry>) -> Map<Seq<Val>, Seq<u64>> {
    Map::new(
        |k: Seq<Val>| exists|i: int| holds(s, i, k),
        |k: Seq<Val>| s[choose|i: int| holds(s, i, k)].ids@,
    )
}

spec fn good(kind: IndexType, s: Seq<IndexEntry>) -> bool {
    &&& ascending(keys_of(s))
    &&& forall|i: int| 0 <= i < s.len() ==> (#[trigger] s[i]).ids@.len() > 0
    &&& forall|i: int| 0 <= i < s.len() ==> can_find(kind, #[trigger] key_at(s, i))
}

proof fn lemma_less_differs(a: Seq<Val>, b: Seq<Val>)
    requires
        types::key_order(a, b) == Order::Less,
    ensures
        a != b,
        types::key_order(b, a) == Order::Greater,
{
    types::key_order_flips(a, b);
}

proof fn lemma_held(kind: IndexType, s: Seq<IndexEntry>, i: int)
    requires
        good(kind, s),
        0 <= i < s.len(),
    ensures
        as_map(s).contains_key(key_at(s, i)),
        as_map(s)[key_at(s, i)] == s[i].ids@,
{
    let k = key_at(s, i);
    assert(holds(s, i, k));
    let j = choose|j: int| holds(s, j, k);
    assert(holds(s, j, k));
    if i < j {
        assert(types::key_order(keys_of(s)[i], keys_of(s)[j]) == Order::Less);
        lemma_less_differs(k, k);
    } else if j < i {
        assert(types::key_order(keys_of(s)[j], keys_of(s)[i]) == Order::Less);
        lemma_less_differs(k, k);
    }
}

/// Where a key belongs: everything before the place is smaller, everything from
/// it on is not.
spec fn belongs(s: Seq<IndexEntry>, key: Seq<Val>, place: int) -> bool {
    &&& 0 <= place <= s.len()
    &&& forall|i: int| 0 <= i < place ==> types::key_order(#[trigger] key_at(s, i), key) == Order::Less
    &&& forall|i: int|
        place <= i < s.len() ==> types::key_order(#[trigger] key_at(s, i), key) != Order::Less
}

/// The keys up to and with a given one end at a place.
spec fn ends_at(s: Seq<IndexEntry>, key: Seq<Val>, place: int) -> bool {
    if as_map(s).contains_key(key) {
        belongs(s, key, place - 1)
    } else {
        belongs(s, key, place)
    }
}

impl View for IndexData {
    type V = IndexV;

    closed spec fn view(&self) -> IndexV {
        IndexV { kind: self.kind, map: as_map(self.entries@) }
    }
}

fn holds_nan(key: &[Value]) -> (r: bool)
    ensures
        r == has_nan(model::views(key@)),
{
    let ghost k = model::views(key@);
    let mut i: usize = 0;
    while i < key.len()
        invariant
            k == model::views(key@),
            i <= key.len(),
            forall|j: int| 0 <= j < i ==> !is_nan(#[trigger] k[j]),
        decreases key.len() - i,
    {
        let nan: bool = match &key[i] {
            Value::Float(bits) => float::not_a_number(*bits as u64, float::SINGLE),
            Value::Double(bits) => float::not_a_number(*bits, float::DOUBLE),
            _ => false,
        };
        if nan {
            assert(is_nan(k[i as int]));
            return true;
        }
        assert(!is_nan(k[i as int]));
        i = i + 1;
    }
    false
}

impl IndexData {
    #[verifier::type_invariant]
    spec fn wf(self) -> bool {
        good(self.kind, self.entries@)
    }

    /// An empty index of a kind.
    pub fn new(index_type: IndexType) -> (r: Self)
        ensures
            r@ == (IndexV { kind: index_type, map: Map::empty() }),
    {
        let r = IndexData { kind: index_type, entries: Vec::new() };
        assert(r@.map =~= Map::empty());
        r
    }

    /// The place where a key belongs.
    fn place(&self, key: &[Value]) -> (r: usize)
        ensures
            belongs(self.entries@, model::views(key@), r as int),
    {
        proof {
            use_type_invariant(self);
        }
        let ghost s = self.entries@;
        let ghost k = model::views(key@);
        let mut low: usize = 0;
        let mut high: usize = self.entries.len();
        while low < high
            invariant
                s == self.entries@,
                k == model::views(key@),
                ascending(keys_of(s)),
                low <= high <= s.len(),
                forall|i: int|
                    0 <= i < low ==> types::key_order(#[trigger] key_at(s, i), k) == Order::Less,
                forall|i: int|
                    high <= i < s.len() ==> types::key_order(#[trigger] key_at(s, i), k)
                        != Order::Less,
            decreases high - low,
        {
            let mid: usize = low + (high - low) / 2;
            let o = order_keys(self.entries[mid].key.as_slice(), key);
            match o {
                Order::Less => {
                    proof {
                        assert forall|i: int| 0 <= i < mid + 1 implies types::key_order(
                            #[trigger] key_at(s, i),
                            k,
                        ) == Order::Less by {
                            if i < mid {
                                assert(types::key_order(keys_of(s)[i], keys_of(s)[mid as int])
                                    == Order::Less);
                                types::key_order_transitive(
                                    key_at(s, i),
                                    key_at(s, mid as int),
                                    k,
                                );
                            }
                        }
                    }
                    low = mid + 1;
                },
                _ => {
                    proof {
                        assert forall|i: int| mid <= i < s.len() implies types::key_order(
                            #[trigger] key_at(s, i),
                            k,
                        ) != Order::Less by {
                            if i > mid && types::key_order(key_at(s, i), k) == Order::Less {
                                assert(types::key_order(keys_of(s)[mid as int], keys_of(s)[i])
                                    == Order::Less);
                                types::key_order_transitive(
                                    key_at(s, mid as int),
                                    key_at(s, i),
                                    k,
                                );
                            }
                        }
                    }
                    high = mid;
                },
            }
        }
        low
    }

    /// The place of a key, where the index holds it.
    fn find(&self, key: &[Value]) -> (r: Option<usize>)
        ensures
            match r {
                Some(i) => holds(self.entries@, i as int, model::views(key@)),
                None => !self@.map.contains_key(model::views(key@)),
            },
    {
        let ghost s = self.entries@;
        let ghost k = model::views(key@);
        let i: usize = self.place(key);
        proof {
            types::key_order_flips(k, k);
        }
        if i < self.entries.len() {
            let o = order_keys(self.entries[i].key.as_slice(), key);
            if o == Order::Equal {
                proof {
                    types::key_order_flips(key_at(s, i as int), k);
                }
                return Some(i);
            }
        }
        proof {
            use_type_invariant(self);
            if as_map(s).contains_key(k) {
                let j = choose|j: int| holds(s, j, k);
                assert(holds(s, j, k));
                assert(types::key_order(key_at(s, j), k) == Order::Equal);
                assert(j >= i);
                if j > i {
                    assert(types::key_order(keys_of(s)[i as int], keys_of(s)[j]) == Order::Less);
                    assert(key_at(s, i as int) == keys_of(s)[i as int]);
                }
            }
        }
        None
    }

    /// The place behind a key and all smaller ones.
    fn place_behind(&self, key: &[Value]) -> (r: usize)
        ensures
            ends_at(self.entries@, model::views(key@), r as int),
    {
        let ghost s = self.entries@;
        let ghost k = model::views(key@);
        let p: usize = self.place(key);
        match self.find(key) {
            Some(i) => {
                proof {
                    assert(holds(s, i as int, k));
                    types::key_order_flips(k, k);
                    assert(types::key_order(key_at(s, i as int), k) != Order::Less);
                    assert(p <= i < self.entries.len());
                }
                p + 1
            },
            None => p,
        }
    }

    /// Enters a row under a key.
    pub fn insert(&mut self, key: &[Value], row_id: u64)
        ensures
            final(self)@ == entered(old(self)@, model::views(key@), row_id),
    {
        let ghost k = model::views(key@);
        let findable: bool = match self.kind {
            IndexType::BTree => true,
            IndexType::Hash => !holds_nan(key),
        };
        if !findable {
            return;
        }
        proof {
            use_type_invariant(&*self);
        }
        let at: usize = self.place(key);
        let found = self.find(key);
        let mut entries: Vec<IndexEntry> = Vec::new();
        std::mem::swap(&mut entries, &mut self.entries);
        let ghost before = entries@;
        match found {
            Some(i) => {
                let old_entry = entries.remove(i);
                let mut ids = old_entry.ids;
                ids.push(row_id);
                entries.insert(i, IndexEntry { key: old_entry.key, ids });
                proof {
                    assert(entries@ =~= before.update(i as int, entries@[i as int]));
                    lemma_replaced(self.kind, before, entries@, i as int);
                }
            },
            None => {
                let mut ids: Vec<u64> = Vec::new();
                ids.push(row_id);
                entries.insert(at, IndexEntry { key: duplicate_all(key), ids });
                proof {
                    assert(ids@ =~= Seq::<u64>::empty().push(row_id));
                    lemma_inserted(self.kind, before, entries@, at as int, k);
                }
            },
        }
        self.entries = entries;
        assert(self@ =~= entered(old(self)@, k, row_id));
    }

    /// Removes a row from under a key.
    pub fn delete(&mut self, key: &[Value], row_id: u64)
        ensures
            final(self)@ == removed(old(self)@, model::views(key@), row_id),
    {
        let ghost k = model::views(key@);
        proof {
            use_type_invariant(&*self);
        }
        match self.find(key) {
            Some(i) => {
                proof {
                    lemma_held(self.kind, self.entries@, i as int);
                }
                let ids = ids_without(&self.entries[i].ids, row_id);
                let mut entries: Vec<IndexEntry> = Vec::new();
                std::mem::swap(&mut entries, &mut self.entries);
                let ghost before = entries@;
                let old_entry = entries.remove(i);
                if ids.len() == 0 {
                    proof {
                        lemma_removed(self.kind, before, entries@, i as int);
                    }
                    self.entries = entries;
                    assert(self@ =~= removed(old(self)@, k, row_id));
                } else {
                    entries.insert(i, IndexEntry { key: old_entry.key, ids });
                    proof {
                        assert(entries@ =~= before.update(i as int, entries@[i as int]));
                        lemma_replaced(self.kind, before, entries@, i as int);
                    }
                    self.entries = entries;
                    assert(self@ =~= removed(old(self)@, k, row_id));
                }
            },
            None => {},
        }
    }

    /// The rows under a key.
    pub fn lookup_eq(&self, key: &[Value]) -> (r: Vec<u64>)
        ensures
            r@ == ids_at(self@.map, model::views(key@)),
    {
        match self.find(key) {
            Some(i) => {
                proof {
                    use_type_invariant(self);
                    lemma_held(self.kind, self.entries@, i as int);
                }
                vstd::slice::slice_to_vec(self.entries[i].ids.as_slice())
            },
            None => Vec::new(),
        }
    }

    /// The rows under the keys at the places from `from` up to `to`.
    fn gather(&self, from: usize, to: usize) -> (r: Vec<u64>)
        requires
            from <= to <= self.entries.len(),
        ensures
            r@ == listed(self@.map, keys_of(self.entries@).subrange(from as int, to as int)),
    {
        proof {
            use_type_invariant(self);
        }
        let ghost s = self.entries@;
        let ghost keys = keys_of(s);
        let mut out: Vec<u64> = Vec::new();
        let mut i: usize = from;
        while i < to
            invariant
                s == self.entries@,
                keys == keys_of(s),
                good(self.kind, s),
                from <= i <= to <= s.len(),
                out@ == listed(self@.map, keys.subrange(from as int, i as int)),
            decreases to - i,
        {
            proof {
                lemma_held(self.kind, s, i as int);
                let next = keys.subrange(from as int, i + 1);
                assert(next.drop_last() =~= keys.subrange(from as int, i as int));
                assert(next.last() == key_at(s, i as int));
            }
            let mut j: usize = 0;
            let ghost start = out@;
            while j < self.entries[i as usize].ids.len()
                invariant
                    i < self.entries.len(),
                    j <= self.entries@[i as int].ids@.len(),
                    out@ == start + self.entries@[i as int].ids@.take(j as int),
                decreases self.entries@[i as int].ids@.len() - j,
            {
                out.push(self.entries[i].ids[j]);
                j = j + 1;
                assert(out@ =~= start + self.entries@[i as int].ids@.take(j as int));
            }
            assert(self.entries@[i as int].ids@.take(j as int) =~= self.entries@[i as int].ids@);
            i = i + 1;
        }
        out
    }

    /// The rows under the wanted keys, which are those at the places from `from`
    /// up to `to`.
    fn pick(&self, from: usize, to: usize, wanted: Ghost<spec_fn(Seq<Val>) -> bool>) -> (r: Vec<
        u64,
    >)
        requires
            to <= self.entries.len(),
            forall|i: int|
                0 <= i < self.entries@.len() ==> (wanted@(#[trigger] key_at(self.entries@, i))
                    <==> from <= i < to),
        ensures
            exists|keys: Seq<Seq<Val>>|
                #[trigger] selects(self@.map, wanted@, keys) && r@ == listed(self@.map, keys),
    {
        proof {
            use_type_invariant(self);
        }
        let first: usize = if from < to {
            from
        } else {
            to
        };
        proof {
            lemma_selected(self.kind, self.entries@, first as int, to as int, wanted@);
        }
        self.gather(first, to)
    }

    /// The rows under the keys between two bounds, which belong to the range, in
    /// the order of the keys. A hash index finds none.
    pub fn lookup_range(&self, low: Option<Vec<Value>>, high: Option<Vec<Value>>) -> (r: Vec<u64>)
        requires
            self@.kind == IndexType::BTree && low is Some && high is Some ==> types::key_order(
                model::views(low->0@),
                model::views(high->0@),
            ) != Order::Greater,
        ensures
            self@.kind == IndexType::Hash ==> r@.len() == 0,
            self@.kind == IndexType::BTree ==> exists|keys: Seq<Seq<Val>>|
                #[trigger] selects(
                    self@.map,
                    within(opt_key(low), opt_key(high)),
                    keys,
                ) && r@ == listed(self@.map, keys),
    {
        if self.kind == IndexType::Hash {
            return Vec::new();
        }
        proof {
            use_type_invariant(self);
        }
        let ghost s = self.entries@;
        let from: usize = match &low {
            Some(l) => self.place(l.as_slice()),
            None => 0,
        };
        let to: usize = match &high {
            Some(h) => self.place_behind(h.as_slice()),
            None => self.entries.len(),
        };
        let ghost wanted = within(opt_key(low), opt_key(high));
        proof {
            lemma_bounds(self.kind, s, opt_key(low), opt_key(high), from as int, to as int);
        }
        self.pick(from, to, Ghost(wanted))
    }

    /// The rows under the keys from `start` up to, and not at, `end`, in the
    /// order of the keys. A hash index finds none.
    pub fn lookup_between(&self, start: &[Value], end: &[Value]) -> (r: Vec<u64>)
        requires
            self@.kind == IndexType::BTree ==> types::key_order(
                model::views(start@),
                model::views(end@),
            ) != Order::Greater,
        ensures
            self@.kind == IndexType::Hash ==> r@.len() == 0,
            self@.kind == IndexType::BTree ==> exists|keys: Seq<Seq<Val>>|
                #[trigger] selects(
                    self@.map,
                    from_to(model::views(start@), model::views(end@)),
                    keys,
                ) && r@ == listed(self@.map, keys),
    {
        if self.kind == IndexType::Hash {
            return Vec::new();
        }
        proof {
            use_type_invariant(self);
        }
        let ghost s = self.entries@;
        let ghost a = model::views(start@);
        let ghost b = model::views(end@);
        let from: usize = self.place(start);
        let to: usize = self.place(end);
        let ghost wanted = from_to(a, b);
        proof {
            assert forall|i: int| 0 <= i < s.len() implies (wanted(#[trigger] key_at(s, i)) <==> from
                <= i < to) by {
                types::key_order_flips(a, key_at(s, i));
            }
        }
        self.pick(from, to, Ghost(wanted))
    }

    /// The rows under the keys from a prefix up to the prefix with its last value
    /// raised by one step. A hash index finds none. A floating-point number is
    /// raised by floating-point arithmetic: for such a last value the caller
    /// gives both bounds to `lookup_between`.
    pub fn lookup_prefix(&self, prefix: &[Value]) -> (r: Vec<u64>)
        requires
            self@.kind == IndexType::BTree && prefix@.len() > 0 ==> !is_floating(prefix@.last()@),
        ensures
            self@.kind == IndexType::Hash ==> r@.len() == 0,
            self@.kind == IndexType::BTree ==> exists|keys: Seq<Seq<Val>>|
                #[trigger] selects(
                    self@.map,
                    from_to(model::views(prefix@), raised(model::views(prefix@))),
                    keys,
                ) && r@ == listed(self@.map, keys),
    {
        if self.kind == IndexType::Hash {
            return Vec::new();
        }
        let mut end = duplicate_all(prefix);
        if prefix.len() > 0 {
            let last: usize = prefix.len() - 1;
            end.set(last, bump_value(&prefix[last]));
        }
        proof {
            assert(model::views(end@) =~= raised(model::views(prefix@)));
            lemma_raised_not_less(model::views(prefix@));
        }
        self.lookup_between(prefix, end.as_slice())
    }

    /// Forgets all keys.
    pub fn clear(&mut self)
        ensures
            final(self)@ == (IndexV { kind: old(self)@.kind, map: Map::empty() }),
    {
        self.entries = Vec::new();
        assert(self@.map =~= Map::empty());
    }
}

pub open spec fn opt_key(key: Option<Vec<Value>>) -> Option<Seq<Val>> {
    match key {
        Some(k) => Some(model::views(k@)),
        None => None,
    }
}

pub open spec fn is_floating(v: Val) -> bool {
    v is Float || v is Double
}

/// A value raised by one step: the next number, as far as there is one, and the
/// shortest longer text or byte string.
pub open spec fn bumped(v: Val) -> Val {
    match v {
        Val::Int(n) => Val::Int(if n == i64::MAX {
            n
        } else {
            (n + 1) as i64
        }),
        Val::UInt(n) => Val::UInt(if n == u64::MAX {
            n
        } else {
            (n + 1) as u64
        }),
        Val::Bytes(b) => Val::Bytes(b.push(0)),
        Val::Text(s) => Val::Text(s.push('\0')),
        _ => v,
    }
}

/// A key with its last value raised by one step.
pub open spec fn raised(key: Seq<Val>) -> Seq<Val> {
    if key.len() == 0 {
        key
    } else {
        key.drop_last().push(bumped(key.last()))
    }
}

fn bump_value(v: &Value) -> (r: Value)
    requires
        !is_floating(v@),
    ensures
        r@ == bumped(v@),
{
    match v {
        Value::Int(n) => Value::Int(if *n == i64::MAX {
            *n
        } else {
            *n + 1
        }),
        Value::UInt(n) => Value::UInt(if *n == u64::MAX {
            *n
        } else {
            *n + 1
        }),
        Value::Bytes(b) => {
            let mut longer = vstd::slice::slice_to_vec(b.as_slice());
            longer.push(0u8);
            Value::Bytes(longer)
        },
        Value::Text(s) => {
            let mut longer = s.clone();
            longer.push('\0');
            Value::Text(longer)
        },
        _ => v.duplicate(),
    }
}

proof fn lemma_longer_not_less(a: Seq<u8>, rest: Seq<u8>)
    ensures
        order::bytes_order(a, a + rest) != Order::Greater,
{
    order::lemma_lex_skip(order::byte_order(), a, a + rest, a.len() as int);
}

proof fn lemma_same_value(v: Val)
    ensures
        types::val_order(v, v) == Order::Equal,
{
    types::val_order_is_total();
    let f = types::by_val_order();
    assert(f(v, v) == Order::Equal);
}

proof fn lemma_bumped_not_less(v: Val)
    requires
        !is_floating(v),
    ensures
        types::val_order(v, bumped(v)) != Order::Greater,
{
    match v {
        Val::Bytes(b) => {
            lemma_longer_not_less(b, seq![0u8]);
            assert(b.push(0) =~= b + seq![0u8]);
        },
        Val::Text(s) => {
            text::lemma_encode_concat(s, seq!['\0']);
            lemma_longer_not_less(
                vstd::utf8::encode_utf8(s),
                vstd::utf8::encode_utf8(seq!['\0']),
            );
            assert(s.push('\0') =~= s + seq!['\0']);
        },
        _ => {
            lemma_same_value(v);
        },
    }
}

proof fn lemma_raised_not_less(key: Seq<Val>)
    requires
        key.len() > 0 ==> !is_floating(key.last()),
    ensures
        types::key_order(key, raised(key)) != Order::Greater,
{
    reveal(types::key_order);
    let f = types::by_val_order();
    if key.len() > 0 {
        let n = key.len() - 1;
        let r = raised(key);
        assert forall|i: int| 0 <= i < n implies f(#[trigger] key[i], r[i]) == Order::Equal by {
            lemma_same_value(key[i]);
        }
        order::lemma_lex_skip(f, key, r, n);
        let v = key.last();
        lemma_bumped_not_less(v);
        assert(key.skip(n)[0] == v);
        assert(r.skip(n)[0] == bumped(v));
        assert(key.skip(n).drop_first().len() == 0);
        assert(r.skip(n).drop_first().len() == 0);
        assert(order::lex(f, key.skip(n).drop_first(), r.skip(n).drop_first()) == Order::Equal);
    }
}

proof fn lemma_selected(
    kind: IndexType,
    s: Seq<IndexEntry>,
    from: int,
    to: int,
    wanted: spec_fn(Seq<Val>) -> bool,
)
    requires
        good(kind, s),
        0 <= from <= to <= s.len(),
        forall|i: int| 0 <= i < s.len() ==> (wanted(#[trigger] key_at(s, i)) <==> from <= i < to),
    ensures
        selects(as_map(s), wanted, keys_of(s).subrange(from, to)),
{
    let keys = keys_of(s).subrange(from, to);
    assert forall|i: int, j: int| 0 <= i < j < keys.len() implies types::key_order(
        #[trigger] keys[i],
        #[trigger] keys[j],
    ) == Order::Less by {
        assert(types::key_order(keys_of(s)[from + i], keys_of(s)[from + j]) == Order::Less);
    }
    assert forall|k: Seq<Val>| #[trigger] keys.contains(k) <==> as_map(s).contains_key(k) && wanted(
        k,
    ) by {
        if keys.contains(k) {
            let i = choose|i: int| 0 <= i < keys.len() && keys[i] == k;
            assert(key_at(s, from + i) == k);
            lemma_held(kind, s, from + i);
        }
        if as_map(s).contains_key(k) && wanted(k) {
            let i = choose|i: int| holds(s, i, k);
            assert(holds(s, i, k));
            assert(keys[i - from] == k);
        }
    }
}

proof fn lemma_bounds(
    kind: IndexType,
    s: Seq<IndexEntry>,
    low: Option<Seq<Val>>,
    high: Option<Seq<Val>>,
    from: int,
    to: int,
)
    requires
        good(kind, s),
        match low {
            Some(l) => belongs(s, l, from),
            None => from == 0,
        },
        match high {
            Some(h) => ends_at(s, h, to),
            None => to == s.len(),
        },
    ensures
        to <= s.len(),
        forall|i: int|
            0 <= i < s.len() ==> (within(low, high)(#[trigger] key_at(s, i)) <==> from <= i < to),
{
    if high is Some {
        let h = high->0;
        if as_map(s).contains_key(h) {
            let j = choose|j: int| holds(s, j, h);
            assert(holds(s, j, h));
            types::key_order_flips(h, h);
            assert(key_at(s, j) == h);
            assert(j >= to - 1);
            if j > to - 1 {
                assert(types::key_order(keys_of(s)[to - 1], keys_of(s)[j]) == Order::Less);
                assert(key_at(s, to - 1) == keys_of(s)[to - 1]);
            }
            assert(j == to - 1);
        }
    }
    assert forall|i: int| 0 <= i < s.len() implies (within(low, high)(#[trigger] key_at(s, i))
        <==> from <= i < to) by {
        let k = key_at(s, i);
        if low is Some {
            types::key_order_flips(low->0, k);
        }
        if high is Some {
            let h = high->0;
            types::key_order_flips(k, h);
            if as_map(s).contains_key(h) {
                assert(key_at(s, to - 1) == h);
                if i >= to {
                    assert(types::key_order(keys_of(s)[to - 1], keys_of(s)[i]) == Order::Less);
                    lemma_less_differs(h, k);
                }
            } else {
                if i >= to {
                    lemma_held(kind, s, i);
                    assert(k != h);
                }
            }
        }
    }
}

fn ids_without(ids: &Vec<u64>, id: u64) -> (r: Vec<u64>)
    ensures
        r@ == without(ids@, id),
{
    let mut out: Vec<u64> = Vec::new();
    let mut i: usize = 0;
    while i < ids.len()
        invariant
            i <= ids.len(),
            out@ == without(ids@.take(i as int), id),
        decreases ids.len() - i,
    {
        assert(ids@.take(i + 1).drop_last() =~= ids@.take(i as int));
        if ids[i] != id {
            out.push(ids[i]);
        }
        i = i + 1;
    }
    assert(ids@.take(ids@.len() as int) =~= ids@);
    out
}

proof fn lemma_replaced(kind: IndexType, before: Seq<IndexEntry>, after: Seq<IndexEntry>, i: int)
    requires
        good(kind, before),
        0 <= i < before.len(),
        after == before.update(i, after[i]),
        after[i].key == before[i].key,
        after[i].ids@.len() > 0,
    ensures
        good(kind, after),
        as_map(after) == as_map(before).insert(key_at(before, i), after[i].ids@),
        as_map(before).contains_key(key_at(before, i)),
        as_map(before)[key_at(before, i)] == before[i].ids@,
{
    assert(keys_of(after) =~= keys_of(before));
    assert forall|j: int| 0 <= j < after.len() implies can_find(kind, #[trigger] key_at(after, j)) by {
        assert(key_at(after, j) == key_at(before, j));
    }
    lemma_held(kind, before, i);
    lemma_held(kind, after, i);
    let want = as_map(before).insert(key_at(before, i), after[i].ids@);
    assert forall|k: Seq<Val>| #[trigger] as_map(after).contains_key(k) == want.contains_key(k) by {
        if as_map(after).contains_key(k) {
            let j = choose|j: int| holds(after, j, k);
            assert(holds(after, j, k) && holds(before, j, k));
        }
        if want.contains_key(k) && k != key_at(before, i) {
            let j = choose|j: int| holds(before, j, k);
            assert(holds(before, j, k) && holds(after, j, k));
        }
    }
    assert forall|k: Seq<Val>| #[trigger] as_map(after).contains_key(k) implies as_map(after)[k]
        == want[k] by {
        let j = choose|j: int| holds(after, j, k);
        assert(holds(after, j, k) && holds(before, j, k));
        lemma_held(kind, after, j);
        lemma_held(kind, before, j);
        if k == key_at(before, i) {
            if j != i {
                assert(as_map(after)[k] == after[i].ids@);
            }
        } else {
            assert(j != i);
        }
    }
    assert(as_map(after) =~= want);
}

spec fn is_insertion(
    kind: IndexType,
    before: Seq<IndexEntry>,
    after: Seq<IndexEntry>,
    i: int,
    key: Seq<Val>,
) -> bool {
    &&& good(kind, before)
    &&& belongs(before, key, i)
    &&& !as_map(before).contains_key(key)
    &&& can_find(kind, key)
    &&& after == before.insert(i, after[i])
    &&& model::views(after[i].key@) == key
    &&& after[i].ids@.len() > 0
}

/// A key that comes before no smaller one and differs is greater.
proof fn lemma_beyond(a: Seq<Val>, key: Seq<Val>)
    requires
        types::key_order(a, key) != Order::Less,
        a != key,
    ensures
        types::key_order(key, a) == Order::Less,
{
    types::key_order_flips(a, key);
}

proof fn lemma_inserted_good(
    kind: IndexType,
    before: Seq<IndexEntry>,
    after: Seq<IndexEntry>,
    i: int,
    key: Seq<Val>,
)
    requires
        is_insertion(kind, before, after, i, key),
    ensures
        good(kind, after),
{
    assert forall|p: int, q: int| 0 <= p < q < after.len() implies types::key_order(
        #[trigger] keys_of(after)[p],
        #[trigger] keys_of(after)[q],
    ) == Order::Less by {
        let bp = if p < i { p } else { p - 1 };
        let bq = if q < i { q } else { q - 1 };
        if p != i && q != i {
            assert(key_at(after, p) == key_at(before, bp));
            assert(key_at(after, q) == key_at(before, bq));
            assert(types::key_order(keys_of(before)[bp], keys_of(before)[bq]) == Order::Less);
        } else if p == i {
            assert(key_at(after, q) == key_at(before, bq));
            let other = key_at(before, bq);
            assert(types::key_order(other, key) != Order::Less);
            lemma_held(kind, before, bq);
            lemma_beyond(other, key);
        } else {
            assert(key_at(after, p) == key_at(before, bp));
            assert(types::key_order(key_at(before, bp), key) == Order::Less);
        }
    }
    assert forall|j: int| 0 <= j < after.len() implies (#[trigger] after[j]).ids@.len() > 0 by {
        if j < i {
            assert(after[j] == before[j]);
        } else if j > i {
            assert(after[j] == before[j - 1]);
        }
    }
    assert forall|j: int| 0 <= j < after.len() implies can_find(kind, #[trigger] key_at(after, j)) by {
        if j < i {
            assert(key_at(after, j) == key_at(before, j));
        } else if j > i {
            assert(key_at(after, j) == key_at(before, j - 1));
        }
    }
}

proof fn lemma_inserted(
    kind: IndexType,
    before: Seq<IndexEntry>,
    after: Seq<IndexEntry>,
    i: int,
    key: Seq<Val>,
)
    requires
        is_insertion(kind, before, after, i, key),
    ensures
        good(kind, after),
        as_map(after) == as_map(before).insert(key, after[i].ids@),
{
    lemma_inserted_good(kind, before, after, i, key);
    let want = as_map(before).insert(key, after[i].ids@);
    assert forall|k: Seq<Val>| #[trigger] as_map(after).contains_key(k) == want.contains_key(k) by {
        if as_map(after).contains_key(k) {
            let j = choose|j: int| holds(after, j, k);
            assert(holds(after, j, k));
            if j < i {
                assert(holds(before, j, k));
            } else if j > i {
                assert(holds(before, j - 1, k));
            }
        }
        if k == key {
            assert(holds(after, i, k));
        } else if want.contains_key(k) {
            let j = choose|j: int| holds(before, j, k);
            assert(holds(before, j, k));
            assert(holds(after, if j < i { j } else { j + 1 }, k));
        }
    }
    assert forall|k: Seq<Val>| #[trigger] as_map(after).contains_key(k) implies as_map(after)[k]
        == want[k] by {
        let j = choose|j: int| holds(after, j, k);
        assert(holds(after, j, k));
        lemma_held(kind, after, j);
        if k == key {
            lemma_held(kind, after, i);
        } else if j < i {
            lemma_held(kind, before, j);
        } else {
            assert(j != i);
            assert(key_at(before, j - 1) == k);
            lemma_held(kind, before, j - 1);
        }
    }
    assert(as_map(after) =~= want);
}

proof fn lemma_removed(kind: IndexType, before: Seq<IndexEntry>, after: Seq<IndexEntry>, i: int)
    requires
        good(kind, before),
        0 <= i < before.len(),
        after == before.remove(i),
    ensures
        good(kind, after),
        as_map(after) == as_map(before).remove(key_at(before, i)),
{
    let gone = key_at(before, i);
    assert forall|j: int| 0 <= j < after.len() implies #[trigger] key_at(after, j) == key_at(
        before,
        if j < i { j } else { j + 1 },
    ) by {}
    assert forall|p: int, q: int| 0 <= p < q < after.len() implies types::key_order(
        #[trigger] keys_of(after)[p],
        #[trigger] keys_of(after)[q],
    ) == Order::Less by {
        let bp = if p < i { p } else { p + 1 };
        let bq = if q < i { q } else { q + 1 };
        assert(key_at(after, p) == key_at(before, bp));
        assert(key_at(after, q) == key_at(before, bq));
        assert(types::key_order(keys_of(before)[bp], keys_of(before)[bq]) == Order::Less);
    }
    assert forall|j: int| 0 <= j < after.len() implies (#[trigger] after[j]).ids@.len() > 0 by {
        assert(after[j] == before[if j < i { j } else { j + 1 }]);
    }
    lemma_held(kind, before, i);
    let want = as_map(before).remove(gone);
    assert forall|k: Seq<Val>| #[trigger] as_map(after).contains_key(k) == want.contains_key(k) by {
        if as_map(after).contains_key(k) {
            let j = choose|j: int| holds(after, j, k);
            assert(holds(after, j, k));
            let b = if j < i { j } else { j + 1 };
            assert(holds(before, b, k));
            if k == gone {
                if b < i {
                    assert(types::key_order(keys_of(before)[b], keys_of(before)[i]) == Order::Less);
                } else {
                    assert(types::key_order(keys_of(before)[i], keys_of(before)[b]) == Order::Less);
                }
                lemma_less_differs(k, k);
            }
        }
        if want.contains_key(k) {
            let j = choose|j: int| holds(before, j, k);
            assert(holds(before, j, k));
            assert(j != i);
            assert(holds(after, if j < i { j } else { j - 1 }, k));
        }
    }
    assert forall|k: Seq<Val>| #[trigger] as_map(after).contains_key(k) implies as_map(after)[k]
        == want[k] by {
        let j = choose|j: int| holds(after, j, k);
        assert(holds(after, j, k));
        lemma_held(kind, after, j);
        lemma_held(kind, before, if j < i { j } else { j + 1 });
    }
    assert(as_map(after) =~= want);
}

} // verus!
