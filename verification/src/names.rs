//! A map from names to values.

use vstd::prelude::*;

use crate::order::Order;
use crate::text;
use crate::text::{order_texts, same_text, starts_with};

verus! {

/// A map keyed by text, listed in the order of the names.
pub struct NameMap<T> {
    names: Vec<String>,
    values: Vec<T>,
}

/// The names are in strictly ascending order.
pub open spec fn ascending(names: Seq<Seq<char>>) -> bool {
    forall|i: int, j: int|
        0 <= i < j < names.len() ==> text::text_order(#[trigger] names[i], #[trigger] names[j])
            == Order::Less
}

/// `names` are the names of the map, in ascending order.
pub open spec fn lists<V>(map: Map<Seq<char>, V>, names: Seq<Seq<char>>) -> bool {
    &&& ascending(names)
    &&& forall|k: Seq<char>| #[trigger] map.contains_key(k) <==> names.contains(k)
}

/// The names of a map, in ascending order.
pub open spec fn listing<V>(map: Map<Seq<char>, V>) -> Seq<Seq<char>> {
    choose|names: Seq<Seq<char>>| lists(map, names)
}

/// The part of a map whose names do not start with a prefix.
pub open spec fn unprefixed<V>(map: Map<Seq<char>, V>, prefix: Seq<char>) -> Map<Seq<char>, V> {
    Map::new(
        |k: Seq<char>| map.contains_key(k) && !text::has_prefix(k, prefix),
        |k: Seq<char>| map[k],
    )
}

proof fn lemma_differs(a: Seq<char>, b: Seq<char>)
    requires
        text::text_order(a, b) == Order::Less,
    ensures
        a != b,
        text::text_order(b, a) == Order::Greater,
{
    text::text_order_flips(a, b);
}

/// A map has one listing.
pub proof fn listing_is_unique<V>(map: Map<Seq<char>, V>, a: Seq<Seq<char>>, b: Seq<Seq<char>>)
    requires
        lists(map, a),
        lists(map, b),
    ensures
        a == b,
{
    assert forall|k: Seq<char>| a.contains(k) <==> #[trigger] b.contains(k) by {
        assert(map.contains_key(k) <==> a.contains(k));
    }
    lemma_same_names(a, b);
}

proof fn lemma_same_names(a: Seq<Seq<char>>, b: Seq<Seq<char>>)
    requires
        ascending(a),
        ascending(b),
        forall|k: Seq<char>| a.contains(k) <==> #[trigger] b.contains(k),
    ensures
        a == b,
    decreases a.len(),
{
    if a.len() == 0 {
        if b.len() > 0 {
            assert(b.contains(b[0]));
        }
        assert(a =~= b);
    } else {
        assert(a.contains(a[0]));
        assert(b.contains(a[0]));
        let j = choose|j: int| 0 <= j < b.len() && b[j] == a[0];
        assert(b.contains(b[0]));
        assert(a.contains(b[0]));
        let i = choose|i: int| 0 <= i < a.len() && a[i] == b[0];
        if j > 0 {
            assert(text::text_order(b[0], b[j]) == Order::Less);
            if i > 0 {
                assert(text::text_order(a[0], a[i]) == Order::Less);
            }
            lemma_differs(b[0], a[0]);
        }
        assert(a[0] == b[0]);
        let x = a.drop_first();
        let y = b.drop_first();
        assert(ascending(x)) by {
            assert forall|p: int, q: int| 0 <= p < q < x.len() implies text::text_order(
                #[trigger] x[p],
                #[trigger] x[q],
            ) == Order::Less by {
                assert(text::text_order(a[p + 1], a[q + 1]) == Order::Less);
            }
        }
        assert(ascending(y)) by {
            assert forall|p: int, q: int| 0 <= p < q < y.len() implies text::text_order(
                #[trigger] y[p],
                #[trigger] y[q],
            ) == Order::Less by {
                assert(text::text_order(b[p + 1], b[q + 1]) == Order::Less);
            }
        }
        assert forall|k: Seq<char>| x.contains(k) <==> #[trigger] y.contains(k) by {
            if x.contains(k) {
                let p = choose|p: int| 0 <= p < x.len() && x[p] == k;
                assert(a[p + 1] == k);
                assert(a.contains(k));
                assert(b.contains(k));
                let q = choose|q: int| 0 <= q < b.len() && b[q] == k;
                assert(text::text_order(a[0], a[p + 1]) == Order::Less);
                lemma_differs(a[0], k);
                assert(q != 0);
                assert(y[q - 1] == k);
            }
            if y.contains(k) {
                let p = choose|p: int| 0 <= p < y.len() && y[p] == k;
                assert(b[p + 1] == k);
                assert(b.contains(k));
                assert(a.contains(k));
                let q = choose|q: int| 0 <= q < a.len() && a[q] == k;
                assert(text::text_order(b[0], b[p + 1]) == Order::Less);
                lemma_differs(b[0], k);
                assert(q != 0);
                assert(x[q - 1] == k);
            }
        }
        lemma_same_names(x, y);
        assert(a =~= seq![a[0]] + x);
        assert(b =~= seq![b[0]] + y);
    }
}

/// The names with the values at the same places.
spec fn paired<T>(names: Seq<String>, values: Seq<T>) -> Seq<(String, T)> {
    Seq::new(names.len(), |i: int| (names[i], values[i]))
}

spec fn texts(names: Seq<String>) -> Seq<Seq<char>> {
    Seq::new(names.len(), |i: int| names[i]@)
}

spec fn names_of<T>(s: Seq<(String, T)>) -> Seq<Seq<char>> {
    Seq::new(s.len(), |i: int| s[i].0@)
}

proof fn lemma_paired<T>(names: Seq<String>, values: Seq<T>)
    ensures
        names_of(paired(names, values)) == texts(names),
{
    assert(names_of(paired(names, values)) =~= texts(names));
}

spec fn at<T>(s: Seq<(String, T)>, i: int, k: Seq<char>) -> bool {
    0 <= i < s.len() && s[i].0@ == k
}

spec fn as_map<T: View>(s: Seq<(String, T)>) -> Map<Seq<char>, T::V> {
    Map::new(|k: Seq<char>| exists|i: int| at(s, i, k), |k: Seq<char>| s[choose|i: int| at(s, i, k)].1@)
}

proof fn lemma_at<T: View>(s: Seq<(String, T)>, i: int)
    requires
        ascending(names_of(s)),
        0 <= i < s.len(),
    ensures
        as_map(s).contains_key(s[i].0@),
        as_map(s)[s[i].0@] == s[i].1@,
{
    let k = s[i].0@;
    assert(at(s, i, k));
    let j = choose|j: int| at(s, j, k);
    assert(at(s, j, k));
    if i < j {
        assert(text::text_order(names_of(s)[i], names_of(s)[j]) == Order::Less);
        lemma_differs(k, k);
    } else if j < i {
        assert(text::text_order(names_of(s)[j], names_of(s)[i]) == Order::Less);
        lemma_differs(k, k);
    }
}

proof fn lemma_lists<T: View>(s: Seq<(String, T)>)
    requires
        ascending(names_of(s)),
    ensures
        lists(as_map(s), names_of(s)),
        listing(as_map(s)) == names_of(s),
{
    let names = names_of(s);
    assert forall|k: Seq<char>| #[trigger] as_map(s).contains_key(k) <==> names.contains(k) by {
        if as_map(s).contains_key(k) {
            let i = choose|i: int| at(s, i, k);
            assert(at(s, i, k));
            assert(names[i] == k);
        }
        if names.contains(k) {
            let i = choose|i: int| 0 <= i < names.len() && names[i] == k;
            assert(at(s, i, k));
        }
    }
    assert(lists(as_map(s), names));
    listing_is_unique(as_map(s), names, listing(as_map(s)));
}

/// Where a name belongs: all before the place are smaller, none from it on is.
spec fn belongs<T>(s: Seq<(String, T)>, name: Seq<char>, place: int) -> bool {
    &&& 0 <= place <= s.len()
    &&& forall|i: int|
        0 <= i < place ==> text::text_order((#[trigger] s[i]).0@, name) == Order::Less
    &&& forall|i: int|
        place <= i < s.len() ==> text::text_order((#[trigger] s[i]).0@, name) != Order::Less
}

impl<T: View> View for NameMap<T> {
    type V = Map<Seq<char>, T::V>;

    closed spec fn view(&self) -> Map<Seq<char>, T::V> {
        as_map(self.entries())
    }
}

impl<T> NameMap<T> {
    spec fn entries(self) -> Seq<(String, T)> {
        paired(self.names@, self.values@)
    }

    #[verifier::type_invariant]
    spec fn wf(self) -> bool {
        &&& self.names@.len() == self.values@.len()
        &&& ascending(texts(self.names@))
    }
}

impl<T: View> NameMap<T> {
    /// An empty map.
    pub fn new() -> (r: Self)
        ensures
            r@ == Map::<Seq<char>, T::V>::empty(),
    {
        let r = NameMap { names: Vec::new(), values: Vec::new() };
        assert(r@ =~= Map::<Seq<char>, T::V>::empty());
        r
    }

    /// The place where a name belongs.
    fn place(&self, name: &str) -> (r: usize)
        ensures
            belongs(self.entries(), name@, r as int),
    {
        proof {
            use_type_invariant(self);
            lemma_paired(self.names@, self.values@);
        }
        let ghost s = self.entries();
        let mut low: usize = 0;
        let mut high: usize = self.names.len();
        while low < high
            invariant
                s == self.entries(),
                ascending(names_of(s)),
                low <= high <= s.len(),
                forall|i: int|
                    0 <= i < low ==> text::text_order((#[trigger] s[i]).0@, name@) == Order::Less,
                forall|i: int|
                    high <= i < s.len() ==> text::text_order((#[trigger] s[i]).0@, name@)
                        != Order::Less,
            decreases high - low,
        {
            let mid: usize = low + (high - low) / 2;
            let o = order_texts(self.names[mid].as_str(), name);
            match o {
                Order::Less => {
                    proof {
                        assert forall|i: int| 0 <= i < mid + 1 implies text::text_order(
                            (#[trigger] s[i]).0@,
                            name@,
                        ) == Order::Less by {
                            if i < mid {
                                assert(text::text_order(names_of(s)[i], names_of(s)[mid as int])
                                    == Order::Less);
                                text::text_order_transitive(s[i].0@, s[mid as int].0@, name@);
                            }
                        }
                    }
                    low = mid + 1;
                },
                _ => {
                    proof {
                        assert forall|i: int| mid <= i < s.len() implies text::text_order(
                            (#[trigger] s[i]).0@,
                            name@,
                        ) != Order::Less by {
                            if i > mid && text::text_order(s[i].0@, name@) == Order::Less {
                                assert(text::text_order(names_of(s)[mid as int], names_of(s)[i])
                                    == Order::Less);
                                text::text_order_transitive(s[mid as int].0@, s[i].0@, name@);
                            }
                        }
                    }
                    high = mid;
                },
            }
        }
        low
    }

    fn position(&self, name: &str) -> (r: Option<usize>)
        ensures
            match r {
                Some(i) => i < self.names.len() && self.names@[i as int]@ == name@,
                None => !self@.contains_key(name@),
            },
    {
        let i: usize = self.place(name);
        if i < self.names.len() && same_text(self.names[i].as_str(), name) {
            return Some(i);
        }
        proof {
            use_type_invariant(self);
            lemma_paired(self.names@, self.values@);
            let s = self.entries();
            if as_map(s).contains_key(name@) {
                let j = choose|j: int| at(s, j, name@);
                assert(at(s, j, name@));
                text::text_order_flips(name@, name@);
                assert(j >= i);
                assert(j != i);
                assert(text::text_order(names_of(s)[i as int], names_of(s)[j]) == Order::Less);
                assert(text::text_order(s[i as int].0@, name@) != Order::Less);
            }
        }
        None
    }

    /// The value under a name.
    pub fn get(&self, name: &str) -> (r: Option<&T>)
        ensures
            match r {
                Some(v) => self@.contains_key(name@) && v@ == self@[name@],
                None => !self@.contains_key(name@),
            },
    {
        proof {
            use_type_invariant(self);
            lemma_paired(self.names@, self.values@);
        }
        match self.position(name) {
            Some(i) => {
                proof {
                    lemma_at(self.entries(), i as int);
                }
                Some(&self.values[i])
            },
            None => None,
        }
    }

    /// The value under a name, to be changed in place.
    pub fn get_mut(&mut self, name: &str) -> (r: Option<&mut T>)
        ensures
            match r {
                Some(v) => old(self)@.contains_key(name@) && (*v)@ == old(self)@[name@]
                    && final(self)@ == old(self)@.insert(name@, (*final(v))@),
                None => !old(self)@.contains_key(name@) && final(self)@ == old(self)@,
            },
    {
        proof {
            use_type_invariant(&*self);
            lemma_paired(self.names@, self.values@);
        }
        match self.position(name) {
            Some(i) => {
                proof {
                    let before = self.entries();
                    let values = self.values@;
                    lemma_at(before, i as int);
                    assert forall|x: T|
                        as_map(paired(self.names@, #[trigger] values.update(i as int, x))) == as_map(
                            before,
                        ).insert(name@, x@) by {
                        let after = paired(self.names@, values.update(i as int, x));
                        assert(after =~= before.update(i as int, after[i as int]));
                        lemma_paired(self.names@, values.update(i as int, x));
                        lemma_updated(before, after, i as int);
                    }
                }
                Some(&mut self.values[i])
            },
            None => None,
        }
    }

    /// Whether a name has a value.
    pub fn contains(&self, name: &str) -> (r: bool)
        ensures
            r == self@.contains_key(name@),
    {
        match self.get(name) {
            Some(_) => true,
            None => false,
        }
    }

    /// Puts a value under a name, in place of any that was there.
    pub fn insert(&mut self, name: String, value: T)
        ensures
            final(self)@ == old(self)@.insert(name@, value@),
    {
        proof {
            use_type_invariant(&*self);
            lemma_paired(self.names@, self.values@);
        }
        let place: usize = self.place(name.as_str());
        let found = self.position(name.as_str());
        let ghost before = self.entries();
        let mut whole = NameMap::new();
        std::mem::swap(&mut whole, self);
        let NameMap { mut names, mut values } = whole;
        match found {
            Some(i) => {
                values.set(i, value);
                proof {
                    let after = paired(names@, values@);
                    assert(after =~= before.update(i as int, after[i as int]));
                    assert(names_of(after) =~= names_of(before));
                    lemma_updated(before, after, i as int);
                }
            },
            None => {
                names.insert(place, name);
                values.insert(place, value);
                proof {
                    let after = paired(names@, values@);
                    assert(after =~= before.insert(place as int, after[place as int]));
                    lemma_inserted(before, after, place as int);
                }
            },
        }
        proof {
            lemma_paired(names@, values@);
        }
        *self = NameMap { names, values };
    }

    /// Removes a name and hands out its value.
    pub fn take(&mut self, name: &str) -> (r: Option<T>)
        ensures
            final(self)@ == old(self)@.remove(name@),
            match r {
                Some(v) => old(self)@.contains_key(name@) && v@ == old(self)@[name@],
                None => !old(self)@.contains_key(name@),
            },
    {
        proof {
            use_type_invariant(&*self);
            lemma_paired(self.names@, self.values@);
        }
        match self.position(name) {
            Some(i) => {
                let ghost before = self.entries();
                let mut whole = NameMap::new();
                std::mem::swap(&mut whole, self);
                let NameMap { mut names, mut values } = whole;
                let _ = names.remove(i);
                let value = values.remove(i);
                proof {
                    let after = paired(names@, values@);
                    assert(after =~= before.remove(i as int));
                    lemma_at(before, i as int);
                    lemma_removed(before, after, i as int);
                }
                proof {
                    lemma_paired(names@, values@);
                }
                *self = NameMap { names, values };
                Some(value)
            },
            None => {
                assert(self@ =~= self@.remove(name@));
                None
            },
        }
    }

    /// Removes the names that start with a prefix.
    pub fn remove_prefix(&mut self, prefix: &str)
        ensures
            final(self)@ == unprefixed(old(self)@, prefix@),
    {
        proof {
            use_type_invariant(&*self);
            lemma_paired(self.names@, self.values@);
        }
        let ghost before = self.entries();
        let mut whole = NameMap::new();
        std::mem::swap(&mut whole, self);
        let NameMap { mut names, mut values } = whole;
        let mut i: usize = names.len();
        while i > 0
            invariant
                names@.len() == values@.len(),
                i <= names.len(),
                i <= before.len(),
                ascending(names_of(paired(names@, values@))),
                paired(names@, values@).take(i as int) == before.take(i as int),
                forall|j: int|
                    i <= j < names.len() ==> !text::has_prefix((#[trigger] names@[j])@, prefix@),
                unprefixed(as_map(paired(names@, values@)), prefix@) == unprefixed(
                    as_map(before),
                    prefix@,
                ),
            decreases i,
        {
            i = i - 1;
            if starts_with(names[i].as_str(), prefix) {
                let ghost former = paired(names@, values@);
                let ghost former_names = names@;
                let _ = names.remove(i);
                let _ = values.remove(i);
                proof {
                    let after = paired(names@, values@);
                    assert(after =~= former.remove(i as int));
                    lemma_at(former, i as int);
                    lemma_removed(former, after, i as int);
                    assert(unprefixed(as_map(after), prefix@) =~= unprefixed(
                        as_map(former),
                        prefix@,
                    ));
                    assert forall|j: int| i <= j < names.len() implies !text::has_prefix(
                        (#[trigger] names@[j])@,
                        prefix@,
                    ) by {
                        assert(names@[j] == former_names[j + 1]);
                    }
                }
            }
            assert(paired(names@, values@).take(i as int) =~= before.take(i as int)) by {
                assert forall|j: int| 0 <= j < i implies paired(names@, values@)[j]
                    == before[j] by {
                    assert(before.take(i + 1)[j] == before[j]);
                }
            }
        }
        proof {
            let after = paired(names@, values@);
            assert forall|k: Seq<char>| #[trigger] as_map(after).contains_key(k) implies !text::has_prefix(
                k,
                prefix@,
            ) by {
                let j = choose|j: int| at(after, j, k);
                assert(at(after, j, k));
                assert(after[j].0 == names@[j]);
            }
            assert(as_map(after) =~= unprefixed(as_map(after), prefix@));
        }
        proof {
            lemma_paired(names@, values@);
        }
        *self = NameMap { names, values };
    }

    /// How many names there are.
    pub fn len(&self) -> (n: usize)
        ensures
            n == listing(self@).len(),
            lists(self@, listing(self@)),
    {
        proof {
            use_type_invariant(self);
            lemma_paired(self.names@, self.values@);
            lemma_lists(self.entries());
        }
        self.names.len()
    }

    /// The name at a place of the listing.
    pub fn name_at(&self, i: usize) -> (r: &String)
        requires
            i < listing(self@).len(),
        ensures
            r@ == listing(self@)[i as int],
            self@.contains_key(r@),
    {
        proof {
            use_type_invariant(self);
            lemma_paired(self.names@, self.values@);
            lemma_lists(self.entries());
            lemma_at(self.entries(), i as int);
        }
        &self.names[i]
    }

    /// The value at a place of the listing.
    pub fn value_at(&self, i: usize) -> (r: &T)
        requires
            i < listing(self@).len(),
        ensures
            self@.contains_key(listing(self@)[i as int]),
            r@ == self@[listing(self@)[i as int]],
    {
        proof {
            use_type_invariant(self);
            lemma_paired(self.names@, self.values@);
            lemma_lists(self.entries());
            lemma_at(self.entries(), i as int);
        }
        &self.values[i]
    }
}

proof fn lemma_updated<T: View>(before: Seq<(String, T)>, after: Seq<(String, T)>, i: int)
    requires
        ascending(names_of(before)),
        0 <= i < before.len(),
        after == before.update(i, after[i]),
        after[i].0@ == before[i].0@,
        names_of(after) == names_of(before),
    ensures
        ascending(names_of(after)),
        as_map(after) == as_map(before).insert(after[i].0@, after[i].1@),
{
    let want = as_map(before).insert(after[i].0@, after[i].1@);
    lemma_at(after, i);
    assert forall|k: Seq<char>| #[trigger] as_map(after).contains_key(k) == want.contains_key(k) by {
        if as_map(after).contains_key(k) {
            let j = choose|j: int| at(after, j, k);
            assert(at(after, j, k));
            assert(names_of(after)[j] == names_of(before)[j]);
            assert(at(before, j, k));
        }
        if want.contains_key(k) && k != after[i].0@ {
            let j = choose|j: int| at(before, j, k);
            assert(at(before, j, k));
            assert(names_of(after)[j] == names_of(before)[j]);
            assert(at(after, j, k));
        }
    }
    assert forall|k: Seq<char>| #[trigger] as_map(after).contains_key(k) implies as_map(after)[k]
        == want[k] by {
        let j = choose|j: int| at(after, j, k);
        assert(at(after, j, k));
        assert(names_of(after)[j] == names_of(before)[j]);
        lemma_at(after, j);
        lemma_at(before, j);
    }
    assert(as_map(after) =~= want);
}

proof fn lemma_inserted<T: View>(before: Seq<(String, T)>, after: Seq<(String, T)>, i: int)
    requires
        ascending(names_of(before)),
        0 <= i <= before.len(),
        after == before.insert(i, after[i]),
        belongs(before, after[i].0@, i),
        !as_map(before).contains_key(after[i].0@),
    ensures
        ascending(names_of(after)),
        as_map(after) == as_map(before).insert(after[i].0@, after[i].1@),
{
    let name = after[i].0@;
    assert forall|p: int, q: int| 0 <= p < q < after.len() implies text::text_order(
        #[trigger] names_of(after)[p],
        #[trigger] names_of(after)[q],
    ) == Order::Less by {
        let bp = if p < i { p } else { p - 1 };
        let bq = if q < i { q } else { q - 1 };
        if p != i && q != i {
            assert(after[p] == before[bp]);
            assert(after[q] == before[bq]);
            assert(text::text_order(names_of(before)[bp], names_of(before)[bq]) == Order::Less);
        } else if p == i {
            assert(after[q] == before[bq]);
            assert(text::text_order(before[bq].0@, name) != Order::Less);
            lemma_at(before, bq);
            text::text_order_flips(before[bq].0@, name);
        } else {
            assert(after[p] == before[bp]);
            assert(text::text_order(before[bp].0@, name) == Order::Less);
        }
    }
    let want = as_map(before).insert(name, after[i].1@);
    assert forall|k: Seq<char>| #[trigger] as_map(after).contains_key(k) == want.contains_key(k) by {
        if as_map(after).contains_key(k) {
            let j = choose|j: int| at(after, j, k);
            assert(at(after, j, k));
            if j < i {
                assert(at(before, j, k));
            } else if j > i {
                assert(at(before, j - 1, k));
            }
        }
        if k == name {
            assert(at(after, i, k));
        } else if want.contains_key(k) {
            let j = choose|j: int| at(before, j, k);
            assert(at(before, j, k));
            assert(at(after, if j < i { j } else { j + 1 }, k));
        }
    }
    assert forall|k: Seq<char>| #[trigger] as_map(after).contains_key(k) implies as_map(after)[k]
        == want[k] by {
        let j = choose|j: int| at(after, j, k);
        assert(at(after, j, k));
        lemma_at(after, j);
        if j < i {
            assert(after[j] == before[j]);
            lemma_at(before, j);
        } else if j > i {
            assert(after[j] == before[j - 1]);
            lemma_at(before, j - 1);
        }
    }
    assert(as_map(after) =~= want);
}

proof fn lemma_removed<T: View>(before: Seq<(String, T)>, after: Seq<(String, T)>, i: int)
    requires
        ascending(names_of(before)),
        0 <= i < before.len(),
        after == before.remove(i),
    ensures
        ascending(names_of(after)),
        as_map(after) == as_map(before).remove(before[i].0@),
{
    let gone = before[i].0@;
    assert forall|p: int, q: int| 0 <= p < q < after.len() implies text::text_order(
        #[trigger] names_of(after)[p],
        #[trigger] names_of(after)[q],
    ) == Order::Less by {
        let bp = if p < i { p } else { p + 1 };
        let bq = if q < i { q } else { q + 1 };
        assert(after[p] == before[bp]);
        assert(after[q] == before[bq]);
        assert(text::text_order(names_of(before)[bp], names_of(before)[bq]) == Order::Less);
    }
    let want = as_map(before).remove(gone);
    assert forall|k: Seq<char>| #[trigger] as_map(after).contains_key(k) == want.contains_key(k) by {
        if as_map(after).contains_key(k) {
            let j = choose|j: int| at(after, j, k);
            assert(at(after, j, k));
            let b = if j < i { j } else { j + 1 };
            assert(after[j] == before[b]);
            assert(at(before, b, k));
            if b < i {
                assert(text::text_order(names_of(before)[b], names_of(before)[i]) == Order::Less);
                lemma_differs(k, gone);
            } else {
                assert(text::text_order(names_of(before)[i], names_of(before)[b]) == Order::Less);
                lemma_differs(gone, k);
            }
        }
        if want.contains_key(k) {
            let j = choose|j: int| at(before, j, k);
            assert(at(before, j, k));
            assert(j != i);
            assert(at(after, if j < i { j } else { j - 1 }, k));
        }
    }
    assert forall|k: Seq<char>| #[trigger] as_map(after).contains_key(k) implies as_map(after)[k]
        == want[k] by {
        let j = choose|j: int| at(after, j, k);
        assert(at(after, j, k));
        lemma_at(after, j);
        let b = if j < i { j } else { j + 1 };
        assert(after[j] == before[b]);
        lemma_at(before, b);
    }
    assert(as_map(after) =~= want);
}

} // verus!
