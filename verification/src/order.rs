//! Three-way orders and the lexicographic order of sequences.

use vstd::prelude::*;

verus! {

/// The outcome of comparing two values.
#[derive(Clone, Copy, Debug, PartialEq, Eq, Structural)]
pub enum Order {
    Less,
    Equal,
    Greater,
}

pub open spec fn flip(o: Order) -> Order {
    match o {
        Order::Less => Order::Greater,
        Order::Equal => Order::Equal,
        Order::Greater => Order::Less,
    }
}

pub open spec fn int_order(a: int, b: int) -> Order {
    if a < b {
        Order::Less
    } else if a == b {
        Order::Equal
    } else {
        Order::Greater
    }
}

/// `f` is a total order: it is reflexive, antisymmetric and transitive, and the
/// two ways of comparing a pair agree.
pub open spec fn total<T>(f: spec_fn(T, T) -> Order) -> bool {
    &&& forall|a: T| #[trigger] f(a, a) == Order::Equal
    &&& forall|a: T, b: T| #[trigger] f(a, b) == Order::Equal ==> a == b
    &&& forall|a: T, b: T| #[trigger] f(a, b) == flip(f(b, a))
    &&& forall|a: T, b: T, c: T|
        #![trigger f(a, b), f(b, c)]
        f(a, b) == Order::Less && f(b, c) == Order::Less ==> f(a, c) == Order::Less
}

/// Lexicographic order: the first difference decides, and a prefix comes first.
pub open spec fn lex<T>(f: spec_fn(T, T) -> Order, a: Seq<T>, b: Seq<T>) -> Order
    decreases a.len(),
{
    if a.len() == 0 {
        if b.len() == 0 {
            Order::Equal
        } else {
            Order::Less
        }
    } else if b.len() == 0 {
        Order::Greater
    } else if f(a[0], b[0]) != Order::Equal {
        f(a[0], b[0])
    } else {
        lex(f, a.drop_first(), b.drop_first())
    }
}

pub open spec fn lex_by<T>(f: spec_fn(T, T) -> Order) -> spec_fn(Seq<T>, Seq<T>) -> Order {
    |a: Seq<T>, b: Seq<T>| lex(f, a, b)
}

pub proof fn lemma_lex_equal<T>(f: spec_fn(T, T) -> Order, a: Seq<T>, b: Seq<T>)
    requires
        total(f),
    ensures
        lex(f, a, b) == Order::Equal <==> a == b,
    decreases a.len(),
{
    if a.len() > 0 && b.len() > 0 {
        assert(f(a[0], b[0]) == Order::Equal <==> a[0] == b[0]) by {
            assert(f(a[0], a[0]) == Order::Equal);
        }
        lemma_lex_equal(f, a.drop_first(), b.drop_first());
        if a[0] == b[0] && a.drop_first() == b.drop_first() {
            assert(a =~= seq![a[0]] + a.drop_first());
            assert(b =~= seq![b[0]] + b.drop_first());
        }
    } else if a.len() == 0 && b.len() == 0 {
        assert(a =~= b);
    }
}

pub proof fn lemma_lex_flip<T>(f: spec_fn(T, T) -> Order, a: Seq<T>, b: Seq<T>)
    requires
        total(f),
    ensures
        lex(f, a, b) == flip(lex(f, b, a)),
    decreases a.len(),
{
    if a.len() > 0 && b.len() > 0 {
        assert(f(a[0], b[0]) == flip(f(b[0], a[0])));
        lemma_lex_flip(f, a.drop_first(), b.drop_first());
    }
}

pub proof fn lemma_lex_transitive<T>(
    f: spec_fn(T, T) -> Order,
    a: Seq<T>,
    b: Seq<T>,
    c: Seq<T>,
)
    requires
        total(f),
        lex(f, a, b) == Order::Less,
        lex(f, b, c) == Order::Less,
    ensures
        lex(f, a, c) == Order::Less,
    decreases a.len(),
{
    if a.len() > 0 {
        assert(b.len() > 0 && c.len() > 0);
        let x = f(a[0], b[0]);
        let y = f(b[0], c[0]);
        if x == Order::Equal && y == Order::Equal {
            assert(a[0] == b[0] && b[0] == c[0]);
            lemma_lex_transitive(f, a.drop_first(), b.drop_first(), c.drop_first());
        } else if x == Order::Equal {
            assert(a[0] == b[0]);
        } else if y == Order::Equal {
            assert(b[0] == c[0]);
        } else {
            assert(f(a[0], c[0]) == Order::Less);
        }
    }
}

/// The lexicographic order over a total order is total.
pub proof fn lex_is_total<T>(f: spec_fn(T, T) -> Order)
    requires
        total(f),
    ensures
        total(lex_by(f)),
{
    let g = lex_by(f);
    assert forall|a: Seq<T>| #[trigger] g(a, a) == Order::Equal by {
        lemma_lex_equal(f, a, a);
    }
    assert forall|a: Seq<T>, b: Seq<T>| #[trigger] g(a, b) == Order::Equal implies a == b by {
        lemma_lex_equal(f, a, b);
    }
    assert forall|a: Seq<T>, b: Seq<T>| #[trigger] g(a, b) == flip(g(b, a)) by {
        lemma_lex_flip(f, a, b);
    }
    assert forall|a: Seq<T>, b: Seq<T>, c: Seq<T>|
        #![trigger g(a, b), g(b, c)]
        g(a, b) == Order::Less && g(b, c) == Order::Less implies g(a, c) == Order::Less by {
        lemma_lex_transitive(f, a, b, c);
    }
}

/// If two sequences agree on their first `k` items, the rest decides.
pub proof fn lemma_lex_skip<T>(f: spec_fn(T, T) -> Order, a: Seq<T>, b: Seq<T>, k: int)
    requires
        0 <= k <= a.len(),
        k <= b.len(),
        forall|i: int| 0 <= i < k ==> f(#[trigger] a[i], b[i]) == Order::Equal,
    ensures
        lex(f, a, b) == lex(f, a.skip(k), b.skip(k)),
    decreases k,
{
    if k == 0 {
        assert(a.skip(0) =~= a);
        assert(b.skip(0) =~= b);
    } else {
        assert(f(a[0], b[0]) == Order::Equal);
        assert forall|i: int| 0 <= i < k - 1 implies f(
            #[trigger] a.drop_first()[i],
            b.drop_first()[i],
        ) == Order::Equal by {
            assert(f(a[i + 1], b[i + 1]) == Order::Equal);
        }
        lemma_lex_skip(f, a.drop_first(), b.drop_first(), k - 1);
        assert(a.drop_first().skip(k - 1) =~= a.skip(k));
        assert(b.drop_first().skip(k - 1) =~= b.skip(k));
    }
}

pub open spec fn byte_order() -> spec_fn(u8, u8) -> Order {
    |a: u8, b: u8| int_order(a as int, b as int)
}

/// Bytes compare by their first difference; a prefix comes first.
pub open spec fn bytes_order(a: Seq<u8>, b: Seq<u8>) -> Order {
    lex(byte_order(), a, b)
}

pub proof fn byte_order_is_total()
    ensures
        total(byte_order()),
{
}

/// Bytes come before others: up to some place both are the same, and there the first
/// end or have the smaller byte.
pub open spec fn come_before(a: Seq<u8>, b: Seq<u8>) -> bool {
    exists|i: int|
        0 <= i <= a.len() && i < b.len() && #[trigger] a.take(i) == b.take(i) && (i == a.len()
            || a[i] < b[i])
}

/// The order of bytes is by the first difference.
pub proof fn first_difference_decides(a: Seq<u8>, b: Seq<u8>)
    ensures
        bytes_order(a, b) == Order::Less <==> come_before(a, b),
        bytes_order(a, b) == Order::Equal <==> a == b,
        bytes_order(a, b) == Order::Greater <==> come_before(b, a),
{
    byte_order_is_total();
    lemma_lex_equal(byte_order(), a, b);
    lemma_lex_flip(byte_order(), a, b);
    lemma_first_difference(a, b);
    lemma_first_difference(b, a);
}

proof fn lemma_first_difference(a: Seq<u8>, b: Seq<u8>)
    ensures
        bytes_order(a, b) == Order::Less <==> come_before(a, b),
    decreases a.len(),
{
    if a.len() == 0 {
        if b.len() > 0 {
            assert(a.take(0) =~= b.take(0));
        }
    } else if b.len() > 0 {
        let p = a.drop_first();
        let q = b.drop_first();
        lemma_first_difference(p, q);
        if a[0] == b[0] {
            if come_before(p, q) {
                let i = choose|i: int|
                    0 <= i <= p.len() && i < q.len() && #[trigger] p.take(i) == q.take(i) && (i
                        == p.len() || p[i] < q[i]);
                assert(a.take(i + 1) =~= seq![a[0]] + p.take(i));
                assert(b.take(i + 1) =~= seq![b[0]] + q.take(i));
                assert(a.take(i + 1) == b.take(i + 1));
            }
            if come_before(a, b) {
                let i = choose|i: int|
                    0 <= i <= a.len() && i < b.len() && #[trigger] a.take(i) == b.take(i) && (i
                        == a.len() || a[i] < b[i]);
                assert(p.take(i - 1) =~= a.take(i).drop_first());
                assert(q.take(i - 1) =~= b.take(i).drop_first());
                assert(p.take(i - 1) == q.take(i - 1));
            }
        } else {
            if a[0] < b[0] {
                assert(a.take(0) =~= b.take(0));
            }
            if come_before(a, b) {
                let i = choose|i: int|
                    0 <= i <= a.len() && i < b.len() && #[trigger] a.take(i) == b.take(i) && (i
                        == a.len() || a[i] < b[i]);
                if i > 0 {
                    assert(a.take(i)[0] == b.take(i)[0]);
                }
            }
        }
    }
}

/// Compares two byte slices lexicographically.
pub fn order_bytes(a: &[u8], b: &[u8]) -> (r: Order)
    ensures
        r == bytes_order(a@, b@),
{
    let mut i: usize = 0;
    while i < a.len() && i < b.len()
        invariant
            i <= a.len(),
            i <= b.len(),
            forall|j: int| 0 <= j < i ==> a@[j] == b@[j],
        decreases a.len() - i,
    {
        if a[i] != b[i] {
            proof {
                lemma_lex_skip(byte_order(), a@, b@, i as int);
                assert(a@.skip(i as int)[0] == a@[i as int]);
                assert(b@.skip(i as int)[0] == b@[i as int]);
            }
            if a[i] < b[i] {
                return Order::Less;
            } else {
                return Order::Greater;
            }
        }
        i = i + 1;
    }
    proof {
        lemma_lex_skip(byte_order(), a@, b@, i as int);
    }
    if a.len() == b.len() {
        Order::Equal
    } else if a.len() < b.len() {
        Order::Less
    } else {
        Order::Greater
    }
}

pub fn order_i64(a: i64, b: i64) -> (r: Order)
    ensures
        r == int_order(a as int, b as int),
{
    if a < b {
        Order::Less
    } else if a == b {
        Order::Equal
    } else {
        Order::Greater
    }
}

pub fn order_u64(a: u64, b: u64) -> (r: Order)
    ensures
        r == int_order(a as int, b as int),
{
    if a < b {
        Order::Less
    } else if a == b {
        Order::Equal
    } else {
        Order::Greater
    }
}

} // verus!
