//! Unsigned numbers as bytes, the lowest byte first.

use vstd::prelude::*;

verus! {

/// The lowest `n` bytes of a number, the lowest first.
pub open spec fn le(x: nat, n: nat) -> Seq<u8>
    decreases n,
{
    if n == 0 {
        Seq::empty()
    } else {
        seq![(x % 256) as u8] + le(x / 256, (n - 1) as nat)
    }
}

/// The number that bytes give, the lowest first.
pub open spec fn le_value(s: Seq<u8>) -> nat
    decreases s.len(),
{
    if s.len() == 0 {
        0
    } else {
        s[0] as nat + 256 * le_value(s.drop_first())
    }
}

/// 256 to a power.
pub open spec fn bound(n: nat) -> nat
    decreases n,
{
    if n == 0 {
        1
    } else {
        256 * bound((n - 1) as nat)
    }
}

pub proof fn lemma_le_len(x: nat, n: nat)
    ensures
        le(x, n).len() == n,
    decreases n,
{
    if n > 0 {
        lemma_le_len(x / 256, (n - 1) as nat);
    }
}

/// The bytes of a number give it back, where they are enough.
pub proof fn le_round_trip(x: nat, n: nat)
    requires
        x < bound(n),
    ensures
        le_value(le(x, n)) == x,
        le(x, n).len() == n,
    decreases n,
{
    if n > 0 {
        le_round_trip(x / 256, (n - 1) as nat);
        assert(le(x, n).drop_first() =~= le(x / 256, (n - 1) as nat));
        assert(le(x, n)[0] == (x % 256) as u8);
    }
}

/// The number that bytes give has these bytes.
pub proof fn le_value_round_trip(s: Seq<u8>)
    ensures
        le_value(s) < bound(s.len()),
        le(le_value(s), s.len()) == s,
    decreases s.len(),
{
    if s.len() > 0 {
        let t = s.drop_first();
        le_value_round_trip(t);
        let v = le_value(s);
        assert(v % 256 == s[0]);
        assert(v / 256 == le_value(t));
        assert(le(v, s.len()) =~= s);
    } else {
        assert(le(le_value(s), 0) =~= s);
    }
}

pub proof fn lemma_bounds()
    ensures
        bound(1) == 0x100,
        bound(2) == 0x1_0000,
        bound(3) == 0x100_0000,
        bound(4) == 0x1_0000_0000,
        bound(8) == 0x1_0000_0000_0000_0000,
{
    reveal_with_fuel(bound, 9);
}

/// Appends the lowest `n` bytes of a number, the lowest first.
pub fn push_le(out: &mut Vec<u8>, x: u64, n: usize)
    ensures
        final(out)@ == old(out)@ + le(x as nat, n as nat),
{
    let mut left: u64 = x;
    let mut i: usize = 0;
    assert(out@ + le(x as nat, n as nat) =~= old(out)@ + le(x as nat, n as nat));
    while i < n
        invariant
            i <= n,
            out@ + le(left as nat, (n - i) as nat) == old(out)@ + le(x as nat, n as nat),
        decreases n - i,
    {
        let ghost before = out@;
        let ghost rest = le((left / 256) as nat, (n - i - 1) as nat);
        out.push((left % 256) as u8);
        assert(out@ + rest =~= before + le(left as nat, (n - i) as nat));
        left = left / 256;
        i = i + 1;
    }
    assert(out@ + le(left as nat, 0) =~= out@);
}

/// Reads a number from the `n` bytes at a place, the lowest first.
pub fn read_le(bytes: &[u8], pos: usize, n: usize) -> (r: u64)
    requires
        n <= 8,
        pos + n <= bytes.len(),
    ensures
        r == le_value(bytes@.subrange(pos as int, pos + n)),
{
    let mut r: u64 = 0;
    let mut i: usize = n;
    assert(bytes@.subrange(pos + n, pos + n) =~= Seq::empty());
    proof {
        lemma_bounds();
    }
    while i > 0
        invariant
            i <= n <= 8,
            pos + n <= bytes.len(),
            r == le_value(bytes@.subrange(pos + i, pos + n)),
        decreases i,
    {
        let ghost rest = bytes@.subrange(pos + i, pos + n);
        i = i - 1;
        let ghost whole = bytes@.subrange(pos + i, pos + n);
        proof {
            assert(whole.drop_first() =~= rest);
            le_value_round_trip(whole);
            lemma_bound_grows(whole.len(), 8);
            lemma_bounds();
        }
        r = r * 256 + bytes[pos + i] as u64;
    }
    r
}

proof fn lemma_bound_grows(a: nat, b: nat)
    requires
        a <= b,
    ensures
        bound(a) <= bound(b),
    decreases b,
{
    if a < b {
        lemma_bound_grows(a, (b - 1) as nat);
    }
}

/// Bytes of a number come with the lowest first: each is the rest of the number by 256,
/// and what follows are those of the quotient.
pub proof fn lowest_byte_comes_first(x: nat)
    ensures
        le(x, 1) == seq![(x % 256) as u8],
        le(x, 2) == seq![(x % 256) as u8, (x / 256 % 256) as u8],
        le(x, 3) == seq![(x % 256) as u8, (x / 256 % 256) as u8, (x / 65536 % 256) as u8],
        le(x, 4) == seq![
            (x % 256) as u8,
            (x / 256 % 256) as u8,
            (x / 65536 % 256) as u8,
            (x / 16777216 % 256) as u8,
        ],
{
    reveal_with_fuel(le, 5);
    assert(x / 256 / 256 == x / 65536);
    assert(x / 65536 / 256 == x / 16777216);
    assert(le(x, 1) =~= seq![(x % 256) as u8]);
    assert(le(x, 2) =~= seq![(x % 256) as u8, (x / 256 % 256) as u8]);
    assert(le(x, 3) =~= seq![
        (x % 256) as u8,
        (x / 256 % 256) as u8,
        (x / 65536 % 256) as u8,
    ]);
    assert(le(x, 4) =~= seq![
        (x % 256) as u8,
        (x / 256 % 256) as u8,
        (x / 65536 % 256) as u8,
        (x / 16777216 % 256) as u8,
    ]);
}

/// The number that bytes give is the first byte and 256 times what the others give.
pub proof fn bytes_count_by_place(b: u8, rest: Seq<u8>)
    ensures
        le_value(Seq::empty()) == 0,
        le_value(seq![b] + rest) == b + 256 * le_value(rest),
{
    assert((seq![b] + rest).drop_first() =~= rest);
}

} // verus!
