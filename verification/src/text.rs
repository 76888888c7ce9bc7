//! Text helpers: case folding, decimal numbers, byte order and trimming.

use vstd::prelude::*;
use vstd::string::*;
use vstd::utf8::*;

use crate::order;
use crate::order::Order;

verus! {

broadcast use group_utf8_lib;

/// The text that Unicode case mapping gives for `s` in lower case.
pub uninterp spec fn lowercase(s: Seq<char>) -> Seq<char>;

/// The text that Unicode case mapping gives for `s` in upper case.
pub uninterp spec fn uppercase(s: Seq<char>) -> Seq<char>;

/// Whether `c` has the Unicode property `White_Space`.
pub uninterp spec fn white_space(c: char) -> bool;

/// `String::push` appends one character.
pub assume_specification[ std::string::String::push ](s: &mut std::string::String, c: char)
    ensures
        final(s)@ == old(s)@.push(c),
;

/// `str::to_lowercase` maps a text by Unicode rules, which depend on the text
/// alone. On ASCII text it maps `A` to `Z` and leaves the rest.
pub assume_specification[ str::to_lowercase ](s: &str) -> (r: std::string::String)
    ensures
        r@ == lowercase(s@),
        is_ascii_chars(s@) ==> r@ == ascii_lower_all(s@),
;

/// `str::to_uppercase` maps a text by Unicode rules, which depend on the text
/// alone. On ASCII text it maps `a` to `z` and leaves the rest.
pub assume_specification[ str::to_uppercase ](s: &str) -> (r: std::string::String)
    ensures
        r@ == uppercase(s@),
        is_ascii_chars(s@) ==> r@ == ascii_upper_all(s@),
;

/// `char::is_whitespace` tells whether a character is white space. Of the ASCII
/// characters these are the space and the five from tab to carriage return.
pub assume_specification[ char::is_whitespace ](c: char) -> (r: bool)
    ensures
        r == white_space(c),
        (c as u32) < 128 ==> r == (c == ' ' || 9 <= c as u32 <= 13),
;

// ---------------------------------------------------------------------------
// ASCII case
// ---------------------------------------------------------------------------

pub open spec fn ascii_lower(c: char) -> char {
    if 'A' <= c <= 'Z' {
        (c as u32 + 32) as char
    } else {
        c
    }
}

pub open spec fn ascii_upper(c: char) -> char {
    if 'a' <= c <= 'z' {
        (c as u32 - 32) as char
    } else {
        c
    }
}

pub open spec fn ascii_lower_all(s: Seq<char>) -> Seq<char> {
    Seq::new(s.len(), |i: int| ascii_lower(s[i]))
}

pub open spec fn ascii_upper_all(s: Seq<char>) -> Seq<char> {
    Seq::new(s.len(), |i: int| ascii_upper(s[i]))
}

/// Equality of texts in which only the case of ASCII letters may differ.
pub open spec fn same_name(a: Seq<char>, b: Seq<char>) -> bool {
    ascii_lower_all(a) == ascii_lower_all(b)
}

/// The characters are the same, or the same letter of the alphabet from A to Z, one in
/// upper and one in lower case.
pub open spec fn same_letter(a: char, b: char) -> bool {
    ||| a == b
    ||| 65 <= a as int <= 90 && b as int == a as int + 32
    ||| 65 <= b as int <= 90 && a as int == b as int + 32
}

/// Names are the same where their letters are.
pub proof fn names_are_the_same_by_letters(a: Seq<char>, b: Seq<char>)
    ensures
        same_name(a, b) <==> a.len() == b.len() && forall|i: int|
            0 <= i < a.len() ==> same_letter(#[trigger] a[i], b[i]),
{
    let p = ascii_lower_all(a);
    let q = ascii_lower_all(b);
    assert(p.len() == a.len() && q.len() == b.len());
    if same_name(a, b) {
        assert(p.len() == q.len());
        assert forall|i: int| 0 <= i < a.len() implies same_letter(#[trigger] a[i], b[i]) by {
            assert(p[i] == q[i]);
        }
    }
    if a.len() == b.len() && forall|i: int|
        0 <= i < a.len() ==> same_letter(#[trigger] a[i], b[i]) {
        assert forall|i: int| 0 <= i < a.len() implies p[i] == q[i] by {
            assert(same_letter(a[i], b[i]));
        }
        assert(p =~= q);
    }
}

/// The lower case of one ASCII letter; any other character is returned as it is.
pub fn lower_char(c: char) -> (r: char)
    ensures
        r == ascii_lower(c),
{
    if 'A' <= c && c <= 'Z' {
        let code: u8 = c as u8;
        (code + 32u8) as char
    } else {
        c
    }
}

/// The characters of a text.
pub fn chars_of(s: &str) -> (r: Vec<char>)
    ensures
        r@ == s@,
{
    let mut out: Vec<char> = Vec::new();
    for c in it: s.chars()
        invariant
            out@ == it.seq().take(it.index() as int),
    {
        out.push(c);
    }
    out
}

/// Compares two byte slices for equality.
pub fn same_bytes(a: &[u8], b: &[u8]) -> (r: bool)
    ensures
        r == (a@ == b@),
{
    if a.len() != b.len() {
        return false;
    }
    let mut i: usize = 0;
    while i < a.len()
        invariant
            a.len() == b.len(),
            i <= a.len(),
            forall|j: int| 0 <= j < i ==> a@[j] == b@[j],
        decreases a.len() - i,
    {
        if a[i] != b[i] {
            return false;
        }
        i = i + 1;
    }
    assert(a@ =~= b@);
    true
}

/// Texts with the same encoding are the same.
pub proof fn lemma_encoding_injective(a: Seq<char>, b: Seq<char>)
    ensures
        encode_utf8(a) == encode_utf8(b) <==> a == b,
{
    encode_utf8_decode_utf8(a);
    encode_utf8_decode_utf8(b);
}

/// The encoding of a text is that of its parts.
pub proof fn lemma_encode_concat(a: Seq<char>, b: Seq<char>)
    ensures
        encode_utf8(a + b) == encode_utf8(a) + encode_utf8(b),
    decreases a.len(),
{
    if a.len() == 0 {
        assert(a + b =~= b);
        assert(encode_utf8(a) =~= Seq::empty());
        assert(encode_utf8(a) + encode_utf8(b) =~= encode_utf8(b));
    } else {
        lemma_encode_concat(a.drop_first(), b);
        assert((a + b).drop_first() =~= a.drop_first() + b);
        assert((a + b)[0] == a[0]);
        assert(encode_utf8(a + b) =~= encode_utf8(a) + encode_utf8(b));
    }
}

/// The order of two texts: that of their bytes.
#[verifier::opaque]
pub open spec fn text_order(a: Seq<char>, b: Seq<char>) -> Order {
    order::bytes_order(encode_utf8(a), encode_utf8(b))
}

/// The two ways of comparing a pair of texts agree, and only equal texts compare
/// as equal.
pub proof fn text_order_flips(a: Seq<char>, b: Seq<char>)
    ensures
        text_order(a, b) == order::flip(text_order(b, a)),
        text_order(a, b) == Order::Equal <==> a == b,
{
    reveal(text_order);
    order::byte_order_is_total();
    order::lemma_lex_flip(order::byte_order(), encode_utf8(a), encode_utf8(b));
    order::lemma_lex_equal(order::byte_order(), encode_utf8(a), encode_utf8(b));
    lemma_encoding_injective(a, b);
}

/// A text before another comes before all that the other comes before.
pub proof fn text_order_transitive(a: Seq<char>, b: Seq<char>, c: Seq<char>)
    requires
        text_order(a, b) == Order::Less,
        text_order(b, c) == Order::Less,
    ensures
        text_order(a, c) == Order::Less,
{
    reveal(text_order);
    order::byte_order_is_total();
    order::lemma_lex_transitive(
        order::byte_order(),
        encode_utf8(a),
        encode_utf8(b),
        encode_utf8(c),
    );
}

/// Compares two texts by their bytes.
pub fn order_texts(a: &str, b: &str) -> (r: Order)
    ensures
        r == text_order(a@, b@),
{
    proof {
        reveal(text_order);
    }
    order::order_bytes(a.as_bytes(), b.as_bytes())
}

/// Compares two texts for equality.
pub fn same_text(a: &str, b: &str) -> (r: bool)
    ensures
        r == (a@ == b@),
{
    proof {
        lemma_encoding_injective(a@, b@);
    }
    same_bytes(a.as_bytes(), b.as_bytes())
}

/// A text starts with another.
pub open spec fn has_prefix(s: Seq<char>, p: Seq<char>) -> bool {
    p.len() <= s.len() && s.take(p.len() as int) == p
}

/// Whether a text starts with another.
pub fn starts_with(s: &str, p: &str) -> (r: bool)
    ensures
        r == has_prefix(s@, p@),
{
    let a = chars_of(s);
    let b = chars_of(p);
    if b.len() > a.len() {
        return false;
    }
    let mut i: usize = 0;
    while i < b.len()
        invariant
            a@ == s@,
            b@ == p@,
            b.len() <= a.len(),
            i <= b.len(),
            forall|j: int| 0 <= j < i ==> a@[j] == b@[j],
        decreases b.len() - i,
    {
        if a[i] != b[i] {
            assert(s@.take(p@.len() as int)[i as int] != p@[i as int]);
            return false;
        }
        i = i + 1;
    }
    assert(s@.take(p@.len() as int) =~= p@);
    true
}

/// The text made of the given characters.
pub fn string_of(cs: &[char]) -> (r: String)
    ensures
        r@ == cs@,
{
    let mut out = String::new();
    let mut i: usize = 0;
    while i < cs.len()
        invariant
            i <= cs.len(),
            out@ == cs@.take(i as int),
        decreases cs.len() - i,
    {
        out.push(cs[i]);
        i = i + 1;
        assert(cs@.take(i as int) =~= cs@.take(i - 1).push(cs@[i - 1]));
    }
    assert(cs@.take(cs@.len() as int) =~= cs@);
    out
}

/// Compares two names, ignoring the case of ASCII letters.
pub fn equal_ignoring_case(a: &str, b: &str) -> (r: bool)
    ensures
        r == same_name(a@, b@),
{
    let x = chars_of(a);
    let y = chars_of(b);
    if x.len() != y.len() {
        assert(ascii_lower_all(a@).len() != ascii_lower_all(b@).len());
        return false;
    }
    let mut i: usize = 0;
    while i < x.len()
        invariant
            x@ == a@,
            y@ == b@,
            x.len() == y.len(),
            i <= x.len(),
            forall|j: int| 0 <= j < i ==> ascii_lower(x@[j]) == ascii_lower(#[trigger] y@[j]),
        decreases x.len() - i,
    {
        if lower_char(x[i]) != lower_char(y[i]) {
            assert(ascii_lower_all(a@)[i as int] != ascii_lower_all(b@)[i as int]);
            return false;
        }
        i = i + 1;
    }
    assert(ascii_lower_all(a@) =~= ascii_lower_all(b@));
    true
}

/// Texts one after the other, with a separator between them.
pub open spec fn joined(parts: Seq<Seq<char>>, separator: Seq<char>) -> Seq<char>
    decreases parts.len(),
{
    if parts.len() == 0 {
        Seq::empty()
    } else if parts.len() == 1 {
        parts[0]
    } else {
        joined(parts.drop_last(), separator) + separator + parts.last()
    }
}

/// Joins texts, with a separator between them.
pub fn join(parts: &Vec<String>, separator: &str) -> (r: String)
    ensures
        r@ == joined(crate::model::views(parts@), separator@),
{
    broadcast use crate::model::group_views;

    let ghost v = crate::model::views(parts@);
    let mut out = String::new();
    let mut i: usize = 0;
    while i < parts.len()
        invariant
            v == crate::model::views(parts@),
            i <= parts.len(),
            out@ == joined(v.take(i as int), separator@),
        decreases parts.len() - i,
    {
        let ghost next = v.take(i + 1);
        proof {
            assert(next.drop_last() =~= v.take(i as int));
            assert(next.last() == parts@[i as int]@);
        }
        if i > 0 {
            out.append(separator);
        }
        out.append(parts[i].as_str());
        assert(out@ =~= joined(next, separator@));
        i = i + 1;
    }
    assert(v.take(v.len() as int) =~= v);
    out
}

// ---------------------------------------------------------------------------
// Decimal numbers
// ---------------------------------------------------------------------------

pub open spec fn digit_char(d: int) -> char {
    (48 + d) as char
}

/// The decimal digits of a number, without leading zeros.
pub open spec fn nat_text(n: nat) -> Seq<char>
    decreases n,
{
    if n < 10 {
        seq![digit_char(n as int)]
    } else {
        nat_text(n / 10).push(digit_char((n % 10) as int))
    }
}

pub open spec fn int_text(n: int) -> Seq<char> {
    if n < 0 {
        seq!['-'] + nat_text((-n) as nat)
    } else {
        nat_text(n as nat)
    }
}

/// The decimal digits of a number, filled with zeros on the left to a width.
pub open spec fn padded(n: nat, width: nat) -> Seq<char> {
    let t = nat_text(n);
    if t.len() >= width {
        t
    } else {
        Seq::new((width - t.len()) as nat, |i: int| '0') + t
    }
}

fn digit_of(d: u64) -> (c: char)
    requires
        d < 10,
    ensures
        c == digit_char(d as int),
{
    (48u8 + d as u8) as char
}

/// Appends the decimal digits of `n`.
pub fn push_u64(out: &mut String, n: u64)
    ensures
        final(out)@ == old(out)@ + nat_text(n as nat),
    decreases n,
{
    if n >= 10 {
        push_u64(out, n / 10);
    }
    let ghost before = out@;
    out.push(digit_of(n % 10));
    proof {
        if n >= 10 {
            assert(before.push(digit_char((n % 10) as int)) =~= old(out)@ + nat_text(n as nat));
        } else {
            assert(before.push(digit_char((n % 10) as int)) =~= old(out)@ + nat_text(n as nat));
        }
    }
}

/// Appends the decimal text of `n`.
pub fn push_i64(out: &mut String, n: i64)
    ensures
        final(out)@ == old(out)@ + int_text(n as int),
{
    if n < 0 {
        out.push('-');
        let magnitude: u64 = (-(n as i128)) as u64;
        push_u64(out, magnitude);
        assert(final(out)@ =~= old(out)@ + int_text(n as int));
    } else {
        push_u64(out, n as u64);
    }
}

pub fn u64_text(n: u64) -> (r: String)
    ensures
        r@ == nat_text(n as nat),
{
    let mut out = String::new();
    push_u64(&mut out, n);
    assert(out@ =~= nat_text(n as nat));
    out
}

pub fn i64_text(n: i64) -> (r: String)
    ensures
        r@ == int_text(n as int),
{
    let mut out = String::new();
    push_i64(&mut out, n);
    assert(out@ =~= int_text(n as int));
    out
}

/// Appends the decimal digits of `n`, filled with zeros on the left to `width`.
pub fn push_padded(out: &mut String, n: u64, width: usize)
    ensures
        final(out)@ == old(out)@ + padded(n as nat, width as nat),
{
    let digits = chars_of(u64_text(n).as_str());
    let mut i: usize = digits.len();
    while i < width
        invariant
            digits@ == nat_text(n as nat),
            digits.len() <= i,
            i <= width || i == digits.len(),
            out@ == old(out)@ + Seq::new((i - digits.len()) as nat, |k: int| '0'),
        decreases width - i,
    {
        out.push('0');
        i = i + 1;
        assert(out@ =~= old(out)@ + Seq::new((i - digits.len()) as nat, |k: int| '0'));
    }
    push_u64(out, n);
    assert(out@ =~= old(out)@ + padded(n as nat, width as nat));
}

// ---------------------------------------------------------------------------
// Reading decimal numbers
// ---------------------------------------------------------------------------

pub open spec fn is_digit(c: char) -> bool {
    '0' <= c <= '9'
}

pub open spec fn all_digits(s: Seq<char>) -> bool {
    s.len() > 0 && forall|i: int| 0 <= i < s.len() ==> is_digit(#[trigger] s[i])
}

pub open spec fn digits_value(s: Seq<char>) -> nat
    decreases s.len(),
{
    if s.len() == 0 {
        0
    } else {
        digits_value(s.drop_last()) * 10 + (s.last() as nat - 48) as nat
    }
}

/// The number that a text denotes: digits behind an optional sign.
pub open spec fn number_of(s: Seq<char>) -> Option<int> {
    if s.len() > 0 && s[0] == '-' {
        if all_digits(s.drop_first()) {
            Some(-(digits_value(s.drop_first()) as int))
        } else {
            None
        }
    } else if s.len() > 0 && s[0] == '+' {
        if all_digits(s.drop_first()) {
            Some(digits_value(s.drop_first()) as int)
        } else {
            None
        }
    } else if all_digits(s) {
        Some(digits_value(s) as int)
    } else {
        None
    }
}

/// The number that a text denotes, where it lies in a range.
pub open spec fn number_within(s: Seq<char>, low: int, high: int) -> Option<int> {
    match number_of(s) {
        Some(n) => if low <= n <= high {
            Some(n)
        } else {
            None
        },
        None => None,
    }
}

/// Reads the digits from position `from` on; `None` where a character is no
/// digit, where there is none, or where the value passes `limit`.
fn read_digits(cs: &Vec<char>, from: usize, limit: u64) -> (r: Option<u64>)
    requires
        from <= cs.len(),
    ensures
        match r {
            Some(n) => all_digits(cs@.skip(from as int)) && digits_value(cs@.skip(from as int))
                == n && n <= limit,
            None => !all_digits(cs@.skip(from as int)) || digits_value(cs@.skip(from as int))
                > limit,
        },
{
    let ghost s = cs@.skip(from as int);
    if from == cs.len() {
        return None;
    }
    let mut acc: u128 = 0;
    let mut i: usize = from;
    let mut over: bool = false;
    while i < cs.len()
        invariant
            from <= i <= cs.len(),
            s == cs@.skip(from as int),
            forall|j: int| 0 <= j < i - from ==> is_digit(#[trigger] s[j]),
            over ==> digits_value(s.take(i - from)) > limit,
            !over ==> acc == digits_value(s.take(i - from)) && acc <= limit,
        decreases cs.len() - i,
    {
        let c = cs[i];
        if !('0' <= c && c <= '9') {
            assert(!is_digit(s[i - from]));
            return None;
        }
        assert(s[i - from] == c);
        assert(s.take(i + 1 - from).drop_last() =~= s.take(i - from));
        if !over {
            acc = acc * 10 + (c as u32 - 48) as u128;
            if acc > limit as u128 {
                over = true;
            }
        }
        i = i + 1;
    }
    assert(s.take(s.len() as int) =~= s);
    if over {
        None
    } else {
        Some(acc as u64)
    }
}

/// Reads a signed number; `None` where the text is no number or out of range.
pub fn parse_i64(s: &str) -> (r: Option<i64>)
    ensures
        match r {
            Some(n) => number_within(s@, i64::MIN as int, i64::MAX as int) == Some(n as int),
            None => number_within(s@, i64::MIN as int, i64::MAX as int) is None,
        },
{
    let cs = chars_of(s);
    assert(cs@.skip(0) =~= cs@);
    if cs.len() > 0 {
        assert(cs@.skip(1) =~= cs@.drop_first());
        if cs[0] == '-' {
            return match read_digits(&cs, 1, 0x8000_0000_0000_0000) {
                Some(n) => Some((-(n as i128)) as i64),
                None => None,
            };
        }
        if cs[0] == '+' {
            return match read_digits(&cs, 1, 0x7fff_ffff_ffff_ffff) {
                Some(n) => Some(n as i64),
                None => None,
            };
        }
    }
    match read_digits(&cs, 0, 0x7fff_ffff_ffff_ffff) {
        Some(n) => Some(n as i64),
        None => None,
    }
}

/// Reads an unsigned number, which may have a plus sign.
pub fn parse_usize(s: &str) -> (r: Option<usize>)
    ensures
        match r {
            Some(n) => unsigned_within(s@, usize::MAX as nat) == Some(n as nat),
            None => unsigned_within(s@, usize::MAX as nat) is None,
        },
{
    let cs = chars_of(s);
    assert(cs@.skip(0) =~= cs@);
    if cs.len() > 0 {
        assert(cs@.skip(1) =~= cs@.drop_first());
        if cs[0] == '+' {
            return match read_digits(&cs, 1, usize::MAX as u64) {
                Some(n) => Some(n as usize),
                None => None,
            };
        }
    }
    match read_digits(&cs, 0, usize::MAX as u64) {
        Some(n) => Some(n as usize),
        None => None,
    }
}

/// The unsigned number that a text denotes, up to `high`: a minus sign is not
/// accepted, a plus sign is.
pub open spec fn unsigned_within(s: Seq<char>, high: nat) -> Option<nat> {
    let digits = if s.len() > 0 && s[0] == '+' {
        s.drop_first()
    } else {
        s
    };
    if all_digits(digits) && digits_value(digits) <= high {
        Some(digits_value(digits))
    } else {
        None
    }
}

// ---------------------------------------------------------------------------
// What decimal texts mean
// ---------------------------------------------------------------------------

/// The ten digits stand for the numbers from zero to nine, and a digit behind others
/// makes ten of each that they count.
pub proof fn digits_count_tens(s: Seq<char>, d: int)
    requires
        0 <= d < 10,
    ensures
        digit_char(d) == "0123456789"@[d],
        is_digit("0123456789"@[d]),
        digits_value(Seq::empty()) == 0,
        digits_value(s.push("0123456789"@[d])) == 10 * digits_value(s) + d,
{
    reveal_strlit("0123456789");
    assert(s.push("0123456789"@[d]).drop_last() =~= s);
}

/// The decimal text of a number is made of digits, has no needless zero in front, and
/// stands for the number.
pub proof fn number_reads_back(n: nat)
    ensures
        all_digits(nat_text(n)),
        digits_value(nat_text(n)) == n,
        nat_text(n)[0] == '0' ==> n == 0,
        n == 0 ==> nat_text(n) == seq!['0'],
    decreases n,
{
    reveal_with_fuel(digits_value, 2);
    if n >= 10 {
        let before = nat_text(n / 10);
        number_reads_back(n / 10);
        assert(nat_text(n).drop_last() =~= before);
        assert(nat_text(n)[0] == before[0]);
    } else {
        assert(nat_text(n).drop_last() =~= Seq::<char>::empty());
    }
}

/// The decimal text of an integer is read as the integer, and one that is not too large
/// as an unsigned number.
pub proof fn integer_reads_back(k: int)
    ensures
        number_of(int_text(k)) == Some(k),
        int_text(k)[0] == '-' <==> k < 0,
        forall|high: nat|
            0 <= k ==> #[trigger] unsigned_within(int_text(k), high) == (if k <= high {
                Some(k as nat)
            } else {
                None
            }),
{
    if k < 0 {
        number_reads_back((-k) as nat);
        assert(int_text(k).drop_first() =~= nat_text((-k) as nat));
    } else {
        number_reads_back(k as nat);
        assert(is_digit(nat_text(k as nat)[0]));
    }
}

/// Different integers have different texts.
pub proof fn integer_texts_differ(j: int, k: int)
    ensures
        int_text(j) == int_text(k) <==> j == k,
{
    integer_reads_back(j);
    integer_reads_back(k);
}

// ---------------------------------------------------------------------------
// UTF-8
// ---------------------------------------------------------------------------

/// The text of bytes in which each invalid part is replaced.
pub uninterp spec fn lossy_text(bytes: Seq<u8>) -> Seq<char>;

/// What is reported of bytes that are not valid UTF-8.
pub uninterp spec fn utf8_failure(bytes: Seq<u8>) -> Seq<char>;

/// The text of bytes, or what is reported of them where they are not valid UTF-8.
pub open spec fn utf8_read(bytes: Seq<u8>) -> Result<Seq<char>, Seq<char>> {
    if valid_utf8(bytes) {
        Ok(decode_utf8(bytes))
    } else {
        Err(utf8_failure(bytes))
    }
}

/// `String::from_utf8_lossy` reads bytes as UTF-8 and replaces what is invalid.
/// Valid bytes are read as they are.
#[verifier::external_body]
pub(crate) fn utf8_lossy(bytes: &[u8]) -> (r: String)
    ensures
        r@ == lossy_text(bytes@),
        valid_utf8(bytes@) ==> r@ == decode_utf8(bytes@),
{
    String::from_utf8_lossy(bytes).into_owned()
}

/// `String::from_utf8` reads bytes as UTF-8. It fails on exactly the bytes that
/// are not valid, with an error whose message depends on the bytes alone.
#[verifier::external_body]
pub(crate) fn utf8_text(bytes: &[u8]) -> (r: Result<String, String>)
    ensures
        match r {
            Ok(s) => valid_utf8(bytes@) && s@ == decode_utf8(bytes@),
            Err(e) => !valid_utf8(bytes@) && e@ == utf8_failure(bytes@),
        },
{
    String::from_utf8(bytes.to_vec()).map_err(|e| e.to_string())
}

} // verus!
