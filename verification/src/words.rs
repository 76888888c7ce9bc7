//! Taking texts apart.

use vstd::prelude::*;

use crate::model;
use crate::text;
use crate::text::{chars_of, string_of};

verus! {

broadcast use crate::model::group_views;

/// A text without the characters at its front that satisfy `p`.
pub open spec fn without_front(s: Seq<char>, p: spec_fn(char) -> bool) -> Seq<char>
    decreases s.len(),
{
    if s.len() > 0 && p(s[0]) {
        without_front(s.drop_first(), p)
    } else {
        s
    }
}

/// A text without the characters at its end that satisfy `p`.
pub open spec fn without_end(s: Seq<char>, p: spec_fn(char) -> bool) -> Seq<char>
    decreases s.len(),
{
    if s.len() > 0 && p(s.last()) {
        without_end(s.drop_last(), p)
    } else {
        s
    }
}

pub open spec fn is_space() -> spec_fn(char) -> bool {
    |c: char| text::white_space(c)
}

pub open spec fn is_char(d: char) -> spec_fn(char) -> bool {
    |c: char| c == d
}

/// A text without white space at its ends.
pub open spec fn trimmed(s: Seq<char>) -> Seq<char> {
    without_end(without_front(s, is_space()), is_space())
}

/// A text without a character at its end, however often it stands there.
pub open spec fn trimmed_end_of(s: Seq<char>, d: char) -> Seq<char> {
    without_end(s, is_char(d))
}

/// A text without a character at its ends, however often it stands there.
pub open spec fn trimmed_of(s: Seq<char>, d: char) -> Seq<char> {
    without_end(without_front(s, is_char(d)), is_char(d))
}

/// The parts of a text between the places where a character stands.
pub open spec fn parts(s: Seq<char>, d: char) -> Seq<Seq<char>>
    decreases s.len(),
{
    match model::first(s, is_char(d)) {
        Some(i) => if 0 <= i < s.len() {
            seq![s.take(i)] + parts(s.skip(i + 1), d)
        } else {
            seq![s]
        },
        None => seq![s],
    }
}

proof fn lemma_front_keeps(s: Seq<char>, p: spec_fn(char) -> bool, i: int)
    requires
        0 <= i <= s.len(),
        forall|j: int| 0 <= j < i ==> p(#[trigger] s[j]),
        i < s.len() ==> !p(s[i]),
    ensures
        without_front(s, p) == s.skip(i),
    decreases i,
{
    if i > 0 {
        assert(p(s[0]));
        let t = s.drop_first();
        assert forall|j: int| 0 <= j < i - 1 implies p(#[trigger] t[j]) by {
            assert(p(s[j + 1]));
        }
        lemma_front_keeps(t, p, i - 1);
        assert(t.skip(i - 1) =~= s.skip(i));
    } else {
        assert(s.skip(0) =~= s);
    }
}

proof fn lemma_end_keeps(s: Seq<char>, p: spec_fn(char) -> bool, i: int)
    requires
        0 <= i <= s.len(),
        forall|j: int| i <= j < s.len() ==> p(#[trigger] s[j]),
        i > 0 ==> !p(s[i - 1]),
    ensures
        without_end(s, p) == s.take(i),
    decreases s.len() - i,
{
    if i < s.len() {
        assert(p(s[s.len() - 1]));
        let t = s.drop_last();
        assert forall|j: int| i <= j < t.len() implies p(#[trigger] t[j]) by {
            assert(p(s[j]));
        }
        lemma_end_keeps(t, p, i);
        assert(t.take(i) =~= s.take(i));
    } else {
        assert(s.take(i) =~= s);
    }
}

/// A text without white space at its ends.
pub fn trim(s: &str) -> (r: String)
    ensures
        r@ == trimmed(s@),
{
    let cs = chars_of(s);
    let ghost p = is_space();
    let mut from: usize = 0;
    while from < cs.len() && cs[from].is_whitespace()
        invariant
            cs@ == s@,
            p == is_space(),
            from <= cs.len(),
            forall|j: int| 0 <= j < from ==> p(#[trigger] cs@[j]),
        decreases cs.len() - from,
    {
        from = from + 1;
    }
    let ghost mid = s@.skip(from as int);
    proof {
        lemma_front_keeps(s@, p, from as int);
    }
    let mut to: usize = cs.len();
    while to > from && cs[to - 1].is_whitespace()
        invariant
            cs@ == s@,
            p == is_space(),
            from <= to <= cs.len(),
            mid == s@.skip(from as int),
            forall|j: int| to - from <= j < mid.len() ==> p(#[trigger] mid[j]),
        decreases to,
    {
        to = to - 1;
        assert(mid[to - from] == cs@[to as int]);
    }
    proof {
        if to > from {
            assert(mid[to - from - 1] == cs@[to - 1]);
        }
        lemma_end_keeps(mid, p, to - from);
        assert(mid.take(to - from) =~= s@.subrange(from as int, to as int));
    }
    string_of(vstd::slice::slice_subrange(cs.as_slice(), from, to))
}

/// A text without a character at its end, however often it stands there.
pub fn trim_end_of(s: &str, d: char) -> (r: String)
    ensures
        r@ == trimmed_end_of(s@, d),
{
    let cs = chars_of(s);
    let ghost p = is_char(d);
    let mut to: usize = cs.len();
    while to > 0 && cs[to - 1] == d
        invariant
            cs@ == s@,
            p == is_char(d),
            to <= cs.len(),
            forall|j: int| to <= j < s@.len() ==> p(#[trigger] s@[j]),
        decreases to,
    {
        to = to - 1;
    }
    proof {
        lemma_end_keeps(s@, p, to as int);
        assert(s@.take(to as int) =~= s@.subrange(0, to as int));
    }
    string_of(vstd::slice::slice_subrange(cs.as_slice(), 0, to))
}

/// A text without a character at its ends, however often it stands there.
pub fn trim_of(s: &str, d: char) -> (r: String)
    ensures
        r@ == trimmed_of(s@, d),
{
    let cs = chars_of(s);
    let ghost p = is_char(d);
    let mut from: usize = 0;
    while from < cs.len() && cs[from] == d
        invariant
            cs@ == s@,
            p == is_char(d),
            from <= cs.len(),
            forall|j: int| 0 <= j < from ==> p(#[trigger] cs@[j]),
        decreases cs.len() - from,
    {
        from = from + 1;
    }
    proof {
        lemma_front_keeps(s@, p, from as int);
        assert(s@.skip(from as int) =~= s@.subrange(from as int, s@.len() as int));
    }
    let rest = string_of(vstd::slice::slice_subrange(cs.as_slice(), from, cs.len()));
    trim_end_of(rest.as_str(), d)
}

/// The place of the first occurrence of a character.
pub fn find_char(cs: &[char], from: usize, d: char) -> (r: Option<usize>)
    requires
        from <= cs.len(),
    ensures
        match r {
            Some(i) => model::first(cs@.skip(from as int), is_char(d)) == Some(i - from) && from <= i
                < cs.len(),
            None => model::first(cs@.skip(from as int), is_char(d)) is None,
        },
{
    let ghost rest = cs@.skip(from as int);
    let ghost p = is_char(d);
    let mut i: usize = from;
    while i < cs.len()
        invariant
            rest == cs@.skip(from as int),
            p == is_char(d),
            from <= i <= cs.len(),
            forall|j: int| 0 <= j < i - from ==> !p(#[trigger] rest[j]),
        decreases cs.len() - i,
    {
        assert(rest[i - from] == cs@[i as int]);
        if cs[i] == d {
            proof {
                model::lemma_first_is(rest, p, i - from);
            }
            return Some(i);
        }
        i = i + 1;
    }
    proof {
        model::lemma_first_none(rest, p);
    }
    None
}

/// The parts of a text between the places where a character stands.
pub fn split(s: &str, d: char) -> (r: Vec<String>)
    ensures
        model::views(r@) == parts(s@, d),
{
    let cs = chars_of(s);
    let mut out: Vec<String> = Vec::new();
    let mut from: usize = 0;
    assert(s@.skip(0) =~= s@);
    assert(model::views(out@) + parts(s@, d) =~= parts(s@, d));
    loop
        invariant
            cs@ == s@,
            from <= cs.len(),
            model::views(out@) + parts(s@.skip(from as int), d) == parts(s@, d),
        decreases cs.len() - from,
    {
        let ghost rest = s@.skip(from as int);
        let ghost before = model::views(out@);
        match find_char(cs.as_slice(), from, d) {
            Some(i) => {
                let part = string_of(vstd::slice::slice_subrange(cs.as_slice(), from, i));
                assert(rest.take(i - from) =~= part@);
                assert(rest.skip(i - from + 1) =~= s@.skip(i + 1));
                out.push(part);
                from = i + 1;
                assert(model::views(out@) + parts(s@.skip(from as int), d) =~= before + (seq![
                    part@,
                ] + parts(s@.skip(from as int), d)));
            },
            None => {
                let part = string_of(vstd::slice::slice_subrange(cs.as_slice(), from, cs.len()));
                assert(rest =~= part@);
                out.push(part);
                assert(model::views(out@) =~= before + seq![part@]);
                return out;
            },
        }
    }
}

/// A text cut at the first place where a character stands: what is in front, and
/// what is behind, where it stands somewhere.
pub open spec fn cut_at(s: Seq<char>, d: char) -> (Seq<char>, Option<Seq<char>>) {
    match model::first(s, is_char(d)) {
        Some(i) => (s.take(i), Some(s.skip(i + 1))),
        None => (s, None),
    }
}

/// A text cut at the first place where a character stands.
pub fn cut(s: &str, d: char) -> (r: (String, Option<String>))
    ensures
        cut_at(s@, d) == (r.0@, model::view_opt(r.1)),
{
    let cs = chars_of(s);
    assert(cs@.skip(0) =~= s@);
    match find_char(cs.as_slice(), 0, d) {
        Some(i) => {
            assert(s@.take(i as int) =~= s@.subrange(0, i as int));
            assert(s@.skip(i + 1) =~= s@.subrange(i + 1, s@.len() as int));
            (
                string_of(vstd::slice::slice_subrange(cs.as_slice(), 0, i)),
                Some(string_of(vstd::slice::slice_subrange(cs.as_slice(), i + 1, cs.len()))),
            )
        },
        None => (s.to_string(), None),
    }
}

/// What is behind the front of a text, where it starts with that.
pub open spec fn behind_front(s: Seq<char>, front: Seq<char>) -> Option<Seq<char>> {
    if text::has_prefix(s, front) {
        Some(s.skip(front.len() as int))
    } else {
        None
    }
}

/// What is behind the front of a text, where it starts with that.
pub fn strip_front(s: &str, front: &str) -> (r: Option<String>)
    ensures
        model::view_opt(r) == behind_front(s@, front@),
{
    if text::starts_with(s, front) {
        let cs = chars_of(s);
        let fs = chars_of(front);
        assert(s@.skip(front@.len() as int) =~= s@.subrange(front@.len() as int, s@.len() as int));
        Some(string_of(vstd::slice::slice_subrange(cs.as_slice(), fs.len(), cs.len())))
    } else {
        None
    }
}

/// Whether a text ends with a character.
pub fn ends_with(s: &str, d: char) -> (r: bool)
    ensures
        r == (s@.len() > 0 && s@.last() == d),
{
    let cs = chars_of(s);
    cs.len() > 0 && cs[cs.len() - 1] == d
}

/// Whether a text is empty.
pub fn is_empty(s: &str) -> (r: bool)
    ensures
        r == (s@.len() == 0),
{
    chars_of(s).len() == 0
}

// ---------------------------------------------------------------------------
// What holds of words
// ---------------------------------------------------------------------------

/// A text without some characters at its front is what follows a run of them, and does
/// not start with one.
proof fn lemma_without_front(s: Seq<char>, p: spec_fn(char) -> bool) -> (n: int)
    ensures
        0 <= n <= s.len(),
        without_front(s, p) == s.skip(n),
        forall|i: int| 0 <= i < n ==> p(#[trigger] s[i]),
        n < s.len() ==> !p(s[n]),
    decreases s.len(),
{
    if s.len() > 0 && p(s[0]) {
        let rest = s.drop_first();
        let m = lemma_without_front(rest, p);
        assert(rest.skip(m) =~= s.skip(m + 1));
        assert forall|i: int| 0 <= i < m + 1 implies p(#[trigger] s[i]) by {
            if i > 0 {
                assert(s[i] == rest[i - 1]);
            }
        }
        m + 1
    } else {
        assert(s.skip(0) =~= s);
        0
    }
}

proof fn lemma_without_end(s: Seq<char>, p: spec_fn(char) -> bool) -> (n: int)
    ensures
        0 <= n <= s.len(),
        without_end(s, p) == s.take(n),
        forall|i: int| n <= i < s.len() ==> p(#[trigger] s[i]),
        n > 0 ==> !p(s[n - 1]),
    decreases s.len(),
{
    if s.len() > 0 && p(s.last()) {
        let rest = s.drop_last();
        let m = lemma_without_end(rest, p);
        assert(rest.take(m) =~= s.take(m));
        assert forall|i: int| m <= i < s.len() implies p(#[trigger] s[i]) by {
            if i < rest.len() {
                assert(s[i] == rest[i]);
            }
        }
        m
    } else {
        assert(s.take(s.len() as int) =~= s);
        s.len() as int
    }
}

/// A trimmed text is a run of the text with nothing but white space before and behind it,
/// and has none at its own ends.
pub proof fn trimming_takes_white_space_away(s: Seq<char>)
    ensures
        exists|i: int, j: int|
            0 <= i <= j <= s.len() && trimmed(s) == #[trigger] s.subrange(i, j) && (forall|k: int|
                (0 <= k < i || j <= k < s.len()) ==> text::white_space(#[trigger] s[k])),
        trimmed(s).len() > 0 ==> !text::white_space(trimmed(s)[0]) && !text::white_space(
            trimmed(s).last(),
        ),
{
    let i = lemma_without_front(s, is_space());
    let rest = s.skip(i);
    let n = lemma_without_end(rest, is_space());
    assert(trimmed(s) =~= s.subrange(i, i + n));
    assert forall|k: int| (0 <= k < i || i + n <= k < s.len()) implies text::white_space(
        #[trigger] s[k],
    ) by {
        if k < i {
            assert(is_space()(s[k]));
        } else {
            assert(rest[k - i] == s[k]);
            assert(is_space()(rest[k - i]));
        }
    }
    if n > 0 {
        assert(trimmed(s)[0] == s[i]);
        assert(trimmed(s).last() == rest[n - 1]);
        assert(!is_space()(rest[n - 1]));
        if i < s.len() {
            assert(!is_space()(s[i]));
        }
    }
}

/// A text with no white space at its ends is trimmed already, and spaces around it do not
/// matter.
pub proof fn trimmed_text_stays(s: Seq<char>)
    requires
        s.len() > 0,
        !text::white_space(s[0]),
        !text::white_space(s.last()),
    ensures
        trimmed(s) == s,
        text::white_space(' ') ==> trimmed(s + " "@) == s,
{
    reveal_strlit(" ");
    assert(!is_space()(s[0]));
    assert(!is_space()(s.last()));
    assert(without_front(s, is_space()) == s);
    let t = s + " "@;
    assert(t[0] == s[0]);
    assert(without_front(t, is_space()) == t);
    assert(t.drop_last() =~= s);
    assert(t.last() == ' ');
    if text::white_space(' ') {
        assert(is_space()(' '));
        assert(without_end(t, is_space()) == without_end(s, is_space()));
    }
}

/// The parts of a text between the places of a character hold none of it, and put together
/// with the character between them they are the text.
pub proof fn parts_make_up_the_text(s: Seq<char>, d: char)
    ensures
        parts(s, d).len() > 0,
        text::joined(parts(s, d), seq![d]) == s,
        forall|i: int| 0 <= i < parts(s, d).len() ==> !(#[trigger] parts(s, d)[i]).contains(d),
    decreases s.len(),
{
    model::lemma_first(s, is_char(d));
    match model::first(s, is_char(d)) {
        Some(i) => {
            let rest = s.skip(i + 1);
            parts_make_up_the_text(rest, d);
            let all = parts(s, d);
            let tail = parts(rest, d);
            lemma_joined_front(s.take(i), tail, seq![d]);
            assert(s[i] == d) by {
                assert(is_char(d)(s[i]));
            }
            assert(s.take(i) + seq![d] + rest =~= s);
            assert forall|k: int| 0 <= k < all.len() implies !(#[trigger] all[k]).contains(d) by {
                if k == 0 {
                    if s.take(i).contains(d) {
                        let j = choose|j: int| 0 <= j < i && s.take(i)[j] == d;
                        assert(is_char(d)(s[j]));
                    }
                } else {
                    assert(all[k] == tail[k - 1]);
                }
            }
        },
        None => {
            if s.contains(d) {
                let j = choose|j: int| 0 <= j < s.len() && s[j] == d;
                assert(is_char(d)(s[j]));
            }
        },
    }
}

proof fn lemma_joined_front(first: Seq<char>, rest: Seq<Seq<char>>, between: Seq<char>)
    requires
        rest.len() > 0,
    ensures
        text::joined(seq![first] + rest, between) == first + between + text::joined(rest, between),
    decreases rest.len(),
{
    reveal_with_fuel(text::joined, 3);
    let all = seq![first] + rest;
    assert(all.drop_last() =~= seq![first] + rest.drop_last());
    assert(all.last() == rest.last());
    if rest.len() > 1 {
        lemma_joined_front(first, rest.drop_last(), between);
        assert(text::joined(all, between) =~= first + between + text::joined(rest, between));
    } else {
        assert(all.drop_last() =~= seq![first]);
        assert(text::joined(all, between) =~= first + between + rest[0]);
    }
}

/// A line that starts and ends with something other than white space.
pub open spec fn is_plain_line(s: Seq<char>) -> bool {
    s.len() > 0 && !text::white_space(s[0]) && !text::white_space(s.last())
}

/// Lines put together with spaces between them are a plain line, where each is one.
pub proof fn lines_make_a_line(lines: Seq<Seq<char>>)
    requires
        lines.len() > 0,
        forall|i: int| 0 <= i < lines.len() ==> is_plain_line(#[trigger] lines[i]),
    ensures
        is_plain_line(text::joined(lines, " "@)),
        text::joined(lines, " "@).last() == lines.last().last(),
        text::joined(lines, " "@)[0] == lines[0][0],
    decreases lines.len(),
{
    assert(is_plain_line(lines[lines.len() - 1]));
    if lines.len() > 1 {
        let before = lines.drop_last();
        assert forall|i: int| 0 <= i < before.len() implies is_plain_line(#[trigger] before[i]) by {
            assert(before[i] == lines[i]);
        }
        lines_make_a_line(before);
        let all = text::joined(lines, " "@);
        assert(all[0] == text::joined(before, " "@)[0]);
        assert(all.last() == lines.last().last());
    }
}

/// A text without a character is not cut by it.
pub proof fn no_cut(s: Seq<char>, d: char)
    requires
        !s.contains(d),
    ensures
        cut_at(s, d) == (s, None::<Seq<char>>),
{
    let p = is_char(d);
    assert forall|i: int| 0 <= i < s.len() implies !p(#[trigger] s[i]) by {
        assert(s.contains(s[i]));
    }
    model::lemma_first_none(s, p);
}

/// A text is cut at the first place where a character stands.
pub proof fn first_cut(a: Seq<char>, b: Seq<char>, d: char)
    requires
        !a.contains(d),
    ensures
        cut_at(a + seq![d] + b, d) == (a, Some(b)),
{
    let p = is_char(d);
    let s = a + seq![d] + b;
    let n = a.len() as int;
    assert(p(s[n]));
    assert forall|i: int| 0 <= i < n implies !p(#[trigger] s[i]) by {
        assert(a.contains(a[i]));
        assert(s[i] == a[i]);
    }
    model::lemma_first_is(s, p, n);
    assert(s.take(n) =~= a);
    assert(s.skip(n + 1) =~= b);
}

} // verus!
