//! Text as sequences of characters: copying, comparing, trimming, searching and
//! splitting into lines.
use crate::list::copy_part;
use vstd::prelude::*;

verus! {

/// `String::push` appends one character.
pub assume_specification[ String::push ](s: &mut String, c: char)
    ensures
        final(s)@ == old(s)@.push(c),
;

/// The characters of a list of texts.
pub open spec fn texts(v: Seq<String>) -> Seq<Seq<char>> {
    v.map_values(|s: String| s@)
}

/// The characters of an optional text.
pub open spec fn opt_text(v: Option<String>) -> Option<Seq<char>> {
    match v {
        Some(s) => Some(s@),
        None => None,
    }
}

/// A copy of the characters of `s`.
pub fn chars_of(s: &str) -> (r: Vec<char>)
    ensures
        r@ == s@,
{
    let mut out: Vec<char> = Vec::new();
    for c in it: s.chars()
        invariant
            out@ == it.seq().take(it.index() as int),
            it.seq() == s@,
    {
        out.push(c);
    }
    out
}

/// The text made of the characters of `v`.
pub fn text_of(v: &Vec<char>) -> (r: String)
    ensures
        r@ == v@,
{
    let mut out: String = String::new();
    let mut i: usize = 0;
    while i < v.len()
        invariant
            i <= v.len(),
            out@ == v@.take(i as int),
        decreases v.len() - i,
    {
        out.push(v[i]);
        i += 1;
    }
    assert(v@.take(i as int) =~= v@);
    out
}

/// Whether two texts hold the same characters.
pub fn same_text(a: &str, b: &str) -> (r: bool)
    ensures
        r == (a@ == b@),
{
    let x: String = a.to_owned();
    let y: String = b.to_owned();
    x == y
}

/// A copy of an optional text.
pub fn clone_opt(a: &Option<String>) -> (r: Option<String>)
    ensures
        r == *a,
{
    match a {
        Some(x) => Some(x.clone()),
        None => None,
    }
}

/// Whether `c` has the Unicode property `White_Space`.
pub open spec fn is_white(c: char) -> bool {
    ||| '\u{9}' <= c <= '\u{d}'
    ||| c == ' '
    ||| c == '\u{85}'
    ||| c == '\u{a0}'
    ||| c == '\u{1680}'
    ||| '\u{2000}' <= c <= '\u{200a}'
    ||| c == '\u{2028}'
    ||| c == '\u{2029}'
    ||| c == '\u{202f}'
    ||| c == '\u{205f}'
    ||| c == '\u{3000}'
}

/// Whether `c` is white space.
pub fn is_white_char(c: char) -> (r: bool)
    ensures
        r == is_white(c),
{
    ('\u{9}' <= c && c <= '\u{d}') || c == ' ' || c == '\u{85}' || c == '\u{a0}' || c == '\u{1680}' || (
    '\u{2000}' <= c && c <= '\u{200a}') || c == '\u{2028}' || c == '\u{2029}' || c == '\u{202f}' || c
        == '\u{205f}' || c == '\u{3000}'
}

/// `s` without its leading white space.
pub open spec fn trimmed_start(s: Seq<char>) -> Seq<char>
    decreases s.len(),
{
    if s.len() > 0 && is_white(s[0]) {
        trimmed_start(s.skip(1))
    } else {
        s
    }
}

/// `s` without its trailing white space.
pub open spec fn trimmed_end(s: Seq<char>) -> Seq<char>
    decreases s.len(),
{
    if s.len() > 0 && is_white(s.last()) {
        trimmed_end(s.drop_last())
    } else {
        s
    }
}

/// `s` without leading and trailing white space.
pub open spec fn trimmed(s: Seq<char>) -> Seq<char> {
    trimmed_end(trimmed_start(s))
}

/// `s` without its trailing occurrences of `c`.
pub open spec fn without_trailing(s: Seq<char>, c: char) -> Seq<char>
    decreases s.len(),
{
    if s.len() > 0 && s.last() == c {
        without_trailing(s.drop_last(), c)
    } else {
        s
    }
}

/// `s` without its leading occurrences of `c`.
pub open spec fn without_leading(s: Seq<char>, c: char) -> Seq<char>
    decreases s.len(),
{
    if s.len() > 0 && s[0] == c {
        without_leading(s.skip(1), c)
    } else {
        s
    }
}

/// White space is what Unicode counts as such.
pub proof fn law_white_space(c: char)
    ensures
        is_white(c) <==> {
            let n = c as int;
            ||| 9 <= n <= 13
            ||| n == 32
            ||| n == 0x85
            ||| n == 0xa0
            ||| n == 0x1680
            ||| 0x2000 <= n <= 0x200a
            ||| n == 0x2028 || n == 0x2029 || n == 0x202f || n == 0x205f || n == 0x3000
        },
{
}

/// Trimming takes away white space at either end, all of it, and nothing else.
pub proof fn law_trimming_removes_the_ends(s: Seq<char>) -> (ends: (int, int))
    ensures
        0 <= ends.0 <= ends.1 <= s.len(),
        trimmed(s) == s.subrange(ends.0, ends.1),
        forall|i: int| 0 <= i < ends.0 ==> is_white(#[trigger] s[i]),
        forall|i: int| ends.1 <= i < s.len() ==> is_white(#[trigger] s[i]),
        ends.0 < ends.1 ==> !is_white(s[ends.0]) && !is_white(s[ends.1 - 1]),
{
    let a = lemma_trimmed_start(s);
    let t = s.skip(a);
    let b = lemma_trimmed_end(t);
    assert(t.take(b) =~= s.subrange(a, a + b));
    assert forall|i: int| a + b <= i < s.len() implies is_white(#[trigger] s[i]) by {
        assert(t[i - a] == s[i]);
    }
    if b > 0 {
        assert(t[b - 1] == s[a + b - 1]);
        assert(t[0] == s[a]);
    }
    (a, a + b)
}

proof fn lemma_trimmed_start(s: Seq<char>) -> (k: int)
    ensures
        0 <= k <= s.len(),
        trimmed_start(s) == s.skip(k),
        forall|i: int| 0 <= i < k ==> is_white(#[trigger] s[i]),
        k < s.len() ==> !is_white(s[k]),
    decreases s.len(),
{
    if s.len() > 0 && is_white(s[0]) {
        let t = s.skip(1);
        let k = lemma_trimmed_start(t);
        assert(t.skip(k) =~= s.skip(k + 1));
        assert forall|i: int| 0 <= i < k + 1 implies is_white(#[trigger] s[i]) by {
            if i > 0 {
                assert(s[i] == t[i - 1]);
            }
        }
        k + 1
    } else {
        assert(s.skip(0) =~= s);
        0
    }
}

proof fn lemma_trimmed_end(s: Seq<char>) -> (k: int)
    ensures
        0 <= k <= s.len(),
        trimmed_end(s) == s.take(k),
        forall|i: int| k <= i < s.len() ==> is_white(#[trigger] s[i]),
        k > 0 ==> !is_white(s[k - 1]),
    decreases s.len(),
{
    if s.len() > 0 && is_white(s.last()) {
        let t = s.drop_last();
        let k = lemma_trimmed_end(t);
        assert(t.take(k) =~= s.take(k));
        assert forall|i: int| k <= i < s.len() implies is_white(#[trigger] s[i]) by {
            if i < t.len() {
                assert(s[i] == t[i]);
            }
        }
        k
    } else {
        assert(s.take(s.len() as int) =~= s);
        s.len() as int
    }
}

/// Removing a character from an end takes away the occurrences there, all of
/// them, and nothing else.
pub proof fn law_removing_at_an_end(s: Seq<char>, c: char) -> (ends: (int, int))
    ensures
        0 <= ends.0 <= s.len(),
        without_leading(s, c) == s.skip(ends.0),
        forall|i: int| 0 <= i < ends.0 ==> #[trigger] s[i] == c,
        ends.0 < s.len() ==> s[ends.0] != c,
        0 <= ends.1 <= s.len(),
        without_trailing(s, c) == s.take(ends.1),
        forall|i: int| ends.1 <= i < s.len() ==> #[trigger] s[i] == c,
        ends.1 > 0 ==> s[ends.1 - 1] != c,
{
    (lemma_without_leading(s, c), lemma_without_trailing(s, c))
}

proof fn lemma_without_leading(s: Seq<char>, c: char) -> (k: int)
    ensures
        0 <= k <= s.len(),
        without_leading(s, c) == s.skip(k),
        forall|i: int| 0 <= i < k ==> #[trigger] s[i] == c,
        k < s.len() ==> s[k] != c,
    decreases s.len(),
{
    if s.len() > 0 && s[0] == c {
        let t = s.skip(1);
        let k = lemma_without_leading(t, c);
        assert(t.skip(k) =~= s.skip(k + 1));
        assert forall|i: int| 0 <= i < k + 1 implies #[trigger] s[i] == c by {
            if i > 0 {
                assert(s[i] == t[i - 1]);
            }
        }
        k + 1
    } else {
        assert(s.skip(0) =~= s);
        0
    }
}

/// What is left in front of the occurrences of a character at the end.
pub proof fn lemma_without_trailing(s: Seq<char>, c: char) -> (k: int)
    ensures
        0 <= k <= s.len(),
        without_trailing(s, c) == s.take(k),
        forall|i: int| k <= i < s.len() ==> #[trigger] s[i] == c,
        k > 0 ==> s[k - 1] != c,
    decreases s.len(),
{
    if s.len() > 0 && s.last() == c {
        let t = s.drop_last();
        let k = lemma_without_trailing(t, c);
        assert(t.take(k) =~= s.take(k));
        assert forall|i: int| k <= i < s.len() implies #[trigger] s[i] == c by {
            if i < t.len() {
                assert(s[i] == t[i]);
            }
        }
        k
    } else {
        assert(s.take(s.len() as int) =~= s);
        s.len() as int
    }
}

/// Removes leading and trailing white space.
pub fn trim_chars(v: &Vec<char>) -> (r: Vec<char>)
    ensures
        r@ == trimmed(v@),
{
    let mut i: usize = 0;
    proof {
        assert(v@.skip(0) =~= v@);
    }
    while i < v.len() && is_white_char(v[i])
        invariant
            i <= v.len(),
            trimmed_start(v@.skip(i as int)) == trimmed_start(v@),
        decreases v.len() - i,
    {
        proof {
            assert(v@.skip(i as int).skip(1) =~= v@.skip(i + 1));
        }
        i += 1;
    }
    let mut j: usize = v.len();
    proof {
        assert(v@.subrange(i as int, j as int) =~= v@.skip(i as int));
    }
    while i < j && is_white_char(v[j - 1])
        invariant
            i <= j <= v.len(),
            trimmed_end(v@.subrange(i as int, j as int)) == trimmed(v@),
        decreases j,
    {
        proof {
            assert(v@.subrange(i as int, j as int).drop_last() =~= v@.subrange(i as int, j - 1));
        }
        j -= 1;
    }
    copy_part(v, i, j)
}

/// Removes the trailing occurrences of `c`.
pub fn trim_end_char(v: &Vec<char>, c: char) -> (r: Vec<char>)
    ensures
        r@ == without_trailing(v@, c),
{
    let mut j: usize = v.len();
    proof {
        assert(v@.take(j as int) =~= v@);
    }
    while 0 < j && v[j - 1] == c
        invariant
            j <= v.len(),
            without_trailing(v@.take(j as int), c) == without_trailing(v@, c),
        decreases j,
    {
        proof {
            assert(v@.take(j as int).drop_last() =~= v@.take(j - 1));
        }
        j -= 1;
    }
    proof {
        assert(v@.take(j as int) =~= v@.subrange(0, j as int));
    }
    copy_part(v, 0, j)
}

/// Removes the leading occurrences of `c`.
pub fn trim_start_char(v: &Vec<char>, c: char) -> (r: Vec<char>)
    ensures
        r@ == without_leading(v@, c),
{
    let mut i: usize = 0;
    proof {
        assert(v@.skip(0) =~= v@);
    }
    while i < v.len() && v[i] == c
        invariant
            i <= v.len(),
            without_leading(v@.skip(i as int), c) == without_leading(v@, c),
        decreases v.len() - i,
    {
        proof {
            assert(v@.skip(i as int).skip(1) =~= v@.skip(i + 1));
        }
        i += 1;
    }
    proof {
        assert(v@.skip(i as int) =~= v@.subrange(i as int, v@.len() as int));
    }
    copy_part(v, i, v.len())
}

/// Whether `s` ends with `t`.
pub open spec fn ends_with(s: Seq<char>, t: Seq<char>) -> bool {
    s.len() >= t.len() && s.skip(s.len() - t.len()) == t
}

/// Whether `v` ends with `t`.
pub fn has_suffix(v: &Vec<char>, t: &str) -> (r: bool)
    ensures
        r == ends_with(v@, t@),
{
    let w: Vec<char> = chars_of(t);
    if v.len() < w.len() {
        return false;
    }
    let from: usize = v.len() - w.len();
    let mut i: usize = 0;
    while i < w.len()
        invariant
            i <= w.len(),
            from == v.len() - w.len(),
            w@ == t@,
            forall|k: int| 0 <= k < i ==> v@[from + k] == #[trigger] w@[k],
        decreases w.len() - i,
    {
        if v[from + i] != w[i] {
            assert(v@.skip(from as int)[i as int] != t@[i as int]);
            return false;
        }
        i += 1;
    }
    assert(v@.skip(from as int) =~= t@);
    true
}

/// The number of characters before the first `c`, or the length of `s` when
/// there is none.
pub open spec fn before(s: Seq<char>, c: char) -> int
    decreases s.len(),
{
    if s.len() == 0 || s[0] == c {
        0
    } else {
        1 + before(s.skip(1), c)
    }
}

/// `before` stops at the first occurrence.
pub proof fn lemma_before(s: Seq<char>, c: char)
    ensures
        0 <= before(s, c) <= s.len(),
        forall|i: int| 0 <= i < before(s, c) ==> #[trigger] s[i] != c,
        before(s, c) < s.len() ==> s[before(s, c)] == c,
    decreases s.len(),
{
    if s.len() > 0 && s[0] != c {
        lemma_before(s.skip(1), c);
        assert forall|i: int| 0 <= i < before(s, c) implies #[trigger] s[i] != c by {
            if i > 0 {
                assert(s[i] == s.skip(1)[i - 1]);
            }
        }
    }
}

/// A position before which there is no `c`, and which holds `c` or is the
/// end, is where `before` stops.
pub proof fn lemma_before_is(s: Seq<char>, c: char, k: int)
    requires
        0 <= k <= s.len(),
        forall|i: int| 0 <= i < k ==> #[trigger] s[i] != c,
        k < s.len() ==> s[k] == c,
    ensures
        before(s, c) == k,
    decreases s.len(),
{
    lemma_before(s, c);
    if k < before(s, c) {
        assert(s[k] != c);
    }
}

/// The position of the first `c` at or after `from`, or the length of `v`.
pub fn find_char(v: &Vec<char>, from: usize, c: char) -> (r: usize)
    requires
        from <= v.len(),
    ensures
        from <= r <= v.len(),
        r == from + before(v@.skip(from as int), c),
        forall|i: int| from <= i < r ==> #[trigger] v@[i] != c,
        r < v.len() ==> v@[r as int] == c,
{
    let mut i: usize = from;
    while i < v.len() && v[i] != c
        invariant
            from <= i <= v.len(),
            forall|k: int| from <= k < i ==> #[trigger] v@[k] != c,
        decreases v.len() - i,
    {
        i += 1;
    }
    proof {
        lemma_before_is(v@.skip(from as int), c, i - from);
    }
    i
}

/// The pieces of `s` between occurrences of `c`; there is always one.
pub open spec fn pieces(s: Seq<char>, c: char) -> Seq<Seq<char>>
    decreases s.len(),
{
    let k = before(s, c);
    proof {
        lemma_before(s, c);
    }
    if k >= s.len() {
        seq![s]
    } else {
        seq![s.take(k)] + pieces(s.skip(k + 1), c)
    }
}

/// The lines of `s`: each ends at a `\n`, which does not belong to it, nor
/// does a `\r` right before it. What follows the last `\n` is a line unless it
/// is empty.
pub open spec fn lines(s: Seq<char>) -> Seq<Seq<char>>
    decreases s.len(),
{
    let k = before(s, '\n');
    proof {
        lemma_before(s, '\n');
    }
    if s.len() == 0 {
        seq![]
    } else if k >= s.len() {
        seq![s]
    } else if k > 0 && s[k - 1] == '\r' {
        seq![s.take(k - 1)] + lines(s.skip(k + 1))
    } else {
        seq![s.take(k)] + lines(s.skip(k + 1))
    }
}

/// A separator separates: the pieces of two texts with it between them are the
/// pieces of the one and those of the other. A text without it is one piece.
pub proof fn law_pieces_of_joined_texts(a: Seq<char>, b: Seq<char>, c: char)
    ensures
        pieces(a.push(c) + b, c) == pieces(a, c) + pieces(b, c),
        (forall|i: int| 0 <= i < a.len() ==> #[trigger] a[i] != c) ==> pieces(a, c) == seq![a],
    decreases a.len(),
{
    let s = a.push(c) + b;
    let k = before(a, c);
    lemma_before(a, c);
    assert forall|i: int| 0 <= i < k implies #[trigger] s[i] != c by {
        assert(s[i] == a[i]);
    }
    assert(s[k] == c) by {
        if k < a.len() {
            assert(s[k] == a[k]);
        }
    }
    lemma_before_is(s, c, k);
    assert(s.take(k) =~= a.take(k));
    if k >= a.len() {
        assert(a.take(k) =~= a);
        assert(s.skip(k + 1) =~= b);
        assert(pieces(s, c) =~= pieces(a, c) + pieces(b, c));
    } else {
        let rest = a.skip(k + 1);
        law_pieces_of_joined_texts(rest, b, c);
        assert(s.skip(k + 1) =~= rest.push(c) + b);
        assert(pieces(s, c) =~= pieces(a, c) + pieces(b, c));
    }
}

/// A line ends at the first `\n`, without a `\r` right before it, and the lines
/// of the rest follow. A text without `\n` is one line, and an empty one none.
pub proof fn law_lines_end_at_newlines(a: Seq<char>, b: Seq<char>)
    requires
        forall|i: int| 0 <= i < a.len() ==> #[trigger] a[i] != '\n',
    ensures
        lines(a.push('\n') + b) == seq![
            if a.len() > 0 && a.last() == '\r' {
                a.drop_last()
            } else {
                a
            },
        ] + lines(b),
        a.len() > 0 ==> lines(a) == seq![a],
        a.len() == 0 ==> lines(a) == Seq::<Seq<char>>::empty(),
{
    let s = a.push('\n') + b;
    let k = a.len() as int;
    assert forall|i: int| 0 <= i < k implies #[trigger] s[i] != '\n' by {
        assert(s[i] == a[i]);
    }
    assert(s[k] == '\n');
    lemma_before_is(s, '\n', k);
    lemma_before_is(a, '\n', k);
    assert(s.skip(k + 1) =~= b);
    assert(s.take(k) =~= a);
    if k > 0 {
        assert(s[k - 1] == a.last());
        assert(s.take(k - 1) =~= a.drop_last());
    }
}

/// The count before a character ends at its first occurrence, or at the end.
pub proof fn law_first_occurrence(s: Seq<char>, c: char)
    ensures
        0 <= before(s, c) <= s.len(),
        forall|i: int| 0 <= i < before(s, c) ==> #[trigger] s[i] != c,
        before(s, c) < s.len() ==> s[before(s, c)] == c,
{
    lemma_before(s, c);
}

/// Texts are ordered by the first character in which they differ, and a text
/// comes before every longer one that begins with it; never the other way.
pub proof fn law_text_order(a: Seq<char>, b: Seq<char>, k: int)
    requires
        0 <= k <= a.len(),
        k <= b.len(),
        forall|i: int| 0 <= i < k ==> #[trigger] a[i] == b[i],
    ensures
        k < a.len() && k < b.len() && a[k] < b[k] ==> text_less(a, b) && !text_less(b, a),
        k == a.len() && k < b.len() ==> text_less(a, b) && !text_less(b, a),
        k == a.len() && k == b.len() ==> !text_less(a, b),
    decreases k,
{
    if k > 0 {
        assert(a[0] == b[0]);
        law_text_order(a.skip(1), b.skip(1), k - 1);
    }
}

/// Splits into pieces at each `c`.
pub fn split_chars(v: &Vec<char>, c: char) -> (r: Vec<Vec<char>>)
    ensures
        r@.map_values(|p: Vec<char>| p@) == pieces(v@, c),
{
    let mut out: Vec<Vec<char>> = Vec::new();
    let mut i: usize = 0;
    proof {
        assert(v@.skip(0) =~= v@);
        assert(out@.map_values(|p: Vec<char>| p@) + pieces(v@.skip(0), c) =~= pieces(v@, c));
    }
    loop
        invariant
            i <= v.len(),
            out@.map_values(|p: Vec<char>| p@) + pieces(v@.skip(i as int), c) == pieces(v@, c),
        decreases v.len() - i,
    {
        let e: usize = find_char(v, i, c);
        let piece: Vec<char> = copy_part(v, i, e);
        let ghost rest = v@.skip(i as int);
        let ghost before_push = out@;
        out.push(piece);
        proof {
            assert(out@.map_values(|p: Vec<char>| p@) =~= before_push.map_values(
                |p: Vec<char>| p@,
            ).push(piece@));
        }
        if e == v.len() {
            proof {
                assert(piece@ =~= rest);
                assert(out@.map_values(|p: Vec<char>| p@) =~= before_push.map_values(
                    |p: Vec<char>| p@,
                ) + pieces(rest, c));
            }
            return out;
        }
        proof {
            let k = before(rest, c);
            assert(piece@ =~= rest.take(k));
            assert(rest.skip(k + 1) =~= v@.skip(e + 1));
            assert(out@.map_values(|p: Vec<char>| p@) + pieces(v@.skip(e + 1), c)
                =~= before_push.map_values(|p: Vec<char>| p@) + pieces(rest, c));
        }
        i = e + 1;
    }
}

/// Splits into lines.
pub fn split_lines(v: &Vec<char>) -> (r: Vec<Vec<char>>)
    ensures
        r@.map_values(|p: Vec<char>| p@) == lines(v@),
{
    let mut out: Vec<Vec<char>> = Vec::new();
    let mut i: usize = 0;
    proof {
        assert(v@.skip(0) =~= v@);
        assert(out@.map_values(|p: Vec<char>| p@) + lines(v@.skip(0)) =~= lines(v@));
    }
    while i < v.len()
        invariant
            i <= v.len(),
            out@.map_values(|p: Vec<char>| p@) + lines(v@.skip(i as int)) == lines(v@),
        decreases v.len() - i,
    {
        let e: usize = find_char(v, i, '\n');
        let stop: usize = if e < v.len() && e > i && v[e - 1] == '\r' {
            e - 1
        } else {
            e
        };
        let piece: Vec<char> = copy_part(v, i, stop);
        let ghost rest = v@.skip(i as int);
        let ghost before_push = out@;
        out.push(piece);
        proof {
            let k = before(rest, '\n');
            assert(out@.map_values(|p: Vec<char>| p@) =~= before_push.map_values(
                |p: Vec<char>| p@,
            ).push(piece@));
            if e == v.len() {
                assert(piece@ =~= rest);
                assert(v@.skip(v@.len() as int) =~= Seq::<char>::empty());
            } else {
                assert(piece@ =~= rest.take(stop - i));
                assert(rest.skip(k + 1) =~= v@.skip(e + 1));
            }
            let next = if e == v.len() {
                e as int
            } else {
                e + 1
            };
            assert(out@.map_values(|p: Vec<char>| p@) + lines(v@.skip(next))
                =~= before_push.map_values(|p: Vec<char>| p@) + lines(rest));
        }
        i = if e == v.len() {
            e
        } else {
            e + 1
        };
    }
    proof {
        assert(v@.skip(i as int) =~= Seq::<char>::empty());
        assert(out@.map_values(|p: Vec<char>| p@) + lines(v@.skip(i as int)) =~= out@.map_values(
            |p: Vec<char>| p@,
        ));
    }
    out
}

/// Whether `a` comes before `b`, by the first character in which they differ.
pub open spec fn text_less(a: Seq<char>, b: Seq<char>) -> bool
    decreases a.len(),
{
    if b.len() == 0 {
        false
    } else if a.len() == 0 {
        true
    } else if a[0] != b[0] {
        a[0] < b[0]
    } else {
        text_less(a.skip(1), b.skip(1))
    }
}

/// No text comes before itself, and of two different texts one comes first.
pub proof fn lemma_text_less_total(a: Seq<char>, b: Seq<char>)
    ensures
        !text_less(a, a),
        a != b ==> text_less(a, b) || text_less(b, a),
    decreases a.len(),
{
    if a.len() > 0 {
        lemma_text_less_total(a.skip(1), a.skip(1));
        if b.len() > 0 && a[0] == b[0] {
            lemma_text_less_total(a.skip(1), b.skip(1));
            if a.skip(1) == b.skip(1) {
                assert(a =~= seq![a[0]] + a.skip(1));
                assert(b =~= seq![b[0]] + b.skip(1));
            }
        }
    } else if b.len() == 0 {
        assert(a =~= b);
    }
}

/// The order of texts is transitive.
pub proof fn lemma_text_less_trans(a: Seq<char>, b: Seq<char>, c: Seq<char>)
    requires
        text_less(a, b),
        text_less(b, c),
    ensures
        text_less(a, c),
    decreases a.len(),
{
    if a.len() > 0 && a[0] == b[0] && b[0] == c[0] {
        lemma_text_less_trans(a.skip(1), b.skip(1), c.skip(1));
    }
}

/// A text comes before another one where it has the smaller character at the
/// first place in which they differ.
pub proof fn lemma_text_less_at(a: Seq<char>, b: Seq<char>, k: int)
    requires
        0 <= k < a.len(),
        k < b.len(),
        forall|i: int| 0 <= i < k ==> #[trigger] a[i] == b[i],
        a[k] < b[k],
    ensures
        text_less(a, b),
    decreases k,
{
    if k > 0 {
        assert(a[0] == b[0]);
        lemma_text_less_at(a.skip(1), b.skip(1), k - 1);
    }
}

/// Whether `a` comes before `b`.
pub fn less_text(a: &str, b: &str) -> (r: bool)
    ensures
        r == text_less(a@, b@),
{
    let v: Vec<char> = chars_of(a);
    let w: Vec<char> = chars_of(b);
    let mut i: usize = 0;
    proof {
        assert(v@.skip(0) =~= v@);
        assert(w@.skip(0) =~= w@);
    }
    loop
        invariant
            i <= v.len(),
            i <= w.len(),
            text_less(v@.skip(i as int), w@.skip(i as int)) == text_less(a@, b@),
        decreases v.len() - i,
    {
        if i == w.len() {
            return false;
        }
        if i == v.len() {
            return true;
        }
        if v[i] != w[i] {
            return v[i] < w[i];
        }
        proof {
            assert(v@.skip(i as int).skip(1) =~= v@.skip(i + 1));
            assert(w@.skip(i as int).skip(1) =~= w@.skip(i + 1));
        }
        i += 1;
    }
}

} // verus!
