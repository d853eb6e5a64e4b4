//! Reading an arithmetic corpus: lines of the shape `a op b=c`.
use crate::list::copy_part;
use crate::number::parse_i64_chars;
use crate::number::parsed_int;
use crate::text::before;
use crate::text::chars_of;
use crate::text::find_char;
use crate::text::is_white;
use crate::text::law_lines_end_at_newlines;
use crate::text::lemma_before;
use crate::text::lemma_before_is;
use crate::text::lines;
use crate::text::split_lines;
use crate::text::trim_chars;
use crate::text::trimmed;
use crate::text::trimmed_end;
use crate::text::trimmed_start;
use vstd::prelude::*;
use vstd::string::*;
use vstd::utf8::*;

verus! {

/// The two operands and the operator of one line.
pub struct OperandPair {
    pub a: int,
    pub b: int,
    pub op: char,
}

/// Where the operator stands on a left-hand side: the first `+` or `-` behind
/// a leading sign, or the length when there is none.
pub open spec fn operator_at(lhs: Seq<char>) -> int {
    let start: int = if lhs.len() > 0 && lhs[0] == '-' {
        1
    } else {
        0
    };
    let plus = before(lhs.skip(start), '+');
    let minus = before(lhs.skip(start), '-');
    start + if plus <= minus {
        plus
    } else {
        minus
    }
}

/// What a line `a op b=c` says before its first `=`.
pub open spec fn operand_pair(line: Seq<char>) -> Option<OperandPair> {
    let lhs = line.take(before(line, '='));
    let at = operator_at(lhs);
    let a = parsed_int(lhs.take(at), i64::MIN as int, i64::MAX as int);
    let b = parsed_int(lhs.skip(at + 1), i64::MIN as int, i64::MAX as int);
    if at < lhs.len() && a is Some && b is Some {
        Some(OperandPair { a: a->0, b: b->0, op: lhs[at] })
    } else {
        None
    }
}

/// The operand pairs of the lines that hold one, in order.
pub open spec fn pairs_of(ls: Seq<Seq<char>>) -> Seq<OperandPair>
    decreases ls.len(),
{
    if ls.len() == 0 {
        seq![]
    } else {
        let rest = pairs_of(ls.drop_last());
        match operand_pair(trimmed(ls.last())) {
            Some(p) => rest.push(p),
            None => rest,
        }
    }
}

/// The operand pairs of a corpus, in order.
pub open spec fn corpus_pairs(corpus: Seq<char>) -> Seq<OperandPair> {
    pairs_of(lines(corpus))
}

/// Whether `lo..=hi` is the least range that holds every operand of `pairs`.
pub open spec fn is_operand_range(pairs: Seq<OperandPair>, lo: int, hi: int) -> bool {
    &&& forall|i: int|
        0 <= i < pairs.len() ==> lo <= (#[trigger] pairs[i]).a <= hi && lo <= pairs[i].b <= hi
    &&& exists|i: int|
        0 <= i < pairs.len() && ((#[trigger] pairs[i]).a == lo || pairs[i].b == lo)
    &&& exists|i: int|
        0 <= i < pairs.len() && ((#[trigger] pairs[i]).a == hi || pairs[i].b == hi)
}

/// Whether some pair has the operator `op`.
pub open spec fn has_operator(pairs: Seq<OperandPair>, op: char) -> bool {
    exists|i: int| 0 <= i < pairs.len() && (#[trigger] pairs[i]).op == op
}

/// What a line says: in front of its first `=`, or its end, stand a number, the
/// first `+` or `-` that is not a sign at the start, and a number. Without such
/// an operator, or where one of the two is no number, the line says nothing.
pub proof fn law_operand_pair_is_read_at_the_operator(line: Seq<char>, eq: int, at: int)
    requires
        0 <= at <= eq <= line.len(),
        forall|i: int| 0 <= i < eq ==> #[trigger] line[i] != '=',
        eq < line.len() ==> line[eq] == '=',
        forall|i: int|
            0 <= i < at ==> #[trigger] line[i] != '+' && (line[i] != '-' || i == 0),
        at < eq ==> line[at] == '+' || (line[at] == '-' && at > 0),
    ensures
        operand_pair(line) == {
            let a = parsed_int(line.take(at), i64::MIN as int, i64::MAX as int);
            let b = parsed_int(line.subrange(at + 1, eq), i64::MIN as int, i64::MAX as int);
            if at < eq && a is Some && b is Some {
                Some(OperandPair { a: a->0, b: b->0, op: line[at] })
            } else {
                None
            }
        },
{
    lemma_before_is(line, '=', eq);
    let lhs = line.take(eq);
    let start: int = if lhs.len() > 0 && lhs[0] == '-' {
        1
    } else {
        0
    };
    let t = lhs.skip(start);
    if at < start {
        // Only a sign at the start could stand there.
        assert(at == 0 && line[0] == '-');
        assert(at < eq);
    }
    let k = at - start;
    assert forall|i: int| 0 <= i < k implies #[trigger] t[i] != '+' && t[i] != '-' by {
        assert(t[i] == line[i + start]);
        if i + start == 0 {
            assert(line[0] == lhs[0]);
        }
    }
    lemma_before(t, '+');
    lemma_before(t, '-');
    if at < eq {
        assert(t[k] == line[at]);
        if line[at] == '+' {
            lemma_before_is(t, '+', k);
            if before(t, '-') < k {
                assert(t[before(t, '-')] != '-');
            }
        } else {
            lemma_before_is(t, '-', k);
            if before(t, '+') < k {
                assert(t[before(t, '+')] != '+');
            }
        }
        assert(operator_at(lhs) == at);
        assert(lhs.take(at) =~= line.take(at));
        assert(lhs.skip(at + 1) =~= line.subrange(at + 1, eq));
    } else {
        lemma_before_is(t, '+', k);
        lemma_before_is(t, '-', k);
    }
}

/// The pairs of a corpus are those of its lines, one after the other: a line
/// that says something adds what it says, white space around it aside, and any
/// other line adds nothing.
pub proof fn law_pairs_come_line_by_line(line: Seq<char>, rest: Seq<char>)
    requires
        forall|i: int| 0 <= i < line.len() ==> #[trigger] line[i] != '\n',
    ensures
        corpus_pairs(line.push('\n') + rest) == (match operand_pair(trimmed(line)) {
            Some(p) => seq![p],
            None => seq![],
        }) + corpus_pairs(rest),
        corpus_pairs(line) == (match operand_pair(trimmed(line)) {
            Some(p) => seq![p],
            None => Seq::<OperandPair>::empty(),
        }),
{
    law_lines_end_at_newlines(line, rest);
    let shown = if line.len() > 0 && line.last() == '\r' {
        line.drop_last()
    } else {
        line
    };
    lemma_trimmed_line_end(line);
    lemma_pairs_add(seq![shown], lines(rest));
    lemma_pairs_one(shown);
    lemma_pairs_one(line);
    if line.len() == 0 {
        assert(trimmed(line) =~= line);
        assert(before(line, '=') == 0);
        assert(operand_pair(line) is None);
        assert(corpus_pairs(line) =~= Seq::<OperandPair>::empty());
    }
}

proof fn lemma_pairs_one(line: Seq<char>)
    ensures
        pairs_of(seq![line]) == (match operand_pair(trimmed(line)) {
            Some(p) => seq![p],
            None => Seq::<OperandPair>::empty(),
        }),
{
    let one = seq![line];
    assert(one.drop_last() =~= Seq::<Seq<char>>::empty());
    assert(one.last() == line);
    assert(pairs_of(one.drop_last()) =~= Seq::<OperandPair>::empty());
    if let Some(p) = operand_pair(trimmed(line)) {
        assert(Seq::<OperandPair>::empty().push(p) =~= seq![p]);
    }
}

proof fn lemma_pairs_add(a: Seq<Seq<char>>, b: Seq<Seq<char>>)
    ensures
        pairs_of(a + b) == pairs_of(a) + pairs_of(b),
    decreases b.len(),
{
    if b.len() == 0 {
        assert(a + b =~= a);
        assert(pairs_of(a) + pairs_of(b) =~= pairs_of(a));
    } else {
        assert((a + b).drop_last() =~= a + b.drop_last());
        lemma_pairs_add(a, b.drop_last());
        assert(pairs_of(a + b) =~= pairs_of(a) + pairs_of(b));
    }
}

/// A `\r` at the end of a line is white space like any other.
proof fn lemma_trimmed_line_end(line: Seq<char>)
    ensures
        line.len() > 0 && line.last() == '\r' ==> trimmed(line.drop_last()) == trimmed(line),
    decreases line.len(),
{
    if line.len() > 0 && line.last() == '\r' {
        let t = line.drop_last();
        if line.len() > 1 && is_white(line[0]) {
            let u = line.skip(1);
            assert(u.drop_last() =~= t.skip(1));
            lemma_trimmed_line_end(u);
            assert(trimmed_start(t) == trimmed_start(t.skip(1)));
        } else if line.len() == 1 {
            assert(line.skip(1) =~= t);
            assert(trimmed_start(line) == trimmed_start(line.skip(1)));
        } else {
            assert(trimmed_start(line) == line);
            assert(trimmed_start(t) == t);
            assert(trimmed_end(line) == trimmed_end(t));
        }
    }
}

/// The range of operands holds every operand of every pair, and no smaller
/// range does: both its ends are operands.
pub proof fn law_operand_range_is_tight(pairs: Seq<OperandPair>, lo: int, hi: int)
    requires
        is_operand_range(pairs, lo, hi),
    ensures
        lo <= hi,
        forall|i: int|
            0 <= i < pairs.len() ==> lo <= (#[trigger] pairs[i]).a <= hi && lo <= pairs[i].b <= hi,
        exists|i: int|
            0 <= i < pairs.len() && ((#[trigger] pairs[i]).a == lo || pairs[i].b == lo),
        exists|i: int|
            0 <= i < pairs.len() && ((#[trigger] pairs[i]).a == hi || pairs[i].b == hi),
{
}

/// A character belongs to an answer if the one before it does, or is an `=`,
/// and is not the newline that ends the line. The first one does not.
pub proof fn law_answers_run_from_equals_to_newline(s: Seq<char>, i: int)
    requires
        0 <= i < s.len(),
    ensures
        !in_answer(s, 0),
        in_answer(s, i + 1) <==> s[i] != '\n' && (s[i] == '=' || in_answer(s, i)),
{
    if s[i] != '\n' && in_answer(s, i) {
        let j = choose|j: int|
            0 <= j < i && #[trigger] s[j] == '=' && forall|k: int| j <= k < i ==> #[trigger] s[k]
                != '\n';
        assert(s[j] == '=');
    }
    if in_answer(s, i + 1) {
        let j = choose|j: int|
            0 <= j < i + 1 && #[trigger] s[j] == '=' && forall|k: int|
                j <= k < i + 1 ==> #[trigger] s[k] != '\n';
        assert(s[i] != '\n');
        if j < i {
            assert(s[j] == '=');
        }
    }
}

/// A line starts at the beginning and behind each newline, and nowhere else.
pub proof fn law_lines_start_behind_newlines(s: Seq<char>, x: int)
    ensures
        is_fact_boundary(s, 0),
        0 < x <= s.len() ==> (is_fact_boundary(s, x) <==> s[x - 1] == '\n'),
        x < 0 || x > s.len() ==> !is_fact_boundary(s, x),
{
}

proof fn lemma_pairs_step(ls: Seq<Seq<char>>, n: int)
    requires
        0 <= n < ls.len(),
    ensures
        pairs_of(ls.take(n + 1)) == match operand_pair(trimmed(ls[n])) {
            Some(p) => pairs_of(ls.take(n)).push(p),
            None => pairs_of(ls.take(n)),
        },
{
    assert(ls.take(n + 1).drop_last() =~= ls.take(n));
}

fn parse_pair_chars(line: &Vec<char>) -> (r: Option<(i64, i64, char)>)
    ensures
        match r {
            Some((a, b, op)) => operand_pair(line@) == Some(
                OperandPair { a: a as int, b: b as int, op },
            ) && (op == '+' || op == '-'),
            None => operand_pair(line@) is None,
        },
{
    let eq: usize = find_char(line, 0, '=');
    let lhs: Vec<char> = copy_part(line, 0, eq);
    proof {
        assert(line@.skip(0) =~= line@);
        assert(lhs@ =~= line@.take(before(line@, '=')));
    }
    let start: usize = if lhs.len() > 0 && lhs[0] == '-' {
        1
    } else {
        0
    };
    let plus: usize = find_char(&lhs, start, '+');
    let minus: usize = find_char(&lhs, start, '-');
    let at: usize = if plus <= minus {
        plus
    } else {
        minus
    };
    assert(at == operator_at(lhs@));
    if at >= lhs.len() {
        return None;
    }
    let a_text: Vec<char> = copy_part(&lhs, 0, at);
    let b_text: Vec<char> = copy_part(&lhs, at + 1, lhs.len());
    proof {
        assert(a_text@ =~= lhs@.take(at as int));
        assert(b_text@ =~= lhs@.skip(at + 1));
    }
    match (parse_i64_chars(&a_text), parse_i64_chars(&b_text)) {
        (Some(a), Some(b)) => Some((a, b, lhs[at])),
        _ => None,
    }
}

/// Reads one line `a op b=c` into its operands and its operator. A leading
/// `-` is the sign of `a`.
pub fn parse_operand_pair(line: &str) -> (r: Option<(i64, i64, char)>)
    ensures
        match r {
            Some((a, b, op)) => operand_pair(line@) == Some(
                OperandPair { a: a as int, b: b as int, op },
            ) && (op == '+' || op == '-'),
            None => operand_pair(line@) is None,
        },
{
    let v: Vec<char> = chars_of(line);
    parse_pair_chars(&v)
}

/// The least range that holds every operand of the corpus, or `None` where no
/// line of it reads as `a op b=c`.
pub fn operand_range(corpus: &str) -> (r: Option<(i64, i64)>)
    ensures
        match r {
            Some((lo, hi)) => is_operand_range(corpus_pairs(corpus@), lo as int, hi as int),
            None => corpus_pairs(corpus@).len() == 0,
        },
{
    let v: Vec<char> = chars_of(corpus);
    let ls: Vec<Vec<char>> = split_lines(&v);
    let ghost views = ls@.map_values(|p: Vec<char>| p@);
    let mut range: Option<(i64, i64)> = None;
    let mut i: usize = 0;
    while i < ls.len()
        invariant
            i <= ls.len(),
            views == ls@.map_values(|p: Vec<char>| p@),
            match range {
                Some((lo, hi)) => is_operand_range(
                    pairs_of(views.take(i as int)),
                    lo as int,
                    hi as int,
                ),
                None => pairs_of(views.take(i as int)).len() == 0,
            },
        decreases ls.len() - i,
    {
        let line: Vec<char> = trim_chars(&ls[i]);
        let ghost old_pairs = pairs_of(views.take(i as int));
        proof {
            assert(views[i as int] == ls@[i as int]@);
            lemma_pairs_step(views, i as int);
        }
        if let Some((a, b, op)) = parse_pair_chars(&line) {
            let small: i64 = if a <= b {
                a
            } else {
                b
            };
            let large: i64 = if a <= b {
                b
            } else {
                a
            };
            let ghost pairs = pairs_of(views.take(i + 1));
            let ghost n = old_pairs.len() as int;
            assert(pairs[n] == OperandPair { a: a as int, b: b as int, op });
            match range {
                Some((lo, hi)) => {
                    let lo2: i64 = if small < lo {
                        small
                    } else {
                        lo
                    };
                    let hi2: i64 = if large > hi {
                        large
                    } else {
                        hi
                    };
                    proof {
                        let p = choose|k: int|
                            0 <= k < old_pairs.len() && ((#[trigger] old_pairs[k]).a == lo
                                || old_pairs[k].b == lo);
                        let q = choose|k: int|
                            0 <= k < old_pairs.len() && ((#[trigger] old_pairs[k]).a == hi
                                || old_pairs[k].b == hi);
                        assert(pairs[p] == old_pairs[p]);
                        assert(pairs[q] == old_pairs[q]);
                        assert forall|k: int| 0 <= k < pairs.len() implies lo2 <= (
                        #[trigger] pairs[k]).a <= hi2 && lo2 <= pairs[k].b <= hi2 by {
                            if k < n {
                                assert(pairs[k] == old_pairs[k]);
                            }
                        }
                    }
                    range = Some((lo2, hi2));
                },
                None => {
                    range = Some((small, large));
                },
            }
        }
        i += 1;
    }
    assert(views.take(i as int) =~= views);
    range
}

/// The operators that occur in the corpus: `+`, `-` or `+,-`, or `None` where
/// no line of it reads as `a op b=c`.
pub fn operators_present(corpus: &str) -> (r: Option<String>)
    ensures
        ({
            let pairs = corpus_pairs(corpus@);
            let plus = has_operator(pairs, '+');
            let minus = has_operator(pairs, '-');
            match r {
                Some(t) => t@ == if plus && minus {
                    "+,-"@
                } else if plus {
                    "+"@
                } else {
                    "-"@
                } && (plus || minus),
                None => pairs.len() == 0,
            }
        }),
{
    let v: Vec<char> = chars_of(corpus);
    let ls: Vec<Vec<char>> = split_lines(&v);
    let ghost views = ls@.map_values(|p: Vec<char>| p@);
    let mut plus: bool = false;
    let mut minus: bool = false;
    let mut i: usize = 0;
    while i < ls.len()
        invariant
            i <= ls.len(),
            views == ls@.map_values(|p: Vec<char>| p@),
            plus == has_operator(pairs_of(views.take(i as int)), '+'),
            minus == has_operator(pairs_of(views.take(i as int)), '-'),
            plus || minus || pairs_of(views.take(i as int)).len() == 0,
        decreases ls.len() - i,
    {
        let line: Vec<char> = trim_chars(&ls[i]);
        let ghost old_pairs = pairs_of(views.take(i as int));
        let ghost pairs = pairs_of(views.take(i + 1));
        proof {
            assert(views[i as int] == ls@[i as int]@);
            lemma_pairs_step(views, i as int);
        }
        if let Some((_a, _b, op)) = parse_pair_chars(&line) {
            proof {
                let n = old_pairs.len() as int;
                assert(pairs[n].op == op);
                assert(forall|k: int| 0 <= k < n ==> #[trigger] pairs[k] == old_pairs[k]);
                assert forall|c: char| has_operator(old_pairs, c) implies has_operator(
                    pairs,
                    c,
                ) by {
                    let k = choose|k: int|
                        0 <= k < old_pairs.len() && (#[trigger] old_pairs[k]).op == c;
                    assert(pairs[k].op == c);
                }
            }
            if op == '+' {
                plus = true;
            } else {
                minus = true;
            }
        }
        i += 1;
    }
    assert(views.take(i as int) =~= views);
    if plus && minus {
        Some("+,-".to_owned())
    } else if plus {
        Some("+".to_owned())
    } else if minus {
        Some("-".to_owned())
    } else {
        None
    }
}

/// Whether the character at `i` belongs to an answer: an `=` stands before it
/// on its line. The `\n` that ends a line belongs to it.
pub open spec fn in_answer(s: Seq<char>, i: int) -> bool {
    exists|j: int|
        0 <= j < i && #[trigger] s[j] == '=' && forall|k: int| j <= k < i ==> #[trigger] s[k] != '\n'
}

/// Marks each character of the corpus that belongs to an answer.
pub fn compute_answer_mask(corpus: &str) -> (mask: Vec<bool>)
    ensures
        mask@.len() == corpus@.len(),
        forall|i: int| 0 <= i < mask@.len() ==> #[trigger] mask@[i] == in_answer(corpus@, i),
{
    let v: Vec<char> = chars_of(corpus);
    let mut mask: Vec<bool> = Vec::new();
    let mut answer: bool = false;
    let mut i: usize = 0;
    while i < v.len()
        invariant
            i <= v.len(),
            mask@.len() == i,
            forall|k: int| 0 <= k < i ==> #[trigger] mask@[k] == in_answer(v@, k),
            answer == in_answer(v@, i as int),
        decreases v.len() - i,
    {
        mask.push(answer);
        let c: char = v[i];
        proof {
            if c == '\n' {
                assert(!in_answer(v@, i + 1));
            } else if c == '=' {
                assert(v@[i as int] == '=');
                assert(in_answer(v@, i + 1));
            } else if answer {
                let j = choose|j: int|
                    0 <= j < i && #[trigger] v@[j] == '=' && forall|k: int|
                        j <= k < i ==> #[trigger] v@[k] != '\n';
                assert(v@[j] == '=');
                assert(in_answer(v@, i + 1));
            } else if in_answer(v@, i + 1) {
                let j = choose|j: int|
                    0 <= j < i + 1 && #[trigger] v@[j] == '=' && forall|k: int|
                        j <= k < i + 1 ==> #[trigger] v@[k] != '\n';
                assert(v@[j] == '=' && j < i);
                assert(in_answer(v@, i as int));
            }
        }
        if c == '\n' {
            answer = false;
        } else if c == '=' {
            answer = true;
        }
        i += 1;
    }
    mask
}

/// Whether a line starts at offset `x`: the start of the text, or right behind
/// a `\n`.
pub open spec fn is_fact_boundary(s: Seq<char>, x: int) -> bool {
    x == 0 || (0 < x <= s.len() && s[x - 1] == '\n')
}

/// The offsets at which a line starts, in ascending order. The last one is
/// the length of the corpus where the corpus ends in `\n`.
pub fn compute_fact_boundaries(corpus: &str) -> (r: Vec<usize>)
    ensures
        forall|i: int, j: int| 0 <= i < j < r@.len() ==> #[trigger] r@[i] < #[trigger] r@[j],
        forall|i: int|
            0 <= i < r@.len() ==> is_fact_boundary(corpus@, #[trigger] r@[i] as int),
        forall|x: int|
            #[trigger] is_fact_boundary(corpus@, x) ==> exists|i: int|
                0 <= i < r@.len() && #[trigger] r@[i] == x,
{
    let v: Vec<char> = chars_of(corpus);
    let mut out: Vec<usize> = Vec::new();
    out.push(0);
    proof {
        assert(out@[0] == 0);
    }
    let mut i: usize = 0;
    while i < v.len()
        invariant
            i <= v.len(),
            out@.len() > 0,
            forall|a: int, b: int|
                0 <= a < b < out@.len() ==> #[trigger] out@[a] < #[trigger] out@[b],
            forall|a: int|
                0 <= a < out@.len() ==> is_fact_boundary(v@, #[trigger] out@[a] as int)
                    && out@[a] <= i,
            forall|x: int|
                #[trigger] is_fact_boundary(v@, x) && x <= i ==> exists|a: int|
                    0 <= a < out@.len() && #[trigger] out@[a] == x,
        decreases v.len() - i,
    {
        let c: char = v[i];
        let ghost old_out = out@;
        i += 1;
        if c == '\n' {
            out.push(i);
            proof {
                assert(out@[old_out.len() as int] == i);
                assert forall|x: int| #[trigger] is_fact_boundary(v@, x) && x <= i implies exists|
                    a: int,
                |
                    0 <= a < out@.len() && #[trigger] out@[a] == x by {
                    if x < i {
                        let a = choose|a: int| 0 <= a < old_out.len() && #[trigger] old_out[a] == x;
                        assert(out@[a] == x);
                    }
                }
            }
        }
    }
    out
}

/// The longest sample of a corpus that is shown, in bytes.
pub const SAMPLE_BYTES: usize = 1000;

/// Whether `end` is the last position at or below `limit` at which a
/// character of the text `bytes` starts or the text ends.
pub open spec fn is_sample_end(bytes: Seq<u8>, limit: int, end: int) -> bool {
    &&& 0 <= end <= limit
    &&& is_char_boundary(bytes, end)
    &&& forall|k: int| end < k <= limit ==> !#[trigger] is_char_boundary(bytes, k)
}

/// The start of the corpus that is shown: as many whole characters as fit into
/// `SAMPLE_BYTES` bytes.
pub fn corpus_sample(text: &str) -> (r: String)
    ensures
        is_sample_end(
            text.spec_bytes(),
            if text.spec_bytes().len() < SAMPLE_BYTES {
                text.spec_bytes().len() as int
            } else {
                SAMPLE_BYTES as int
            },
            encode_utf8(r@).len() as int,
        ),
        r@.len() <= text@.len(),
        r@ == text@.take(r@.len() as int),
        encode_utf8(r@).len() <= 1000,
        text.spec_bytes().len() <= 1000 ==> encode_utf8(r@).len() == text.spec_bytes().len(),
        text.spec_bytes().len() > 1000 ==> forall|k: int|
            encode_utf8(r@).len() < k <= 1000 ==> !#[trigger] is_char_boundary(
                text.spec_bytes(),
                k,
            ),
{
    broadcast use group_utf8_lib;

    let ghost bytes = text.spec_bytes();
    let limit: usize = if text.as_bytes().len() < SAMPLE_BYTES {
        text.as_bytes().len()
    } else {
        SAMPLE_BYTES
    };
    let mut end: usize = limit;
    while !text.is_char_boundary(end)
        invariant
            bytes == text.spec_bytes(),
            valid_utf8(bytes),
            is_char_boundary(bytes, 0),
            0 <= end <= limit <= bytes.len(),
            forall|k: int| end < k <= limit ==> !#[trigger] is_char_boundary(bytes, k),
        decreases end,
    {
        end -= 1;
    }
    let (first, _rest) = text.split_at(end);
    proof {
        assert(bytes.subrange(0, end as int) =~= first.spec_bytes());
        assert(decode_utf8(bytes) =~= decode_utf8(first.spec_bytes()) + decode_utf8(
            bytes.subrange(end as int, bytes.len() as int),
        ));
        assert(text@ =~= first@ + decode_utf8(bytes.subrange(end as int, bytes.len() as int)));
        assert(first@ =~= text@.take(first@.len() as int));
    }
    first.to_owned()
}

} // verus!
