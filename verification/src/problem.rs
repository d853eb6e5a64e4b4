//! Arithmetic problems: how they are drawn, written and judged.
use crate::corpus::operand_pair;
use crate::corpus::OperandPair;
use crate::error::fails_with;
use crate::error::ErrorView;
use crate::error::SmolError;
use crate::error::SmolResult;
use crate::number::decimal;
use crate::number::digits_value;
use crate::number::is_digit;
use crate::number::lemma_decimal;
use crate::number::law_next_digit_counts_tenfold;
use crate::number::law_number_is_sign_and_digits;
use crate::number::law_one_digit_denotes_itself;
use crate::number::law_sign_before_digits;
use crate::number::law_signed_decimal_parses_back;
use crate::number::parse_i64_chars;
use crate::number::parsed_int;
use crate::number::push_signed;
use crate::number::signed_decimal;
use crate::rng::draw_below;
use crate::rng::draw_between;
use crate::rng::drawn_below;
use crate::rng::drawn_between;
use crate::rng::rng_state;
use crate::text::before;
use crate::text::chars_of;
use crate::text::is_white;
use crate::text::law_pieces_of_joined_texts;
use crate::text::lemma_before;
use crate::text::lemma_before_is;
use crate::text::lemma_without_trailing;
use crate::text::pieces;
use crate::text::split_chars;
use crate::text::text_of;
use crate::text::trim_chars;
use crate::text::trim_end_char;
use crate::text::trimmed;
use crate::text::trimmed_end;
use crate::text::trimmed_start;
use crate::text::without_trailing;
use rand::rngs::StdRng;
use vstd::prelude::*;
use vstd::string::*;

verus! {

/// One problem `a op b`.
#[derive(Clone, Copy)]
pub struct Problem {
    pub a: i64,
    pub b: i64,
    pub op: char,
}

impl Problem {
    /// What the problem comes to: the sum for `+`, otherwise the difference.
    pub open spec fn answer(&self) -> int {
        if self.op == '+' {
            self.a + self.b
        } else {
            self.a - self.b
        }
    }

    /// Whether the answer is an `i64`.
    pub open spec fn fits(&self) -> bool {
        i64::MIN <= self.answer() <= i64::MAX
    }

    /// Whether the operands lie in `min..=max` and the operator is one of `ops`.
    pub open spec fn drawn_from(&self, min: int, max: int, ops: Seq<char>) -> bool {
        &&& min <= self.a <= max
        &&& min <= self.b <= max
        &&& ops.contains(self.op)
    }

    /// The text `a op b=` that a model is to complete.
    pub open spec fn prompt_text(&self) -> Seq<char> {
        signed_decimal(self.a as int).push(self.op) + signed_decimal(self.b as int).push('=')
    }

    /// The line `a op b=c` with the right `c`.
    pub open spec fn fact_text(&self) -> Seq<char> {
        self.prompt_text() + signed_decimal(self.answer()).push('\n')
    }

    /// What the problem comes to.
    pub fn true_answer(&self) -> (r: i64)
        requires
            self.fits(),
        ensures
            r == self.answer(),
            self.op == '+' ==> r - self.b == self.a,
            self.op != '+' ==> r + self.b == self.a,
    {
        if self.op == '+' {
            self.a + self.b
        } else {
            self.a - self.b
        }
    }

    /// The text `a op b=` that a model is to complete.
    pub fn prompt(&self) -> (r: String)
        ensures
            r@ == self.prompt_text(),
    {
        let mut s: String = String::new();
        push_signed(&mut s, self.a);
        s.push(self.op);
        push_signed(&mut s, self.b);
        s.push('=');
        assert(s@ =~= self.prompt_text());
        s
    }

    /// The line `a op b=c` with the right `c`.
    pub fn fact_line(&self) -> (r: String)
        requires
            self.fits(),
        ensures
            r@ == self.fact_text(),
    {
        let mut s: String = self.prompt();
        push_signed(&mut s, self.true_answer());
        s.push('\n');
        assert(s@ =~= self.fact_text());
        s
    }
}

/// Taking the second operand away from a sum leaves the first one, and adding it
/// to a difference does.
pub proof fn law_answer_is_undone(p: Problem)
    ensures
        p.op == '+' ==> p.answer() - p.b == p.a,
        p.op != '+' ==> p.answer() + p.b == p.a,
        p.fits() <==> i64::MIN <= p.answer() <= i64::MAX,
{
}

/// A prompt is the first operand, the operator, the second operand and `=`, and
/// the right line goes on with the answer and a newline. Each number there is
/// a clean answer for itself.
pub proof fn law_prompt_holds_the_problem(p: Problem) -> (k: int)
    ensures
        0 < k < p.prompt_text().len() - 2,
        p.prompt_text()[k] == p.op,
        p.prompt_text().last() == '=',
        clean_answer(p.prompt_text().take(k), p.a as int),
        clean_answer(p.prompt_text().subrange(k + 1, p.prompt_text().len() - 1), p.b as int),
        p.fact_text().len() > p.prompt_text().len() + 1,
        p.fact_text().take(p.prompt_text().len() as int) == p.prompt_text(),
        p.fits() ==> clean_answer(
            p.fact_text().skip(p.prompt_text().len() as int),
            p.answer(),
        ),
        p.fact_text().last() == '\n',
        forall|i: int|
            0 <= i < p.fact_text().len() - 1 ==> #[trigger] p.fact_text()[i] != '\n' || (i == k
                && p.op == '\n'),
{
    let ta = signed_decimal(p.a as int);
    let tb = signed_decimal(p.b as int);
    let tc = signed_decimal(p.answer());
    let t = p.prompt_text();
    let k = ta.len() as int;
    lemma_signed_chars(p.a as int);
    lemma_signed_chars(p.b as int);
    lemma_signed_chars(p.answer());
    assert(t.take(k) =~= ta);
    assert(t.subrange(k + 1, t.len() - 1) =~= tb);
    law_right_answer_is_clean(p.a);
    law_right_answer_is_clean(p.b);
    let f = p.fact_text();
    assert(f.take(t.len() as int) =~= t);
    assert(f.skip(t.len() as int) =~= tc.push('\n'));
    if p.fits() {
        law_right_answer_is_clean(p.answer() as i64);
    }
    assert forall|i: int| 0 <= i < f.len() - 1 implies #[trigger] f[i] != '\n' || (i == k && p.op
        == '\n') by {
        if i < k {
            assert(f[i] == ta[i]);
        } else if k < i < t.len() - 1 {
            assert(f[i] == tb[i - k - 1]);
        } else if i >= t.len() {
            assert(f[i] == tc[i - t.len()]);
        }
    }
    k
}

/// Where the answers of a range fit, so does that of every problem with
/// operands in it; where they do not, some problem of the range has one that
/// does not.
pub proof fn law_answers_fit_means_each_fits(min: i64, max: i64, ops: Seq<char>) -> (bad: Problem)
    requires
        min <= max,
    ensures
        answers_fit(min as int, max as int, ops) ==> forall|p: Problem|
            #![trigger p.drawn_from(min as int, max as int, ops)]
            p.drawn_from(min as int, max as int, ops) ==> i64::MIN <= p.answer() <= i64::MAX,
        !answers_fit(min as int, max as int, ops) ==> bad.drawn_from(min as int, max as int, ops)
            && !(i64::MIN <= bad.answer() <= i64::MAX),
        forall|p: Problem|
            #![trigger p.drawn_from(min as int, max as int, ops)]
            p.drawn_from(min as int, max as int, ops) <==> min <= p.a <= max && min <= p.b <= max
                && (exists|i: int| 0 <= i < ops.len() && #[trigger] ops[i] == p.op),
{
    if answers_fit(min as int, max as int, ops) {
        assert forall|p: Problem|
            #![trigger p.drawn_from(min as int, max as int, ops)]
            p.drawn_from(min as int, max as int, ops) implies i64::MIN <= p.answer()
            <= i64::MAX by {
            let i = choose|i: int| 0 <= i < ops.len() && ops[i] == p.op;
            assert(ops[i] == p.op);
        }
        arbitrary()
    } else {
        let i = choose|i: int|
            0 <= i < ops.len() && !(if #[trigger] ops[i] == '+' {
                i64::MIN <= 2 * min && 2 * max <= i64::MAX
            } else {
                max - min <= i64::MAX
            });
        let op = ops[i];
        assert(ops.contains(op));
        let p = if op != '+' {
            Problem { a: max, b: min, op }
        } else if 2 * min < i64::MIN {
            Problem { a: min, b: min, op }
        } else {
            Problem { a: max, b: max, op }
        };
        p
    }
}

/// Whether every problem with operands in `min..=max` and an operator of `ops`
/// has an answer that fits.
pub open spec fn answers_fit(min: int, max: int, ops: Seq<char>) -> bool {
    forall|i: int|
        0 <= i < ops.len() ==> if #[trigger] ops[i] == '+' {
            i64::MIN <= 2 * min && 2 * max <= i64::MAX
        } else {
            max - min <= i64::MAX
        }
}

/// Whether every problem with operands in `min..=max` and an operator of `ops`
/// has an answer that fits.
pub fn operands_fit(min: i64, max: i64, ops: &Vec<char>) -> (r: bool)
    ensures
        r == answers_fit(min as int, max as int, ops@),
{
    let sums: bool = (i64::MIN as i128) <= 2 * (min as i128) && 2 * (max as i128) <= i64::MAX as i128;
    let differences: bool = max as i128 - min as i128 <= i64::MAX as i128;
    let mut i: usize = 0;
    while i < ops.len()
        invariant
            i <= ops.len(),
            sums == (i64::MIN <= 2 * min && 2 * max <= i64::MAX),
            differences == (max - min <= i64::MAX),
            forall|k: int|
                0 <= k < i ==> if #[trigger] ops@[k] == '+' {
                    sums
                } else {
                    differences
                },
        decreases ops.len() - i,
    {
        let ok: bool = if ops[i] == '+' {
            sums
        } else {
            differences
        };
        if !ok {
            assert(!(if ops@[i as int] == '+' {
                sums
            } else {
                differences
            }));
            return false;
        }
        i += 1;
    }
    true
}

/// The problem that a generator in state `state` draws, and the state after it.
pub open spec fn drawn_problem(state: Seq<u32>, min: i64, max: i64, ops: Seq<char>) -> (
    Problem,
    Seq<u32>,
) {
    let a = drawn_between(state, min, max);
    let b = drawn_between(a.1, min, max);
    let k = drawn_below(b.1, ops.len() as usize);
    (Problem { a: a.0, b: b.0, op: ops[k.0 as int] }, k.1)
}

/// Draws a problem: two operands from `min..=max`, then an operator of `ops`.
pub fn draw_problem(rng: &mut StdRng, min: i64, max: i64, ops: &Vec<char>) -> (p: Problem)
    requires
        min <= max,
        ops@.len() > 0,
    ensures
        (p, rng_state(*final(rng))) == drawn_problem(rng_state(*old(rng)), min, max, ops@),
        p.drawn_from(min as int, max as int, ops@),
        answers_fit(min as int, max as int, ops@) ==> p.fits(),
{
    let a: i64 = draw_between(rng, min, max);
    let b: i64 = draw_between(rng, min, max);
    let k: usize = draw_below(rng, ops.len());
    assert(ops@[k as int] == ops[k as int]);
    Problem { a, b, op: ops[k] }
}

/// The message for a list entry that is not an operator.
pub open spec fn bad_op_message(entry: Seq<char>) -> Seq<char> {
    "ops entry `"@ + entry + "` invalid; only `+` and `-` supported"@
}

/// The position of the first entry that is not an operator, or the number of
/// entries.
pub open spec fn first_bad_entry(entries: Seq<Seq<char>>) -> int
    decreases entries.len(),
{
    if entries.len() == 0 || (trimmed(entries[0]) != seq!['+'] && trimmed(entries[0]) != seq![
        '-',
    ]) {
        0
    } else {
        1 + first_bad_entry(entries.skip(1))
    }
}

proof fn lemma_first_bad(entries: Seq<Seq<char>>, k: int)
    requires
        0 <= k <= entries.len(),
        forall|i: int|
            0 <= i < k ==> (#[trigger] trimmed(entries[i]) == seq!['+'] || trimmed(entries[i])
                == seq!['-']),
        k < entries.len() ==> trimmed(entries[k]) != seq!['+'] && trimmed(entries[k]) != seq!['-'],
    ensures
        first_bad_entry(entries) == k,
    decreases entries.len(),
{
    if k > 0 {
        assert(trimmed(entries[0]) == seq!['+'] || trimmed(entries[0]) == seq!['-']);
        let rest = entries.skip(1);
        assert forall|i: int| 0 <= i < k - 1 implies (#[trigger] trimmed(rest[i]) == seq!['+']
            || trimmed(rest[i]) == seq!['-']) by {
            assert(rest[i] == entries[i + 1]);
        }
        if k < entries.len() {
            assert(rest[k - 1] == entries[k]);
        }
        lemma_first_bad(rest, k - 1);
    }
}

/// What an operator list, separated by commas, says.
pub open spec fn parsed_ops(ops: Seq<char>) -> Result<Seq<char>, Seq<char>> {
    let entries = pieces(ops, ',');
    let bad = first_bad_entry(entries);
    if bad < entries.len() {
        Err(bad_op_message(trimmed(entries[bad])))
    } else {
        Ok(entries.map_values(|e: Seq<char>| trimmed(e)[0]))
    }
}

/// Reads an operator list such as `+` or `+,-`. White space around an entry is
/// ignored; an entry that is not an operator is an argument error that names it.
pub fn parse_ops(ops: &str) -> (r: SmolResult<Vec<char>>)
    ensures
        match parsed_ops(ops@) {
            Ok(l) => r matches Ok(v) && v@ == l,
            Err(m) => fails_with(r, ErrorView::InvalidArgument(m)),
        },
        r matches Ok(v) ==> v@.len() > 0 && forall|i: int|
            0 <= i < v@.len() ==> (#[trigger] v@[i] == '+' || v@[i] == '-'),
{
    let v: Vec<char> = chars_of(ops);
    let entries: Vec<Vec<char>> = split_chars(&v, ',');
    let ghost views = entries@.map_values(|p: Vec<char>| p@);
    let mut out: Vec<char> = Vec::new();
    let mut i: usize = 0;
    while i < entries.len()
        invariant
            i <= entries.len(),
            views == entries@.map_values(|p: Vec<char>| p@),
            views == pieces(ops@, ','),
            out@.len() == i,
            forall|k: int|
                0 <= k < i ==> (#[trigger] trimmed(views[k]) == seq!['+'] || trimmed(views[k])
                    == seq!['-']),
            forall|k: int| 0 <= k < i ==> #[trigger] out@[k] == trimmed(views[k])[0],
            forall|k: int| 0 <= k < i ==> (#[trigger] out@[k] == '+' || out@[k] == '-'),
        decreases entries.len() - i,
    {
        let entry: Vec<char> = trim_chars(&entries[i]);
        assert(views[i as int] == entries@[i as int]@);
        if entry.len() == 1 && (entry[0] == '+' || entry[0] == '-') {
            assert(entry@ =~= seq![entry@[0]]);
            out.push(entry[0]);
        } else {
            proof {
                assert(entry@ != seq!['+']) by {
                    assert(seq!['+'][0] == '+' && seq!['+'].len() == 1);
                }
                assert(entry@ != seq!['-']) by {
                    assert(seq!['-'][0] == '-' && seq!['-'].len() == 1);
                }
                lemma_first_bad(views, i as int);
            }
            let mut m: String = "ops entry `".to_owned();
            let t: String = text_of(&entry);
            m.append(t.as_str());
            m.append("` invalid; only `+` and `-` supported");
            return Err(SmolError::InvalidArgument(m));
        }
        i += 1;
    }
    proof {
        lemma_first_bad(views, i as int);
        assert(out@ =~= views.map_values(|e: Seq<char>| trimmed(e)[0]));
        lemma_pieces_nonempty(ops@, ',');
    }
    Ok(out)
}

proof fn lemma_first_bad_bound(entries: Seq<Seq<char>>)
    ensures
        0 <= first_bad_entry(entries) <= entries.len(),
        forall|i: int|
            0 <= i < first_bad_entry(entries) ==> (#[trigger] trimmed(entries[i]) == seq!['+']
                || trimmed(entries[i]) == seq!['-']),
    decreases entries.len(),
{
    if entries.len() > 0 {
        let rest = entries.skip(1);
        lemma_first_bad_bound(rest);
        assert forall|i: int| 0 <= i < first_bad_entry(entries) implies (#[trigger] trimmed(
            entries[i],
        ) == seq!['+'] || trimmed(entries[i]) == seq!['-']) by {
            if i > 0 {
                assert(rest[i - 1] == entries[i]);
                assert(trimmed(rest[i - 1]) == seq!['+'] || trimmed(rest[i - 1]) == seq!['-']);
            }
        }
    }
}

proof fn lemma_trimmed_chars(s: Seq<char>)
    ensures
        forall|i: int| 0 <= i < trimmed(s).len() ==> s.contains(#[trigger] trimmed(s)[i]),
{
    lemma_trimmed_start_chars(s);
    let t = trimmed_start(s);
    lemma_trimmed_end_chars(t);
    assert forall|i: int| 0 <= i < trimmed(s).len() implies s.contains(#[trigger] trimmed(s)[i]) by {
        let k = choose|k: int| 0 <= k < t.len() && t[k] == trimmed(s)[i];
        assert(s.contains(t[k]));
    }
}

proof fn lemma_trimmed_start_chars(s: Seq<char>)
    ensures
        forall|i: int| 0 <= i < trimmed_start(s).len() ==> s.contains(#[trigger] trimmed_start(s)[i]),
    decreases s.len(),
{
    if s.len() > 0 && is_white(s[0]) {
        let r = s.skip(1);
        lemma_trimmed_start_chars(r);
        assert forall|i: int| 0 <= i < trimmed_start(s).len() implies s.contains(
            #[trigger] trimmed_start(s)[i],
        ) by {
            let k = choose|k: int| 0 <= k < r.len() && r[k] == trimmed_start(r)[i];
            assert(s[k + 1] == trimmed_start(s)[i]);
        }
    }
}

proof fn lemma_trimmed_end_chars(s: Seq<char>)
    ensures
        forall|i: int| 0 <= i < trimmed_end(s).len() ==> s.contains(#[trigger] trimmed_end(s)[i]),
    decreases s.len(),
{
    if s.len() > 0 && is_white(s.last()) {
        let r = s.drop_last();
        lemma_trimmed_end_chars(r);
        assert forall|i: int| 0 <= i < trimmed_end(s).len() implies s.contains(
            #[trigger] trimmed_end(s)[i],
        ) by {
            let k = choose|k: int| 0 <= k < r.len() && r[k] == trimmed_end(r)[i];
            assert(s[k] == trimmed_end(s)[i]);
        }
    }
}

proof fn lemma_piece_chars(s: Seq<char>, c: char)
    ensures
        forall|i: int, j: int|
            0 <= i < pieces(s, c).len() && 0 <= j < pieces(s, c)[i].len() ==> s.contains(
                #[trigger] pieces(s, c)[i][j],
            ),
    decreases s.len(),
{
    lemma_before(s, c);
    let k = before(s, c);
    if k < s.len() {
        let rest = s.skip(k + 1);
        lemma_piece_chars(rest, c);
        let p = pieces(s, c);
        assert forall|i: int, j: int| 0 <= i < p.len() && 0 <= j < p[i].len() implies s.contains(
            #[trigger] p[i][j],
        ) by {
            if i == 0 {
                assert(p[0][j] == s[j]);
            } else {
                assert(p[i] == pieces(rest, c)[i - 1]);
                assert(rest.contains(pieces(rest, c)[i - 1][j]));
                let m = choose|m: int| 0 <= m < rest.len() && rest[m] == p[i][j];
                assert(s[m + k + 1] == p[i][j]);
            }
        }
    }
}

/// An operator list is read entry by entry: lists with a comma between them are
/// read one after the other, the first entry that is no operator is named, and an
/// entry is an operator with white space around it.
pub proof fn law_operator_lists_join(a: Seq<char>, b: Seq<char>)
    requires
        forall|i: int| 0 <= i < a.len() ==> #[trigger] a[i] != ',',
    ensures
        trimmed(a) == seq!['+'] ==> parsed_ops(a) == Ok::<Seq<char>, Seq<char>>(seq!['+']),
        trimmed(a) == seq!['-'] ==> parsed_ops(a) == Ok::<Seq<char>, Seq<char>>(seq!['-']),
        trimmed(a) != seq!['+'] && trimmed(a) != seq!['-'] ==> parsed_ops(a) == Err::<
            Seq<char>,
            Seq<char>,
        >("ops entry `"@ + trimmed(a) + "` invalid; only `+` and `-` supported"@),
        parsed_ops(a.push(',') + b) == match (parsed_ops(a), parsed_ops(b)) {
            (Err(m), _) => Err(m),
            (Ok(_), Err(m)) => Err(m),
            (Ok(x), Ok(y)) => Ok(x + y),
        },
{
    law_pieces_of_joined_texts(a, b, ',');
    let p = pieces(a, ',');
    let q = pieces(b, ',');
    let all = p + q;
    assert(p =~= seq![a]);
    assert(all.skip(1) =~= q);
    assert(p.skip(1) =~= Seq::<Seq<char>>::empty());
    assert(first_bad_entry(Seq::empty()) == 0);
    lemma_first_bad_bound(q);
    let f = |e: Seq<char>| trimmed(e)[0];
    assert(p.map_values(f) =~= seq![f(a)]);
    assert(all.map_values(f) =~= p.map_values(f) + q.map_values(f));
    assert(all[0] == a && p[0] == a);
    assert(seq!['+'][0] == '+' && seq!['-'][0] == '-');
    reveal_with_fuel(first_bad_entry, 2);
    if trimmed(a) == seq!['+'] || trimmed(a) == seq!['-'] {
        assert(first_bad_entry(p) == 1);
        assert(first_bad_entry(all) == 1 + first_bad_entry(q));
        if first_bad_entry(q) < q.len() {
            assert(all[1 + first_bad_entry(q)] == q[first_bad_entry(q)]);
        }
    }
}

/// An operator list holds only `+` and `-`, at least one, and only such as
/// stand in the text that it was read from.
pub proof fn law_operators_are_those_of_the_text(text: Seq<char>, ops: Seq<char>)
    requires
        parsed_ops(text) == Ok::<Seq<char>, Seq<char>>(ops),
    ensures
        ops.len() > 0,
        forall|i: int| 0 <= i < ops.len() ==> (#[trigger] ops[i] == '+' || ops[i] == '-'),
        forall|i: int| 0 <= i < ops.len() ==> text.contains(#[trigger] ops[i]),
{
    let entries = pieces(text, ',');
    lemma_first_bad_bound(entries);
    lemma_pieces_nonempty(text, ',');
    lemma_piece_chars(text, ',');
    assert forall|i: int| 0 <= i < ops.len() implies (#[trigger] ops[i] == '+' || ops[i] == '-')
        && text.contains(ops[i]) by {
        let t = trimmed(entries[i]);
        assert(t == seq!['+'] || t == seq!['-']);
        assert(t.len() == 1 && ops[i] == t[0]);
        lemma_trimmed_chars(entries[i]);
        assert(entries[i].contains(t[0]));
        let k = choose|k: int| 0 <= k < entries[i].len() && entries[i][k] == t[0];
        assert(text.contains(pieces(text, ',')[i][k]));
    }
}

proof fn lemma_pieces_nonempty(s: Seq<char>, c: char)
    ensures
        pieces(s, c).len() > 0,
{
}

/// The number of digits at the start of `s`.
pub open spec fn digit_run(s: Seq<char>) -> int
    decreases s.len(),
{
    if s.len() == 0 || !is_digit(s[0]) {
        0
    } else {
        1 + digit_run(s.skip(1))
    }
}

proof fn lemma_digit_run_is(s: Seq<char>, k: int)
    requires
        0 <= k <= s.len(),
        forall|i: int| 0 <= i < k ==> is_digit(#[trigger] s[i]),
        k < s.len() ==> !is_digit(s[k]),
    ensures
        digit_run(s) == k,
    decreases s.len(),
{
    if k > 0 {
        assert(is_digit(s[0]));
        let t = s.skip(1);
        assert forall|i: int| 0 <= i < k - 1 implies is_digit(#[trigger] t[i]) by {
            assert(t[i] == s[i + 1]);
        }
        lemma_digit_run_is(t, k - 1);
    }
}

/// The integer at the start of a text: an optional `-` and the digits behind
/// it, when there is a digit and their value fits.
pub open spec fn leading_int(s: Seq<char>) -> Option<int> {
    let neg = s.len() > 0 && s[0] == '-';
    let body = if neg {
        s.skip(1)
    } else {
        s
    };
    let run = body.take(digit_run(body));
    let v = digits_value(run) as int;
    if run.len() == 0 || v > i64::MAX {
        None
    } else if neg {
        Some(-v)
    } else {
        Some(v)
    }
}

/// Reads the integer at the start of a text. What follows its last digit is
/// ignored; a value beyond `i64` gives `None`.
pub fn parse_leading_int(s: &str) -> (r: Option<i64>)
    ensures
        match r {
            Some(n) => leading_int(s@) == Some(n as int),
            None => leading_int(s@) is None,
        },
{
    let v: Vec<char> = chars_of(s);
    let neg: bool = v.len() > 0 && v[0] == '-';
    let from: usize = if neg {
        1
    } else {
        0
    };
    let ghost body = v@.skip(from as int);
    proof {
        assert(v@.skip(0) =~= v@);
    }
    let mut val: i64 = 0;
    let mut over: bool = false;
    let mut i: usize = from;
    proof {
        assert(body.take(0) =~= Seq::<char>::empty());
    }
    while i < v.len() && '0' <= v[i] && v[i] <= '9'
        invariant
            from <= i <= v.len(),
            body == v@.skip(from as int),
            forall|k: int| 0 <= k < i - from ==> is_digit(#[trigger] body[k]),
            val >= 0,
            !over ==> val == digits_value(body.take(i - from)),
            over ==> digits_value(body.take(i - from)) > i64::MAX,
        decreases v.len() - i,
    {
        let d: i64 = ((v[i] as u32) - 48) as i64;
        proof {
            assert(v@[i as int] == body[i - from]);
            assert(body.take(i - from + 1).drop_last() =~= body.take(i - from));
        }
        if !over {
            match val.checked_mul(10) {
                Some(m) => match m.checked_add(d) {
                    Some(n) => {
                        val = n;
                    },
                    None => {
                        over = true;
                    },
                },
                None => {
                    over = true;
                },
            }
        }
        i += 1;
    }
    proof {
        if i < v.len() {
            assert(v@[i as int] == body[i - from]);
        }
        lemma_digit_run_is(body, i - from);
    }
    if i == from || over {
        None
    } else if neg {
        Some(-val)
    } else {
        Some(val)
    }
}

/// Whether a completion is an answer and nothing else: without its trailing
/// newlines it reads as `answer`.
pub open spec fn clean_answer(completion: Seq<char>, answer: int) -> bool {
    parsed_int(without_trailing(completion, '\n'), i64::MIN as int, i64::MAX as int) == Some(answer)
}

/// Whether `completion` is `answer` and nothing else. A text that goes on
/// behind the right digits does not count.
pub fn is_clean_answer(completion: &str, answer: i64) -> (r: bool)
    ensures
        r == clean_answer(completion@, answer as int),
{
    let v: Vec<char> = chars_of(completion);
    let t: Vec<char> = trim_end_char(&v, '\n');
    match parse_i64_chars(&t) {
        Some(n) => n == answer,
        None => false,
    }
}

/// A clean answer is an optional sign and digits up to newlines, and nothing
/// else: a text with anything behind its digits but newlines is none. It is an
/// answer to one number alone.
pub proof fn law_clean_answer_is_nothing_else(completion: Seq<char>, answer: int) -> (n: int)
    requires
        clean_answer(completion, answer),
    ensures
        0 < n <= completion.len(),
        forall|i: int| n <= i < completion.len() ==> #[trigger] completion[i] == '\n',
        forall|i: int|
            0 <= i < n ==> ('0' <= #[trigger] completion[i] <= '9' || (i == 0 && (completion[0]
                == '-' || completion[0] == '+'))),
        '0' <= completion[n - 1] <= '9',
        i64::MIN <= answer <= i64::MAX,
        forall|other: int| #[trigger] clean_answer(completion, other) ==> other == answer,
{
    let n = lemma_without_trailing(completion, '\n');
    let t = completion.take(n);
    law_number_is_sign_and_digits(t, i64::MIN as int, i64::MAX as int);
    assert forall|i: int| 0 <= i < n implies ('0' <= #[trigger] completion[i] <= '9' || (i == 0 && (
    completion[0] == '-' || completion[0] == '+'))) by {
        assert(completion[i] == t[i]);
        assert(completion[0] == t[0]);
    }
    assert(completion[n - 1] == t[n - 1]);
    n
}

/// One digit is a clean answer for its place among the digits; one more digit
/// makes ten times the number and the digit; a sign before the digits and
/// newlines behind them do what they say.
pub proof fn law_clean_answer_denotes_its_digits(s: Seq<char>, c: char, answer: int)
    requires
        forall|i: int| 0 <= i < s.len() ==> '0' <= #[trigger] s[i] <= '9',
        '0' <= c <= '9',
    ensures
        clean_answer(seq![c], c as int - '0' as int),
        s.len() > 0 && clean_answer(s, answer) && 10 * answer + (c as int - '0' as int)
            <= i64::MAX ==> clean_answer(s.push(c), 10 * answer + (c as int - '0' as int)),
        s.len() > 0 && clean_answer(s, answer) ==> clean_answer(seq!['-'] + s, -answer),
        s.len() > 0 && clean_answer(s, answer) ==> clean_answer(seq!['+'] + s, answer),
{
    let lo = i64::MIN as int;
    let hi = i64::MAX as int;
    lemma_no_newline(seq![c]);
    law_one_digit_denotes_itself(c, lo, hi);
    if s.len() > 0 {
        lemma_no_newline(s);
        lemma_no_newline(s.push(c));
        law_next_digit_counts_tenfold(s, c, lo, hi);
        let m = seq!['-'] + s;
        let p = seq!['+'] + s;
        assert(m.last() == s.last() && p.last() == s.last());
        assert('0' <= s[s.len() - 1] <= '9');
        law_sign_before_digits(s, lo, hi);
        law_sign_before_digits(s, -hi, -lo);
        if clean_answer(s, answer) {
            assert(parsed_int(s, lo, hi) == Some(answer));
            lemma_wider_range(s, answer);
        }
    }
}

/// Newlines behind a completion change nothing.
pub proof fn law_newlines_do_not_matter(completion: Seq<char>, answer: int)
    ensures
        clean_answer(completion.push('\n'), answer) <==> clean_answer(completion, answer),
{
    assert(completion.push('\n').drop_last() =~= completion);
}

proof fn lemma_no_newline(s: Seq<char>)
    requires
        s.len() > 0,
        '0' <= s.last() <= '9',
    ensures
        without_trailing(s, '\n') == s,
{
}

/// A number without a sign that fits is also read where the least one is not.
proof fn lemma_wider_range(s: Seq<char>, v: int)
    requires
        s.len() > 0,
        forall|i: int| 0 <= i < s.len() ==> '0' <= #[trigger] s[i] <= '9',
        parsed_int(s, i64::MIN as int, i64::MAX as int) == Some(v),
    ensures
        parsed_int(s, -(i64::MAX as int), -(i64::MIN as int)) == Some(v),
{
    assert('0' <= s[0] <= '9');
}

/// The leading integer is decided by the digits at the start: what stands
/// behind them, unless it begins with a digit, does not matter. Without a digit
/// there is none.
pub proof fn law_leading_int_ignores_the_rest(digits: Seq<char>, rest: Seq<char>)
    requires
        forall|i: int| 0 <= i < digits.len() ==> '0' <= #[trigger] digits[i] <= '9',
        rest.len() > 0 ==> !('0' <= rest[0] <= '9'),
    ensures
        digits.len() > 0 ==> leading_int(digits + rest) == leading_int(digits),
        digits.len() > 0 ==> leading_int(seq!['-'] + digits + rest) == match leading_int(digits) {
            Some(v) => Some(-v),
            None => None,
        },
        rest.len() == 0 || rest[0] != '-' ==> leading_int(rest) is None,
        leading_int(seq!['-'] + rest) is None,
{
    let s = digits + rest;
    let k = digits.len() as int;
    assert forall|i: int| 0 <= i < k implies is_digit(#[trigger] s[i]) by {
        assert(s[i] == digits[i]);
    }
    if k < s.len() {
        assert(s[k] == rest[0]);
    }
    lemma_digit_run_is(s, k);
    assert forall|i: int| 0 <= i < k implies is_digit(#[trigger] digits[i]) by {}
    lemma_digit_run_is(digits, k);
    assert(s.take(k) =~= digits);
    assert(digits.take(k) =~= digits);
    let m = seq!['-'] + digits + rest;
    assert(m.skip(1) =~= s);
    lemma_digit_run_is(rest, 0);
    assert(rest.take(0).len() == 0);
    let n = seq!['-'] + rest;
    assert(n.skip(1) =~= rest);
    if k > 0 {
        assert(s[0] == digits[0]);
        assert('0' <= digits[0] <= '9');
    }
}

/// The leading integer of digits is the number that they denote: one digit its
/// place among the digits, one more digit ten times the number and the digit,
/// and none where that is too large for an `i64`.
pub proof fn law_leading_int_denotes_its_digits(digits: Seq<char>, c: char)
    requires
        forall|i: int| 0 <= i < digits.len() ==> '0' <= #[trigger] digits[i] <= '9',
        '0' <= c <= '9',
    ensures
        leading_int(seq![c]) == Some(c as int - '0' as int),
        digits.len() > 0 ==> leading_int(digits.push(c)) == match leading_int(digits) {
            None => None,
            Some(v) => if 10 * v + (c as int - '0' as int) <= i64::MAX {
                Some(10 * v + (c as int - '0' as int))
            } else {
                None
            },
        },
{
    reveal_with_fuel(digits_value, 2);
    let one = seq![c];
    assert(one[0] == c && one.len() == 1);
    lemma_digit_run_is(one, 1);
    assert(one.take(1) =~= one);
    assert(one.drop_last() =~= Seq::<char>::empty());
    if digits.len() > 0 {
        let t = digits.push(c);
        assert forall|i: int| 0 <= i < digits.len() implies is_digit(#[trigger] digits[i]) by {}
        assert forall|i: int| 0 <= i < t.len() implies is_digit(#[trigger] t[i]) by {
            if i < digits.len() {
                assert(t[i] == digits[i]);
            }
        }
        lemma_digit_run_is(digits, digits.len() as int);
        lemma_digit_run_is(t, t.len() as int);
        assert(digits.take(digits.len() as int) =~= digits);
        assert(t.take(t.len() as int) =~= t);
        assert(t.drop_last() =~= digits);
        assert(t[0] == digits[0]);
    }
}

/// The bucket of an answer counts its digits: below ten, below a hundred, below
/// a thousand, and the rest, whatever its sign.
pub proof fn law_bucket_counts_digits(answer: int)
    ensures
        digit_bucket(answer) == 0 <==> -10 < answer < 10,
        digit_bucket(answer) == 1 <==> 10 <= answer < 100 || -100 < answer <= -10,
        digit_bucket(answer) == 2 <==> 100 <= answer < 1000 || -1000 < answer <= -100,
        digit_bucket(answer) == 3 <==> answer >= 1000 || answer <= -1000,
        digit_bucket(-answer) == digit_bucket(answer),
{
    lemma_decimal_len(
        (if answer < 0 {
            -answer
        } else {
            answer
        }) as nat,
    );
}

/// The bucket of an answer by the number of digits of its absolute value: one,
/// two, three, and four or more.
pub open spec fn digit_bucket(answer: int) -> int {
    let n = decimal(
        (if answer < 0 {
            -answer
        } else {
            answer
        }) as nat,
    ).len();
    if n <= 3 {
        n - 1
    } else {
        3
    }
}

proof fn lemma_decimal_len(n: nat)
    ensures
        n < 10 <==> decimal(n).len() == 1,
        n < 100 <==> decimal(n).len() <= 2,
        n < 1000 <==> decimal(n).len() <= 3,
        decimal(n).len() >= 1,
    decreases n,
{
    if n >= 10 {
        lemma_decimal_len(n / 10);
    }
}

/// The bucket of an answer by the number of its digits. The sign is no digit.
pub fn answer_digit_bucket(answer: i64) -> (r: usize)
    ensures
        r == digit_bucket(answer as int),
        r < 4,
{
    proof {
        lemma_decimal_len(
            (if answer < 0 {
                -answer
            } else {
                answer as int
            }) as nat,
        );
    }
    if -10 < answer && answer < 10 {
        0
    } else if -100 < answer && answer < 100 {
        1
    } else if -1000 < answer && answer < 1000 {
        2
    } else {
        3
    }
}

proof fn lemma_signed_chars(n: int)
    ensures
        signed_decimal(n).len() > 0,
        forall|i: int|
            0 <= i < signed_decimal(n).len() ==> is_digit(#[trigger] signed_decimal(n)[i]) || (i
                == 0 && n < 0 && signed_decimal(n)[i] == '-'),
        n < 0 <==> signed_decimal(n)[0] == '-',
{
    if n < 0 {
        lemma_decimal((-n) as nat);
        let d = decimal((-n) as nat);
        assert forall|i: int| 0 <= i < signed_decimal(n).len() implies is_digit(
            #[trigger] signed_decimal(n)[i],
        ) || (i == 0 && n < 0 && signed_decimal(n)[i] == '-') by {
            if i > 0 {
                assert(signed_decimal(n)[i] == d[i - 1]);
            }
        }
    } else {
        lemma_decimal(n as nat);
        assert(is_digit(signed_decimal(n)[0]));
    }
}

/// A line that begins with the prompt of a problem reads back as that problem,
/// whatever stands behind the `=`: nothing, the right answer, or anything else.
pub proof fn law_fact_line_reads_back(p: Problem, tail: Seq<char>)
    requires
        p.op == '+' || p.op == '-',
    ensures
        operand_pair(p.prompt_text() + tail) == Some(
            OperandPair { a: p.a as int, b: p.b as int, op: p.op },
        ),
        operand_pair(p.fact_text()) == Some(
            OperandPair { a: p.a as int, b: p.b as int, op: p.op },
        ),
{
    lemma_prompt_reads_back(p, tail);
    lemma_prompt_reads_back(p, signed_decimal(p.answer()).push('\n'));
}

proof fn lemma_prompt_reads_back(p: Problem, tail: Seq<char>)
    requires
        p.op == '+' || p.op == '-',
    ensures
        operand_pair(p.prompt_text() + tail) == Some(
            OperandPair { a: p.a as int, b: p.b as int, op: p.op },
        ),
{
    let line = p.prompt_text() + tail;
    let ta = signed_decimal(p.a as int);
    let tb = signed_decimal(p.b as int);
    lemma_signed_chars(p.a as int);
    lemma_signed_chars(p.b as int);
    let n = ta.len() + 1 + tb.len();
    assert forall|i: int| 0 <= i < n implies #[trigger] line[i] != '=' by {
        if i < ta.len() {
            assert(line[i] == ta[i]);
        } else if i > ta.len() {
            assert(line[i] == tb[i - ta.len() - 1]);
        }
    }
    assert(line[n as int] == '=');
    lemma_before_is(line, '=', n as int);
    let lhs = line.take(n as int);
    assert(lhs =~= ta.push(p.op) + tb);
    assert(lhs[0] == ta[0]);
    let start: int = if p.a < 0 {
        1
    } else {
        0
    };
    let t = lhs.skip(start);
    let k = ta.len() - start;
    assert forall|i: int| 0 <= i < k implies is_digit(#[trigger] t[i]) by {
        assert(t[i] == ta[i + start]);
    }
    assert(t[k] == p.op);
    lemma_before(t, '+');
    lemma_before(t, '-');
    if p.op == '+' {
        lemma_before_is(t, '+', k);
        if before(t, '-') < k {
            assert(is_digit(t[before(t, '-')]));
        }
    } else {
        lemma_before_is(t, '-', k);
        if before(t, '+') < k {
            assert(is_digit(t[before(t, '+')]));
        }
    }
    assert(lhs.take(ta.len() as int) =~= ta);
    assert(lhs.skip(ta.len() as int + 1) =~= tb);
    law_signed_decimal_parses_back(p.a as int, i64::MIN as int, i64::MAX as int);
    law_signed_decimal_parses_back(p.b as int, i64::MIN as int, i64::MAX as int);
}

proof fn lemma_without_trailing_none(s: Seq<char>, c: char)
    requires
        s.len() > 0,
        s.last() != c,
    ensures
        without_trailing(s.push(c), c) == s,
        without_trailing(s, c) == s,
{
    reveal_with_fuel(without_trailing, 2);
    assert(s.push(c).drop_last() =~= s);
}

/// The right answer, alone or followed by the newline at which generation
/// stops, is a clean answer.
pub proof fn law_right_answer_is_clean(answer: i64)
    ensures
        clean_answer(signed_decimal(answer as int), answer as int),
        clean_answer(signed_decimal(answer as int).push('\n'), answer as int),
{
    let s = signed_decimal(answer as int);
    lemma_signed_chars(answer as int);
    assert(is_digit(s[s.len() - 1]) || s[s.len() - 1] == '-');
    lemma_without_trailing_none(s, '\n');
    law_signed_decimal_parses_back(answer as int, i64::MIN as int, i64::MAX as int);
}

proof fn lemma_trailing_prefix(s: Seq<char>, c: char)
    ensures
        without_trailing(s, c).len() <= s.len(),
        without_trailing(s, c) == s.take(without_trailing(s, c).len() as int),
        forall|i: int| without_trailing(s, c).len() <= i < s.len() ==> #[trigger] s[i] == c,
    decreases s.len(),
{
    if s.len() > 0 && s.last() == c {
        lemma_trailing_prefix(s.drop_last(), c);
        let k = without_trailing(s, c).len() as int;
        assert(s.drop_last().take(k) =~= s.take(k));
        assert forall|i: int| k <= i < s.len() implies #[trigger] s[i] == c by {
            if i < s.len() - 1 {
                assert(s[i] == s.drop_last()[i]);
            }
        }
    } else {
        assert(s.take(s.len() as int) =~= s);
    }
}

/// A clean answer is also right by the rule of the evaluation, which reads the
/// leading integer of a completion. A leading `+`, which the evaluation does
/// not read, and the least `i64` are left out.
pub proof fn law_clean_answer_is_right(completion: Seq<char>, answer: int)
    requires
        clean_answer(completion, answer),
        answer > i64::MIN,
        completion[0] != '+',
    ensures
        leading_int(completion) == Some(answer),
{
    let t = without_trailing(completion, '\n');
    lemma_trailing_prefix(completion, '\n');
    assert(t.len() > 0);
    assert(t[0] == completion[0]);
    let from: int = if completion[0] == '-' {
        1
    } else {
        0
    };
    let body = completion.skip(from);
    let tb = t.skip(from);
    assert(t.skip(0) =~= t);
    assert(completion.skip(0) =~= completion);
    let k = tb.len() as int;
    assert(body.take(k) =~= tb);
    assert forall|i: int| 0 <= i < k implies is_digit(#[trigger] body[i]) by {
        assert(body[i] == tb[i]);
    }
    if k < body.len() {
        assert(body[k] == completion[t.len() as int]);
    }
    lemma_digit_run_is(body, k);
}

} // verus!
