//! Synthetic arithmetic corpora: random sums and differences of operands that
//! are not negative.
use crate::number::push_signed;
use crate::number::signed_decimal;
use crate::problem::Problem;
use crate::rft::joined;
use crate::rng::draw_between;
use crate::rng::draw_chance;
use crate::rng::drawn_between;
use crate::rng::drawn_chance;
use crate::rng::rng_for;
use crate::rng::rng_state;
use crate::rng::seeded_state;
use rand::rngs::StdRng;
use vstd::prelude::*;
use vstd::string::*;

verus! {

/// The fact that a generator in state `state` draws, and the state after it:
/// two operands, then whether they are added or subtracted.
pub open spec fn drawn_fact(state: Seq<u32>, min: i64, max: i64) -> (Problem, Seq<u32>) {
    let a = drawn_between(state, min, max);
    let b = drawn_between(a.1, min, max);
    let plus = drawn_chance(b.1, 1, 2);
    let op = if plus.0 {
        '+'
    } else {
        '-'
    };
    (Problem { a: a.0, b: b.0, op }, plus.1)
}

/// The state after `n` facts.
pub open spec fn state_after(state: Seq<u32>, min: i64, max: i64, n: nat) -> Seq<u32>
    decreases n,
{
    if n == 0 {
        state
    } else {
        drawn_fact(state_after(state, min, max, (n - 1) as nat), min, max).1
    }
}

/// The `n` facts that a generator in state `state` draws.
pub open spec fn drawn_facts(state: Seq<u32>, min: i64, max: i64, n: nat) -> Seq<Problem> {
    Seq::new(n, |i: int| drawn_fact(state_after(state, min, max, i as nat), min, max).0)
}

/// The lines of facts.
pub open spec fn fact_lines(facts: Seq<Problem>) -> Seq<Seq<char>> {
    facts.map_values(|p: Problem| p.fact_text())
}

/// Facts follow each other: so many and then so many more are as many at once.
/// One fact is two operands of the range, drawn one after the other, and the sum
/// or the difference with the same chance.
pub proof fn law_facts_are_drawn_in_turn(state: Seq<u32>, min: i64, max: i64, n: nat, m: nat)
    ensures
        drawn_facts(state, min, max, n).len() == n,
        drawn_facts(state, min, max, n + m) == drawn_facts(state, min, max, n) + drawn_facts(
            state_after(state, min, max, n),
            min,
            max,
            m,
        ),
        state_after(state, min, max, n + m) == state_after(
            state_after(state, min, max, n),
            min,
            max,
            m,
        ),
        state_after(state, min, max, 0) == state,
        ({
            let first = drawn_between(state, min, max);
            let second = drawn_between(first.1, min, max);
            let sum = drawn_chance(second.1, 1, 2);
            let facts = drawn_facts(state, min, max, 1);
            &&& facts[0].a == first.0
            &&& facts[0].b == second.0
            &&& facts[0].op == '+' <==> sum.0
            &&& facts[0].op == '-' <==> !sum.0
            &&& state_after(state, min, max, 1) == sum.1
        }),
    decreases m,
{
    reveal_with_fuel(state_after, 2);
    lemma_states_add(state, min, max, n, m);
    let a = drawn_facts(state, min, max, n);
    let b = drawn_facts(state_after(state, min, max, n), min, max, m);
    let all = drawn_facts(state, min, max, n + m);
    assert forall|i: int| 0 <= i < all.len() implies #[trigger] all[i] == (a + b)[i] by {
        if i >= n {
            lemma_states_add(state, min, max, n, (i - n) as nat);
            assert(n + (i - n) as nat == i as nat);
        }
    }
    assert(all =~= a + b);
}

proof fn lemma_states_add(state: Seq<u32>, min: i64, max: i64, n: nat, m: nat)
    ensures
        state_after(state, min, max, n + m) == state_after(
            state_after(state, min, max, n),
            min,
            max,
            m,
        ),
    decreases m,
{
    if m > 0 {
        lemma_states_add(state, min, max, n, (m - 1) as nat);
        assert((n + m - 1) as nat == n + (m - 1) as nat);
    }
}

/// The lines of facts are their right lines, in order.
pub proof fn law_corpus_is_the_lines_of_its_facts(facts: Seq<Problem>, p: Problem)
    ensures
        joined(fact_lines(Seq::empty())) == Seq::<char>::empty(),
        joined(fact_lines(facts.push(p))) == joined(fact_lines(facts)) + p.fact_text(),
{
    assert(fact_lines(facts.push(p)).drop_last() =~= fact_lines(facts));
    assert(fact_lines(Seq::empty()) =~= Seq::<Seq<char>>::empty());
}

/// Draws `n` facts with operands in `min..=max`.
pub fn draw_facts(rng: &mut StdRng, min: i64, max: i64, n: usize) -> (r: Vec<Problem>)
    requires
        min <= max,
    ensures
        r@ == drawn_facts(rng_state(*old(rng)), min, max, n as nat),
        rng_state(*final(rng)) == state_after(rng_state(*old(rng)), min, max, n as nat),
        forall|i: int|
            0 <= i < r@.len() ==> min <= (#[trigger] r@[i]).a <= max && min <= r@[i].b <= max && (
            r@[i].op == '+' || r@[i].op == '-'),
{
    let ghost start = rng_state(*rng);
    let mut out: Vec<Problem> = Vec::new();
    let mut i: usize = 0;
    while i < n
        invariant
            i <= n,
            min <= max,
            start == rng_state(*old(rng)),
            rng_state(*rng) == state_after(start, min, max, i as nat),
            out@ == drawn_facts(start, min, max, i as nat),
            forall|k: int|
                0 <= k < out@.len() ==> min <= (#[trigger] out@[k]).a <= max && min <= out@[k].b
                    <= max && (out@[k].op == '+' || out@[k].op == '-'),
        decreases n - i,
    {
        let a: i64 = draw_between(rng, min, max);
        let b: i64 = draw_between(rng, min, max);
        let op: char = if draw_chance(rng, 1, 2) {
            '+'
        } else {
            '-'
        };
        let ghost had = out@;
        out.push(Problem { a, b, op });
        proof {
            assert(out@ =~= drawn_facts(start, min, max, (i + 1) as nat));
        }
        i += 1;
    }
    out
}

/// A corpus of `samples` lines `a+b=c` or `a-b=c` with operands in
/// `min..=max`, decided by the seed. A negative or an empty range is refused
/// with a message.
pub fn generate_corpus(min: i64, max: i64, samples: usize, seed: u64) -> (r: Result<String, String>)
    requires
        0 <= min <= max ==> 2 * max <= i64::MAX,
    ensures
        if min < 0 {
            r is Err && r->Err_0@ == "--min ("@ + signed_decimal(min as int) + ") must be >= 0"@
        } else if min > max {
            r is Err && r->Err_0@ == "--min ("@ + signed_decimal(min as int)
                + ") must be <= --max ("@ + signed_decimal(max as int) + ")"@
        } else {
            r is Ok && r->Ok_0@ == joined(
                fact_lines(drawn_facts(seeded_state(seed), min, max, samples as nat)),
            )
        },
{
    if min < 0 {
        let mut m: String = "--min (".to_owned();
        push_signed(&mut m, min);
        m.append(") must be >= 0");
        return Err(m);
    }
    if min > max {
        let mut m: String = "--min (".to_owned();
        push_signed(&mut m, min);
        m.append(") must be <= --max (");
        push_signed(&mut m, max);
        m.append(")");
        return Err(m);
    }
    let mut rng: StdRng = rng_for(Some(seed));
    let facts: Vec<Problem> = draw_facts(&mut rng, min, max, samples);
    let ghost lines = fact_lines(facts@);
    let mut out: String = String::new();
    let mut i: usize = 0;
    assert(out@ =~= joined(lines.take(0)));
    while i < facts.len()
        invariant
            i <= facts.len(),
            0 <= min <= max,
            2 * max <= i64::MAX,
            lines == fact_lines(facts@),
            out@ == joined(lines.take(i as int)),
            forall|k: int|
                0 <= k < facts@.len() ==> min <= (#[trigger] facts@[k]).a <= max && min
                    <= facts@[k].b <= max && (facts@[k].op == '+' || facts@[k].op == '-'),
        decreases facts.len() - i,
    {
        assert(min <= facts@[i as int].a <= max);
        let line: String = facts[i].fact_line();
        out.append(line.as_str());
        proof {
            assert(lines.take(i + 1).drop_last() =~= lines.take(i as int));
        }
        i += 1;
    }
    assert(lines.take(i as int) =~= lines);
    Ok(out)
}

} // verus!
