//! Which tokens a model is shown while it generates, and how the likelihood of
//! a completion is laid out.
use crate::list::copy_list;
use crate::list::copy_part;
use vstd::prelude::*;

verus! {

/// The last `block` entries of `tokens`, or all of them.
pub open spec fn tail(tokens: Seq<u32>, block: int) -> Seq<u32> {
    if tokens.len() <= block {
        tokens
    } else {
        tokens.skip(tokens.len() - block)
    }
}

/// A context is the end of the tokens: as many of them as there are, or as fit,
/// each in its place counted from the end.
pub proof fn law_context_is_the_end(tokens: Seq<u32>, block: int)
    requires
        block >= 0,
    ensures
        tail(tokens, block).len() == tokens.len() || tail(tokens, block).len() == block,
        tail(tokens, block).len() <= tokens.len(),
        tail(tokens, block).len() <= block,
        forall|i: int|
            0 <= i < tail(tokens, block).len() ==> #[trigger] tail(tokens, block)[i]
                == tokens[tokens.len() - tail(tokens, block).len() + i],
{
}

/// The last `block` entries of `tokens`, or all of them.
pub fn truncate_context(tokens: &Vec<u32>, block: usize) -> (r: Vec<u32>)
    ensures
        r@ == tail(tokens@, block as int),
        r@.len() == if tokens@.len() <= block {
            tokens@.len()
        } else {
            block as nat
        },
        forall|i: int|
            0 <= i < r@.len() ==> #[trigger] r@[i] == tokens@[tokens@.len() - r@.len() + i],
{
    let from: usize = tokens.len().saturating_sub(block);
    proof {
        assert(tokens@.subrange(from as int, tokens@.len() as int) =~= tail(
            tokens@,
            block as int,
        ));
    }
    copy_part(tokens, from, tokens.len())
}

/// A generation in progress.
pub struct Decoder {
    /// The prompt and what was generated behind it.
    pub tokens: Vec<u32>,
    pub prompt_len: usize,
    pub max_new_tokens: usize,
    /// The token behind which generation ends, if there is one.
    pub stop_token: Option<u32>,
    pub block_size: usize,
}

impl Decoder {
    /// The tokens that were generated.
    pub open spec fn generated(&self) -> Seq<u32> {
        self.tokens@.skip(self.prompt_len as int)
    }

    /// Whether the stop token was generated last.
    pub open spec fn stopped(&self) -> bool {
        self.generated().len() > 0 && self.stop_token == Some(self.generated().last())
    }

    /// There is something to show the model where a token is wanted, no more
    /// tokens than allowed were generated, and none behind the stop token.
    pub open spec fn well_formed(&self) -> bool {
        &&& self.prompt_len <= self.tokens@.len()
        &&& self.max_new_tokens > 0 ==> self.prompt_len > 0 && self.block_size > 0
        &&& self.generated().len() <= self.max_new_tokens
        &&& forall|i: int|
            0 <= i < self.generated().len() - 1 ==> self.stop_token != Some(
                #[trigger] self.generated()[i],
            )
    }

    /// Whether two generations have the same parameters.
    pub open spec fn same_setup(&self, other: &Decoder) -> bool {
        &&& self.prompt_len == other.prompt_len
        &&& self.max_new_tokens == other.max_new_tokens
        &&& self.stop_token == other.stop_token
        &&& self.block_size == other.block_size
    }

    /// Starts a generation behind `prompt`.
    pub fn start(
        prompt: &Vec<u32>,
        max_new_tokens: usize,
        stop_token: Option<u32>,
        block_size: usize,
    ) -> (r: Decoder)
        requires
            max_new_tokens > 0 ==> prompt@.len() > 0 && block_size > 0,
        ensures
            r.well_formed(),
            r.tokens@ == prompt@,
            r.prompt_len == prompt@.len(),
            r.max_new_tokens == max_new_tokens,
            r.stop_token == stop_token,
            r.block_size == block_size,
    {
        Decoder {
            tokens: copy_list(prompt),
            prompt_len: prompt.len(),
            max_new_tokens,
            stop_token,
            block_size,
        }
    }

    /// Starts a generation from nothing, of `max_tokens` tokens in all, the
    /// first of which is the token 0.
    pub fn start_unprompted(max_tokens: usize, block_size: usize) -> (r: Decoder)
        requires
            max_tokens > 1 ==> block_size > 0,
        ensures
            r.well_formed(),
            r.tokens@ == seq![0u32],
            r.prompt_len == 1,
            r.max_new_tokens == if max_tokens == 0 {
                0
            } else {
                max_tokens - 1
            },
            r.stop_token is None,
            r.block_size == block_size,
    {
        let mut prompt: Vec<u32> = Vec::new();
        prompt.push(0);
        assert(prompt@ =~= seq![0u32]);
        Self::start(&prompt, max_tokens.saturating_sub(1), None, block_size)
    }

    /// What the model is to be shown for the next token, or `None` when the
    /// generation is over.
    pub fn context(&self) -> (r: Option<Vec<u32>>)
        requires
            self.well_formed(),
        ensures
            match r {
                Some(c) => !self.stopped() && self.generated().len() < self.max_new_tokens && c@
                    == tail(self.tokens@, self.block_size as int) && 0 < c@.len()
                    <= self.block_size,
                None => self.over(),
            },
    {
        let n: usize = self.tokens.len() - self.prompt_len;
        if n == self.max_new_tokens {
            return None;
        }
        if n > 0 {
            if let Some(s) = self.stop_token {
                if self.tokens[self.tokens.len() - 1] == s {
                    return None;
                }
            }
        }
        Some(truncate_context(&self.tokens, self.block_size))
    }

    /// Takes the next token.
    pub fn push(&mut self, token: u32)
        requires
            old(self).well_formed(),
            !old(self).stopped(),
            old(self).generated().len() < old(self).max_new_tokens,
        ensures
            final(self).well_formed(),
            final(self).same_setup(old(self)),
            final(self).tokens@ == old(self).tokens@.push(token),
            final(self).generated() == old(self).generated().push(token),
    {
        self.tokens.push(token);
        proof {
            assert(self.generated() =~= old(self).generated().push(token));
            assert forall|i: int| 0 <= i < self.generated().len() - 1 implies self.stop_token
                != Some(#[trigger] self.generated()[i]) by {
                assert(self.generated()[i] == old(self).generated()[i]);
            }
        }
    }

    /// The tokens that were generated.
    pub fn new_tokens(&self) -> (r: Vec<u32>)
        requires
            self.well_formed(),
        ensures
            r@ == self.generated(),
    {
        proof {
            assert(self.tokens@.subrange(self.prompt_len as int, self.tokens@.len() as int)
                =~= self.generated());
        }
        copy_part(&self.tokens, self.prompt_len, self.tokens.len())
    }
}

impl Decoder {
    /// The prompt.
    pub open spec fn prompt(&self) -> Seq<u32> {
        self.tokens@.take(self.prompt_len as int)
    }

    /// Whether each token was the one that the rule `next` gives for the
    /// context at its place, as in a generation without chance.
    pub open spec fn follows(&self, next: spec_fn(Seq<u32>) -> u32) -> bool {
        forall|i: int|
            0 <= i < self.generated().len() ==> #[trigger] self.generated()[i] == next(
                tail(self.tokens@.take(self.prompt_len + i), self.block_size as int),
            )
    }

    /// Whether the generation is over.
    pub open spec fn over(&self) -> bool {
        self.stopped() || self.generated().len() == self.max_new_tokens
    }
}

/// A generation is its prompt and what was generated behind it; it has stopped
/// where the stop token came last, and is over then or when it has as many tokens
/// as allowed.
pub proof fn law_generation_is_what_stands_behind_the_prompt(d: Decoder, i: int)
    requires
        d.well_formed(),
    ensures
        d.generated().len() == d.tokens@.len() - d.prompt_len,
        0 <= i < d.generated().len() ==> d.generated()[i] == d.tokens@[d.prompt_len + i],
        d.stopped() <==> d.tokens@.len() > d.prompt_len && d.stop_token == Some(
            d.tokens@[d.tokens@.len() - 1],
        ),
        d.over() <==> d.stopped() || d.tokens@.len() - d.prompt_len == d.max_new_tokens,
{
    if d.generated().len() > 0 {
        assert(d.generated().last() == d.tokens@[d.tokens@.len() - 1]);
    }
}

/// A generation that has not begun follows every rule, and one that follows a
/// rule goes on to do so when the token is the one that the rule gives for the
/// context.
pub proof fn law_generation_follows_its_rule(
    before: Decoder,
    after: Decoder,
    next: spec_fn(Seq<u32>) -> u32,
)
    requires
        before.well_formed(),
        before.generated().len() == 0 || before.follows(next),
        after.same_setup(&before),
        after.tokens@ == before.tokens@.push(
            next(tail(before.tokens@, before.block_size as int)),
        ),
    ensures
        after.follows(next),
{
    assert(after.generated() =~= before.generated().push(after.tokens@.last()));
    assert forall|i: int| 0 <= i < after.generated().len() implies #[trigger] after.generated()[i]
        == next(tail(after.tokens@.take(after.prompt_len + i), after.block_size as int)) by {
        let n = after.prompt_len + i;
        assert(after.tokens@.take(n) =~= before.tokens@.take(n));
        if i < before.generated().len() {
            assert(before.generated()[i] == after.generated()[i]);
        } else {
            assert(before.tokens@.take(n) =~= before.tokens@);
        }
    }
}

/// A generation that is over holds no more tokens than allowed, the stop token
/// nowhere but at its end, and fewer tokens than allowed only where the stop
/// token is the last one.
pub proof fn law_generation_ends_at_the_stop_token(d: Decoder)
    requires
        d.well_formed(),
        d.over(),
    ensures
        d.generated().len() <= d.max_new_tokens,
        forall|i: int|
            0 <= i < d.generated().len() && d.stop_token == Some(#[trigger] d.generated()[i]) ==> i
                == d.generated().len() - 1,
        d.generated().len() < d.max_new_tokens ==> d.generated().len() > 0 && d.stop_token == Some(
            d.generated().last(),
        ),
{
}

/// Of two generations behind the same prompt that follow one rule, the one with
/// the smaller limit gives what the other one begins with.
pub proof fn law_smaller_limit_gives_a_prefix(
    a: Decoder,
    b: Decoder,
    next: spec_fn(Seq<u32>) -> u32,
)
    requires
        a.well_formed() && b.well_formed(),
        a.over() && b.over(),
        a.follows(next) && b.follows(next),
        a.prompt() == b.prompt(),
        a.prompt_len == b.prompt_len,
        a.stop_token == b.stop_token,
        a.block_size == b.block_size,
        a.max_new_tokens <= b.max_new_tokens,
    ensures
        a.generated() == b.generated().take(
            if a.max_new_tokens <= b.generated().len() {
                a.max_new_tokens as int
            } else {
                b.generated().len() as int
            },
        ),
{
    let m: int = if a.generated().len() <= b.generated().len() {
        a.generated().len() as int
    } else {
        b.generated().len() as int
    };
    lemma_same_start(a, b, next, m);
    let g = a.generated();
    let h = b.generated();
    let p = a.prompt_len as int;
    assert forall|i: int| 0 <= i < m implies #[trigger] g[i] == h[i] by {
        assert(a.tokens@.take(p + m)[p + i] == b.tokens@.take(p + m)[p + i]);
    }
    if g.len() < h.len() {
        if a.stopped() {
            assert(h[g.len() - 1] == g[g.len() - 1]);
            assert(b.stop_token != Some(h[g.len() - 1]));
        }
    } else if h.len() < g.len() {
        assert(b.stopped());
        assert(g[h.len() - 1] == h[h.len() - 1]);
        assert(a.stop_token != Some(g[h.len() - 1]));
    }
    assert(g =~= h.take(g.len() as int));
}

proof fn lemma_same_start(a: Decoder, b: Decoder, next: spec_fn(Seq<u32>) -> u32, n: int)
    requires
        a.well_formed() && b.well_formed(),
        a.follows(next) && b.follows(next),
        a.prompt() == b.prompt(),
        a.prompt_len == b.prompt_len,
        a.block_size == b.block_size,
        0 <= n <= a.generated().len(),
        n <= b.generated().len(),
    ensures
        a.tokens@.take(a.prompt_len + n) == b.tokens@.take(a.prompt_len + n),
    decreases n,
{
    if n > 0 {
        lemma_same_start(a, b, next, n - 1);
        let k = a.prompt_len + n - 1;
        assert(a.tokens@[k] == a.generated()[n - 1]);
        assert(b.tokens@[k] == b.generated()[n - 1]);
        assert(a.tokens@.take(k + 1) =~= a.tokens@.take(k).push(a.tokens@[k]));
        assert(b.tokens@.take(k + 1) =~= b.tokens@.take(k).push(b.tokens@[k]));
    }
}

/// How the likelihood of a completion is computed: the context to show the
/// model, and the range of positions whose predictions are the completion.
pub struct LogpPlan {
    pub context: Vec<u32>,
    pub pred_start: usize,
    pub pred_end: usize,
}

/// Whether the likelihood of a completion can be computed: there is a
/// completion, and some of the prompt is left before it in the context.
pub open spec fn logp_defined(prompt: Seq<u32>, completion: Seq<u32>, block: int) -> bool {
    &&& completion.len() > 0
    &&& prompt.len() > 0
    &&& completion.len() < block
}

/// The likelihood of a completion is defined exactly where there is one and a
/// token of the prompt is left before it in what the model is shown.
pub proof fn law_likelihood_needs_some_prompt(
    prompt: Seq<u32>,
    completion: Seq<u32>,
    block: int,
)
    requires
        block >= 0,
    ensures
        logp_defined(prompt, completion, block) <==> completion.len() > 0 && tail(
            prompt + completion,
            block,
        ).len() > completion.len(),
        logp_defined(prompt, completion, block) ==> forall|j: int|
            0 <= j < completion.len() ==> #[trigger] completion[j] == tail(
                prompt + completion,
                block,
            )[tail(prompt + completion, block).len() - completion.len() + j],
{
    let all = prompt + completion;
    law_context_is_the_end(all, block);
    let t = tail(all, block);
    if logp_defined(prompt, completion, block) {
        assert forall|j: int| 0 <= j < completion.len() implies #[trigger] completion[j]
            == t[t.len() - completion.len() + j] by {
            assert(t[t.len() - completion.len() + j] == all[all.len() - completion.len() + j]);
        }
    }
}

/// Plans the likelihood of `completion` behind `prompt`. The context is the
/// end of both together; each token of the completion is predicted at the
/// position before its own.
pub fn plan_completion(prompt: &Vec<u32>, completion: &Vec<u32>, block_size: usize) -> (r: Option<
    LogpPlan,
>)
    requires
        prompt@.len() + completion@.len() <= usize::MAX,
    ensures
        r is Some <==> logp_defined(prompt@, completion@, block_size as int),
        r matches Some(p) ==> {
            &&& p.context@ == tail(prompt@ + completion@, block_size as int)
            &&& p.pred_end == p.context@.len() - 1
            &&& p.pred_end - p.pred_start == completion@.len()
            &&& forall|j: int|
                0 <= j < completion@.len() ==> p.context@[p.pred_start + j + 1]
                    == #[trigger] completion@[j]
        },
{
    let l: usize = completion.len();
    if l == 0 {
        return None;
    }
    let mut full: Vec<u32> = copy_list(prompt);
    full.extend_from_slice(completion.as_slice());
    assert(full@ =~= prompt@ + completion@);
    let context: Vec<u32> = truncate_context(&full, block_size);
    let n: usize = context.len();
    if n <= l {
        return None;
    }
    Some(LogpPlan { context, pred_start: n - l - 1, pred_end: n - 1 })
}

/// Whether a group of completions can be stepped on at all: it is not empty
/// and there is one reward for each.
pub fn lite_step_ready(completions: usize, rewards: usize) -> (r: bool)
    ensures
        r == (completions > 0 && rewards == completions),
{
    completions > 0 && rewards == completions
}

/// Whether a group of completions can be stepped on with a reference: it is
/// not empty, there is one advantage and one likelihood of either kind for
/// each, and at least one pass is asked for.
pub fn full_step_ready(
    completions: usize,
    advantages: usize,
    old_logps: usize,
    ref_logps: usize,
    k_epochs: usize,
) -> (r: bool)
    ensures
        r == (completions > 0 && advantages == completions && old_logps == completions && ref_logps
            == completions && k_epochs > 0),
{
    completions > 0 && advantages == completions && old_logps == completions && ref_logps
        == completions && k_epochs > 0
}

} // verus!
