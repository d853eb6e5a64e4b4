//! Training and validation splits of a token sequence, and the random windows
//! that training reads from them.
use crate::corpus::compute_fact_boundaries;
use crate::corpus::is_fact_boundary;
use crate::error::fails_with;
use crate::error::ErrorView;
use crate::error::SmolError;
use crate::list::copy_part;
use crate::number::decimal;
use crate::number::push_decimal;
use crate::rng::draw_below;
use crate::rng::drawn_below;
use crate::rng::entropy_rng;
use crate::rng::rng_state;
use crate::rng::seeded_rng;
use crate::rng::seeded_state;
use crate::text::chars_of;
use crate::text::text_of;
use crate::text::texts;
use rand::rngs::StdRng;
use vstd::prelude::*;
use vstd::string::*;

verus! {

/// The seed of the example windows, so that they stay the same from one
/// request to the next.
pub const EXAMPLE_WINDOWS_SEED: u64 = 0x53_4d_4f_4c_47_50_54;

/// `count` draws in a row from `0..n`, and the state after them.
pub open spec fn draws_below(state: Seq<u32>, n: usize, count: nat) -> (Seq<usize>, Seq<u32>)
    decreases count,
{
    if count == 0 {
        (seq![], state)
    } else {
        let before = draws_below(state, n, (count - 1) as nat);
        let next = drawn_below(before.1, n);
        (before.0.push(next.0), next.1)
    }
}

/// The window starts that a generator in state `state` gives, and the state
/// after them: entries of `pool` when there is one that is not empty,
/// otherwise offsets below `total - block`.
pub open spec fn window_starts(
    state: Seq<u32>,
    total: usize,
    block: usize,
    pool: Option<Seq<usize>>,
    count: nat,
) -> (Seq<usize>, Seq<u32>) {
    match pool {
        Some(p) if p.len() > 0 => {
            let d = draws_below(state, p.len() as usize, count);
            (d.0.map_values(|i: usize| p[i as int]), d.1)
        },
        _ => draws_below(state, (total - block) as usize, count),
    }
}

/// Draws `count` window starts. Where `aligned_pool` is given and not empty
/// they are entries of it; otherwise they are offsets below
/// `total_size - block_size`.
pub fn sample_window_starts(
    rng: &mut StdRng,
    total_size: usize,
    block_size: usize,
    aligned_pool: Option<&Vec<usize>>,
    count: usize,
) -> (starts: Vec<usize>)
    requires
        count == 0 || total_size > block_size || (aligned_pool matches Some(p) && p@.len() > 0),
    ensures
        ({
            let pool = match aligned_pool {
                Some(p) => Some(p@),
                None => None,
            };
            let drawn = window_starts(
                rng_state(*old(rng)),
                total_size,
                block_size,
                pool,
                count as nat,
            );
            starts@ == drawn.0 && rng_state(*final(rng)) == drawn.1
        }),
        starts@.len() == count,
        forall|i: int|
            0 <= i < count ==> match aligned_pool {
                Some(p) if p@.len() > 0 => p@.contains(#[trigger] starts@[i]),
                _ => starts@[i] < total_size - block_size,
            },
{
    let mut out: Vec<usize> = Vec::new();
    let ghost state = rng_state(*old(rng));
    let mut i: usize = 0;
    match aligned_pool {
        Some(pool) if pool.len() > 0 => {
            let n: usize = pool.len();
            while i < count
                invariant
                    i <= count,
                    n == pool@.len(),
                    n > 0,
                    out@.len() == i,
                    out@ == draws_below(state, n, i as nat).0.map_values(|k: usize| pool@[k as int]),
                    rng_state(*rng) == draws_below(state, n, i as nat).1,
                    forall|k: int| 0 <= k < i ==> pool@.contains(#[trigger] out@[k]),
                decreases count - i,
            {
                let k: usize = draw_below(rng, n);
                out.push(pool[k]);
                i += 1;
                proof {
                    assert(out@ =~= draws_below(state, n, i as nat).0.map_values(
                        |k: usize| pool@[k as int],
                    ));
                }
            }
        },
        _ => {
            if count == 0 {
                return out;
            }
            let n: usize = total_size - block_size;
            while i < count
                invariant
                    i <= count,
                    n > 0,
                    out@.len() == i,
                    out@ == draws_below(state, n, i as nat).0,
                    rng_state(*rng) == draws_below(state, n, i as nat).1,
                    forall|k: int| 0 <= k < i ==> #[trigger] out@[k] < n,
                decreases count - i,
            {
                let k: usize = draw_below(rng, n);
                out.push(k);
                i += 1;
            }
        },
    }
    out
}

/// The entries of `starts` below `limit`, in order.
pub open spec fn starts_below(starts: Seq<usize>, limit: usize) -> Seq<usize> {
    starts.filter(|x: usize| x < limit)
}

/// Keeps the entries below `limit`, in order.
pub fn keep_below(starts: &Vec<usize>, limit: usize) -> (r: Vec<usize>)
    ensures
        r@ == starts_below(starts@, limit),
        forall|i: int| 0 <= i < r@.len() ==> #[trigger] r@[i] < limit,
        forall|i: int| 0 <= i < r@.len() ==> starts@.contains(#[trigger] r@[i]),
{
    let mut out: Vec<usize> = Vec::new();
    let mut i: usize = 0;
    let ghost keep = |x: usize| x < limit;
    reveal(Seq::filter);
    while i < starts.len()
        invariant
            i <= starts.len(),
            keep == |x: usize| x < limit,
            out@ == starts@.take(i as int).filter(keep),
            forall|k: int| 0 <= k < out@.len() ==> #[trigger] out@[k] < limit,
            forall|k: int| 0 <= k < out@.len() ==> starts@.contains(#[trigger] out@[k]),
        decreases starts.len() - i,
    {
        proof {
            assert(starts@.take(i + 1).drop_last() =~= starts@.take(i as int));
            reveal(Seq::filter);
        }
        if starts[i] < limit {
            out.push(starts[i]);
        }
        i += 1;
    }
    assert(starts@.take(i as int) =~= starts@);
    out
}

/// The texts of the windows of `block` characters that start at `starts`.
pub open spec fn windows_at(corpus: Seq<char>, block: int, starts: Seq<usize>) -> Seq<Seq<char>> {
    starts.map_values(|s: usize| corpus.subrange(s as int, s + block))
}

/// The texts of the windows of `block_size` characters that start at `starts`.
pub fn window_texts(corpus: &Vec<char>, block_size: usize, starts: &Vec<usize>) -> (r: Vec<String>)
    requires
        forall|i: int| 0 <= i < starts@.len() ==> #[trigger] starts@[i] + block_size <= corpus@.len(),
    ensures
        texts(r@) == windows_at(corpus@, block_size as int, starts@),
{
    let mut out: Vec<String> = Vec::new();
    let mut i: usize = 0;
    while i < starts.len()
        invariant
            i <= starts.len(),
            out@.len() == i,
            forall|k: int|
                0 <= k < starts@.len() ==> #[trigger] starts@[k] + block_size <= corpus@.len(),
            forall|k: int|
                0 <= k < i ==> (#[trigger] out@[k])@ == corpus@.subrange(
                    starts@[k] as int,
                    starts@[k] + block_size,
                ),
        decreases starts.len() - i,
    {
        let s: usize = starts[i];
        assert(starts@[i as int] + block_size <= corpus.len());
        let piece: Vec<char> = copy_part(corpus, s, s + block_size);
        out.push(text_of(&piece));
        i += 1;
    }
    assert(texts(out@) =~= windows_at(corpus@, block_size as int, starts@));
    out
}

/// Whether `pool` lists, in ascending order, the offsets below `limit` at
/// which a line of `s` starts.
pub open spec fn is_aligned_pool(s: Seq<char>, limit: int, pool: Seq<usize>) -> bool {
    &&& forall|i: int, j: int| 0 <= i < j < pool.len() ==> #[trigger] pool[i] < #[trigger] pool[j]
    &&& forall|i: int|
        0 <= i < pool.len() ==> is_fact_boundary(s, #[trigger] pool[i] as int) && pool[i] < limit
    &&& forall|x: int|
        #[trigger] is_fact_boundary(s, x) && x < limit ==> exists|i: int|
            0 <= i < pool.len() && #[trigger] pool[i] == x
}

/// An ascending list of numbers is decided by its members.
proof fn lemma_ascending_unique(p: Seq<usize>, q: Seq<usize>)
    requires
        forall|i: int, j: int| 0 <= i < j < p.len() ==> #[trigger] p[i] < #[trigger] p[j],
        forall|i: int, j: int| 0 <= i < j < q.len() ==> #[trigger] q[i] < #[trigger] q[j],
        forall|i: int| 0 <= i < p.len() ==> q.contains(#[trigger] p[i]),
        forall|i: int| 0 <= i < q.len() ==> p.contains(#[trigger] q[i]),
    ensures
        p == q,
    decreases p.len(),
{
    if p.len() == 0 {
        if q.len() > 0 {
            assert(p.contains(q[0]));
        }
    } else {
        assert(q.contains(p.last()));
        assert(p.contains(q.last()));
        let i = choose|i: int| 0 <= i < q.len() && q[i] == p.last();
        let j = choose|j: int| 0 <= j < p.len() && p[j] == q.last();
        assert(p.last() == q.last());
        let p1 = p.drop_last();
        let q1 = q.drop_last();
        assert forall|k: int| 0 <= k < p1.len() implies q1.contains(#[trigger] p1[k]) by {
            assert(q.contains(p[k]));
            let m = choose|m: int| 0 <= m < q.len() && q[m] == p[k];
            assert(p[k] < p.last());
            assert(q1[m] == p1[k]);
        }
        assert forall|k: int| 0 <= k < q1.len() implies p1.contains(#[trigger] q1[k]) by {
            assert(p.contains(q[k]));
            let m = choose|m: int| 0 <= m < p.len() && p[m] == q[k];
            assert(q[k] < q.last());
            assert(p1[m] == q1[k]);
        }
        lemma_ascending_unique(p1, q1);
        assert(p =~= p1.push(p.last()));
        assert(q =~= q1.push(q.last()));
    }
}

/// The pool from which aligned example windows are drawn.
pub open spec fn aligned_pool(s: Seq<char>, limit: int) -> Seq<usize> {
    choose|pool: Seq<usize>| is_aligned_pool(s, limit, pool)
}

/// There is one aligned pool, whichever way it is found.
proof fn lemma_aligned_pool(s: Seq<char>, limit: int, pool: Seq<usize>)
    requires
        is_aligned_pool(s, limit, pool),
    ensures
        pool == aligned_pool(s, limit),
{
    let other = aligned_pool(s, limit);
    assert(is_aligned_pool(s, limit, other));
    assert forall|i: int| 0 <= i < pool.len() implies other.contains(#[trigger] pool[i]) by {
        assert(is_fact_boundary(s, pool[i] as int));
    }
    assert forall|i: int| 0 <= i < other.len() implies pool.contains(#[trigger] other[i]) by {
        assert(is_fact_boundary(s, other[i] as int));
    }
    lemma_ascending_unique(pool, other);
}

/// The example windows of a corpus: none where it has no more characters than
/// a window, otherwise `count` windows drawn with a fixed seed.
pub open spec fn example_windows(
    corpus: Seq<char>,
    block: usize,
    aligned: bool,
    count: nat,
) -> Seq<Seq<char>> {
    if corpus.len() <= block || count == 0 {
        seq![]
    } else {
        let pool = if aligned {
            Some(aligned_pool(corpus, corpus.len() - block))
        } else {
            None
        };
        let starts = window_starts(
            seeded_state(EXAMPLE_WINDOWS_SEED),
            corpus.len() as usize,
            block,
            pool,
            count,
        ).0;
        windows_at(corpus, block as int, starts)
    }
}

/// Whether a window of `block` characters, with at least one more behind it,
/// reads `w`.
pub open spec fn is_window(corpus: Seq<char>, block: int, w: Seq<char>) -> bool {
    exists|x: int|
        0 <= x < corpus.len() - block && w == #[trigger] corpus.subrange(x, x + block)
}

/// Whether a window of `block` characters that starts where a line starts
/// reads `w`.
pub open spec fn is_aligned_window(corpus: Seq<char>, block: int, w: Seq<char>) -> bool {
    exists|x: int|
        #[trigger] is_fact_boundary(corpus, x) && x < corpus.len() - block && w == corpus.subrange(
            x,
            x + block,
        )
}

/// `count` windows of `block_size` characters each, drawn with a fixed seed as
/// training draws them. Where `aligned` holds each of them starts where a line
/// starts. The list is empty where the corpus has no more than `block_size`
/// characters.
pub fn sample_example_windows(
    corpus: &str,
    block_size: usize,
    aligned: bool,
    count: usize,
) -> (r: Vec<String>)
    ensures
        texts(r@) == example_windows(corpus@, block_size, aligned, count as nat),
        r@.len() == if corpus@.len() <= block_size {
            0
        } else {
            count as nat
        },
        forall|i: int|
            0 <= i < r@.len() ==> is_window(corpus@, block_size as int, (#[trigger] r@[i])@),
        aligned ==> forall|i: int|
            0 <= i < r@.len() ==> is_aligned_window(
                corpus@,
                block_size as int,
                (#[trigger] r@[i])@,
            ),
{
    let chars: Vec<char> = chars_of(corpus);
    let total: usize = chars.len();
    if total <= block_size || count == 0 {
        let out: Vec<String> = Vec::new();
        assert(texts(out@) =~= example_windows(
            corpus@,
            block_size,
            aligned,
            count as nat,
        ));
        return out;
    }
    let mut rng: StdRng = seeded_rng(EXAMPLE_WINDOWS_SEED);
    let limit: usize = total - block_size;
    let starts: Vec<usize> = if aligned {
        let boundaries: Vec<usize> = compute_fact_boundaries(corpus);
        let pool: Vec<usize> = keep_below(&boundaries, limit);
        proof {
            lemma_filtered_pool(corpus@, limit, boundaries@, pool@);
            lemma_aligned_pool(corpus@, limit as int, pool@);
            assert(is_fact_boundary(corpus@, 0));
        }
        sample_window_starts(&mut rng, total, block_size, Some(&pool), count)
    } else {
        sample_window_starts(&mut rng, total, block_size, None, count)
    };
    proof {
        if aligned {
            let pool = aligned_pool(corpus@, limit as int);
            assert forall|i: int| 0 <= i < starts@.len() implies #[trigger] starts@[i] < limit
                && is_fact_boundary(corpus@, starts@[i] as int) by {
                let k = choose|k: int| 0 <= k < pool.len() && pool[k] == starts@[i];
                assert(pool[k] == starts@[i]);
            }
        }
    }
    let r: Vec<String> = window_texts(&chars, block_size, &starts);
    proof {
        assert(texts(r@).len() == starts@.len());
        assert forall|i: int| 0 <= i < r@.len() implies is_window(
            corpus@,
            block_size as int,
            (#[trigger] r@[i])@,
        ) by {
            assert(texts(r@)[i] == r@[i]@);
            assert(starts@[i] < limit);
            let x = starts@[i] as int;
            assert(r@[i]@ == corpus@.subrange(x, x + block_size));
        }
        assert forall|i: int| aligned && 0 <= i < r@.len() implies is_aligned_window(
            corpus@,
            block_size as int,
            (#[trigger] r@[i])@,
        ) by {
            assert(texts(r@)[i] == r@[i]@);
            assert(is_fact_boundary(corpus@, starts@[i] as int));
        }
    }
    r
}

proof fn lemma_filtered_pool(s: Seq<char>, limit: usize, boundaries: Seq<usize>, pool: Seq<usize>)
    requires
        forall|i: int, j: int|
            0 <= i < j < boundaries.len() ==> #[trigger] boundaries[i] < #[trigger] boundaries[j],
        forall|i: int|
            0 <= i < boundaries.len() ==> is_fact_boundary(s, #[trigger] boundaries[i] as int),
        forall|x: int|
            #[trigger] is_fact_boundary(s, x) ==> exists|i: int|
                0 <= i < boundaries.len() && #[trigger] boundaries[i] == x,
        pool == starts_below(boundaries, limit),
    ensures
        is_aligned_pool(s, limit as int, pool),
{
    lemma_filter_ascending(boundaries, limit);
    assert forall|x: int| #[trigger] is_fact_boundary(s, x) && x < limit implies exists|i: int|
        0 <= i < pool.len() && #[trigger] pool[i] == x by {
        let i = choose|i: int| 0 <= i < boundaries.len() && #[trigger] boundaries[i] == x;
        assert(boundaries.contains(boundaries[i]));
        assert(pool.contains(boundaries[i]));
    }
    assert forall|i: int| 0 <= i < pool.len() implies is_fact_boundary(s, #[trigger] pool[i] as int)
        && pool[i] < limit by {
        assert(pool.contains(pool[i]));
        assert(boundaries.contains(pool[i]));
    }
}

/// Filtering an ascending list keeps it ascending, and keeps exactly the
/// entries below the limit.
proof fn lemma_filter_ascending(s: Seq<usize>, limit: usize)
    requires
        forall|i: int, j: int| 0 <= i < j < s.len() ==> #[trigger] s[i] < #[trigger] s[j],
    ensures
        ({
            let f = starts_below(s, limit);
            &&& forall|i: int, j: int| 0 <= i < j < f.len() ==> #[trigger] f[i] < #[trigger] f[j]
            &&& forall|x: usize| #[trigger] f.contains(x) <==> s.contains(x) && x < limit
        }),
    decreases s.len(),
{
    reveal(Seq::filter);
    if s.len() > 0 {
        let t = s.drop_last();
        let g = starts_below(t, limit);
        let f = starts_below(s, limit);
        lemma_filter_ascending(t, limit);
        assert(s =~= t.push(s.last()));
        assert forall|x: usize| #[trigger] f.contains(x) <==> s.contains(x) && x < limit by {
            assert(t.contains(x) ==> s.contains(x)) by {
                if t.contains(x) {
                    let i = choose|i: int| 0 <= i < t.len() && t[i] == x;
                    assert(s[i] == x);
                }
            }
            assert(s.contains(x) ==> t.contains(x) || x == s.last()) by {
                if s.contains(x) {
                    let i = choose|i: int| 0 <= i < s.len() && s[i] == x;
                    if i < t.len() {
                        assert(t[i] == x);
                    }
                }
            }
            assert(s[s.len() - 1] == s.last());
            if s.last() < limit {
                assert(f == g.push(s.last()));
                if f.contains(x) {
                    let i = choose|i: int| 0 <= i < f.len() && f[i] == x;
                    if i < g.len() {
                        assert(g[i] == x);
                        assert(g.contains(x));
                    }
                }
                if g.contains(x) {
                    let i = choose|i: int| 0 <= i < g.len() && g[i] == x;
                    assert(f[i] == x);
                }
                if x == s.last() {
                    assert(f[f.len() - 1] == x);
                }
            }
        }
        assert forall|i: int, j: int| 0 <= i < j < f.len() implies #[trigger] f[i]
            < #[trigger] f[j] by {
            if s.last() < limit {
                assert(f == g.push(s.last()));
                if j == g.len() {
                    assert(g.contains(g[i]));
                    assert(t.contains(g[i]));
                    let k = choose|k: int| 0 <= k < t.len() && t[k] == g[i];
                    assert(s[k] < s[s.len() - 1]);
                }
            }
        }
    } else {
        assert(starts_below(s, limit) =~= Seq::<usize>::empty());
    }
}

/// Which split of a dataset is read.
#[derive(Clone, Copy, PartialEq, Eq, Structural)]
pub enum DatasetType {
    Training,
    Validation,
}

/// A token sequence in two parts, with what training reads beside the tokens.
pub struct Dataset {
    pub train_data: Vec<u32>,
    pub train_size: usize,
    pub validation_data: Vec<u32>,
    pub validation_size: usize,
    pub rng: StdRng,
    /// Marks the training tokens that belong to an answer, when known.
    pub train_mask: Option<Vec<bool>>,
    /// Marks the validation tokens that belong to an answer, when known.
    pub validation_mask: Option<Vec<bool>>,
    /// The offsets from which training windows may start, when restricted.
    pub train_aligned_starts: Option<Vec<usize>>,
}

/// The view of an optional list.
pub open spec fn opt_list<T>(v: Option<Vec<T>>) -> Option<Seq<T>> {
    match v {
        Some(x) => Some(x@),
        None => None,
    }
}

/// What `get_batch` and its kin say where a window does not fit.
pub open spec fn window_error() -> ErrorView {
    ErrorView::Dataset("Batch size exceeds dataset size"@)
}

/// What the random batches say where the split is too short for a window.
pub open spec fn split_error(total: int, block: int) -> ErrorView {
    ErrorView::Dataset(
        "dataset split has "@ + decimal(total as nat) + " tokens, too few for block_size "@
            + decimal(block as nat) + " (need > block_size)"@,
    )
}

/// What the random batches say where no window is asked for.
pub open spec fn no_rows_error() -> ErrorView {
    ErrorView::Candle("stack expects at least one tensor"@)
}

/// What the constructors say where a mask does not fit the tokens.
pub open spec fn mask_error(mask: int, data: int) -> ErrorView {
    ErrorView::Dataset(
        "answer_mask length "@ + decimal(mask as nat) + " != data length "@ + decimal(data as nat),
    )
}

/// What the constructors say where the training part is longer than the whole.
pub open spec fn split_point_error(train: int, data: int) -> ErrorView {
    ErrorView::Candle(
        "narrow invalid args start + len > dim_len: ["@ + decimal(data as nat)
            + "], dim: 0, start: 0, len:"@ + decimal(train as nat),
    )
}

/// The inputs of the windows that start at `starts`.
pub open spec fn input_rows(data: Seq<u32>, block: int, starts: Seq<usize>) -> Seq<Seq<u32>> {
    starts.map_values(|s: usize| data.subrange(s as int, s + block))
}

/// The targets of the windows that start at `starts`: the inputs one further.
pub open spec fn target_rows(data: Seq<u32>, block: int, starts: Seq<usize>) -> Seq<Seq<u32>> {
    starts.map_values(|s: usize| data.subrange(s + 1, s + block + 1))
}

/// The marks of the targets of one window, all set where there is no mask.
pub open spec fn window_marks(mask: Option<Seq<bool>>, start: int, block: int) -> Seq<bool> {
    match mask {
        Some(m) => m.subrange(start + 1, start + block + 1),
        None => Seq::new(block as nat, |i: int| true),
    }
}

/// The marks of the targets of the windows that start at `starts`.
pub open spec fn mark_rows(
    mask: Option<Seq<bool>>,
    block: int,
    starts: Seq<usize>,
) -> Seq<Seq<bool>> {
    starts.map_values(|s: usize| window_marks(mask, s as int, block))
}

/// The rows of a table.
pub open spec fn rows<T>(v: Seq<Vec<T>>) -> Seq<Seq<T>> {
    v.map_values(|r: Vec<T>| r@)
}

impl Dataset {
    /// The tokens of a split.
    pub open spec fn tokens(&self, kind: DatasetType) -> Seq<u32> {
        match kind {
            DatasetType::Training => self.train_data@,
            DatasetType::Validation => self.validation_data@,
        }
    }

    /// The mask of a split.
    pub open spec fn mask(&self, kind: DatasetType) -> Option<Seq<bool>> {
        match kind {
            DatasetType::Training => opt_list(self.train_mask),
            DatasetType::Validation => opt_list(self.validation_mask),
        }
    }

    /// The sizes are those of the splits, and a mask has the length of its
    /// split.
    pub open spec fn well_formed(&self) -> bool {
        &&& self.train_size == self.train_data@.len()
        &&& self.validation_size == self.validation_data@.len()
        &&& self.train_mask matches Some(m) ==> m@.len() == self.train_size
        &&& self.validation_mask matches Some(m) ==> m@.len() == self.validation_size
    }

    /// The pool from which window starts are drawn: the aligned starts that
    /// leave room for a window, for training alone.
    pub open spec fn start_pool(&self, kind: DatasetType, block: int) -> Option<Seq<usize>> {
        match (kind, self.train_aligned_starts) {
            (DatasetType::Training, Some(starts)) => Some(
                starts_below(starts@, (self.train_size - block) as usize),
            ),
            _ => None,
        }
    }

    /// The window starts that the next draw of `count` windows gives, and the
    /// state of the generator after it.
    pub open spec fn next_starts(&self, kind: DatasetType, block: usize, count: nat) -> (
        Seq<usize>,
        Seq<u32>,
    ) {
        window_starts(
            rng_state(self.rng),
            self.tokens(kind).len() as usize,
            block,
            self.start_pool(kind, block as int),
            count,
        )
    }

    /// Whether two datasets differ in nothing but their generators.
    pub open spec fn same_data(&self, other: &Dataset) -> bool {
        &&& self.train_data == other.train_data
        &&& self.train_size == other.train_size
        &&& self.validation_data == other.validation_data
        &&& self.validation_size == other.validation_size
        &&& self.train_mask == other.train_mask
        &&& self.validation_mask == other.validation_mask
        &&& self.train_aligned_starts == other.train_aligned_starts
    }

    /// Splits `data` behind its first `train_size` tokens, with a generator
    /// seeded from the operating system.
    pub fn new(data: Vec<u32>, train_size: usize) -> (r: Result<Self, SmolError>)
        ensures
            match r {
                Ok(d) => d.well_formed() && train_size <= data@.len() && d.train_data@
                    == data@.take(train_size as int) && d.validation_data@ == data@.skip(
                    train_size as int,
                ) && d.train_mask is None && d.validation_mask is None
                    && d.train_aligned_starts is None,
                Err(e) => train_size > data@.len() && e@ == split_point_error(
                    train_size as int,
                    data@.len() as int,
                ),
            },
    {
        Self::with_rng(data, train_size, entropy_rng())
    }

    /// Splits `data` behind its first `train_size` tokens.
    pub fn with_rng(data: Vec<u32>, train_size: usize, rng: StdRng) -> (r: Result<Self, SmolError>)
        ensures
            match r {
                Ok(d) => d.well_formed() && train_size <= data@.len() && d.train_data@
                    == data@.take(train_size as int) && d.validation_data@ == data@.skip(
                    train_size as int,
                ) && d.train_mask is None && d.validation_mask is None
                    && d.train_aligned_starts is None && d.rng == rng,
                Err(e) => train_size > data@.len() && e@ == split_point_error(
                    train_size as int,
                    data@.len() as int,
                ),
            },
    {
        Self::with_rng_and_mask(data, None, train_size, rng)
    }

    /// Splits `data` and its mask behind the first `train_size` entries.
    pub fn with_rng_and_mask(
        data: Vec<u32>,
        answer_mask: Option<Vec<bool>>,
        train_size: usize,
        rng: StdRng,
    ) -> (r: Result<Self, SmolError>)
        ensures
            match r {
                Ok(d) => d.well_formed() && train_size <= data@.len() && d.train_data@
                    == data@.take(train_size as int) && d.validation_data@ == data@.skip(
                    train_size as int,
                ) && split_mask(d, opt_list(answer_mask), train_size as int, data@.len() as int)
                    && d.train_aligned_starts is None && d.rng == rng,
                Err(e) => e@ == if train_size > data@.len() {
                    split_point_error(train_size as int, data@.len() as int)
                } else {
                    mask_error(answer_mask->0@.len() as int, data@.len() as int)
                } && (train_size > data@.len() || (answer_mask is Some && answer_mask->0@.len()
                    != data@.len())),
            },
    {
        Self::with_rng_and_mask_aligned(data, answer_mask, None, train_size, rng)
    }

    /// Splits `data` and its mask behind the first `train_size` entries, and
    /// keeps the line starts that fall into the training split.
    pub fn with_rng_and_mask_aligned(
        data: Vec<u32>,
        answer_mask: Option<Vec<bool>>,
        fact_boundaries: Option<Vec<usize>>,
        train_size: usize,
        rng: StdRng,
    ) -> (r: Result<Self, SmolError>)
        ensures
            match r {
                Ok(d) => d.well_formed() && train_size <= data@.len() && d.train_data@
                    == data@.take(train_size as int) && d.validation_data@ == data@.skip(
                    train_size as int,
                ) && split_mask(d, opt_list(answer_mask), train_size as int, data@.len() as int)
                    && opt_list(d.train_aligned_starts) == (match fact_boundaries {
                    Some(b) => Some(starts_below(b@, train_size)),
                    None => None,
                }) && d.rng == rng,
                Err(e) => e@ == if train_size > data@.len() {
                    split_point_error(train_size as int, data@.len() as int)
                } else {
                    mask_error(answer_mask->0@.len() as int, data@.len() as int)
                } && (train_size > data@.len() || (answer_mask is Some && answer_mask->0@.len()
                    != data@.len())),
            },
    {
        let data_size: usize = data.len();
        if train_size > data_size {
            let mut m: String = "narrow invalid args start + len > dim_len: [".to_owned();
            push_decimal(&mut m, data_size as u64);
            m.append("], dim: 0, start: 0, len:");
            push_decimal(&mut m, train_size as u64);
            return Err(SmolError::CandleError(m));
        }
        let mut train_data: Vec<u32> = data;
        let validation_data: Vec<u32> = train_data.split_off(train_size);
        let (train_mask, validation_mask) = match answer_mask {
            Some(mask) => {
                if mask.len() != data_size {
                    let mut m: String = "answer_mask length ".to_owned();
                    push_decimal(&mut m, mask.len() as u64);
                    m.append(" != data length ");
                    push_decimal(&mut m, data_size as u64);
                    return Err(SmolError::DatasetError(m));
                }
                let mut first: Vec<bool> = mask;
                let rest: Vec<bool> = first.split_off(train_size);
                (Some(first), Some(rest))
            },
            None => (None, None),
        };
        let train_aligned_starts: Option<Vec<usize>> = match fact_boundaries {
            Some(b) => Some(keep_below(&b, train_size)),
            None => None,
        };
        let d: Dataset = Dataset {
            train_data,
            train_size,
            validation_data,
            validation_size: data_size - train_size,
            rng,
            train_mask,
            validation_mask,
            train_aligned_starts,
        };
        proof {
            assert(d.train_data@ =~= data@.take(train_size as int));
            assert(d.validation_data@ =~= data@.skip(train_size as int));
            if answer_mask is Some {
                assert(d.train_mask->0@ =~= answer_mask->0@.take(train_size as int));
                assert(d.validation_mask->0@ =~= answer_mask->0@.skip(train_size as int));
            }
        }
        Ok(d)
    }

    /// The input and the target of the window of `block_size` tokens that
    /// starts at `start_index`. The target is the input one token further.
    pub fn get_batch(&self, kind: DatasetType, start_index: usize, block_size: usize) -> (r: Result<
        (Vec<u32>, Vec<u32>),
        SmolError,
    >)
        requires
            self.well_formed(),
        ensures
            match r {
                Ok((x, y)) => start_index + block_size < self.tokens(kind).len() && x@
                    == self.tokens(kind).subrange(start_index as int, start_index + block_size)
                    && y@ == self.tokens(kind).subrange(
                    start_index + 1,
                    start_index + block_size + 1,
                ),
                Err(e) => start_index + block_size >= self.tokens(kind).len() && e@
                    == window_error(),
            },
    {
        let data: &Vec<u32> = match kind {
            DatasetType::Training => &self.train_data,
            DatasetType::Validation => &self.validation_data,
        };
        if start_index >= data.len() || block_size >= data.len() - start_index {
            return Err(SmolError::dataset_error("Batch size exceeds dataset size"));
        }
        Ok(
            (
                copy_part(data, start_index, start_index + block_size),
                copy_part(data, start_index + 1, start_index + block_size + 1),
            ),
        )
    }

    /// As `get_batch`, with the marks of the target, all set where the split
    /// has no mask.
    pub fn get_batch_masked(
        &self,
        kind: DatasetType,
        start_index: usize,
        block_size: usize,
    ) -> (r: Result<(Vec<u32>, Vec<u32>, Vec<bool>), SmolError>)
        requires
            self.well_formed(),
        ensures
            match r {
                Ok((x, y, m)) => start_index + block_size < self.tokens(kind).len() && x@
                    == self.tokens(kind).subrange(start_index as int, start_index + block_size)
                    && y@ == self.tokens(kind).subrange(
                    start_index + 1,
                    start_index + block_size + 1,
                ) && m@ == window_marks(self.mask(kind), start_index as int, block_size as int),
                Err(e) => start_index + block_size >= self.tokens(kind).len() && e@
                    == window_error(),
            },
    {
        let mask: &Option<Vec<bool>> = match kind {
            DatasetType::Training => &self.train_mask,
            DatasetType::Validation => &self.validation_mask,
        };
        match self.get_batch(kind, start_index, block_size) {
            Err(e) => Err(e),
            Ok((x, y)) => {
                let m: Vec<bool> = match mask {
                    Some(marks) => copy_part(marks, start_index + 1, start_index + block_size + 1),
                    None => all_marks(block_size),
                };
                Ok((x, y, m))
            },
        }
    }

    fn sample_start_indices(&mut self, kind: DatasetType, block_size: usize, count: usize) -> (r:
        Vec<usize>)
        requires
            old(self).well_formed(),
            old(self).tokens(kind).len() > block_size,
        ensures
            final(self).same_data(old(self)),
            (r@, rng_state(final(self).rng)) == old(self).next_starts(
                kind,
                block_size,
                count as nat,
            ),
            r@.len() == count,
            forall|i: int|
                0 <= i < r@.len() ==> #[trigger] r@[i] + block_size < old(self).tokens(kind).len(),
    {
        let total: usize = match kind {
            DatasetType::Training => self.train_size,
            DatasetType::Validation => self.validation_size,
        };
        let pool: Option<Vec<usize>> = match kind {
            DatasetType::Training => match &self.train_aligned_starts {
                Some(starts) => Some(keep_below(starts, total - block_size)),
                None => None,
            },
            DatasetType::Validation => None,
        };
        match &pool {
            Some(p) => {
                let r: Vec<usize> = sample_window_starts(
                    &mut self.rng,
                    total,
                    block_size,
                    Some(p),
                    count,
                );
                proof {
                    assert forall|i: int| 0 <= i < r@.len() implies #[trigger] r@[i] + block_size
                        < total by {
                        if p@.len() > 0 {
                            let k = choose|k: int| 0 <= k < p@.len() && p@[k] == r@[i];
                            assert(p@[k] == r@[i]);
                        }
                    }
                }
                r
            },
            None => sample_window_starts(&mut self.rng, total, block_size, None, count),
        }
    }

    /// The inputs and targets of `num_batches` windows at random starts.
    pub fn get_random_batches(
        &mut self,
        kind: DatasetType,
        block_size: usize,
        num_batches: usize,
    ) -> (r: Result<(Vec<Vec<u32>>, Vec<Vec<u32>>), SmolError>)
        requires
            old(self).well_formed(),
        ensures
            final(self).same_data(old(self)),
            old(self).tokens(kind).len() <= block_size ==> fails_with(
                r,
                split_error(old(self).tokens(kind).len() as int, block_size as int),
            ) && final(self).rng == old(self).rng,
            old(self).tokens(kind).len() > block_size && num_batches == 0 ==> fails_with(
                r,
                no_rows_error(),
            ),
            old(self).tokens(kind).len() > block_size && num_batches > 0 ==> r is Ok,
            match r {
                Ok((xs, ys)) => {
                    let drawn = old(self).next_starts(kind, block_size, num_batches as nat);
                    &&& rows(xs@) == input_rows(
                        old(self).tokens(kind),
                        block_size as int,
                        drawn.0,
                    )
                    &&& rows(ys@) == target_rows(
                        old(self).tokens(kind),
                        block_size as int,
                        drawn.0,
                    )
                    &&& rng_state(final(self).rng) == drawn.1
                },
                Err(_) => rng_state(final(self).rng) == rng_state(old(self).rng),
            },
    {
        match self.get_random_batches_masked(kind, block_size, num_batches) {
            Ok((xs, ys, _ms)) => Ok((xs, ys)),
            Err(e) => Err(e),
        }
    }

    /// As `get_random_batches`, with the marks of the targets.
    pub fn get_random_batches_masked(
        &mut self,
        kind: DatasetType,
        block_size: usize,
        num_batches: usize,
    ) -> (r: Result<(Vec<Vec<u32>>, Vec<Vec<u32>>, Vec<Vec<bool>>), SmolError>)
        requires
            old(self).well_formed(),
        ensures
            final(self).same_data(old(self)),
            old(self).tokens(kind).len() <= block_size ==> fails_with(
                r,
                split_error(old(self).tokens(kind).len() as int, block_size as int),
            ) && final(self).rng == old(self).rng,
            old(self).tokens(kind).len() > block_size && num_batches == 0 ==> fails_with(
                r,
                no_rows_error(),
            ),
            old(self).tokens(kind).len() > block_size && num_batches > 0 ==> r is Ok,
            match r {
                Ok((xs, ys, ms)) => {
                    let drawn = old(self).next_starts(kind, block_size, num_batches as nat);
                    &&& rows(xs@) == input_rows(
                        old(self).tokens(kind),
                        block_size as int,
                        drawn.0,
                    )
                    &&& rows(ys@) == target_rows(
                        old(self).tokens(kind),
                        block_size as int,
                        drawn.0,
                    )
                    &&& rows(ms@) == mark_rows(old(self).mask(kind), block_size as int, drawn.0)
                    &&& rng_state(final(self).rng) == drawn.1
                },
                Err(_) => rng_state(final(self).rng) == rng_state(old(self).rng),
            },
    {
        let total: usize = match kind {
            DatasetType::Training => self.train_size,
            DatasetType::Validation => self.validation_size,
        };
        if total <= block_size {
            let mut m: String = "dataset split has ".to_owned();
            push_decimal(&mut m, total as u64);
            m.append(" tokens, too few for block_size ");
            push_decimal(&mut m, block_size as u64);
            m.append(" (need > block_size)");
            return Err(SmolError::DatasetError(m));
        }
        if num_batches == 0 {
            return Err(SmolError::CandleError("stack expects at least one tensor".to_owned()));
        }
        let starts: Vec<usize> = self.sample_start_indices(kind, block_size, num_batches);
        Ok(self.batches_at(kind, block_size, &starts))
    }

    /// The inputs, targets and marks of the windows that start at `starts`.
    pub fn batches_at(&self, kind: DatasetType, block_size: usize, starts: &Vec<usize>) -> (r: (
        Vec<Vec<u32>>,
        Vec<Vec<u32>>,
        Vec<Vec<bool>>,
    ))
        requires
            self.well_formed(),
            forall|i: int|
                0 <= i < starts@.len() ==> #[trigger] starts@[i] + block_size < self.tokens(
                    kind,
                ).len(),
        ensures
            rows(r.0@) == input_rows(self.tokens(kind), block_size as int, starts@),
            rows(r.1@) == target_rows(self.tokens(kind), block_size as int, starts@),
            rows(r.2@) == mark_rows(self.mask(kind), block_size as int, starts@),
    {
        let mut xs: Vec<Vec<u32>> = Vec::new();
        let mut ys: Vec<Vec<u32>> = Vec::new();
        let mut ms: Vec<Vec<bool>> = Vec::new();
        let mut i: usize = 0;
        while i < starts.len()
            invariant
                i <= starts.len(),
                self.well_formed(),
                forall|k: int|
                    0 <= k < starts@.len() ==> #[trigger] starts@[k] + block_size < self.tokens(
                        kind,
                    ).len(),
                xs@.len() == i,
                ys@.len() == i,
                ms@.len() == i,
                forall|k: int|
                    0 <= k < i ==> (#[trigger] xs@[k])@ == self.tokens(kind).subrange(
                        starts@[k] as int,
                        starts@[k] + block_size,
                    ),
                forall|k: int|
                    0 <= k < i ==> (#[trigger] ys@[k])@ == self.tokens(kind).subrange(
                        starts@[k] + 1,
                        starts@[k] + block_size + 1,
                    ),
                forall|k: int|
                    0 <= k < i ==> (#[trigger] ms@[k])@ == window_marks(
                        self.mask(kind),
                        starts@[k] as int,
                        block_size as int,
                    ),
            decreases starts.len() - i,
        {
            let s: usize = starts[i];
            if let Ok((x, y, m)) = self.get_batch_masked(kind, s, block_size) {
                xs.push(x);
                ys.push(y);
                ms.push(m);
            }
            i += 1;
        }
        proof {
            assert(rows(xs@) =~= input_rows(self.tokens(kind), block_size as int, starts@));
            assert(rows(ys@) =~= target_rows(self.tokens(kind), block_size as int, starts@));
            assert(rows(ms@) =~= mark_rows(self.mask(kind), block_size as int, starts@));
        }
        (xs, ys, ms)
    }
}

/// The rows of a batch line up: the input at a place is the token so far behind
/// the start of the window, and the target the token behind that one, which is
/// the next input.
pub proof fn law_targets_follow_inputs(
    data: Seq<u32>,
    block: int,
    starts: Seq<usize>,
    i: int,
    t: int,
)
    requires
        0 <= i < starts.len(),
        starts[i] + block < data.len(),
        0 <= t < block,
    ensures
        input_rows(data, block, starts).len() == starts.len(),
        target_rows(data, block, starts).len() == starts.len(),
        input_rows(data, block, starts)[i].len() == block,
        target_rows(data, block, starts)[i].len() == block,
        input_rows(data, block, starts)[i][t] == data[starts[i] + t],
        target_rows(data, block, starts)[i][t] == data[starts[i] + t + 1],
        t + 1 < block ==> target_rows(data, block, starts)[i][t] == input_rows(
            data,
            block,
            starts,
        )[i][t + 1],
{
}

/// The marks of a batch are those of its targets, and all are set where there is
/// no mask.
pub proof fn law_marks_are_those_of_the_targets(
    mask: Option<Seq<bool>>,
    block: int,
    starts: Seq<usize>,
    i: int,
    t: int,
)
    requires
        0 <= i < starts.len(),
        mask matches Some(m) ==> starts[i] + block < m.len(),
        0 <= t < block,
    ensures
        mark_rows(mask, block, starts).len() == starts.len(),
        mark_rows(mask, block, starts)[i].len() == block,
        mark_rows(mask, block, starts)[i] == window_marks(mask, starts[i] as int, block),
        mask matches Some(m) ==> mark_rows(mask, block, starts)[i][t] == m[starts[i] + t + 1],
        mask is None ==> mark_rows(mask, block, starts)[i][t],
{
}

/// The two masks of a dataset are the mask of the whole, cut where the tokens
/// are.
pub proof fn law_masks_are_cut_with_the_tokens(
    d: Dataset,
    m: Seq<bool>,
    train: int,
    data: int,
    i: int,
)
    requires
        0 <= train <= data,
        split_mask(d, Some(m), train, data),
        0 <= i < data,
    ensures
        m.len() == data,
        d.train_mask matches Some(a) && a@.len() == train && (i < train ==> a@[i] == m[i]),
        d.validation_mask matches Some(b) && b@.len() == data - train && (i >= train
            ==> b@[i - train] == m[i]),
{
}

/// Of a list of starts those that leave room are kept, in order, one by one.
pub proof fn law_starts_with_room_are_kept(starts: Seq<usize>, x: usize, limit: usize)
    ensures
        starts_below(Seq::empty(), limit) == Seq::<usize>::empty(),
        starts_below(starts.push(x), limit) == if x < limit {
            starts_below(starts, limit).push(x)
        } else {
            starts_below(starts, limit)
        },
{
    reveal(Seq::filter);
    assert(starts.push(x).drop_last() =~= starts);
}

/// Training windows of an aligned dataset start at the aligned starts that leave
/// room for a window and its last target; no others are restricted.
pub proof fn law_pool_is_for_training(d: Dataset, block: int, x: usize)
    requires
        0 <= block <= d.train_size,
    ensures
        d.start_pool(DatasetType::Validation, block) is None,
        d.train_aligned_starts is None ==> d.start_pool(DatasetType::Training, block) is None,
        d.train_aligned_starts matches Some(s) ==> (d.start_pool(
            DatasetType::Training,
            block,
        ) matches Some(p) && (p.contains(x) <==> s@.contains(x) && x + block < d.train_size)),
{
    if let Some(s) = d.train_aligned_starts {
        lemma_kept_starts(s@, (d.train_size - block) as usize, x);
    }
}

proof fn lemma_kept_starts(starts: Seq<usize>, limit: usize, x: usize)
    ensures
        starts_below(starts, limit).contains(x) <==> starts.contains(x) && x < limit,
    decreases starts.len(),
{
    reveal(Seq::filter);
    if starts.len() > 0 {
        let rest = starts.drop_last();
        let y = starts.last();
        lemma_kept_starts(rest, limit, x);
        law_starts_with_room_are_kept(rest, y, limit);
        assert(starts =~= rest.push(y));
        let f = starts_below(rest, limit);
        if rest.contains(x) {
            let k = choose|k: int| 0 <= k < rest.len() && rest[k] == x;
            assert(starts[k] == x);
        }
        if f.contains(x) && y < limit {
            let k = choose|k: int| 0 <= k < f.len() && f[k] == x;
            assert(f.push(y)[k] == x);
        }
        if starts.contains(x) && x != y {
            let k = choose|k: int| 0 <= k < starts.len() && starts[k] == x;
            assert(rest[k] == x);
        }
        if x == y {
            assert(starts[starts.len() - 1] == x);
            if y < limit {
                assert(f.push(y)[f.len() as int] == x);
            }
        }
        if y < limit && f.push(y).contains(x) && x != y {
            let k = choose|k: int| 0 <= k < f.push(y).len() && f.push(y)[k] == x;
            assert(f[k] == x);
        }
    }
}

/// Draws follow each other: so many draws and then so many more are as many
/// draws at once, and one draw is the one that the generator gives. Starts are
/// drawn by place from a pool that is not empty, and otherwise from all offsets
/// that leave room.
pub proof fn law_starts_are_drawn_in_turn(
    state: Seq<u32>,
    total: usize,
    block: usize,
    pool: Seq<usize>,
    a: nat,
    b: nat,
)
    requires
        block <= total,
    ensures
        ({
            let n = (total - block) as usize;
            let first = window_starts(state, total, block, None, a);
            let second = window_starts(first.1, total, block, None, b);
            &&& window_starts(state, total, block, None, a + b) == (
                first.0 + second.0,
                second.1,
            )
            &&& window_starts(state, total, block, None, 0) == (Seq::<usize>::empty(), state)
            &&& window_starts(state, total, block, None, 1) == (
                seq![drawn_below(state, n).0],
                drawn_below(state, n).1,
            )
            &&& window_starts(state, total, block, Some(Seq::empty()), a) == first
        }),
        pool.len() > 0 && pool.len() <= usize::MAX ==> {
            let all = window_starts(state, total, block, Some(pool), a);
            let places = window_starts(state, pool.len() as usize, 0, None, a);
            &&& all.1 == places.1
            &&& all.0.len() == places.0.len()
            &&& forall|i: int| 0 <= i < all.0.len() ==> #[trigger] all.0[i] == pool[places.0[i]
                as int]
        },
{
    let n = (total - block) as usize;
    lemma_draws_add(state, n, a, b);
    reveal_with_fuel(draws_below, 2);
    assert(draws_below(state, n, 1).0 =~= seq![drawn_below(state, n).0]);
}

proof fn lemma_draws_add(state: Seq<u32>, n: usize, a: nat, b: nat)
    ensures
        draws_below(state, n, a + b) == ({
            let first = draws_below(state, n, a);
            let second = draws_below(first.1, n, b);
            (first.0 + second.0, second.1)
        }),
    decreases b,
{
    let first = draws_below(state, n, a);
    if b == 0 {
        assert(first.0 + draws_below(first.1, n, 0).0 =~= first.0);
    } else {
        lemma_draws_add(state, n, a, (b - 1) as nat);
        assert((a + b - 1) as nat == a + (b - 1) as nat);
        let second = draws_below(first.1, n, (b - 1) as nat);
        let last = drawn_below(second.1, n);
        assert((first.0 + second.0).push(last.0) =~= first.0 + second.0.push(last.0));
    }
}

/// An example window reads like a stretch of the corpus with a character behind
/// it; an aligned one starts at the beginning or behind a newline.
pub proof fn law_example_window_is_a_stretch(corpus: Seq<char>, block: int, w: Seq<char>) -> (x:
    int)
    requires
        is_window(corpus, block, w) || is_aligned_window(corpus, block, w),
        block >= 0,
    ensures
        0 <= x < corpus.len() - block,
        w == corpus.subrange(x, x + block),
        is_aligned_window(corpus, block, w) && x > 0 ==> corpus[x - 1] == '\n',
{
    if is_aligned_window(corpus, block, w) {
        choose|x: int|
            #[trigger] is_fact_boundary(corpus, x) && x < corpus.len() - block && w
                == corpus.subrange(x, x + block)
    } else {
        choose|x: int|
            0 <= x < corpus.len() - block && w == #[trigger] corpus.subrange(x, x + block)
    }
}

/// Example windows are stretches of the corpus: each holds the characters from
/// its start on.
pub proof fn law_windows_are_stretches(
    corpus: Seq<char>,
    block: int,
    starts: Seq<usize>,
    i: int,
    t: int,
)
    requires
        0 <= i < starts.len(),
        0 <= t < block,
        starts[i] + block <= corpus.len(),
    ensures
        windows_at(corpus, block, starts).len() == starts.len(),
        windows_at(corpus, block, starts)[i].len() == block,
        windows_at(corpus, block, starts)[i][t] == corpus[starts[i] + t],
{
}

/// Whether the masks of `d` are the two parts of `mask`.
pub open spec fn split_mask(d: Dataset, mask: Option<Seq<bool>>, train: int, data: int) -> bool {
    match mask {
        Some(m) => m.len() == data && opt_list(d.train_mask) == Some(m.take(train)) && opt_list(
            d.validation_mask,
        ) == Some(m.skip(train)),
        None => d.train_mask is None && d.validation_mask is None,
    }
}

fn all_marks(n: usize) -> (r: Vec<bool>)
    ensures
        r@ == Seq::new(n as nat, |i: int| true),
{
    let mut out: Vec<bool> = Vec::new();
    let mut i: usize = 0;
    while i < n
        invariant
            i <= n,
            out@ == Seq::new(i as nat, |k: int| true),
        decreases n - i,
    {
        out.push(true);
        i += 1;
        assert(out@ =~= Seq::new(i as nat, |k: int| true));
    }
    out
}

/// What a window teaches: for each of its positions, the tokens up to it and the
/// token that follows them.
pub fn window_lessons(x: &Vec<u32>, y: &Vec<u32>) -> (r: Vec<(Vec<u32>, u32)>)
    requires
        x@.len() == y@.len(),
    ensures
        r@.len() == x@.len(),
        forall|t: int|
            0 <= t < r@.len() ==> (#[trigger] r@[t]).0@ == x@.take(t + 1) && r@[t].1 == y@[t],
{
    let mut out: Vec<(Vec<u32>, u32)> = Vec::new();
    let mut t: usize = 0;
    while t < x.len()
        invariant
            t <= x.len(),
            x@.len() == y@.len(),
            out@.len() == t,
            forall|k: int|
                0 <= k < t ==> (#[trigger] out@[k]).0@ == x@.take(k + 1) && out@[k].1 == y@[k],
        decreases x.len() - t,
    {
        let input: Vec<u32> = copy_part(x, 0, t + 1);
        assert(input@ =~= x@.take(t + 1));
        out.push((input, y[t]));
        t += 1;
    }
    out
}

/// Whether some token of a batch counts toward the loss. Where none does, the
/// loss is taken over all tokens.
pub fn any_counted(mask: &Vec<Vec<bool>>) -> (r: bool)
    ensures
        r == exists|i: int, j: int|
            0 <= i < mask@.len() && 0 <= j < mask@[i]@.len() && #[trigger] mask@[i]@[j],
{
    let mut i: usize = 0;
    while i < mask.len()
        invariant
            i <= mask.len(),
            forall|a: int, j: int|
                0 <= a < i && 0 <= j < mask@[a]@.len() ==> !#[trigger] mask@[a]@[j],
        decreases mask.len() - i,
    {
        let mut k: usize = 0;
        while k < mask[i].len()
            invariant
                i < mask.len(),
                k <= mask@[i as int]@.len(),
                forall|j: int| 0 <= j < k ==> !#[trigger] mask@[i as int]@[j],
            decreases mask@[i as int]@.len() - k,
        {
            if mask[i][k] {
                assert(mask@[i as int]@[k as int]);
                return true;
            }
            k += 1;
        }
        i += 1;
    }
    false
}

/// Example windows are drawn with one seed, from all offsets that leave room or,
/// aligned, from the starts of lines that do.
pub proof fn law_example_windows_have_one_seed(
    corpus: Seq<char>,
    block: usize,
    count: nat,
    pool: Seq<usize>,
    i: int,
)
    requires
        block < corpus.len() <= usize::MAX,
        is_aligned_pool(corpus, corpus.len() - block, pool),
        0 <= i < count,
    ensures
        ({
            let total = corpus.len() as usize;
            let state = seeded_state(0x53_4d_4f_4c_47_50_54);
            let anywhere = window_starts(state, total, block, None, count).0;
            let at_lines = window_starts(state, total, block, Some(pool), count).0;
            &&& example_windows(corpus, block, false, count) == windows_at(
                corpus,
                block as int,
                anywhere,
            )
            &&& example_windows(corpus, block, true, count) == windows_at(
                corpus,
                block as int,
                at_lines,
            )
        }),
        example_windows(corpus, block, false, 0).len() == 0,
{
    lemma_aligned_pool(corpus, corpus.len() - block, pool);
}

/// The pool of aligned starts are the beginning and the places behind a newline
/// that leave room, in order.
pub proof fn law_aligned_pool_holds_the_line_starts(
    corpus: Seq<char>,
    limit: int,
    pool: Seq<usize>,
    x: usize,
)
    requires
        is_aligned_pool(corpus, limit, pool),
    ensures
        pool.contains(x) <==> x < limit && (x == 0 || (x <= corpus.len() && corpus[x - 1] == '\n')),
        forall|i: int, j: int| 0 <= i < j < pool.len() ==> #[trigger] pool[i] < #[trigger] pool[j],
{
    if pool.contains(x) {
        let i = choose|i: int| 0 <= i < pool.len() && pool[i] == x;
        assert(is_fact_boundary(corpus, pool[i] as int));
    }
    if is_fact_boundary(corpus, x as int) && x < limit {
        let i = choose|i: int| 0 <= i < pool.len() && #[trigger] pool[i] == x;
        assert(pool[i] == x);
    }
}

/// The splits of a dataset are its two token lists with their masks, and the
/// windows of a split are drawn with the generator of the dataset.
pub proof fn law_splits_are_drawn_from(d: Dataset, kind: DatasetType, block: usize, count: nat)
    ensures
        d.tokens(DatasetType::Training) == d.train_data@,
        d.tokens(DatasetType::Validation) == d.validation_data@,
        d.train_mask matches Some(m) ==> d.mask(DatasetType::Training) == Some(m@),
        d.train_mask is None ==> d.mask(DatasetType::Training) is None,
        d.validation_mask matches Some(m) ==> d.mask(DatasetType::Validation) == Some(m@),
        d.validation_mask is None ==> d.mask(DatasetType::Validation) is None,
        d.next_starts(kind, block, count) == window_starts(
            rng_state(d.rng),
            d.tokens(kind).len() as usize,
            block,
            d.start_pool(kind, block as int),
            count,
        ),
{
}

} // verus!
