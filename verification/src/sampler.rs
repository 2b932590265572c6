//! Choosing the next token.
//!
//! Values are single-precision patterns. Comparing them is done here; the
//! arithmetic on them is handed in.

use crate::arith::{Numbers, Op};
use crate::ieee::{less, less_or_equal, single_le, single_lt, unit_fraction};
use crate::ieee::{law_magnitude_is_monotone, lemma_round_within, round_to_bits, single_magnitude};
use crate::ieee::SINGLE_FRACTION;
use crate::math::{softmax_inplace, vec_scale_inplace, vec_sum};
use crate::ranking::{argmax, is_ranking, law_ranking_is_complete, rank_indices, ranks_before};
use crate::ranking::scan_max;
use vstd::arithmetic::power2::{lemma2_to64, lemma2_to64_rest, lemma_pow2_adds, pow2};
use vstd::prelude::*;

verus! {

/// How tokens are sampled. Floats are single-precision patterns.
#[derive(Debug, Clone, Copy, PartialEq, Eq, Structural)]
pub struct SamplerConfig {
    /// Temperature for sampling (0.0 = greedy, higher = more random)
    pub temperature: u32,
    /// Top-K: keep only K most probable tokens (0 = disabled)
    pub top_k: usize,
    /// Top-P (nucleus): keep tokens with cumulative probability >= P
    pub top_p: u32,
    /// Repetition penalty: penalize repeated tokens
    pub repetition_penalty: u32,
    /// Repetition penalty window: how many recent tokens to consider
    pub repetition_window: usize,
    /// Random seed (for reproducibility)
    pub seed: u64,
}

impl SamplerConfig {
    /// Temperature 0.8, the 40 most probable tokens, nucleus 0.95, penalty 1.1 over
    /// 64 tokens, seed 12345.
    pub open spec fn standard() -> Self {
        SamplerConfig {
            temperature: 0x3F4C_CCCD,
            top_k: 40,
            top_p: 0x3F73_3333,
            repetition_penalty: 0x3F8C_CCCD,
            repetition_window: 64,
            seed: 12345,
        }
    }
}

impl Default for SamplerConfig {
    fn default() -> (r: Self)
        ensures
            r == SamplerConfig::standard(),
    {
        SamplerConfig {
            temperature: 0x3F4C_CCCD,
            top_k: 40,
            top_p: 0x3F73_3333,
            repetition_penalty: 0x3F8C_CCCD,
            repetition_window: 64,
            seed: 12345,
        }
    }
}

/// One in single precision.
pub const ONE: u32 = 0x3F80_0000;

/// The lowest value in single precision.
pub const NEGATIVE_INFINITY: u32 = 0xFF80_0000;

impl<F: Fn(Op<u32>) -> u32> Numbers<u32, F> {
    /// The numbers are single-precision patterns, with all operations.
    pub open spec fn single(&self) -> bool {
        self.total() && self.zero == 0 && self.one == ONE && self.lowest == NEGATIVE_INFINITY
    }
}

fn divide_each<F: Fn(Op<u32>) -> u32>(n: &Numbers<u32, F>, v: &mut Vec<u32>, c: u32)
    requires
        n.total(),
    ensures
        n.over_each(old(v)@, c, final(v)@),
{
    let ghost start = v@;
    let mut i: usize = 0;
    while i < v.len()
        invariant
            n.total(),
            i <= v@.len(),
            v@.len() == start.len(),
            start == old(v)@,
            forall|j: int| 0 <= j < i ==> n.gives(Op::Over(start[j], c), #[trigger] v@[j]),
            forall|j: int| i <= j < v@.len() ==> #[trigger] v@[j] == start[j],
        decreases v@.len() - i,
    {
        let y: u32 = n.run(Op::Over(v[i], c));
        v.set(i, y);
        i += 1;
    }
}

impl<F: Fn(Op<u32>) -> u32> Numbers<u32, F> {
    /// `out` holds the values over `c`.
    pub open spec fn over_each(&self, v: Seq<u32>, c: u32, out: Seq<u32>) -> bool {
        &&& out.len() == v.len()
        &&& forall|i: int| 0 <= i < v.len() ==> self.gives(Op::Over(v[i], c), #[trigger] out[i])
    }

    /// `out` is `v` times the inverse of its sum where that is positive, else `v`.
    pub open spec fn normalised(&self, v: Seq<u32>, out: Seq<u32>) -> bool {
        exists|s: u32| #[trigger]
            self.sums_to(v, s) && (if single_lt(0, s) {
                self.divided(v, s, out)
            } else {
                out == v
            })
    }

    fn renormalise(&self, probs: &mut Vec<u32>)
        requires
            self.single(),
        ensures
            self.normalised(old(probs)@, final(probs)@),
            final(probs)@.len() == old(probs)@.len(),
    {
        let sum: u32 = vec_sum(self, probs.as_slice());
        if less(0, sum) {
            let inv: u32 = self.run(Op::Over(self.one, sum));
            vec_scale_inplace(self, probs.as_mut_slice(), inv);
            assert(self.divided(old(probs)@, sum, probs@));
        }
    }

    /// `out` is `v` with the value of one token penalised: a positive one is divided
    /// by the penalty, any other is multiplied. Tokens without a value are passed
    /// over.
    pub open spec fn penalised_once(
        &self,
        v: Seq<u32>,
        penalty: u32,
        token: usize,
        out: Seq<u32>,
    ) -> bool {
        if token < v.len() {
            &&& out == v.update(token as int, out[token as int])
            &&& if single_lt(0, v[token as int]) {
                self.gives(Op::Over(v[token as int], penalty), out[token as int])
            } else {
                self.gives(Op::Times(v[token as int], penalty), out[token as int])
            }
        } else {
            out == v
        }
    }

    /// The values as they are penalised for one token after the other.
    pub open spec fn penalty_steps(
        &self,
        v: Seq<u32>,
        penalty: u32,
        tokens: Seq<usize>,
        t: Seq<Seq<u32>>,
    ) -> bool {
        &&& t.len() > 0
        &&& t[0] == v
        &&& forall|i: int|
            0 < i < t.len() ==> self.penalised_once(t[i - 1], penalty, tokens[i - 1], #[trigger] t[i])
    }

    /// `out` is `v` penalised for the tokens, one after the other.
    pub open spec fn penalised(
        &self,
        v: Seq<u32>,
        penalty: u32,
        tokens: Seq<usize>,
        out: Seq<u32>,
    ) -> bool {
        exists|t: Seq<Seq<u32>>| #[trigger]
            self.penalty_steps(v, penalty, tokens, t) && t.len() == tokens.len() + 1 && t.last()
                == out
    }
}

/// The last `n` of the tokens.
pub open spec fn last_tokens(tokens: Seq<usize>, n: nat) -> Seq<usize> {
    if tokens.len() > n {
        tokens.skip(tokens.len() - n)
    } else {
        tokens
    }
}

/// The values of the tokens that the first `n` places of a ranking name; the others
/// are zero.
pub open spec fn named_by(v: Seq<u32>, order: Seq<usize>, n: int) -> Seq<u32> {
    Seq::new(
        v.len(),
        |i: int|
            if exists|a: int| 0 <= a < n && #[trigger] order[a] == i {
                v[i]
            } else {
                0u32
            },
    )
}

/// The first place of running sums that reaches `p`; `n` where none does.
pub open spec fn first_reaching(t: Seq<u32>, p: u32, n: nat, c: int) -> bool {
    &&& 0 <= c <= n
    &&& forall|i: int| 0 <= i < c ==> !single_le(p, #[trigger] t[i + 1])
    &&& c < n ==> single_le(p, t[c + 1])
}

/// Token `i` has a probability above zero, and the running sum reaches `r` with it.
pub open spec fn hit(v: Seq<u32>, t: Seq<u32>, r: u32, i: int) -> bool {
    single_lt(0, v[i]) && single_le(r, t[i + 1])
}

/// The token that `r` picks from probabilities with the running sums `t`: of those
/// above zero the first with which the sum reaches `r`, and the last one where none
/// does. Where no probability is above zero, any may be the first to reach `r`, and
/// where none does it is the last of all.
pub open spec fn picks(v: Seq<u32>, t: Seq<u32>, r: u32, token: int) -> bool {
    let n = v.len() as int;
    &&& 0 <= token < n
    &&& if exists|i: int| 0 <= i < n && #[trigger] hit(v, t, r, i) {
        hit(v, t, r, token) && forall|i: int| 0 <= i < token ==> !#[trigger] hit(v, t, r, i)
    } else if exists|i: int| 0 <= i < n && single_lt(0, #[trigger] v[i]) {
        single_lt(0, v[token]) && forall|i: int| token < i < n ==> !single_lt(0, #[trigger] v[i])
    } else {
        exists|c: int| #[trigger]
            first_reaching(t, r, v.len(), c) && token == (if c < n {
                c
            } else {
                n - 1
            })
    }
}

/// The values in the order of a ranking.
pub open spec fn in_order(v: Seq<u32>, order: Seq<usize>) -> Seq<u32> {
    Seq::new(order.len(), |a: int| v[order[a] as int])
}

/// Finds the first running sum that reaches `p`.
fn find_reaching<F: Fn(Op<u32>) -> u32>(n: &Numbers<u32, F>, v: &Vec<u32>, p: u32) -> (r: usize)
    requires
        n.single(),
    ensures
        n.reaches(v@, p, r as int),
{
    let mut sum: u32 = 0;
    let ghost mut t: Seq<u32> = seq![0u32];
    let mut i: usize = 0;
    while i < v.len()
        invariant
            i <= v@.len(),
            n.single(),
            n.running_sums(v@, t),
            t.len() == i + 1,
            t.last() == sum,
            forall|j: int| 0 <= j < i ==> !single_le(p, #[trigger] t[j + 1]),
        decreases v@.len() - i,
    {
        sum = n.run(Op::Plus(sum, v[i]));
        proof {
            t = t.push(sum);
        }
        if less_or_equal(p, sum) {
            assert(n.running_sums(v@, t));
            assert(first_reaching(t, p, v@.len(), i as int));
            return i;
        }
        i += 1;
    }
    assert(first_reaching(t, p, v@.len(), i as int));
    i
}

/// Picks the token that `r` draws.
fn pick_token<F: Fn(Op<u32>) -> u32>(n: &Numbers<u32, F>, v: &Vec<u32>, r: u32) -> (token: usize)
    requires
        n.single(),
        v@.len() > 0,
    ensures
        token < v@.len(),
        n.drawn(v@, r, token as int),
{
    let len: usize = v.len();
    let mut sum: u32 = 0;
    let ghost mut t: Seq<u32> = seq![0u32];
    let mut first_hit: usize = len;
    let mut last_kept: usize = len;
    let mut first_reached: usize = len;
    let mut i: usize = 0;
    while i < len
        invariant
            len == v@.len(),
            i <= len,
            n.single(),
            n.running_sums(v@, t),
            t.len() == i + 1,
            t.last() == sum,
            first_hit < i || first_hit == len,
            first_hit < i ==> hit(v@, t, r, first_hit as int),
            forall|j: int| 0 <= j < i && j < first_hit ==> !#[trigger] hit(v@, t, r, j),
            last_kept < i || last_kept == len,
            last_kept < i ==> single_lt(0, v@[last_kept as int]),
            forall|j: int|
                0 <= j < i && (last_kept < j || last_kept == len) ==> !single_lt(
                    0,
                    #[trigger] v@[j],
                ),
            first_reached < i || first_reached == len,
            first_reached < i ==> single_le(r, t[first_reached + 1]),
            forall|j: int| 0 <= j < i && j < first_reached ==> !single_le(r, #[trigger] t[j + 1]),
        decreases len - i,
    {
        let ghost before = t;
        sum = n.run(Op::Plus(sum, v[i]));
        proof {
            t = t.push(sum);
            assert forall|j: int| 0 <= j < i implies #[trigger] hit(v@, t, r, j) == hit(
                v@,
                before,
                r,
                j,
            ) by {
                assert(t[j + 1] == before[j + 1]);
            }
            assert forall|j: int| 0 <= j < i implies #[trigger] t[j + 1] == before[j + 1] by {}
        }
        let reached: bool = less_or_equal(r, sum);
        if reached && first_reached == len {
            first_reached = i;
        }
        if less(0, v[i]) {
            last_kept = i;
            if reached && first_hit == len {
                first_hit = i;
            }
        }
        i += 1;
    }
    let token: usize = if first_hit < len {
        first_hit
    } else if last_kept < len {
        last_kept
    } else if first_reached < len {
        first_reached
    } else {
        len - 1
    };
    proof {
        let c = first_reached as int;
        assert(first_reaching(t, r, v@.len(), c));
        if first_hit < len {
            assert(hit(v@, t, r, first_hit as int));
            assert(picks(v@, t, r, token as int));
        } else {
            assert forall|j: int| 0 <= j < len implies !#[trigger] hit(v@, t, r, j) by {}
            if last_kept < len {
                assert(single_lt(0, v@[last_kept as int]));
                assert(picks(v@, t, r, token as int));
            } else {
                assert forall|j: int| 0 <= j < len implies !single_lt(0, #[trigger] v@[j]) by {}
                assert(token == (if c < len {
                    c
                } else {
                    len - 1
                }));
                assert(picks(v@, t, r, token as int));
            }
        }
    }
    token
}

impl<F: Fn(Op<u32>) -> u32> Numbers<u32, F> {
    /// Adding up the values in turn, `c` is the first whose addition reaches `p`, or
    /// their number where none does.
    pub open spec fn reaches(&self, v: Seq<u32>, p: u32, c: int) -> bool {
        exists|t: Seq<u32>| #[trigger]
            self.running_sums(v, t) && t.len() == (if c < v.len() {
                c + 2
            } else {
                c + 1
            }) && first_reaching(t, p, v.len(), c)
    }

    /// `out` keeps the `k` largest of the values, of equal ones the first; the others are
    /// zero, and what is kept is normalised.
    pub open spec fn top_k_kept(&self, v: Seq<u32>, k: int, out: Seq<u32>) -> bool {
        exists|order: Seq<usize>| #[trigger]
            is_ranking(v, order) && self.normalised(named_by(v, order, k), out)
    }

    /// `out` keeps the fewest of the largest values whose sum reaches `p`; the others
    /// are zero, and what is kept is normalised.
    pub open spec fn top_p_kept(&self, v: Seq<u32>, p: u32, out: Seq<u32>) -> bool {
        exists|order: Seq<usize>, c: int|
            {
                &&& #[trigger] is_ranking(v, order)
                &&& #[trigger] self.reaches(in_order(v, order), p, c)
                &&& self.normalised(
                    named_by(
                        v,
                        order,
                        if c < v.len() {
                            c + 1
                        } else {
                            c
                        },
                    ),
                    out,
                )
            }
    }

    /// The token drawn by `r`, going by the running sums of the probabilities.
    pub open spec fn drawn(&self, v: Seq<u32>, r: u32, token: int) -> bool {
        exists|t: Seq<u32>| #[trigger]
            self.running_sums(v, t) && t.len() == v.len() + 1 && picks(v, t, r, token)
    }
}

/// Naming the first `k` places of a ranking keeps the values of `k` tokens, each as it
/// is; every other token gets zero, and none of them ranks before one that is kept.
pub proof fn law_most_probable_are_kept(v: Seq<u32>, order: Seq<usize>, k: int, i: int)
    requires
        is_ranking(v, order),
        0 <= k <= v.len() <= usize::MAX,
        0 <= i < v.len(),
    ensures
        exists|a: int|
            {
                &&& 0 <= a < v.len()
                &&& #[trigger] order[a] == i
                &&& named_by(v, order, k)[i] == (if a < k {
                    v[i]
                } else {
                    0
                })
                &&& a >= k ==> forall|b: int|
                    0 <= b < k ==> ranks_before(v, #[trigger] order[b] as int, i)
                &&& forall|b: int| 0 <= b < v.len() && #[trigger] order[b] == i ==> a == b
            },
{
    law_ranking_is_complete(v, order, i);
    let a = choose|a: int| 0 <= a < order.len() && #[trigger] order[a] == i;
    assert forall|b: int| 0 <= b < v.len() && #[trigger] order[b] == i implies a == b by {
        if a < b {
            assert(ranks_before(v, order[a] as int, order[b] as int));
        } else if b < a {
            assert(ranks_before(v, order[b] as int, order[a] as int));
        }
    }
    if a >= k {
        assert forall|b: int| 0 <= b < k implies ranks_before(v, #[trigger] order[b] as int, i) by {
            assert(ranks_before(v, order[b] as int, order[a] as int));
        }
    }
}

/// Only a token that was kept is drawn: where some probability is above zero, that of
/// the token drawn is.
pub proof fn law_drawn_tokens_are_kept<F: Fn(Op<u32>) -> u32>(
    ops: Numbers<u32, F>,
    v: Seq<u32>,
    r: u32,
    token: int,
)
    requires
        ops.drawn(v, r, token),
        exists|i: int| 0 <= i < v.len() && single_lt(0, #[trigger] v[i]),
    ensures
        0 <= token < v.len(),
        single_lt(0, v[token]),
{
}

/// The next state of the generator: three shifts, each folded in by exclusive or.
pub open spec fn next_state(s: u64) -> u64 {
    let a = s ^ (s << 13u64);
    let b = a ^ (a >> 7u64);
    b ^ (b << 17u64)
}

/// A state other than zero never becomes zero.
pub proof fn law_generator_does_not_die(s: u64)
    requires
        s != 0,
    ensures
        next_state(s) != 0,
{
    let a = s ^ (s << 13u64);
    let b = a ^ (a >> 7u64);
    assert(a != 0) by (bit_vector)
        requires
            s != 0,
            a == s ^ (s << 13u64),
    ;
    assert(b != 0) by (bit_vector)
        requires
            a != 0,
            b == a ^ (a >> 7u64),
    ;
    assert(b ^ (b << 17u64) != 0) by (bit_vector)
        requires
            b != 0,
    ;
}

/// The pattern of `state / 2^64`, rounded to double and then to single precision.
pub open spec fn is_fraction(state: u64, r: u32) -> bool {
    &&& r < 0x8000_0000
    &&& single_magnitude(r) == round_to_bits(round_to_bits(state as nat, 53), 24) * pow2(85)
}

/// A sampler: how it samples, and the state of its generator.
pub struct Sampler {
    config: SamplerConfig,
    /// Simple PRNG state (xorshift64)
    rng_state: u64,
}

/// What a sampler is.
#[verifier::ext_equal]
pub struct SamplerView {
    pub config: SamplerConfig,
    pub state: u64,
}

impl View for Sampler {
    type V = SamplerView;

    closed spec fn view(&self) -> SamplerView {
        SamplerView { config: self.config, state: self.rng_state }
    }
}

/// The values after the penalty for recent tokens, where there is one.
pub open spec fn after_penalty<F: Fn(Op<u32>) -> u32>(
    ops: Numbers<u32, F>,
    config: SamplerConfig,
    logits: Seq<u32>,
    recent: Seq<usize>,
    out: Seq<u32>,
) -> bool {
    if config.repetition_penalty != ONE && recent.len() > 0 {
        ops.penalised(
            logits,
            config.repetition_penalty,
            last_tokens(recent, config.repetition_window as nat),
            out,
        )
    } else {
        out == logits
    }
}

/// The probabilities: the values over the temperature, through softmax.
pub open spec fn probabilities<F: Fn(Op<u32>) -> u32>(
    ops: Numbers<u32, F>,
    config: SamplerConfig,
    v: Seq<u32>,
    out: Seq<u32>,
) -> bool {
    exists|w: Seq<u32>| #[trigger]
        ops.over_each(v, config.temperature, w) && ops.softmaxed(w, out)
}

/// The probabilities after only the most probable tokens are kept, where their
/// number is positive and below the vocabulary's.
pub open spec fn most_probable<F: Fn(Op<u32>) -> u32>(
    ops: Numbers<u32, F>,
    config: SamplerConfig,
    v: Seq<u32>,
    out: Seq<u32>,
) -> bool {
    if 0 < config.top_k < v.len() {
        ops.top_k_kept(v, config.top_k as int, out)
    } else {
        out == v
    }
}

/// The probabilities after only the nucleus is kept, where its threshold is strictly
/// between zero and one.
pub open spec fn nucleus<F: Fn(Op<u32>) -> u32>(
    ops: Numbers<u32, F>,
    config: SamplerConfig,
    v: Seq<u32>,
    out: Seq<u32>,
) -> bool {
    if single_lt(0, config.top_p) && single_lt(config.top_p, ONE) {
        ops.top_p_kept(v, config.top_p, out)
    } else {
        out == v
    }
}

/// The probabilities after the two filters.
pub open spec fn filtered<F: Fn(Op<u32>) -> u32>(
    ops: Numbers<u32, F>,
    config: SamplerConfig,
    v: Seq<u32>,
    out: Seq<u32>,
) -> bool {
    exists|w: Seq<u32>| #[trigger]
        most_probable(ops, config, v, w) && nucleus(ops, config, w, out)
}

/// A token is drawn from the probabilities of values, as the next random number has
/// it.
pub open spec fn draws<F: Fn(Op<u32>) -> u32>(
    ops: Numbers<u32, F>,
    before: SamplerView,
    v: Seq<u32>,
    after: SamplerView,
    out: Seq<u32>,
    token: int,
) -> bool {
    exists|p: Seq<u32>, r: u32|
        {
            &&& #[trigger] probabilities(ops, before.config, v, p)
            &&& filtered(ops, before.config, p, out)
            &&& after == (SamplerView { state: next_state(before.state), ..before })
            &&& #[trigger] is_fraction(after.state, r)
            &&& ops.drawn(out, r, token)
        }
}

/// A sampler in one state picks a token from logits and goes over to another state:
/// without a positive temperature the largest value and the same state, otherwise
/// the token that the next random number draws from the filtered probabilities.
/// `out` is what is left in place of the logits.
pub open spec fn samples<F: Fn(Op<u32>) -> u32>(
    ops: Numbers<u32, F>,
    before: SamplerView,
    logits: Seq<u32>,
    recent: Seq<usize>,
    after: SamplerView,
    out: Seq<u32>,
    token: int,
) -> bool {
    exists|v: Seq<u32>| #[trigger]
        after_penalty(ops, before.config, logits, recent, v) && if single_le(
            before.config.temperature,
            0,
        ) {
            after == before && out == v && token == scan_max(v, v.len())
        } else {
            draws(ops, before, v, after, out, token)
        }
}

impl Sampler {
    pub fn new(config: SamplerConfig) -> (r: Self)
        ensures
            r@ == (SamplerView { config, state: config.seed }),
    {
        Sampler { rng_state: config.seed, config }
    }

    /// Simple xorshift64 PRNG: a fraction between zero and one, as a single-precision
    /// pattern
    pub fn next_random(&mut self) -> (r: u32)
        ensures
            final(self)@ == (SamplerView { state: next_state(old(self)@.state), ..old(self)@ }),
            is_fraction(final(self)@.state, r),
    {
        let s: u64 = self.rng_state;
        let a: u64 = s ^ (s << 13u64);
        let b: u64 = a ^ (a >> 7u64);
        self.rng_state = b ^ (b << 17u64);
        unit_fraction(self.rng_state)
    }

    /// Apply repetition penalty
    fn apply_repetition_penalty<F: Fn(Op<u32>) -> u32>(
        &self,
        ops: &Numbers<u32, F>,
        logits: &mut Vec<u32>,
        recent_tokens: &[usize],
    )
        requires
            ops.single(),
        ensures
            final(logits)@.len() == old(logits)@.len(),
            ops.penalised(
                old(logits)@,
                self@.config.repetition_penalty,
                last_tokens(recent_tokens@, self@.config.repetition_window as nat),
                final(logits)@,
            ),
    {
        let penalty: u32 = self.config.repetition_penalty;
        let window: usize = self.config.repetition_window;
        let start: usize = if recent_tokens.len() > window {
            recent_tokens.len() - window
        } else {
            0
        };
        let ghost tokens = last_tokens(recent_tokens@, window as nat);
        let ghost mut t: Seq<Seq<u32>> = seq![logits@];
        let mut i: usize = start;
        while i < recent_tokens.len()
            invariant
                start <= i <= recent_tokens@.len(),
                tokens == last_tokens(recent_tokens@, window as nat),
                start == (if recent_tokens@.len() > window {
                    recent_tokens@.len() - window
                } else {
                    0
                }),
                ops.single(),
                logits@.len() == old(logits)@.len(),
                ops.penalty_steps(old(logits)@, penalty, tokens, t),
                t.len() == i - start + 1,
                t.last() == logits@,
            decreases recent_tokens@.len() - i,
        {
            let token: usize = recent_tokens[i];
            assert(token == tokens[i - start]);
            if token < logits.len() {
                let x: u32 = logits[token];
                let y: u32 = if less(0, x) {
                    ops.run(Op::Over(x, penalty))
                } else {
                    ops.run(Op::Times(x, penalty))
                };
                logits.set(token, y);
            }
            proof {
                assert(ops.penalised_once(t.last(), penalty, token, logits@));
                t = t.push(logits@);
            }
            i += 1;
        }
    }

    /// Keep only top K tokens, zero out the rest
    fn apply_top_k<F: Fn(Op<u32>) -> u32>(
        &self,
        ops: &Numbers<u32, F>,
        probs: &mut Vec<u32>,
        k: usize,
    )
        requires
            ops.single(),
            0 < k < old(probs)@.len(),
        ensures
            final(probs)@.len() == old(probs)@.len(),
            ops.top_k_kept(old(probs)@, k as int, final(probs)@),
    {
        let ghost v = probs@;
        let order = rank_indices(probs.as_slice());
        keep_named(probs, &order, k);
        ops.renormalise(probs);
        assert(is_ranking(v, order@));
    }

    /// Keep smallest set of tokens with cumulative probability >= p
    fn apply_top_p<F: Fn(Op<u32>) -> u32>(
        &self,
        ops: &Numbers<u32, F>,
        probs: &mut Vec<u32>,
        p: u32,
    )
        requires
            ops.single(),
        ensures
            final(probs)@.len() == old(probs)@.len(),
            ops.top_p_kept(old(probs)@, p, final(probs)@),
    {
        let ghost v = probs@;
        let order = rank_indices(probs.as_slice());
        let mut sorted: Vec<u32> = Vec::new();
        let mut a: usize = 0;
        while a < order.len()
            invariant
                a <= order@.len(),
                v == probs@,
                is_ranking(v, order@),
                sorted@.len() == a,
                forall|j: int| 0 <= j < a ==> #[trigger] sorted@[j] == v[order@[j] as int],
            decreases order@.len() - a,
        {
            sorted.push(probs[order[a]]);
            a += 1;
        }
        assert(sorted@ =~= in_order(v, order@));
        let c: usize = find_reaching(ops, &sorted, p);
        let cutoff: usize = if c < sorted.len() {
            c + 1
        } else {
            c
        };
        keep_named(probs, &order, cutoff);
        ops.renormalise(probs);
        assert(is_ranking(v, order@));
        assert(ops.reaches(in_order(v, order@), p, c as int));
    }

    /// Sample from a probability distribution
    fn sample_from_distribution<F: Fn(Op<u32>) -> u32>(
        &mut self,
        ops: &Numbers<u32, F>,
        probs: &Vec<u32>,
    ) -> (token: usize)
        requires
            ops.single(),
            probs@.len() > 0,
        ensures
            final(self)@ == (SamplerView { state: next_state(old(self)@.state), ..old(self)@ }),
            token < probs@.len(),
            exists|r: u32| #[trigger]
                is_fraction(final(self)@.state, r) && ops.drawn(probs@, r, token as int),
    {
        let r: u32 = self.next_random();
        pick_token(ops, probs, r)
    }

    /// Sample the next token from logits.
    /// `logits`: raw model output [vocab_size]
    /// `recent_tokens`: recently generated tokens (for repetition penalty)
    /// Returns: selected token ID
    pub fn sample<F: Fn(Op<u32>) -> u32>(
        &mut self,
        ops: &Numbers<u32, F>,
        logits: &mut Vec<u32>,
        recent_tokens: &[usize],
    ) -> (token: usize)
        requires
            ops.single(),
            old(logits)@.len() > 0,
        ensures
            token < old(logits)@.len(),
            final(logits)@.len() == old(logits)@.len(),
            samples(
                *ops,
                old(self)@,
                old(logits)@,
                recent_tokens@,
                final(self)@,
                final(logits)@,
                token as int,
            ),
    {
        if self.config.repetition_penalty != ONE && recent_tokens.len() > 0 {
            self.apply_repetition_penalty(ops, logits, recent_tokens);
        }
        assert(after_penalty(*ops, self@.config, old(logits)@, recent_tokens@, logits@));
        if less_or_equal(self.config.temperature, 0) {
            argmax(logits.as_slice())
        } else {
            self.draw(ops, logits)
        }
    }

    /// Turn values into probabilities
    fn to_probabilities<F: Fn(Op<u32>) -> u32>(
        &self,
        ops: &Numbers<u32, F>,
        logits: &mut Vec<u32>,
    )
        requires
            ops.single(),
        ensures
            final(logits)@.len() == old(logits)@.len(),
            probabilities(*ops, self@.config, old(logits)@, final(logits)@),
    {
        divide_each(ops, logits, self.config.temperature);
        softmax_inplace(ops, logits.as_mut_slice());
    }

    /// Apply the filters that are in use
    fn filter<F: Fn(Op<u32>) -> u32>(
        &self,
        ops: &Numbers<u32, F>,
        probs: &mut Vec<u32>,
    )
        requires
            ops.single(),
        ensures
            final(probs)@.len() == old(probs)@.len(),
            filtered(*ops, self@.config, old(probs)@, final(probs)@),
    {
        if self.config.top_k > 0 && self.config.top_k < probs.len() {
            self.apply_top_k(ops, probs, self.config.top_k);
        }
        assert(most_probable(*ops, self@.config, old(probs)@, probs@));
        if less(0, self.config.top_p) && less(self.config.top_p, ONE) {
            self.apply_top_p(ops, probs, self.config.top_p);
        }
    }

    /// Draw a token from values
    fn draw<F: Fn(Op<u32>) -> u32>(
        &mut self,
        ops: &Numbers<u32, F>,
        logits: &mut Vec<u32>,
    ) -> (token: usize)
        requires
            ops.single(),
            old(logits)@.len() > 0,
        ensures
            token < old(logits)@.len(),
            final(logits)@.len() == old(logits)@.len(),
            draws(
                *ops,
                old(self)@,
                old(logits)@,
                final(self)@,
                final(logits)@,
                token as int,
            ),
    {
        self.to_probabilities(ops, logits);
        self.filter(ops, logits);
        self.sample_from_distribution(ops, logits)
    }
}

fn keep_named(probs: &mut Vec<u32>, order: &Vec<usize>, cutoff: usize)
    requires
        cutoff <= order@.len(),
        order@.len() == old(probs)@.len(),
        forall|a: int| 0 <= a < order@.len() ==> #[trigger] order@[a] < old(probs)@.len(),
    ensures
        final(probs)@ == named_by(old(probs)@, order@, cutoff as int),
{
    let ghost v = probs@;
    let n: usize = probs.len();
    let mut kept: Vec<bool> = vec![false; n];
    let mut a: usize = 0;
    while a < cutoff
        invariant
            a <= cutoff <= order@.len(),
            n == v.len(),
            kept@.len() == n,
            forall|b: int| 0 <= b < order@.len() ==> #[trigger] order@[b] < n,
            forall|i: int|
                0 <= i < n ==> (#[trigger] kept@[i] <==> exists|b: int|
                    0 <= b < a && #[trigger] order@[b] == i),
        decreases cutoff - a,
    {
        let ghost before = kept@;
        let x: usize = order[a];
        kept.set(x, true);
        proof {
            assert forall|i: int| 0 <= i < n implies (#[trigger] kept@[i] <==> exists|b: int|
                0 <= b < a + 1 && #[trigger] order@[b] == i) by {
                assert(before[i] <==> exists|b: int| 0 <= b < a && #[trigger] order@[b] == i);
                if i == x {
                    assert(order@[a as int] == i);
                }
            }
        }
        a += 1;
    }
    let mut i: usize = 0;
    while i < n
        invariant
            i <= n,
            n == v.len(),
            probs@.len() == n,
            kept@.len() == n,
            v == old(probs)@,
            forall|j: int|
                0 <= j < n ==> (#[trigger] kept@[j] <==> exists|b: int|
                    0 <= b < cutoff && #[trigger] order@[b] == j),
            forall|j: int|
                0 <= j < i ==> #[trigger] probs@[j] == named_by(v, order@, cutoff as int)[j],
            forall|j: int| i <= j < n ==> #[trigger] probs@[j] == v[j],
        decreases n - i,
    {
        if !kept[i] {
            probs.set(i, 0);
        }
        i += 1;
    }
    assert(probs@ =~= named_by(v, order@, cutoff as int));
}

/// A random fraction is between zero and one.
pub proof fn law_fractions_are_at_most_one(state: u64, r: u32)
    requires
        is_fraction(state, r),
    ensures
        r <= ONE,
{
    let w = SINGLE_FRACTION as nat;
    let y = round_to_bits(state as nat, 53);
    let z = round_to_bits(y, 24);
    lemma2_to64();
    lemma2_to64_rest();
    lemma_round_within(state as nat, 53, 64);
    lemma_round_within(y, 24, 64);
    let p = pow2(85);
    assert(z * p <= pow2(64) * p) by (nonlinear_arith)
        requires
            z <= pow2(64),
    ;
    lemma_pow2_adds(64, 85);
    lemma_pow2_adds(23, 126);
    assert(single_magnitude(ONE) == pow2(149));
    if r > ONE {
        law_magnitude_is_monotone(ONE as nat, r as nat, w);
    }
}

/// A token sampled at a positive temperature is one that the filters kept: where what is
/// left of the probabilities is above zero somewhere, it is so at the token.
pub proof fn law_sampled_tokens_are_kept<F: Fn(Op<u32>) -> u32>(
    ops: Numbers<u32, F>,
    before: SamplerView,
    logits: Seq<u32>,
    recent: Seq<usize>,
    after: SamplerView,
    out: Seq<u32>,
    token: int,
)
    requires
        samples(ops, before, logits, recent, after, out, token),
        !single_le(before.config.temperature, 0),
        exists|i: int| 0 <= i < out.len() && single_lt(0, #[trigger] out[i]),
    ensures
        0 <= token < out.len(),
        single_lt(0, out[token]),
{
    let v = choose|v: Seq<u32>| #[trigger]
        after_penalty(ops, before.config, logits, recent, v) && draws(
            ops,
            before,
            v,
            after,
            out,
            token,
        );
    let (p, r) = choose|p: Seq<u32>, r: u32|
        {
            &&& #[trigger] probabilities(ops, before.config, v, p)
            &&& filtered(ops, before.config, p, out)
            &&& after == (SamplerView { state: next_state(before.state), ..before })
            &&& #[trigger] is_fraction(after.state, r)
            &&& ops.drawn(out, r, token)
        };
    law_drawn_tokens_are_kept(ops, out, r, token);
}

/// The generator's steps in numbers: the state is combined, by exclusive or, with itself
/// times two to the thirteenth, then over two to the seventh, then times two to the
/// seventeenth, each cut to 64 bits.
pub proof fn law_generator_steps_by_three_shifts(s: u64, a: u64, b: u64)
    requires
        a == s ^ (((s % 0x8_0000_0000_0000) * 0x2000) as u64),
        b == a ^ (a / 0x80),
    ensures
        next_state(s) == b ^ (((b % 0x8000_0000_0000) * 0x2_0000) as u64),
{
    let x = ((s % 0x8_0000_0000_0000) * 0x2000) as u64;
    assert(x == s << 13u64) by (bit_vector)
        requires
            x == ((s % 0x8_0000_0000_0000) * 0x2000) as u64,
    ;
    assert(a / 0x80 == a >> 7u64) by (bit_vector);
    let c = ((b % 0x8000_0000_0000) * 0x2_0000) as u64;
    assert(c == b << 17u64) by (bit_vector)
        requires
            c == ((b % 0x8000_0000_0000) * 0x2_0000) as u64,
    ;
}

/// Drawing a token moves the generator on by one step and leaves the rest of the sampler as
/// it is.
pub proof fn law_sampling_takes_one_random_number<F: Fn(Op<u32>) -> u32>(
    ops: Numbers<u32, F>,
    before: SamplerView,
    logits: Seq<u32>,
    recent: Seq<usize>,
    after: SamplerView,
    out: Seq<u32>,
    token: int,
)
    requires
        samples(ops, before, logits, recent, after, out, token),
    ensures
        after.config == before.config,
        single_le(before.config.temperature, 0) ==> after.state == before.state,
        !single_le(before.config.temperature, 0) ==> after.state == next_state(before.state),
{
}

} // verus!
