//! What sampling comes down to: which values the penalty touches, which tokens the two
//! filters keep, and which token is drawn from those.

use crate::arith::{Numbers, Op};
use crate::ieee::{single_is_nan, single_le, single_lt, single_units};
use crate::ranking::{is_ranking, law_argmax_is_the_first_maximum};
use crate::sampler::{
    after_penalty, draws, filtered, first_reaching, hit, in_order, is_fraction, most_probable,
    named_by, next_state, nucleus, picks, probabilities, samples, SamplerConfig, SamplerView, ONE,
};
use vstd::prelude::*;

verus! {

/// Token `i` is one of the first `m` of a ranking.
pub open spec fn among_first(order: Seq<usize>, m: int, i: int) -> bool {
    exists|a: int| 0 <= a < m && #[trigger] order[a] == i
}

/// What is left of a value: itself for the first `m` tokens of the ranking, and zero for
/// the others.
pub open spec fn left_of(v: Seq<u32>, order: Seq<usize>, m: int, i: int) -> u32 {
    if among_first(order, m, i) {
        v[i]
    } else {
        0
    }
}

/// `s` is the sum of what the first `m` tokens of the ranking leave.
pub open spec fn is_total<F: Fn(Op<u32>) -> u32>(
    ops: Numbers<u32, F>,
    v: Seq<u32>,
    order: Seq<usize>,
    m: int,
    s: u32,
) -> bool {
    exists|t: Seq<u32>|
        {
            &&& #[trigger] t.len() == v.len() + 1
            &&& t[0] == 0
            &&& forall|i: int|
                0 < i <= v.len() ==> ops.gives(
                    Op::Plus(t[i - 1], left_of(v, order, m, i - 1)),
                    #[trigger] t[i],
                )
            &&& t.last() == s
        }
}

/// `w` is what the first `m` tokens of the ranking leave of `v`, all of it times one
/// factor, which is the inverse of its sum; where the sum is not positive, as it is.
pub open spec fn reduced<F: Fn(Op<u32>) -> u32>(
    ops: Numbers<u32, F>,
    v: Seq<u32>,
    order: Seq<usize>,
    m: int,
    w: Seq<u32>,
) -> bool {
    &&& w.len() == v.len()
    &&& exists|s: u32| #[trigger] is_total(ops, v, order, m, s) && if single_lt(0, s) {
        exists|c: u32| #[trigger]
            ops.gives(Op::Over(ops.one, s), c) && forall|i: int|
                0 <= i < v.len() ==> ops.gives(
                    Op::Times(left_of(v, order, m, i), c),
                    #[trigger] w[i],
                )
    } else {
        forall|i: int| 0 <= i < v.len() ==> #[trigger] w[i] == left_of(v, order, m, i)
    }
}

/// The first `m` tokens of the ranking are just as many as it takes for their sum to
/// reach `p`: the sum of fewer does not, and theirs does unless they are all.
pub open spec fn just_reaches<F: Fn(Op<u32>) -> u32>(
    ops: Numbers<u32, F>,
    w: Seq<u32>,
    order: Seq<usize>,
    p: u32,
    m: int,
) -> bool {
    &&& 0 <= m <= w.len()
    &&& exists|t: Seq<u32>|
        {
            &&& #[trigger] t.len() == m + 1
            &&& t[0] == 0
            &&& forall|b: int|
                0 < b <= m ==> ops.gives(
                    Op::Plus(t[b - 1], w[order[b - 1] as int]),
                    #[trigger] t[b],
                )
            &&& forall|b: int| 0 < b < m ==> !single_le(p, #[trigger] t[b])
            &&& m < w.len() ==> m > 0 && single_le(p, t[m])
        }
}

proof fn lemma_left<F: Fn(Op<u32>) -> u32>(
    ops: Numbers<u32, F>,
    v: Seq<u32>,
    order: Seq<usize>,
    m: int,
    w: Seq<u32>,
)
    requires
        ops.zero == 0,
        ops.normalised(named_by(v, order, m), w),
    ensures
        reduced(ops, v, order, m, w),
{
    let u = named_by(v, order, m);
    assert forall|i: int| 0 <= i < v.len() implies #[trigger] u[i] == left_of(v, order, m, i) by {}
    let s = choose|s: u32| #[trigger]
        ops.sums_to(u, s) && (if single_lt(0, s) {
            ops.divided(u, s, w)
        } else {
            w == u
        });
    let t = choose|t: Seq<u32>| #[trigger]
        ops.running_sums(u, t) && t.len() == u.len() + 1 && t.last() == s;
    assert forall|i: int| 0 < i <= v.len() implies ops.gives(
        Op::Plus(t[i - 1], left_of(v, order, m, i - 1)),
        #[trigger] t[i],
    ) by {
        assert(u[i - 1] == left_of(v, order, m, i - 1));
    }
    assert(t.len() == v.len() + 1);
    assert(is_total(ops, v, order, m, s));
    if single_lt(0, s) {
        let c = choose|c: u32| #[trigger]
            ops.gives(Op::Over(ops.one, s), c) && ops.scaled(u, c, w);
        assert(ops.scaled(u, c, w));
        assert forall|i: int| 0 <= i < v.len() implies ops.gives(
            Op::Times(left_of(v, order, m, i), c),
            #[trigger] w[i],
        ) by {
            assert(u[i] == left_of(v, order, m, i));
        }
    }
}

proof fn lemma_top_k<F: Fn(Op<u32>) -> u32>(
    ops: Numbers<u32, F>,
    config: SamplerConfig,
    v: Seq<u32>,
    w: Seq<u32>,
)
    requires
        ops.zero == 0,
        most_probable(ops, config, v, w),
    ensures
        w.len() == v.len(),
        !(0 < config.top_k < v.len()) ==> w == v,
        0 < config.top_k < v.len() ==> exists|order: Seq<usize>| #[trigger]
            is_ranking(v, order) && reduced(ops, v, order, config.top_k as int, w),
{
    if 0 < config.top_k < v.len() {
        let order = choose|order: Seq<usize>| #[trigger]
            is_ranking(v, order) && ops.normalised(named_by(v, order, config.top_k as int), w);
        lemma_left(ops, v, order, config.top_k as int, w);
    }
}

proof fn lemma_top_p<F: Fn(Op<u32>) -> u32>(
    ops: Numbers<u32, F>,
    config: SamplerConfig,
    w: Seq<u32>,
    out: Seq<u32>,
)
    requires
        ops.zero == 0,
        nucleus(ops, config, w, out),
    ensures
        out.len() == w.len(),
        !(single_lt(0, config.top_p) && single_lt(config.top_p, ONE)) ==> out == w,
        single_lt(0, config.top_p) && single_lt(config.top_p, ONE) ==> exists|
            order: Seq<usize>,
            m: int,
        | #[trigger]
            is_ranking(w, order) && #[trigger] just_reaches(ops, w, order, config.top_p, m)
                && reduced(ops, w, order, m, out),
{
    let p = config.top_p;
    if single_lt(0, p) && single_lt(p, ONE) {
        let (order, c) = choose|order: Seq<usize>, c: int|
            {
                &&& #[trigger] is_ranking(w, order)
                &&& #[trigger] ops.reaches(in_order(w, order), p, c)
                &&& ops.normalised(
                    named_by(
                        w,
                        order,
                        if c < w.len() {
                            c + 1
                        } else {
                            c
                        },
                    ),
                    out,
                )
            };
        let m = if c < w.len() {
            c + 1
        } else {
            c
        };
        let v = in_order(w, order);
        let t = choose|t: Seq<u32>| #[trigger]
            ops.running_sums(v, t) && t.len() == (if c < v.len() {
                c + 2
            } else {
                c + 1
            }) && first_reaching(t, p, v.len(), c);
        assert(t.len() == m + 1);
        assert forall|b: int| 0 < b <= m implies ops.gives(
            Op::Plus(t[b - 1], w[order[b - 1] as int]),
            #[trigger] t[b],
        ) by {
            assert(v[b - 1] == w[order[b - 1] as int]);
        }
        assert forall|b: int| 0 < b < m implies !single_le(p, #[trigger] t[b]) by {
            assert(t[(b - 1) + 1] == t[b]);
        }
        assert(just_reaches(ops, w, order, p, m));
        lemma_left(ops, w, order, m, out);
    }
}

/// What the two filters leave of the probabilities, whichever of them are in use: where
/// the number of tokens is limited, the most probable ones of that number; of these,
/// where a threshold is set, the shortest list of the most probable ones whose sum
/// reaches it. Each filter keeps the proportions of what it leaves.
pub proof fn law_each_filter_keeps_the_most_probable<F: Fn(Op<u32>) -> u32>(
    ops: Numbers<u32, F>,
    config: SamplerConfig,
    v: Seq<u32>,
    out: Seq<u32>,
)
    requires
        ops.zero == 0,
        filtered(ops, config, v, out),
    ensures
        out.len() == v.len(),
        exists|w: Seq<u32>|
            {
                &&& #[trigger] w.len() == v.len()
                &&& !(0 < config.top_k < v.len()) ==> w == v
                &&& 0 < config.top_k < v.len() ==> exists|order: Seq<usize>| #[trigger]
                    is_ranking(v, order) && reduced(ops, v, order, config.top_k as int, w)
                &&& !(single_lt(0, config.top_p) && single_lt(config.top_p, ONE)) ==> out == w
                &&& single_lt(0, config.top_p) && single_lt(config.top_p, ONE) ==> exists|
                    order: Seq<usize>,
                    m: int,
                | #[trigger]
                    is_ranking(w, order) && #[trigger] just_reaches(
                        ops,
                        w,
                        order,
                        config.top_p,
                        m,
                    ) && reduced(ops, w, order, m, out)
            },
{
    let w = choose|w: Seq<u32>| #[trigger]
        most_probable(ops, config, v, w) && nucleus(ops, config, w, out);
    lemma_top_k(ops, config, v, w);
    lemma_top_p(ops, config, w, out);
    assert(w.len() == v.len());
}

/// Zero, of either sign, or not a number.
pub open spec fn is_nothing(x: u32) -> bool {
    x % 0x8000_0000 == 0 || single_is_nan(x)
}

/// What is zero or not a number stays so under multiplication.
pub open spec fn nothing_stays<F: Fn(Op<u32>) -> u32>(ops: Numbers<u32, F>) -> bool {
    forall|x: u32, c: u32, r: u32|
        is_nothing(x) && #[trigger] ops.gives(Op::Times(x, c), r) ==> is_nothing(r)
}

proof fn lemma_nothing_is_not_positive(x: u32)
    requires
        is_nothing(x),
    ensures
        !single_lt(0, x),
{
    assert(single_units(0) == 0);
    if !single_is_nan(x) {
        assert(x == 0 || x == 0x8000_0000);
        assert(single_units(x) == 0);
    }
}

proof fn lemma_reduced_to_nothing<F: Fn(Op<u32>) -> u32>(
    ops: Numbers<u32, F>,
    v: Seq<u32>,
    order: Seq<usize>,
    m: int,
    w: Seq<u32>,
    i: int,
)
    requires
        nothing_stays(ops),
        reduced(ops, v, order, m, w),
        0 <= i < v.len(),
        is_nothing(v[i]) || !among_first(order, m, i),
    ensures
        is_nothing(w[i]),
{
    assert(is_nothing(left_of(v, order, m, i)));
    let s = choose|s: u32| #[trigger]
        is_total(ops, v, order, m, s) && if single_lt(0, s) {
            exists|c: u32| #[trigger]
                ops.gives(Op::Over(ops.one, s), c) && forall|i: int|
                    0 <= i < v.len() ==> ops.gives(
                        Op::Times(left_of(v, order, m, i), c),
                        #[trigger] w[i],
                    )
        } else {
            forall|i: int| 0 <= i < v.len() ==> #[trigger] w[i] == left_of(v, order, m, i)
        };
    if single_lt(0, s) {
        let c = choose|c: u32| #[trigger]
            ops.gives(Op::Over(ops.one, s), c) && forall|i: int|
                0 <= i < v.len() ==> ops.gives(
                    Op::Times(left_of(v, order, m, i), c),
                    #[trigger] w[i],
                );
        assert(ops.gives(Op::Times(left_of(v, order, m, i), c), w[i]));
    }
}

/// Whatever the filters leave of a token above zero has passed both: where the number of
/// tokens is limited, it is one of the most probable of that number; where a threshold is
/// set, no shorter list of more probable tokens reaches it. This goes for the two
/// together as for each alone.
pub proof fn law_what_is_left_passes_both_filters<F: Fn(Op<u32>) -> u32>(
    ops: Numbers<u32, F>,
    config: SamplerConfig,
    v: Seq<u32>,
    out: Seq<u32>,
    token: int,
)
    requires
        ops.zero == 0,
        nothing_stays(ops),
        filtered(ops, config, v, out),
        0 <= token < out.len(),
        single_lt(0, out[token]),
    ensures
        0 < config.top_k < v.len() ==> exists|order: Seq<usize>| #[trigger]
            is_ranking(v, order) && among_first(order, config.top_k as int, token),
        single_lt(0, config.top_p) && single_lt(config.top_p, ONE) ==> exists|
            w: Seq<u32>,
            order: Seq<usize>,
            m: int,
        |
            {
                &&& 0 < config.top_k < v.len() ==> exists|o: Seq<usize>| #[trigger]
                    is_ranking(v, o) && reduced(ops, v, o, config.top_k as int, w)
                &&& !(0 < config.top_k < v.len()) ==> w == v
                &&& #[trigger] is_ranking(w, order)
                &&& #[trigger] just_reaches(ops, w, order, config.top_p, m)
                &&& among_first(order, m, token)
            },
{
    let w = choose|w: Seq<u32>| #[trigger]
        most_probable(ops, config, v, w) && nucleus(ops, config, w, out);
    lemma_top_k(ops, config, v, w);
    lemma_top_p(ops, config, w, out);
    if is_nothing(out[token]) {
        lemma_nothing_is_not_positive(out[token]);
    }
    if single_lt(0, config.top_p) && single_lt(config.top_p, ONE) {
        let (order, m) = choose|order: Seq<usize>, m: int| #[trigger]
            is_ranking(w, order) && #[trigger] just_reaches(ops, w, order, config.top_p, m)
                && reduced(ops, w, order, m, out);
        if is_nothing(w[token]) || !among_first(order, m, token) {
            lemma_reduced_to_nothing(ops, w, order, m, out, token);
        }
    }
    if 0 < config.top_k < v.len() {
        let order = choose|order: Seq<usize>| #[trigger]
            is_ranking(v, order) && reduced(ops, v, order, config.top_k as int, w);
        if !among_first(order, config.top_k as int, token) {
            lemma_reduced_to_nothing(ops, v, order, config.top_k as int, w, token);
        }
    }
}

/// A token sampled at a positive temperature passes both filters, where they leave
/// anything above zero.
pub proof fn law_sampled_tokens_pass_both_filters<F: Fn(Op<u32>) -> u32>(
    ops: Numbers<u32, F>,
    before: SamplerView,
    logits: Seq<u32>,
    recent: Seq<usize>,
    after: SamplerView,
    out: Seq<u32>,
    token: int,
)
    requires
        ops.zero == 0,
        nothing_stays(ops),
        samples(ops, before, logits, recent, after, out, token),
        !single_le(before.config.temperature, 0),
        exists|i: int| 0 <= i < out.len() && single_lt(0, #[trigger] out[i]),
    ensures
        exists|v: Seq<u32>, p: Seq<u32>|
            {
                &&& #[trigger] after_penalty(ops, before.config, logits, recent, v)
                &&& #[trigger] probabilities(ops, before.config, v, p)
                &&& 0 < before.config.top_k < p.len() ==> exists|order: Seq<usize>| #[trigger]
                    is_ranking(p, order) && among_first(order, before.config.top_k as int, token)
                &&& single_lt(0, before.config.top_p) && single_lt(before.config.top_p, ONE)
                    ==> exists|w: Seq<u32>, order: Seq<usize>, m: int|
                    {
                        &&& 0 < before.config.top_k < p.len() ==> exists|o: Seq<usize>| #[trigger]
                            is_ranking(p, o) && reduced(ops, p, o, before.config.top_k as int, w)
                        &&& !(0 < before.config.top_k < p.len()) ==> w == p
                        &&& #[trigger] is_ranking(w, order)
                        &&& #[trigger] just_reaches(ops, w, order, before.config.top_p, m)
                        &&& among_first(order, m, token)
                    }
            },
{
    crate::sampler::law_sampled_tokens_are_kept(ops, before, logits, recent, after, out, token);
    let v = choose|v: Seq<u32>| #[trigger]
        after_penalty(ops, before.config, logits, recent, v) && draws(
            ops,
            before,
            v,
            after,
            out,
            token,
        );
    let (p, r) = choose|p: Seq<u32>, r: u32|
        {
            &&& #[trigger] probabilities(ops, before.config, v, p)
            &&& filtered(ops, before.config, p, out)
            &&& after == (SamplerView { state: next_state(before.state), ..before })
            &&& #[trigger] is_fraction(after.state, r)
            &&& ops.drawn(out, r, token)
        };
    law_what_is_left_passes_both_filters(ops, before.config, p, out, token);
}

/// Without a positive temperature the token is the first of the largest values, and the
/// generator is not used.
pub proof fn law_without_temperature_the_largest_is_taken<F: Fn(Op<u32>) -> u32>(
    ops: Numbers<u32, F>,
    before: SamplerView,
    logits: Seq<u32>,
    recent: Seq<usize>,
    after: SamplerView,
    out: Seq<u32>,
    token: int,
    j: int,
)
    requires
        samples(ops, before, logits, recent, after, out, token),
        single_le(before.config.temperature, 0),
        forall|i: int| 0 <= i < out.len() ==> !single_is_nan(#[trigger] out[i]),
        0 <= j < out.len(),
    ensures
        after == before,
        0 <= token < out.len(),
        !single_lt(out[token], out[j]),
        j < token ==> single_lt(out[j], out[token]),
{
    law_argmax_is_the_first_maximum(out, out.len(), j);
}

proof fn lemma_untouched<F: Fn(Op<u32>) -> u32>(
    ops: Numbers<u32, F>,
    v: Seq<u32>,
    penalty: u32,
    tokens: Seq<usize>,
    t: Seq<Seq<u32>>,
    i: int,
    from: int,
    k: int,
)
    requires
        ops.penalty_steps(v, penalty, tokens, t),
        t.len() <= tokens.len() + 1,
        0 <= from <= k < t.len(),
        0 <= i < v.len(),
        t[from].len() == v.len(),
        forall|a: int| from <= a < k ==> #[trigger] tokens[a] != i,
    ensures
        t[k].len() == v.len(),
        t[k][i] == t[from][i],
    decreases k - from,
{
    if from < k {
        lemma_untouched(ops, v, penalty, tokens, t, i, from, k - 1);
        assert(ops.penalised_once(t[k - 1], penalty, tokens[k - 1], t[k]));
        assert(tokens[k - 1] != i);
    }
}

proof fn lemma_step_lengths<F: Fn(Op<u32>) -> u32>(
    ops: Numbers<u32, F>,
    v: Seq<u32>,
    penalty: u32,
    tokens: Seq<usize>,
    t: Seq<Seq<u32>>,
    k: int,
)
    requires
        ops.penalty_steps(v, penalty, tokens, t),
        t.len() <= tokens.len() + 1,
        0 <= k < t.len(),
    ensures
        t[k].len() == v.len(),
    decreases k,
{
    if k > 0 {
        lemma_step_lengths(ops, v, penalty, tokens, t, k - 1);
        assert(ops.penalised_once(t[k - 1], penalty, tokens[k - 1], t[k]));
    }
}

/// The penalty touches the values of the tokens in the window, which is the last part of
/// the recent tokens, and no others. A token that is there once is penalised once: a
/// positive value is divided by the penalty, any other multiplied with it, so that with a
/// penalty above one either gets lower.
pub proof fn law_recent_tokens_are_penalised<F: Fn(Op<u32>) -> u32>(
    ops: Numbers<u32, F>,
    config: SamplerConfig,
    logits: Seq<u32>,
    recent: Seq<usize>,
    out: Seq<u32>,
    i: int,
)
    requires
        after_penalty(ops, config, logits, recent, out),
        0 <= i < logits.len(),
    ensures
        out.len() == logits.len(),
        config.repetition_penalty == ONE ==> out == logits,
        (forall|a: int|
            0 <= a < recent.len() && recent.len() - a <= config.repetition_window
                ==> #[trigger] recent[a] != i) ==> out[i] == logits[i],
        config.repetition_penalty != ONE ==> forall|a: int|
            #![trigger recent[a]]
            0 <= a < recent.len() && recent.len() - a <= config.repetition_window && recent[a] == i
                && (forall|b: int|
                0 <= b < recent.len() && recent.len() - b <= config.repetition_window && b != a
                    ==> #[trigger] recent[b] != i) ==> if single_lt(0, logits[i]) {
                ops.gives(Op::Over(logits[i], config.repetition_penalty), out[i])
            } else {
                ops.gives(Op::Times(logits[i], config.repetition_penalty), out[i])
            },
{
    if config.repetition_penalty != ONE && recent.len() > 0 {
        let n = config.repetition_window as nat;
        let penalty = config.repetition_penalty;
        let tokens = crate::sampler::last_tokens(recent, n);
        let start = recent.len() - tokens.len();
        let t = choose|t: Seq<Seq<u32>>| #[trigger]
            ops.penalty_steps(logits, penalty, tokens, t) && t.len() == tokens.len() + 1
                && t.last() == out;
        let end = tokens.len() as int;
        lemma_step_lengths(ops, logits, penalty, tokens, t, end);
        if forall|a: int|
            0 <= a < recent.len() && recent.len() - a <= n ==> #[trigger] recent[a] != i {
            assert forall|a: int| 0 <= a < end implies #[trigger] tokens[a] != i by {
                assert(tokens[a] == recent[start + a]);
            }
            lemma_untouched(ops, logits, penalty, tokens, t, i, 0, end);
        }
        assert forall|a: int|
            #![trigger recent[a]]
            0 <= a < recent.len() && recent.len() - a <= n && recent[a] == i && (forall|b: int|
                0 <= b < recent.len() && recent.len() - b <= n && b != a ==> #[trigger] recent[b]
                    != i) implies if single_lt(0, logits[i]) {
            ops.gives(Op::Over(logits[i], penalty), out[i])
        } else {
            ops.gives(Op::Times(logits[i], penalty), out[i])
        } by {
            let c = a - start;
            assert(tokens[c] == i);
            assert forall|b: int| 0 <= b < end && b != c implies #[trigger] tokens[b] != i by {
                assert(tokens[b] == recent[start + b]);
            }
            lemma_untouched(ops, logits, penalty, tokens, t, i, 0, c);
            lemma_step_lengths(ops, logits, penalty, tokens, t, c + 1);
            assert(ops.penalised_once(t[c], penalty, tokens[c], t[c + 1]));
            lemma_untouched(ops, logits, penalty, tokens, t, i, c + 1, end);
        }
    }
}

/// The token drawn is the first above zero with which the running sum reaches the random
/// number: with no earlier one above zero it does; where it never does, the token is the
/// last above zero.
pub proof fn law_draw_takes_the_first_to_reach<F: Fn(Op<u32>) -> u32>(
    ops: Numbers<u32, F>,
    v: Seq<u32>,
    r: u32,
    token: int,
)
    requires
        ops.zero == 0,
        ops.drawn(v, r, token),
        exists|i: int| 0 <= i < v.len() && single_lt(0, #[trigger] v[i]),
    ensures
        0 <= token < v.len(),
        exists|t: Seq<u32>|
            {
                &&& #[trigger] t.len() == v.len() + 1
                &&& t[0] == 0
                &&& forall|b: int|
                    0 < b <= v.len() ==> ops.gives(Op::Plus(t[b - 1], v[b - 1]), #[trigger] t[b])
                &&& forall|b: int|
                    0 < b <= token && single_lt(0, v[b - 1]) ==> !single_le(r, #[trigger] t[b])
                &&& !single_le(r, t[token + 1]) ==> forall|b: int|
                    token < b < v.len() ==> !single_lt(0, #[trigger] v[b])
            },
{
    let t = choose|t: Seq<u32>| #[trigger]
        ops.running_sums(v, t) && t.len() == v.len() + 1 && picks(v, t, r, token);
    assert forall|b: int| 0 < b <= token && single_lt(0, v[b - 1]) implies !single_le(
        r,
        #[trigger] t[b],
    ) by {
        let i = b - 1;
        assert(hit(v, t, r, i) == single_le(r, t[i + 1]));
        if exists|i: int| 0 <= i < v.len() && #[trigger] hit(v, t, r, i) {
            assert(!hit(v, t, r, i));
        }
    }
    assert(t.len() == v.len() + 1);
}

} // verus!
