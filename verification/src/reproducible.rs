//! Sampling with the same seed gives the same tokens.

use crate::arith::{Numbers, Op};
use crate::ieee::{law_magnitude_is_monotone, single_le, single_lt, SINGLE_FRACTION};
use crate::ranking::{is_ranking, law_ranking_is_unique, scan_max};
use crate::sampler::{after_penalty, draws, filtered, first_reaching, hit, in_order, is_fraction};
use crate::sampler::{last_tokens, most_probable, named_by, next_state, nucleus, probabilities};
use crate::sampler::{picks, samples, SamplerConfig, SamplerView, ONE};
use vstd::prelude::*;

verus! {

impl<T: Copy, F: Fn(Op<T>) -> T> Numbers<T, F> {
    /// An operation gives one result only.
    pub open spec fn single_valued(&self) -> bool {
        forall|op: Op<T>, a: T, b: T| #[trigger]
            self.gives(op, a) && #[trigger] self.gives(op, b) ==> a == b
    }

    proof fn lemma_running_sums_agree(&self, a: Seq<T>, t: Seq<T>, u: Seq<T>, k: int)
        requires
            self.single_valued(),
            self.running_sums(a, t),
            self.running_sums(a, u),
            0 <= k < t.len(),
            k < u.len(),
        ensures
            t[k] == u[k],
        decreases k,
    {
        if k > 0 {
            self.lemma_running_sums_agree(a, t, u, k - 1);
            assert(self.gives(Op::Plus(t[k - 1], a[k - 1]), t[k]));
            assert(self.gives(Op::Plus(u[k - 1], a[k - 1]), u[k]));
        }
    }

    proof fn lemma_running_max_agrees(&self, a: Seq<T>, t: Seq<T>, u: Seq<T>, k: int)
        requires
            self.single_valued(),
            self.running_max(a, t),
            self.running_max(a, u),
            0 <= k < t.len(),
            k < u.len(),
        ensures
            t[k] == u[k],
        decreases k,
    {
        if k > 0 {
            self.lemma_running_max_agrees(a, t, u, k - 1);
            assert(self.gives(Op::Larger(t[k - 1], a[k - 1]), t[k]));
            assert(self.gives(Op::Larger(u[k - 1], a[k - 1]), u[k]));
        }
    }

    proof fn lemma_sum_is_unique(&self, a: Seq<T>, r: T, s: T)
        requires
            self.single_valued(),
            self.sums_to(a, r),
            self.sums_to(a, s),
        ensures
            r == s,
    {
        let t = choose|t: Seq<T>| #[trigger]
            self.running_sums(a, t) && t.len() == a.len() + 1 && t.last() == r;
        let u = choose|t: Seq<T>| #[trigger]
            self.running_sums(a, t) && t.len() == a.len() + 1 && t.last() == s;
        self.lemma_running_sums_agree(a, t, u, a.len() as int);
    }

    proof fn lemma_max_is_unique(&self, a: Seq<T>, r: T, s: T)
        requires
            self.single_valued(),
            self.max_of(a, r),
            self.max_of(a, s),
        ensures
            r == s,
    {
        let t = choose|t: Seq<T>| #[trigger]
            self.running_max(a, t) && t.len() == a.len() + 1 && t.last() == r;
        let u = choose|t: Seq<T>| #[trigger]
            self.running_max(a, t) && t.len() == a.len() + 1 && t.last() == s;
        self.lemma_running_max_agrees(a, t, u, a.len() as int);
    }

    proof fn lemma_quotients_are_unique(&self, a: Seq<T>, s: T, x: Seq<T>, y: Seq<T>)
        requires
            self.single_valued(),
            self.divided(a, s, x),
            self.divided(a, s, y),
        ensures
            x == y,
    {
        let p = choose|inv: T| #[trigger]
            self.gives(Op::Over(self.one, s), inv) && self.scaled(a, inv, x);
        let q = choose|inv: T| #[trigger]
            self.gives(Op::Over(self.one, s), inv) && self.scaled(a, inv, y);
        assert(p == q);
        assert forall|i: int| 0 <= i < a.len() implies x[i] == y[i] by {
            assert(self.gives(Op::Times(a[i], p), x[i]));
            assert(self.gives(Op::Times(a[i], p), y[i]));
        }
        assert(x =~= y);
    }

    proof fn lemma_exps_are_unique(&self, a: Seq<T>, m: T, x: Seq<T>, y: Seq<T>)
        requires
            self.single_valued(),
            self.exps_above(a, m, x),
            self.exps_above(a, m, y),
        ensures
            x == y,
    {
        assert forall|i: int| 0 <= i < a.len() implies x[i] == y[i] by {
            assert(self.exp_above(a[i], m, x[i]) && self.exp_above(a[i], m, y[i]));
            let c = choose|d: T| #[trigger]
                self.gives(Op::Minus(a[i], m), d) && self.gives(Op::Exp(d), x[i]);
            let d = choose|d: T| #[trigger]
                self.gives(Op::Minus(a[i], m), d) && self.gives(Op::Exp(d), y[i]);
            assert(c == d);
        }
        assert(x =~= y);
    }

    pub(crate) proof fn lemma_softmax_is_unique(&self, a: Seq<T>, x: Seq<T>, y: Seq<T>)
        requires
            self.single_valued(),
            self.softmaxed(a, x),
            self.softmaxed(a, y),
        ensures
            x == y,
    {
        if a.len() > 0 {
            let (m, e, s) = choose|m: T, e: Seq<T>, s: T|
                {
                    &&& self.max_of(a, m)
                    &&& #[trigger] self.exps_above(a, m, e)
                    &&& #[trigger] self.sums_to(e, s)
                    &&& self.divided(e, s, x)
                };
            let (m2, e2, s2) = choose|m: T, e: Seq<T>, s: T|
                {
                    &&& self.max_of(a, m)
                    &&& #[trigger] self.exps_above(a, m, e)
                    &&& #[trigger] self.sums_to(e, s)
                    &&& self.divided(e, s, y)
                };
            self.lemma_max_is_unique(a, m, m2);
            self.lemma_exps_are_unique(a, m, e, e2);
            self.lemma_sum_is_unique(e, s, s2);
            self.lemma_quotients_are_unique(e, s, x, y);
        }
    }
}

impl<F: Fn(Op<u32>) -> u32> Numbers<u32, F> {
    proof fn lemma_over_each_is_unique(&self, v: Seq<u32>, c: u32, x: Seq<u32>, y: Seq<u32>)
        requires
            self.single_valued(),
            self.over_each(v, c, x),
            self.over_each(v, c, y),
        ensures
            x == y,
    {
        assert forall|i: int| 0 <= i < v.len() implies x[i] == y[i] by {
            assert(self.gives(Op::Over(v[i], c), x[i]));
            assert(self.gives(Op::Over(v[i], c), y[i]));
        }
        assert(x =~= y);
    }

    proof fn lemma_normalised_is_unique(&self, v: Seq<u32>, x: Seq<u32>, y: Seq<u32>)
        requires
            self.single_valued(),
            self.normalised(v, x),
            self.normalised(v, y),
        ensures
            x == y,
    {
        let s = choose|s: u32| #[trigger]
            self.sums_to(v, s) && (if single_lt(0, s) {
                self.divided(v, s, x)
            } else {
                x == v
            });
        let t = choose|s: u32| #[trigger]
            self.sums_to(v, s) && (if single_lt(0, s) {
                self.divided(v, s, y)
            } else {
                y == v
            });
        self.lemma_sum_is_unique(v, s, t);
        if single_lt(0, s) {
            self.lemma_quotients_are_unique(v, s, x, y);
        }
    }

    proof fn lemma_reach_is_unique(&self, v: Seq<u32>, p: u32, c: int, d: int)
        requires
            self.single_valued(),
            self.reaches(v, p, c),
            self.reaches(v, p, d),
        ensures
            c == d,
    {
        if c != d {
            let (lo, hi) = if c < d {
                (c, d)
            } else {
                (d, c)
            };
            let t = choose|t: Seq<u32>| #[trigger]
                self.running_sums(v, t) && t.len() == (if lo < v.len() {
                    lo + 2
                } else {
                    lo + 1
                }) && first_reaching(t, p, v.len(), lo);
            let u = choose|t: Seq<u32>| #[trigger]
                self.running_sums(v, t) && t.len() == (if hi < v.len() {
                    hi + 2
                } else {
                    hi + 1
                }) && first_reaching(t, p, v.len(), hi);
            self.lemma_running_sums_agree(v, t, u, lo + 1);
            assert(!single_le(p, u[lo + 1]));
        }
    }

    proof fn lemma_drawn_is_unique(&self, v: Seq<u32>, r: u32, a: int, b: int)
        requires
            self.single_valued(),
            self.drawn(v, r, a),
            self.drawn(v, r, b),
        ensures
            a == b,
    {
        let t = choose|t: Seq<u32>| #[trigger]
            self.running_sums(v, t) && t.len() == v.len() + 1 && picks(v, t, r, a);
        let u = choose|t: Seq<u32>| #[trigger]
            self.running_sums(v, t) && t.len() == v.len() + 1 && picks(v, t, r, b);
        assert forall|k: int| 0 <= k < t.len() implies t[k] == u[k] by {
            self.lemma_running_sums_agree(v, t, u, k);
        }
        assert(t =~= u);
        let n = v.len() as int;
        if exists|i: int| 0 <= i < n && #[trigger] hit(v, t, r, i) {
            assert(hit(v, t, r, a) && hit(v, t, r, b));
        } else if exists|i: int| 0 <= i < n && single_lt(0, #[trigger] v[i]) {
            assert(single_lt(0, v[a]) && single_lt(0, v[b]));
        } else {
            let c = choose|c: int| #[trigger]
                first_reaching(t, r, v.len(), c) && a == (if c < n {
                    c
                } else {
                    n - 1
                });
            let d = choose|c: int| #[trigger]
                first_reaching(t, r, v.len(), c) && b == (if c < n {
                    c
                } else {
                    n - 1
                });
            if c < d {
                assert(!single_le(r, t[c + 1]));
            } else if d < c {
                assert(!single_le(r, t[d + 1]));
            }
        }
    }

    proof fn lemma_penalty_steps_agree(
        &self,
        v: Seq<u32>,
        penalty: u32,
        tokens: Seq<usize>,
        t: Seq<Seq<u32>>,
        u: Seq<Seq<u32>>,
        k: int,
    )
        requires
            self.single_valued(),
            self.penalty_steps(v, penalty, tokens, t),
            self.penalty_steps(v, penalty, tokens, u),
            0 <= k < t.len(),
            k < u.len(),
        ensures
            t[k] == u[k],
        decreases k,
    {
        if k > 0 {
            self.lemma_penalty_steps_agree(v, penalty, tokens, t, u, k - 1);
            assert(self.penalised_once(t[k - 1], penalty, tokens[k - 1], t[k]));
            assert(self.penalised_once(u[k - 1], penalty, tokens[k - 1], u[k]));
        }
    }
}

proof fn lemma_penalty_is_unique<F: Fn(Op<u32>) -> u32>(
    ops: Numbers<u32, F>,
    config: SamplerConfig,
    logits: Seq<u32>,
    recent: Seq<usize>,
    x: Seq<u32>,
    y: Seq<u32>,
)
    requires
        ops.single_valued(),
        after_penalty(ops, config, logits, recent, x),
        after_penalty(ops, config, logits, recent, y),
    ensures
        x == y,
{
    if config.repetition_penalty != ONE && recent.len() > 0 {
        let tokens = last_tokens(recent, config.repetition_window as nat);
        let p = config.repetition_penalty;
        let t = choose|t: Seq<Seq<u32>>| #[trigger]
            ops.penalty_steps(logits, p, tokens, t) && t.len() == tokens.len() + 1 && t.last() == x;
        let u = choose|t: Seq<Seq<u32>>| #[trigger]
            ops.penalty_steps(logits, p, tokens, t) && t.len() == tokens.len() + 1 && t.last() == y;
        ops.lemma_penalty_steps_agree(logits, p, tokens, t, u, tokens.len() as int);
    }
}

proof fn lemma_probabilities_are_unique<F: Fn(Op<u32>) -> u32>(
    ops: Numbers<u32, F>,
    config: SamplerConfig,
    v: Seq<u32>,
    x: Seq<u32>,
    y: Seq<u32>,
)
    requires
        ops.single_valued(),
        probabilities(ops, config, v, x),
        probabilities(ops, config, v, y),
    ensures
        x == y,
{
    let a = choose|w: Seq<u32>| #[trigger]
        ops.over_each(v, config.temperature, w) && ops.softmaxed(w, x);
    let b = choose|w: Seq<u32>| #[trigger]
        ops.over_each(v, config.temperature, w) && ops.softmaxed(w, y);
    ops.lemma_over_each_is_unique(v, config.temperature, a, b);
    ops.lemma_softmax_is_unique(a, x, y);
}

proof fn lemma_top_k_is_unique<F: Fn(Op<u32>) -> u32>(
    ops: Numbers<u32, F>,
    v: Seq<u32>,
    k: int,
    x: Seq<u32>,
    y: Seq<u32>,
)
    requires
        ops.single_valued(),
        v.len() <= usize::MAX,
        ops.top_k_kept(v, k, x),
        ops.top_k_kept(v, k, y),
    ensures
        x == y,
{
    let a = choose|order: Seq<usize>| #[trigger]
        is_ranking(v, order) && ops.normalised(named_by(v, order, k), x);
    let b = choose|order: Seq<usize>| #[trigger]
        is_ranking(v, order) && ops.normalised(named_by(v, order, k), y);
    law_ranking_is_unique(v, a, b);
    ops.lemma_normalised_is_unique(named_by(v, a, k), x, y);
}

proof fn lemma_top_p_is_unique<F: Fn(Op<u32>) -> u32>(
    ops: Numbers<u32, F>,
    v: Seq<u32>,
    p: u32,
    x: Seq<u32>,
    y: Seq<u32>,
)
    requires
        ops.single_valued(),
        v.len() <= usize::MAX,
        ops.top_p_kept(v, p, x),
        ops.top_p_kept(v, p, y),
    ensures
        x == y,
{
    let (a, c) = choose|order: Seq<usize>, c: int|
        {
            &&& #[trigger] is_ranking(v, order)
            &&& #[trigger] ops.reaches(in_order(v, order), p, c)
            &&& ops.normalised(
                named_by(
                    v,
                    order,
                    if c < v.len() {
                        c + 1
                    } else {
                        c
                    },
                ),
                x,
            )
        };
    let (b, d) = choose|order: Seq<usize>, c: int|
        {
            &&& #[trigger] is_ranking(v, order)
            &&& #[trigger] ops.reaches(in_order(v, order), p, c)
            &&& ops.normalised(
                named_by(
                    v,
                    order,
                    if c < v.len() {
                        c + 1
                    } else {
                        c
                    },
                ),
                y,
            )
        };
    law_ranking_is_unique(v, a, b);
    ops.lemma_reach_is_unique(in_order(v, a), p, c, d);
    let n = if c < v.len() {
        c + 1
    } else {
        c
    };
    ops.lemma_normalised_is_unique(named_by(v, a, n), x, y);
}

proof fn lemma_filters_are_unique<F: Fn(Op<u32>) -> u32>(
    ops: Numbers<u32, F>,
    config: SamplerConfig,
    v: Seq<u32>,
    x: Seq<u32>,
    y: Seq<u32>,
)
    requires
        ops.single_valued(),
        v.len() <= usize::MAX,
        filtered(ops, config, v, x),
        filtered(ops, config, v, y),
    ensures
        x == y,
{
    let a = choose|w: Seq<u32>| #[trigger]
        most_probable(ops, config, v, w) && nucleus(ops, config, w, x);
    let b = choose|w: Seq<u32>| #[trigger]
        most_probable(ops, config, v, w) && nucleus(ops, config, w, y);
    if 0 < config.top_k < v.len() {
        lemma_top_k_is_unique(ops, v, config.top_k as int, a, b);
        lemma_kept_length(ops, v, config.top_k as int, a);
    }
    if single_lt(0, config.top_p) && single_lt(
        config.top_p,
        ONE,
    ) {
        lemma_top_p_is_unique(ops, a, config.top_p, x, y);
    }
}

proof fn lemma_kept_length<F: Fn(Op<u32>) -> u32>(
    ops: Numbers<u32, F>,
    v: Seq<u32>,
    k: int,
    x: Seq<u32>,
)
    requires
        ops.top_k_kept(v, k, x),
    ensures
        x.len() == v.len(),
{
}

proof fn lemma_fraction_is_unique(state: u64, r: u32, s: u32)
    requires
        is_fraction(state, r),
        is_fraction(state, s),
    ensures
        r == s,
{
    if r < s {
        law_magnitude_is_monotone(r as nat, s as nat, SINGLE_FRACTION as nat);
    } else if s < r {
        law_magnitude_is_monotone(s as nat, r as nat, SINGLE_FRACTION as nat);
    }
}

proof fn lemma_draw_is_unique<F: Fn(Op<u32>) -> u32>(
    ops: Numbers<u32, F>,
    before: SamplerView,
    v: Seq<u32>,
    after: SamplerView,
    out: Seq<u32>,
    token: int,
    after2: SamplerView,
    out2: Seq<u32>,
    token2: int,
)
    requires
        ops.single_valued(),
        v.len() <= usize::MAX,
        draws(ops, before, v, after, out, token),
        draws(ops, before, v, after2, out2, token2),
    ensures
        after == after2,
        out == out2,
        token == token2,
{
    let (p, r) = choose|p: Seq<u32>, r: u32|
        {
            &&& #[trigger] probabilities(ops, before.config, v, p)
            &&& filtered(ops, before.config, p, out)
            &&& after == (SamplerView { state: next_state(before.state), ..before })
            &&& #[trigger] is_fraction(after.state, r)
            &&& ops.drawn(out, r, token)
        };
    let (q, s) = choose|p: Seq<u32>, r: u32|
        {
            &&& #[trigger] probabilities(ops, before.config, v, p)
            &&& filtered(ops, before.config, p, out2)
            &&& after2 == (SamplerView {
                state: next_state(before.state),
                ..before
            })
            &&& #[trigger] is_fraction(after2.state, r)
            &&& ops.drawn(out2, r, token2)
        };
    lemma_probabilities_are_unique(ops, before.config, v, p, q);
    assert(p.len() == v.len());
    lemma_filters_are_unique(ops, before.config, p, out, out2);
    lemma_fraction_is_unique(after.state, r, s);
    ops.lemma_drawn_is_unique(out, r, token, token2);
}

/// Where the arithmetic gives one result for each operation, so does sampling: from
/// the same configuration, state, logits and recent tokens come the same token, the
/// same next state and the same remaining values. A seed makes a run reproducible.
pub proof fn law_sampling_is_reproducible<F: Fn(Op<u32>) -> u32>(
    ops: Numbers<u32, F>,
    before: SamplerView,
    logits: Seq<u32>,
    recent: Seq<usize>,
    after: SamplerView,
    out: Seq<u32>,
    token: int,
    after2: SamplerView,
    out2: Seq<u32>,
    token2: int,
)
    requires
        ops.single_valued(),
        logits.len() <= usize::MAX,
        samples(ops, before, logits, recent, after, out, token),
        samples(ops, before, logits, recent, after2, out2, token2),
    ensures
        after == after2,
        out == out2,
        token == token2,
{
    let greedy = single_le(before.config.temperature, 0);
    let v = choose|v: Seq<u32>| #[trigger]
        after_penalty(ops, before.config, logits, recent, v) && if greedy {
            after == before && out == v && token == scan_max(v, v.len())
        } else {
            draws(ops, before, v, after, out, token)
        };
    let w = choose|v: Seq<u32>| #[trigger]
        after_penalty(ops, before.config, logits, recent, v) && if greedy {
            after2 == before && out2 == v && token2 == scan_max(v, v.len())
        } else {
            draws(ops, before, v, after2, out2, token2)
        };
    lemma_penalty_is_unique(ops, before.config, logits, recent, v, w);
    if !greedy {
        lemma_penalty_length(ops, before.config, logits, recent, v);
        lemma_draw_is_unique(ops, before, v, after, out, token, after2, out2, token2);
    }
}

proof fn lemma_penalty_length<F: Fn(Op<u32>) -> u32>(
    ops: Numbers<u32, F>,
    config: SamplerConfig,
    logits: Seq<u32>,
    recent: Seq<usize>,
    x: Seq<u32>,
)
    requires
        after_penalty(ops, config, logits, recent, x),
    ensures
        x.len() == logits.len(),
{
    if config.repetition_penalty != ONE && recent.len() > 0 {
        let tokens = last_tokens(recent, config.repetition_window as nat);
        let p = config.repetition_penalty;
        let t = choose|t: Seq<Seq<u32>>| #[trigger]
            ops.penalty_steps(logits, p, tokens, t) && t.len() == tokens.len() + 1 && t.last() == x;
        lemma_steps_length(ops, logits, p, tokens, t, tokens.len() as int);
    }
}

proof fn lemma_steps_length<F: Fn(Op<u32>) -> u32>(
    ops: Numbers<u32, F>,
    v: Seq<u32>,
    penalty: u32,
    tokens: Seq<usize>,
    t: Seq<Seq<u32>>,
    k: int,
)
    requires
        ops.penalty_steps(v, penalty, tokens, t),
        0 <= k < t.len(),
    ensures
        t[k].len() == v.len(),
    decreases k,
{
    if k > 0 {
        lemma_steps_length(ops, v, penalty, tokens, t, k - 1);
        assert(ops.penalised_once(t[k - 1], penalty, tokens[k - 1], t[k]));
    }
}

} // verus!
