//! Rotary position embedding: pairs of a vector are turned by angles that grow with
//! the position.

use crate::arith::{Numbers, Op};
use vstd::prelude::*;

verus! {

/// Cosines and sines of the angles of all positions, `half_dim` for each.
#[derive(Debug, Clone)]
pub struct RoPE<T> {
    freqs_cos: Vec<T>,
    freqs_sin: Vec<T>,
    /// Number of positions precomputed
    max_pos: usize,
    /// Half dimension (dim/2)
    half_dim: usize,
    /// Length of the vectors
    dim: usize,
    /// Frequency base
    base: T,
}

/// What a table holds.
#[verifier::ext_equal]
pub struct RopeView<T> {
    pub cos: Seq<T>,
    pub sin: Seq<T>,
    pub max_pos: nat,
    pub half_dim: nat,
    pub dim: nat,
    pub base: T,
}

impl<T> View for RoPE<T> {
    type V = RopeView<T>;

    closed spec fn view(&self) -> RopeView<T> {
        RopeView {
            cos: self.freqs_cos@,
            sin: self.freqs_sin@,
            max_pos: self.max_pos as nat,
            half_dim: self.half_dim as nat,
            dim: self.dim as nat,
            base: self.base,
        }
    }
}

impl<T> RopeView<T> {
    /// The tables have an entry for each pair of each position.
    pub open spec fn wf(self) -> bool {
        &&& self.half_dim == self.dim / 2
        &&& self.cos.len() == self.max_pos * self.half_dim
        &&& self.sin.len() == self.max_pos * self.half_dim
    }
}

impl<T: Copy, F: Fn(Op<T>) -> T> Numbers<T, F> {
    /// A table for vectors of length `dim` and positions below `max_seq_len`.
    pub open spec fn tabulates(
        &self,
        base: T,
        dim: int,
        max_seq_len: int,
        table: RopeView<T>,
    ) -> bool {
        &&& table.wf()
        &&& table.max_pos == max_seq_len
        &&& table.dim == dim
        &&& table.base == base
        &&& forall|p: int, i: int|
            0 <= p < max_seq_len && 0 <= i < dim / 2 ==> self.angle_at(
                base,
                p as usize,
                i,
                dim,
                #[trigger] table.cos[p * (dim / 2) + i],
                table.sin[p * (dim / 2) + i],
            )
    }

    /// `c` and `s` are the cosine and the sine for pair `i` of a vector of length
    /// `dim` at a position.
    pub open spec fn angle_at(
        &self,
        base: T,
        position: usize,
        i: int,
        dim: int,
        c: T,
        s: T,
    ) -> bool {
        exists|f: T| #[trigger]
            self.frequency(base, i, dim, f) && self.angle_of(position, f, c, s)
    }

    /// `y` holds the pair that stands at `o` in `x`, turned by the angle whose cosine
    /// and sine are `c` and `s`.
    pub open spec fn turned_at(&self, x: Seq<T>, o: int, c: T, s: T, y: Seq<T>) -> bool {
        &&& self.turned_first(x[o], x[o + 1], c, s, y[o])
        &&& self.turned_second(x[o], x[o + 1], c, s, y[o + 1])
    }

    /// `y` holds pair `i` of the vector that starts at `start` in `x`, turned as a
    /// table has it; past the table, by the angle for the table's own base.
    pub open spec fn pair_embedded(
        &self,
        table: RopeView<T>,
        x: Seq<T>,
        start: int,
        position: usize,
        i: int,
        y: Seq<T>,
    ) -> bool {
        if position < table.max_pos {
            self.turned_at(
                x,
                start + 2 * i,
                table.cos[position * table.half_dim + i],
                table.sin[position * table.half_dim + i],
                y,
            )
        } else {
            exists|c: T, s: T| #[trigger]
                self.angle_at(table.base, position, i, table.dim as int, c, s) && self.turned_at(
                    x,
                    start + 2 * i,
                    c,
                    s,
                    y,
                )
        }
    }

    /// `y` holds pair `i` of the vector that starts at `start` in `x`, turned by the
    /// angle for a base and a position.
    pub open spec fn pair_placed(
        &self,
        base: T,
        dim: int,
        x: Seq<T>,
        start: int,
        position: usize,
        i: int,
        y: Seq<T>,
    ) -> bool {
        exists|c: T, s: T| #[trigger]
            self.angle_at(base, position, i, dim, c, s) && self.turned_at(x, start + 2 * i, c, s, y)
    }

    /// `y` is `x` with the vector that starts at `start` embedded at a position.
    pub open spec fn embedded(
        &self,
        table: RopeView<T>,
        x: Seq<T>,
        start: int,
        position: usize,
        y: Seq<T>,
    ) -> bool {
        &&& y.len() == x.len()
        &&& forall|i: int|
            0 <= i < table.half_dim ==> #[trigger] self.pair_embedded(table, x, start, position, i, y)
        &&& forall|j: int|
            0 <= j < x.len() && !(start <= j < start + 2 * table.half_dim) ==> #[trigger] y[j]
                == x[j]
    }

    /// `y` holds the `heads` vectors that follow each other in `x`, each embedded at
    /// a position.
    pub open spec fn heads_embedded(
        &self,
        table: RopeView<T>,
        x: Seq<T>,
        heads: int,
        position: usize,
        y: Seq<T>,
    ) -> bool {
        &&& y.len() == x.len()
        &&& forall|h: int, i: int|
            0 <= h < heads && 0 <= i < table.half_dim ==> #[trigger] self.pair_embedded(
                table,
                x,
                h * (2 * table.half_dim),
                position,
                i,
                y,
            )
    }
}

proof fn lemma_entry(p: int, max: int, half: int, i: int)
    requires
        0 <= p < max,
        0 <= i < half,
    ensures
        0 <= p * half + i < max * half,
        0 <= p * half,
        p * half + half <= max * half,
        (p * half + i) / half == p,
        (p * half + i) % half == i,
{
    assert(0 <= p * half) by (nonlinear_arith)
        requires
            0 <= p,
            0 < half,
    ;
    assert(p * half + half <= max * half) by (nonlinear_arith)
        requires
            p + 1 <= max,
            0 < half,
    ;
    vstd::arithmetic::div_mod::lemma_fundamental_div_mod_converse(p * half + i, half, p, i);
}

impl<T: Copy> RoPE<T> {
    /// Create a new RoPE instance with precomputed frequencies.
    /// `dim`: head dimension (e.g., 128)
    /// `base`: frequency base
    /// `max_seq_len`: maximum sequence length to support
    pub fn new<F: Fn(Op<T>) -> T>(
        n: &Numbers<T, F>,
        dim: usize,
        base: T,
        max_seq_len: usize,
    ) -> (r: Self)
        requires
            n.total(),
            max_seq_len * (dim / 2) <= usize::MAX,
        ensures
            n.tabulates(base, dim as int, max_seq_len as int, r@),
    {
        let half_dim: usize = dim / 2;
        let mut freqs_cos: Vec<T> = Vec::new();
        let mut freqs_sin: Vec<T> = Vec::new();
        let mut pos: usize = 0;
        assert(0 * half_dim == 0);
        while pos < max_seq_len
            invariant
                n.total(),
                pos <= max_seq_len,
                half_dim == dim / 2,
                freqs_cos@.len() == pos * half_dim,
                freqs_sin@.len() == pos * half_dim,
                forall|p: int, i: int|
                    0 <= p < pos && 0 <= i < half_dim ==> n.angle_at(
                        base,
                        p as usize,
                        i,
                        dim as int,
                        #[trigger] freqs_cos@[p * half_dim + i],
                        freqs_sin@[p * half_dim + i],
                    ),
            decreases max_seq_len - pos,
        {
            let ghost c0 = freqs_cos@;
            let ghost s0 = freqs_sin@;
            push_angles(n, dim, base, pos, &mut freqs_cos, &mut freqs_sin);
            proof {
                assert((pos + 1) * half_dim == pos * half_dim + half_dim) by (nonlinear_arith);
                assert forall|p: int, i: int| 0 <= p < pos + 1 && 0 <= i < half_dim implies n.angle_at(
                    base,
                    p as usize,
                    i,
                    dim as int,
                    #[trigger] freqs_cos@[p * half_dim + i],
                    freqs_sin@[p * half_dim + i],
                ) by {
                    if p < pos {
                        lemma_entry(p, pos as int, half_dim as int, i);
                        assert(freqs_cos@[p * half_dim + i] == c0[p * half_dim + i]);
                        assert(freqs_sin@[p * half_dim + i] == s0[p * half_dim + i]);
                    } else {
                        assert(freqs_cos@[c0.len() + i] == freqs_cos@[p * half_dim + i]);
                    }
                }
            }
            pos += 1;
        }
        RoPE { freqs_cos, freqs_sin, max_pos: max_seq_len, half_dim, dim, base }
    }

    /// Apply RoPE to a query or key vector in-place.
    /// `x`: vector of length `dim`
    /// `position`: token position
    pub fn apply<F: Fn(Op<T>) -> T>(&self, n: &Numbers<T, F>, x: &mut [T], position: usize)
        requires
            n.total(),
            self@.wf(),
            old(x)@.len() == 2 * self@.half_dim,
        ensures
            n.embedded(self@, old(x)@, 0, position, final(x)@),
    {
        self.apply_at(n, x, 0, position);
    }

    /// Apply RoPE to the vector that starts at `start`
    fn apply_at<F: Fn(Op<T>) -> T>(
        &self,
        n: &Numbers<T, F>,
        x: &mut [T],
        start: usize,
        position: usize,
    )
        requires
            n.total(),
            self@.wf(),
            start + 2 * self@.half_dim <= old(x)@.len(),
        ensures
            n.embedded(self@, old(x)@, start as int, position, final(x)@),
    {
        let ghost v = x@;
        let mut i: usize = 0;
        while i < self.half_dim
            invariant
                n.total(),
                self@.wf(),
                i <= self.half_dim,
                start + 2 * self@.half_dim <= v.len(),
                x@.len() == v.len(),
                v == old(x)@,
                forall|k: int|
                    0 <= k < i ==> #[trigger] n.pair_embedded(
                        self@,
                        v,
                        start as int,
                        position,
                        k,
                        x@,
                    ),
                forall|j: int|
                    0 <= j < v.len() && !(start <= j < start + 2 * i) ==> #[trigger] x@[j] == v[j],
            decreases self.half_dim - i,
        {
            assert(x.len() <= usize::MAX);
            let (c, s) = self.angle(n, position, i);
            let o: usize = start + 2 * i;
            let x0: T = x[o];
            let x1: T = x[o + 1];
            let (y0, y1) = n.turn(x0, x1, c, s);
            let ghost before = x@;
            x[o] = y0;
            x[o + 1] = y1;
            proof {
                assert(n.turned_at(v, o as int, c, s, x@));
                assert(n.pair_embedded(self@, v, start as int, position, i as int, x@));
                assert forall|k: int| 0 <= k < i implies #[trigger] n.pair_embedded(
                    self@,
                    v,
                    start as int,
                    position,
                    k,
                    x@,
                ) by {
                    lemma_same_pair(n, self@, v, start as int, position, k, before, x@);
                }
            }
            i += 1;
        }
    }

    /// The cosine and the sine for pair `i`
    fn angle<F: Fn(Op<T>) -> T>(
        &self,
        n: &Numbers<T, F>,
        position: usize,
        i: usize,
    ) -> (r: (T, T))
        requires
            n.total(),
            self@.wf(),
            i < self@.half_dim,
        ensures
            position < self@.max_pos ==> r.0 == self@.cos[position * self@.half_dim + i] && r.1
                == self@.sin[position * self@.half_dim + i],
            position >= self@.max_pos ==> n.angle_at(
                self@.base,
                position,
                i as int,
                self@.dim as int,
                r.0,
                r.1,
            ),
    {
        if position < self.max_pos {
            proof {
                lemma_entry(
                    position as int,
                    self.max_pos as int,
                    self.half_dim as int,
                    i as int,
                );
                assert(self.freqs_cos.len() <= usize::MAX);
            }
            let k: usize = position * self.half_dim + i;
            (self.freqs_cos[k], self.freqs_sin[k])
        } else {
            let f: T = n.find_frequency(self.base, i, self.dim);
            n.find_angle(position, f)
        }
    }

    /// Apply RoPE to vectors that follow each other
    pub fn apply_heads<F: Fn(Op<T>) -> T>(
        &self,
        n: &Numbers<T, F>,
        x: &mut [T],
        heads: usize,
        position: usize,
    )
        requires
            n.total(),
            self@.wf(),
            heads * (2 * self@.half_dim) == old(x)@.len(),
        ensures
            n.heads_embedded(self@, old(x)@, heads as int, position, final(x)@),
    {
        let ghost v = x@;
        let ghost dim = 2 * self@.half_dim;
        let mut h: usize = 0;
        let mut start: usize = 0;
        assert(0 * dim == 0);
        while h < heads
            invariant
                n.total(),
                self@.wf(),
                dim == 2 * self@.half_dim,
                h <= heads,
                heads * dim == v.len(),
                start == h * dim,
                x@.len() == v.len(),
                v == old(x)@,
                forall|g: int, i: int|
                    0 <= g < h && 0 <= i < self@.half_dim ==> #[trigger] n.pair_embedded(
                        self@,
                        v,
                        g * dim,
                        position,
                        i,
                        x@,
                    ),
                forall|j: int| start <= j < v.len() ==> #[trigger] x@[j] == v[j],
            decreases heads - h,
        {
            proof {
                assert(x.len() <= usize::MAX);
                assert(h * dim + dim <= heads * dim) by (nonlinear_arith)
                    requires
                        h + 1 <= heads,
                        dim >= 0,
                ;
                assert((h + 1) * dim == h * dim + dim) by (nonlinear_arith);
            }
            let ghost before = x@;
            self.apply_at(n, x, start, position);
            proof {
                assert forall|g: int, i: int|
                    0 <= g < h + 1 && 0 <= i < self@.half_dim implies #[trigger] n.pair_embedded(
                    self@,
                    v,
                    g * dim,
                    position,
                    i,
                    x@,
                ) by {
                    if g < h {
                        assert(g * dim + dim <= h * dim) by (nonlinear_arith)
                            requires
                                g + 1 <= h,
                                dim >= 0,
                        ;
                        assert(g * dim >= 0) by (nonlinear_arith)
                            requires
                                g >= 0,
                                dim >= 0,
                        ;
                        assert(n.pair_embedded(self@, v, g * dim, position, i, before));
                        lemma_same_pair(n, self@, v, g * dim, position, i, before, x@);
                    } else {
                        assert(n.pair_embedded(self@, before, start as int, position, i, x@));
                        lemma_same_source(n, self@, before, v, start as int, position, i, x@);
                    }
                }
            }
            start = start + 2 * self.half_dim;
            h += 1;
        }
    }

    /// Get cosine and sine values for a position (for batch application)
    pub fn get_freqs(&self, position: usize) -> (r: Option<(&[T], &[T])>)
        requires
            self@.wf(),
        ensures
            r is Some <==> position < self@.max_pos,
            r matches Some(p) ==> p.0@ == self@.cos.subrange(
                position * self@.half_dim,
                position * self@.half_dim + self@.half_dim,
            ) && p.1@ == self@.sin.subrange(
                position * self@.half_dim,
                position * self@.half_dim + self@.half_dim,
            ),
    {
        if position >= self.max_pos {
            return None;
        }
        proof {
            let (p, m, d) = (position as int, self.max_pos as int, self.half_dim as int);
            assert(0 <= p * d) by (nonlinear_arith)
                requires
                    0 <= p,
                    0 <= d,
            ;
            assert(p * d + d <= m * d) by (nonlinear_arith)
                requires
                    p + 1 <= m,
                    0 <= d,
            ;
            assert(self.freqs_cos.len() <= usize::MAX);
        }
        let base: usize = position * self.half_dim;
        Some(
            (
                &self.freqs_cos.as_slice()[base..base + self.half_dim],
                &self.freqs_sin.as_slice()[base..base + self.half_dim],
            ),
        )
    }

    /// The length of the vectors that the table is for.
    pub fn dim(&self) -> (r: usize)
        requires
            2 * self@.half_dim <= usize::MAX,
        ensures
            r == 2 * self@.half_dim,
    {
        2 * self.half_dim
    }
}

proof fn lemma_same_pair<T: Copy, F: Fn(Op<T>) -> T>(
    n: &Numbers<T, F>,
    table: RopeView<T>,
    x: Seq<T>,
    start: int,
    position: usize,
    i: int,
    y: Seq<T>,
    z: Seq<T>,
)
    requires
        n.pair_embedded(table, x, start, position, i, y),
        y[start + 2 * i] == z[start + 2 * i],
        y[start + 2 * i + 1] == z[start + 2 * i + 1],
    ensures
        n.pair_embedded(table, x, start, position, i, z),
{
    if position >= table.max_pos {
        let (c, s) = choose|c: T, s: T| #[trigger]
            n.angle_at(table.base, position, i, table.dim as int, c, s) && n.turned_at(
                x,
                start + 2 * i,
                c,
                s,
                y,
            );
        assert(n.turned_at(x, start + 2 * i, c, s, z));
    }
}

proof fn lemma_same_source<T: Copy, F: Fn(Op<T>) -> T>(
    n: &Numbers<T, F>,
    table: RopeView<T>,
    x: Seq<T>,
    w: Seq<T>,
    start: int,
    position: usize,
    i: int,
    y: Seq<T>,
)
    requires
        n.pair_embedded(table, x, start, position, i, y),
        x[start + 2 * i] == w[start + 2 * i],
        x[start + 2 * i + 1] == w[start + 2 * i + 1],
    ensures
        n.pair_embedded(table, w, start, position, i, y),
{
    if position >= table.max_pos {
        let (c, s) = choose|c: T, s: T| #[trigger]
            n.angle_at(table.base, position, i, table.dim as int, c, s) && n.turned_at(
                x,
                start + 2 * i,
                c,
                s,
                y,
            );
        assert(n.turned_at(w, start + 2 * i, c, s, y));
    }
}

fn push_angles<T: Copy, F: Fn(Op<T>) -> T>(
    n: &Numbers<T, F>,
    dim: usize,
    base: T,
    pos: usize,
    cos: &mut Vec<T>,
    sin: &mut Vec<T>,
)
    requires
        n.total(),
        old(cos)@.len() == old(sin)@.len(),
    ensures
        final(cos)@.len() == old(cos)@.len() + dim / 2,
        final(sin)@.len() == old(sin)@.len() + dim / 2,
        forall|j: int| 0 <= j < old(cos)@.len() ==> #[trigger] final(cos)@[j] == old(cos)@[j],
        forall|j: int| 0 <= j < old(sin)@.len() ==> #[trigger] final(sin)@[j] == old(sin)@[j],
        forall|i: int|
            0 <= i < dim / 2 ==> n.angle_at(
                base,
                pos,
                i,
                dim as int,
                #[trigger] final(cos)@[old(cos)@.len() + i],
                final(sin)@[old(sin)@.len() + i],
            ),
{
    let ghost c0 = cos@;
    let ghost s0 = sin@;
    let mut i: usize = 0;
    while i < dim / 2
        invariant
            n.total(),
            i <= dim / 2,
            c0 == old(cos)@,
            s0 == old(sin)@,
            c0.len() == s0.len(),
            cos@.len() == c0.len() + i,
            sin@.len() == s0.len() + i,
            forall|j: int| 0 <= j < c0.len() ==> #[trigger] cos@[j] == c0[j],
            forall|j: int| 0 <= j < s0.len() ==> #[trigger] sin@[j] == s0[j],
            forall|k: int|
                0 <= k < i ==> n.angle_at(
                    base,
                    pos,
                    k,
                    dim as int,
                    #[trigger] cos@[c0.len() + k],
                    sin@[s0.len() + k],
                ),
        decreases dim / 2 - i,
    {
        let f: T = n.find_frequency(base, i, dim);
        let (c, s) = n.find_angle(pos, f);
        assert(n.angle_at(base, pos, i as int, dim as int, c, s));
        cos.push(c);
        sin.push(s);
        i += 1;
    }
}

/// Every pair is turned by the angle that the base gives for the position, in a table of
/// any length: a position past the table is embedded as one within it.
pub proof fn law_pairs_turn_by_base_and_position<T: Copy, F: Fn(Op<T>) -> T>(
    n: Numbers<T, F>,
    base: T,
    dim: int,
    max_seq_len: int,
    table: RopeView<T>,
    x: Seq<T>,
    start: int,
    position: usize,
    i: int,
    y: Seq<T>,
)
    requires
        n.tabulates(base, dim, max_seq_len, table),
        n.pair_embedded(table, x, start, position, i, y),
        0 <= i < dim / 2,
    ensures
        n.pair_placed(base, dim, x, start, position, i, y),
{
    if position < table.max_pos {
        let (c, s) = (
            table.cos[position * table.half_dim + i],
            table.sin[position * table.half_dim + i],
        );
        let p = position as int;
        assert(table.cos[p * (dim / 2) + i] == c);
        assert(n.angle_at(base, position, i, dim, c, s));
    }
}

pub(crate) proof fn lemma_angle_is_unique<T: Copy, F: Fn(Op<T>) -> T>(
    n: Numbers<T, F>,
    base: T,
    position: usize,
    i: int,
    dim: int,
    c: T,
    s: T,
    c2: T,
    s2: T,
)
    requires
        n.single_valued(),
        n.angle_at(base, position, i, dim, c, s),
        n.angle_at(base, position, i, dim, c2, s2),
    ensures
        c == c2,
        s == s2,
{
    let f = choose|f: T| #[trigger]
        n.frequency(base, i, dim, f) && n.angle_of(position, f, c, s);
    let g = choose|f: T| #[trigger]
        n.frequency(base, i, dim, f) && n.angle_of(position, f, c2, s2);
    assert(f == g);
}

proof fn lemma_placed_pair_is_unique<T: Copy, F: Fn(Op<T>) -> T>(
    n: Numbers<T, F>,
    base: T,
    dim: int,
    x: Seq<T>,
    start: int,
    position: usize,
    i: int,
    y: Seq<T>,
    z: Seq<T>,
)
    requires
        n.single_valued(),
        n.pair_placed(base, dim, x, start, position, i, y),
        n.pair_placed(base, dim, x, start, position, i, z),
    ensures
        y[start + 2 * i] == z[start + 2 * i],
        y[start + 2 * i + 1] == z[start + 2 * i + 1],
{
    let (c, s) = choose|c: T, s: T| #[trigger]
        n.angle_at(base, position, i, dim, c, s) && n.turned_at(x, start + 2 * i, c, s, y);
    let (c2, s2) = choose|c: T, s: T| #[trigger]
        n.angle_at(base, position, i, dim, c, s) && n.turned_at(x, start + 2 * i, c, s, z);
    lemma_angle_is_unique(n, base, position, i, dim, c, s, c2, s2);
    lemma_turned_pair_is_unique(n, x, start + 2 * i, c, s, y, z);
}

pub(crate) proof fn lemma_turned_pair_is_unique<T: Copy, F: Fn(Op<T>) -> T>(
    n: Numbers<T, F>,
    x: Seq<T>,
    o: int,
    c: T,
    s: T,
    y: Seq<T>,
    z: Seq<T>,
)
    requires
        n.single_valued(),
        n.turned_at(x, o, c, s, y),
        n.turned_at(x, o, c, s, z),
    ensures
        y[o] == z[o],
        y[o + 1] == z[o + 1],
{
}

/// The length of a table does not matter: where the arithmetic gives one result for each
/// operation, tables for the same vectors and the same base embed a vector alike at every
/// position, however many positions each holds.
pub proof fn law_table_length_does_not_matter<T: Copy, F: Fn(Op<T>) -> T>(
    n: Numbers<T, F>,
    base: T,
    dim: int,
    len_a: int,
    a: RopeView<T>,
    len_b: int,
    b: RopeView<T>,
    x: Seq<T>,
    start: int,
    position: usize,
    y: Seq<T>,
    z: Seq<T>,
)
    requires
        n.single_valued(),
        n.tabulates(base, dim, len_a, a),
        n.tabulates(base, dim, len_b, b),
        n.embedded(a, x, start, position, y),
        n.embedded(b, x, start, position, z),
    ensures
        y == z,
{
    assert forall|j: int| 0 <= j < x.len() implies y[j] == z[j] by {
        if start <= j < start + 2 * a.half_dim {
            let i = (j - start) / 2;
            assert(n.pair_embedded(a, x, start, position, i, y));
            assert(n.pair_embedded(b, x, start, position, i, z));
            law_pairs_turn_by_base_and_position(n, base, dim, len_a, a, x, start, position, i, y);
            law_pairs_turn_by_base_and_position(n, base, dim, len_b, b, x, start, position, i, z);
            lemma_placed_pair_is_unique(n, base, dim, x, start, position, i, y, z);
        }
    }
    assert(y =~= z);
}

} // verus!
