//! The key-value cache of one layer: one key row and one value row per token.

use vstd::prelude::*;

verus! {

/// A buffer with `row` written over the places from `at` on.
pub open spec fn written<T>(buf: Seq<T>, at: int, row: Seq<T>) -> Seq<T> {
    buf.take(at) + row + buf.skip(at + row.len())
}

/// Keys and values of the tokens seen so far, in two flat buffers of
/// `max_seq_len` rows each.
#[derive(Debug, Clone)]
pub struct KVCache<T> {
    /// Cached keys: flat buffer of shape [max_seq_len, kv_dim]
    keys: Vec<T>,
    /// Cached values: flat buffer of shape [max_seq_len, kv_dim]
    values: Vec<T>,
    /// Current sequence length (number of tokens cached)
    seq_len: usize,
    /// Maximum sequence length
    max_seq_len: usize,
    /// KV dimension (n_kv_heads × head_dim)
    kv_dim: usize,
}

/// What a cache holds.
#[verifier::ext_equal]
pub struct CacheView<T> {
    /// The key buffer.
    pub keys: Seq<T>,
    /// The value buffer.
    pub values: Seq<T>,
    /// The number of tokens stored.
    pub len: nat,
    /// The number of rows.
    pub max: nat,
    /// The length of a row.
    pub dim: nat,
}

impl<T> CacheView<T> {
    /// A cache of `max` rows without tokens, all zeros.
    pub open spec fn empty(max: nat, dim: nat, zero: T) -> CacheView<T> {
        CacheView {
            keys: Seq::new(max * dim, |i: int| zero),
            values: Seq::new(max * dim, |i: int| zero),
            len: 0,
            max,
            dim,
        }
    }

    /// The buffers have their size, and no more tokens are stored than fit; rows
    /// without elements fit without end.
    pub open spec fn wf(self) -> bool {
        &&& self.keys.len() == self.max * self.dim
        &&& self.values.len() == self.max * self.dim
        &&& self.len <= self.max || self.dim == 0
    }

    /// The rows of the tokens stored.
    pub open spec fn stored(self, buf: Seq<T>) -> Seq<T> {
        buf.take((self.len * self.dim) as int)
    }
}

impl<T> View for KVCache<T> {
    type V = CacheView<T>;

    closed spec fn view(&self) -> CacheView<T> {
        CacheView {
            keys: self.keys@,
            values: self.values@,
            len: self.seq_len as nat,
            max: self.max_seq_len as nat,
            dim: self.kv_dim as nat,
        }
    }
}

fn write_row<T: Copy>(buf: &mut Vec<T>, at: usize, row: &[T])
    requires
        at + row@.len() <= old(buf)@.len(),
    ensures
        final(buf)@ == written(old(buf)@, at as int, row@),
{
    let ghost start = buf@;
    let mut i: usize = 0;
    while i < row.len()
        invariant
            i <= row@.len(),
            buf@.len() == start.len(),
            at + row@.len() <= start.len(),
            start == old(buf)@,
            forall|j: int|
                0 <= j < start.len() ==> #[trigger] buf@[j] == (if at <= j < at + i {
                    row@[j - at]
                } else {
                    start[j]
                }),
        decreases row@.len() - i,
    {
        assert(buf.len() <= usize::MAX);
        buf.set(at + i, row[i]);
        i += 1;
    }
    assert(buf@ =~= written(start, at as int, row@));
}

proof fn lemma_row_fits(n: nat, max: nat, dim: nat)
    requires
        n < max || dim == 0,
    ensures
        n * dim + dim <= max * dim,
        (n + 1) * dim == n * dim + dim,
        0 <= n * dim,
{
    assert((n + 1) * dim == n * dim + dim) by (nonlinear_arith);
    assert(n * dim >= 0) by (nonlinear_arith);
    if n < max {
        assert(n * dim + dim <= max * dim) by (nonlinear_arith)
            requires
                n + 1 <= max,
        ;
    } else {
        assert(n * 0 == 0 && max * 0 == 0);
    }
}

proof fn lemma_prefix_fits(n: nat, max: nat, dim: nat)
    requires
        n <= max || dim == 0,
    ensures
        0 <= n * dim <= max * dim,
{
    assert(n * dim >= 0) by (nonlinear_arith);
    if n <= max {
        assert(n * dim <= max * dim) by (nonlinear_arith)
            requires
                n <= max,
        ;
    } else {
        assert(n * 0 == 0 && max * 0 == 0);
    }
}

impl<T: Copy> KVCache<T> {
    /// Create a new KV cache, its buffers filled with `zero`
    pub fn new(kv_dim: usize, max_seq_len: usize, zero: T) -> (r: Self)
        requires
            max_seq_len * kv_dim <= usize::MAX,
        ensures
            r@.wf(),
            r@ == CacheView::empty(max_seq_len as nat, kv_dim as nat, zero),
    {
        proof {
            assert(max_seq_len * kv_dim >= 0) by (nonlinear_arith);
        }
        let total_size: usize = max_seq_len * kv_dim;
        let mut keys: Vec<T> = Vec::new();
        let mut values: Vec<T> = Vec::new();
        let mut i: usize = 0;
        while i < total_size
            invariant
                i <= total_size,
                keys@ =~= Seq::new(i as nat, |i: int| zero),
                values@ =~= Seq::new(i as nat, |i: int| zero),
            decreases total_size - i,
        {
            keys.push(zero);
            values.push(zero);
            i += 1;
        }
        let r = KVCache { keys, values, seq_len: 0, max_seq_len, kv_dim };
        assert(r@ =~= CacheView::empty(max_seq_len as nat, kv_dim as nat, zero));
        r
    }

    /// The length, the capacity and the length of a row are machine integers.
    pub proof fn lemma_dim_fits(&self)
        ensures
            self@.dim <= usize::MAX,
            self@.max <= usize::MAX,
            self@.len <= usize::MAX,
    {
    }

    /// Append a new key vector to the cache. It counts once its value follows.
    pub fn append_k(&mut self, k: &[T])
        requires
            old(self)@.wf(),
            k@.len() == old(self)@.dim,
            old(self)@.len < old(self)@.max,
        ensures
            final(self)@.wf(),
            final(self)@ == (CacheView {
                keys: written(old(self)@.keys, (old(self)@.len * old(self)@.dim) as int, k@),
                ..old(self)@
            }),
    {
        proof {
            lemma_row_fits(self@.len, self@.max, self@.dim);
            assert(self.keys.len() <= usize::MAX);
        }
        let offset: usize = self.seq_len * self.kv_dim;
        write_row(&mut self.keys, offset, k);
    }

    /// Append a new value vector to the cache, and count the token
    pub fn append_v(&mut self, v: &[T])
        requires
            old(self)@.wf(),
            v@.len() == old(self)@.dim,
            old(self)@.len < old(self)@.max || old(self)@.dim == 0,
            old(self)@.len < usize::MAX,
        ensures
            final(self)@.wf(),
            final(self)@ == (CacheView {
                values: written(old(self)@.values, (old(self)@.len * old(self)@.dim) as int, v@),
                len: old(self)@.len + 1,
                ..old(self)@
            }),
    {
        proof {
            lemma_row_fits(self@.len, self@.max, self@.dim);
            assert(self.keys.len() <= usize::MAX);
        }
        let offset: usize = self.seq_len * self.kv_dim;
        write_row(&mut self.values, offset, v);
        self.seq_len = self.seq_len + 1;
    }

    /// Get a slice of keys for a specific position and head dimension range
    pub fn get_k_slice(&self, position: usize, head_start: usize, len: usize) -> (r: &[T])
        requires
            self@.wf(),
            position < self@.len,
            position * self@.dim + head_start + len <= self@.keys.len(),
        ensures
            r@ == self@.keys.subrange(
                position * self@.dim + head_start,
                position * self@.dim + head_start + len,
            ),
    {
        proof {
            assert(self.keys.len() <= usize::MAX);
            assert(position * self.kv_dim >= 0) by (nonlinear_arith);
        }
        let offset: usize = position * self.kv_dim + head_start;
        &self.keys.as_slice()[offset..offset + len]
    }

    /// Get a slice of values for a specific position and head dimension range
    pub fn get_v_slice(&self, position: usize, head_start: usize, len: usize) -> (r: &[T])
        requires
            self@.wf(),
            position < self@.len,
            position * self@.dim + head_start + len <= self@.values.len(),
        ensures
            r@ == self@.values.subrange(
                position * self@.dim + head_start,
                position * self@.dim + head_start + len,
            ),
    {
        proof {
            assert(self.values.len() <= usize::MAX);
            assert(position * self.kv_dim >= 0) by (nonlinear_arith);
        }
        let offset: usize = position * self.kv_dim + head_start;
        &self.values.as_slice()[offset..offset + len]
    }

    /// Get the full key buffer for all positions
    pub fn all_keys(&self) -> (r: &[T])
        requires
            self@.wf(),
        ensures
            r@ == self@.stored(self@.keys),
    {
        proof {
            lemma_prefix_fits(self@.len, self@.max, self@.dim);
            assert(self.keys.len() <= usize::MAX);
        }
        let end: usize = self.seq_len * self.kv_dim;
        assert(self.keys@.subrange(0, end as int) =~= self.keys@.take(end as int));
        &self.keys.as_slice()[0..end]
    }

    /// Get the full value buffer for all positions
    pub fn all_values(&self) -> (r: &[T])
        requires
            self@.wf(),
        ensures
            r@ == self@.stored(self@.values),
    {
        proof {
            lemma_prefix_fits(self@.len, self@.max, self@.dim);
            assert(self.values.len() <= usize::MAX);
        }
        let end: usize = self.seq_len * self.kv_dim;
        assert(self.values@.subrange(0, end as int) =~= self.values@.take(end as int));
        &self.values.as_slice()[0..end]
    }

    /// Current sequence length (number of tokens stored)
    pub fn len(&self) -> (r: usize)
        ensures
            r == self@.len,
    {
        self.seq_len
    }

    /// Check if cache is empty
    pub fn is_empty(&self) -> (r: bool)
        ensures
            r == (self@.len == 0),
    {
        self.seq_len == 0
    }

    /// KV dimension
    pub fn kv_dim(&self) -> (r: usize)
        ensures
            r == self@.dim,
    {
        self.kv_dim
    }

    /// Maximum sequence length
    pub fn max_len(&self) -> (r: usize)
        ensures
            r == self@.max,
    {
        self.max_seq_len
    }

    /// Reset cache (clear all stored K/V)
    pub fn clear(&mut self)
        requires
            old(self)@.wf(),
        ensures
            final(self)@.wf(),
            final(self)@ == (CacheView { len: 0, ..old(self)@ }),
    {
        self.seq_len = 0;
        assert(0 <= self.max_seq_len);
    }
}

/// Appending a key and then a value stores one more token: behind the rows stored
/// before stand the new ones, and those before stay as they are.
pub proof fn law_append_adds_one_token<T>(c: CacheView<T>, k: Seq<T>, v: Seq<T>)
    requires
        c.wf(),
        c.len < c.max,
        k.len() == c.dim,
        v.len() == c.dim,
    ensures
        ({
            let at = (c.len * c.dim) as int;
            let a = CacheView { keys: written(c.keys, at, k), ..c };
            let b = CacheView { values: written(a.values, at, v), len: a.len + 1, ..a };
            &&& a.stored(a.keys) == c.stored(c.keys)
            &&& b.stored(b.keys) == c.stored(c.keys) + k
            &&& b.stored(b.values) == c.stored(c.values) + v
        }),
{
    let at = (c.len * c.dim) as int;
    let a = CacheView { keys: written(c.keys, at, k), ..c };
    let b = CacheView { values: written(a.values, at, v), len: a.len + 1, ..a };
    lemma_row_fits(c.len, c.max, c.dim);
    assert(a.stored(a.keys) =~= c.stored(c.keys));
    assert(b.stored(b.keys) =~= c.stored(c.keys) + k);
    assert(b.stored(b.values) =~= c.stored(c.values) + v);
}

/// The row of a stored token is its part of the rows stored.
pub proof fn law_slices_are_parts_of_stored_rows<T>(c: CacheView<T>, p: nat, start: nat, n: nat)
    requires
        c.wf(),
        p < c.len,
        start + n <= c.dim,
    ensures
        p * c.dim + start + n <= c.len * c.dim <= c.keys.len(),
        c.keys.subrange((p * c.dim + start) as int, (p * c.dim + start + n) as int) == c.stored(
            c.keys,
        ).subrange((p * c.dim + start) as int, (p * c.dim + start + n) as int),
{
    lemma_prefix_fits(c.len, c.max, c.dim);
    assert(p * c.dim + c.dim <= c.len * c.dim) by (nonlinear_arith)
        requires
            p + 1 <= c.len,
    ;
    assert(p * c.dim >= 0) by (nonlinear_arith);
    assert(c.keys.subrange((p * c.dim + start) as int, (p * c.dim + start + n) as int) =~= c.stored(
        c.keys,
    ).subrange((p * c.dim + start) as int, (p * c.dim + start + n) as int));
}

/// A cleared cache holds no rows.
pub proof fn law_clear_empties<T>(c: CacheView<T>)
    ensures
        (CacheView { len: 0, ..c }).stored(c.keys) == Seq::<T>::empty(),
        (CacheView { len: 0, ..c }).stored(c.values) == Seq::<T>::empty(),
{
    assert(0 * c.dim == 0);
    assert(c.keys.take(0) =~= Seq::empty());
    assert(c.values.take(0) =~= Seq::empty());
}

} // verus!
