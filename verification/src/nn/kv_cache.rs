//! The keys and values that attention keeps of the tokens it has seen.

use crate::tensor::ops;
use vstd::prelude::*;

verus! {

/// The layout of a cache.
#[derive(Debug, Clone, Copy, PartialEq, Eq, Structural)]
pub struct KvCacheSpec {
    /// The number of layers, each with its own keys and values.
    pub n_layer: usize,
    /// How many tokens a layer keeps.
    pub max_context: usize,
    /// The number of attention heads.
    pub n_head: usize,
    /// The number of elements of a key or a value of one head.
    pub head_dim: usize,
}

impl KvCacheSpec {
    /// There is room for a token, and a token has elements.
    pub open spec fn valid(self) -> bool {
        self.max_context > 0 && self.n_head > 0 && self.head_dim > 0
    }

    /// The layout from its numbers.
    pub fn new(n_layer: usize, max_context: usize, n_head: usize, head_dim: usize) -> (spec: Self)
        requires
            max_context > 0,
            n_head > 0,
            head_dim > 0,
        ensures
            spec == (KvCacheSpec { n_layer, max_context, n_head, head_dim }),
            spec.valid(),
    {
        KvCacheSpec { n_layer, max_context, n_head, head_dim }
    }

    /// A layout without layers, which keeps nothing.
    pub fn token_only(max_context: usize) -> (spec: Self)
        requires
            max_context > 0,
        ensures
            spec == (KvCacheSpec { n_layer: 0, max_context, n_head: 1, head_dim: 1 }),
            spec.valid(),
    {
        Self::new(0, max_context, 1, 1)
    }
}

/// Keys or values of some tokens: a block of `[n_head, tokens, head_dim]`.
#[derive(Debug, Clone, PartialEq, Eq)]
pub struct KvTensor<T> {
    pub shape: Vec<usize>,
    pub data: Vec<T>,
}

/// The row of head `h` and token `p` in a block of `len` tokens.
pub open spec fn row<T>(data: Seq<T>, len: int, head_dim: int, h: int, p: int) -> Seq<T> {
    Seq::new(head_dim as nat, |d: int| data[(h * len + p) * head_dim + d])
}

/// The rows of head `h`, token by token.
pub open spec fn rows<T>(data: Seq<T>, len: nat, head_dim: nat, h: int) -> Seq<Seq<T>> {
    Seq::new(len, |p: int| row(data, len as int, head_dim as int, h, p))
}

impl<T> KvTensor<T> {
    /// Whether the block fits a cache.
    pub open spec fn fits(&self, spec: KvCacheSpec) -> bool {
        &&& self.shape@.len() == 3
        &&& self.shape@[0] == spec.n_head
        &&& self.shape@[2] == spec.head_dim
        &&& self.data@.len() == spec.n_head * self.shape@[1] * spec.head_dim
    }

    /// The number of tokens.
    pub open spec fn tokens(&self) -> nat {
        self.shape@[1] as nat
    }

    /// The rows of head `h`, token by token.
    pub open spec fn head(&self, spec: KvCacheSpec, h: int) -> Seq<Seq<T>> {
        rows(self.data@, self.tokens(), spec.head_dim as nat, h)
    }
}

/// What stays of `s` when only the last `max` are kept.
pub open spec fn latest<A>(s: Seq<A>, max: nat) -> Seq<A> {
    if s.len() > max {
        s.skip(s.len() - max)
    } else {
        s
    }
}

/// Keeping the latest in pieces keeps what keeping them at once does.
pub proof fn law_windows_slide<A>(first: Seq<A>, second: Seq<A>, max: nat)
    ensures
        latest(latest(first, max) + second, max) == latest(first + second, max),
{
    assert(latest(latest(first, max) + second, max) =~= latest(first + second, max));
}

/// The tokens of a block that may not be there.
pub open spec fn block_tokens<T>(block: Option<KvTensor<T>>) -> nat {
    match block {
        Some(b) => b.tokens(),
        None => 0,
    }
}

/// The rows of head `h` of a block that may not be there.
pub open spec fn block_head<T>(block: Option<KvTensor<T>>, spec: KvCacheSpec, h: int) -> Seq<
    Seq<T>,
> {
    match block {
        Some(b) => b.head(spec, h),
        None => Seq::empty(),
    }
}

/// Whether a block that may not be there fits a cache.
pub open spec fn block_fits<T>(block: Option<KvTensor<T>>, spec: KvCacheSpec) -> bool {
    block matches Some(b) ==> b.fits(spec)
}

/// The element of place `q` in the joined block of `keep` tokens, the first of which is token
/// `skip` of the old and the new ones together.
spec fn joined_element<T>(
    old_data: Seq<T>,
    old_len: int,
    new_data: Seq<T>,
    new_len: int,
    head_dim: int,
    keep: int,
    skip: int,
    q: int,
) -> T {
    let d = q % head_dim;
    let r = q / head_dim;
    let l = skip + r % keep;
    let h = r / keep;
    if l < old_len {
        old_data[(h * old_len + l) * head_dim + d]
    } else {
        new_data[(h * new_len + (l - old_len)) * head_dim + d]
    }
}

/// The numbers on the way to a place lie below the size of the block.
proof fn lemma_place(h: int, p: int, d: int, n_head: int, len: int, head_dim: int)
    requires
        0 <= h < n_head,
        0 <= p < len,
        0 <= d < head_dim,
    ensures
        0 <= h * len <= h * len + p,
        h * len + p <= (h * len + p) * head_dim,
        0 <= (h * len + p) * head_dim + d < n_head * len * head_dim,
        ((h * len + p) * head_dim + d) % head_dim == d,
        (((h * len + p) * head_dim + d) / head_dim) % len == p,
        (((h * len + p) * head_dim + d) / head_dim) / len == h,
{
    ops::lemma_split_position(h, p, n_head, len);
    let x = h * len + p;
    ops::lemma_split_position(x, d, n_head * len, head_dim);
    assert(0 <= h * len) by (nonlinear_arith)
        requires
            0 <= h,
            0 <= p < len,
    ;
    assert(x <= x * head_dim) by (nonlinear_arith)
        requires
            0 <= x,
            0 <= d < head_dim,
    ;
}

/// Joins a block to what was kept before it, and keeps the latest tokens.
fn append_kv_tensor<T: Copy>(
    existing: &Option<KvTensor<T>>,
    incoming: &KvTensor<T>,
    spec: KvCacheSpec,
) -> (joined: KvTensor<T>)
    requires
        spec.valid(),
        block_fits(*existing, spec),
        incoming.fits(spec),
        spec.n_head * (block_tokens(*existing) + incoming.tokens()) * spec.head_dim <= usize::MAX,
    ensures
        joined.fits(spec),
        joined.tokens() <= spec.max_context,
        forall|h: int|
            0 <= h < spec.n_head ==> #[trigger] joined.head(spec, h) == latest(
                block_head(*existing, spec, h) + incoming.head(spec, h),
                spec.max_context as nat,
            ),
{
    let n_head: usize = spec.n_head;
    let head_dim: usize = spec.head_dim;
    let new_len: usize = incoming.shape[1];
    let old_len: usize = match existing {
        Some(block) => block.shape[1],
        None => 0,
    };
    let ghost sum = old_len + new_len;
    assert(sum <= n_head * sum <= n_head * sum * head_dim) by (nonlinear_arith)
        requires
            n_head >= 1,
            head_dim >= 1,
            sum >= 0,
    ;
    let total: usize = old_len + new_len;
    let keep: usize = if total < spec.max_context {
        total
    } else {
        spec.max_context
    };
    let skip: usize = total - keep;
    assert(n_head * keep <= n_head * total) by (nonlinear_arith)
        requires
            n_head >= 1,
            keep <= total,
    ;
    assert(0 <= n_head * keep && n_head * keep <= n_head * keep * head_dim <= n_head * total
        * head_dim) by (nonlinear_arith)
        requires
            n_head >= 1,
            head_dim >= 1,
            0 <= keep <= total,
    ;
    let size: usize = n_head * keep * head_dim;
    let ghost old_data = match existing {
        Some(block) => block.data@,
        None => Seq::<T>::empty(),
    };
    assert(old_data.len() == n_head * old_len * head_dim) by {
        if existing is None {
            assert(n_head * 0 * head_dim == 0) by (nonlinear_arith);
        }
    }
    assert(n_head * old_len * head_dim <= n_head * total * head_dim) by (nonlinear_arith)
        requires
            n_head >= 1,
            head_dim >= 1,
            0 <= old_len <= total,
    ;
    let mut out: Vec<T> = Vec::new();
    let mut q: usize = 0;
    while q < size
        invariant
            q <= size,
            size == n_head * keep * head_dim,
            n_head > 0,
            head_dim > 0,
            skip + keep == old_len + new_len,
            old_len + new_len <= usize::MAX,
            existing matches Some(block) ==> old_data == block.data@,
            existing is None ==> old_len == 0,
            old_data.len() == n_head * old_len * head_dim,
            incoming.data@.len() == n_head * new_len * head_dim,
            old_data.len() <= usize::MAX,
            out@.len() == q,
            forall|x: int|
                0 <= x < q ==> #[trigger] out@[x] == joined_element(
                    old_data,
                    old_len as int,
                    incoming.data@,
                    new_len as int,
                    head_dim as int,
                    keep as int,
                    skip as int,
                    x,
                ),
        decreases size - q,
    {
        proof {
            ops::lemma_join_position(q as int, n_head * keep, head_dim as int);
            ops::lemma_join_position(q as int / head_dim as int, n_head as int, keep as int);
        }
        let r: usize = q / head_dim;
        let d: usize = q % head_dim;
        let h: usize = r / keep;
        let l: usize = skip + r % keep;
        if l < old_len {
            proof {
                lemma_place(
                    h as int,
                    l as int,
                    d as int,
                    n_head as int,
                    old_len as int,
                    head_dim as int,
                );
            }
            match existing {
                Some(block) => out.push(block.data[(h * old_len + l) * head_dim + d]),
                None => {},
            }
        } else {
            let l: usize = l - old_len;
            proof {
                lemma_place(
                    h as int,
                    l as int,
                    d as int,
                    n_head as int,
                    new_len as int,
                    head_dim as int,
                );
                let len = incoming.data@.len();
                assert(len == incoming.data.len());
            }
            out.push(incoming.data[(h * new_len + l) * head_dim + d]);
        }
        q = q + 1;
    }
    let mut shape: Vec<usize> = Vec::new();
    shape.push(n_head);
    shape.push(keep);
    shape.push(head_dim);
    let joined = KvTensor { shape, data: out };
    proof {
        assert forall|h: int| 0 <= h < n_head implies #[trigger] joined.head(spec, h) == latest(
            block_head(*existing, spec, h) + incoming.head(spec, h),
            spec.max_context as nat,
        ) by {
            let before = block_head(*existing, spec, h);
            let both = before + incoming.head(spec, h);
            let window = latest(both, spec.max_context as nat);
            assert(window.len() == keep);
            assert forall|p: int| 0 <= p < keep implies #[trigger] joined.head(spec, h)[p]
                == window[p] by {
                let l = skip + p;
                assert(window[p] == both[l]);
                let mine = row(joined.data@, keep as int, head_dim as int, h, p);
                assert forall|d: int| 0 <= d < head_dim implies #[trigger] mine[d]
                    == both[l][d] by {
                    lemma_place(h, p, d, n_head as int, keep as int, head_dim as int);
                    let x = (h * keep + p) * head_dim + d;
                    assert(joined.data@[x] == out@[x]);
                    if l < old_len {
                        assert(both[l] == before[l]);
                    } else {
                        assert(both[l] == incoming.head(spec, h)[l - old_len]);
                    }
                }
                assert(mine =~= both[l]);
            }
            assert(joined.head(spec, h) =~= window);
        }
    }
    joined
}

/// The cache of one layer.
#[derive(Debug, Clone, PartialEq, Eq)]
pub struct KvCacheLayer<T> {
    key: Option<KvTensor<T>>,
    value: Option<KvTensor<T>>,
    cached_len: usize,
}

impl<T> KvCacheLayer<T> {
    /// The keys, if there are any.
    pub closed spec fn keys(&self) -> Option<KvTensor<T>> {
        self.key
    }

    /// The values, if there are any.
    pub closed spec fn values(&self) -> Option<KvTensor<T>> {
        self.value
    }

    /// The number of tokens.
    pub closed spec fn tokens(&self) -> nat {
        self.cached_len as nat
    }

    /// Keys and values are of the same tokens, no more than the cache keeps.
    pub open spec fn well_formed(&self, spec: KvCacheSpec) -> bool {
        &&& block_fits(self.keys(), spec)
        &&& block_fits(self.values(), spec)
        &&& block_tokens(self.keys()) == self.tokens()
        &&& block_tokens(self.values()) == self.tokens()
        &&& self.tokens() <= spec.max_context
    }

    /// A layer without tokens.
    fn empty() -> (layer: Self)
        ensures
            layer.keys() is None,
            layer.values() is None,
            layer.tokens() == 0,
    {
        KvCacheLayer { key: None, value: None, cached_len: 0 }
    }

    /// The number of tokens.
    pub fn cached_len(&self) -> (n: usize)
        ensures
            n == self.tokens(),
    {
        self.cached_len
    }

    /// Whether there are no tokens.
    pub fn is_empty(&self) -> (yes: bool)
        ensures
            yes == (self.tokens() == 0),
    {
        self.cached_len == 0
    }

    /// The keys, if there are any.
    pub fn key(&self) -> (key: &Option<KvTensor<T>>)
        ensures
            *key == self.keys(),
    {
        &self.key
    }

    /// The values, if there are any.
    pub fn value(&self) -> (value: &Option<KvTensor<T>>)
        ensures
            *value == self.values(),
    {
        &self.value
    }
}

/// Whether a layer has no tokens.
pub open spec fn is_blank<T>(layer: KvCacheLayer<T>) -> bool {
    layer.keys() is None && layer.values() is None && layer.tokens() == 0
}

/// Whether `after` is `before` with the keys and values of some more tokens, of which the
/// latest stay.
pub open spec fn is_appended<T>(
    before: KvCacheLayer<T>,
    after: KvCacheLayer<T>,
    key: KvTensor<T>,
    value: KvTensor<T>,
    spec: KvCacheSpec,
) -> bool {
    &&& after.keys() is Some && after.values() is Some
    &&& forall|h: int|
        0 <= h < spec.n_head ==> #[trigger] block_head(after.keys(), spec, h) == latest(
            block_head(before.keys(), spec, h) + key.head(spec, h),
            spec.max_context as nat,
        )
    &&& forall|h: int|
        0 <= h < spec.n_head ==> #[trigger] block_head(after.values(), spec, h) == latest(
            block_head(before.values(), spec, h) + value.head(spec, h),
            spec.max_context as nat,
        )
}

/// Whether keys and values of the same tokens fit a cache beside `held` tokens.
pub open spec fn can_append<T>(
    key: KvTensor<T>,
    value: KvTensor<T>,
    held: nat,
    spec: KvCacheSpec,
) -> bool {
    &&& key.fits(spec)
    &&& value.fits(spec)
    &&& key.tokens() == value.tokens()
    &&& spec.n_head * (held + key.tokens()) * spec.head_dim <= usize::MAX
}

/// The caches of all layers.
#[derive(Debug, Clone, PartialEq, Eq)]
pub struct KvCache<T> {
    spec: KvCacheSpec,
    layers: Vec<KvCacheLayer<T>>,
}

impl<T> KvCache<T> {
    /// The layout.
    pub closed spec fn layout(&self) -> KvCacheSpec {
        self.spec
    }

    /// The layers.
    pub closed spec fn all(&self) -> Seq<KvCacheLayer<T>> {
        self.layers@
    }

    /// There is a layer for each of the layout, each within it.
    pub open spec fn well_formed(&self) -> bool {
        &&& self.layout().valid()
        &&& self.all().len() == self.layout().n_layer
        &&& forall|i: int|
            0 <= i < self.all().len() ==> (#[trigger] self.all()[i]).well_formed(self.layout())
    }

    /// A cache without tokens.
    pub fn new(spec: KvCacheSpec) -> (cache: Self)
        requires
            spec.valid(),
        ensures
            cache.well_formed(),
            cache.layout() == spec,
            forall|i: int| 0 <= i < cache.all().len() ==> is_blank(#[trigger] cache.all()[i]),
    {
        let mut layers: Vec<KvCacheLayer<T>> = Vec::new();
        let mut i: usize = 0;
        while i < spec.n_layer
            invariant
                i <= spec.n_layer,
                layers@.len() == i,
                forall|j: int| 0 <= j < i ==> is_blank(#[trigger] layers@[j]),
            decreases spec.n_layer - i,
        {
            layers.push(KvCacheLayer::empty());
            i = i + 1;
        }
        KvCache { spec, layers }
    }

    /// The layout.
    pub fn spec(&self) -> (spec: KvCacheSpec)
        ensures
            spec == self.layout(),
    {
        self.spec
    }

    /// The number of layers.
    pub fn layer_count(&self) -> (n: usize)
        ensures
            n == self.all().len(),
    {
        self.layers.len()
    }

    /// How many tokens a layer keeps.
    pub fn max_context(&self) -> (n: usize)
        ensures
            n == self.layout().max_context,
    {
        self.spec.max_context
    }

    /// The number of attention heads.
    pub fn n_head(&self) -> (n: usize)
        ensures
            n == self.layout().n_head,
    {
        self.spec.n_head
    }

    /// The number of elements of a key or a value of one head.
    pub fn head_dim(&self) -> (n: usize)
        ensures
            n == self.layout().head_dim,
    {
        self.spec.head_dim
    }

    /// The layers.
    pub fn layers(&self) -> (layers: &[KvCacheLayer<T>])
        ensures
            layers@ == self.all(),
    {
        self.layers.as_slice()
    }

    /// A layer, if there is one of that number.
    pub fn layer(&self, layer_idx: usize) -> (layer: Option<&KvCacheLayer<T>>)
        ensures
            layer is Some <==> layer_idx < self.all().len(),
            layer matches Some(l) ==> *l == self.all()[layer_idx as int],
    {
        if layer_idx < self.layers.len() {
            Some(&self.layers[layer_idx])
        } else {
            None
        }
    }

    /// Whether no layer has tokens.
    pub fn is_empty(&self) -> (yes: bool)
        ensures
            yes == (forall|i: int|
                0 <= i < self.all().len() ==> (#[trigger] self.all()[i]).tokens() == 0),
    {
        let mut i: usize = 0;
        while i < self.layers.len()
            invariant
                i <= self.layers@.len(),
                forall|j: int| 0 <= j < i ==> (#[trigger] self.layers@[j]).tokens() == 0,
            decreases self.layers@.len() - i,
        {
            if !self.layers[i].is_empty() {
                assert(self.all()[i as int].tokens() != 0);
                return false;
            }
            i = i + 1;
        }
        true
    }

    /// The greatest number of tokens of a layer; zero without layers.
    pub fn cached_len(&self) -> (n: usize)
        ensures
            forall|i: int|
                0 <= i < self.all().len() ==> (#[trigger] self.all()[i]).tokens() <= n,
            n == 0 || exists|i: int|
                0 <= i < self.all().len() && (#[trigger] self.all()[i]).tokens() == n,
    {
        let mut n: usize = 0;
        let mut i: usize = 0;
        while i < self.layers.len()
            invariant
                i <= self.layers@.len(),
                forall|j: int| 0 <= j < i ==> (#[trigger] self.layers@[j]).tokens() <= n,
                n == 0 || exists|j: int| 0 <= j < i && (#[trigger] self.layers@[j]).tokens() == n,
            decreases self.layers@.len() - i,
        {
            let len: usize = self.layers[i].cached_len();
            if len > n {
                n = len;
                assert(self.layers@[i as int].tokens() == n);
            }
            i = i + 1;
        }
        proof {
            if n != 0 {
                let j = choose|j: int|
                    0 <= j < self.layers@.len() && (#[trigger] self.layers@[j]).tokens() == n;
                assert(self.all()[j].tokens() == n);
            }
        }
        n
    }

    /// Forgets all tokens.
    pub fn reset(&mut self)
        requires
            old(self).well_formed(),
        ensures
            final(self).well_formed(),
            final(self).layout() == old(self).layout(),
            forall|i: int|
                0 <= i < final(self).all().len() ==> is_blank(#[trigger] final(self).all()[i]),
    {
        let fresh: KvCache<T> = KvCache::new(self.spec);
        self.layers = fresh.layers;
    }

    /// Forgets the tokens of one layer.
    pub fn reset_layer(&mut self, layer_idx: usize)
        requires
            old(self).well_formed(),
            layer_idx < old(self).all().len(),
        ensures
            final(self).well_formed(),
            final(self).layout() == old(self).layout(),
            is_blank(final(self).all()[layer_idx as int]),
            final(self).all() == old(self).all().update(
                layer_idx as int,
                final(self).all()[layer_idx as int],
            ),
    {
        self.layers[layer_idx] = KvCacheLayer::empty();
    }
}

impl<T: Copy> KvCache<T> {
    /// Replaces the tokens of one layer.
    pub fn prefill_layer(&mut self, layer_idx: usize, key: KvTensor<T>, value: KvTensor<T>)
        requires
            old(self).well_formed(),
            layer_idx < old(self).all().len(),
            can_append(key, value, 0, old(self).layout()),
        ensures
            final(self).well_formed(),
            final(self).layout() == old(self).layout(),
            final(self).all() == old(self).all().update(
                layer_idx as int,
                final(self).all()[layer_idx as int],
            ),
            exists|blank: KvCacheLayer<T>| #[trigger]
                is_blank(blank) && is_appended(
                    blank,
                    final(self).all()[layer_idx as int],
                    key,
                    value,
                    old(self).layout(),
                ),
    {
        self.reset_layer(layer_idx);
        let ghost blank = self.all()[layer_idx as int];
        let ghost cleared = self.all();
        self.append_layer(layer_idx, key, value);
        proof {
            assert(is_blank(blank));
            assert(self.all() =~= old(self).all().update(
                layer_idx as int,
                self.all()[layer_idx as int],
            ));
        }
    }

    /// Adds tokens to one layer, of which the latest stay.
    pub fn append_layer(&mut self, layer_idx: usize, key: KvTensor<T>, value: KvTensor<T>)
        requires
            old(self).well_formed(),
            layer_idx < old(self).all().len(),
            can_append(
                key,
                value,
                old(self).all()[layer_idx as int].tokens(),
                old(self).layout(),
            ),
        ensures
            final(self).well_formed(),
            final(self).layout() == old(self).layout(),
            final(self).all() == old(self).all().update(
                layer_idx as int,
                final(self).all()[layer_idx as int],
            ),
            is_appended(
                old(self).all()[layer_idx as int],
                final(self).all()[layer_idx as int],
                key,
                value,
                old(self).layout(),
            ),
    {
        let ghost before = self.layers@[layer_idx as int];
        let next_key = append_kv_tensor(&self.layers[layer_idx].key, &key, self.spec);
        let next_value = append_kv_tensor(&self.layers[layer_idx].value, &value, self.spec);
        let cached_len: usize = next_key.shape[1];
        let layer = KvCacheLayer { key: Some(next_key), value: Some(next_value), cached_len };
        proof {
            assert(next_key.head(self.spec, 0) == latest(
                block_head(before.key, self.spec, 0) + key.head(self.spec, 0),
                self.spec.max_context as nat,
            ));
            assert(next_value.head(self.spec, 0) == latest(
                block_head(before.value, self.spec, 0) + value.head(self.spec, 0),
                self.spec.max_context as nat,
            ));
            assert(next_key.head(self.spec, 0).len() == next_value.head(self.spec, 0).len());
        }
        self.layers[layer_idx] = layer;
        proof {
            assert forall|h: int| 0 <= h < self.spec.n_head implies #[trigger] block_head(
                layer.keys(),
                self.spec,
                h,
            ) == latest(
                block_head(before.keys(), self.spec, h) + key.head(self.spec, h),
                self.spec.max_context as nat,
            ) by {
                assert(next_key.head(self.spec, h) == block_head(layer.keys(), self.spec, h));
            }
            assert forall|h: int| 0 <= h < self.spec.n_head implies #[trigger] block_head(
                layer.values(),
                self.spec,
                h,
            ) == latest(
                block_head(before.values(), self.spec, h) + value.head(self.spec, h),
                self.spec.max_context as nat,
            ) by {
                assert(next_value.head(self.spec, h) == block_head(layer.values(), self.spec, h));
            }
        }
    }

    /// Replaces the tokens of all layers by the given keys and values, one pair for each
    /// layer; without pairs the cache is left without tokens.
    pub fn fill(&mut self, blocks: Vec<(KvTensor<T>, KvTensor<T>)>)
        requires
            old(self).well_formed(),
            can_fill(blocks@, old(self).layout()),
        ensures
            final(self).well_formed(),
            final(self).layout() == old(self).layout(),
            is_filled(*final(self), blocks@),
    {
        self.reset();
        let ghost layout = self.layout();
        let ghost all_blocks = blocks@;
        let count: usize = blocks.len();
        let mut rest: Vec<(KvTensor<T>, KvTensor<T>)> = blocks;
        let mut i: usize = 0;
        while i < count
            invariant
                i <= count,
                count == all_blocks.len(),
                rest@ == all_blocks.skip(i as int),
                self.well_formed(),
                self.layout() == layout,
                layout == old(self).layout(),
                can_fill(all_blocks, layout),
                forall|j: int|
                    0 <= j < i ==> is_prefilled(
                        #[trigger] self.all()[j],
                        all_blocks[j].0,
                        all_blocks[j].1,
                        layout,
                    ),
                forall|j: int|
                    i <= j < self.all().len() ==> is_blank(#[trigger] self.all()[j]),
            decreases count - i,
        {
            let ghost pair = rest@[0];
            let (key, value) = rest.remove(0);
            assert(pair == all_blocks[i as int]);
            assert(rest@ =~= all_blocks.skip(i + 1));
            let ghost earlier = self.all();
            self.prefill_layer(i, key, value);
            assert(forall|j: int| 0 <= j < earlier.len() && j != i ==> self.all()[j] == earlier[j]);
            assert(is_prefilled(self.all()[i as int], key, value, layout));
            i = i + 1;
        }
    }
}

/// Whether a layer holds the given keys and values and nothing else.
pub open spec fn is_prefilled<T>(
    layer: KvCacheLayer<T>,
    key: KvTensor<T>,
    value: KvTensor<T>,
    spec: KvCacheSpec,
) -> bool {
    exists|blank: KvCacheLayer<T>| #[trigger]
        is_blank(blank) && is_appended(blank, layer, key, value, spec)
}

/// Whether there are keys and values for each layer, or none at all.
pub open spec fn can_fill<T>(blocks: Seq<(KvTensor<T>, KvTensor<T>)>, spec: KvCacheSpec) -> bool {
    &&& blocks.len() == 0 || blocks.len() == spec.n_layer
    &&& forall|i: int|
        0 <= i < blocks.len() ==> can_append(
            (#[trigger] blocks[i]).0,
            blocks[i].1,
            0,
            spec,
        )
}

impl<T> KvTensor<T> {
    /// Whether the block fits a cache.
    fn check(&self, spec: KvCacheSpec) -> (yes: bool)
        ensures
            yes == self.fits(spec),
    {
        if self.shape.len() != 3 || self.shape[0] != spec.n_head || self.shape[2] != spec.head_dim {
            return false;
        }
        let size: usize = self.data.len();
        match spec.n_head.checked_mul(self.shape[1]) {
            Some(n) => match n.checked_mul(spec.head_dim) {
                Some(all) => all == size,
                None => false,
            },
            None => {
                if spec.head_dim == 0 {
                    assert(spec.n_head * self.shape@[1] * spec.head_dim == 0) by (nonlinear_arith)
                        requires
                            spec.head_dim == 0,
                    ;
                    return size == 0;
                }
                assert(spec.n_head * self.shape@[1] * spec.head_dim >= spec.n_head
                    * self.shape@[1]) by (nonlinear_arith)
                    requires
                        spec.head_dim >= 1,
                ;
                false
            },
        }
    }
}

/// Whether there are keys and values for each layer, or none at all.
pub fn can_fill_with<T>(blocks: &Vec<(KvTensor<T>, KvTensor<T>)>, spec: KvCacheSpec) -> (yes: bool)
    ensures
        yes == can_fill(blocks@, spec),
{
    if blocks.len() != 0 && blocks.len() != spec.n_layer {
        return false;
    }
    for i in 0..blocks.len()
        invariant
            forall|j: int|
                0 <= j < i ==> can_append((#[trigger] blocks@[j]).0, blocks@[j].1, 0, spec),
    {
        let (key, value) = &blocks[i];
        if !key.check(spec) || !value.check(spec) || key.shape[1] != value.shape[1] {
            assert(!can_append(blocks@[i as int].0, blocks@[i as int].1, 0, spec));
            return false;
        }
        let _size: usize = key.data.len();
        assert(can_append(blocks@[i as int].0, blocks@[i as int].1, 0, spec));
    }
    true
}

/// Whether a cache holds the given keys and values and nothing else.
pub open spec fn is_filled<T>(cache: KvCache<T>, blocks: Seq<(KvTensor<T>, KvTensor<T>)>) -> bool {
    forall|i: int|
        0 <= i < cache.all().len() ==> if i < blocks.len() {
            is_prefilled(#[trigger] cache.all()[i], blocks[i].0, blocks[i].1, cache.layout())
        } else {
            is_blank(cache.all()[i])
        }
}

} // verus!
