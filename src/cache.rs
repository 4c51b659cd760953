//! The attention cache shared by every attention layer of one session: the
//! range of the precomputed rotary tables, memoised causal masks, and a
//! per-layer key/value store bounded by a sliding window.
//!
//! Key and value tensors are modelled along their sequence axis: a `Vec<T>`
//! holds one `T` per position. The window bound applies to keys and values
//! alike.
use vstd::prelude::*;

verus! {

/// Default window (and rotary table length), in positions.
pub const MAX_SEQ_LEN: usize = 4096;

/// Why a cache operation failed.
#[derive(PartialEq, Eq, Structural, Debug, Clone, Copy)]
pub enum CacheError {
    /// The requested rotary range runs past the precomputed table.
    RotaryOutOfRange,
    /// The layer index has no key/value slot.
    LayerOutOfRange,
}

/// A causal mask: `rows[i][j]` is `true` (masked) iff `j > i`.
pub type Mask = Vec<Vec<bool>>;

pub open spec fn mask_view(m: Mask) -> Seq<Seq<bool>> {
    m@.map_values(|r: Vec<bool>| r@)
}

/// The `n`×`n` causal mask.
pub open spec fn causal(n: nat) -> Seq<Seq<bool>> {
    Seq::new(n, |i: int| Seq::new(n, |j: int| j > i))
}

/// The last `w` items of `s`, or all of `s` when it is no longer.
pub open spec fn window<T>(s: Seq<T>, w: nat) -> Seq<T> {
    if s.len() > w {
        s.subrange(s.len() - w, s.len() as int)
    } else {
        s
    }
}

/// What `process_kv` stores and returns for a slot holding `slot`, when keys
/// `k` and values `v` come in.
pub open spec fn merged<T>(slot: Option<(Seq<T>, Seq<T>)>, k: Seq<T>, v: Seq<T>, w: nat) -> (
    Seq<T>,
    Seq<T>,
) {
    match slot {
        None => (k, v),
        Some((ck, cv)) => (window(ck + k, w), window(cv + v, w)),
    }
}

/// The rotary slice `[start, start + len)` of the cosine and sine tables.
#[derive(PartialEq, Eq, Structural, Debug, Clone, Copy)]
pub struct RotaryRange {
    pub start: usize,
    pub len: usize,
}

/// The rotary slice `[start, start + len)` when it lies within a table of
/// `positions` positions, else an error.
pub open spec fn rotary_spec(start: usize, len: usize, positions: nat) -> Result<RotaryRange, CacheError> {
    if start + len <= positions {
        Ok(RotaryRange { start, len })
    } else {
        Err(CacheError::RotaryOutOfRange)
    }
}

/// The abstract state of a [`Cache`].
pub struct CacheView<T> {
    pub use_kv_cache: bool,
    pub window: nat,
    pub positions: nat,
    pub mask_sizes: Seq<usize>,
    pub kvs: Seq<Option<(Seq<T>, Seq<T>)>>,
}

/// Attention cache; `T` is one sequence position of a key or value tensor.
pub struct Cache<T> {
    positions: usize,
    window: usize,
    masks: Vec<(usize, Mask)>,
    use_kv_cache: bool,
    kvs: Vec<Option<(Vec<T>, Vec<T>)>>,
}

pub open spec fn slot_view<T>(s: Option<(Vec<T>, Vec<T>)>) -> Option<(Seq<T>, Seq<T>)> {
    match s {
        None => None,
        Some((k, v)) => Some((k@, v@)),
    }
}

impl<T> View for Cache<T> {
    type V = CacheView<T>;

    closed spec fn view(&self) -> CacheView<T> {
        CacheView {
            use_kv_cache: self.use_kv_cache,
            window: self.window as nat,
            positions: self.positions as nat,
            mask_sizes: self.masks@.map_values(|e: (usize, Mask)| e.0),
            kvs: self.kvs@.map_values(|s: Option<(Vec<T>, Vec<T>)>| slot_view(s)),
        }
    }
}

/// A copy of `v`.
fn copy_vec<T: Copy>(v: &Vec<T>) -> (r: Vec<T>)
    ensures
        r@ == v@,
{
    let mut r: Vec<T> = Vec::new();
    let mut i: usize = 0;
    while i < v.len()
        invariant
            i <= v@.len(),
            r@ == v@.subrange(0, i as int),
        decreases v@.len() - i,
    {
        r.push(v[i]);
        i = i + 1;
    }
    assert(r@ =~= v@);
    r
}

/// A copy of a mask.
fn copy_mask(m: &Mask) -> (r: Mask)
    ensures
        mask_view(r) == mask_view(*m),
{
    let mut r: Mask = Vec::new();
    let mut i: usize = 0;
    while i < m.len()
        invariant
            i <= m@.len(),
            mask_view(r) == mask_view(*m).subrange(0, i as int),
        decreases m@.len() - i,
    {
        let row = copy_vec(&m[i]);
        let ghost prev = mask_view(r);
        r.push(row);
        assert(mask_view(r) =~= prev.push(row@));
        i = i + 1;
        assert(mask_view(r) =~= mask_view(*m).subrange(0, i as int));
    }
    assert(mask_view(r) =~= mask_view(*m));
    r
}

/// Builds the `n`×`n` causal mask.
fn build_mask(n: usize) -> (r: Mask)
    ensures
        mask_view(r) == causal(n as nat),
{
    let mut r: Mask = Vec::new();
    let mut i: usize = 0;
    while i < n
        invariant
            i <= n,
            mask_view(r) == causal(n as nat).subrange(0, i as int),
        decreases n - i,
    {
        let mut row: Vec<bool> = Vec::new();
        let mut j: usize = 0;
        while j < n
            invariant
                j <= n,
                i < n,
                row@ == causal(n as nat)[i as int].subrange(0, j as int),
            decreases n - j,
        {
            row.push(j > i);
            j = j + 1;
            assert(row@ =~= causal(n as nat)[i as int].subrange(0, j as int));
        }
        assert(row@ =~= causal(n as nat)[i as int]);
        let ghost prev = mask_view(r);
        r.push(row);
        assert(mask_view(r) =~= prev.push(row@));
        i = i + 1;
        assert(mask_view(r) =~= causal(n as nat).subrange(0, i as int));
    }
    assert(mask_view(r) =~= causal(n as nat));
    r
}

/// The last `w` items of `old ++ new`.
fn merge_window<T: Copy>(old: &Vec<T>, new: &Vec<T>, w: usize) -> (r: Vec<T>)
    ensures
        r@ == window(old@ + new@, w as nat),
{
    let ghost all = old@ + new@;
    let mut r: Vec<T> = Vec::new();
    if new.len() >= w {
        let start = new.len() - w;
        let mut i: usize = start;
        while i < new.len()
            invariant
                start <= i <= new@.len(),
                start == new@.len() - w,
                r@ == new@.subrange(start as int, i as int),
            decreases new@.len() - i,
        {
            r.push(new[i]);
            i = i + 1;
            assert(r@ =~= new@.subrange(start as int, i as int));
        }
        assert(r@ =~= window(all, w as nat));
    } else {
        let keep = w - new.len();
        let start: usize = if old.len() > keep { old.len() - keep } else { 0 };
        let mut i: usize = start;
        while i < old.len()
            invariant
                start <= i <= old@.len(),
                r@ == old@.subrange(start as int, i as int),
            decreases old@.len() - i,
        {
            r.push(old[i]);
            i = i + 1;
            assert(r@ =~= old@.subrange(start as int, i as int));
        }
        let mut j: usize = 0;
        while j < new.len()
            invariant
                j <= new@.len(),
                start <= old@.len(),
                r@ == old@.subrange(start as int, old@.len() as int) + new@.subrange(0, j as int),
            decreases new@.len() - j,
        {
            r.push(new[j]);
            j = j + 1;
            assert(r@ =~= old@.subrange(start as int, old@.len() as int) + new@.subrange(
                0,
                j as int,
            ));
        }
        assert(r@ =~= window(all, w as nat));
    }
    r
}

/// `n` empty key/value slots.
fn empty_slots<T>(n: usize) -> (r: Vec<Option<(Vec<T>, Vec<T>)>>)
    ensures
        r@.len() == n,
        forall|j: int| 0 <= j < n ==> (#[trigger] r@[j]) is None,
{
    let mut kvs: Vec<Option<(Vec<T>, Vec<T>)>> = Vec::new();
    let mut i: usize = 0;
    while i < n
        invariant
            i <= n,
            kvs@.len() == i,
            forall|j: int| 0 <= j < i ==> (#[trigger] kvs@[j]) is None,
        decreases n - i,
    {
        kvs.push(None);
        i = i + 1;
    }
    kvs
}

/// The state after a reset: no masks, every key/value slot empty, the
/// configuration kept.
pub open spec fn cleared<T>(c: CacheView<T>) -> CacheView<T> {
    CacheView {
        use_kv_cache: c.use_kv_cache,
        window: c.window,
        positions: c.positions,
        mask_sizes: Seq::empty(),
        kvs: Seq::new(c.kvs.len(), |i: int| None),
    }
}

/// What a layer's slot holds after `slot` has taken in each `(keys, values)`
/// pair of `steps`, in order.
pub open spec fn stored_after<T>(
    slot: Option<(Seq<T>, Seq<T>)>,
    steps: Seq<(Seq<T>, Seq<T>)>,
    w: nat,
) -> Option<(Seq<T>, Seq<T>)>
    decreases steps.len(),
{
    if steps.len() == 0 {
        slot
    } else {
        let prev = stored_after(slot, steps.drop_last(), w);
        Some(merged(prev, steps.last().0, steps.last().1, w))
    }
}

/// Window law: whatever sequence of merges a layer takes in, what it stores
/// never spans more than `w` positions, as long as it started within the
/// window (empty, and a first merge no longer than `w`). A first merge keeps
/// its length exactly.
pub proof fn lemma_window_bound<T>(
    slot: Option<(Seq<T>, Seq<T>)>,
    steps: Seq<(Seq<T>, Seq<T>)>,
    w: nat,
)
    requires
        slot is Some ==> (slot->0).0.len() <= w && (slot->0).1.len() <= w,
        slot is None && steps.len() > 0 ==> steps[0].0.len() <= w && steps[0].1.len() <= w,
    ensures
        stored_after(slot, steps, w) is Some ==> {
            &&& (stored_after(slot, steps, w)->0).0.len() <= w
            &&& (stored_after(slot, steps, w)->0).1.len() <= w
        },
        merged(None, steps.last().0, steps.last().1, w) == steps.last(),
    decreases steps.len(),
{
    if steps.len() > 0 {
        let init = steps.drop_last();
        if init.len() > 0 {
            assert(init[0] == steps[0]);
        }
        lemma_window_bound(slot, init, w);
    }
}

/// Reset law: resetting twice leaves the state of one reset.
pub proof fn lemma_reset_idempotent<T>(c: CacheView<T>)
    ensures
        cleared(cleared(c)) == cleared(c),
{
    assert(cleared(cleared(c)).kvs =~= cleared(c).kvs);
}

/// Reset law: after a reset, a merge on any layer acts as a first merge.
pub proof fn lemma_reset_fresh<T>(c: CacheView<T>, i: int, k: Seq<T>, v: Seq<T>)
    requires
        0 <= i < c.kvs.len(),
    ensures
        cleared(c).kvs[i] is None,
        merged(cleared(c).kvs[i], k, v, c.window) == (k, v),
{
}

/// Memo law: two masks obtained for one size are the same mask.
pub proof fn lemma_mask_memo(a: Mask, b: Mask, n: nat)
    requires
        mask_view(a) == causal(n),
        mask_view(b) == causal(n),
    ensures
        mask_view(a) == mask_view(b),
        forall|i: int, j: int| 0 <= i < n && 0 <= j < n ==> mask_view(a)[i][j] == (j > i),
{
}

impl<T: Copy> Cache<T> {
    /// The masks held are the causal masks of their sizes.
    pub closed spec fn wf(&self) -> bool {
        forall|i: int|
            0 <= i < self.masks@.len() ==> mask_view((#[trigger] self.masks@[i]).1) == causal(
                self.masks@[i].0 as nat,
            )
    }

    /// A cache for `num_layers` layers whose rotary tables and key/value
    /// window span `max_seq_len` positions.
    pub fn new(use_kv_cache: bool, num_layers: usize, max_seq_len: usize) -> (r: Self)
        ensures
            r.wf(),
            r@.use_kv_cache == use_kv_cache,
            r@.window == max_seq_len,
            r@.positions == max_seq_len,
            r@.mask_sizes.len() == 0,
            r@.kvs == Seq::<Option<(Seq<T>, Seq<T>)>>::new(num_layers as nat, |i: int| None),
    {
        let kvs = empty_slots(num_layers);
        let r = Cache { positions: max_seq_len, window: max_seq_len, masks: Vec::new(), use_kv_cache, kvs };
        assert(r@.mask_sizes =~= Seq::<usize>::empty());
        assert(r@.kvs =~= Seq::<Option<(Seq<T>, Seq<T>)>>::new(num_layers as nat, |i: int| None));
        r
    }

    /// Whether key/value caching is on.
    pub fn with_kv_cache(&self) -> (r: bool)
        ensures
            r == self@.use_kv_cache,
    {
        self.use_kv_cache
    }

    /// The slice of the rotary tables for positions `[index_pos, index_pos + seq_len)`.
    pub fn rotary(&self, index_pos: usize, seq_len: usize) -> (r: Result<RotaryRange, CacheError>)
        ensures
            r == rotary_spec(index_pos, seq_len, self@.positions),
    {
        if index_pos <= self.positions && seq_len <= self.positions - index_pos {
            Ok(RotaryRange { start: index_pos, len: seq_len })
        } else {
            Err(CacheError::RotaryOutOfRange)
        }
    }

    /// The cosine table's slice for the given positions.
    pub fn cosine(&self, index_pos: usize, seq_len: usize) -> (r: Result<RotaryRange, CacheError>)
        ensures
            r == rotary_spec(index_pos, seq_len, self@.positions),
    {
        self.rotary(index_pos, seq_len)
    }

    /// The sine table's slice for the given positions.
    pub fn sine(&self, index_pos: usize, seq_len: usize) -> (r: Result<RotaryRange, CacheError>)
        ensures
            r == rotary_spec(index_pos, seq_len, self@.positions),
    {
        self.rotary(index_pos, seq_len)
    }
}


impl<T: Copy> Cache<T> {
    /// The causal mask of size `seq_len`, built on first use and memoised.
    pub fn mask(&mut self, seq_len: usize) -> (r: Mask)
        requires
            old(self).wf(),
        ensures
            final(self).wf(),
            mask_view(r) == causal(seq_len as nat),
            final(self)@.kvs == old(self)@.kvs,
            final(self)@.use_kv_cache == old(self)@.use_kv_cache,
            final(self)@.window == old(self)@.window,
            final(self)@.positions == old(self)@.positions,
            old(self)@.mask_sizes.contains(seq_len) ==> final(self)@.mask_sizes == old(self)@.mask_sizes,
            !old(self)@.mask_sizes.contains(seq_len) ==> final(self)@.mask_sizes == old(self)@.mask_sizes.push(seq_len),
    {
        let mut i: usize = 0;
        while i < self.masks.len()
            invariant
                self.wf(),
                i <= self.masks@.len(),
                forall|j: int| 0 <= j < i ==> self@.mask_sizes[j] != seq_len,
            decreases self.masks@.len() - i,
        {
            if self.masks[i].0 == seq_len {
                assert(self@.mask_sizes[i as int] == seq_len);
                return copy_mask(&self.masks[i].1);
            }
            i = i + 1;
        }
        let m = build_mask(seq_len);
        let ghost prev = self@;
        self.masks.push((seq_len, copy_mask(&m)));
        assert(self@.mask_sizes =~= prev.mask_sizes.push(seq_len));
        assert(self@.kvs =~= prev.kvs);
        m
    }

    /// Merges new keys `k` and values `v` of layer `block_idx` into its
    /// slot: an empty slot takes them as they are; otherwise they are
    /// appended to what it holds and the oldest positions beyond the window
    /// are dropped. Returns what the slot now holds. With caching off, `k`
    /// and `v` come back unchanged and nothing is stored.
    pub fn process_kv(&mut self, block_idx: usize, k: Vec<T>, v: Vec<T>) -> (r: Result<(Vec<T>, Vec<T>), CacheError>)
        requires
            old(self).wf(),
        ensures
            final(self).wf(),
            !old(self)@.use_kv_cache ==> {
                &&& r is Ok
                &&& (r->Ok_0).0@ == k@
                &&& (r->Ok_0).1@ == v@
                &&& final(self)@ == old(self)@
            },
            old(self)@.use_kv_cache && block_idx >= old(self)@.kvs.len() ==> {
                &&& r == Err::<(Vec<T>, Vec<T>), CacheError>(CacheError::LayerOutOfRange)
                &&& final(self)@ == old(self)@
            },
            old(self)@.use_kv_cache && block_idx < old(self)@.kvs.len() ==> {
                let m = merged(old(self)@.kvs[block_idx as int], k@, v@, old(self)@.window);
                &&& r is Ok
                &&& ((r->Ok_0).0@, (r->Ok_0).1@) == m
                &&& final(self)@ == (CacheView {
                    kvs: old(self)@.kvs.update(block_idx as int, Some(m)),
                    ..old(self)@
                })
            },
    {
        if !self.use_kv_cache {
            return Ok((k, v));
        }
        if block_idx >= self.kvs.len() {
            return Err(CacheError::LayerOutOfRange);
        }
        let (nk, nv) = match &self.kvs[block_idx] {
            Some((ck, cv)) => (merge_window(ck, &k, self.window), merge_window(cv, &v, self.window)),
            None => (k, v),
        };
        let ghost prev = self@;
        self.kvs.set(block_idx, Some((copy_vec(&nk), copy_vec(&nv))));
        assert(self@.kvs =~= prev.kvs.update(block_idx as int, Some((nk@, nv@))));
        assert(self@.mask_sizes =~= prev.mask_sizes);
        Ok((nk, nv))
    }

    /// A cache with the same configuration and a cleared state.
    pub fn as_new(&self) -> (r: Self)
        ensures
            r.wf(),
            r@ == cleared(self@),
    {
        let r = Cache {
            positions: self.positions,
            window: self.window,
            masks: Vec::new(),
            use_kv_cache: self.use_kv_cache,
            kvs: empty_slots(self.kvs.len()),
        };
        assert(r@.mask_sizes =~= cleared(self@).mask_sizes);
        assert(r@.kvs =~= cleared(self@).kvs);
        r
    }

    /// Drops every memoised mask and every stored key/value entry; the
    /// rotary range and the configuration are kept.
    pub fn clear(&mut self)
        ensures
            final(self).wf(),
            final(self)@ == cleared(old(self)@),
    {
        let ghost prev = self@;
        self.masks = Vec::new();
        self.kvs = empty_slots(self.kvs.len());
        assert(self@.mask_sizes =~= cleared(prev).mask_sizes);
        assert(self@.kvs =~= cleared(prev).kvs);
    }
}

} // verus!
