//! CPU frame pool with generation-based staleness detection.
//!
//! Buffers are recycled per key (format, size, byte-size class); every
//! recycle bumps the key's generation, and envelopes carry the generation
//! they were born at, so a consumer holding a frame across a recycle is
//! detected (`FrameError::StaleFrame`). Keys are compared by value; the free
//! lists and generations are kept per key in insertion order.
use crate::media::frame::{FrameBytes, FrameError, PixelFormat, PixelFormatV};
use vstd::prelude::*;

verus! {

/// Pool identity of a buffer class: pixel format, display size and a
/// byte-size class (total plane bytes rounded up to 64).
#[derive(Debug, PartialEq, Eq, Hash)]
pub struct PoolKey {
    pub format: PixelFormat,
    pub width: u32,
    pub height: u32,
    pub byte_class: u64,
}

/// The abstract value of a pool key.
pub struct KeyV {
    pub format: PixelFormatV,
    pub width: u32,
    pub height: u32,
    pub byte_class: u64,
}

impl View for PoolKey {
    type V = KeyV;

    open spec fn view(&self) -> KeyV {
        KeyV {
            format: self.format@,
            width: self.width,
            height: self.height,
            byte_class: self.byte_class,
        }
    }
}

impl Clone for PoolKey {
    fn clone(&self) -> (r: Self)
        ensures
            r@ == self@,
    {
        PoolKey {
            format: self.format.clone(),
            width: self.width,
            height: self.height,
            byte_class: self.byte_class,
        }
    }
}

/// Sum of a sequence of sizes.
pub open spec fn total(s: Seq<usize>) -> nat
    decreases s.len(),
{
    if s.len() == 0 {
        0
    } else {
        total(s.drop_last()) + s.last() as nat
    }
}

/// `t` rounded up to a multiple of 64.
pub open spec fn round64(t: nat) -> nat {
    ((t + 63) / 64) * 64
}

impl PoolKey {
    /// The key of a buffer class from explicit strides (their sum, rounded
    /// up to 64 bytes).
    pub fn from_strides(format: PixelFormat, width: u32, height: u32, strides: &[usize]) -> (r: Self)
        requires
            round64(total(strides@)) <= usize::MAX,
        ensures
            r@ == (KeyV {
                format: format@,
                width,
                height,
                byte_class: round64(total(strides@)) as u64,
            }),
    {
        let mut t: usize = 0;
        let mut i: usize = 0;
        while i < strides.len()
            invariant
                i <= strides@.len(),
                t == total(strides@.take(i as int)),
                round64(total(strides@)) <= usize::MAX,
            decreases strides@.len() - i,
        {
            proof {
                assert(strides@.take(i as int + 1).drop_last() =~= strides@.take(i as int));
                lemma_total_prefix(strides@, i as int + 1);
            }
            t = t + strides[i];
            i += 1;
        }
        proof {
            assert(strides@.take(strides@.len() as int) =~= strides@);
        }
        let q = t / 64 + if t % 64 == 0 {
            0
        } else {
            1
        };
        proof {
            assert(q == (t + 63) / 64) by (nonlinear_arith)
                requires
                    q == t / 64 + if t % 64 == 0 {
                        0int
                    } else {
                        1int
                    },
                    t >= 0,
            ;
        }
        PoolKey { format, width, height, byte_class: (q * 64) as u64 }
    }

    /// Keys are equal by value.
    pub fn same(&self, o: &PoolKey) -> (r: bool)
        ensures
            r == (self@ == o@),
    {
        self.width == o.width && self.height == o.height && self.byte_class == o.byte_class
            && self.format.same(&o.format)
    }
}

/// Every prefix of a sequence sums to at most the whole.
proof fn lemma_total_prefix(s: Seq<usize>, i: int)
    requires
        0 <= i <= s.len(),
    ensures
        total(s.take(i)) <= total(s),
    decreases s.len() - i,
{
    if i < s.len() {
        lemma_total_prefix(s, i + 1);
        assert(s.take(i + 1).drop_last() =~= s.take(i));
    } else {
        assert(s.take(i) =~= s);
    }
}

/// A buffer handed out by the pool, with the generation it was born at.
#[derive(Debug)]
pub struct PooledBuffer {
    pub key: PoolKey,
    pub data: Vec<u8>,
    pub generation: u64,
    strides: Vec<usize>,
}

/// The abstract value of a pooled buffer.
pub struct BufV {
    pub key: KeyV,
    pub data: Seq<u8>,
    pub generation: u64,
    pub strides: Seq<usize>,
}

impl View for PooledBuffer {
    type V = BufV;

    closed spec fn view(&self) -> BufV {
        BufV {
            key: self.key@,
            data: self.data@,
            generation: self.generation,
            strides: self.strides@,
        }
    }
}

impl PooledBuffer {
    /// The buffer as frame bytes: its planes, contiguous in the data, are
    /// handed over whole, and the strides travel along.
    pub fn into_frame_bytes(self) -> (r: FrameBytes)
        ensures
            r.data@ == self@.data,
            r.strides@ == self@.strides,
    {
        let PooledBuffer { key, data, generation, strides } = self;
        FrameBytes { data, strides }
    }

    pub fn strides(&self) -> (r: &[usize])
        ensures
            r@ == self@.strides,
    {
        self.strides.as_slice()
    }

    pub fn generation(&self) -> (r: u64)
        ensures
            r == self@.generation,
    {
        self.generation
    }

    /// The buffer's bytes, handed back whole.
    pub fn into_data(self) -> (r: Vec<u8>)
        ensures
            r@ == self@.data,
    {
        self.data
    }
}

#[derive(Clone, Copy, Debug, Default, PartialEq, Eq, Structural)]
pub struct PoolStats {
    pub live: usize,
    pub pooled: usize,
    pub keys: usize,
    pub recycles: u64,
}

/// The abstract value of a pool: the cap per key, the free list per key (the
/// capacity recorded for each pooled buffer when it came back, oldest first)
/// and the generations per key (each in first-use order, keys distinct), the
/// number of buffers handed out and not returned, and the number of recycles.
pub struct PoolV {
    pub max: usize,
    pub free: Seq<(KeyV, Seq<usize>)>,
    pub gens: Seq<(KeyV, u64)>,
    pub live: usize,
    pub recycles: u64,
}

/// The position of a key in a keyed sequence, if present.
pub open spec fn slot_of<X>(s: Seq<(KeyV, X)>, k: KeyV) -> Option<int> {
    if exists|i: int| 0 <= i < s.len() && s[i].0 == k {
        Some(choose|i: int| 0 <= i < s.len() && s[i].0 == k)
    } else {
        None
    }
}

/// The keys of a keyed sequence are distinct.
pub open spec fn distinct_keys<X>(s: Seq<(KeyV, X)>) -> bool {
    forall|i: int, j: int| 0 <= i < j < s.len() ==> #[trigger] s[i].0 != #[trigger] s[j].0
}

/// The generation of a key (0 before its first recycle).
pub open spec fn gen_of(gens: Seq<(KeyV, u64)>, k: KeyV) -> u64 {
    match slot_of(gens, k) {
        Some(i) => gens[i].1,
        None => 0,
    }
}

/// The number of free buffers of a key.
pub open spec fn count_of(free: Seq<(KeyV, Seq<usize>)>, k: KeyV) -> nat {
    match slot_of(free, k) {
        Some(i) => free[i].1.len(),
        None => 0,
    }
}

/// The recorded capacity of the buffer that the next acquire of a key takes
/// (the most recently returned one); meaningful when the key has one.
pub open spec fn top_cap(free: Seq<(KeyV, Seq<usize>)>, k: KeyV) -> usize {
    match slot_of(free, k) {
        Some(i) => free[i].1.last(),
        None => 0,
    }
}

/// An acquire of `byte_len` bytes reuses a pooled buffer: the key has one and
/// the one taken has room for the bytes.
pub open spec fn reuses(free: Seq<(KeyV, Seq<usize>)>, k: KeyV, byte_len: usize) -> bool {
    count_of(free, k) > 0 && top_cap(free, k) >= byte_len
}

/// The free lists after taking one buffer of a key, if it had any.
pub open spec fn take_one(free: Seq<(KeyV, Seq<usize>)>, k: KeyV) -> Seq<(KeyV, Seq<usize>)> {
    match slot_of(free, k) {
        Some(i) => if free[i].1.len() > 0 {
            free.update(i, (k, free[i].1.drop_last()))
        } else {
            free
        },
        None => free,
    }
}

/// The free lists after returning one buffer of a key with recorded capacity
/// `cap`: its list is created if needed, and the buffer is kept only below
/// the cap on pooled buffers.
pub open spec fn put_one(free: Seq<(KeyV, Seq<usize>)>, k: KeyV, max: nat, cap: usize) -> Seq<
    (KeyV, Seq<usize>),
> {
    match slot_of(free, k) {
        Some(i) => if free[i].1.len() < max {
            free.update(i, (k, free[i].1.push(cap)))
        } else {
            free
        },
        None => free.push((k, if 0 < max { seq![cap] } else { Seq::empty() })),
    }
}

/// The generations after a recycle of a key.
pub open spec fn bump(gens: Seq<(KeyV, u64)>, k: KeyV) -> Seq<(KeyV, u64)> {
    match slot_of(gens, k) {
        Some(i) => gens.update(i, (k, (gens[i].1 + 1) as u64)),
        None => gens.push((k, 1u64)),
    }
}

/// A key sits at position `i` of a keyed sequence with distinct keys: that
/// is its slot.
proof fn lemma_slot_at<X>(s: Seq<(KeyV, X)>, k: KeyV, i: int)
    requires
        distinct_keys(s),
        0 <= i < s.len(),
        s[i].0 == k,
    ensures
        slot_of(s, k) == Some(i),
{
    let j = choose|j: int| 0 <= j < s.len() && s[j].0 == k;
    if j != i {
        if j < i {
            assert(s[j].0 != s[i].0);
        } else {
            assert(s[i].0 != s[j].0);
        }
    }
}

/// A recycle advances the recycled key's generation by exactly one and
/// leaves every other key's generation alone: a buffer handed out before a
/// recycle of its key is stale afterwards, and only then.
pub proof fn lemma_bump_advances(gens: Seq<(KeyV, u64)>, k: KeyV)
    requires
        distinct_keys(gens),
        gen_of(gens, k) < u64::MAX,
    ensures
        distinct_keys(bump(gens, k)),
        gen_of(bump(gens, k), k) == gen_of(gens, k) + 1,
        forall|o: KeyV| o != k ==> #[trigger] gen_of(bump(gens, k), o) == gen_of(gens, o),
{
    let b = bump(gens, k);
    match slot_of(gens, k) {
        Some(i) => {
            assert(0 <= i < gens.len() && gens[i].0 == k);
            assert(distinct_keys(b)) by {
                assert forall|x: int, y: int| 0 <= x < y < b.len() implies #[trigger] b[x].0 != #[trigger] b[y].0 by {
                    assert(b[x].0 == gens[x].0);
                    assert(b[y].0 == gens[y].0);
                }
            }
            lemma_slot_at(b, k, i);
            assert forall|o: KeyV| o != k implies #[trigger] gen_of(b, o) == gen_of(gens, o) by {
                match slot_of(gens, o) {
                    Some(j) => {
                        assert(gens[j].0 == o);
                        assert(j != i);
                        assert(b[j] == gens[j]);
                        lemma_slot_at(b, o, j);
                    },
                    None => {
                        if exists|j: int| 0 <= j < b.len() && b[j].0 == o {
                            let j = choose|j: int| 0 <= j < b.len() && b[j].0 == o;
                            assert(j != i);
                            assert(gens[j].0 == o);
                        }
                    },
                }
            }
        },
        None => {
            assert(forall|j: int| 0 <= j < gens.len() ==> gens[j].0 != k);
            assert(distinct_keys(b)) by {
                assert forall|x: int, y: int| 0 <= x < y < b.len() implies #[trigger] b[x].0 != #[trigger] b[y].0 by {
                    if y == gens.len() {
                        assert(b[x].0 == gens[x].0);
                    } else {
                        assert(b[x].0 == gens[x].0);
                        assert(b[y].0 == gens[y].0);
                    }
                }
            }
            lemma_slot_at(b, k, gens.len() as int);
            assert forall|o: KeyV| o != k implies #[trigger] gen_of(b, o) == gen_of(gens, o) by {
                match slot_of(gens, o) {
                    Some(j) => {
                        assert(gens[j].0 == o);
                        assert(b[j] == gens[j]);
                        lemma_slot_at(b, o, j);
                    },
                    None => {
                        if exists|j: int| 0 <= j < b.len() && b[j].0 == o {
                            let j = choose|j: int| 0 <= j < b.len() && b[j].0 == o;
                            assert(j != gens.len());
                            assert(gens[j].0 == o);
                        }
                    },
                }
            }
        },
    }
}

/// A buffer returned below the cap is what the next acquire of its key takes:
/// an acquire of no more bytes than its recorded capacity reuses it (a
/// recycle, which bumps the key's generation).
pub proof fn lemma_release_then_acquire(
    free: Seq<(KeyV, Seq<usize>)>,
    k: KeyV,
    max: nat,
    cap: usize,
    byte_len: usize,
)
    requires
        distinct_keys(free),
        count_of(free, k) < max,
        byte_len <= cap,
    ensures
        distinct_keys(put_one(free, k, max, cap)),
        count_of(put_one(free, k, max, cap), k) == count_of(free, k) + 1,
        top_cap(put_one(free, k, max, cap), k) == cap,
        reuses(put_one(free, k, max, cap), k, byte_len),
{
    let p = put_one(free, k, max, cap);
    match slot_of(free, k) {
        Some(i) => {
            assert(distinct_keys(p)) by {
                assert forall|a: int, b: int| 0 <= a < b < p.len() implies #[trigger] p[a].0
                    != #[trigger] p[b].0 by {
                    assert(free[a].0 != free[b].0);
                }
            }
            lemma_slot_at(p, k, i);
        },
        None => {
            assert(distinct_keys(p)) by {
                assert forall|a: int, b: int| 0 <= a < b < p.len() implies #[trigger] p[a].0
                    != #[trigger] p[b].0 by {
                    if b < free.len() {
                        assert(free[a].0 != free[b].0);
                    } else {
                        assert(free[a].0 != k);
                    }
                }
            }
            lemma_slot_at(p, k, free.len() as int);
        },
    }
}

/// Total number of free buffers.
pub open spec fn pooled_total(free: Seq<(KeyV, Seq<usize>)>) -> nat
    decreases free.len(),
{
    if free.len() == 0 {
        0
    } else {
        pooled_total(free.drop_last()) + free.last().1.len()
    }
}

/// The recorded capacities of a free list.
pub open spec fn caps_of(list: Seq<(Vec<u8>, usize)>) -> Seq<usize> {
    list.map_values(|p: (Vec<u8>, usize)| p.1)
}

/// `capacity` of a byte vector: at least its length; how much more is up to
/// the allocator, so nothing else is stated.
#[verifier::external_body]
fn capacity_of(v: &Vec<u8>) -> (r: usize)
    ensures
        r >= v@.len(),
{
    v.capacity()
}

pub struct FramePool {
    max_pooled_per_key: usize,
    free_keys: Vec<PoolKey>,
    free_bufs: Vec<Vec<(Vec<u8>, usize)>>,
    gen_keys: Vec<PoolKey>,
    gen_vals: Vec<u64>,
    live: usize,
    recycles: u64,
}

impl View for FramePool {
    type V = PoolV;

    closed spec fn view(&self) -> PoolV {
        PoolV {
            max: self.max_pooled_per_key,
            free: Seq::new(
                self.free_keys@.len(),
                |i: int| (self.free_keys@[i]@, caps_of(self.free_bufs@[i]@)),
            ),
            gens: Seq::new(self.gen_keys@.len(), |i: int| (self.gen_keys@[i]@, self.gen_vals@[i])),
            live: self.live,
            recycles: self.recycles,
        }
    }
}

impl FramePool {
    /// The representation invariant: parallel vectors of equal length,
    /// distinct keys, and every pooled buffer empty.
    pub closed spec fn wf(&self) -> bool {
        &&& self.free_keys@.len() == self.free_bufs@.len()
        &&& self.gen_keys@.len() == self.gen_vals@.len()
        &&& distinct_keys(self@.free)
        &&& distinct_keys(self@.gens)
        &&& forall|i: int, j: int|
            0 <= i < self.free_bufs@.len() && 0 <= j < self.free_bufs@[i]@.len()
                ==> (#[trigger] self.free_bufs@[i]@[j]).0@.len() == 0
    }

    pub fn new(max_pooled_per_key: usize) -> (r: Self)
        ensures
            r.wf(),
            r@.max == max_pooled_per_key,
            r@.free == Seq::<(KeyV, Seq<usize>)>::empty(),
            r@.gens == Seq::<(KeyV, u64)>::empty(),
            r@.live == 0,
            r@.recycles == 0,
    {
        let r = FramePool {
            max_pooled_per_key,
            free_keys: Vec::new(),
            free_bufs: Vec::new(),
            gen_keys: Vec::new(),
            gen_vals: Vec::new(),
            live: 0,
            recycles: 0,
        };
        proof {
            assert(r@.free =~= Seq::<(KeyV, Seq<usize>)>::empty());
            assert(r@.gens =~= Seq::<(KeyV, u64)>::empty());
        }
        r
    }

    /// Position of a key among the free lists.
    fn find_free(&self, key: &PoolKey) -> (r: Option<usize>)
        requires
            self.wf(),
        ensures
            match r {
                Some(i) => slot_of(self@.free, key@) == Some(i as int),
                None => slot_of(self@.free, key@) is None,
            },
    {
        let mut i: usize = 0;
        while i < self.free_keys.len()
            invariant
                self.wf(),
                i <= self.free_keys@.len(),
                forall|j: int| 0 <= j < i ==> self@.free[j].0 != key@,
            decreases self.free_keys@.len() - i,
        {
            if self.free_keys[i].same(key) {
                proof {
                    assert(self@.free[i as int].0 == key@);
                    let c = choose|c: int| 0 <= c < self@.free.len() && self@.free[c].0 == key@;
                    if c != i {
                        assert(self@.free[c].0 == self@.free[i as int].0);
                    }
                }
                return Some(i);
            }
            i += 1;
        }
        None
    }

    /// Position of a key among the generations.
    fn find_gen(&self, key: &PoolKey) -> (r: Option<usize>)
        requires
            self.wf(),
        ensures
            match r {
                Some(i) => slot_of(self@.gens, key@) == Some(i as int),
                None => slot_of(self@.gens, key@) is None,
            },
    {
        let mut i: usize = 0;
        while i < self.gen_keys.len()
            invariant
                self.wf(),
                i <= self.gen_keys@.len(),
                forall|j: int| 0 <= j < i ==> self@.gens[j].0 != key@,
            decreases self.gen_keys@.len() - i,
        {
            if self.gen_keys[i].same(key) {
                proof {
                    assert(self@.gens[i as int].0 == key@);
                    let c = choose|c: int| 0 <= c < self@.gens.len() && self@.gens[c].0 == key@;
                    if c != i {
                        assert(self@.gens[c].0 == self@.gens[i as int].0);
                    }
                }
                return Some(i);
            }
            i += 1;
        }
        None
    }

    pub fn current_generation(&self, key: &PoolKey) -> (r: u64)
        requires
            self.wf(),
        ensures
            r == gen_of(self@.gens, key@),
    {
        match self.find_gen(key) {
            Some(i) => self.gen_vals[i],
            None => 0,
        }
    }

    /// Contract's stale-hold detection: a consumer holding a frame across a
    /// recycle gets `StaleFrame` here.
    pub fn check_live(&self, key: &PoolKey, generation: u64) -> (r: Result<(), FrameError>)
        requires
            self.wf(),
        ensures
            r == if gen_of(self@.gens, key@) == generation {
                Ok::<(), FrameError>(())
            } else {
                Err(FrameError::StaleFrame { held: generation, current: gen_of(self@.gens, key@) })
            },
    {
        let current = self.current_generation(key);
        if current == generation {
            Ok(())
        } else {
            Err(FrameError::StaleFrame { held: generation, current })
        }
    }

    /// Acquire a buffer of `byte_len` zero bytes. The key's most recently
    /// returned free buffer (if any) is taken; if its recorded capacity holds
    /// `byte_len` bytes it is reused, which is a recycle and bumps the key's
    /// generation; otherwise it is dropped and a fresh buffer is allocated at
    /// the current generation.
    pub fn acquire(&mut self, key: &PoolKey, byte_len: usize, strides: Vec<usize>) -> (r: PooledBuffer)
        requires
            old(self).wf(),
            old(self)@.live < usize::MAX,
            gen_of(old(self)@.gens, key@) < u64::MAX,
            old(self)@.recycles < u64::MAX,
        ensures
            final(self).wf(),
            final(self)@.max == old(self)@.max,
            final(self)@.live == old(self)@.live + 1,
            final(self)@.free == take_one(old(self)@.free, key@),
            r@.key == key@,
            r@.data == Seq::new(byte_len as nat, |i: int| 0u8),
            r@.strides == strides@,
            r@.generation == gen_of(final(self)@.gens, key@),
            reuses(old(self)@.free, key@, byte_len) ==> {
                &&& final(self)@.gens == bump(old(self)@.gens, key@)
                &&& final(self)@.recycles == old(self)@.recycles + 1
                &&& r@.generation == gen_of(old(self)@.gens, key@) + 1
            },
            !reuses(old(self)@.free, key@, byte_len) ==> {
                &&& final(self)@.gens == old(self)@.gens
                &&& final(self)@.recycles == old(self)@.recycles
                &&& r@.generation == gen_of(old(self)@.gens, key@)
            },
    {
        let ghost p0 = self@;
        let si = self.find_free(key);
        let mut reused: Option<Vec<u8>> = None;
        if let Some(i) = si {
            let mut slot: Vec<(Vec<u8>, usize)> = Vec::new();
            self.free_bufs.set_and_swap(i, &mut slot);
            let ghost before = slot@;
            let popped = slot.pop();
            proof {
                if before.len() > 0 {
                    assert(caps_of(slot@) =~= caps_of(before).drop_last());
                } else {
                    assert(caps_of(slot@) =~= caps_of(before));
                }
            }
            self.free_bufs.set_and_swap(i, &mut slot);
            proof {
                assert(self@.free =~= take_one(p0.free, key@));
                assert forall|a: int, b: int|
                    0 <= a < self.free_bufs@.len() && 0 <= b < self.free_bufs@[a]@.len()
                        implies (#[trigger] self.free_bufs@[a]@[b]).0@.len() == 0 by {
                    if a == i {
                        assert(self.free_bufs@[a]@[b] == old(self).free_bufs@[a]@[b]);
                    }
                }
            }
            if let Some(entry) = popped {
                let (b, cap) = entry;
                proof {
                    assert(cap == caps_of(before).last());
                    assert(p0.free[i as int].1 == caps_of(before));
                }
                if cap >= byte_len {
                    reused = Some(b);
                }
            }
        }
        proof {
            assert(self.free_keys@ == old(self).free_keys@);
            assert(distinct_keys(self@.free)) by {
                assert forall|a: int, b: int| 0 <= a < b < self@.free.len() implies #[trigger] self@.free[a].0
                    != #[trigger] self@.free[b].0 by {
                    assert(p0.free[a].0 != p0.free[b].0);
                }
            }
            assert(reused is Some <==> reuses(p0.free, key@, byte_len));
        }
        self.live = self.live + 1;
        match reused {
            Some(mut data) => {
                let g: u64 = match self.find_gen(key) {
                    Some(j) => {
                        let g = self.gen_vals[j] + 1;
                        self.gen_vals.set(j, g);
                        proof {
                            assert(self@.gens =~= bump(p0.gens, key@));
                        }
                        g
                    },
                    None => {
                        self.gen_keys.push(key.clone());
                        self.gen_vals.push(1);
                        proof {
                            assert(self@.gens =~= bump(p0.gens, key@));
                        }
                        1
                    },
                };
                proof {
                    lemma_bump_advances(p0.gens, key@);
                }
                self.recycles = self.recycles + 1;
                data.resize(byte_len, 0u8);
                proof {
                    assert(data@ =~= Seq::new(byte_len as nat, |i: int| 0u8));
                }
                PooledBuffer { key: key.clone(), data, generation: g, strides }
            },
            None => {
                let g = self.current_generation(key);
                let data = vec![0u8; byte_len];
                proof {
                    assert(data@ =~= Seq::new(byte_len as nat, |i: int| 0u8));
                }
                PooledBuffer { key: key.clone(), data, generation: g, strides }
            },
        }
    }

    /// Return an empty buffer, with its recorded capacity, to its key's free
    /// list (created if needed); beyond the cap the buffer is dropped.
    fn put_back(&mut self, key: &PoolKey, data: Vec<u8>, cap: usize)
        requires
            old(self).wf(),
            data@.len() == 0,
        ensures
            final(self).wf(),
            final(self)@ == (PoolV { free: put_one(old(self)@.free, key@, old(self)@.max as nat, cap), ..old(self)@ }),
    {
        let ghost p0 = self@;
        match self.find_free(key) {
            Some(i) => {
                let mut slot: Vec<(Vec<u8>, usize)> = Vec::new();
                self.free_bufs.set_and_swap(i, &mut slot);
                let ghost before = slot@;
                if slot.len() < self.max_pooled_per_key {
                    slot.push((data, cap));
                    proof {
                        assert(caps_of(slot@) =~= caps_of(before).push(cap));
                    }
                }
                self.free_bufs.set_and_swap(i, &mut slot);
                proof {
                    assert(self@.free =~= put_one(p0.free, key@, p0.max as nat, cap));
                    assert forall|a: int, b: int|
                        0 <= a < self.free_bufs@.len() && 0 <= b < self.free_bufs@[a]@.len()
                            implies (#[trigger] self.free_bufs@[a]@[b]).0@.len() == 0 by {
                        if a == i && b < old(self).free_bufs@[a]@.len() {
                            assert(self.free_bufs@[a]@[b] == old(self).free_bufs@[a]@[b]);
                        }
                    }
                    assert(distinct_keys(self@.free)) by {
                        assert forall|a: int, b: int| 0 <= a < b < self@.free.len() implies #[trigger] self@.free[a].0
                            != #[trigger] self@.free[b].0 by {
                            assert(p0.free[a].0 != p0.free[b].0);
                        }
                    }
                }
            },
            None => {
                let mut slot: Vec<(Vec<u8>, usize)> = Vec::new();
                if 0 < self.max_pooled_per_key {
                    slot.push((data, cap));
                    proof {
                        assert(caps_of(slot@) =~= seq![cap]);
                    }
                } else {
                    proof {
                        assert(caps_of(slot@) =~= Seq::<usize>::empty());
                    }
                }
                self.free_keys.push(key.clone());
                self.free_bufs.push(slot);
                proof {
                    assert(self@.free =~= put_one(p0.free, key@, p0.max as nat, cap));
                    assert forall|a: int, b: int|
                        0 <= a < self.free_bufs@.len() && 0 <= b < self.free_bufs@[a]@.len()
                            implies (#[trigger] self.free_bufs@[a]@[b]).0@.len() == 0 by {
                        if a < old(self).free_bufs@.len() {
                            assert(self.free_bufs@[a] == old(self).free_bufs@[a]);
                        }
                    }
                    assert(distinct_keys(self@.free)) by {
                        assert forall|a: int, b: int| 0 <= a < b < self@.free.len() implies #[trigger] self@.free[a].0
                            != #[trigger] self@.free[b].0 by {
                            if b < p0.free.len() {
                                assert(p0.free[a].0 != p0.free[b].0);
                            }
                        }
                    }
                }
            },
        }
    }

    /// Reclaim raw bytes from a consumed frame, checked against the
    /// generation tag (capacity recorded and kept, content dropped). The
    /// capacity is the allocator's, so only that it holds the bytes is
    /// stated of it.
    pub fn release_bytes(&mut self, key: &PoolKey, data: Vec<u8>, generation: u64) -> (r: Result<(), FrameError>)
        requires
            old(self).wf(),
        ensures
            final(self).wf(),
            gen_of(old(self)@.gens, key@) != generation ==> {
                &&& r == Err::<(), FrameError>(
                    FrameError::StaleFrame { held: generation, current: gen_of(old(self)@.gens, key@) },
                )
                &&& final(self)@ == old(self)@
            },
            gen_of(old(self)@.gens, key@) == generation ==> {
                &&& r == Ok::<(), FrameError>(())
                &&& exists|cap: usize|
                    cap >= data@.len() && final(self)@ == (PoolV {
                        free: #[trigger] put_one(old(self)@.free, key@, old(self)@.max as nat, cap),
                        live: if old(self)@.live > 0 { (old(self)@.live - 1) as usize } else { 0 },
                        ..old(self)@
                    })
            },
    {
        match self.check_live(key, generation) {
            Ok(()) => {},
            Err(e) => {
                return Err(e);
            },
        }
        self.live = if self.live > 0 {
            self.live - 1
        } else {
            0
        };
        let mut data = data;
        let cap = capacity_of(&data);
        data.clear();
        self.put_back(key, data, cap);
        proof {
            assert(self@ == (PoolV {
                free: put_one(old(self)@.free, key@, old(self)@.max as nat, cap),
                live: if old(self)@.live > 0 { (old(self)@.live - 1) as usize } else { 0 },
                ..old(self)@
            }));
        }
        Ok(())
    }

    /// Return a buffer to its key's free list (capacity recorded and kept,
    /// content dropped). The buffer must not be stale.
    pub fn release(&mut self, buf: PooledBuffer)
        requires
            old(self).wf(),
            buf@.generation == gen_of(old(self)@.gens, buf@.key),
        ensures
            final(self).wf(),
            exists|cap: usize|
                cap >= buf@.data.len() && final(self)@ == (PoolV {
                    free: #[trigger] put_one(old(self)@.free, buf@.key, old(self)@.max as nat, cap),
                    live: if old(self)@.live > 0 { (old(self)@.live - 1) as usize } else { 0 },
                    ..old(self)@
                }),
    {
        self.live = if self.live > 0 {
            self.live - 1
        } else {
            0
        };
        let PooledBuffer { key, data, generation, strides } = buf;
        let mut data = data;
        let cap = capacity_of(&data);
        data.clear();
        self.put_back(&key, data, cap);
        proof {
            assert(self@ == (PoolV {
                free: put_one(old(self)@.free, buf@.key, old(self)@.max as nat, cap),
                live: if old(self)@.live > 0 { (old(self)@.live - 1) as usize } else { 0 },
                ..old(self)@
            }));
        }
    }

    pub fn stats(&self) -> (r: PoolStats)
        requires
            self.wf(),
        ensures
            r.live == self@.live,
            r.pooled == if pooled_total(self@.free) <= usize::MAX {
                pooled_total(self@.free)
            } else {
                usize::MAX as nat
            },
            r.keys == self@.free.len(),
            r.recycles == self@.recycles,
    {
        let mut pooled: usize = 0;
        let mut i: usize = 0;
        while i < self.free_bufs.len()
            invariant
                self.wf(),
                i <= self.free_bufs@.len(),
                pooled == if pooled_total(self@.free.take(i as int)) <= usize::MAX {
                    pooled_total(self@.free.take(i as int))
                } else {
                    usize::MAX as nat
                },
            decreases self.free_bufs@.len() - i,
        {
            proof {
                assert(self@.free.take(i as int + 1).drop_last() =~= self@.free.take(i as int));
            }
            pooled = pooled.saturating_add(self.free_bufs[i].len());
            i += 1;
        }
        proof {
            assert(self@.free.take(self@.free.len() as int) =~= self@.free);
        }
        PoolStats { live: self.live, pooled, keys: self.free_keys.len(), recycles: self.recycles }
    }
}

} // verus!
