use vstd::prelude::*;
use vstd::arithmetic::div_mod::{lemma_fundamental_div_mod, lemma_mod_multiples_vanish};
use vstd::arithmetic::power2::{is_pow2, lemma_pow2_adds, lemma_pow2_pos, pow2};
use vstd::bits::{lemma_u32_low_bits_mask_is_mod, low_bits_mask};

use crate::umem::HEADROOM_SIZE;
use crate::XdpError;

verus! {

/// One ring slot: a region of the UMEM, as `{addr, len, options}`.
#[derive(Copy, Clone, Debug, PartialEq, Eq, Structural)]
pub struct XdpDesc {
    pub addr: u64,
    pub len: u32,
    pub options: u32,
}

/// The canonical descriptor of chunk `page` holding `len` payload bytes.
pub open spec fn packet_desc(page: int, alignment: int, len: int) -> XdpDesc {
    XdpDesc { addr: (page * alignment + HEADROOM_SIZE) as u64, len: len as u32, options: 0 }
}

/// The canonical descriptor of chunk `page` with its whole payload capacity.
pub open spec fn empty_desc(page: int, alignment: int) -> XdpDesc {
    packet_desc(page, alignment, alignment - HEADROOM_SIZE)
}

/// Counters wrap at this value.
pub open spec fn counter_range() -> int {
    0x1_0000_0000
}

/// The largest ring size: the distance of the two 32-bit counters must stay
/// below their range.
pub const MAX_RING_SIZE: usize = 0x8000_0000;

/// Which of the four queues a ring is.
#[derive(Copy, Clone, Debug, PartialEq, Eq, Structural)]
pub enum Type {
    Tx,
    Rx,
    Completion,
    Fill,
}

/// The role of a ring handle.
pub trait Marker {
}

/// Handle role: this side consumes.
pub struct Reader {}

/// Handle role: this side produces.
pub struct Writer {}

impl Marker for Reader {
}

impl Marker for Writer {
}

/// Requested size of one ring.
#[derive(Copy, Clone, Debug)]
pub struct Config {
    pub size: usize,
}

/// Whether `size` is a power of two, and its base-2 logarithm when it is.
pub fn checked_log2(size: usize) -> (r: Option<u32>)
    ensures
        r is Some <==> is_pow2(size as int),
        r is Some ==> r->0 < 64 && pow2(r->0 as nat) == size,
{
    if size == 0 {
        proof {
            reveal(is_pow2);
        }
        return None;
    }
    let mut s: usize = size;
    let mut k: u32 = 0;
    proof {
        vstd::arithmetic::power2::lemma2_to64();
    }
    while s > 1 && s % 2 == 0
        invariant
            s >= 1,
            k < 64,
            s * pow2(k as nat) == size,
            is_pow2(s as int) == is_pow2(size as int),
        decreases s,
    {
        proof {
            reveal(is_pow2);
            lemma_pow2_adds(k as nat, 1);
            vstd::arithmetic::power2::lemma2_to64();
            lemma_pow2_pos(k as nat);
            assert(pow2(1) == 2);
            assert((s / 2) * pow2((k + 1) as nat) == size) by (nonlinear_arith)
                requires
                    s % 2 == 0,
                    pow2((k + 1) as nat) == pow2(k as nat) * 2,
                    s * pow2(k as nat) == size,
            ;
            if k + 1 >= 64 {
                vstd::arithmetic::power2::lemma_pow2_strictly_increases(63, 64);
                assert(pow2(64) == 0x1_0000_0000_0000_0000);
                assert(false) by (nonlinear_arith)
                    requires
                        s / 2 >= 1,
                        (s / 2) * pow2((k + 1) as nat) == size,
                        pow2((k + 1) as nat) >= pow2(64),
                        pow2(64) == 0x1_0000_0000_0000_0000,
                        size < 0x1_0000_0000_0000_0000,
                ;
            }
        }
        s = s / 2;
        k = k + 1;
    }
    proof {
        reveal(is_pow2);
    }
    if s == 1 {
        Some(k)
    } else {
        None
    }
}

/// The slot a reader takes next, or `None` when the ring is empty.
pub fn ring_read_index(consumer: u32, producer: u32, mask: u32) -> (r: Option<u32>)
    ensures
        r is None <==> consumer == producer,
        r is Some ==> r->0 == consumer & mask,
{
    if consumer == producer {
        None
    } else {
        Some(consumer & mask)
    }
}

/// The slot a writer fills next, or `None` when the ring holds `mask + 1`
/// entries already.
pub fn ring_write_index(consumer: u32, producer: u32, mask: u32) -> (r: Option<u32>)
    ensures
        r is None <==> (producer as int - consumer as int) % counter_range() > mask,
        r is Some ==> r->0 == producer & mask,
{
    if producer.wrapping_sub(consumer) > mask {
        None
    } else {
        Some(producer & mask)
    }
}

/// A single-producer / single-consumer ring of descriptors, with the 32-bit
/// producer and consumer counters of the kernel's protocol.
pub struct XdpRing<K: Marker> {
    type_: Type,
    consumer: u32,
    producer: u32,
    descriptors: Vec<XdpDesc>,
    mask: u32,
    log_size: Ghost<nat>,
    _marker: std::marker::PhantomData<K>,
}

proof fn lemma_wrap_mod(x: int, k: int, size: int)
    requires
        0 < size,
        counter_range() % size == 0,
        0 <= k,
    ensures
        (x % counter_range() + k) % size == (x + k) % size,
{
    let q = counter_range() / size;
    lemma_fundamental_div_mod(counter_range(), size);
    lemma_fundamental_div_mod(x, counter_range());
    let t = x / counter_range();
    assert(x + k == size * (q * t) + (x % counter_range() + k)) by (nonlinear_arith)
        requires
            counter_range() == size * q,
            x == counter_range() * t + x % counter_range(),
    ;
    lemma_mod_multiples_vanish(q * t, x % counter_range() + k, size);
}

proof fn lemma_mod_distinct(a: int, d: int, m: int)
    requires
        0 < d < m,
    ensures
        (a + d) % m != a % m,
{
    lemma_fundamental_div_mod(a, m);
    lemma_fundamental_div_mod(a + d, m);
    let q1 = a / m;
    let q2 = (a + d) / m;
    if (a + d) % m == a % m {
        assert(d == m * (q2 - q1)) by (nonlinear_arith)
            requires
                a == m * q1 + a % m,
                a + d == m * q2 + (a + d) % m,
                (a + d) % m == a % m,
        ;
        assert(false) by (nonlinear_arith)
            requires
                d == m * (q2 - q1),
                0 < d < m,
        ;
    }
}

impl<K: Marker> XdpRing<K> {
    pub closed spec fn spec_size(self) -> nat {
        self.mask as nat + 1
    }

    pub closed spec fn spec_type(self) -> Type {
        self.type_
    }

    /// How many descriptors are published and not yet consumed.
    pub closed spec fn count(self) -> nat {
        ((self.producer as int - self.consumer as int) % counter_range()) as nat
    }

    /// The published, unconsumed descriptors, oldest first.
    pub closed spec fn pending(self) -> Seq<XdpDesc> {
        Seq::new(
            self.count(),
            |k: int| self.descriptors@[(self.consumer as int + k) % self.spec_size() as int],
        )
    }

    pub closed spec fn wf(self) -> bool {
        &&& self.log_size@ < 32
        &&& self.spec_size() == pow2(self.log_size@)
        &&& self.mask as nat == low_bits_mask(self.log_size@)
        &&& self.spec_size() <= MAX_RING_SIZE
        &&& self.descriptors@.len() == self.spec_size()
        &&& self.count() <= self.spec_size()
    }

    /// Ring bound: a well-formed ring never holds more descriptors than it
    /// has slots.
    pub proof fn lemma_ring_bound(self)
        requires
            self.wf(),
        ensures
            self.pending().len() <= self.spec_size(),
            1 <= self.spec_size() <= MAX_RING_SIZE,
    {
        lemma_pow2_pos(self.log_size@);
    }

    /// FIFO order: after `write(a)` and then `write(b)`, the ring holds what
    /// it held before, then `a`, then `b`; reads take them from the front.
    pub proof fn lemma_fifo_order(self, after_a: XdpRing<K>, after_b: XdpRing<K>, a: XdpDesc, b: XdpDesc)
        requires
            after_a.pending() == self.pending().push(a),
            after_b.pending() == after_a.pending().push(b),
        ensures
            after_b.pending().len() == self.pending().len() + 2,
            after_b.pending().subrange(0, self.pending().len() as int) == self.pending(),
            after_b.pending()[self.pending().len() as int] == a,
            after_b.pending()[self.pending().len() + 1int] == b,
    {
        assert(after_b.pending().subrange(0, self.pending().len() as int) =~= self.pending());
    }

    proof fn lemma_size_divides(self)
        requires
            self.wf(),
        ensures
            counter_range() % (self.spec_size() as int) == 0,
            0 < self.spec_size(),
    {
        lemma_pow2_pos(self.log_size@);
        lemma_pow2_adds(self.log_size@, (32 - self.log_size@) as nat);
        vstd::arithmetic::power2::lemma2_to64();
        lemma_pow2_pos((32 - self.log_size@) as nat);
        let a = pow2(self.log_size@) as int;
        let b = pow2((32 - self.log_size@) as nat) as int;
        assert(counter_range() == b * a);
        vstd::arithmetic::div_mod::lemma_mod_multiples_basic(b, a);
    }

    /// An empty ring of `config.size` slots; `InvalidInput` unless the size is
    /// a power of two no larger than `MAX_RING_SIZE`.
    pub fn new(type_: Type, config: Config) -> (r: Result<XdpRing<K>, XdpError>)
        ensures
            r is Err <==> !is_pow2(config.size as int) || config.size > MAX_RING_SIZE,
            r is Err ==> r == Err::<XdpRing<K>, XdpError>(XdpError::InvalidInput),
            r is Ok ==> {
                &&& r->Ok_0.wf()
                &&& r->Ok_0.spec_size() == config.size
                &&& r->Ok_0.spec_type() == type_
                &&& r->Ok_0.pending() == Seq::<XdpDesc>::empty()
            },
    {
        let log = match checked_log2(config.size) {
            Some(k) => k,
            None => {
                return Err(XdpError::InvalidInput);
            },
        };
        if config.size > MAX_RING_SIZE {
            return Err(XdpError::InvalidInput);
        }
        let size = config.size;
        proof {
            lemma_pow2_pos(log as nat);
            if log >= 32 {
                vstd::arithmetic::power2::lemma2_to64();
                vstd::arithmetic::power2::lemma_pow2_strictly_increases(31, log as nat);
            }
        }
        let mut descriptors: Vec<XdpDesc> = Vec::with_capacity(size);
        let mut i: usize = 0;
        while i < size
            invariant
                i <= size,
                descriptors@.len() == i,
            decreases size - i,
        {
            descriptors.push(XdpDesc { addr: 0, len: 0, options: 0 });
            i = i + 1;
        }
        let ring = XdpRing {
            type_,
            consumer: 0,
            producer: 0,
            descriptors,
            mask: (size - 1) as u32,
            log_size: Ghost(log as nat),
            _marker: std::marker::PhantomData,
        };
        assert(ring.pending() =~= Seq::<XdpDesc>::empty());
        Ok(ring)
    }

    /// Number of slots.
    pub fn size(&self) -> (r: u32)
        requires
            self.wf(),
        ensures
            r == self.spec_size(),
    {
        self.mask + 1
    }

    /// Number of published, unconsumed descriptors.
    pub fn len(&self) -> (r: u32)
        requires
            self.wf(),
        ensures
            r == self.pending().len(),
    {
        self.producer.wrapping_sub(self.consumer)
    }

    pub fn type_(&self) -> (r: Type)
        ensures
            r == self.spec_type(),
    {
        self.type_
    }

    /// The oldest published descriptor, left in place.
    pub fn peek(&self) -> (r: Option<XdpDesc>)
        requires
            self.wf(),
        ensures
            r is None <==> self.pending().len() == 0,
            r is Some ==> r->0 == self.pending()[0],
    {
        let idx = match ring_read_index(self.consumer, self.producer, self.mask) {
            Some(i) => i,
            None => {
                proof {
                    assert(self.count() == 0);
                }
                return None;
            },
        };
        proof {
            self.lemma_size_divides();
            lemma_u32_low_bits_mask_is_mod(self.consumer, self.log_size@);
            assert(self.count() > 0) by {
                if self.count() == 0 {
                    assert(self.producer == self.consumer);
                }
            }
        }
        Some(self.descriptors[idx as usize])
    }

    /// Consumer half of the protocol.
    fn pop(&mut self) -> (r: Option<XdpDesc>)
        requires
            old(self).wf(),
        ensures
            final(self).wf(),
            final(self).spec_size() == old(self).spec_size(),
            final(self).spec_type() == old(self).spec_type(),
            r is None <==> old(self).pending().len() == 0,
            r is None ==> *final(self) == *old(self),
            r is Some ==> r->0 == old(self).pending()[0] && final(self).pending() == old(
                self,
            ).pending().drop_first(),
    {
        let c = self.consumer;
        let p = self.producer;
        let idx = match ring_read_index(c, p, self.mask) {
            Some(i) => i,
            None => {
                proof {
                    assert(self.count() == 0);
                }
                return None;
            },
        };
        proof {
            self.lemma_size_divides();
            lemma_u32_low_bits_mask_is_mod(c, self.log_size@);
            assert(self.count() > 0) by {
                if self.count() == 0 {
                    assert(p == c);
                }
            }
        }
        let res = self.descriptors[idx as usize];
        let ghost old_self = *self;
        self.consumer = c.wrapping_add(1);
        proof {
            let size = self.spec_size() as int;
            assert(res == old_self.pending()[0]);
            assert(self.count() == old_self.count() - 1);
            assert forall|k: int| 0 <= k < self.count() implies #[trigger] self.pending()[k]
                == old_self.pending().drop_first()[k] by {
                lemma_wrap_mod(c as int + 1, k, size);
            }
            assert(self.pending() =~= old_self.pending().drop_first());
        }
        Some(res)
    }

    /// Producer half of the protocol.
    fn push(&mut self, desc: XdpDesc) -> (r: Result<(), XdpError>)
        requires
            old(self).wf(),
        ensures
            final(self).wf(),
            final(self).spec_size() == old(self).spec_size(),
            final(self).spec_type() == old(self).spec_type(),
            r is Ok <==> old(self).pending().len() < old(self).spec_size(),
            r is Err ==> r == Err::<(), XdpError>(XdpError::WouldBlock) && *final(self) == *old(
                self,
            ),
            r is Ok ==> final(self).pending() == old(self).pending().push(desc),
    {
        let c = self.consumer;
        let p = self.producer;
        let idx = match ring_write_index(c, p, self.mask) {
            Some(i) => i,
            None => {
                return Err(XdpError::WouldBlock);
            },
        };
        let ghost old_self = *self;
        proof {
            self.lemma_size_divides();
            lemma_u32_low_bits_mask_is_mod(p, self.log_size@);
        }
        self.descriptors.set(idx as usize, desc);
        self.producer = p.wrapping_add(1);
        proof {
            let size = self.spec_size() as int;
            let n = old_self.count() as int;
            assert(self.count() == n + 1);
            assert((c as int + n) % size == p as int % size) by {
                lemma_wrap_mod(p as int - c as int, c as int, size);
                assert(n == (p as int - c as int) % counter_range());
            }
            assert forall|k: int| 0 <= k < self.count() implies #[trigger] self.pending()[k]
                == old_self.pending().push(desc)[k] by {
                if k < n {
                    lemma_mod_distinct(c as int + k, n - k, size);
                }
            }
            assert(self.pending() =~= old_self.pending().push(desc));
        }
        Ok(())
    }
}

impl XdpRing<Reader> {
    /// Takes the oldest published descriptor, or `None` when the ring is empty.
    pub fn read(&mut self) -> (r: Option<XdpDesc>)
        requires
            old(self).wf(),
        ensures
            final(self).wf(),
            final(self).spec_size() == old(self).spec_size(),
            final(self).spec_type() == old(self).spec_type(),
            r is None <==> old(self).pending().len() == 0,
            r is None ==> *final(self) == *old(self),
            r is Some ==> r->0 == old(self).pending()[0] && final(self).pending() == old(
                self,
            ).pending().drop_first(),
    {
        self.pop()
    }

    /// The kernel's side of a ring this process reads: publishes `desc`, or
    /// `WouldBlock` when the ring is full.
    pub fn peer_write(&mut self, desc: XdpDesc) -> (r: Result<(), XdpError>)
        requires
            old(self).wf(),
        ensures
            final(self).wf(),
            final(self).spec_size() == old(self).spec_size(),
            final(self).spec_type() == old(self).spec_type(),
            r is Ok <==> old(self).pending().len() < old(self).spec_size(),
            r is Err ==> r == Err::<(), XdpError>(XdpError::WouldBlock) && *final(self) == *old(
                self,
            ),
            r is Ok ==> final(self).pending() == old(self).pending().push(desc),
    {
        self.push(desc)
    }
}

impl XdpRing<Writer> {
    /// Publishes `desc`, or `WouldBlock` when the ring is full.
    pub fn write(&mut self, desc: XdpDesc) -> (r: Result<(), XdpError>)
        requires
            old(self).wf(),
        ensures
            final(self).wf(),
            final(self).spec_size() == old(self).spec_size(),
            final(self).spec_type() == old(self).spec_type(),
            r is Ok <==> old(self).pending().len() < old(self).spec_size(),
            r is Err ==> r == Err::<(), XdpError>(XdpError::WouldBlock) && *final(self) == *old(
                self,
            ),
            r is Ok ==> final(self).pending() == old(self).pending().push(desc),
    {
        self.push(desc)
    }

    /// The kernel's side of a ring this process writes: takes the oldest
    /// descriptor, or `None` when the ring is empty.
    pub fn peer_read(&mut self) -> (r: Option<XdpDesc>)
        requires
            old(self).wf(),
        ensures
            final(self).wf(),
            final(self).spec_size() == old(self).spec_size(),
            final(self).spec_type() == old(self).spec_type(),
            r is None <==> old(self).pending().len() == 0,
            r is None ==> *final(self) == *old(self),
            r is Some ==> r->0 == old(self).pending()[0] && final(self).pending() == old(
                self,
            ).pending().drop_first(),
    {
        self.pop()
    }
}

} // verus!
