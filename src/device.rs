use vstd::prelude::*;

use crate::rings::{self, empty_desc, packet_desc, Reader, Type, Writer, XdpDesc, XdpRing};
use crate::umem::{self, Umem, HEADROOM_SIZE, MAX_ENTRIES};
use crate::XdpError;
use vstd::arithmetic::div_mod::{lemma_fundamental_div_mod, lemma_fundamental_div_mod_converse};
use vstd::arithmetic::power2::is_pow2;
use vstd::set_lib::{lemma_int_range, lemma_set_disjoint_lens, set_int_range};

verus! {

/// Construction inputs of a device.
#[derive(Copy, Clone, Debug)]
pub struct Config {
    pub queue_id: u32,
    pub umem: umem::Config,
    pub tx: rings::Config,
    pub rx: rings::Config,
    pub cr: rings::Config,
    pub fr: rings::Config,
}

/// A ring size the device accepts: a power of two within the 32-bit counters' reach.
pub open spec fn valid_ring_size(size: usize) -> bool {
    is_pow2(size as int) && size <= rings::MAX_RING_SIZE
}

/// Where a chunk is: on the user-space free list or described on one ring.
pub enum ChunkState {
    Free,
    Fill,
    Rx,
    Tx,
    Completion,
}

/// A received frame, copied out of its chunk.
pub struct RxToken {
    buffer: Vec<u8>,
    refill: Option<XdpDesc>,
}

impl View for RxToken {
    type V = Seq<u8>;

    closed spec fn view(&self) -> Seq<u8> {
        self.buffer@
    }
}

impl RxToken {
    pub closed spec fn spec_refill(&self) -> Option<XdpDesc> {
        self.refill
    }

    /// The descriptor that the frame's chunk was posted with on the Fill
    /// ring, or `None` when the Fill ring was full and the chunk went to the
    /// free list.
    pub fn refill(&self) -> (r: Option<XdpDesc>)
        ensures
            r == self.spec_refill(),
    {
        self.refill
    }

    /// The frame's bytes.
    pub fn consume(self) -> (r: Vec<u8>)
        ensures
            r@ == self@,
    {
        self.buffer
    }
}

/// The chunk indices that a sequence of descriptors refers to.
pub open spec fn page_seq(s: Seq<XdpDesc>, alignment: int) -> Seq<int> {
    Seq::new(s.len(), |k: int| s[k].addr as int / alignment)
}

/// Every descriptor points just past the headroom of a chunk and fits in it.
pub open spec fn all_canonical(s: Seq<XdpDesc>, alignment: int) -> bool {
    forall|k: int|
        0 <= k < s.len() ==> #[trigger] s[k].addr as int % alignment == HEADROOM_SIZE && s[k].len
            <= alignment - HEADROOM_SIZE
}

/// `s` lists, without repetition, exactly the chunks below `n` whose state is `l`.
pub open spec fn placed(s: Seq<int>, state: Map<int, ChunkState>, l: ChunkState, n: int) -> bool {
    &&& s.no_duplicates()
    &&& forall|k: int| 0 <= k < s.len() ==> 0 <= #[trigger] s[k] < n && state[s[k]] == l
    &&& forall|p: int| 0 <= p < n && #[trigger] state[p] == l ==> s.contains(p)
}

proof fn lemma_placed_drop_first(
    s: Seq<int>,
    state: Map<int, ChunkState>,
    l: ChunkState,
    n: int,
    m: ChunkState,
)
    requires
        placed(s, state, l, n),
        s.len() > 0,
        m != l,
    ensures
        placed(s.drop_first(), state.insert(s[0], m), l, n),
{
    let t = s.drop_first();
    let st = state.insert(s[0], m);
    assert forall|k: int| 0 <= k < t.len() implies 0 <= #[trigger] t[k] < n && st[t[k]] == l by {
        assert(t[k] == s[k + 1]);
    }
    assert forall|p: int| 0 <= p < n && #[trigger] st[p] == l implies t.contains(p) by {
        assert(p != s[0]);
        assert(s.contains(p));
        let k = choose|k: int| 0 <= k < s.len() && s[k] == p;
        assert(t[k - 1] == p);
    }
}

proof fn lemma_placed_push(s: Seq<int>, state: Map<int, ChunkState>, l: ChunkState, n: int, p: int)
    requires
        placed(s, state, l, n),
        0 <= p < n,
        state[p] != l,
    ensures
        placed(s.push(p), state.insert(p, l), l, n),
{
    let t = s.push(p);
    let st = state.insert(p, l);
    assert(!s.contains(p));
    assert forall|k: int| 0 <= k < t.len() implies 0 <= #[trigger] t[k] < n && st[t[k]] == l by {
        if k < s.len() {
            assert(t[k] == s[k]);
        }
    }
    assert forall|q: int| 0 <= q < n && #[trigger] st[q] == l implies t.contains(q) by {
        if q == p {
            assert(t[s.len() as int] == p);
        } else {
            let k = choose|k: int| 0 <= k < s.len() && s[k] == q;
            assert(t[k] == q);
        }
    }
    assert(t.no_duplicates()) by {
        assert forall|a: int, b: int| 0 <= a < b < t.len() implies t[a] != t[b] by {
            if b == s.len() {
                assert(t[a] == s[a]);
            }
        }
    }
}

proof fn lemma_placed_prepend(s: Seq<int>, state: Map<int, ChunkState>, l: ChunkState, n: int, p: int)
    requires
        placed(s, state, l, n),
        0 <= p < n,
        state[p] != l,
    ensures
        placed(seq![p] + s, state.insert(p, l), l, n),
{
    let t = seq![p] + s;
    let st = state.insert(p, l);
    assert(!s.contains(p));
    assert forall|k: int| 0 <= k < t.len() implies 0 <= #[trigger] t[k] < n && st[t[k]] == l by {
        if k > 0 {
            assert(t[k] == s[k - 1]);
        }
    }
    assert forall|q: int| 0 <= q < n && #[trigger] st[q] == l implies t.contains(q) by {
        if q == p {
            assert(t[0] == p);
        } else {
            let k = choose|k: int| 0 <= k < s.len() && s[k] == q;
            assert(t[k + 1] == q);
        }
    }
    assert(t.no_duplicates()) by {
        assert forall|a: int, b: int| 0 <= a < b < t.len() implies t[a] != t[b] by {
            if a == 0 {
                assert(t[b] == s[b - 1]);
            } else {
                assert(t[a] == s[a - 1]);
                assert(t[b] == s[b - 1]);
            }
        }
    }
}

proof fn lemma_placed_other(
    s: Seq<int>,
    state: Map<int, ChunkState>,
    l: ChunkState,
    n: int,
    p: int,
    m: ChunkState,
)
    requires
        placed(s, state, l, n),
        state[p] != l,
        m != l,
    ensures
        placed(s, state.insert(p, m), l, n),
{
    let st = state.insert(p, m);
    assert forall|k: int| 0 <= k < s.len() implies 0 <= #[trigger] s[k] < n && st[s[k]] == l by {
        assert(s[k] != p);
    }
}

proof fn lemma_page_seq_push(s: Seq<XdpDesc>, alignment: int, d: XdpDesc)
    ensures
        page_seq(s.push(d), alignment) == page_seq(s, alignment).push(d.addr as int / alignment),
{
    assert(page_seq(s.push(d), alignment) =~= page_seq(s, alignment).push(
        d.addr as int / alignment,
    ));
}

proof fn lemma_page_seq_drop_first(s: Seq<XdpDesc>, alignment: int)
    requires
        s.len() > 0,
    ensures
        page_seq(s.drop_first(), alignment) == page_seq(s, alignment).drop_first(),
        page_seq(s, alignment)[0] == s[0].addr as int / alignment,
{
    assert(page_seq(s.drop_first(), alignment) =~= page_seq(s, alignment).drop_first());
}

/// Every descriptor the core builds for a chunk points just past the chunk's
/// headroom, fits in the chunk, and leads back to the chunk.
pub proof fn lemma_descriptor_canonical(page: int, alignment: int, len: int)
    requires
        0 <= page < MAX_ENTRIES,
        alignment == 2048 || alignment == 4096,
        0 <= len <= alignment - HEADROOM_SIZE,
    ensures
        packet_desc(page, alignment, len).addr as int == page * alignment + HEADROOM_SIZE,
        packet_desc(page, alignment, len).addr as int % alignment == HEADROOM_SIZE,
        packet_desc(page, alignment, len).addr as int / alignment == page,
        packet_desc(page, alignment, len).len as int == len,
        packet_desc(page, alignment, len).len <= alignment - HEADROOM_SIZE,
{
    assert(page * alignment + HEADROOM_SIZE < 0x1_0000_0000) by (nonlinear_arith)
        requires
            0 <= page < MAX_ENTRIES,
            alignment <= 4096,
    ;
    lemma_fundamental_div_mod_converse(
        page * alignment + HEADROOM_SIZE,
        alignment,
        page,
        HEADROOM_SIZE as int,
    );
}

proof fn lemma_canonical_addr(addr: int, alignment: int)
    requires
        alignment > 0,
        addr % alignment == HEADROOM_SIZE,
    ensures
        addr == (addr / alignment) * alignment + HEADROOM_SIZE,
{
    lemma_fundamental_div_mod(addr, alignment);
    assert(alignment * (addr / alignment) == (addr / alignment) * alignment) by (nonlinear_arith);
}

/// 1 when `s` lists chunk `p`, else 0.
pub open spec fn holds(s: Seq<int>, p: int) -> int {
    if s.contains(p) {
        1
    } else {
        0
    }
}

proof fn lemma_placed_contains(s: Seq<int>, state: Map<int, ChunkState>, l: ChunkState, n: int, p: int)
    requires
        placed(s, state, l, n),
    ensures
        s.contains(p) <==> (0 <= p < n && state[p] == l),
{
    if s.contains(p) {
        let k = choose|k: int| 0 <= k < s.len() && s[k] == p;
        assert(0 <= s[k] < n && state[s[k]] == l);
    }
}

/// Chunk conservation: in a well-formed core each chunk is in exactly one
/// place, on the free list or described on one of the four rings; no place
/// lists a chunk twice or a chunk outside the pool, so the places hold
/// `entries` chunks between them.
pub proof fn lemma_chunk_conservation(core: XdpCore)
    requires
        core.wf(),
    ensures
        forall|p: int|
            0 <= p < core.entries() ==> holds(core.free_pages(), p) + holds(core.fill_pages(), p)
                + holds(core.rx_pages(), p) + holds(core.tx_pages(), p) + holds(
                core.completion_pages(),
                p,
            ) == 1,
        forall|p: int|
            !(0 <= p < core.entries()) ==> holds(core.free_pages(), p) + holds(core.fill_pages(), p)
                + holds(core.rx_pages(), p) + holds(core.tx_pages(), p) + holds(
                core.completion_pages(),
                p,
            ) == 0,
        core.free_pages().no_duplicates(),
        core.fill_pages().no_duplicates(),
        core.rx_pages().no_duplicates(),
        core.tx_pages().no_duplicates(),
        core.completion_pages().no_duplicates(),
        core.free_pages().len() + core.fill_pages().len() + core.rx_pages().len()
            + core.tx_pages().len() + core.completion_pages().len() == core.entries(),
{
    let n = core.entries() as int;
    let st = core.state@;
    let a = core.free_pages();
    let b = core.fill_pages();
    let c = core.rx_pages();
    let d = core.tx_pages();
    let e = core.completion_pages();
    assert forall|p: int| #![all_triggers] true implies {
        &&& a.contains(p) <==> (0 <= p < n && st[p] == ChunkState::Free)
        &&& b.contains(p) <==> (0 <= p < n && st[p] == ChunkState::Fill)
        &&& c.contains(p) <==> (0 <= p < n && st[p] == ChunkState::Rx)
        &&& d.contains(p) <==> (0 <= p < n && st[p] == ChunkState::Tx)
        &&& e.contains(p) <==> (0 <= p < n && st[p] == ChunkState::Completion)
    } by {
        lemma_placed_contains(a, st, ChunkState::Free, n, p);
        lemma_placed_contains(b, st, ChunkState::Fill, n, p);
        lemma_placed_contains(c, st, ChunkState::Rx, n, p);
        lemma_placed_contains(d, st, ChunkState::Tx, n, p);
        lemma_placed_contains(e, st, ChunkState::Completion, n, p);
    }
    a.unique_seq_to_set();
    b.unique_seq_to_set();
    c.unique_seq_to_set();
    d.unique_seq_to_set();
    e.unique_seq_to_set();
    let sa = a.to_set();
    let sb = b.to_set();
    let sc = c.to_set();
    let sd = d.to_set();
    let se = e.to_set();
    lemma_set_disjoint_lens(sa, sb);
    lemma_set_disjoint_lens(sa + sb, sc);
    lemma_set_disjoint_lens(sa + sb + sc, sd);
    lemma_set_disjoint_lens(sa + sb + sc + sd, se);
    assert(sa.disjoint(sb));
    assert((sa + sb).disjoint(sc));
    assert((sa + sb + sc).disjoint(sd));
    assert((sa + sb + sc + sd).disjoint(se));
    lemma_int_range(0, n);
    assert(sa + sb + sc + sd + se =~= set_int_range(0, n));
}

/// The verified core of an AF_XDP device: the UMEM and its four rings, with
/// every chunk either free or described on exactly one ring.
pub struct XdpCore {
    umem: Umem,
    tx: XdpRing<Writer>,
    rx: XdpRing<Reader>,
    cr: XdpRing<Reader>,
    fr: XdpRing<Writer>,
    state: Ghost<Map<int, ChunkState>>,
}

impl XdpCore {
    pub closed spec fn entries(self) -> nat {
        self.umem.spec_size()
    }

    pub closed spec fn chunk_size(self) -> nat {
        self.umem.spec_alignment()
    }

    pub closed spec fn free_pages(self) -> Seq<int> {
        self.umem.free_list()
    }

    pub closed spec fn payload(self, page: int) -> Seq<u8> {
        self.umem.payload(page)
    }

    pub closed spec fn fill_descs(self) -> Seq<XdpDesc> {
        self.fr.pending()
    }

    pub closed spec fn rx_descs(self) -> Seq<XdpDesc> {
        self.rx.pending()
    }

    pub closed spec fn tx_descs(self) -> Seq<XdpDesc> {
        self.tx.pending()
    }

    pub closed spec fn completion_descs(self) -> Seq<XdpDesc> {
        self.cr.pending()
    }

    pub closed spec fn fill_size(self) -> nat {
        self.fr.spec_size()
    }

    pub closed spec fn rx_size(self) -> nat {
        self.rx.spec_size()
    }

    pub closed spec fn tx_size(self) -> nat {
        self.tx.spec_size()
    }

    pub closed spec fn completion_size(self) -> nat {
        self.cr.spec_size()
    }

    pub open spec fn fill_pages(self) -> Seq<int> {
        page_seq(self.fill_descs(), self.chunk_size() as int)
    }

    pub open spec fn rx_pages(self) -> Seq<int> {
        page_seq(self.rx_descs(), self.chunk_size() as int)
    }

    pub open spec fn tx_pages(self) -> Seq<int> {
        page_seq(self.tx_descs(), self.chunk_size() as int)
    }

    pub open spec fn completion_pages(self) -> Seq<int> {
        page_seq(self.completion_descs(), self.chunk_size() as int)
    }

    pub closed spec fn wf(self) -> bool {
        let n = self.umem.spec_size() as int;
        let al = self.umem.spec_alignment() as int;
        let st = self.state@;
        &&& self.umem.wf()
        &&& self.tx.wf()
        &&& self.rx.wf()
        &&& self.cr.wf()
        &&& self.fr.wf()
        &&& self.tx.spec_type() == Type::Tx
        &&& self.rx.spec_type() == Type::Rx
        &&& self.cr.spec_type() == Type::Completion
        &&& self.fr.spec_type() == Type::Fill
        &&& placed(self.umem.free_list(), st, ChunkState::Free, n)
        &&& placed(self.fill_pages(), st, ChunkState::Fill, n)
        &&& placed(self.rx_pages(), st, ChunkState::Rx, n)
        &&& placed(self.tx_pages(), st, ChunkState::Tx, n)
        &&& placed(self.completion_pages(), st, ChunkState::Completion, n)
        &&& all_canonical(self.fr.pending(), al)
        &&& all_canonical(self.rx.pending(), al)
        &&& all_canonical(self.tx.pending(), al)
        &&& all_canonical(self.cr.pending(), al)
    }

    /// The free list as it stands once one Completion descriptor, if any,
    /// has been reclaimed.
    pub open spec fn free_after_drain(self) -> Seq<int> {
        if self.completion_descs().len() > 0 {
            seq![self.completion_pages()[0]] + self.free_pages()
        } else {
            self.free_pages()
        }
    }

    proof fn lemma_not_free(self, p: int, l: ChunkState)
        requires
            self.wf(),
            self.state@[p] == l,
            l != ChunkState::Free,
        ensures
            !self.umem.is_free(p),
    {
        if self.umem.free_list().contains(p) {
            let k = choose|k: int|
                0 <= k < self.umem.free_list().len() && self.umem.free_list()[k] == p;
            assert(self.state@[self.umem.free_list()[k]] == ChunkState::Free);
        }
    }

    /// Largest frame that fits in one chunk.
    pub fn max_frame_len(&self) -> (r: usize)
        requires
            self.wf(),
        ensures
            r == self.chunk_size() - HEADROOM_SIZE,
    {
        proof {
            self.lemma_wf();
        }
        self.umem.alignment() - HEADROOM_SIZE
    }

    /// Takes one received frame: copies it out of its chunk, and hands the
    /// chunk back to the kernel on the Fill ring, or to the free list when
    /// the Fill ring is full.
    pub fn receive(&mut self) -> (r: Option<RxToken>)
        requires
            old(self).wf(),
        ensures
            final(self).wf(),
            final(self).entries() == old(self).entries(),
            final(self).chunk_size() == old(self).chunk_size(),
            r is None <==> old(self).rx_descs().len() == 0,
            r is None ==> *final(self) == *old(self),
            r is Some ==> {
                let al = old(self).chunk_size() as int;
                let d = old(self).rx_descs()[0];
                let p = d.addr as int / al;
                &&& r->0@ == old(self).payload(p).subrange(0, d.len as int)
                &&& final(self).rx_descs() == old(self).rx_descs().drop_first()
                &&& final(self).tx_descs() == old(self).tx_descs()
                &&& final(self).completion_descs() == old(self).completion_descs()
                &&& old(self).fill_descs().len() < old(self).fill_size() ==> final(self).fill_descs()
                    == old(self).fill_descs().push(empty_desc(p, al)) && final(self).free_pages()
                    == old(self).free_pages() && r->0.spec_refill() == Some(empty_desc(p, al))
                &&& old(self).fill_descs().len() >= old(self).fill_size() ==> final(self).fill_descs()
                    == old(self).fill_descs() && final(self).free_pages() == seq![p] + old(
                    self,
                ).free_pages() && r->0.spec_refill() is None
                &&& forall|i: int|
                    0 <= i < old(self).entries() ==> #[trigger] final(self).payload(i) == old(
                        self,
                    ).payload(i)
            },
    {
        proof {
            self.lemma_wf();
            self.umem.lemma_wf();
        }
        let ghost al = self.umem.spec_alignment() as int;
        let ghost n = self.umem.spec_size() as int;
        let ghost old_self = *self;
        let ghost st0 = self.state@;
        let desc = match self.rx.read() {
            Some(d) => d,
            None => {
                return None;
            },
        };
        let page_id = self.umem.page_id_from(desc);
        let ghost p = page_id as int;
        proof {
            lemma_page_seq_drop_first(old_self.rx.pending(), al);
            assert(old_self.rx_pages()[0] == p);
            old_self.lemma_not_free(p, ChunkState::Rx);
        }
        let data = self.umem.read(page_id).read_packet(desc);
        let empty = self.umem.free(page_id);
        let ghost st1 = st0.insert(p, ChunkState::Free);
        self.state = Ghost(st1);
        proof {
            lemma_placed_prepend(old_self.umem.free_list(), st0, ChunkState::Free, n, p);
            lemma_placed_drop_first(old_self.rx_pages(), st0, ChunkState::Rx, n, ChunkState::Free);
            lemma_placed_other(old_self.fill_pages(), st0, ChunkState::Fill, n, p, ChunkState::Free);
            lemma_placed_other(old_self.tx_pages(), st0, ChunkState::Tx, n, p, ChunkState::Free);
            lemma_placed_other(
                old_self.completion_pages(),
                st0,
                ChunkState::Completion,
                n,
                p,
                ChunkState::Free,
            );
            lemma_descriptor_canonical(p, al, al - HEADROOM_SIZE);
        }
        let ghost mid = *self;
        let mut refill: Option<XdpDesc> = None;
        match self.fr.write(empty) {
            Ok(()) => {
                refill = Some(empty);
                // The chunk went back to the kernel: it leaves the free list.
                let none: Vec<u8> = Vec::new();
                let _ = self.umem.write(none.as_slice());
                let ghost st2 = st1.insert(p, ChunkState::Fill);
                self.state = Ghost(st2);
                proof {
                    assert(self.umem.payload(p) =~= mid.umem.payload(p));
                    lemma_page_seq_push(mid.fr.pending(), al, empty);
                    lemma_placed_drop_first(mid.umem.free_list(), st1, ChunkState::Free, n, ChunkState::Fill);
                    assert(mid.umem.free_list().drop_first() =~= old_self.umem.free_list());
                    lemma_placed_push(mid.fill_pages(), st1, ChunkState::Fill, n, p);
                    lemma_placed_other(mid.rx_pages(), st1, ChunkState::Rx, n, p, ChunkState::Fill);
                    lemma_placed_other(mid.tx_pages(), st1, ChunkState::Tx, n, p, ChunkState::Fill);
                    lemma_placed_other(
                        mid.completion_pages(),
                        st1,
                        ChunkState::Completion,
                        n,
                        p,
                        ChunkState::Fill,
                    );
                }
            },
            Err(_) => {},
        }
        Some(RxToken { buffer: data, refill })
    }

    /// Sends one frame: reclaims one chunk from the Completion ring if there
    /// is one, copies the frame into the chunk at the head of the free list
    /// and publishes it on the TX ring. `WouldBlock` when the frame is
    /// dropped: no chunk was free, or the TX ring was full (the chunk then
    /// goes back to the free list).
    pub fn transmit(&mut self, frame: &[u8]) -> (r: Result<XdpDesc, XdpError>)
        requires
            old(self).wf(),
            frame@.len() <= old(self).chunk_size() - HEADROOM_SIZE,
        ensures
            final(self).wf(),
            final(self).entries() == old(self).entries(),
            final(self).chunk_size() == old(self).chunk_size(),
            final(self).fill_descs() == old(self).fill_descs(),
            final(self).rx_descs() == old(self).rx_descs(),
            final(self).completion_descs() == if old(self).completion_descs().len() > 0 {
                old(self).completion_descs().drop_first()
            } else {
                old(self).completion_descs()
            },
            r is Ok <==> old(self).free_after_drain().len() > 0 && old(self).tx_descs().len() < old(
                self,
            ).tx_size(),
            r is Err ==> r == Err::<XdpDesc, XdpError>(XdpError::WouldBlock) && final(self).tx_descs()
                == old(self).tx_descs() && final(self).free_pages() == old(self).free_after_drain(),
            r is Ok ==> {
                let p = old(self).free_after_drain()[0];
                &&& r->Ok_0 == packet_desc(p, old(self).chunk_size() as int, frame@.len() as int)
                &&& final(self).tx_descs() == old(self).tx_descs().push(r->Ok_0)
                &&& final(self).free_pages() == old(self).free_after_drain().drop_first()
                &&& final(self).payload(p) == frame@ + old(self).payload(p).subrange(
                    frame@.len() as int,
                    old(self).chunk_size() - HEADROOM_SIZE,
                )
            },
    {
        proof {
            self.lemma_wf();
            self.umem.lemma_wf();
        }
        let ghost al = self.umem.spec_alignment() as int;
        let ghost n = self.umem.spec_size() as int;
        let ghost old_self = *self;
        let ghost st0 = self.state@;
        match self.cr.read() {
            Some(d) => {
                let page_id = self.umem.page_id_from(d);
                let ghost p = page_id as int;
                proof {
                    lemma_page_seq_drop_first(old_self.cr.pending(), al);
                    assert(old_self.completion_pages()[0] == p);
                    old_self.lemma_not_free(p, ChunkState::Completion);
                }
                let _ = self.umem.free(page_id);
                self.state = Ghost(st0.insert(p, ChunkState::Free));
                proof {
                    lemma_placed_prepend(old_self.umem.free_list(), st0, ChunkState::Free, n, p);
                    lemma_placed_drop_first(
                        old_self.completion_pages(),
                        st0,
                        ChunkState::Completion,
                        n,
                        ChunkState::Free,
                    );
                    lemma_placed_other(old_self.fill_pages(), st0, ChunkState::Fill, n, p, ChunkState::Free);
                    lemma_placed_other(old_self.tx_pages(), st0, ChunkState::Tx, n, p, ChunkState::Free);
                    lemma_placed_other(old_self.rx_pages(), st0, ChunkState::Rx, n, p, ChunkState::Free);
                }
            },
            None => {},
        }
        let ghost mid = *self;
        let ghost st1 = self.state@;
        proof {
            assert(mid.umem.free_list() == old_self.free_after_drain());
            mid.umem.lemma_wf();
        }
        match self.umem.write(frame) {
            Ok(d) => {
                let ghost p = mid.umem.free_list()[0];
                proof {
                    lemma_descriptor_canonical(p, al, frame@.len() as int);
                }
                match self.tx.write(d) {
                    Ok(()) => {
                        self.state = Ghost(st1.insert(p, ChunkState::Tx));
                        proof {
                            lemma_page_seq_push(mid.tx.pending(), al, d);
                            lemma_placed_drop_first(mid.umem.free_list(), st1, ChunkState::Free, n, ChunkState::Tx);
                            lemma_placed_push(mid.tx_pages(), st1, ChunkState::Tx, n, p);
                            lemma_placed_other(mid.fill_pages(), st1, ChunkState::Fill, n, p, ChunkState::Tx);
                            lemma_placed_other(mid.rx_pages(), st1, ChunkState::Rx, n, p, ChunkState::Tx);
                            lemma_placed_other(
                                mid.completion_pages(),
                                st1,
                                ChunkState::Completion,
                                n,
                                p,
                                ChunkState::Tx,
                            );
                            assert forall|k: int| 0 <= k < self.tx.pending().len() implies #[trigger] self.tx.pending()[k].addr as int % al == HEADROOM_SIZE && self.tx.pending()[k].len <= al - HEADROOM_SIZE by {
                                if k < mid.tx.pending().len() {
                                    assert(self.tx.pending()[k] == mid.tx.pending()[k]);
                                }
                            }
                            assert(self.wf());
                        }
                        Ok(d)
                    },
                    Err(e) => {
                        let page_id = self.umem.page_id_from(d);
                        proof {
                            assert(!self.umem.free_list().contains(p)) by {
                                let fl = mid.umem.free_list();
                                if fl.drop_first().contains(p) {
                                    let k = choose|k: int| 0 <= k < fl.drop_first().len() && fl.drop_first()[k] == p;
                                    assert(fl[k + 1] == fl[0]);
                                }
                            }
                        }
                        let _ = self.umem.free(page_id);
                        proof {
                            assert(self.umem.free_list() =~= mid.umem.free_list());
                            assert(self.wf());
                        }
                        Err(e)
                    },
                }
            },
            Err(e) => Err(e),
        }
    }

    /// Builds the UMEM and the four rings, then hands chunks to the kernel on
    /// the Fill ring in index order until the ring or the pool runs out.
    /// `InvalidInput` for a bad chunk count or ring size.
    pub fn new(config: Config) -> (r: Result<XdpCore, XdpError>)
        ensures
            r is Err <==> config.umem.entries == 0 || config.umem.entries > MAX_ENTRIES
                || !valid_ring_size(config.tx.size) || !valid_ring_size(config.rx.size)
                || !valid_ring_size(config.cr.size) || !valid_ring_size(config.fr.size),
            r is Err ==> r == Err::<XdpCore, XdpError>(XdpError::InvalidInput),
            r is Ok ==> {
                let c = r->Ok_0;
                let n = config.umem.entries as int;
                let al = config.umem.alignment.spec_bytes() as int;
                let k = if n < config.fr.size { n } else { config.fr.size as int };
                &&& c.wf()
                &&& c.entries() == n
                &&& c.chunk_size() == al
                &&& c.tx_size() == config.tx.size
                &&& c.rx_size() == config.rx.size
                &&& c.completion_size() == config.cr.size
                &&& c.fill_size() == config.fr.size
                &&& c.fill_descs() == Seq::new(k as nat, |i: int| empty_desc(i, al))
                &&& c.free_pages() == Seq::new((n - k) as nat, |i: int| i + k)
                &&& c.rx_descs().len() == 0
                &&& c.tx_descs().len() == 0
                &&& c.completion_descs().len() == 0
                &&& forall|i: int|
                    0 <= i < n ==> #[trigger] c.payload(i) == Seq::new(
                        (al - HEADROOM_SIZE) as nat,
                        |j: int| 0u8,
                    )
            },
    {
        let mut umem = match Umem::new(config.umem) {
            Ok(u) => u,
            Err(e) => {
                return Err(e);
            },
        };
        let tx = match XdpRing::<Writer>::new(Type::Tx, config.tx) {
            Ok(t) => t,
            Err(e) => {
                return Err(e);
            },
        };
        let rx = match XdpRing::<Reader>::new(Type::Rx, config.rx) {
            Ok(t) => t,
            Err(e) => {
                return Err(e);
            },
        };
        let cr = match XdpRing::<Reader>::new(Type::Completion, config.cr) {
            Ok(t) => t,
            Err(e) => {
                return Err(e);
            },
        };
        let mut fr = match XdpRing::<Writer>::new(Type::Fill, config.fr) {
            Ok(t) => t,
            Err(e) => {
                return Err(e);
            },
        };
        proof {
            umem.lemma_wf();
            fr.lemma_ring_bound();
        }
        let ghost al = umem.spec_alignment() as int;
        let ghost start = umem;
        let n = umem.size();
        let descs = umem.packet_descriptors();
        let none: Vec<u8> = Vec::new();
        let mut i: usize = 0;
        while i < n && fr.len() < fr.size()
            invariant
                umem.wf(),
                fr.wf(),
                fr.spec_type() == Type::Fill,
                fr.spec_size() == config.fr.size,
                n == umem.spec_size(),
                n == config.umem.entries,
                al == umem.spec_alignment(),
                al == 2048 || al == 4096,
                none@.len() == 0,
                descs@.len() == n,
                forall|j: int| 0 <= j < n ==> #[trigger] descs@[j] == empty_desc(j, al),
                i <= n,
                fr.pending() == Seq::new(i as nat, |j: int| empty_desc(j, al)),
                umem.free_list() == Seq::new((n - i) as nat, |j: int| j + i),
                forall|j: int| 0 <= j < n ==> #[trigger] umem.payload(j) == start.payload(j),
            decreases n - i,
        {
            let ghost before = umem;
            proof {
                fr.lemma_ring_bound();
            }
            let _ = fr.write(descs[i]);
            let _ = umem.write(none.as_slice());
            proof {
                assert(umem.payload(i as int) =~= before.payload(i as int));
                assert(umem.free_list() =~= Seq::new((n - i - 1) as nat, |j: int| j + i + 1));
                assert(fr.pending() =~= Seq::new((i + 1) as nat, |j: int| empty_desc(j, al)));
            }
            i = i + 1;
        }
        proof {
            fr.lemma_ring_bound();
        }
        let ghost k = i as int;
        let ghost st = Map::new(
            |j: int| 0 <= j < n,
            |j: int|
                if j < k {
                    ChunkState::Fill
                } else {
                    ChunkState::Free
                },
        );
        let core = XdpCore { umem, tx, rx, cr, fr, state: Ghost(st) };
        proof {
            let fl = core.umem.free_list();
            assert(placed(fl, st, ChunkState::Free, n as int)) by {
                assert forall|p: int| 0 <= p < n && #[trigger] st[p] == ChunkState::Free implies fl.contains(p) by {
                    assert(fl[p - k] == p);
                }
            }
            let fp = core.fill_pages();
            assert forall|j: int| 0 <= j < k implies #[trigger] fp[j] == j && core.fr.pending()[j].addr as int % al == HEADROOM_SIZE && core.fr.pending()[j].len <= al - HEADROOM_SIZE by {
                lemma_descriptor_canonical(j, al, al - HEADROOM_SIZE);
            }
            assert(placed(fp, st, ChunkState::Fill, n as int)) by {
                assert forall|p: int| 0 <= p < n && #[trigger] st[p] == ChunkState::Fill implies fp.contains(p) by {
                    assert(fp[p] == p);
                }
            }
            assert(core.rx_pages() =~= Seq::<int>::empty());
            assert(core.tx_pages() =~= Seq::<int>::empty());
            assert(core.completion_pages() =~= Seq::<int>::empty());
            assert(k == n || k == config.fr.size);
            assert(placed(core.rx_pages(), st, ChunkState::Rx, n as int));
            assert(placed(core.tx_pages(), st, ChunkState::Tx, n as int));
            assert(placed(core.completion_pages(), st, ChunkState::Completion, n as int));
            assert(all_canonical(core.fr.pending(), al)) by {
                assert forall|j: int| 0 <= j < core.fr.pending().len() implies #[trigger] core.fr.pending()[j].addr as int % al == HEADROOM_SIZE && core.fr.pending()[j].len <= al - HEADROOM_SIZE by {
                    lemma_descriptor_canonical(j, al, al - HEADROOM_SIZE);
                }
            }
            assert(all_canonical(core.rx.pending(), al));
            assert(all_canonical(core.tx.pending(), al));
            assert(all_canonical(core.cr.pending(), al));
            assert(core.wf());
        }
        Ok(core)
    }

    /// Number of descriptors waiting on the Fill ring.
    pub fn fill_len(&self) -> (r: u32)
        requires
            self.wf(),
        ensures
            r == self.fill_descs().len(),
    {
        self.fr.len()
    }

    /// The empty descriptor of chunk `page`.
    pub fn chunk_descriptor(&self, page: usize) -> (r: XdpDesc)
        requires
            self.wf(),
            page < self.entries(),
        ensures
            r == empty_desc(page as int, self.chunk_size() as int),
    {
        proof {
            self.lemma_wf();
            lemma_descriptor_canonical(
                page as int,
                self.chunk_size() as int,
                self.chunk_size() - HEADROOM_SIZE,
            );
        }
        let al = self.umem.alignment();
        XdpDesc {
            addr: (page as u64) * (al as u64) + HEADROOM_SIZE as u64,
            len: (al - HEADROOM_SIZE) as u32,
            options: 0,
        }
    }

    /// The kernel reports a frame in the chunk of `desc`: accepted only when
    /// that chunk is the oldest on the Fill ring, which the kernel consumes in
    /// order, and the RX ring has room; the frame then goes through as in
    /// `kernel_receive`.
    pub fn deliver(&mut self, desc: XdpDesc, payload: &[u8]) -> (r: bool)
        requires
            old(self).wf(),
            payload@.len() <= old(self).chunk_size() - HEADROOM_SIZE,
        ensures
            final(self).wf(),
            final(self).entries() == old(self).entries(),
            final(self).chunk_size() == old(self).chunk_size(),
            r == (old(self).fill_descs().len() > 0 && old(self).fill_descs()[0].addr == desc.addr
                && old(self).rx_descs().len() < old(self).rx_size()),
            !r ==> *final(self) == *old(self),
            r ==> {
                let al = old(self).chunk_size() as int;
                let p = old(self).fill_pages()[0];
                &&& final(self).fill_descs() == old(self).fill_descs().drop_first()
                &&& final(self).rx_descs() == old(self).rx_descs().push(
                    packet_desc(p, al, payload@.len() as int),
                )
                &&& final(self).tx_descs() == old(self).tx_descs()
                &&& final(self).completion_descs() == old(self).completion_descs()
                &&& final(self).free_pages() == old(self).free_pages()
                &&& final(self).payload(p) == payload@ + old(self).payload(p).subrange(
                    payload@.len() as int,
                    al - HEADROOM_SIZE,
                )
                &&& forall|i: int|
                    0 <= i < old(self).entries() && i != p ==> #[trigger] final(self).payload(i)
                        == old(self).payload(i)
            },
    {
        proof {
            self.lemma_wf();
        }
        match self.fr.peek() {
            Some(head) => {
                if head.addr != desc.addr {
                    return false;
                }
            },
            None => {
                return false;
            },
        }
        self.kernel_receive(payload)
    }

    /// The kernel's half of a reception, also used by `deliver`: takes the
    /// oldest Fill descriptor, writes `payload` into its chunk and publishes
    /// the chunk on the RX ring. Does nothing and returns `false` when the
    /// Fill ring is empty or the RX ring is full.
    pub fn kernel_receive(&mut self, payload: &[u8]) -> (r: bool)
        requires
            old(self).wf(),
            payload@.len() <= old(self).chunk_size() - HEADROOM_SIZE,
        ensures
            final(self).wf(),
            final(self).entries() == old(self).entries(),
            final(self).chunk_size() == old(self).chunk_size(),
            r == (old(self).fill_descs().len() > 0 && old(self).rx_descs().len() < old(
                self,
            ).rx_size()),
            !r ==> *final(self) == *old(self),
            r ==> {
                let al = old(self).chunk_size() as int;
                let p = old(self).fill_pages()[0];
                &&& final(self).fill_descs() == old(self).fill_descs().drop_first()
                &&& final(self).rx_descs() == old(self).rx_descs().push(
                    packet_desc(p, al, payload@.len() as int),
                )
                &&& final(self).tx_descs() == old(self).tx_descs()
                &&& final(self).completion_descs() == old(self).completion_descs()
                &&& final(self).free_pages() == old(self).free_pages()
                &&& final(self).payload(p) == payload@ + old(self).payload(p).subrange(
                    payload@.len() as int,
                    al - HEADROOM_SIZE,
                )
                &&& forall|i: int|
                    0 <= i < old(self).entries() && i != p ==> #[trigger] final(self).payload(i)
                        == old(self).payload(i)
            },
    {
        proof {
            self.lemma_wf();
            self.umem.lemma_wf();
        }
        if self.fr.len() == 0 || self.rx.len() >= self.rx.size() {
            return false;
        }
        let ghost al = self.umem.spec_alignment() as int;
        let ghost n = self.umem.spec_size() as int;
        let ghost old_self = *self;
        let ghost st0 = self.state@;
        let d = match self.fr.peer_read() {
            Some(d) => d,
            None => {
                return false;
            },
        };
        let page_id = self.umem.page_id_from(d);
        let ghost p = page_id as int;
        proof {
            lemma_page_seq_drop_first(old_self.fr.pending(), al);
            assert(old_self.fill_pages()[0] == p);
            lemma_canonical_addr(d.addr as int, al);
            lemma_descriptor_canonical(p, al, payload@.len() as int);
        }
        self.umem.write_page(page_id, payload);
        let nd = XdpDesc { addr: d.addr, len: payload.len() as u32, options: 0 };
        let ghost mid = *self;
        let _ = self.rx.peer_write(nd);
        self.state = Ghost(st0.insert(p, ChunkState::Rx));
        proof {
            assert(nd == packet_desc(p, al, payload@.len() as int));
            lemma_page_seq_push(mid.rx.pending(), al, nd);
            lemma_placed_drop_first(old_self.fill_pages(), st0, ChunkState::Fill, n, ChunkState::Rx);
            lemma_placed_push(old_self.rx_pages(), st0, ChunkState::Rx, n, p);
            lemma_placed_other(old_self.umem.free_list(), st0, ChunkState::Free, n, p, ChunkState::Rx);
            lemma_placed_other(old_self.tx_pages(), st0, ChunkState::Tx, n, p, ChunkState::Rx);
            lemma_placed_other(
                old_self.completion_pages(),
                st0,
                ChunkState::Completion,
                n,
                p,
                ChunkState::Rx,
            );
            assert forall|k: int| 0 <= k < self.rx.pending().len() implies #[trigger] self.rx.pending()[k].addr as int % al == HEADROOM_SIZE && self.rx.pending()[k].len <= al - HEADROOM_SIZE by {
                if k < old_self.rx.pending().len() {
                    assert(self.rx.pending()[k] == old_self.rx.pending()[k]);
                } else {
                    assert(self.rx.pending()[k] == nd);
                }
            }
            assert forall|k: int| 0 <= k < self.fr.pending().len() implies #[trigger] self.fr.pending()[k].addr as int % al == HEADROOM_SIZE && self.fr.pending()[k].len <= al - HEADROOM_SIZE by {
                assert(self.fr.pending()[k] == old_self.fr.pending()[k + 1]);
            }
        }
        true
    }

    /// The kernel's half of a transmission, which completes in order: moves
    /// the oldest TX descriptor to the Completion ring. Does
    /// nothing and returns `false` when the TX ring is empty or the
    /// Completion ring is full.
    pub fn kernel_complete(&mut self) -> (r: bool)
        requires
            old(self).wf(),
        ensures
            final(self).wf(),
            final(self).entries() == old(self).entries(),
            final(self).chunk_size() == old(self).chunk_size(),
            r == (old(self).tx_descs().len() > 0 && old(self).completion_descs().len() < old(
                self,
            ).completion_size()),
            !r ==> *final(self) == *old(self),
            r ==> {
                &&& final(self).tx_descs() == old(self).tx_descs().drop_first()
                &&& final(self).completion_descs() == old(self).completion_descs().push(
                    old(self).tx_descs()[0],
                )
                &&& final(self).fill_descs() == old(self).fill_descs()
                &&& final(self).rx_descs() == old(self).rx_descs()
                &&& final(self).free_pages() == old(self).free_pages()
                &&& forall|i: int|
                    0 <= i < old(self).entries() ==> #[trigger] final(self).payload(i) == old(
                        self,
                    ).payload(i)
            },
    {
        proof {
            self.lemma_wf();
        }
        if self.tx.len() == 0 || self.cr.len() >= self.cr.size() {
            return false;
        }
        let ghost al = self.umem.spec_alignment() as int;
        let ghost n = self.umem.spec_size() as int;
        let ghost old_self = *self;
        let ghost st0 = self.state@;
        let d = match self.tx.peer_read() {
            Some(d) => d,
            None => {
                return false;
            },
        };
        let ghost p = d.addr as int / al;
        proof {
            lemma_page_seq_drop_first(old_self.tx.pending(), al);
        }
        let ghost mid = *self;
        let _ = self.cr.peer_write(d);
        self.state = Ghost(st0.insert(p, ChunkState::Completion));
        proof {
            lemma_page_seq_push(mid.cr.pending(), al, d);
            lemma_placed_drop_first(old_self.tx_pages(), st0, ChunkState::Tx, n, ChunkState::Completion);
            lemma_placed_push(old_self.completion_pages(), st0, ChunkState::Completion, n, p);
            lemma_placed_other(old_self.umem.free_list(), st0, ChunkState::Free, n, p, ChunkState::Completion);
            lemma_placed_other(old_self.fill_pages(), st0, ChunkState::Fill, n, p, ChunkState::Completion);
            lemma_placed_other(old_self.rx_pages(), st0, ChunkState::Rx, n, p, ChunkState::Completion);
            assert forall|k: int| 0 <= k < self.cr.pending().len() implies #[trigger] self.cr.pending()[k].addr as int % al == HEADROOM_SIZE && self.cr.pending()[k].len <= al - HEADROOM_SIZE by {
                if k < old_self.cr.pending().len() {
                    assert(self.cr.pending()[k] == old_self.cr.pending()[k]);
                }
            }
            assert forall|k: int| 0 <= k < self.tx.pending().len() implies #[trigger] self.tx.pending()[k].addr as int % al == HEADROOM_SIZE && self.tx.pending()[k].len <= al - HEADROOM_SIZE by {
                assert(self.tx.pending()[k] == old_self.tx.pending()[k + 1]);
            }
        }
        true
    }

    /// Facts of a well-formed core that callers rely on.
    pub proof fn lemma_wf(self)
        requires
            self.wf(),
        ensures
            self.chunk_size() == 2048 || self.chunk_size() == 4096,
            1 <= self.entries() <= MAX_ENTRIES,
            self.fill_descs().len() <= self.fill_size(),
            self.rx_descs().len() <= self.rx_size(),
            self.tx_descs().len() <= self.tx_size(),
            self.completion_descs().len() <= self.completion_size(),
            all_canonical(self.fill_descs(), self.chunk_size() as int),
            all_canonical(self.rx_descs(), self.chunk_size() as int),
            all_canonical(self.tx_descs(), self.chunk_size() as int),
            all_canonical(self.completion_descs(), self.chunk_size() as int),
    {
        self.umem.lemma_wf();
        self.tx.lemma_ring_bound();
        self.rx.lemma_ring_bound();
        self.cr.lemma_ring_bound();
        self.fr.lemma_ring_bound();
    }
}

} // verus!
