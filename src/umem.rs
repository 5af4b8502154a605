use vstd::prelude::*;
use vstd::set_lib::{lemma_int_range, lemma_len_subset, set_int_range};

pub use crate::config::ChunkAlignment;
use crate::rings::{empty_desc, packet_desc, XdpDesc};
use crate::XdpError;

verus! {

/// Bytes reserved at the start of every chunk for the free-list link.
pub const HEADROOM_SIZE: usize = 2;

/// Link value that encodes "no next free chunk".
pub const NO_NEXT_PAGE: u16 = 0xFFFF;

/// The largest number of chunks: every chunk id must fit in a link below the sentinel.
pub const MAX_ENTRIES: usize = 0xFFFF;

/// Shape of a UMEM: number of chunks and chunk size.
#[derive(Copy, Clone, Debug)]
pub struct Config {
    pub entries: usize,
    pub alignment: ChunkAlignment,
}

/// Per-chunk metadata word; it threads the user-space free list.
#[derive(Copy, Clone, Debug)]
pub struct HeadRoom {
    free_page_id: u16,
}

impl HeadRoom {
    /// The decoded link: the sentinel reads as `None`.
    pub closed spec fn link(self) -> Option<u16> {
        if self.free_page_id == NO_NEXT_PAGE {
            None
        } else {
            Some(self.free_page_id)
        }
    }

    pub fn free_page_id(&self) -> (r: Option<u16>)
        ensures
            r == self.link(),
    {
        if self.free_page_id == NO_NEXT_PAGE {
            None
        } else {
            Some(self.free_page_id)
        }
    }

    /// Stores a link; `None` (and the sentinel itself) is stored as the sentinel.
    pub fn set_free_page_id(&mut self, page_id: Option<u16>)
        ensures
            final(self).link() == (match page_id {
                Some(id) => if id == NO_NEXT_PAGE { None } else { Some(id) },
                None => None,
            }),
    {
        self.free_page_id = match page_id {
            Some(id) => id,
            None => NO_NEXT_PAGE,
        };
    }
}

/// One chunk: its headroom link and its payload region.
pub struct UmemPage {
    h: HeadRoom,
    buffer: Vec<u8>,
}

impl UmemPage {
    pub closed spec fn spec_headroom(self) -> HeadRoom {
        self.h
    }

    /// The payload bytes of the chunk (everything after the headroom).
    pub closed spec fn payload(self) -> Seq<u8> {
        self.buffer@
    }

    /// Returns `desc.len` bytes of the payload, starting at the descriptor's
    /// offset within the chunk.
    pub fn read_packet(&self, desc: XdpDesc) -> (r: Vec<u8>)
        requires
            desc.addr as int % (self.payload().len() + HEADROOM_SIZE) >= HEADROOM_SIZE,
            desc.addr as int % (self.payload().len() + HEADROOM_SIZE) - HEADROOM_SIZE + desc.len
                <= self.payload().len(),
        ensures
            r@ == self.payload().subrange(
                desc.addr as int % (self.payload().len() + HEADROOM_SIZE) - HEADROOM_SIZE,
                desc.addr as int % (self.payload().len() + HEADROOM_SIZE) - HEADROOM_SIZE
                    + desc.len,
            ),
    {
        let page_len = self.buffer.len() as u128 + HEADROOM_SIZE as u128;
        let rem = desc.addr as u128 % page_len;
        let offset = (rem - HEADROOM_SIZE as u128) as usize;
        let end = offset + desc.len as usize;
        let mut out: Vec<u8> = Vec::with_capacity(desc.len as usize);
        let mut i: usize = offset;
        while i < end
            invariant
                offset <= i <= end,
                end <= self.buffer@.len(),
                out@ == self.buffer@.subrange(offset as int, i as int),
            decreases end - i,
        {
            out.push(self.buffer[i]);
            i = i + 1;
        }
        out
    }

    /// Copies `buf` to the start of the payload region.
    pub fn write_packet(&mut self, buf: &[u8])
        requires
            buf@.len() <= old(self).payload().len(),
        ensures
            final(self).payload() == buf@ + old(self).payload().subrange(
                buf@.len() as int,
                old(self).payload().len() as int,
            ),
            final(self).spec_headroom() == old(self).spec_headroom(),
    {
        let mut i: usize = 0;
        while i < buf.len()
            invariant
                i <= buf@.len() <= self.buffer@.len(),
                self.buffer@.len() == old(self).payload().len(),
                self.h == old(self).h,
                forall|k: int| 0 <= k < i ==> self.buffer@[k] == buf@[k],
                forall|k: int|
                    i <= k < self.buffer@.len() ==> self.buffer@[k] == old(self).payload()[k],
            decreases buf@.len() - i,
        {
            self.buffer[i] = buf[i];
            i = i + 1;
        }
        assert(self.buffer@ =~= buf@ + old(self).payload().subrange(
            buf@.len() as int,
            old(self).payload().len() as int,
        ));
    }

    pub fn headroom(&self) -> (r: &HeadRoom)
        ensures
            *r == self.spec_headroom(),
    {
        &self.h
    }

    /// Mutable access to the link word of this chunk.
    pub fn headroom_mut(&mut self) -> (r: &mut HeadRoom)
        ensures
            *r == old(self).spec_headroom(),
            final(self).spec_headroom() == *final(r),
            final(self).payload() == old(self).payload(),
    {
        &mut self.h
    }
}

/// A pool of equally sized chunks with an intrusive free list.
pub struct Umem {
    pages: Vec<UmemPage>,
    alignment: usize,
    free_page_id: Option<u16>,
    /// The free list, head first, as chunk indices.
    free_list: Ghost<Seq<int>>,
}

/// The link of chunk `j` in a fresh pool of `n` chunks: the next index, none for the last.
pub open spec fn initial_link(j: int, n: int) -> Option<u16> {
    if j == n - 1 {
        None
    } else {
        Some((j + 1) as u16)
    }
}

/// A sequence of distinct values below `n` has at most `n` elements.
pub proof fn lemma_distinct_len_bound(s: Seq<int>, n: int)
    requires
        0 <= n,
        s.no_duplicates(),
        forall|k: int| 0 <= k < s.len() ==> 0 <= #[trigger] s[k] < n,
    ensures
        s.len() <= n,
{
    s.unique_seq_to_set();
    lemma_int_range(0, n);
    assert(s.to_set().subset_of(set_int_range(0, n)));
    lemma_len_subset(s.to_set(), set_int_range(0, n));
}

impl Umem {
    pub closed spec fn spec_alignment(self) -> nat {
        self.alignment as nat
    }

    pub closed spec fn spec_size(self) -> nat {
        self.pages@.len()
    }

    /// The link stored in the headroom of chunk `i`.
    pub closed spec fn link(self, i: int) -> Option<u16> {
        self.pages@[i].h.link()
    }

    pub closed spec fn head(self) -> Option<u16> {
        self.free_page_id
    }

    /// The free list, head first.
    pub closed spec fn free_list(self) -> Seq<int> {
        self.free_list@
    }

    /// The payload bytes of chunk `i`.
    pub closed spec fn payload(self, i: int) -> Seq<u8> {
        self.pages@[i].buffer@
    }

    pub open spec fn is_free(self, i: int) -> bool {
        self.free_list().contains(i)
    }

    pub closed spec fn wf(self) -> bool {
        &&& self.alignment == 2048 || self.alignment == 4096
        &&& 1 <= self.pages@.len() <= MAX_ENTRIES
        &&& forall|i: int|
            0 <= i < self.pages@.len() ==> #[trigger] self.pages@[i].buffer@.len()
                == self.alignment - HEADROOM_SIZE
        &&& self.free_list@.no_duplicates()
        &&& forall|k: int|
            0 <= k < self.free_list@.len() ==> 0 <= #[trigger] self.free_list@[k]
                < self.pages@.len()
        &&& self.free_list@.len() == 0 ==> self.free_page_id is None
        &&& self.free_list@.len() > 0 ==> self.free_page_id == Some(
            self.free_list@[0] as u16,
        )
        &&& forall|k: int|
            0 <= k < self.free_list@.len() - 1 ==> self.link(#[trigger] self.free_list@[k])
                == Some(self.free_list@[k + 1] as u16)
        &&& self.free_list@.len() > 0 ==> self.link(self.free_list@.last()) is None
        &&& forall|i: int|
            0 <= i < self.pages@.len() && !self.free_list@.contains(i) ==> #[trigger] self.link(
                i,
            ) is None
    }

    /// Facts of a well-formed pool that callers rely on.
    pub proof fn lemma_wf(self)
        requires
            self.wf(),
        ensures
            self.spec_alignment() == 2048 || self.spec_alignment() == 4096,
            1 <= self.spec_size() <= MAX_ENTRIES,
            self.free_list().no_duplicates(),
            self.free_list().len() <= self.spec_size(),
            forall|k: int|
                0 <= k < self.free_list().len() ==> 0 <= #[trigger] self.free_list()[k]
                    < self.spec_size(),
            forall|i: int|
                0 <= i < self.spec_size() ==> #[trigger] self.payload(i).len()
                    == self.spec_alignment() - HEADROOM_SIZE,
            self.free_list().len() == 0 <==> self.head() is None,
            self.free_list().len() > 0 ==> self.head() == Some(self.free_list()[0] as u16),
            forall|k: int|
                0 <= k < self.free_list().len() - 1 ==> self.link(#[trigger] self.free_list()[k])
                    == Some(self.free_list()[k + 1] as u16),
            self.free_list().len() > 0 ==> self.link(self.free_list().last()) is None,
            forall|i: int|
                0 <= i < self.spec_size() && !self.is_free(i) ==> #[trigger] self.link(i) is None,
    {
        lemma_distinct_len_bound(self.free_list@, self.pages@.len() as int);
    }

    /// Whether following links from `from` ends within `steps` steps,
    /// visiting only chunks of the pool.
    pub open spec fn walk_ends(self, from: Option<u16>, steps: nat) -> bool
        decreases steps,
    {
        match from {
            None => true,
            Some(i) => steps > 0 && (i as int) < self.spec_size() && self.walk_ends(
                self.link(i as int),
                (steps - 1) as nat,
            ),
        }
    }

    proof fn lemma_walk_from(self, k: int)
        requires
            self.wf(),
            0 <= k <= self.free_list@.len(),
        ensures
            self.walk_ends(
                if k < self.free_list@.len() {
                    Some(self.free_list@[k] as u16)
                } else {
                    None
                },
                (self.pages@.len() - k) as nat,
            ),
        decreases self.free_list@.len() - k,
    {
        let fl = self.free_list@;
        if k < fl.len() {
            self.lemma_wf();
            self.lemma_walk_from(k + 1);
            let i = fl[k] as u16;
            assert(i as int == fl[k]);
            if k < fl.len() - 1 {
                assert(self.link(fl[k]) == Some(fl[k + 1] as u16));
            } else {
                assert(fl.last() == fl[k]);
            }
        }
    }

    /// Free-list acyclicity: following the links from the head of the free
    /// list ends within `entries` steps.
    pub proof fn lemma_free_list_acyclic(self)
        requires
            self.wf(),
        ensures
            self.walk_ends(self.head(), self.spec_size()),
    {
        self.lemma_walk_from(0);
    }

    /// Round trip: the chunk that `write` takes is the head of the free list
    /// and its descriptor leads back to it; `free` of that chunk then
    /// restores the free list, so the next `write` takes the same chunk.
    pub proof fn lemma_write_free_round_trip(
        self,
        after_write: Umem,
        after_free: Umem,
        d: XdpDesc,
        len: int,
    )
        requires
            self.wf(),
            self.free_list().len() > 0,
            0 <= len <= self.spec_alignment() - HEADROOM_SIZE,
            after_write.free_list() == self.free_list().drop_first(),
            d == packet_desc(self.free_list()[0], self.spec_alignment() as int, len),
            after_free.free_list() == seq![d.addr as int / self.spec_alignment() as int]
                + after_write.free_list(),
        ensures
            d.addr as int / self.spec_alignment() as int == self.free_list()[0],
            after_free.free_list() == self.free_list(),
    {
        self.lemma_wf();
        let al = self.spec_alignment() as int;
        let p = self.free_list()[0];
        assert(p * al + HEADROOM_SIZE < 0x1_0000_0000) by (nonlinear_arith)
            requires
                0 <= p < MAX_ENTRIES,
                al <= 4096,
        ;
        vstd::arithmetic::div_mod::lemma_fundamental_div_mod_converse(
            p * al + HEADROOM_SIZE,
            al,
            p,
            HEADROOM_SIZE as int,
        );
        assert(after_free.free_list() =~= self.free_list());
    }

    /// Freeing a chunk that is not free puts it at the head of the free list
    /// and leaves every other chunk's membership as it was.
    pub proof fn lemma_free_restores(self, after: Umem, p: int)
        requires
            self.wf(),
            0 <= p < self.spec_size(),
            !self.is_free(p),
            after.free_list() == seq![p] + self.free_list(),
        ensures
            after.is_free(p),
            after.free_list()[0] == p,
            after.free_list().len() == self.free_list().len() + 1,
            forall|q: int| q != p ==> (after.is_free(q) <==> self.is_free(q)),
    {
        let fl = self.free_list();
        let nf = after.free_list();
        assert(nf[0] == p);
        assert forall|q: int| q != p implies (after.is_free(q) <==> self.is_free(q)) by {
            if self.is_free(q) {
                let k = choose|k: int| 0 <= k < fl.len() && fl[k] == q;
                assert(nf[k + 1] == q);
            }
            if after.is_free(q) {
                let k = choose|k: int| 0 <= k < nf.len() && nf[k] == q;
                assert(fl[k - 1] == q);
            }
        }
    }

    /// Builds a pool of `config.entries` zeroed chunks, all free, linked in index order.
    pub fn new(config: Config) -> (r: Result<Umem, XdpError>)
        ensures
            r is Err <==> config.entries == 0 || config.entries > MAX_ENTRIES,
            r is Err ==> r == Err::<Umem, XdpError>(XdpError::InvalidInput),
            r is Ok ==> {
                let u = r->Ok_0;
                &&& u.wf()
                &&& u.spec_size() == config.entries
                &&& u.spec_alignment() == config.alignment.spec_bytes()
                &&& u.free_list() == Seq::new(config.entries as nat, |i: int| i)
                &&& u.head() == Some(0u16)
                &&& forall|i: int|
                    0 <= i < u.spec_size() ==> #[trigger] u.link(i) == initial_link(
                        i,
                        config.entries as int,
                    )
                &&& forall|i: int|
                    0 <= i < u.spec_size() ==> #[trigger] u.payload(i) == Seq::new(
                        (u.spec_alignment() - HEADROOM_SIZE) as nat,
                        |k: int| 0u8,
                    )
            },
    {
        if config.entries == 0 || config.entries > MAX_ENTRIES {
            return Err(XdpError::InvalidInput);
        }
        let alignment = config.alignment.bytes();
        let payload_len = alignment - HEADROOM_SIZE;
        let n = config.entries;
        let mut pages: Vec<UmemPage> = Vec::with_capacity(n);
        let mut i: usize = 0;
        while i < n
            invariant
                i <= n <= MAX_ENTRIES,
                payload_len == alignment - HEADROOM_SIZE,
                pages@.len() == i,
                forall|j: int|
                    0 <= j < i ==> #[trigger] pages@[j].buffer@ == Seq::new(
                        payload_len as nat,
                        |k: int| 0u8,
                    ),
                forall|j: int| 0 <= j < i ==> #[trigger] pages@[j].h.link() == initial_link(j, n as int),
            decreases n - i,
        {
            let mut buffer: Vec<u8> = Vec::with_capacity(payload_len);
            let mut k: usize = 0;
            while k < payload_len
                invariant
                    k <= payload_len,
                    buffer@ == Seq::new(k as nat, |j: int| 0u8),
                decreases payload_len - k,
            {
                buffer.push(0u8);
                k = k + 1;
                assert(buffer@ =~= Seq::new(k as nat, |j: int| 0u8));
            }
            let mut h = HeadRoom { free_page_id: NO_NEXT_PAGE };
            if i == n - 1 {
                h.set_free_page_id(None);
            } else {
                h.set_free_page_id(Some((i + 1) as u16));
            }
            let ghost prev = pages@;
            pages.push(UmemPage { h, buffer });
            assert(pages@[i as int].h.link() == initial_link(i as int, n as int));
            assert forall|j: int| 0 <= j <= i implies #[trigger] pages@[j].h.link() == initial_link(
                j,
                n as int,
            ) by {
                if j < i {
                    assert(pages@[j] == prev[j]);
                }
            }
            assert forall|j: int| 0 <= j <= i implies #[trigger] pages@[j].buffer@ == Seq::new(
                payload_len as nat,
                |k: int| 0u8,
            ) by {
                if j < i {
                    assert(pages@[j] == prev[j]);
                }
            }
            i = i + 1;
        }
        let ghost fl = Seq::new(n as nat, |j: int| j);
        let umem = Umem { pages, alignment, free_page_id: Some(0), free_list: Ghost(fl) };
        assert forall|j: int| 0 <= j < n && !fl.contains(j) implies #[trigger] umem.link(j) is None by {
            assert(fl[j] == j);
        }
        assert(fl.no_duplicates());
        Ok(umem)
    }

    /// The first chunk of the free list, if any.
    pub fn free_head(&self) -> (r: Option<u16>)
        ensures
            r == self.head(),
    {
        self.free_page_id
    }

    /// Number of chunks.
    pub fn size(&self) -> (r: usize)
        ensures
            r == self.spec_size(),
    {
        self.pages.len()
    }

    /// Chunk size in bytes.
    pub fn alignment(&self) -> (r: usize)
        ensures
            r == self.spec_alignment(),
    {
        self.alignment
    }

    /// The view of chunk `page_id`.
    pub fn read(&self, page_id: usize) -> (r: &UmemPage)
        requires
            page_id < self.spec_size(),
        ensures
            r.payload() == self.payload(page_id as int),
            r.spec_headroom().link() == self.link(page_id as int),
    {
        &self.pages[page_id]
    }

    /// The chunk that a descriptor lies in.
    pub fn page_id_from(&self, desc: XdpDesc) -> (r: usize)
        requires
            self.wf(),
        ensures
            r == (desc.addr as int / self.spec_alignment() as int) as usize,
    {
        (desc.addr / (self.alignment as u64)) as usize
    }

    /// Descriptor address of the payload of chunk `page_id`.
    fn desc_addr_from(&self, page_id: usize) -> (r: u64)
        requires
            self.wf(),
            page_id < self.spec_size(),
        ensures
            r == page_id * self.spec_alignment() + HEADROOM_SIZE,
    {
        assert(page_id * self.alignment <= 0xFFFF * 4096) by (nonlinear_arith)
            requires
                page_id <= 0xFFFF,
                self.alignment <= 4096,
        ;
        (page_id as u64) * (self.alignment as u64) + HEADROOM_SIZE as u64
    }

    /// Returns chunk `page_id` to the head of the free list and hands back
    /// the descriptor of that chunk, empty, for the kernel to fill.
    pub fn free(&mut self, page_id: usize) -> (r: XdpDesc)
        requires
            old(self).wf(),
            page_id < old(self).spec_size(),
            !old(self).is_free(page_id as int),
        ensures
            final(self).wf(),
            final(self).free_list() == seq![page_id as int] + old(self).free_list(),
            final(self).spec_size() == old(self).spec_size(),
            final(self).spec_alignment() == old(self).spec_alignment(),
            forall|i: int|
                0 <= i < old(self).spec_size() ==> #[trigger] final(self).payload(i) == old(
                    self,
                ).payload(i),
            r == empty_desc(page_id as int, old(self).spec_alignment() as int),
            final(self).head() == Some(page_id as u16),
            final(self).link(page_id as int) == old(self).head(),
            forall|i: int|
                0 <= i < old(self).spec_size() && i != page_id ==> #[trigger] final(self).link(i)
                    == old(self).link(i),
    {
        proof {
            self.lemma_wf();
        }
        let ghost old_self = *self;
        let last_free_page_id = self.free_page_id;
        if last_free_page_id.is_some() {
            self.pages[page_id].h.set_free_page_id(last_free_page_id);
        }
        self.free_page_id = Some(page_id as u16);
        let ghost old_fl = self.free_list@;
        self.free_list = Ghost(seq![page_id as int] + old_fl);
        proof {
            let fl = self.free_list@;
            assert(fl[0] == page_id);
            assert(old_self.link(page_id as int) is None);
            assert forall|i: int| 0 <= i < self.pages@.len() implies (#[trigger] self.pages@[i]).buffer
                == old_self.pages@[i].buffer && (i != page_id ==> self.pages@[i] == old_self.pages@[i]) by {}
            assert forall|k: int| 0 <= k < fl.len() - 1 implies self.link(#[trigger] fl[k])
                == Some(fl[k + 1] as u16) by {
                if k > 0 {
                    assert(fl[k] == old_fl[k - 1]);
                    assert(old_fl[k - 1] != page_id);
                }
            }
            assert forall|i: int|
                0 <= i < self.pages@.len() && !fl.contains(i) implies #[trigger] self.link(i)
                is None by {
                assert(i != page_id);
                assert(!old_fl.contains(i)) by {
                    if old_fl.contains(i) {
                        let k = choose|k: int| 0 <= k < old_fl.len() && old_fl[k] == i;
                        assert(fl[k + 1] == i);
                    }
                }
                assert(self.pages@[i] == old_self.pages@[i]);
                assert(old_self.link(i) is None);
            }
            if old_fl.len() > 0 {
                assert(fl.last() == old_fl.last());
            }
            assert(fl.no_duplicates()) by {
                assert forall|a: int, b: int| 0 <= a < b < fl.len() implies fl[a] != fl[b] by {
                    if a == 0 {
                        assert(fl[b] == old_fl[b - 1]);
                    }
                }
            }
            assert forall|k: int| 0 <= k < fl.len() implies 0 <= #[trigger] fl[k]
                < self.pages@.len() by {
                if k > 0 {
                    assert(fl[k] == old_fl[k - 1]);
                }
            }
            assert(self.wf());
        }
        let len = (self.alignment - HEADROOM_SIZE) as u32;
        XdpDesc { addr: self.desc_addr_from(page_id), len, options: 0 }
    }

    /// Takes the chunk at the head of the free list, copies `buf` into its
    /// payload and returns its descriptor; `WouldBlock` when no chunk is free.
    pub fn write(&mut self, buf: &[u8]) -> (r: Result<XdpDesc, XdpError>)
        requires
            old(self).wf(),
            buf@.len() <= old(self).spec_alignment() - HEADROOM_SIZE,
        ensures
            final(self).wf(),
            final(self).spec_size() == old(self).spec_size(),
            final(self).spec_alignment() == old(self).spec_alignment(),
            old(self).free_list().len() == 0 <==> r is Err,
            r is Err ==> r == Err::<XdpDesc, XdpError>(XdpError::WouldBlock) && *final(self) == *old(
                self,
            ),
            r is Ok ==> {
                let p = old(self).free_list()[0];
                &&& r->Ok_0 == packet_desc(p, old(self).spec_alignment() as int, buf@.len() as int)
                &&& final(self).free_list() == old(self).free_list().drop_first()
                &&& final(self).head() == old(self).link(p)
                &&& final(self).link(p) is None
                &&& forall|i: int|
                    0 <= i < old(self).spec_size() && i != p ==> #[trigger] final(self).link(i)
                        == old(self).link(i)
                &&& final(self).payload(p) == buf@ + old(self).payload(p).subrange(
                    buf@.len() as int,
                    old(self).payload(p).len() as int,
                )
                &&& forall|i: int|
                    0 <= i < old(self).spec_size() && i != p ==> #[trigger] final(self).payload(i)
                        == old(self).payload(i)
            },
    {
        proof {
            self.lemma_wf();
        }
        let id = match self.free_page_id {
            Some(val) => val,
            None => {
                return Err(XdpError::WouldBlock);
            },
        };
        let idx = id as usize;
        let ghost old_fl = self.free_list@;
        let ghost old_self = *self;
        let next_free_page_id = self.pages[idx].h.free_page_id();
        self.pages[idx].h.set_free_page_id(None);
        self.pages[idx].write_packet(buf);
        self.free_page_id = next_free_page_id;
        self.free_list = Ghost(old_fl.drop_first());
        proof {
            let fl = self.free_list@;
            assert(old_fl[0] == idx);
            assert forall|i: int| 0 <= i < self.pages@.len() && i != idx implies self.pages@[i]
                == old_self.pages@[i] by {}
            assert forall|k: int| 0 <= k < fl.len() - 1 implies self.link(#[trigger] fl[k])
                == Some(fl[k + 1] as u16) by {
                assert(fl[k] == old_fl[k + 1]);
                assert(old_self.link(old_fl[k + 1]) == Some(old_fl[k + 2] as u16));
            }
            if fl.len() > 0 {
                assert(fl[0] == old_fl[1]);
                assert(old_self.link(old_fl[0]) == Some(old_fl[1] as u16));
                assert(fl.last() == old_fl.last());
            } else {
                assert(old_self.link(old_fl[0]) is None);
            }
            assert forall|i: int|
                0 <= i < self.pages@.len() && !fl.contains(i) implies #[trigger] self.link(i)
                is None by {
                if i != idx {
                    assert(!old_fl.contains(i)) by {
                        if old_fl.contains(i) {
                            let k = choose|k: int| 0 <= k < old_fl.len() && old_fl[k] == i;
                            assert(k != 0);
                            assert(fl[k - 1] == i);
                        }
                    }
                    assert(self.pages@[i] == old_self.pages@[i]);
                    assert(old_self.link(i) is None);
                }
            }
            assert(fl.no_duplicates()) by {
                assert forall|a: int, b: int| 0 <= a < b < fl.len() implies fl[a] != fl[b] by {
                    assert(fl[a] == old_fl[a + 1]);
                    assert(fl[b] == old_fl[b + 1]);
                }
            }
            assert forall|k: int| 0 <= k < fl.len() implies 0 <= #[trigger] fl[k]
                < self.pages@.len() by {
                assert(fl[k] == old_fl[k + 1]);
            }
        }
        let addr = self.desc_addr_from(idx);
        Ok(XdpDesc { addr, len: buf.len() as u32, options: 0 })
    }

    fn read_mut(&mut self, page_id: usize) -> (r: &mut UmemPage)
        requires
            page_id < old(self).pages@.len(),
        ensures
            *r == old(self).pages@[page_id as int],
            final(self).pages@ == old(self).pages@.update(page_id as int, *final(r)),
            final(self).alignment == old(self).alignment,
            final(self).free_page_id == old(self).free_page_id,
            final(self).free_list == old(self).free_list,
    {
        &mut self.pages[page_id]
    }

    /// Copies `buf` to the start of the payload of chunk `page_id`, a chunk
    /// that is not on the free list (the kernel filling a receive buffer).
    pub fn write_page(&mut self, page_id: usize, buf: &[u8])
        requires
            old(self).wf(),
            page_id < old(self).spec_size(),
            buf@.len() <= old(self).spec_alignment() - HEADROOM_SIZE,
        ensures
            final(self).wf(),
            final(self).spec_size() == old(self).spec_size(),
            final(self).spec_alignment() == old(self).spec_alignment(),
            final(self).free_list() == old(self).free_list(),
            final(self).payload(page_id as int) == buf@ + old(self).payload(page_id as int).subrange(
                buf@.len() as int,
                old(self).payload(page_id as int).len() as int,
            ),
            forall|i: int|
                0 <= i < old(self).spec_size() && i != page_id ==> #[trigger] final(self).payload(i)
                    == old(self).payload(i),
    {
        let ghost old_self = *self;
        let page = self.read_mut(page_id);
        page.write_packet(buf);
        proof {
            assert forall|i: int| 0 <= i < self.pages@.len() implies #[trigger] self.link(i)
                == old_self.link(i) && self.pages@[i].buffer@.len() == old_self.pages@[i].buffer@.len() by {
                if i != page_id {
                    assert(self.pages@[i] == old_self.pages@[i]);
                }
            }
            assert forall|i: int|
                0 <= i < self.pages@.len() implies #[trigger] self.pages@[i].buffer@.len()
                    == self.alignment - HEADROOM_SIZE by {
                assert(self.pages@[i].buffer@.len() == old_self.pages@[i].buffer@.len());
            }
        }
    }

    /// The empty descriptor of every chunk, in index order.
    pub fn packet_descriptors(&self) -> (r: Vec<XdpDesc>)
        requires
            self.wf(),
        ensures
            r@.len() == self.spec_size(),
            forall|i: int|
                0 <= i < r@.len() ==> #[trigger] r@[i] == empty_desc(
                    i,
                    self.spec_alignment() as int,
                ),
    {
        let n = self.pages.len();
        let len = (self.alignment - HEADROOM_SIZE) as u32;
        let mut out: Vec<XdpDesc> = Vec::with_capacity(n);
        let mut i: usize = 0;
        while i < n
            invariant
                self.wf(),
                n == self.spec_size(),
                len == self.spec_alignment() - HEADROOM_SIZE,
                i <= n,
                out@.len() == i,
                forall|j: int|
                    0 <= j < i ==> #[trigger] out@[j] == empty_desc(
                        j,
                        self.spec_alignment() as int,
                    ),
            decreases n - i,
        {
            out.push(XdpDesc { addr: self.desc_addr_from(i), len, options: 0 });
            i = i + 1;
        }
        out
    }
}

} // verus!
