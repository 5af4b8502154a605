use xdp_core::config::ChunkAlignment;
use xdp_core::rings::XdpDesc;
use xdp_core::umem::{Config, Umem, HEADROOM_SIZE};
use xdp_core::XdpError;

fn umem(entries: usize, alignment: ChunkAlignment) -> Umem {
    Umem::new(Config { entries, alignment }).unwrap()
}

#[test]
fn fresh_umem_links_pages_in_order() {
    let u = umem(4, ChunkAlignment::FourK);
    assert_eq!(u.free_head(), Some(0));
    assert_eq!(u.read(0).headroom().free_page_id(), Some(1));
    assert_eq!(u.read(1).headroom().free_page_id(), Some(2));
    assert_eq!(u.read(2).headroom().free_page_id(), Some(3));
    assert_eq!(u.read(3).headroom().free_page_id(), None);
    assert_eq!(u.size(), 4);
    assert_eq!(u.alignment(), 4096);
}

#[test]
fn packet_descriptors_are_canonical_empty_chunks() {
    let u = umem(4, ChunkAlignment::FourK);
    let descs = u.packet_descriptors();
    let addrs: Vec<u64> = descs.iter().map(|d| d.addr).collect();
    assert_eq!(addrs, vec![2, 4098, 8194, 12290]);
    for d in &descs {
        assert_eq!(d.len, 4094);
        assert_eq!(d.options, 0);
    }
}

#[test]
fn packet_descriptors_two_k() {
    let u = umem(3, ChunkAlignment::TwoK);
    let descs = u.packet_descriptors();
    assert_eq!(descs.len(), 3);
    assert_eq!(descs[2], XdpDesc { addr: 2 * 2048 + 2, len: 2046, options: 0 });
}

#[test]
fn write_until_exhausted_then_free_reuses_page() {
    let mut u = umem(2, ChunkAlignment::FourK);
    let d0 = u.write(&[1, 2, 3]).unwrap();
    assert_eq!(u.page_id_from(d0), 0);
    assert_eq!(d0, XdpDesc { addr: 2, len: 3, options: 0 });
    let d1 = u.write(&[4]).unwrap();
    assert_eq!(u.page_id_from(d1), 1);
    assert_eq!(d1.addr, 4098);
    assert_eq!(u.write(&[5]), Err(XdpError::WouldBlock));
    let back = u.free(0);
    assert_eq!(back, XdpDesc { addr: 2, len: 4094, options: 0 });
    let d3 = u.write(&[6, 7]).unwrap();
    assert_eq!(u.page_id_from(d3), 0);
    assert_eq!(d3.len, 2);
}

#[test]
fn write_takes_head_and_round_trips_through_free() {
    let mut u = umem(5, ChunkAlignment::TwoK);
    let head = u.free_head().unwrap() as usize;
    let d = u.write(&[9; 10]).unwrap();
    let page = u.page_id_from(d);
    assert_eq!(page, head);
    assert_eq!(u.free_head(), Some(1));
    assert_eq!(u.read(page).headroom().free_page_id(), None);
    u.free(page);
    assert_eq!(u.free_head(), Some(page as u16));
    assert_eq!(u.read(page).headroom().free_page_id(), Some(1));
    let again = u.write(&[1]).unwrap();
    assert_eq!(u.page_id_from(again), page);
}

#[test]
fn free_on_exhausted_pool_ends_list() {
    let mut u = umem(1, ChunkAlignment::FourK);
    u.write(&[1]).unwrap();
    assert_eq!(u.free_head(), None);
    u.free(0);
    assert_eq!(u.free_head(), Some(0));
    assert_eq!(u.read(0).headroom().free_page_id(), None);
    u.write(&[2]).unwrap();
    assert_eq!(u.write(&[3]), Err(XdpError::WouldBlock));
}

#[test]
fn free_list_walk_ends_within_entries() {
    let mut u = umem(6, ChunkAlignment::TwoK);
    let a = u.write(&[1]).unwrap();
    let b = u.write(&[1]).unwrap();
    u.free(u.page_id_from(a));
    let _ = b;
    let mut steps = 0;
    let mut cur = u.free_head();
    while let Some(i) = cur {
        steps += 1;
        assert!(steps <= u.size());
        cur = u.read(i as usize).headroom().free_page_id();
    }
    assert_eq!(steps, 5);
}

#[test]
fn write_copies_payload_and_read_packet_returns_it() {
    let mut u = umem(2, ChunkAlignment::FourK);
    let d = u.write(&[10, 20, 30, 40]).unwrap();
    let page = u.page_id_from(d);
    assert_eq!(u.read(page).read_packet(d), vec![10, 20, 30, 40]);
    let shorter = XdpDesc { addr: d.addr + 1, len: 2, options: 0 };
    assert_eq!(u.read(page).read_packet(shorter), vec![20, 30]);
}

#[test]
fn new_rejects_zero_and_too_many_entries() {
    assert!(matches!(
        Umem::new(Config { entries: 0, alignment: ChunkAlignment::FourK }),
        Err(XdpError::InvalidInput)
    ));
    assert!(matches!(
        Umem::new(Config { entries: 0x1_0000, alignment: ChunkAlignment::TwoK }),
        Err(XdpError::InvalidInput)
    ));
}

#[test]
fn fresh_payload_is_zeroed() {
    let u = umem(2, ChunkAlignment::TwoK);
    let d = XdpDesc { addr: 2048 + 2, len: 2046, options: 0 };
    let bytes = u.read(1).read_packet(d);
    assert_eq!(bytes.len(), 2046);
    assert!(bytes.iter().all(|b| *b == 0));
}

#[test]
fn write_page_fills_a_held_chunk() {
    let mut u = umem(2, ChunkAlignment::TwoK);
    let d = u.write(&[]).unwrap();
    u.write_page(0, &[7, 8]);
    let got = u.read(0).read_packet(XdpDesc { addr: d.addr, len: 3, options: 0 });
    assert_eq!(got, vec![7, 8, 0]);
}

#[test]
fn headroom_sentinel_reads_as_none() {
    let mut u = umem(3, ChunkAlignment::TwoK);
    let mut h = *u.read(0).headroom();
    h.set_free_page_id(Some(0xFFFF));
    assert_eq!(h.free_page_id(), None);
    h.set_free_page_id(Some(7));
    assert_eq!(h.free_page_id(), Some(7));
    h.set_free_page_id(None);
    assert_eq!(h.free_page_id(), None);
    let _ = &mut u;
    assert_eq!(HEADROOM_SIZE, 2);
}

#[test]
fn chunk_alignment_sizes() {
    assert_eq!(usize::from(ChunkAlignment::TwoK), 2048);
    assert_eq!(usize::from(ChunkAlignment::FourK), 4096);
    assert_eq!(ChunkAlignment::FourK.bytes(), 4096);
}
