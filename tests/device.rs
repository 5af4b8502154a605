use xdp_core::config::ChunkAlignment;
use xdp_core::device::{Config, XdpCore};
use xdp_core::rings::{self, XdpDesc};
use xdp_core::umem;
use xdp_core::XdpError;

fn config(entries: usize, ring: usize) -> Config {
    Config {
        queue_id: 0,
        umem: umem::Config { entries, alignment: ChunkAlignment::FourK },
        tx: rings::Config { size: ring },
        rx: rings::Config { size: ring },
        cr: rings::Config { size: ring },
        fr: rings::Config { size: ring },
    }
}

#[test]
fn rx_round_trip_through_simulated_kernel() {
    let mut core = XdpCore::new(config(64, 16)).unwrap();
    for i in 0..10_000u32 {
        let payload = i.to_le_bytes();
        assert!(core.kernel_receive(&payload));
        let token = core.receive().expect("frame");
        assert_eq!(token.consume(), payload.to_vec());
        assert!(core.receive().is_none());
    }
}

#[test]
fn rx_delivers_frames_in_arrival_order() {
    let mut core = XdpCore::new(config(8, 4)).unwrap();
    assert!(core.kernel_receive(&[1]));
    assert!(core.kernel_receive(&[2, 2]));
    assert!(core.kernel_receive(&[3, 3, 3]));
    assert_eq!(core.receive().unwrap().consume(), vec![1]);
    assert_eq!(core.receive().unwrap().consume(), vec![2, 2]);
    assert_eq!(core.receive().unwrap().consume(), vec![3, 3, 3]);
    assert!(core.receive().is_none());
}

#[test]
fn kernel_receive_stops_when_rx_is_full() {
    let mut core = XdpCore::new(config(8, 2)).unwrap();
    assert!(core.kernel_receive(&[1]));
    assert!(core.kernel_receive(&[2]));
    assert!(!core.kernel_receive(&[3]));
    core.receive().unwrap();
    assert!(core.kernel_receive(&[4]));
}

#[test]
fn tx_without_completion_drops_after_ring_fills() {
    let mut core = XdpCore::new(config(64, 16)).unwrap();
    let frame = vec![0xAB; 64];
    for _ in 0..16 {
        assert!(core.transmit(&frame).is_ok());
    }
    for _ in 0..5 {
        assert_eq!(core.transmit(&frame), Err(XdpError::WouldBlock));
    }
    assert!(core.kernel_complete());
    assert!(core.transmit(&frame).is_ok());
}

#[test]
fn tx_reclaims_completions_and_keeps_running() {
    let mut core = XdpCore::new(config(20, 16)).unwrap();
    let frame = vec![1u8; 100];
    for _ in 0..1_000 {
        assert!(core.transmit(&frame).is_ok());
        assert!(core.kernel_complete());
    }
}

#[test]
fn tx_blocks_when_no_chunk_is_free() {
    let mut core = XdpCore::new(config(16, 16)).unwrap();
    assert_eq!(core.transmit(&[1, 2, 3]), Err(XdpError::WouldBlock));
}

#[test]
fn construction_rejects_rx_size_three() {
    let mut c = config(8, 4);
    c.rx = rings::Config { size: 3 };
    assert!(matches!(XdpCore::new(c), Err(XdpError::InvalidInput)));
}

#[test]
fn construction_rejects_zero_entries() {
    assert!(matches!(XdpCore::new(config(0, 4)), Err(XdpError::InvalidInput)));
}

#[test]
fn max_frame_len_is_chunk_minus_headroom() {
    let core = XdpCore::new(config(4, 4)).unwrap();
    assert_eq!(core.max_frame_len(), 4094);
}

#[test]
fn transmit_returns_published_descriptor() {
    let mut core = XdpCore::new(config(8, 4)).unwrap();
    let d = core.transmit(&[5; 10]).unwrap();
    assert_eq!(d, XdpDesc { addr: 4 * 4096 + 2, len: 10, options: 0 });
}

#[test]
fn receive_reports_refill_descriptor() {
    let mut core = XdpCore::new(config(8, 4)).unwrap();
    assert_eq!(core.fill_len(), 4);
    assert!(core.kernel_receive(&[1, 2]));
    assert_eq!(core.fill_len(), 3);
    let token = core.receive().unwrap();
    assert_eq!(token.refill(), Some(XdpDesc { addr: 2, len: 4094, options: 0 }));
    assert_eq!(core.fill_len(), 4);
}

#[test]
fn receive_reposts_into_single_slot_fill() {
    let mut c = config(8, 4);
    c.fr = rings::Config { size: 1 };
    let mut core = XdpCore::new(c).unwrap();
    assert!(core.kernel_receive(&[1]));
    let token = core.receive().unwrap();
    assert!(token.refill().is_some());
    assert!(core.kernel_receive(&[2]));
    assert_eq!(core.receive().unwrap().consume(), vec![2]);
}

#[test]
fn deliver_accepts_only_the_oldest_fill_chunk() {
    let mut core = XdpCore::new(config(8, 4)).unwrap();
    let first = core.chunk_descriptor(0);
    let second = core.chunk_descriptor(1);
    assert_eq!(second, XdpDesc { addr: 4098, len: 4094, options: 0 });
    assert!(!core.deliver(second, &[9]));
    assert!(core.deliver(first, &[7, 7]));
    assert_eq!(core.receive().unwrap().consume(), vec![7, 7]);
    assert!(core.deliver(second, &[8]));
    assert_eq!(core.receive().unwrap().consume(), vec![8]);
}
