use hpsdr_emu::echo::EchoBuffer;
use hpsdr_emu::protocol1::{packet_interval_nanos, samples_per_subframe, Action, Protocol1Server};
use hpsdr_emu::radio::{HpsdrHw, RadioState};

const MAC: [u8; 6] = [0x00, 0x1c, 0xc0, 0xa2, 0x22, 0x5e];

fn server(hw: HpsdrHw) -> Protocol1Server {
    Protocol1Server::new(RadioState::new(hw, MAC), None)
}

fn echo_server() -> Protocol1Server {
    Protocol1Server::new(RadioState::new(HpsdrHw::Hermes, MAC), Some(EchoBuffer::new(48000)))
}

/// A host data packet whose two sub-frames carry the given control bytes and
/// the given transmit IQ in every block.
fn host_packet(a: [u8; 5], b: [u8; 5], iq: (i16, i16)) -> Vec<u8> {
    let mut p = vec![0u8; 1032];
    p[0] = 0xEF;
    p[1] = 0xFE;
    p[2] = 0x01;
    p[3] = 0x02;
    for (off, c) in [(8usize, a), (520usize, b)] {
        p[off] = 0x7F;
        p[off + 1] = 0x7F;
        p[off + 2] = 0x7F;
        p[off + 3..off + 8].copy_from_slice(&c);
        for k in 0..63 {
            let blk = off + 8 + 8 * k;
            p[blk + 4..blk + 6].copy_from_slice(&iq.0.to_be_bytes());
            p[blk + 6..blk + 8].copy_from_slice(&iq.1.to_be_bytes());
        }
    }
    p
}

fn control(c: [u8; 5]) -> Vec<u8> {
    host_packet(c, c, (0, 0))
}

fn iq_for(s: &Protocol1Server, value: i32) -> Vec<Vec<(i32, i32)>> {
    let n = s.state.nddc.max(1) as usize;
    let spr = samples_per_subframe(s.state.nddc);
    (0..n).map(|d| (0..2 * spr).map(|i| (value + d as i32, i as i32)).collect()).collect()
}

fn be16(b: &[u8]) -> u16 {
    u16::from_be_bytes([b[0], b[1]])
}

#[test]
fn short_or_foreign_datagrams_are_dropped() {
    let mut s = server(HpsdrHw::Hermes);
    for d in [vec![], vec![0xEF, 0xFE, 0x02], vec![0xEE, 0xFE, 0x02, 0x00], vec![0xEF, 0xFF, 0x04, 0x01]] {
        assert!(matches!(s.handle_datagram(&d), Action::Dropped));
    }
    assert!(!s.state.running);
    assert_eq!(s.build_discovery_response()[20], 4);
}

#[test]
fn discovery_reply_for_hermes() {
    let mut s = server(HpsdrHw::Hermes);
    let mut req = vec![0u8; 63];
    req[0] = 0xEF;
    req[1] = 0xFE;
    req[2] = 0x02;
    match s.handle_datagram(&req) {
        Action::Reply(r) => {
            assert_eq!(r.len(), 60);
            assert_eq!(&r[0..3], &[0xEF, 0xFE, 0x02]);
            assert_eq!(&r[3..9], &MAC);
            assert_eq!(r[9], 25);
            assert_eq!(r[10], 1);
            assert_eq!(r[11], 0);
            assert_eq!(&r[14..18], &[25, 25, 25, 25]);
            assert_eq!(r[18], 25);
            assert_eq!(r[19], 25);
            assert_eq!(r[20], 4);
            assert!(r[21..].iter().all(|&b| b == 0));
        }
        _ => panic!("expected a discovery reply"),
    }
}

#[test]
fn discovery_reply_reports_current_nddc() {
    let mut s = server(HpsdrHw::Saturn);
    s.process_control(0x00, 0x00, 0x00, 0x00, 0x10);
    let r = s.build_discovery_response();
    assert_eq!(r[10], 10);
    assert_eq!(r[20], 3);
}

#[test]
fn start_and_stop_toggle_running() {
    let mut s = server(HpsdrHw::Hermes);
    assert!(matches!(s.handle_datagram(&[0xEF, 0xFE, 0x04, 0x01]), Action::Start));
    assert!(s.state.running);
    assert!(matches!(s.handle_datagram(&[0xEF, 0xFE, 0x04, 0x01]), Action::Start));
    assert!(s.state.running);
    assert!(matches!(s.handle_datagram(&[0xEF, 0xFE, 0x04, 0x00]), Action::Stop));
    assert!(!s.state.running);
    assert!(matches!(s.handle_datagram(&[0xEF, 0xFE, 0x04, 0x00]), Action::Stop));
    assert!(matches!(s.handle_datagram(&[0xEF, 0xFE, 0x04, 0x05]), Action::Ignored));
    assert!(matches!(s.handle_datagram(&[0xEF, 0xFE, 0x07, 0x01]), Action::Ignored));
}

#[test]
fn tx_frequency_from_control() {
    let mut s = server(HpsdrHw::Hermes);
    s.process_control(0x02, 0x00, 0x6F, 0x12, 0x38);
    assert_eq!(s.state.tx_frequency, 7_279_160);
}

#[test]
fn rx_frequency_on_ddc1_from_control() {
    let mut s = server(HpsdrHw::Hermes);
    let a = s.handle_datagram(&control([0x06, 0x00, 0x6F, 0x12, 0x38]));
    assert!(matches!(a, Action::HostData));
    assert_eq!(s.state.rx_frequencies[1], 7_279_160);
    assert_eq!(s.state.rx_frequencies[0], 7_074_000);
}

#[test]
fn rx_frequency_on_ddc6_from_control() {
    let mut s = server(HpsdrHw::Hermes);
    s.process_control(0x10, 0x01, 0x02, 0x03, 0x04);
    assert_eq!(s.state.rx_frequencies[6], 0x0102_0304);
}

#[test]
fn sample_rate_and_nddc_from_control() {
    let mut s = server(HpsdrHw::Hermes);
    let before = packet_interval_nanos(s.state.nddc, s.state.sample_rate);
    s.process_control(0x00, 0x02, 0x00, 0x00, 0x18);
    assert_eq!(s.state.sample_rate, 192000);
    assert_eq!(s.state.nddc, 4);
    let after = packet_interval_nanos(s.state.nddc, s.state.sample_rate);
    let spp = 2 * samples_per_subframe(4) as u64;
    assert_eq!(after, spp * 1_000_000_000 / 192000);
    assert!(after < before);
    s.process_control(0x00, 0x03, 0x00, 0x00, 0x38);
    assert_eq!(s.state.sample_rate, 384000);
    assert_eq!(s.state.nddc, 8);
}

#[test]
fn tx_drive_and_unknown_address() {
    let mut s = server(HpsdrHw::Hermes);
    s.process_control(0x12, 100, 0, 0, 0);
    assert_eq!(s.state.tx_drive, 100);
    s.process_control(0x14, 7, 7, 7, 7);
    assert_eq!(s.state.tx_drive, 100);
    assert_eq!(s.state.tx_frequency, 7_074_000);
}

#[test]
fn mox_bit_sets_ptt() {
    let mut s = server(HpsdrHw::Hermes);
    s.process_control(0x01, 0, 0, 0, 0);
    assert!(s.state.ptt);
    s.process_control(0x00, 0, 0, 0, 0);
    assert!(!s.state.ptt);
}

#[test]
fn subframe_without_sync_is_skipped() {
    let mut s = server(HpsdrHw::Hermes);
    let mut p = control([0x02, 0x00, 0x6F, 0x12, 0x38]);
    p[8] = 0x00;
    p[520] = 0x00;
    s.handle_host_data(&p);
    assert_eq!(s.state.tx_frequency, 7_074_000);
    let short = &p[..1031];
    let mut t = server(HpsdrHw::Hermes);
    t.handle_host_data(short);
    assert_eq!(t.state.tx_frequency, 7_074_000);
}

#[test]
fn samples_per_subframe_by_ddc_count() {
    assert_eq!(samples_per_subframe(0), 63);
    assert_eq!(samples_per_subframe(1), 63);
    assert_eq!(samples_per_subframe(2), 36);
    assert_eq!(samples_per_subframe(3), 25);
    assert_eq!(samples_per_subframe(4), 19);
    assert_eq!(samples_per_subframe(8), 10);
    assert_eq!(packet_interval_nanos(1, 48000), 2_625_000);
}

#[test]
fn data_packet_layout() {
    let mut s = server(HpsdrHw::Hermes);
    let iq = iq_for(&s, 0x01_0203);
    let p = s.build_data_packet(&iq);
    assert_eq!(p.len(), 1032);
    assert_eq!(&p[0..8], &[0xEF, 0xFE, 0x01, 0x06, 0, 0, 0, 0]);
    let spr = samples_per_subframe(4);
    for (off, first) in [(8usize, 0usize), (520, spr)] {
        let sf = &p[off..off + 512];
        assert_eq!(&sf[0..3], &[0x7F, 0x7F, 0x7F]);
        for row in 0..spr {
            let base = 8 + row * 26;
            for d in 0..4 {
                let (i, q) = iq[d][first + row];
                let b = &sf[base + 6 * d..base + 6 * d + 6];
                assert_eq!(b, &[(i >> 16) as u8, (i >> 8) as u8, i as u8, (q >> 16) as u8, (q >> 8) as u8, q as u8]);
            }
            assert_eq!(&sf[base + 24..base + 26], &[0, 0]);
        }
        assert!(sf[8 + spr * 26..].iter().all(|&b| b == 0));
    }
}

#[test]
fn sequence_numbers_are_contiguous() {
    let mut s = server(HpsdrHw::Hermes);
    for k in 0..6u32 {
        let iq = iq_for(&s, 0);
        let p = s.build_data_packet(&iq);
        assert_eq!(u32::from_be_bytes([p[4], p[5], p[6], p[7]]), k);
    }
}

#[test]
fn c0_addresses_rotate_per_subframe() {
    let mut s = server(HpsdrHw::Hermes);
    let mut seen = Vec::new();
    for _ in 0..6 {
        let iq = iq_for(&s, 0);
        let p = s.build_data_packet(&iq);
        seen.push(p[11] & 0x78);
        seen.push(p[523] & 0x78);
    }
    assert_eq!(seen, vec![0x00, 0x08, 0x10, 0x18, 0x00, 0x08, 0x10, 0x18, 0x00, 0x08, 0x10, 0x18]);
}

#[test]
fn c0_has_bit7_and_ptt() {
    let mut s = server(HpsdrHw::Hermes);
    let iq = iq_for(&s, 0);
    let p = s.build_data_packet(&iq);
    assert_eq!(p[11], 0x80);
    assert_eq!(p[523], 0x88);
    s.process_control(0x01, 0, 0, 0, 0);
    let iq = iq_for(&s, 0);
    let p = s.build_data_packet(&iq);
    assert_eq!(p[11], 0x91);
    assert_eq!(p[523], 0x99);
}

#[test]
fn telemetry_while_transmitting_at_drive_100() {
    let mut s = server(HpsdrHw::Hermes);
    s.process_control(0x13, 100, 0, 0, 0);
    assert!(s.state.ptt);
    let iq = iq_for(&s, 0);
    let p = s.build_data_packet(&iq);
    // first sub-frame: address 0x00
    assert_eq!(&p[12..16], &[0, 25, 25, 0]);
    // second sub-frame: address 0x08
    assert_eq!(p[523] & 0x78, 0x08);
    assert_eq!(be16(&p[524..526]), 1000);
    assert_eq!(be16(&p[526..528]), 625);
    let iq = iq_for(&s, 0);
    let p = s.build_data_packet(&iq);
    // address 0x10: reverse power and supply
    assert_eq!(be16(&p[12..14]), 12);
    assert_eq!(be16(&p[14..16]), 3200);
    // address 0x18: PA current and supply
    assert_eq!(be16(&p[524..526]), 500);
    assert_eq!(be16(&p[526..528]), 3200);
}

#[test]
fn telemetry_at_rest() {
    let mut s = server(HpsdrHw::Hermes);
    s.process_control(0x12, 100, 0, 0, 0);
    let iq = iq_for(&s, 0);
    let p = s.build_data_packet(&iq);
    assert_eq!(&p[524..528], &[0, 0, 0, 0]);
    let iq = iq_for(&s, 0);
    let p = s.build_data_packet(&iq);
    assert_eq!(&p[12..16], &[0, 0, 0x0C, 0x80]);
    assert_eq!(&p[524..528], &[0, 0, 0x0C, 0x80]);
}

#[test]
fn reverse_power_has_floor_of_one() {
    let mut s = server(HpsdrHw::Hermes);
    s.process_control(0x13, 10, 0, 0, 0);
    let iq = iq_for(&s, 0);
    s.build_data_packet(&iq);
    let iq = iq_for(&s, 0);
    let p = s.build_data_packet(&iq);
    assert_eq!(be16(&p[12..14]), 1);
}

#[test]
fn echo_records_tx_iq_between_mox_edges() {
    let mut s = echo_server();
    s.process_control(0x02, 0x00, 0x6F, 0x12, 0x38);
    // MOX rises and both sub-frames carry 63 transmit samples each
    s.handle_host_data(&host_packet([0x01, 0, 0, 0, 0], [0x01, 0, 0, 0, 0], (1000, -1000)));
    s.handle_host_data(&host_packet([0x01, 0, 0, 0, 0], [0x01, 0, 0, 0, 0], (1000, -1000)));
    // MOX falls
    s.handle_host_data(&host_packet([0x00, 0, 0, 0, 0], [0x00, 0, 0, 0, 0], (5, 5)));
    let echo = s.echo.as_mut().unwrap();
    assert_eq!(echo.recorded_frequencies(), vec![7_279_160]);
    let chunk = echo.take_chunk(7_279_160, 252).unwrap();
    assert_eq!(chunk, vec![(1000, -1000); 252]);
    // the recording held exactly 4 * 63 samples: playback is back at its start
    assert_eq!(echo.take_chunk(7_279_160, 1), Some(vec![(1000, -1000)]));
}

#[test]
fn echo_loopback_of_tone_at_tx_frequency() {
    let mut s = echo_server();
    let f: u32 = 7_074_000;
    s.process_control(0x01, 0, 0, 0, 0);
    let mut sent = Vec::new();
    let mut k = 0usize;
    while sent.len() < 4800 {
        let mut p = host_packet([0x01, 0, 0, 0, 0], [0x01, 0, 0, 0, 0], (0, 0));
        for off in [8usize, 520] {
            for b in 0..63 {
                let v = ((k % 16) as i16 - 8) * 1000;
                let blk = off + 8 + 8 * b;
                p[blk + 4..blk + 6].copy_from_slice(&v.to_be_bytes());
                p[blk + 6..blk + 8].copy_from_slice(&(-v).to_be_bytes());
                sent.push((v, -v));
                k += 1;
            }
        }
        s.handle_datagram(&p);
    }
    s.process_control(0x00, 0, 0, 0, 0);
    s.process_control(0x04, 0x00, 0x6B, 0xF0, 0xD0);
    assert_eq!(s.state.rx_frequencies[0], f);
    let rx = s.state.rx_frequencies[0];
    let echo = s.echo.as_mut().unwrap();
    let recorded = echo.recorded_frequencies();
    assert_eq!(recorded, vec![f]);
    assert!(hpsdr_emu::echo::in_band(rx, recorded[0], 48000));
    let chunk = echo.take_chunk(f, sent.len()).unwrap();
    assert_eq!(chunk, sent);
}
