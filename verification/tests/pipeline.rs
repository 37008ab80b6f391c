use ledcat::artnet::{
    broadcast_addr, dmx_packet, first_send_error, fragment_frame, parse_ipv4, parse_target_list,
    poll_packet, poll_reply_name, send_plan, Ipv4, SockAddr, PORT,
};
use ledcat::color::{dim_channel, dim_pixel, gamma_channel, Correction, Pixel};
use ledcat::geometry::{transposition_table, ConfigError, Dimensions, Transform};
use ledcat::pipeline::{pipe_frame, PipeError};
use ledcat::select::{Consume, Multiplexer, ReadEvent, ReadStep, WhenEOF};

fn assert_permutation(table: &[usize]) {
    let n = table.len();
    let mut seen = vec![false; n];
    for &d in table {
        assert!(d < n, "destination {} out of range {}", d, n);
        assert!(!seen[d], "destination {} used twice", d);
        seen[d] = true;
    }
    assert!(seen.iter().all(|&s| s), "some destination missing");
}

#[test]
fn transposition_is_bijection_for_various_chains() {
    let chains: Vec<Vec<Transform>> = vec![
        vec![],
        vec![Transform::Reverse],
        vec![Transform::ZigzagX],
        vec![Transform::ZigzagY],
        vec![Transform::Reverse, Transform::ZigzagX],
        vec![Transform::ZigzagX, Transform::ZigzagY, Transform::Reverse],
    ];
    for chain in &chains {
        let table = transposition_table(&Dimensions::Two(4, 3), chain).unwrap();
        assert_eq!(table.len(), 12);
        assert_permutation(&table);
    }
    let table = transposition_table(&Dimensions::One(7), &vec![Transform::Reverse]).unwrap();
    assert_permutation(&table);
}

#[test]
fn reverse_twice_is_identity() {
    let ops = vec![Transform::Reverse, Transform::Reverse];
    let table = transposition_table(&Dimensions::One(9), &ops).unwrap();
    for (i, &d) in table.iter().enumerate() {
        assert_eq!(d, i);
    }
    let table = transposition_table(&Dimensions::Two(5, 4), &ops).unwrap();
    for (i, &d) in table.iter().enumerate() {
        assert_eq!(d, i);
    }
}

#[test]
fn reverse_maps_to_mirrored_index() {
    let table = transposition_table(&Dimensions::One(4), &vec![Transform::Reverse]).unwrap();
    assert_eq!(table, vec![3, 2, 1, 0]);
}

#[test]
fn zigzag_x_flips_odd_rows() {
    let table = transposition_table(&Dimensions::Two(3, 2), &vec![Transform::ZigzagX]).unwrap();
    // row 0 unchanged, row 1 reversed within the row
    assert_eq!(table, vec![0, 1, 2, 5, 4, 3]);
}

#[test]
fn zigzag_on_one_dimensional_fails_with_config_error() {
    let r = transposition_table(&Dimensions::One(6), &vec![Transform::ZigzagX]);
    assert_eq!(r, Err(ConfigError::ZigzagRequires2d));
    let r = transposition_table(&Dimensions::One(6), &vec![Transform::ZigzagY]);
    assert_eq!(r, Err(ConfigError::ZigzagRequires2d));
    // reverse alone stays fine on 1-D
    assert!(transposition_table(&Dimensions::One(6), &vec![Transform::Reverse]).is_ok());
}

#[test]
fn dim_zero_blanks_and_full_scale_is_identity() {
    for c in 0..=255u8 {
        assert_eq!(dim_channel(c, 0), 0);
        assert_eq!(dim_channel(c, 255), c);
    }
}

#[test]
fn dim_is_monotonic_in_factor() {
    for c in [1u8, 17, 100, 255] {
        let mut prev = 0u8;
        for d in 0..=255u8 {
            let v = dim_channel(c, d);
            assert!(v >= prev);
            prev = v;
        }
    }
}

#[test]
fn dim_half_on_white_gives_half() {
    let p = dim_pixel(Pixel { r: 255, g: 255, b: 255 }, 128);
    assert_eq!(p, Pixel { r: 128, g: 128, b: 128 });
}

#[test]
fn identity_correction_is_identity() {
    let c = Correction::none();
    for v in [0u8, 1, 17, 128, 254, 255] {
        let p = Pixel { r: v, g: v.wrapping_add(3), b: 255 - v };
        assert_eq!(c.correct(p), p);
    }
}

#[test]
fn gamma_correction_fixes_endpoints_and_is_monotonic() {
    for max in [255u8, 200, 17, 0] {
        assert_eq!(gamma_channel(0, max), 0);
        assert_eq!(gamma_channel(255, max), max);
        let mut prev = 0u8;
        for x in 0..=255u8 {
            let v = gamma_channel(x, max);
            assert!(v >= prev);
            prev = v;
        }
    }
    let c = Correction::srgb(255, 255, 255);
    assert_eq!(c.correct(Pixel { r: 0, g: 0, b: 0 }), Pixel { r: 0, g: 0, b: 0 });
    assert_eq!(c.correct(Pixel { r: 255, g: 255, b: 255 }), Pixel { r: 255, g: 255, b: 255 });
}

#[test]
fn single_close_exhausts_after_all_eofs() {
    let mut mux = Multiplexer::new(2, 3, Consume::Single, WhenEOF::Close);
    assert_eq!(mux.current_input(), Some(0));
    assert!(matches!(mux.on_event(ReadEvent::Eof), ReadStep::Advance));
    assert_eq!(mux.current_input(), Some(1));
    assert!(matches!(mux.on_event(ReadEvent::Eof), ReadStep::Exhausted));
    // no further read is attempted: there is no current input any more
    assert_eq!(mux.current_input(), None);
}

#[test]
fn single_retry_reads_again_after_eof() {
    let mut mux = Multiplexer::new(1, 3, Consume::Single, WhenEOF::Retry);
    assert!(matches!(mux.on_event(ReadEvent::Eof), ReadStep::Again));
    assert!(matches!(mux.on_event(ReadEvent::Eof), ReadStep::Again));
    // the pipe was re-filled: the same input now delivers
    match mux.on_event(ReadEvent::Bytes(vec![7, 8, 9])) {
        ReadStep::Deliver(f) => assert_eq!(f, vec![7, 8, 9]),
        _ => panic!("expected the frame to be delivered"),
    }
    assert_eq!(mux.current_input(), Some(0));
}

#[test]
fn short_frame_is_an_error_not_zero_padding() {
    let mut mux = Multiplexer::new(1, 6, Consume::Single, WhenEOF::Close);
    assert!(matches!(mux.on_event(ReadEvent::Bytes(vec![1, 2, 3])), ReadStep::ShortRead));
}

#[test]
fn all_mode_sample_reflects_only_the_latest_publish() {
    let mut mux = Multiplexer::new(1, 3, Consume::All { interval_ms: 33 }, WhenEOF::Retry);
    assert_eq!(mux.sample(), None);
    mux.publish(0, vec![1, 1, 1]);
    mux.publish(0, vec![2, 2, 2]);
    assert_eq!(mux.sample(), Some(vec![2, 2, 2]));
    // overwrite-on-write, not queueing: the first frame is gone for good
    assert_eq!(mux.sample(), Some(vec![2, 2, 2]));
}

#[test]
fn empty_target_list_means_zero_sends_not_an_error() {
    let content: Vec<u8> = b"\nnot an address\n999.0.0.1\n".to_vec();
    let targets = parse_target_list(&content);
    assert!(targets.is_empty());
    let frame = vec![0u8; 1024];
    let plan = send_plan(&targets, &frame);
    assert!(plan.is_empty());
}

#[test]
fn target_list_keeps_valid_lines_in_order() {
    let content: Vec<u8> = b"10.0.0.1\r\nbogus\n192.168.1.255\n".to_vec();
    let targets = parse_target_list(&content);
    assert_eq!(
        targets,
        vec![
            SockAddr { ip: Ipv4 { a: 10, b: 0, c: 0, d: 1 }, port: PORT },
            SockAddr { ip: Ipv4 { a: 192, b: 168, c: 1, d: 255 }, port: PORT },
        ]
    );
}

#[test]
fn ipv4_parsing_accepts_canonical_and_rejects_malformed() {
    assert_eq!(
        parse_ipv4(&b"192.168.0.1".to_vec()),
        Some(Ipv4 { a: 192, b: 168, c: 0, d: 1 })
    );
    assert_eq!(parse_ipv4(&b"0.0.0.0".to_vec()), Some(Ipv4 { a: 0, b: 0, c: 0, d: 0 }));
    assert_eq!(
        parse_ipv4(&b"255.255.255.255".to_vec()),
        Some(Ipv4 { a: 255, b: 255, c: 255, d: 255 })
    );
    assert_eq!(parse_ipv4(&b"256.0.0.1".to_vec()), None);
    assert_eq!(parse_ipv4(&b"01.2.3.4".to_vec()), None);
    assert_eq!(parse_ipv4(&b"1.2.3".to_vec()), None);
    assert_eq!(parse_ipv4(&b"1.2.3.4.5".to_vec()), None);
    assert_eq!(parse_ipv4(&b"1.2.3.4 ".to_vec()), None);
    assert_eq!(parse_ipv4(&b"".to_vec()), None);
}

#[test]
fn fragmenting_1024_bytes_gives_two_universes() {
    let frame: Vec<u8> = (0..1024u32).map(|i| (i % 251) as u8).collect();
    let packets = fragment_frame(&frame);
    assert_eq!(packets.len(), 2);
    for (k, p) in packets.iter().enumerate() {
        assert_eq!(p.len(), 18 + 512);
        // identifier and opcode
        assert_eq!(&p[0..8], b"Art-Net\0");
        assert_eq!(p[8], 0x00);
        assert_eq!(p[9], 0x50);
        // distinct, deterministic universe index from chunk order
        assert_eq!(p[14], k as u8);
        assert_eq!(p[15], 0);
        // length, high byte first
        assert_eq!(p[16], 2);
        assert_eq!(p[17], 0);
        assert_eq!(&p[18..], &frame[k * 512..(k + 1) * 512]);
    }
}

#[test]
fn fragmenting_a_short_tail_keeps_it_short() {
    let frame = vec![9u8; 600];
    let packets = fragment_frame(&frame);
    assert_eq!(packets.len(), 2);
    assert_eq!(packets[0].len(), 18 + 512);
    assert_eq!(packets[1].len(), 18 + 88);
    assert_eq!(packets[1][16], 0);
    assert_eq!(packets[1][17], 88);
}

#[test]
fn send_plan_crosses_universes_with_destinations() {
    let targets = vec![
        SockAddr { ip: Ipv4 { a: 10, b: 0, c: 0, d: 1 }, port: PORT },
        SockAddr { ip: Ipv4 { a: 10, b: 0, c: 0, d: 2 }, port: PORT },
    ];
    let frame = vec![0u8; 1024];
    let plan = send_plan(&targets, &frame);
    assert_eq!(plan.len(), 4);
    assert_eq!(plan[0].0, targets[0]);
    assert_eq!(plan[1].0, targets[1]);
    assert_eq!(plan[2].0, targets[0]);
    assert_eq!(plan[3].0, targets[1]);
    assert_eq!(plan[0].1, plan[1].1);
    assert_eq!(plan[0].1[14], 0);
    assert_eq!(plan[2].1[14], 1);
}

#[test]
fn first_error_is_surfaced_after_all_sends() {
    assert_eq!(first_send_error(&vec![None, None]), None);
    assert_eq!(first_send_error(&vec![None, Some(5), Some(7)]), Some(5));
    assert_eq!(first_send_error(&vec![]), None);
}

#[test]
fn broadcast_resolves_to_wildcard_on_wellknown_port() {
    let a = broadcast_addr();
    assert_eq!(a.ip, Ipv4 { a: 255, b: 255, c: 255, d: 255 });
    assert_eq!(a.port, 6454);
}

#[test]
fn poll_packet_layout() {
    let p = poll_packet();
    assert_eq!(p, b"Art-Net\0\x00\x20\x00\x0e\x00\x00".to_vec());
}

#[test]
fn poll_reply_name_extracts_short_name() {
    let mut reply = vec![0u8; 60];
    reply[0..8].copy_from_slice(b"Art-Net\0");
    reply[8] = 0x00;
    reply[9] = 0x21;
    reply[26..30].copy_from_slice(b"node");
    assert_eq!(poll_reply_name(&reply), Some(b"node".to_vec()));

    // a full 18-byte name without a NUL is taken whole
    let mut reply2 = reply.clone();
    reply2[26..44].copy_from_slice(b"exactly-18-bytes!!");
    assert_eq!(poll_reply_name(&reply2), Some(b"exactly-18-bytes!!".to_vec()));

    // wrong opcode, wrong id, or too short: not a reply
    let mut bad = reply.clone();
    bad[9] = 0x50;
    assert_eq!(poll_reply_name(&bad), None);
    let mut bad = reply.clone();
    bad[0] = b'X';
    assert_eq!(poll_reply_name(&bad), None);
    assert_eq!(poll_reply_name(&vec![0u8; 43]), None);
}

#[test]
fn pipeline_reverses_four_pixels() {
    let dims = Dimensions::Two(2, 2);
    let table = transposition_table(&dims, &vec![Transform::Reverse]).unwrap();
    let raw: Vec<u8> = vec![10, 20, 30, 40, 50, 60, 70, 80, 90, 100, 110, 120];
    let out = pipe_frame(&raw, 4, &table, &Correction::none(), 255).unwrap();
    assert_eq!(
        out,
        vec![
            Pixel { r: 100, g: 110, b: 120 },
            Pixel { r: 70, g: 80, b: 90 },
            Pixel { r: 40, g: 50, b: 60 },
            Pixel { r: 10, g: 20, b: 30 },
        ]
    );
}

#[test]
fn pipeline_dims_white_to_half() {
    let table = transposition_table(&Dimensions::One(1), &vec![]).unwrap();
    let out = pipe_frame(&vec![255, 255, 255], 1, &table, &Correction::none(), 128).unwrap();
    assert_eq!(out, vec![Pixel { r: 128, g: 128, b: 128 }]);
}

#[test]
fn pipeline_short_read_is_an_error() {
    let table = transposition_table(&Dimensions::One(2), &vec![]).unwrap();
    let r = pipe_frame(&vec![1, 2, 3, 4, 5], 2, &table, &Correction::none(), 255);
    assert_eq!(r, Err(PipeError::ShortRead));
}

#[test]
fn discovery_dedup_reports_each_address_once() {
    let mut d = ledcat::artnet::Discovered::new();
    let a = SockAddr { ip: Ipv4 { a: 10, b: 0, c: 0, d: 1 }, port: PORT };
    let b = SockAddr { ip: Ipv4 { a: 10, b: 0, c: 0, d: 2 }, port: PORT };
    assert!(d.note(a));
    assert!(!d.note(a));
    assert!(d.note(b));
    assert!(!d.note(a));
    assert!(!d.note(b));
}
