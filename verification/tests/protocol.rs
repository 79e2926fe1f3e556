use sailwind_online::net::protocol::{
    build_disconnect_for, build_ping_for, build_pong_for, build_unreliable_for,
};
use sailwind_online::net::protocol::{
    self, build_connect_accept, build_connect_request, build_control, build_disconnect,
    build_ping, build_pong, build_unreliable, parse_connect_request, property,
    read_disconnect_time, read_litenet_string, read_sequence, write_litenet_string, Header,
    PROTOCOL_ID,
};

#[test]
fn header_byte_roundtrip_golden() {
    let h = Header {
        property: property::CONNECT_REQUEST,
        connection_number: 1,
        fragmented: false,
    };
    assert_eq!(h.to_byte(), 0x25);
    assert_eq!(Header::from_byte(0x25), h);

    let f = Header {
        property: property::PONG,
        connection_number: 0,
        fragmented: true,
    };
    assert_eq!(f.to_byte(), 0x84);
    assert_eq!(Header::from_byte(0x84), f);

    let c = Header {
        property: property::UNRELIABLE,
        connection_number: 3,
        fragmented: false,
    };
    assert_eq!(c.to_byte(), 0x60);
    assert_eq!(Header::from_byte(0x60), c);
}

#[test]
fn header_from_byte_is_total() {
    for b in 0u16..=255 {
        let b = b as u8;
        assert_eq!(Header::from_byte(b).to_byte(), b);
    }
}

#[test]
fn connect_accept_golden_bytes() {
    let b = build_connect_accept(0x0102_0304_0506_0708, 2, 0x1122_3344, false);
    assert_eq!(
        b,
        [
            property::CONNECT_ACCEPT,
            0x08,
            0x07,
            0x06,
            0x05,
            0x04,
            0x03,
            0x02,
            0x01,
            0x02,
            0x00,
            0x44,
            0x33,
            0x22,
            0x11,
        ]
    );
}

#[test]
fn connect_accept_reused_flag() {
    let b = build_connect_accept(0, 0, 0, true);
    assert_eq!(b[10], 1);
}

#[test]
fn ping_pong_golden_bytes() {
    assert_eq!(build_ping(0x0201), [property::PING, 0x01, 0x02]);
    let pong = build_pong(0x0201, 0x0A09_0807_0605_0403);
    assert_eq!(
        pong,
        [
            property::PONG,
            0x01,
            0x02,
            0x03,
            0x04,
            0x05,
            0x06,
            0x07,
            0x08,
            0x09,
            0x0A,
        ]
    );
    assert_eq!(read_sequence(&pong), Some(0x0201));
}

#[test]
fn disconnect_golden_roundtrip() {
    let d = build_disconnect(0x0102_0304_0506_0708);
    assert_eq!(d[0], property::DISCONNECT);
    assert_eq!(read_disconnect_time(&d), Some(0x0102_0304_0506_0708));
}

#[test]
fn unreliable_wraps_payload() {
    let p = build_unreliable(&[0xDE, 0xAD, 0xBE, 0xEF]);
    assert_eq!(p, [property::UNRELIABLE, 0xDE, 0xAD, 0xBE, 0xEF]);
}

#[test]
fn litenet_string_roundtrip() {
    let key = "sailwind-online";
    let enc = write_litenet_string(key);
    assert_eq!(enc[0], 0x10);
    assert_eq!(enc[1], 0x00);
    assert_eq!(enc.len(), 2 + 15);
    assert_eq!(read_litenet_string(&enc).as_deref(), Some(key));

    let empty = write_litenet_string("");
    assert_eq!(empty, vec![0x00, 0x00]);
    assert_eq!(read_litenet_string(&empty).as_deref(), Some(""));
}

#[test]
fn connect_request_roundtrips_through_parser() {
    let data = write_litenet_string("sailwind-online");
    let dg = build_connect_request(0, 0x1122_3344_5566_7788, 42, 16, &data);
    let req = parse_connect_request(&dg).expect("parse");
    assert_eq!(req.connection_number, 0);
    assert_eq!(req.protocol_id, PROTOCOL_ID);
    assert_eq!(req.connect_time, 0x1122_3344_5566_7788);
    assert_eq!(req.peer_id, 42);
    assert_eq!(
        read_litenet_string(&req.connect_data).as_deref(),
        Some("sailwind-online")
    );
}

#[test]
fn connect_request_rejects_bad_addr_size() {
    let data = write_litenet_string("k");
    let dg = build_connect_request(0, 1, 1, 20, &data);
    assert!(parse_connect_request(&dg).is_none());
}

#[test]
fn connect_request_rejects_truncated() {
    assert!(parse_connect_request(&[property::CONNECT_REQUEST; 4]).is_none());
}

#[test]
fn connect_request_with_ipv6_address_and_nonzero_number_parses() {
    let dg = build_connect_request(3, -2, -7, 28, &[9, 8, 7]);
    assert_eq!(dg.len(), protocol::CONNECT_REQUEST_HEADER_SIZE + 28 + 3);
    assert_eq!(dg[0], 0x65);
    let req = parse_connect_request(&dg).expect("parse");
    assert_eq!(req.connection_number, 3);
    assert_eq!(req.connect_time, -2);
    assert_eq!(req.peer_id, -7);
    assert_eq!(req.connect_data, vec![9, 8, 7]);
}

#[test]
fn connect_request_with_truncated_address_is_refused() {
    let dg = build_connect_request(0, 5, 5, 28, &[]);
    assert!(parse_connect_request(&dg[..dg.len() - 1]).is_none());
    assert!(parse_connect_request(&dg).is_some());
}

#[test]
fn connect_request_with_out_of_range_number_or_other_property_is_refused() {
    let mut dg = build_connect_request(0, 5, 5, 16, &[]);
    dg[0] = property::CONNECT_ACCEPT;
    assert!(parse_connect_request(&dg).is_none());
    let dg = build_connect_request(4, 5, 5, 16, &[]);
    // Connection number 4 does not fit the two header bits and wraps to 0.
    assert_eq!(Header::from_byte(dg[0]).connection_number, 0);
    assert!(parse_connect_request(&dg).is_some());
}

#[test]
fn control_packets_keep_only_the_property_bits() {
    assert_eq!(build_control(property::SHUTDOWN_OK), [13]);
    assert_eq!(build_control(property::INVALID_PROTOCOL), [15]);
    assert_eq!(build_control(0xFF), [0x1F]);
    assert_eq!(Header::plain(property::EMPTY).to_byte(), 17);
}

#[test]
fn short_packets_yield_no_sequence_or_time() {
    assert_eq!(read_sequence(&[property::PING, 1]), None);
    assert_eq!(read_disconnect_time(&[property::DISCONNECT; 8]), None);
    assert_eq!(read_sequence(&build_ping(0xBEEF)), Some(0xBEEF));
    assert_eq!(read_disconnect_time(&build_disconnect(-1)), Some(-1));
}

#[test]
fn litenet_string_rejects_truncated_and_invalid_utf8() {
    assert_eq!(read_litenet_string(&[]), None);
    assert_eq!(read_litenet_string(&[0x05]), None);
    assert_eq!(read_litenet_string(&[0x05, 0x00, b'a', b'b']), None);
    assert_eq!(read_litenet_string(&[0x03, 0x00, 0xFF, 0xFE]), None);
    assert_eq!(
        read_litenet_string(&[0x04, 0x00, 0xC3, 0xA9, b'!', 0x77]).as_deref(),
        Some("é!")
    );
    let enc = write_litenet_string("héllo");
    assert_eq!(enc[0], 7);
    assert_eq!(read_litenet_string(&enc).as_deref(), Some("héllo"));
}

#[test]
fn litenet_string_length_prefix_wraps_at_sixteen_bits() {
    let long = "x".repeat(65_535);
    let enc = write_litenet_string(&long);
    assert_eq!(enc[0], 0);
    assert_eq!(enc[1], 0);
    assert_eq!(read_litenet_string(&enc).as_deref(), Some(""));
}

#[test]
fn session_stamped_packets_carry_their_connection_number() {
    assert_eq!(build_ping_for(2, 0x1234), [0x43, 0x34, 0x12]);
    assert_eq!(
        build_pong_for(1, 7, 1),
        [0x24, 7, 0, 1, 0, 0, 0, 0, 0, 0, 0]
    );
    assert_eq!(
        build_disconnect_for(3, -1),
        [0x67, 0xff, 0xff, 0xff, 0xff, 0xff, 0xff, 0xff, 0xff]
    );
    assert_eq!(build_unreliable_for(3, b"hi"), vec![0x60, b'h', b'i']);
    assert_eq!(build_unreliable_for(0, b"hi"), build_unreliable(b"hi"));
    assert_eq!(build_ping_for(0, 9), build_ping(9));
    assert_eq!(Header::from_byte(build_ping_for(3, 0)[0]).connection_number, 3);
}

#[test]
fn dotnet_ticks_count_from_year_one() {
    assert_eq!(protocol::dotnet_ticks_since_unix(None), 621_355_968_000_000_000);
    assert_eq!(protocol::dotnet_ticks_since_unix(Some(1_234)), 621_355_968_000_000_012);
    assert_eq!(protocol::UNIX_EPOCH_TICKS, 621_355_968_000_000_000);
}
