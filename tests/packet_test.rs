use linq::error::IoError;
use linq::packet;
use linq::packet::{ACK, IO_SIZE, PREAMBLE};
use linq::request::Request;

pub const TEST_DATA: &'static str = r#"
        {
          "about": {
            "siteId": "Site ID",
            "prjVersion": "2.6.6",
            "prjVersionRc": "",
            "productKey": "",
            "product": "LINQ2",
            "mqxVersion": "4.2.0",
            "atxVersion": "2.5.2",
            "atxVersionRc": "1",
            "sslVersion": "3.13.0",
            "webVersion": "2.0.0",
            "mfg": "Altronix",
            "user": "",
            "mac": "CC:67:AB:FF:28:A2",
            "sid": "f4q4riVN1GndwjSMmseFG-B_hUHrkze0oBUyKVyOzwg=",
            "iicAddr": 0,
            "policies": 0,
            "users": {},
            "address": 244,
            "io": 0
          }
        }"#;

#[test]
fn test_packet_to_string() {
    let p0: packet::Packets = packet::from_str(TEST_DATA);
    assert_eq!(packet::to_string(&p0.1).unwrap(), TEST_DATA);
}

#[test]
fn test_packet_from_len() {
    let len = packet::from_len(427);
    assert_eq!(len[0], 0xab);
    assert_eq!(len[1], 0x01);
}

#[test]
fn test_packet_from_request_get() {
    let request = Request::get("/ATX/about");
    let packets = packet::from_request(&request);
    assert_eq!(packets.1[0][0..3], [b'G', b'E', b'T']);
}

#[test]
fn test_packet_from_request_post() {
    let request = Request::post_raw("/ATX/about", "{\"foo\"}");
    let packets = packet::from_request(&request);
    assert_eq!(packets.1[0][0..4], [b'P', b'O', b'S', b'T']);
}

#[test]
fn test_packet_to_len_chunks() {
    let len = packet::from_len(427);
    let (size, chunks) = packet::to_len_chunks(&len);
    assert_eq!(size, 427);
    assert_eq!(chunks, 7);
}

#[test]
fn length_round_trips_at_the_edges() {
    for l in [0usize, 1, 255, 256, 427, 65535] {
        assert_eq!(packet::to_len(&packet::from_len(l)), l);
    }
    let f = packet::from_len(65535);
    assert_eq!((f[0], f[1]), (0xff, 0xff));
    assert!(f[2..].iter().all(|b| *b == 0));
    // the length frame keeps two bytes only
    assert_eq!(packet::to_len(&packet::from_len(65536)), 0);
    assert_eq!(packet::to_len(&packet::from_len(65537)), 1);
}

#[test]
fn chunk_count_is_the_ceiling() {
    for (l, c) in [(0usize, 0usize), (1, 1), (63, 1), (64, 1), (65, 2), (128, 2), (10000, 157)] {
        assert_eq!(packet::to_len_chunks(&packet::from_len(l)), (l, c));
    }
}

#[test]
fn payload_frames_are_zero_padded() {
    let bytes: Vec<u8> = (1..=70u8).collect();
    let (len, frames) = packet::from_bytes(&bytes);
    assert_eq!(packet::to_len(&len), 70);
    assert_eq!(frames.len(), 2);
    assert_eq!(frames[0][..], bytes[..64]);
    assert_eq!(frames[1][..6], bytes[64..]);
    assert!(frames[1][6..].iter().all(|b| *b == 0));
    let (len, frames) = packet::from_bytes(&[]);
    assert_eq!(len, packet::from_len(0));
    assert!(frames.is_empty());
}

#[test]
fn round_trip_over_many_lengths() {
    for l in [0usize, 1, 63, 64, 65, 127, 128, 129, 1000, 4096, 9999, 10000] {
        let s: String = (0..l).map(|i| (b'a' + (i % 26) as u8) as char).collect();
        let (len, frames) = packet::from_str(&s);
        assert_eq!(packet::to_len(&len), l);
        assert_eq!(frames.len(), (l + 63) / 64);
        assert_eq!(packet::to_string(&frames).unwrap(), s);
    }
}

#[test]
fn wire_form_joins_fields_with_nul() {
    assert_eq!(Request::get("/a").format_with_null_terminators(), "GET\0/a");
    assert_eq!(Request::post_raw("/a", "{}").format_with_null_terminators(), "POST\0/a\0{}");
    assert_eq!(Request::delete("serial", "/b").format_with_null_terminators(), "DELETE\0/b");
}

#[test]
fn request_frames_split_back_into_fields() {
    let r = Request::post_raw("/ATX/network/ipConfig/ip", "{\"ip\":\"10.0.0.2\"}");
    let (len, frames) = packet::from_request(&r);
    let n = packet::to_len(&len);
    let bytes: Vec<u8> = frames.iter().flat_map(|f| f.iter().copied()).take(n).collect();
    let text = String::from_utf8(bytes).unwrap();
    let fields: Vec<&str> = text.split('\0').collect();
    assert_eq!(fields, vec!["POST", "/ATX/network/ipConfig/ip", "{\"ip\":\"10.0.0.2\"}"]);
}

#[test]
fn to_string_trims_trailing_nul_only() {
    let mut f = [0u8; IO_SIZE];
    f[1] = b'h';
    f[2] = b'i';
    assert_eq!(packet::to_string(&vec![f]).unwrap(), "\0hi");
    assert_eq!(packet::to_string(&vec![ACK, ACK]).unwrap(), "ACKACK");
    assert_eq!(packet::to_string(&vec![]).unwrap(), "");
}

#[test]
fn to_string_rejects_invalid_utf8() {
    let mut f = [0u8; IO_SIZE];
    f[0] = 0xff;
    assert!(matches!(packet::to_string(&vec![ACK, f]), Err(IoError::Parser(_))));
}

#[test]
fn from_vec_splits_off_the_length_frame() {
    let (len, frames) = packet::from_vec(vec![packet::from_len(3), ACK, PREAMBLE]);
    assert_eq!(len, packet::from_len(3));
    assert_eq!(frames, vec![ACK, PREAMBLE]);
}

#[test]
fn nul_inside_a_chunk_survives() {
    let (_, frames) = packet::from_str("a\0b");
    assert_eq!(packet::to_string(&frames).unwrap(), "a\0b");
}
